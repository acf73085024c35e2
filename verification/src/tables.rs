//! Hash tables keyed by characters and mappings.
//!
//! The standard hash collections are keyed here by integers: a character by
//! its code point, a mapping by its two code points side by side.  Each table
//! is seen through the characters and mappings that the keys stand for.
use crate::mapping::Mapping;
use std::collections::HashMap;
use std::collections::HashSet;
use vstd::prelude::*;

verus! {

broadcast use vstd::std_specs::hash::group_hash_axioms;

/// The integer that stands for a character in a table.
pub open spec fn char_key(c: char) -> u32 {
    c as u32
}

/// The integer that stands for a mapping in a table: the code point of the
/// traditional character in the upper half, that of the simplified character
/// in the lower half.
pub open spec fn mapping_key(m: Mapping) -> u64 {
    (char_key(m.trad) * 0x1_0000_0000 + char_key(m.simp)) as u64
}

/// Two characters with one key are one character.
pub proof fn lemma_char_key_injective(a: char, b: char)
    ensures
        char_key(a) == char_key(b) <==> a == b,
{
}

/// Two mappings with one key are one mapping.
pub proof fn lemma_mapping_key_injective(a: Mapping, b: Mapping)
    ensures
        mapping_key(a) == mapping_key(b) <==> a == b,
{
    lemma_char_key_injective(a.trad, b.trad);
    lemma_char_key_injective(a.simp, b.simp);
}

fn key_of_char(c: char) -> (k: u32)
    ensures
        k == char_key(c),
{
    c as u32
}

fn key_of_mapping(m: Mapping) -> (k: u64)
    ensures
        k == mapping_key(m),
{
    let hi: u64 = m.trad as u64;
    let lo: u64 = m.simp as u64;
    hi * 0x1_0000_0000 + lo
}

/// A finite set of characters.
pub struct CharSet {
    keys: HashSet<u32>,
}

impl View for CharSet {
    type V = Set<char>;

    closed spec fn view(&self) -> Set<char> {
        Set::new(|c: char| self.keys@.contains(char_key(c)))
    }
}

impl CharSet {
    pub fn new() -> (s: Self)
        ensures
            s@ == Set::<char>::empty(),
    {
        let s = CharSet { keys: HashSet::new() };
        assert(s@ =~= Set::<char>::empty());
        s
    }

    /// Adds a character and tells whether it was absent before.
    pub fn insert(&mut self, c: char) -> (fresh: bool)
        ensures
            final(self)@ == old(self)@.insert(c),
            fresh == !old(self)@.contains(c),
    {
        let fresh = self.keys.insert(key_of_char(c));
        proof {
            assert forall|d: char| final(self)@.contains(d) == old(self)@.insert(c).contains(
                d,
            ) by {
                lemma_char_key_injective(c, d);
            }
            assert(final(self)@ =~= old(self)@.insert(c));
        }
        fresh
    }

    pub fn contains(&self, c: char) -> (b: bool)
        ensures
            b == self@.contains(c),
    {
        let k = key_of_char(c);
        self.keys.contains(&k)
    }
}

/// A finite set of mappings.
pub struct MappingSet {
    keys: HashSet<u64>,
}

impl View for MappingSet {
    type V = Set<Mapping>;

    closed spec fn view(&self) -> Set<Mapping> {
        Set::new(|m: Mapping| self.keys@.contains(mapping_key(m)))
    }
}

impl MappingSet {
    pub fn new() -> (s: Self)
        ensures
            s@ == Set::<Mapping>::empty(),
    {
        let s = MappingSet { keys: HashSet::new() };
        assert(s@ =~= Set::<Mapping>::empty());
        s
    }

    pub fn insert(&mut self, m: Mapping)
        ensures
            final(self)@ == old(self)@.insert(m),
    {
        self.keys.insert(key_of_mapping(m));
        proof {
            assert forall|n: Mapping| final(self)@.contains(n) == old(self)@.insert(m).contains(
                n,
            ) by {
                lemma_mapping_key_injective(m, n);
            }
            assert(final(self)@ =~= old(self)@.insert(m));
        }
    }

    pub fn contains(&self, m: Mapping) -> (b: bool)
        ensures
            b == self@.contains(m),
    {
        let k = key_of_mapping(m);
        self.keys.contains(&k)
    }
}

/// A score for every mapping, zero for all but finitely many.
pub struct ScoreTable {
    scores: HashMap<u64, i64>,
}

impl View for ScoreTable {
    type V = Map<Mapping, int>;

    closed spec fn view(&self) -> Map<Mapping, int> {
        Map::total(
            |m: Mapping|
                if self.scores@.contains_key(mapping_key(m)) {
                    self.scores@[mapping_key(m)] as int
                } else {
                    0
                },
        )
    }
}

impl ScoreTable {
    pub fn new() -> (t: Self)
        ensures
            t@ == Map::total(|m: Mapping| 0int),
    {
        let t = ScoreTable { scores: HashMap::new() };
        assert(t@ =~= Map::total(|m: Mapping| 0int));
        t
    }

    pub fn get(&self, m: Mapping) -> (score: i64)
        ensures
            score == self@[m],
    {
        let k = key_of_mapping(m);
        match self.scores.get(&k) {
            Some(score) => *score,
            None => 0,
        }
    }

    /// Adds `delta` to the score of one mapping and leaves the others.
    pub fn adjust(&mut self, m: Mapping, delta: i64)
        requires
            i64::MIN <= old(self)@[m] + delta <= i64::MAX,
        ensures
            final(self)@ == old(self)@.insert(m, old(self)@[m] + delta),
    {
        let score = self.get(m) + delta;
        self.scores.insert(key_of_mapping(m), score);
        proof {
            assert forall|n: Mapping| #[trigger]
                final(self)@[n] == old(self)@.insert(m, old(self)@[m] + delta)[n] by {
                lemma_mapping_key_injective(m, n);
            }
            assert(final(self)@ =~= old(self)@.insert(m, old(self)@[m] + delta));
        }
    }
}

/// The simplification chosen for each of finitely many characters.
pub struct Resolution {
    simps: HashMap<u32, char>,
}

impl View for Resolution {
    type V = Map<char, char>;

    closed spec fn view(&self) -> Map<char, char> {
        Map::new(
            |t: char| self.simps@.contains_key(char_key(t)),
            |t: char| self.simps@[char_key(t)],
        )
    }
}

impl Resolution {
    pub fn new() -> (r: Self)
        ensures
            r@ == Map::<char, char>::empty(),
    {
        let r = Resolution { simps: HashMap::new() };
        assert(r@ =~= Map::<char, char>::empty());
        r
    }

    pub fn insert(&mut self, trad: char, simp: char)
        ensures
            final(self)@ == old(self)@.insert(trad, simp),
    {
        self.simps.insert(key_of_char(trad), simp);
        proof {
            assert forall|t: char|
                final(self)@.contains_key(t) == old(self)@.insert(trad, simp).contains_key(
                    t,
                ) by {
                lemma_char_key_injective(trad, t);
            }
            assert forall|t: char| final(self)@.contains_key(t) implies final(self)@[t] == old(
                self,
            )@.insert(trad, simp)[t] by {
                lemma_char_key_injective(trad, t);
            }
            assert(final(self)@ =~= old(self)@.insert(trad, simp));
        }
    }

    pub fn get(&self, trad: char) -> (simp: Option<char>)
        ensures
            simp == (if self@.contains_key(trad) {
                Some(self@[trad])
            } else {
                None
            }),
    {
        let k = key_of_char(trad);
        match self.simps.get(&k) {
            Some(simp) => Some(*simp),
            None => None,
        }
    }
}

} // verus!
