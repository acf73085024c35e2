//! Mappings, reviews of them, and the radicals that only serve as premises.
use vstd::prelude::*;

verus! {

/// A traditional character and the simplified character assigned to it.
#[derive(PartialEq, Eq, Structural, Clone, Copy, Hash, Debug)]
pub struct Mapping {
    pub trad: char,
    pub simp: char,
}

/// A curator's decision on one character: the proposed mapping, and the
/// character the curator prefers over the proposed simplification, if any.
#[derive(Clone, Copy, Debug)]
pub struct Review {
    pub mapping: Mapping,
    pub fix: Option<char>,
}

impl Mapping {
    pub fn new(trad: char, simp: char) -> (m: Mapping)
        ensures
            m == (Mapping { trad, simp }),
    {
        Mapping { trad, simp }
    }

    /// A mapping of a character to itself says nothing.
    pub open spec fn is_identity(self) -> bool {
        self.trad == self.simp
    }
}

impl Review {
    /// The mapping a review stands for: its traditional character with the
    /// curator's fix where there is one, with the proposed simplification
    /// where there is none.
    pub open spec fn derived(self) -> Mapping {
        match self.fix {
            Some(fix) => Mapping { trad: self.mapping.trad, simp: fix },
            None => self.mapping,
        }
    }

    pub fn derive_mapping(&self) -> (m: Mapping)
        ensures
            m == self.derived(),
    {
        match self.fix {
            Some(fix) => Mapping { trad: self.mapping.trad, simp: fix },
            None => self.mapping,
        }
    }
}

/// The mappings that a batch of reviews stands for, in order, without the
/// identities.
pub open spec fn derive_all(reviews: Seq<Review>) -> Seq<Mapping> {
    reviews.map_values(|r: Review| r.derived()).filter(|m: Mapping| !m.is_identity())
}

pub fn derive_mappings(reviews: Vec<Review>) -> (mappings: Vec<Mapping>)
    ensures
        mappings@ == derive_all(reviews@),
{
    let mut mappings: Vec<Mapping> = Vec::new();
    let mut i: usize = 0;
    proof {
        assert(reviews@.take(0) =~= Seq::<Review>::empty());
        assert(Seq::<Review>::empty().map_values(|r: Review| r.derived()) =~= Seq::<
            Mapping,
        >::empty());
        Seq::<Mapping>::empty().lemma_filter_len(|m: Mapping| !m.is_identity());
    }
    while i < reviews.len()
        invariant
            i <= reviews.len(),
            mappings@ == derive_all(reviews@.take(i as int)),
        decreases reviews.len() - i,
    {
        let mapping = reviews[i].derive_mapping();
        proof {
            let prefix = reviews@.take(i as int);
            reviews@.lemma_take_succ_push(i as int);
            prefix.lemma_push_map_commute(|r: Review| r.derived(), reviews@[i as int]);
            prefix.map_values(|r: Review| r.derived()).lemma_filter_push(
                mapping,
                |m: Mapping| !m.is_identity(),
            );
        }
        if mapping.trad != mapping.simp {
            mappings.push(mapping);
        }
        i += 1;
    }
    proof {
        assert(reviews@.take(reviews.len() as int) =~= reviews@);
    }
    mappings
}

/// The components that carry a simplification of their own but cannot stand
/// alone in a text: they serve as premises of analogy rules only.
pub open spec fn radical(c: char) -> bool {
    c == '訁' || c == '飠' || c == '糹' || c == '𤇾' || c == '𰯲' || c == '釒' || c == '𦥯'
        || c == '䜌' || c == '睪' || c == '巠' || c == '咼' || c == '昜' || c == '臤' || c
        == '戠'
}

pub fn is_radical(c: char) -> (b: bool)
    ensures
        b == radical(c),
{
    c == '訁' || c == '飠' || c == '糹' || c == '𤇾' || c == '𰯲' || c == '釒' || c == '𦥯'
        || c == '䜌' || c == '睪' || c == '巠' || c == '咼' || c == '昜' || c == '臤' || c
        == '戠'
}

/// Some mapping of the list has the traditional character.
pub open spec fn has_trad(list: Seq<Mapping>, trad: char) -> bool {
    exists|i: int| 0 <= i < list.len() && (#[trigger] list[i]).trad == trad
}

/// The mappings that reviews stand for are no identities, and each is the
/// mapping of one of the reviews.
pub proof fn lemma_derive_all_entries(reviews: Seq<Review>, k: int)
    requires
        0 <= k < derive_all(reviews).len(),
    ensures
        !derive_all(reviews)[k].is_identity(),
        exists|i: int|
            0 <= i < reviews.len() && (#[trigger] reviews[i]).derived() == derive_all(
                reviews,
            )[k],
{
    let mapped = reviews.map_values(|r: Review| r.derived());
    let m = derive_all(reviews)[k];
    mapped.lemma_filter_pred(|m: Mapping| !m.is_identity(), k);
    assert(derive_all(reviews).contains(m));
    mapped.lemma_filter_contains_rev(|m: Mapping| !m.is_identity(), m);
    assert(mapped.contains(m));
    let i = choose|i: int| 0 <= i < mapped.len() && mapped[i] == m;
    assert(reviews[i].derived() == m);
}

} // verus!
