//! From reviews and rules to the table and its text.
//!
//! The explicit decisions come first.  Each is carried one step further where
//! its simplified character has itself a resolved analogy.  Behind them come
//! the winning outputs of the accepted rules, in the order of the rules.  Of
//! several entries for one traditional character the first stays, so that an
//! explicit decision is never displaced by an analogy.
//!
//! An explicit decision is carried one step and no further: where the
//! resolved analogy of its simplified character points at a character that
//! has a resolved analogy of its own, that second step is not taken.
use crate::mapping::derive_all;
use crate::mapping::derive_mappings;
use crate::mapping::has_trad;
use crate::mapping::Mapping;
use crate::mapping::Review;
use crate::resolve::resolution;
use crate::resolve::resolve;
use crate::rule::accepted_outputs;
use crate::rule::lemma_rules_step;
use crate::rule::rule_views;
use crate::rule::score_rules;
use crate::rule::scores;
use crate::rule::total_outputs;
use crate::rule::Rule;
use crate::rule::RuleSpec;
use crate::rule::SCORE_LIMIT;
use crate::tables::CharSet;
use crate::tables::MappingSet;
use crate::tables::Resolution;
use crate::text::push_char;
use vstd::prelude::*;

verus! {

/// The mappings that may serve as premises: the decisions on radicals and
/// the decisions on the characters that analogies are drawn from.
pub open spec fn premise_set(radicals: Seq<Mapping>, ichars: Seq<Mapping>) -> Set<Mapping> {
    radicals.to_set().union(ichars.to_set())
}

/// An explicit decision after chaining: where its simplified character has a
/// resolved analogy, it points at that analogy's simplification.
pub open spec fn chain(m: Mapping, res: Map<char, char>) -> Mapping {
    if res.contains_key(m.simp) {
        Mapping { trad: m.trad, simp: res[m.simp] }
    } else {
        m
    }
}

/// The pool with every decision chained.
pub open spec fn chain_all(pool: Seq<Mapping>, res: Map<char, char>) -> Seq<Mapping> {
    Seq::new(pool.len(), |i: int| chain(pool[i], res))
}

/// The mapping is the resolved analogy of its traditional character.
pub open spec fn wins(m: Mapping, res: Map<char, char>) -> bool {
    res.contains_key(m.trad) && res[m.trad] == m.simp
}

/// The candidates that are the resolved analogy of their character, in
/// their order.
pub open spec fn winning_outputs(cands: Seq<Mapping>, res: Map<char, char>) -> Seq<Mapping>
    decreases cands.len(),
{
    if cands.len() == 0 {
        Seq::empty()
    } else if wins(cands.last(), res) {
        winning_outputs(cands.drop_last(), res).push(cands.last())
    } else {
        winning_outputs(cands.drop_last(), res)
    }
}

/// No earlier entry of the pool has the traditional character of entry `i`.
pub open spec fn first_of_trad(pool: Seq<Mapping>, i: int) -> bool {
    &&& 0 <= i < pool.len()
    &&& forall|j: int| 0 <= j < i ==> (#[trigger] pool[j]).trad != pool[i].trad
}

/// The pool without the entries whose traditional character an earlier
/// entry has.
pub open spec fn dedup(pool: Seq<Mapping>) -> Seq<Mapping>
    decreases pool.len(),
{
    if pool.len() == 0 {
        Seq::empty()
    } else if first_of_trad(pool, pool.len() - 1) {
        dedup(pool.drop_last()).push(pool.last())
    } else {
        dedup(pool.drop_last())
    }
}

/// Some entry of the pool is the first of its traditional character and is
/// the mapping.
pub open spec fn listed_first(pool: Seq<Mapping>, m: Mapping) -> bool {
    exists|i: int| first_of_trad(pool, i) && (#[trigger] pool[i]) == m
}

/// Whether an entry is the first of its traditional character does not
/// depend on the entries behind it.
proof fn lemma_first_of_trad_prefix(pool: Seq<Mapping>, i: int)
    requires
        0 <= i < pool.len() - 1,
    ensures
        first_of_trad(pool.drop_last(), i) == first_of_trad(pool, i),
{
    let init = pool.drop_last();
    assert(init[i] == pool[i]);
    if first_of_trad(init, i) {
        assert forall|j: int| 0 <= j < i implies (#[trigger] pool[j]).trad != pool[i].trad by {
            assert(init[j] == pool[j]);
        }
    }
    if first_of_trad(pool, i) {
        assert forall|j: int| 0 <= j < i implies (#[trigger] init[j]).trad != init[i].trad by {
            assert(init[j] == pool[j]);
        }
    }
}

/// What is left of a pool are the entries that are the first of their
/// traditional character.
pub proof fn lemma_dedup_contains(pool: Seq<Mapping>, m: Mapping)
    ensures
        dedup(pool).contains(m) <==> listed_first(pool, m),
    decreases pool.len(),
{
    if pool.len() > 0 {
        let init = pool.drop_last();
        let n = pool.len() - 1;
        lemma_dedup_contains(init, m);
        assert forall|i: int| 0 <= i < n implies first_of_trad(init, i) == first_of_trad(
            pool,
            i,
        ) by {
            lemma_first_of_trad_prefix(pool, i);
        }
        if dedup(pool).contains(m) {
            let k = choose|k: int| 0 <= k < dedup(pool).len() && dedup(pool)[k] == m;
            if k < dedup(init).len() {
                assert(dedup(init)[k] == m);
                assert(dedup(init).contains(m));
                let i = choose|i: int| first_of_trad(init, i) && (#[trigger] init[i]) == m;
                assert(first_of_trad(pool, i) && pool[i] == m);
            } else {
                assert(first_of_trad(pool, n) && pool[n] == m);
            }
        }
        if listed_first(pool, m) {
            let i = choose|i: int| first_of_trad(pool, i) && (#[trigger] pool[i]) == m;
            if i < n {
                assert(first_of_trad(init, i) && init[i] == m);
                assert(dedup(init).contains(m));
                let k = choose|k: int| 0 <= k < dedup(init).len() && dedup(init)[k] == m;
                assert(dedup(pool)[k] == m);
            } else {
                assert(dedup(pool)[dedup(pool).len() - 1] == m);
            }
        }
    }
}

/// No two entries that are left of a pool share a traditional character.
pub proof fn lemma_dedup_unique(pool: Seq<Mapping>)
    ensures
        forall|a: int, b: int|
            0 <= a < b < dedup(pool).len() ==> (#[trigger] dedup(pool)[a]).trad != (
            #[trigger] dedup(pool)[b]).trad,
    decreases pool.len(),
{
    if pool.len() > 0 {
        let init = pool.drop_last();
        let n = pool.len() - 1;
        lemma_dedup_unique(init);
        if first_of_trad(pool, n) {
            assert forall|a: int| 0 <= a < dedup(init).len() implies (#[trigger] dedup(
                init,
            )[a]).trad != pool[n].trad by {
                let m = dedup(init)[a];
                assert(dedup(init).contains(m));
                lemma_dedup_contains(init, m);
                let i = choose|i: int| first_of_trad(init, i) && (#[trigger] init[i]) == m;
                assert(pool[i] == m);
            }
        }
    }
}

/// A traditional character that the pool has, has a first entry.
pub proof fn lemma_first_exists(pool: Seq<Mapping>, trad: char)
    requires
        has_trad(pool, trad),
    ensures
        exists|i: int| first_of_trad(pool, i) && (#[trigger] pool[i]).trad == trad,
    decreases pool.len(),
{
    let init = pool.drop_last();
    let n = pool.len() - 1;
    let w = choose|i: int| 0 <= i < pool.len() && (#[trigger] pool[i]).trad == trad;
    if has_trad(init, trad) {
        lemma_first_exists(init, trad);
        let i = choose|i: int| first_of_trad(init, i) && (#[trigger] init[i]).trad == trad;
        lemma_first_of_trad_prefix(pool, i);
        assert(first_of_trad(pool, i) && pool[i].trad == trad);
    } else {
        if w < n {
            assert(init[w].trad == trad);
        }
        assert forall|j: int| 0 <= j < n implies (#[trigger] pool[j]).trad != pool[n].trad by {
            assert(init[j] == pool[j]);
        }
        assert(first_of_trad(pool, n) && pool[n].trad == trad);
    }
}

/// The winning outputs are the candidates that are the resolved analogy of
/// their character.
pub proof fn lemma_winning_contains(cands: Seq<Mapping>, res: Map<char, char>, m: Mapping)
    ensures
        winning_outputs(cands, res).contains(m) <==> cands.contains(m) && wins(m, res),
    decreases cands.len(),
{
    if cands.len() > 0 {
        let init = cands.drop_last();
        let won = winning_outputs(cands, res);
        lemma_winning_contains(init, res, m);
        if won.contains(m) {
            let k = choose|k: int| 0 <= k < won.len() && won[k] == m;
            if k < winning_outputs(init, res).len() {
                assert(winning_outputs(init, res)[k] == m);
                assert(winning_outputs(init, res).contains(m));
                let i = choose|i: int| 0 <= i < init.len() && init[i] == m;
                assert(cands[i] == m);
            } else {
                assert(cands[cands.len() - 1] == m);
            }
        }
        if cands.contains(m) && wins(m, res) {
            let i = choose|i: int| 0 <= i < cands.len() && cands[i] == m;
            if i < init.len() {
                assert(init[i] == m);
                assert(init.contains(m));
                let k = choose|k: int|
                    0 <= k < winning_outputs(init, res).len() && winning_outputs(init, res)[k]
                        == m;
                assert(won[k] == m);
            } else {
                assert(won[won.len() - 1] == m);
            }
        }
    }
}

/// The line of one entry: the traditional character, a tab, the simplified
/// character, a line feed.
pub open spec fn line(m: Mapping) -> Seq<char> {
    seq![m.trad, '\t', m.simp, '\n']
}

/// The text of a table: the lines of its entries, one after the other.
pub open spec fn render(table: Seq<Mapping>) -> Seq<char>
    decreases table.len(),
{
    if table.len() == 0 {
        Seq::empty()
    } else {
        render(table.drop_last()) + line(table.last())
    }
}

/// The explicit decisions: those on standalone characters, then those on the
/// characters that analogies are drawn from.
pub open spec fn explicit_pool(chars: Seq<Review>, ichars: Seq<Review>) -> Seq<Mapping> {
    derive_all(chars) + derive_all(ichars)
}

/// The premises that the reviews give.
pub open spec fn premises_of(ichars: Seq<Review>, radicals: Seq<Review>) -> Set<Mapping> {
    premise_set(derive_all(radicals), derive_all(ichars))
}

/// The resolved analogies that reviews and rules give.
pub open spec fn resolution_of(
    ichars: Seq<Review>,
    radicals: Seq<Review>,
    rules: Seq<RuleSpec>,
) -> Map<char, char> {
    let premises = premises_of(ichars, radicals);
    resolution(accepted_outputs(rules, premises), scores(rules, premises))
}

/// The pool before entries are dropped: the chained explicit decisions, then
/// the winning outputs of the accepted rules.
pub open spec fn full_pool(
    chars: Seq<Review>,
    ichars: Seq<Review>,
    radicals: Seq<Review>,
    rules: Seq<RuleSpec>,
) -> Seq<Mapping> {
    let res = resolution_of(ichars, radicals, rules);
    chain_all(explicit_pool(chars, ichars), res) + winning_outputs(
        accepted_outputs(rules, premises_of(ichars, radicals)),
        res,
    )
}

/// The table that reviews and rules give.
pub open spec fn table(
    chars: Seq<Review>,
    ichars: Seq<Review>,
    radicals: Seq<Review>,
    rules: Seq<RuleSpec>,
) -> Seq<Mapping> {
    dedup(full_pool(chars, ichars, radicals, rules))
}

/// Adds the mappings of a list to a set.
pub fn insert_all(set: &mut MappingSet, list: &Vec<Mapping>)
    ensures
        final(set)@ == old(set)@.union(list@.to_set()),
{
    let mut i: usize = 0;
    proof {
        assert(set@ =~= old(set)@.union(list@.take(0).to_set()));
    }
    while i < list.len()
        invariant
            i <= list.len(),
            set@ == old(set)@.union(list@.take(i as int).to_set()),
        decreases list.len() - i,
    {
        let ghost before = set@;
        set.insert(list[i]);
        proof {
            list@.lemma_take_succ_push(i as int);
            list@.take(i as int).lemma_push_to_set_commute(list@[i as int]);
            assert(set@ =~= old(set)@.union(list@.take(i as int + 1).to_set()));
        }
        i += 1;
    }
    proof {
        assert(list@.take(list.len() as int) =~= list@);
    }
}

/// Appends the mappings of a list to a pool.
pub fn append_all(pool: &mut Vec<Mapping>, list: &Vec<Mapping>)
    ensures
        final(pool)@ == old(pool)@ + list@,
{
    let mut i: usize = 0;
    proof {
        assert(pool@ =~= old(pool)@ + list@.take(0));
    }
    while i < list.len()
        invariant
            i <= list.len(),
            pool@ == old(pool)@ + list@.take(i as int),
        decreases list.len() - i,
    {
        pool.push(list[i]);
        proof {
            list@.lemma_take_succ_push(i as int);
            assert(pool@ =~= old(pool)@ + list@.take(i as int + 1));
        }
        i += 1;
    }
    proof {
        assert(list@.take(list.len() as int) =~= list@);
    }
}

/// Chains every decision of the pool, in place.
pub fn chain_pool(pool: &mut Vec<Mapping>, res: &Resolution)
    ensures
        final(pool)@ == chain_all(old(pool)@, res@),
{
    let mut i: usize = 0;
    while i < pool.len()
        invariant
            i <= pool.len(),
            pool.len() == old(pool).len(),
            forall|j: int| 0 <= j < i ==> pool@[j] == chain(old(pool)@[j], res@),
            forall|j: int| i <= j < pool.len() ==> pool@[j] == old(pool)@[j],
        decreases pool.len() - i,
    {
        let m = pool[i];
        let chained = match res.get(m.simp) {
            Some(simp) => Mapping { trad: m.trad, simp },
            None => m,
        };
        pool[i] = chained;
        i += 1;
    }
    proof {
        assert(pool@ =~= chain_all(old(pool)@, res@));
    }
}

proof fn lemma_winning_outputs_push(cands: Seq<Mapping>, res: Map<char, char>, m: Mapping)
    ensures
        winning_outputs(cands.push(m), res) == if wins(m, res) {
            winning_outputs(cands, res).push(m)
        } else {
            winning_outputs(cands, res)
        },
{
    assert(cands.push(m).drop_last() =~= cands);
}

/// Appends to the pool the outputs of the accepted rules that are the
/// resolved analogy of their character, in the order of the rules.
pub fn append_winners(
    pool: &mut Vec<Mapping>,
    rules: &Vec<Rule>,
    premises: &MappingSet,
    res: &Resolution,
)
    ensures
        final(pool)@ == old(pool)@ + winning_outputs(
            accepted_outputs(rule_views(rules@), premises@),
            res@,
        ),
{
    let ghost views = rule_views(rules@);
    let mut i: usize = 0;
    proof {
        assert(views.take(0) =~= Seq::<RuleSpec>::empty());
        assert(pool@ =~= old(pool)@ + winning_outputs(
            accepted_outputs(views.take(0), premises@),
            res@,
        ));
    }
    while i < rules.len()
        invariant
            i <= rules.len(),
            views == rule_views(rules@),
            pool@ == old(pool)@ + winning_outputs(
                accepted_outputs(views.take(i as int), premises@),
                res@,
            ),
        decreases rules.len() - i,
    {
        let rule = &rules[i];
        proof {
            assert(views[i as int] == rule@);
            lemma_rules_step(views, premises@, i as int);
        }
        if premises.contains(rule.premise) {
            let ghost base = accepted_outputs(views.take(i as int), premises@);
            let ghost output = rule.output@;
            let mut k: usize = 0;
            proof {
                assert(base + output.take(0) =~= base);
            }
            while k < rule.output.len()
                invariant
                    k <= rule.output.len(),
                    output == rule.output@,
                    pool@ == old(pool)@ + winning_outputs(base + output.take(k as int), res@),
                decreases rule.output.len() - k,
            {
                let m = rule.output[k];
                proof {
                    output.lemma_take_succ_push(k as int);
                    assert(base + output.take(k as int + 1) =~= (base + output.take(
                        k as int,
                    )).push(m));
                    lemma_winning_outputs_push(base + output.take(k as int), res@, m);
                }
                let chosen = match res.get(m.trad) {
                    Some(simp) => simp == m.simp,
                    None => false,
                };
                if chosen {
                    pool.push(m);
                    proof {
                        assert(pool@ =~= old(pool)@ + winning_outputs(
                            base + output.take(k as int + 1),
                            res@,
                        ));
                    }
                }
                k += 1;
            }
            proof {
                assert(output.take(rule.output.len() as int) =~= output);
            }
        }
        i += 1;
    }
    proof {
        assert(views.take(rules.len() as int) =~= views);
    }
}

/// Drops every entry whose traditional character an earlier entry has.
pub fn dedup_by_trad(pool: &Vec<Mapping>) -> (table: Vec<Mapping>)
    ensures
        table@ == dedup(pool@),
        forall|a: int, b: int|
            0 <= a < b < table@.len() ==> (#[trigger] table@[a]).trad != (#[trigger] table@[b]).trad,
{
    let mut table: Vec<Mapping> = Vec::new();
    let mut seen = CharSet::new();
    let mut i: usize = 0;
    proof {
        assert(pool@.take(0) =~= Seq::<Mapping>::empty());
    }
    while i < pool.len()
        invariant
            i <= pool.len(),
            table@ == dedup(pool@.take(i as int)),
            forall|c: char|
                seen@.contains(c) <==> exists|j: int| 0 <= j < i && (#[trigger] pool@[j]).trad == c,
        decreases pool.len() - i,
    {
        let m = pool[i];
        let ghost prefix = pool@.take(i as int + 1);
        proof {
            pool@.lemma_take_succ_push(i as int);
            assert(prefix.drop_last() =~= pool@.take(i as int));
            assert(prefix.last() == m);
            assert forall|j: int| 0 <= j <= i implies #[trigger] prefix[j] == pool@[j] by {}
            if seen@.contains(m.trad) {
                let j = choose|j: int| 0 <= j < i && (#[trigger] pool@[j]).trad == m.trad;
                assert(prefix[j].trad == prefix[i as int].trad);
                assert(!first_of_trad(prefix, i as int));
            } else {
                assert forall|j: int| 0 <= j < i implies (#[trigger] prefix[j]).trad
                    != prefix[i as int].trad by {
                    assert(pool@[j].trad != m.trad);
                }
                assert(first_of_trad(prefix, i as int));
            }
        }
        if seen.insert(m.trad) {
            table.push(m);
        }
        i += 1;
    }
    proof {
        assert(pool@.take(pool.len() as int) =~= pool@);
        lemma_dedup_unique(pool@);
    }
    table
}

/// Writes a table as text, one line for each entry.
pub fn render_table(table: &Vec<Mapping>) -> (text: String)
    ensures
        text@ == render(table@),
{
    let mut text = String::new();
    let mut i: usize = 0;
    proof {
        assert(table@.take(0) =~= Seq::<Mapping>::empty());
    }
    while i < table.len()
        invariant
            i <= table.len(),
            text@ == render(table@.take(i as int)),
        decreases table.len() - i,
    {
        let m = table[i];
        let ghost before = text@;
        push_char(&mut text, m.trad);
        push_char(&mut text, '\t');
        push_char(&mut text, m.simp);
        push_char(&mut text, '\n');
        proof {
            table@.lemma_take_succ_push(i as int);
            assert(table@.take(i as int + 1).drop_last() =~= table@.take(i as int));
            assert(text@ =~= before + line(m));
        }
        i += 1;
    }
    proof {
        assert(table@.take(table.len() as int) =~= table@);
    }
    text
}

/// Derives the table: one entry for each traditional character that has an
/// explicit decision or a resolved analogy.
pub fn derive_table(
    char_reviews: Vec<Review>,
    ichar_reviews: Vec<Review>,
    radical_reviews: Vec<Review>,
    rules: &Vec<Rule>,
) -> (entries: Vec<Mapping>)
    requires
        total_outputs(rule_views(rules@)) <= SCORE_LIMIT,
    ensures
        entries@ == table(char_reviews@, ichar_reviews@, radical_reviews@, rule_views(rules@)),
        forall|a: int, b: int|
            0 <= a < b < entries@.len() ==> (#[trigger] entries@[a]).trad != (
            #[trigger] entries@[b]).trad,
{
    let mut pool = derive_mappings(char_reviews);
    let radical_mappings = derive_mappings(radical_reviews);
    let ichar_mappings = derive_mappings(ichar_reviews);
    let mut premises = MappingSet::new();
    insert_all(&mut premises, &radical_mappings);
    insert_all(&mut premises, &ichar_mappings);
    append_all(&mut pool, &ichar_mappings);
    proof {
        assert(premises@ =~= premises_of(ichar_reviews@, radical_reviews@));
        assert(pool@ == explicit_pool(char_reviews@, ichar_reviews@));
    }
    let scores = score_rules(rules, &premises);
    let res = resolve(rules, &premises, &scores);
    chain_pool(&mut pool, &res);
    append_winners(&mut pool, rules, &premises, &res);
    dedup_by_trad(&pool)
}

/// Derives the table and writes it as text.
pub fn gen(
    char_reviews: Vec<Review>,
    ichar_reviews: Vec<Review>,
    radical_reviews: Vec<Review>,
    rules: Vec<Rule>,
) -> (text: String)
    requires
        total_outputs(rule_views(rules@)) <= SCORE_LIMIT,
    ensures
        text@ == render(
            table(char_reviews@, ichar_reviews@, radical_reviews@, rule_views(rules@)),
        ),
{
    let entries = derive_table(char_reviews, ichar_reviews, radical_reviews, &rules);
    render_table(&entries)
}

} // verus!
