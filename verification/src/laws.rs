//! What holds of every table that reviews and rules give.
use crate::assemble::chain;
use crate::assemble::explicit_pool;
use crate::assemble::first_of_trad;
use crate::assemble::full_pool;
use crate::assemble::premises_of;
use crate::assemble::render;
use crate::assemble::resolution_of;
use crate::assemble::table;
use crate::assemble::winning_outputs;
use crate::assemble::wins;
use crate::assemble::lemma_dedup_contains;
use crate::assemble::lemma_dedup_unique;
use crate::assemble::lemma_first_exists;
use crate::assemble::lemma_winning_contains;
use crate::mapping::derive_all;
use crate::mapping::has_trad;
use crate::mapping::lemma_derive_all_entries;
use crate::mapping::radical;
use crate::mapping::Mapping;
use crate::mapping::Review;
use crate::parse::lemma_reviews_where_entries;
use crate::parse::reviews_where;
use crate::resolve::lemma_top_exists;
use crate::resolve::resolution;
use crate::resolve::top_index;
use crate::rule::accepted_outputs;
use crate::rule::occurrences;
use crate::rule::rule_views;
use crate::rule::score;
use crate::rule::scores;
use crate::rule::Rule;
use crate::rule::RuleSpec;
use vstd::prelude::*;

verus! {

/// Uniqueness: no two entries of the table share a traditional character.
pub proof fn lemma_table_unique(
    chars: Seq<Review>,
    ichars: Seq<Review>,
    radicals: Seq<Review>,
    rules: Seq<RuleSpec>,
)
    ensures
        forall|a: int, b: int|
            0 <= a < b < table(chars, ichars, radicals, rules).len() ==> (#[trigger] table(
                chars,
                ichars,
                radicals,
                rules,
            )[a]).trad != (#[trigger] table(chars, ichars, radicals, rules)[b]).trad,
{
    lemma_dedup_unique(full_pool(chars, ichars, radicals, rules));
}

/// Explicit precedence: the first explicit decision on a character, chained,
/// is in the table, and it is the only entry for that character, whatever
/// the rules propose for it.
pub proof fn lemma_explicit_precedence(
    chars: Seq<Review>,
    ichars: Seq<Review>,
    radicals: Seq<Review>,
    rules: Seq<RuleSpec>,
    i: int,
)
    requires
        first_of_trad(explicit_pool(chars, ichars), i),
    ensures
        table(chars, ichars, radicals, rules).contains(
            chain(explicit_pool(chars, ichars)[i], resolution_of(ichars, radicals, rules)),
        ),
        forall|m: Mapping|
            table(chars, ichars, radicals, rules).contains(m) && m.trad == explicit_pool(
                chars,
                ichars,
            )[i].trad ==> m == chain(
                explicit_pool(chars, ichars)[i],
                resolution_of(ichars, radicals, rules),
            ),
{
    let pool = explicit_pool(chars, ichars);
    let res = resolution_of(ichars, radicals, rules);
    let full = full_pool(chars, ichars, radicals, rules);
    let entry = chain(pool[i], res);
    assert forall|j: int| 0 <= j < pool.len() implies #[trigger] full[j] == chain(
        pool[j],
        res,
    ) by {}
    assert(full[i] == entry);
    assert forall|j: int| 0 <= j < i implies (#[trigger] full[j]).trad != full[i].trad by {
        assert(pool[j].trad != pool[i].trad);
    }
    assert(first_of_trad(full, i));
    lemma_dedup_contains(full, entry);
    assert forall|m: Mapping|
        table(chars, ichars, radicals, rules).contains(m) && m.trad == pool[i].trad implies m
        == entry by {
        lemma_dedup_contains(full, m);
        let j = choose|j: int| first_of_trad(full, j) && (#[trigger] full[j]) == m;
        assert(full[j].trad == full[i].trad);
        assert(j == i);
    }
}

/// Pinning: where the simplified character of the first explicit decision
/// on a character has no resolved analogy, the decision itself is the entry
/// for that character.
pub proof fn lemma_pinned(
    chars: Seq<Review>,
    ichars: Seq<Review>,
    radicals: Seq<Review>,
    rules: Seq<RuleSpec>,
    i: int,
)
    requires
        first_of_trad(explicit_pool(chars, ichars), i),
        !resolution_of(ichars, radicals, rules).contains_key(explicit_pool(chars, ichars)[i].simp),
    ensures
        table(chars, ichars, radicals, rules).contains(explicit_pool(chars, ichars)[i]),
        forall|m: Mapping|
            table(chars, ichars, radicals, rules).contains(m) && m.trad == explicit_pool(
                chars,
                ichars,
            )[i].trad ==> m == explicit_pool(chars, ichars)[i],
{
    lemma_explicit_precedence(chars, ichars, radicals, rules, i);
}

/// One-hop chaining: where the simplified character of the first explicit
/// decision on a character has a resolved analogy, the entry for that
/// character points at the simplification of that analogy.
pub proof fn lemma_one_hop_chaining(
    chars: Seq<Review>,
    ichars: Seq<Review>,
    radicals: Seq<Review>,
    rules: Seq<RuleSpec>,
    i: int,
)
    requires
        first_of_trad(explicit_pool(chars, ichars), i),
        resolution_of(ichars, radicals, rules).contains_key(explicit_pool(chars, ichars)[i].simp),
    ensures
        table(chars, ichars, radicals, rules).contains(
            Mapping {
                trad: explicit_pool(chars, ichars)[i].trad,
                simp: resolution_of(ichars, radicals, rules)[explicit_pool(chars, ichars)[i].simp],
            },
        ),
{
    lemma_explicit_precedence(chars, ichars, radicals, rules, i);
}

/// The resolved analogy of a character is one of its candidates, and no
/// candidate for the character scores higher.
pub proof fn lemma_resolution_top_score(
    cands: Seq<Mapping>,
    scores: Map<Mapping, int>,
    trad: char,
)
    requires
        has_trad(cands, trad),
    ensures
        resolution(cands, scores).contains_key(trad),
        cands.contains(Mapping { trad, simp: resolution(cands, scores)[trad] }),
        forall|j: int|
            0 <= j < cands.len() && (#[trigger] cands[j]).trad == trad ==> scores[cands[j]]
                <= scores[Mapping { trad, simp: resolution(cands, scores)[trad] }],
{
    lemma_top_exists(cands, scores, trad);
    let i = top_index(cands, scores, trad);
    assert(cands[i] == Mapping { trad, simp: resolution(cands, scores)[trad] });
}

/// A character without an explicit decision has its resolved analogy as its
/// entry.
pub proof fn lemma_analogy_listed(
    chars: Seq<Review>,
    ichars: Seq<Review>,
    radicals: Seq<Review>,
    rules: Seq<RuleSpec>,
    trad: char,
)
    requires
        has_trad(accepted_outputs(rules, premises_of(ichars, radicals)), trad),
        !has_trad(explicit_pool(chars, ichars), trad),
    ensures
        table(chars, ichars, radicals, rules).contains(
            Mapping { trad, simp: resolution_of(ichars, radicals, rules)[trad] },
        ),
{
    let pool = explicit_pool(chars, ichars);
    let premises = premises_of(ichars, radicals);
    let cands = accepted_outputs(rules, premises);
    let res = resolution_of(ichars, radicals, rules);
    let won = winning_outputs(cands, res);
    let full = full_pool(chars, ichars, radicals, rules);
    let entry = Mapping { trad, simp: res[trad] };
    lemma_resolution_top_score(cands, scores(rules, premises), trad);
    lemma_winning_contains(cands, res, entry);
    let k = choose|k: int| 0 <= k < won.len() && won[k] == entry;
    assert(full[pool.len() + k] == entry);
    assert(has_trad(full, trad));
    lemma_first_exists(full, trad);
    let f = choose|f: int| first_of_trad(full, f) && (#[trigger] full[f]).trad == trad;
    if f < pool.len() {
        assert(full[f] == chain(pool[f], res));
        assert(pool[f].trad == trad);
    } else {
        let m = won[f - pool.len()];
        assert(full[f] == m);
        assert(won.contains(m));
        lemma_winning_contains(cands, res, m);
        assert(m == entry);
    }
    lemma_dedup_contains(full, entry);
}

/// A rejected rule lowers the score of each mapping it proposes, once for
/// each time it proposes it, and adds no candidate.
pub proof fn lemma_rejected_rule_lowers_score(
    rules: Seq<RuleSpec>,
    premises: Set<Mapping>,
    rule: RuleSpec,
    m: Mapping,
)
    requires
        !premises.contains(rule.premise),
    ensures
        score(rules.push(rule), premises, m) == score(rules, premises, m) - occurrences(
            rule.output,
            m,
        ),
        accepted_outputs(rules.push(rule), premises) == accepted_outputs(rules, premises),
{
    assert(rules.push(rule).drop_last() =~= rules);
}

/// An accepted rule raises the score of each mapping it proposes, once for
/// each time it proposes it, and adds its output to the candidates.
pub proof fn lemma_accepted_rule_raises_score(
    rules: Seq<RuleSpec>,
    premises: Set<Mapping>,
    rule: RuleSpec,
    m: Mapping,
)
    requires
        premises.contains(rule.premise),
    ensures
        score(rules.push(rule), premises, m) == score(rules, premises, m) + occurrences(
            rule.output,
            m,
        ),
        accepted_outputs(rules.push(rule), premises) == accepted_outputs(rules, premises)
            + rule.output,
{
    assert(rules.push(rule).drop_last() =~= rules);
}

/// No self-mappings: where no explicit decision is chained onto its own
/// traditional character and no winning output of a rule maps a character to
/// itself, no entry of the table does.
pub proof fn lemma_no_identity_entries(
    chars: Seq<Review>,
    ichars: Seq<Review>,
    radicals: Seq<Review>,
    rules: Seq<RuleSpec>,
)
    requires
        forall|i: int|
            0 <= i < explicit_pool(chars, ichars).len() ==> !chain(
                #[trigger] explicit_pool(chars, ichars)[i],
                resolution_of(ichars, radicals, rules),
            ).is_identity(),
        forall|i: int|
            0 <= i < accepted_outputs(rules, premises_of(ichars, radicals)).len() && wins(
                #[trigger] accepted_outputs(rules, premises_of(ichars, radicals))[i],
                resolution_of(ichars, radicals, rules),
            ) ==> !accepted_outputs(rules, premises_of(ichars, radicals))[i].is_identity(),
    ensures
        forall|k: int|
            0 <= k < table(chars, ichars, radicals, rules).len() ==> !(#[trigger] table(
                chars,
                ichars,
                radicals,
                rules,
            )[k]).is_identity(),
{
    let pool = explicit_pool(chars, ichars);
    let cands = accepted_outputs(rules, premises_of(ichars, radicals));
    let res = resolution_of(ichars, radicals, rules);
    let won = winning_outputs(cands, res);
    let full = full_pool(chars, ichars, radicals, rules);
    let entries = table(chars, ichars, radicals, rules);
    assert forall|k: int| 0 <= k < entries.len() implies !(#[trigger] entries[k]).is_identity() by {
        let m = entries[k];
        assert(entries.contains(m));
        lemma_dedup_contains(full, m);
        let j = choose|j: int| first_of_trad(full, j) && (#[trigger] full[j]) == m;
        if j < pool.len() {
            assert(full[j] == chain(pool[j], res));
        } else {
            assert(full[j] == won[j - pool.len()]);
            assert(won.contains(m));
            lemma_winning_contains(cands, res, m);
            let c = choose|c: int| 0 <= c < cands.len() && cands[c] == m;
            assert(wins(cands[c], res));
        }
    }
}

/// The explicit decisions themselves map no character to itself.
pub proof fn lemma_explicit_pool_no_identity(chars: Seq<Review>, ichars: Seq<Review>, i: int)
    requires
        0 <= i < explicit_pool(chars, ichars).len(),
    ensures
        !explicit_pool(chars, ichars)[i].is_identity(),
{
    if i < derive_all(chars).len() {
        lemma_derive_all_entries(chars, i);
    } else {
        lemma_derive_all_entries(ichars, i - derive_all(chars).len());
    }
}

/// Rerun: the text depends on the contents of the reviews and rules alone.
pub proof fn lemma_same_contents_same_text(
    chars: Seq<Review>,
    ichars: Seq<Review>,
    radicals: Seq<Review>,
    first: Seq<Rule>,
    second: Seq<Rule>,
)
    requires
        first.len() == second.len(),
        forall|i: int| 0 <= i < first.len() ==> (#[trigger] first[i])@ == second[i]@,
    ensures
        render(table(chars, ichars, radicals, rule_views(first))) == render(
            table(chars, ichars, radicals, rule_views(second)),
        ),
{
    assert(rule_views(first) =~= rule_views(second));
}

/// Radical exclusivity: the reviews of radicals give no entry.  Where the
/// reviews of one list are parted by their traditional character, an entry
/// whose traditional character is a radical stems from a standalone review
/// or from the output of an accepted rule.
pub proof fn lemma_radical_entries(
    chars: Seq<Review>,
    reviews: Seq<Review>,
    rules: Seq<RuleSpec>,
    k: int,
)
    requires
        0 <= k < table(
            chars,
            reviews_where(reviews, false),
            reviews_where(reviews, true),
            rules,
        ).len(),
        radical(
            table(chars, reviews_where(reviews, false), reviews_where(reviews, true), rules)[k].trad,
        ),
    ensures
        has_trad(
            derive_all(chars),
            table(chars, reviews_where(reviews, false), reviews_where(reviews, true), rules)[k].trad,
        ) || has_trad(
            accepted_outputs(
                rules,
                premises_of(reviews_where(reviews, false), reviews_where(reviews, true)),
            ),
            table(chars, reviews_where(reviews, false), reviews_where(reviews, true), rules)[k].trad,
        ),
{
    let ichars = reviews_where(reviews, false);
    let radicals = reviews_where(reviews, true);
    let pool = explicit_pool(chars, ichars);
    let cands = accepted_outputs(rules, premises_of(ichars, radicals));
    let res = resolution_of(ichars, radicals, rules);
    let won = winning_outputs(cands, res);
    let full = full_pool(chars, ichars, radicals, rules);
    let entries = table(chars, ichars, radicals, rules);
    let m = entries[k];
    assert(entries.contains(m));
    lemma_dedup_contains(full, m);
    let j = choose|j: int| first_of_trad(full, j) && (#[trigger] full[j]) == m;
    if j < derive_all(chars).len() {
        assert(full[j] == chain(pool[j], res));
        assert(derive_all(chars)[j].trad == m.trad);
    } else if j < pool.len() {
        let d = j - derive_all(chars).len();
        assert(full[j] == chain(pool[j], res));
        assert(pool[j] == derive_all(ichars)[d]);
        lemma_derive_all_entries(ichars, d);
        let r = choose|r: int|
            0 <= r < ichars.len() && (#[trigger] ichars[r]).derived() == derive_all(ichars)[d];
        lemma_reviews_where_entries(reviews, false, r);
        assert(ichars[r].derived().trad == ichars[r].mapping.trad);
    } else {
        assert(full[j] == won[j - pool.len()]);
        assert(won.contains(m));
        lemma_winning_contains(cands, res, m);
        let c = choose|c: int| 0 <= c < cands.len() && cands[c] == m;
        assert(cands[c].trad == m.trad);
    }
}

} // verus!
