//! The choice among rival proposals for one character.
//!
//! Of the mappings that accepted rules propose for one traditional character,
//! the one with the highest score is chosen.  Where several share the highest
//! score, the one that an accepted rule proposed first is chosen: the choice
//! depends on the scores and on the order of the rules, and on nothing else.
use crate::mapping::has_trad;
use crate::mapping::Mapping;
use crate::rule::accepted_outputs;
use crate::rule::lemma_rules_step;
use crate::rule::rule_views;
use crate::rule::Rule;
use crate::rule::RuleSpec;
use crate::tables::MappingSet;
use crate::tables::Resolution;
use crate::tables::ScoreTable;
use vstd::prelude::*;

verus! {

/// The candidate at `i` is the chosen one for its character: none for that
/// character scores higher, and every earlier one scores lower.
pub open spec fn is_top_at(cands: Seq<Mapping>, scores: Map<Mapping, int>, i: int) -> bool {
    &&& 0 <= i < cands.len()
    &&& forall|j: int|
        0 <= j < cands.len() && (#[trigger] cands[j]).trad == cands[i].trad ==> scores[cands[j]]
            <= scores[cands[i]]
    &&& forall|j: int|
        0 <= j < i && (#[trigger] cands[j]).trad == cands[i].trad ==> scores[cands[j]]
            < scores[cands[i]]
}

/// The place of the chosen candidate for a character.
pub open spec fn top_index(cands: Seq<Mapping>, scores: Map<Mapping, int>, trad: char) -> int {
    choose|i: int| is_top_at(cands, scores, i) && cands[i].trad == trad
}

/// The chosen simplification of every character that has a candidate.
pub open spec fn resolution(cands: Seq<Mapping>, scores: Map<Mapping, int>) -> Map<char, char> {
    Map::new(
        |trad: char| has_trad(cands, trad),
        |trad: char| cands[top_index(cands, scores, trad)].simp,
    )
}

/// A resolution after one more candidate has been heard: the candidate takes
/// the place for its character where that is free, or where it scores higher
/// than the holder.
pub open spec fn challenge(res: Map<char, char>, scores: Map<Mapping, int>, x: Mapping) -> Map<
    char,
    char,
> {
    if !res.contains_key(x.trad) || scores[x] > scores[Mapping {
        trad: x.trad,
        simp: res[x.trad],
    }] {
        res.insert(x.trad, x.simp)
    } else {
        res
    }
}

/// One character has at most one chosen candidate.
pub proof fn lemma_top_unique(cands: Seq<Mapping>, scores: Map<Mapping, int>, i: int, j: int)
    requires
        is_top_at(cands, scores, i),
        is_top_at(cands, scores, j),
        cands[i].trad == cands[j].trad,
    ensures
        i == j,
{
}

/// What becomes of a chosen candidate when one more candidate is heard: it
/// stays chosen, unless the new one is for the same character and scores
/// higher, and then the new one is chosen.
proof fn lemma_top_extend(cands: Seq<Mapping>, scores: Map<Mapping, int>, x: Mapping, i: int)
    requires
        is_top_at(cands, scores, i),
    ensures
        cands[i].trad != x.trad || scores[x] <= scores[cands[i]] ==> is_top_at(
            cands.push(x),
            scores,
            i,
        ),
        cands[i].trad == x.trad && scores[x] > scores[cands[i]] ==> is_top_at(
            cands.push(x),
            scores,
            cands.len() as int,
        ),
{
    let ext = cands.push(x);
    assert forall|j: int| 0 <= j < ext.len() implies (#[trigger] ext[j]) == (if j < cands.len() {
        cands[j]
    } else {
        x
    }) by {}
}

/// The first candidate for a character is the chosen one.
proof fn lemma_top_fresh(cands: Seq<Mapping>, scores: Map<Mapping, int>, x: Mapping)
    requires
        !has_trad(cands, x.trad),
    ensures
        is_top_at(cands.push(x), scores, cands.len() as int),
{
    let ext = cands.push(x);
    assert forall|j: int| 0 <= j < cands.len() implies (#[trigger] ext[j]).trad != x.trad by {
        assert(ext[j] == cands[j]);
    }
}

/// Every character with a candidate has a chosen one.
pub proof fn lemma_top_exists(cands: Seq<Mapping>, scores: Map<Mapping, int>, trad: char)
    requires
        has_trad(cands, trad),
    ensures
        is_top_at(cands, scores, top_index(cands, scores, trad)),
        cands[top_index(cands, scores, trad)].trad == trad,
    decreases cands.len(),
{
    let init = cands.drop_last();
    let x = cands.last();
    assert(init.push(x) =~= cands);
    let w = choose|i: int| 0 <= i < cands.len() && (#[trigger] cands[i]).trad == trad;
    if has_trad(init, trad) {
        lemma_top_exists(init, scores, trad);
        let i = top_index(init, scores, trad);
        lemma_top_extend(init, scores, x, i);
        if x.trad == trad && scores[x] > scores[init[i]] {
            assert(is_top_at(cands, scores, init.len() as int));
            assert(cands[init.len() as int].trad == trad);
        } else {
            assert(is_top_at(cands, scores, i));
            assert(cands[i].trad == trad);
        }
    } else {
        if w < init.len() {
            assert(init[w].trad == trad);
        }
        assert(x.trad == trad);
        lemma_top_fresh(init, scores, x);
        assert(is_top_at(cands, scores, init.len() as int));
        assert(cands[init.len() as int].trad == trad);
    }
}

/// The resolution of no candidates is empty.
pub proof fn lemma_resolution_empty(scores: Map<Mapping, int>)
    ensures
        resolution(Seq::empty(), scores) == Map::<char, char>::empty(),
{
    assert(resolution(Seq::empty(), scores) =~= Map::<char, char>::empty());
}

/// Hearing the candidates one by one, each challenging the holder of its
/// character, gives the resolution.
pub proof fn lemma_resolution_push(cands: Seq<Mapping>, scores: Map<Mapping, int>, x: Mapping)
    ensures
        resolution(cands.push(x), scores) == challenge(resolution(cands, scores), scores, x),
{
    let ext = cands.push(x);
    let before = resolution(cands, scores);
    let after = resolution(ext, scores);
    let stepped = challenge(before, scores, x);
    assert(ext[cands.len() as int] == x);
    assert forall|t: char| after.contains_key(t) == stepped.contains_key(t) by {
        if has_trad(cands, t) {
            let w = choose|i: int| 0 <= i < cands.len() && (#[trigger] cands[i]).trad == t;
            assert(ext[w].trad == t);
        }
        if has_trad(ext, t) && t != x.trad {
            let w = choose|i: int| 0 <= i < ext.len() && (#[trigger] ext[i]).trad == t;
            assert(cands[w].trad == t);
        }
    }
    assert forall|t: char| after.contains_key(t) implies after[t] == stepped[t] by {
        lemma_top_exists(ext, scores, t);
        let a = top_index(ext, scores, t);
        if has_trad(cands, t) {
            lemma_top_exists(cands, scores, t);
            let i = top_index(cands, scores, t);
            lemma_top_extend(cands, scores, x, i);
            assert(before[t] == cands[i].simp);
            assert(cands[i] == Mapping { trad: t, simp: before[t] });
            if x.trad == t && scores[x] > scores[cands[i]] {
                lemma_top_unique(ext, scores, a, cands.len() as int);
            } else {
                assert(ext[i] == cands[i]);
                lemma_top_unique(ext, scores, a, i);
            }
        } else {
            let w = choose|i: int| 0 <= i < ext.len() && (#[trigger] ext[i]).trad == t;
            if w < cands.len() {
                assert(cands[w].trad == t);
            }
            lemma_top_fresh(cands, scores, x);
            lemma_top_unique(ext, scores, a, cands.len() as int);
        }
    }
    assert(after =~= stepped);
}

/// Chooses, for every character that an accepted rule proposes a
/// simplification for, the proposal with the highest score, the earliest of
/// them where several share it.
pub fn resolve(rules: &Vec<Rule>, premises: &MappingSet, table: &ScoreTable) -> (res: Resolution)
    ensures
        res@ == resolution(accepted_outputs(rule_views(rules@), premises@), table@),
{
    let ghost views = rule_views(rules@);
    let mut res = Resolution::new();
    let mut i: usize = 0;
    proof {
        assert(views.take(0) =~= Seq::<RuleSpec>::empty());
        lemma_resolution_empty(table@);
    }
    while i < rules.len()
        invariant
            i <= rules.len(),
            views == rule_views(rules@),
            res@ == resolution(accepted_outputs(views.take(i as int), premises@), table@),
        decreases rules.len() - i,
    {
        let rule = &rules[i];
        proof {
            assert(views[i as int] == rule@);
            lemma_rules_step(views, premises@, i as int);
        }
        if premises.contains(rule.premise) {
            let ghost base = accepted_outputs(views.take(i as int), premises@);
            let ghost output = rule.output@;
            let mut k: usize = 0;
            proof {
                assert(base + output.take(0) =~= base);
            }
            while k < rule.output.len()
                invariant
                    k <= rule.output.len(),
                    output == rule.output@,
                    res@ == resolution(base + output.take(k as int), table@),
                decreases rule.output.len() - k,
            {
                let m = rule.output[k];
                proof {
                    output.lemma_take_succ_push(k as int);
                    assert(base + output.take(k as int + 1) =~= (base + output.take(
                        k as int,
                    )).push(m));
                    lemma_resolution_push(base + output.take(k as int), table@, m);
                }
                let replace = match res.get(m.trad) {
                    Some(held) => table.get(m) > table.get(Mapping { trad: m.trad, simp: held }),
                    None => true,
                };
                if replace {
                    res.insert(m.trad, m.simp);
                }
                k += 1;
            }
            proof {
                assert(output.take(rule.output.len() as int) =~= output);
            }
        }
        i += 1;
    }
    proof {
        assert(views.take(rules.len() as int) =~= views);
    }
    res
}

} // verus!
