//! Analogy rules and the evidence they give for their outputs.
use crate::mapping::Mapping;
use crate::tables::MappingSet;
use crate::tables::ScoreTable;
use vstd::prelude::*;

verus! {

/// An analogy rule: where its premise is accepted, each mapping of its
/// output is proposed.
#[derive(Debug)]
pub struct Rule {
    pub premise: Mapping,
    pub output: Vec<Mapping>,
}

/// A rule as a mathematical value.
pub struct RuleSpec {
    pub premise: Mapping,
    pub output: Seq<Mapping>,
}

impl View for Rule {
    type V = RuleSpec;

    open spec fn view(&self) -> RuleSpec {
        RuleSpec { premise: self.premise, output: self.output@ }
    }
}

/// The rules of a list as mathematical values.
pub open spec fn rule_views(rules: Seq<Rule>) -> Seq<RuleSpec> {
    rules.map_values(|r: Rule| r@)
}

/// How often a mapping occurs in a list.
pub open spec fn occurrences(list: Seq<Mapping>, m: Mapping) -> nat
    decreases list.len(),
{
    if list.len() == 0 {
        0
    } else if list.last() == m {
        occurrences(list.drop_last(), m) + 1
    } else {
        occurrences(list.drop_last(), m)
    }
}

/// The evidence one rule gives for a mapping: one point in favour for each
/// time an accepted rule proposes it, one point against for each time a
/// rejected rule does.
pub open spec fn vote(rule: RuleSpec, premises: Set<Mapping>, m: Mapping) -> int {
    if premises.contains(rule.premise) {
        occurrences(rule.output, m) as int
    } else {
        -(occurrences(rule.output, m) as int)
    }
}

/// The evidence all rules together give for a mapping.
pub open spec fn score(rules: Seq<RuleSpec>, premises: Set<Mapping>, m: Mapping) -> int
    decreases rules.len(),
{
    if rules.len() == 0 {
        0
    } else {
        score(rules.drop_last(), premises, m) + vote(rules.last(), premises, m)
    }
}

/// The score of every mapping.
pub open spec fn scores(rules: Seq<RuleSpec>, premises: Set<Mapping>) -> Map<Mapping, int> {
    Map::total(|m: Mapping| score(rules, premises, m))
}

/// The number of mappings that the rules propose, repetitions counted.
pub open spec fn total_outputs(rules: Seq<RuleSpec>) -> nat
    decreases rules.len(),
{
    if rules.len() == 0 {
        0
    } else {
        total_outputs(rules.drop_last()) + rules.last().output.len()
    }
}

/// The largest number of proposed mappings for which every score fits its
/// machine integer.
pub const SCORE_LIMIT: u64 = 0x7fff_ffff_ffff_ffff;

/// The outputs of the accepted rules, in the order of the rules.
pub open spec fn accepted_outputs(rules: Seq<RuleSpec>, premises: Set<Mapping>) -> Seq<Mapping>
    decreases rules.len(),
{
    if rules.len() == 0 {
        Seq::empty()
    } else if premises.contains(rules.last().premise) {
        accepted_outputs(rules.drop_last(), premises) + rules.last().output
    } else {
        accepted_outputs(rules.drop_last(), premises)
    }
}

/// What one more mapping adds to the count of a mapping in a list.
pub proof fn lemma_occurrences_push(list: Seq<Mapping>, x: Mapping, m: Mapping)
    ensures
        occurrences(list.push(x), m) == occurrences(list, m) + (if x == m {
            1nat
        } else {
            0nat
        }),
{
    assert(list.push(x).drop_last() =~= list);
}

/// A mapping occurs in a list no more often than the list is long.
pub proof fn lemma_occurrences_bound(list: Seq<Mapping>, m: Mapping)
    ensures
        occurrences(list, m) <= list.len(),
    decreases list.len(),
{
    if list.len() > 0 {
        lemma_occurrences_bound(list.drop_last(), m);
    }
}

/// No score lies further from zero than the number of proposed mappings.
pub proof fn lemma_score_bound(rules: Seq<RuleSpec>, premises: Set<Mapping>, m: Mapping)
    ensures
        -total_outputs(rules) <= score(rules, premises, m) <= total_outputs(rules),
    decreases rules.len(),
{
    if rules.len() > 0 {
        lemma_score_bound(rules.drop_last(), premises, m);
        lemma_occurrences_bound(rules.last().output, m);
    }
}

/// The first rules of a list propose no more mappings than the whole list.
pub proof fn lemma_total_outputs_prefix(rules: Seq<RuleSpec>, n: int)
    requires
        0 <= n <= rules.len(),
    ensures
        total_outputs(rules.take(n)) <= total_outputs(rules),
    decreases rules.len(),
{
    if n == rules.len() {
        assert(rules.take(n) =~= rules);
    } else {
        assert(rules.drop_last().take(n) =~= rules.take(n));
        lemma_total_outputs_prefix(rules.drop_last(), n);
    }
}

/// What one more rule adds to the sums over a list of rules.
pub proof fn lemma_rules_step(rules: Seq<RuleSpec>, premises: Set<Mapping>, n: int)
    requires
        0 <= n < rules.len(),
    ensures
        total_outputs(rules.take(n + 1)) == total_outputs(rules.take(n)) + rules[n].output.len(),
        forall|m: Mapping| #[trigger]
            score(rules.take(n + 1), premises, m) == score(rules.take(n), premises, m) + vote(
                rules[n],
                premises,
                m,
            ),
        accepted_outputs(rules.take(n + 1), premises) == if premises.contains(rules[n].premise) {
            accepted_outputs(rules.take(n), premises) + rules[n].output
        } else {
            accepted_outputs(rules.take(n), premises)
        },
{
    assert(rules.take(n + 1).drop_last() =~= rules.take(n));
    assert(rules.take(n + 1).last() == rules[n]);
}

/// Tells whether the rules propose few enough mappings for `score_rules`.
pub fn outputs_within_limit(rules: &Vec<Rule>) -> (ok: bool)
    ensures
        ok == (total_outputs(rule_views(rules@)) <= SCORE_LIMIT),
{
    let ghost views = rule_views(rules@);
    let mut total: u64 = 0;
    let mut i: usize = 0;
    proof {
        assert(views.take(0) =~= Seq::<RuleSpec>::empty());
    }
    while i < rules.len()
        invariant
            i <= rules.len(),
            views == rule_views(rules@),
            total == total_outputs(views.take(i as int)),
            total <= SCORE_LIMIT,
        decreases rules.len() - i,
    {
        let n = rules[i].output.len();
        proof {
            lemma_rules_step(views, Set::empty(), i as int);
            lemma_total_outputs_prefix(views, i as int + 1);
        }
        if n as u64 > SCORE_LIMIT - total {
            return false;
        }
        total = total + n as u64;
        i += 1;
    }
    proof {
        assert(views.take(rules.len() as int) =~= views);
    }
    true
}

/// Scores every mapping that the rules propose.
pub fn score_rules(rules: &Vec<Rule>, premises: &MappingSet) -> (table: ScoreTable)
    requires
        total_outputs(rule_views(rules@)) <= SCORE_LIMIT,
    ensures
        table@ == scores(rule_views(rules@), premises@),
{
    let ghost views = rule_views(rules@);
    let mut table = ScoreTable::new();
    let mut i: usize = 0;
    proof {
        assert(views.take(0) =~= Seq::<RuleSpec>::empty());
        assert(table@ =~= scores(views.take(0), premises@));
    }
    while i < rules.len()
        invariant
            i <= rules.len(),
            views == rule_views(rules@),
            total_outputs(views) <= SCORE_LIMIT,
            table@ == scores(views.take(i as int), premises@),
        decreases rules.len() - i,
    {
        let rule = &rules[i];
        let accepted = premises.contains(rule.premise);
        let delta: i64 = if accepted {
            1
        } else {
            -1
        };
        let ghost before = table@;
        let ghost output = rule.output@;
        let mut k: usize = 0;
        proof {
            assert(views[i as int] == rule@);
            assert(output.take(0) =~= Seq::<Mapping>::empty());
            assert forall|m: Mapping| occurrences(output.take(0), m) == 0 by {
                lemma_occurrences_bound(output.take(0), m);
            }
        }
        while k < rule.output.len()
            invariant
                k <= rule.output.len(),
                i < rules.len(),
                views == rule_views(rules@),
                rule == &rules[i as int],
                output == rule.output@,
                delta == (if premises@.contains(rule.premise) {
                    1int
                } else {
                    -1int
                }),
                total_outputs(views) <= SCORE_LIMIT,
                before == scores(views.take(i as int), premises@),
                table@ == Map::total(
                    |m: Mapping| before[m] + delta * occurrences(output.take(k as int), m),
                ),
            decreases rule.output.len() - k,
        {
            let m = rule.output[k];
            proof {
                output.lemma_take_succ_push(k as int);
                assert forall|n: Mapping|
                    occurrences(output.take(k as int + 1), n) == occurrences(
                        output.take(k as int),
                        n,
                    ) + (if m == n {
                        1nat
                    } else {
                        0nat
                    }) by {
                    lemma_occurrences_push(output.take(k as int), m, n);
                }
                lemma_score_bound(views.take(i as int), premises@, m);
                lemma_occurrences_bound(output.take(k as int), m);
                lemma_rules_step(views, premises@, i as int);
                lemma_total_outputs_prefix(views, i as int + 1);
                assert(views[i as int].output.len() == output.len());
            }
            table.adjust(m, delta);
            proof {
                assert(table@ =~= Map::total(
                    |n: Mapping| before[n] + delta * occurrences(output.take(k as int + 1), n),
                ));
            }
            k += 1;
        }
        proof {
            assert(output.take(rule.output.len() as int) =~= output);
            lemma_rules_step(views, premises@, i as int);
            assert(table@ =~= scores(views.take(i as int + 1), premises@));
        }
        i += 1;
    }
    proof {
        assert(views.take(rules.len() as int) =~= views);
    }
    table
}

} // verus!
