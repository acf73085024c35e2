use simp::assemble::append_all;
use simp::assemble::append_winners;
use simp::assemble::chain_pool;
use simp::assemble::dedup_by_trad;
use simp::assemble::derive_table;
use simp::assemble::gen;
use simp::assemble::insert_all;
use simp::assemble::render_table;
use simp::mapping::derive_mappings;
use simp::mapping::is_radical;
use simp::mapping::Mapping;
use simp::mapping::Review;
use simp::resolve::resolve;
use simp::rule::outputs_within_limit;
use simp::rule::score_rules;
use simp::rule::Rule;
use simp::tables::CharSet;
use simp::tables::MappingSet;
use simp::tables::Resolution;
use simp::tables::ScoreTable;

fn m(trad: char, simp: char) -> Mapping {
    Mapping { trad, simp }
}

fn plain(trad: char, simp: char) -> Review {
    Review { mapping: m(trad, simp), fix: None }
}

fn fixed(trad: char, simp: char, fix: char) -> Review {
    Review { mapping: m(trad, simp), fix: Some(fix) }
}

fn rule(premise: Mapping, output: Vec<Mapping>) -> Rule {
    Rule { premise, output }
}

fn premises(list: Vec<Mapping>) -> MappingSet {
    let mut set = MappingSet::new();
    insert_all(&mut set, &list);
    set
}

#[test]
fn derive_mapping_without_fix_keeps_the_proposal() {
    assert_eq!(plain('門', '门').derive_mapping(), m('門', '门'));
}

#[test]
fn derive_mapping_with_fix_takes_the_fix() {
    assert_eq!(fixed('後', '后', '后').derive_mapping(), m('後', '后'));
    assert_eq!(fixed('乾', '干', '乹').derive_mapping(), m('乾', '乹'));
}

#[test]
fn mapping_new_sets_both_fields() {
    let built = Mapping::new('門', '门');
    assert_eq!(built.trad, '門');
    assert_eq!(built.simp, '门');
}

#[test]
fn derive_mappings_drops_identities_and_keeps_order() {
    let reviews = vec![
        plain('心', '心'),
        plain('門', '门'),
        fixed('著', '着', '著'),
        fixed('乾', '乾', '干'),
        plain('馬', '马'),
    ];
    assert_eq!(derive_mappings(reviews), vec![m('門', '门'), m('乾', '干'), m('馬', '马')]);
}

#[test]
fn derive_mappings_of_nothing_is_nothing() {
    assert_eq!(derive_mappings(Vec::new()), Vec::<Mapping>::new());
}

#[test]
fn radicals_are_exactly_the_fourteen() {
    let radicals = [
        '訁', '飠', '糹', '𤇾', '𰯲', '釒', '𦥯', '䜌', '睪', '巠', '咼', '昜', '臤', '戠',
    ];
    for c in radicals {
        assert!(is_radical(c));
    }
    for c in ['門', '言', '食', '金', 'a', '\t', '门'] {
        assert!(!is_radical(c));
    }
}

#[test]
fn char_set_reports_fresh_insertions() {
    let mut set = CharSet::new();
    assert!(!set.contains('門'));
    assert!(set.insert('門'));
    assert!(set.contains('門'));
    assert!(!set.insert('門'));
    assert!(set.insert('问'));
    assert!(!set.contains('問'));
}

#[test]
fn mapping_set_tells_mappings_apart_by_both_characters() {
    let mut set = MappingSet::new();
    set.insert(m('門', '门'));
    assert!(set.contains(m('門', '门')));
    assert!(!set.contains(m('門', '問')));
    assert!(!set.contains(m('问', '门')));
    assert!(!set.contains(m('门', '門')));
    assert!(set.contains(m('門', '门')));
}

#[test]
fn mapping_set_holds_characters_beyond_the_basic_plane() {
    let mut set = MappingSet::new();
    set.insert(m('𤇾', '𫇦'));
    assert!(set.contains(m('𤇾', '𫇦')));
    assert!(!set.contains(m('𫇦', '𤇾')));
}

#[test]
fn score_table_starts_at_zero_and_adds() {
    let mut table = ScoreTable::new();
    assert_eq!(table.get(m('門', '门')), 0);
    table.adjust(m('門', '门'), 1);
    table.adjust(m('門', '门'), 1);
    table.adjust(m('問', '问'), -1);
    assert_eq!(table.get(m('門', '门')), 2);
    assert_eq!(table.get(m('問', '问')), -1);
    assert_eq!(table.get(m('門', '问')), 0);
}

#[test]
fn resolution_returns_the_last_insertion() {
    let mut res = Resolution::new();
    assert_eq!(res.get('門'), None);
    res.insert('門', '问');
    res.insert('門', '门');
    assert_eq!(res.get('門'), Some('门'));
    assert_eq!(res.get('问'), None);
}

#[test]
fn insert_all_adds_every_mapping_of_the_list() {
    let mut set = MappingSet::new();
    set.insert(m('a', 'b'));
    insert_all(&mut set, &vec![m('c', 'd'), m('e', 'f')]);
    assert!(set.contains(m('a', 'b')));
    assert!(set.contains(m('c', 'd')));
    assert!(set.contains(m('e', 'f')));
    assert!(!set.contains(m('a', 'd')));
}

#[test]
fn append_all_appends_in_order() {
    let mut pool = vec![m('a', 'b')];
    append_all(&mut pool, &vec![m('c', 'd'), m('a', 'b')]);
    assert_eq!(pool, vec![m('a', 'b'), m('c', 'd'), m('a', 'b')]);
}

#[test]
fn outputs_within_limit_holds_of_small_rule_sets() {
    assert!(outputs_within_limit(&Vec::new()));
    let rules = vec![rule(m('a', 'b'), vec![m('c', 'd'), m('e', 'f')])];
    assert!(outputs_within_limit(&rules));
}

#[test]
fn accepted_rules_add_and_rejected_rules_subtract() {
    let set = premises(vec![m('門', '门')]);
    let rules = vec![
        rule(m('門', '门'), vec![m('問', '问'), m('間', '间')]),
        rule(m('門', '门'), vec![m('問', '问')]),
        rule(m('馬', '马'), vec![m('間', '间'), m('媽', '妈')]),
    ];
    let table = score_rules(&rules, &set);
    assert_eq!(table.get(m('問', '问')), 2);
    assert_eq!(table.get(m('間', '间')), 0);
    assert_eq!(table.get(m('媽', '妈')), -1);
    assert_eq!(table.get(m('門', '门')), 0);
}

#[test]
fn a_mapping_proposed_twice_by_one_rule_counts_twice() {
    let set = premises(vec![m('a', 'b')]);
    let rules = vec![rule(m('a', 'b'), vec![m('x', 'y'), m('x', 'y')])];
    assert_eq!(score_rules(&rules, &set).get(m('x', 'y')), 2);
    let none = premises(Vec::new());
    assert_eq!(score_rules(&rules, &none).get(m('x', 'y')), -2);
}

#[test]
fn resolve_takes_the_highest_score() {
    let set = premises(vec![m('a', 'b'), m('c', 'd')]);
    let rules = vec![
        rule(m('a', 'b'), vec![m('x', 'y')]),
        rule(m('c', 'd'), vec![m('x', 'z')]),
        rule(m('a', 'b'), vec![m('x', 'z')]),
    ];
    let table = score_rules(&rules, &set);
    let res = resolve(&rules, &set, &table);
    assert_eq!(res.get('x'), Some('z'));
    assert_eq!(res.get('y'), None);
}

#[test]
fn resolve_breaks_ties_by_rule_order() {
    let set = premises(vec![m('a', 'b'), m('c', 'd')]);
    let first = vec![rule(m('a', 'b'), vec![m('x', 'y')]), rule(m('c', 'd'), vec![m('x', 'z')])];
    let table = score_rules(&first, &set);
    assert_eq!(resolve(&first, &set, &table).get('x'), Some('y'));
    let second = vec![rule(m('c', 'd'), vec![m('x', 'z')]), rule(m('a', 'b'), vec![m('x', 'y')])];
    let table = score_rules(&second, &set);
    assert_eq!(resolve(&second, &set, &table).get('x'), Some('z'));
}

#[test]
fn resolve_ignores_rejected_rules_as_candidates() {
    let set = premises(vec![m('a', 'b')]);
    let rules = vec![rule(m('c', 'd'), vec![m('x', 'z')])];
    let table = score_rules(&rules, &set);
    assert_eq!(resolve(&rules, &set, &table).get('x'), None);
}

#[test]
fn chain_pool_takes_one_step_only() {
    let mut res = Resolution::new();
    res.insert('b', 'c');
    res.insert('c', 'd');
    let mut pool = vec![m('a', 'b'), m('e', 'f'), m('b', 'x')];
    chain_pool(&mut pool, &res);
    assert_eq!(pool, vec![m('a', 'c'), m('e', 'f'), m('b', 'x')]);
}

#[test]
fn append_winners_keeps_rule_order_and_skips_losers() {
    let set = premises(vec![m('a', 'b')]);
    let rules = vec![
        rule(m('a', 'b'), vec![m('x', 'y'), m('u', 'v')]),
        rule(m('q', 'r'), vec![m('s', 't')]),
        rule(m('a', 'b'), vec![m('x', 'z'), m('x', 'y')]),
    ];
    let mut res = Resolution::new();
    res.insert('x', 'y');
    res.insert('u', 'v');
    res.insert('s', 't');
    let mut pool = vec![m('k', 'l')];
    append_winners(&mut pool, &rules, &set, &res);
    assert_eq!(pool, vec![m('k', 'l'), m('x', 'y'), m('u', 'v'), m('x', 'y')]);
}

#[test]
fn dedup_keeps_the_first_entry_of_each_character() {
    let pool = vec![m('a', 'b'), m('c', 'd'), m('a', 'e'), m('c', 'd'), m('f', 'a')];
    assert_eq!(dedup_by_trad(&pool), vec![m('a', 'b'), m('c', 'd'), m('f', 'a')]);
}

#[test]
fn render_writes_tab_separated_lines() {
    assert_eq!(render_table(&Vec::new()), "");
    assert_eq!(render_table(&vec![m('門', '门'), m('問', '问')]), "門\t门\n問\t问\n");
}

#[test]
fn end_to_end_scenario() {
    let text = gen(
        vec![plain('心', '心')],
        vec![plain('門', '门')],
        Vec::new(),
        vec![rule(m('門', '门'), vec![m('問', '问')])],
    );
    assert_eq!(text, "門\t门\n問\t问\n");
}

#[test]
fn no_self_mapping_in_the_scenario_output() {
    let entries = derive_table(
        vec![plain('心', '心'), fixed('著', '着', '著')],
        vec![plain('門', '门')],
        vec![plain('訁', '讠')],
        &vec![rule(m('門', '门'), vec![m('問', '问')]), rule(m('訁', '讠'), vec![m('語', '语')])],
    );
    assert_eq!(entries, vec![m('門', '门'), m('問', '问'), m('語', '语')]);
    for e in entries {
        assert_ne!(e.trad, e.simp);
    }
}

#[test]
fn each_character_has_one_line() {
    let entries = derive_table(
        vec![plain('a', 'b'), plain('a', 'c')],
        vec![plain('p', 'q'), plain('a', 'd')],
        Vec::new(),
        &vec![rule(m('p', 'q'), vec![m('a', 'z'), m('x', 'y'), m('x', 'y')])],
    );
    assert_eq!(entries, vec![m('a', 'b'), m('p', 'q'), m('x', 'y')]);
}

#[test]
fn explicit_decision_precedes_analogy() {
    let entries = derive_table(
        vec![plain('a', 'b')],
        vec![plain('p', 'q')],
        Vec::new(),
        &vec![rule(m('p', 'q'), vec![m('a', 'c')])],
    );
    assert_eq!(entries, vec![m('a', 'b'), m('p', 'q')]);
}

#[test]
fn explicit_decision_is_chained_one_hop() {
    let entries = derive_table(
        vec![plain('a', 'b')],
        vec![plain('p', 'q')],
        Vec::new(),
        &vec![rule(m('p', 'q'), vec![m('b', 'c')])],
    );
    assert_eq!(entries, vec![m('a', 'c'), m('p', 'q'), m('b', 'c')]);
}

#[test]
fn chaining_does_not_follow_a_second_hop() {
    let entries = derive_table(
        vec![plain('a', 'b')],
        vec![plain('p', 'q')],
        Vec::new(),
        &vec![rule(m('p', 'q'), vec![m('b', 'c'), m('c', 'd')])],
    );
    assert_eq!(entries, vec![m('a', 'c'), m('p', 'q'), m('b', 'c'), m('c', 'd')]);
}

#[test]
fn higher_score_wins_the_conflict() {
    let entries = derive_table(
        Vec::new(),
        vec![plain('p', 'q'), plain('r', 's'), plain('t', 'u')],
        Vec::new(),
        &vec![
            rule(m('p', 'q'), vec![m('x', 'y')]),
            rule(m('n', 'o'), vec![m('x', 'y')]),
            rule(m('r', 's'), vec![m('x', 'z')]),
            rule(m('t', 'u'), vec![m('x', 'z')]),
        ],
    );
    assert_eq!(entries, vec![m('p', 'q'), m('r', 's'), m('t', 'u'), m('x', 'z')]);
}

#[test]
fn rejected_premise_breaks_a_tie() {
    let tied = vec![rule(m('p', 'q'), vec![m('x', 'y')]), rule(m('r', 's'), vec![m('x', 'z')])];
    let entries = derive_table(Vec::new(), vec![plain('p', 'q'), plain('r', 's')], Vec::new(), &tied);
    assert_eq!(entries, vec![m('p', 'q'), m('r', 's'), m('x', 'y')]);
    let vetoed = vec![
        rule(m('p', 'q'), vec![m('x', 'y')]),
        rule(m('r', 's'), vec![m('x', 'z')]),
        rule(m('n', 'o'), vec![m('x', 'y')]),
    ];
    let entries =
        derive_table(Vec::new(), vec![plain('p', 'q'), plain('r', 's')], Vec::new(), &vetoed);
    assert_eq!(entries, vec![m('p', 'q'), m('r', 's'), m('x', 'z')]);
}

#[test]
fn two_runs_give_the_same_text() {
    let run = || {
        gen(
            vec![plain('a', 'b'), plain('心', '心')],
            vec![plain('p', 'q'), plain('r', 's')],
            vec![plain('糹', '纟')],
            vec![
                rule(m('p', 'q'), vec![m('x', 'y'), m('b', 'c')]),
                rule(m('r', 's'), vec![m('x', 'z')]),
                rule(m('糹', '纟'), vec![m('紅', '红')]),
            ],
        )
    };
    let first = run();
    assert_eq!(first, "a\tc\np\tq\nr\ts\nx\ty\nb\tc\n紅\t红\n");
    assert_eq!(first, run());
}

#[test]
fn radical_reviews_serve_as_premises_only() {
    let text = gen(
        Vec::new(),
        Vec::new(),
        vec![plain('訁', '讠')],
        vec![rule(m('訁', '讠'), vec![m('語', '语')])],
    );
    assert_eq!(text, "語\t语\n");
}

#[test]
fn identity_reviews_are_no_premises() {
    let text = gen(
        Vec::new(),
        vec![plain('p', 'p')],
        Vec::new(),
        vec![rule(m('p', 'p'), vec![m('x', 'y')])],
    );
    assert_eq!(text, "");
}

#[test]
fn chaining_onto_the_own_character_is_kept() {
    let entries = derive_table(
        vec![plain('a', 'b')],
        vec![plain('p', 'q')],
        Vec::new(),
        &vec![rule(m('p', 'q'), vec![m('b', 'a')])],
    );
    assert_eq!(entries, vec![m('a', 'a'), m('p', 'q'), m('b', 'a')]);
}

#[test]
fn a_winning_identity_output_is_listed() {
    let entries = derive_table(
        Vec::new(),
        vec![plain('p', 'q')],
        Vec::new(),
        &vec![rule(m('p', 'q'), vec![m('x', 'x')])],
    );
    assert_eq!(entries, vec![m('p', 'q'), m('x', 'x')]);
}

#[test]
fn a_radical_among_the_standalone_reviews_is_listed() {
    let text = gen(vec![plain('訁', '讠')], Vec::new(), vec![plain('糹', '纟')], Vec::new());
    assert_eq!(text, "訁\t讠\n");
}

#[test]
fn the_first_explicit_decision_on_a_character_stays() {
    let entries = derive_table(
        vec![plain('a', 'b'), plain('a', 'c')],
        vec![plain('a', 'd')],
        Vec::new(),
        &Vec::new(),
    );
    assert_eq!(entries, vec![m('a', 'b')]);
}

#[test]
fn a_fix_decides_what_a_review_gives_as_premise() {
    let fixed_premise = vec![fixed('p', 'q', 'r')];
    let by_fix = vec![rule(m('p', 'r'), vec![m('x', 'y')])];
    assert_eq!(gen(Vec::new(), fixed_premise.clone(), Vec::new(), by_fix), "p\tr\nx\ty\n");
    let by_proposal = vec![rule(m('p', 'q'), vec![m('x', 'y')])];
    assert_eq!(gen(Vec::new(), fixed_premise, Vec::new(), by_proposal), "p\tr\n");
}

#[test]
fn no_input_gives_an_empty_text() {
    assert_eq!(gen(Vec::new(), Vec::new(), Vec::new(), Vec::new()), "");
}
