use easy_adblock_for_mosdns::merge::merge_and_remove_duplicates;
use easy_adblock_for_mosdns::merge::merge_with_skipped;
use easy_adblock_for_mosdns::rule::Rule;
use easy_adblock_for_mosdns::rule::RuleType;

fn rule(t: RuleType, s: &str) -> Rule {
    Rule::new(t, s.to_string())
}

fn reference_lists() -> Vec<Vec<Rule>> {
    vec![
        vec![
            rule(RuleType::Domain, "a.b.c"),
            rule(RuleType::Domain, "b.c"),
            rule(RuleType::Domain, "c"),
            rule(RuleType::Full, "a.b.c.test.com"),
            rule(RuleType::Full, "1.a.test.com"),
            rule(RuleType::Full, "c.test.com"),
            rule(RuleType::Full, "test.com"),
        ],
        vec![
            rule(RuleType::Domain, "a.b.c"),
            rule(RuleType::Domain, "b.c"),
            rule(RuleType::Domain, "c"),
            rule(RuleType::Domain, "c.test.com"),
        ],
    ]
}

fn lines(rules: &[Rule]) -> Vec<String> {
    let mut v: Vec<String> = rules.iter().map(|r| r.to_line()).collect();
    v.sort();
    v
}

fn sorted(items: &[&str]) -> Vec<String> {
    let mut v: Vec<String> = items.iter().map(|s| s.to_string()).collect();
    v.sort();
    v
}

#[test]
fn libs_test_merge() {
    let rules = merge_and_remove_duplicates(reference_lists());
    for rule in &rules {
        println!("{}", rule.to_line());
    }
    assert_eq!(rules.len(), 4);
}

#[test]
fn tools_test_merge() {
    let rules = merge_and_remove_duplicates(reference_lists());
    for rule in &rules {
        println!("{}", rule.to_line());
    }
    assert_eq!(rules.len(), 4);
}

#[test]
fn reference_scenario_gives_exact_set() {
    let rules = merge_and_remove_duplicates(reference_lists());
    assert_eq!(
        lines(&rules),
        sorted(&["domain:c", "full:test.com", "domain:c.test.com", "full:1.a.test.com"])
    );
}

#[test]
fn merging_output_again_is_idempotent() {
    let first = merge_and_remove_duplicates(reference_lists());
    let copy: Vec<Rule> = first.iter().map(|r| r.clone()).collect();
    let again = merge_and_remove_duplicates(vec![first.clone(), copy]);
    assert_eq!(lines(&again), lines(&first));
}

#[test]
fn domain_rule_drops_earlier_rules_below_it() {
    let rules = merge_and_remove_duplicates(vec![
        vec![
            rule(RuleType::Full, "x.example.org"),
            rule(RuleType::Domain, "deep.y.example.org"),
            rule(RuleType::Full, "example.org"),
        ],
        vec![rule(RuleType::Domain, "example.org")],
    ]);
    assert_eq!(lines(&rules), sorted(&["domain:example.org"]));
}

#[test]
fn domain_rule_keeps_unrelated_names() {
    let rules = merge_and_remove_duplicates(vec![vec![
        rule(RuleType::Full, "test.com"),
        rule(RuleType::Full, "xc"),
        rule(RuleType::Domain, "c"),
    ]]);
    assert_eq!(lines(&rules), sorted(&["full:test.com", "full:xc", "domain:c"]));
}

#[test]
fn later_rule_below_domain_is_kept() {
    // pruning happens only when the covering rule arrives
    let rules = merge_and_remove_duplicates(vec![
        vec![rule(RuleType::Domain, "c")],
        vec![rule(RuleType::Full, "a.c")],
    ]);
    assert_eq!(lines(&rules), sorted(&["domain:c", "full:a.c"]));
}

#[test]
fn later_full_rule_replaces_domain_rule_for_same_name() {
    let rules = merge_and_remove_duplicates(vec![vec![
        rule(RuleType::Domain, "c"),
        rule(RuleType::Full, "c"),
    ]]);
    assert_eq!(lines(&rules), sorted(&["full:c"]));
}

#[test]
fn keyword_and_regex_are_skipped_and_reported() {
    let (rules, skipped) = merge_with_skipped(vec![
        vec![
            rule(RuleType::Keyword, "ads"),
            rule(RuleType::Domain, "a.com"),
            rule(RuleType::Regex, "^x.*$"),
        ],
        vec![rule(RuleType::Full, "b.a.org"), rule(RuleType::Keyword, "track")],
    ]);
    assert_eq!(lines(&rules), sorted(&["domain:a.com", "full:b.a.org"]));
    assert_eq!(
        skipped.iter().map(|r| r.to_line()).collect::<Vec<String>>(),
        vec!["keyword:ads".to_string(), "regex:^x.*$".to_string(), "keyword:track".to_string()]
    );
    let plain = merge_and_remove_duplicates(vec![
        vec![rule(RuleType::Domain, "a.com")],
        vec![rule(RuleType::Full, "b.a.org")],
    ]);
    assert_eq!(lines(&rules), lines(&plain));
}

#[test]
fn output_never_exceeds_input_count() {
    let input = reference_lists();
    let total: usize = input.iter().map(|l| l.len()).sum();
    let rules = merge_and_remove_duplicates(input);
    assert!(rules.len() <= total);
}

#[test]
fn empty_inputs_give_empty_output() {
    assert!(merge_and_remove_duplicates(vec![]).is_empty());
    assert!(merge_and_remove_duplicates(vec![vec![], vec![]]).is_empty());
}

#[test]
fn duplicates_collapse() {
    let rules = merge_and_remove_duplicates(vec![
        vec![rule(RuleType::Full, "a.b"), rule(RuleType::Full, "a.b")],
        vec![rule(RuleType::Full, "a.b")],
    ]);
    assert_eq!(lines(&rules), sorted(&["full:a.b"]));
}

#[test]
fn empty_labels_are_kept_as_written() {
    let rules = merge_and_remove_duplicates(vec![vec![
        rule(RuleType::Full, "a..b"),
        rule(RuleType::Full, ".b"),
        rule(RuleType::Domain, "b."),
    ]]);
    assert_eq!(lines(&rules), sorted(&["full:a..b", "full:.b", "domain:b."]));
}

#[test]
fn rule_equality_compares_kind_and_content() {
    assert!(rule(RuleType::Full, "a") == rule(RuleType::Full, "a"));
    assert!(rule(RuleType::Full, "a") != rule(RuleType::Domain, "a"));
    assert!(rule(RuleType::Full, "a") != rule(RuleType::Full, "b"));
}
