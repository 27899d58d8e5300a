use easy_adblock_for_mosdns::merge::merge_and_remove_duplicates;
use easy_adblock_for_mosdns::rule::write_rules;
use easy_adblock_for_mosdns::rule::Rule;
use easy_adblock_for_mosdns::rule::RuleType;
use easy_adblock_for_mosdns::source::parse_filter_list;
use easy_adblock_for_mosdns::source::parse_plain;
use easy_adblock_for_mosdns::source::parse_structured;
use easy_adblock_for_mosdns::source::ParseError;

fn shown(rules: &[Rule]) -> Vec<String> {
    rules.iter().map(|r| r.to_line()).collect()
}

#[test]
fn display_form_of_each_kind() {
    assert_eq!(Rule::new(RuleType::Domain, "a.com".to_string()).to_line(), "domain:a.com");
    assert_eq!(Rule::new(RuleType::Full, "a.com".to_string()).to_line(), "full:a.com");
    assert_eq!(Rule::new(RuleType::Keyword, "ad".to_string()).to_line(), "keyword:ad");
    assert_eq!(Rule::new(RuleType::Regex, "a+".to_string()).to_line(), "regex:a+");
}

#[test]
fn structured_file_is_read_and_trimmed() {
    let text = "  domain : a.com  \nfull:b.org\r\nkeyword: ads\nregexp:x\ndomain:x:y\n";
    let rules = parse_structured(text).unwrap();
    assert_eq!(shown(&rules), vec!["domain:a.com", "full:b.org", "domain:x:y"]);
}

#[test]
fn structured_file_without_separator_fails() {
    assert_eq!(parse_structured("domain:a.com\nbroken line\n").unwrap_err(), ParseError::MissingSeparator);
    assert_eq!(parse_structured("domain:a.com\n\nfull:b\n").unwrap_err(), ParseError::MissingSeparator);
}

#[test]
fn structured_file_empty_text_has_no_rules() {
    assert!(parse_structured("").unwrap().is_empty());
}

#[test]
fn plain_file_lines_become_domain_rules() {
    let rules = parse_plain(" a.com \n\n  \nb.org\r\nc.net");
    assert_eq!(shown(&rules), vec!["domain:a.com", "domain:b.org", "domain:c.net"]);
}

#[test]
fn filter_list_allow_and_block_lines() {
    let text = "! comment\n@@||good.com^\n||bad.com^\n||also-bad.org^$important\n@@||@@||twice.net^^\n||^\n";
    let accept = parse_filter_list(text, true);
    assert_eq!(shown(&accept), vec!["domain:good.com", "domain:twice.net"]);
    let reject = parse_filter_list(text, false);
    assert_eq!(shown(&reject), vec!["domain:bad.com", "domain:"]);
}

#[test]
fn written_output_reads_back_as_the_same_rules() {
    let lists = vec![vec![
        Rule::new(RuleType::Domain, "c".to_string()),
        Rule::new(RuleType::Full, "test.com".to_string()),
        Rule::new(RuleType::Domain, "c.test.com".to_string()),
        Rule::new(RuleType::Full, "1.a.test.com".to_string()),
    ]];
    let out = merge_and_remove_duplicates(lists);
    let text = write_rules(&out);
    assert_eq!(text.lines().count(), 4);
    let back = parse_structured(&text).unwrap();
    assert_eq!(shown(&back), shown(&out));
}

#[test]
fn written_text_has_one_line_per_rule() {
    let rules = vec![
        Rule::new(RuleType::Domain, "a.b".to_string()),
        Rule::new(RuleType::Full, "c".to_string()),
    ];
    assert_eq!(write_rules(&rules), "domain:a.b\nfull:c\n");
    assert_eq!(write_rules(&vec![]), "");
}
