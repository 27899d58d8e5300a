use easy_adblock_for_mosdns::config::Config;
use easy_adblock_for_mosdns::config::Fetch;
use easy_adblock_for_mosdns::config::RuleSrc;
use easy_adblock_for_mosdns::config::RuleSrcType;
use easy_adblock_for_mosdns::config::SourceError;
use easy_adblock_for_mosdns::source::ParseError;

#[test]
fn config_defaults_and_add() {
    let mut c = Config::new(vec![RuleSrc::from_adguard_home_rule("http://x/list".to_string(), true)]);
    assert_eq!(c.accept_rule_path, "./accept.txt");
    assert_eq!(c.reject_rule_path, "./reject.txt");
    c.add(RuleSrc::from_mosdns_file("r.txt".to_string(), false, false));
    assert_eq!(c.rule_src.len(), 2);
    assert!(matches!(&c.rule_src[1].src_type, RuleSrcType::MosdnsFile(p, false) if p == "r.txt"));
    assert!(!c.rule_src[1].auto_update);
}

#[test]
fn source_constructors() {
    let g = RuleSrc::from_geosite("u".to_string(), "ads".to_string(), true, false);
    assert!(matches!(&g.src_type, RuleSrcType::Geosite(u, c, true) if u == "u" && c == "ads"));
    let n = RuleSrc::new(RuleSrcType::PureFile("p".to_string(), true), true);
    assert!(n.auto_update);
    assert!(matches!(RuleSrcType::default(), RuleSrcType::Unknown));
}

#[test]
fn plan_follows_polarity_and_kind() {
    let f = RuleSrcType::MosdnsFile("a.txt".to_string(), true);
    assert!(matches!(f.plan(true), Fetch::ReadFile(p) if p == "a.txt"));
    assert!(matches!(f.plan(false), Fetch::Nothing));
    let a = RuleSrcType::AdguardHomeRule("http://h/l".to_string());
    assert!(matches!(a.plan(false), Fetch::Download(u) if u == "http://h/l"));
    let g = RuleSrcType::Geosite("u".to_string(), "c".to_string(), true);
    assert!(matches!(g.plan(true), Fetch::Fail(SourceError::NotImplemented)));
    assert!(matches!(RuleSrcType::Unknown.plan(true), Fetch::Fail(SourceError::UnknownSource)));
}

#[test]
fn read_rules_by_kind() {
    let f = RuleSrcType::MosdnsFile("a.txt".to_string(), true);
    assert_eq!(f.read_rules(true, "full:a.com\n").unwrap().len(), 1);
    assert_eq!(
        f.read_rules(true, "nonsense\n").unwrap_err(),
        SourceError::Parse(ParseError::MissingSeparator)
    );
    let p = RuleSrcType::PureFile("p".to_string(), false);
    assert_eq!(p.read_rules(false, "a.com\nb.com\n").unwrap()[1].to_line(), "domain:b.com");
    let a = RuleSrcType::AdguardHomeRule("u".to_string());
    assert_eq!(a.read_rules(true, "@@||ok.com^\n||no.com^\n").unwrap()[0].to_line(), "domain:ok.com");
    let g = RuleSrcType::Geosite("u".to_string(), "c".to_string(), true);
    assert_eq!(g.read_rules(true, "").unwrap_err(), SourceError::NotImplemented);
    assert_eq!(RuleSrcType::Unknown.read_rules(true, "").unwrap_err(), SourceError::UnknownSource);
}
