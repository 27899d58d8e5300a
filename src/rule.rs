use vstd::prelude::*;
use vstd::string::StringExecFns;

use crate::source::domain_word;
use crate::source::full_word;

verus! {

/// The four kinds of match directive.
#[derive(PartialEq, Eq, Structural, Clone, Copy, Debug)]
pub enum RuleType {
    /// matches the name and every name below it
    Domain,
    /// matches the exact name only
    Full,
    /// substring match; not merged
    Keyword,
    /// pattern match; not merged
    Regex,
}

/// A match directive: a kind and its payload.
#[derive(Clone, Debug)]
pub struct Rule {
    pub rule_type: RuleType,
    pub rule_content: String,
}

impl View for Rule {
    type V = (RuleType, Seq<char>);

    open spec fn view(&self) -> (RuleType, Seq<char>) {
        (self.rule_type, self.rule_content@)
    }
}

/// The word that names a kind in rule files.
pub open spec fn kind_word(k: RuleType) -> Seq<char> {
    match k {
        RuleType::Domain => domain_word(),
        RuleType::Full => full_word(),
        RuleType::Keyword => seq!['k', 'e', 'y', 'w', 'o', 'r', 'd'],
        RuleType::Regex => seq!['r', 'e', 'g', 'e', 'x'],
    }
}

/// The display form of a rule: `<kind>:<content>`.
pub open spec fn line_of(r: (RuleType, Seq<char>)) -> Seq<char> {
    kind_word(r.0) + seq![':'] + r.1
}

/// Rules written one per line, each line ended by a line feed.
pub open spec fn text_of(rs: Seq<(RuleType, Seq<char>)>) -> Seq<char>
    decreases rs.len(),
{
    if rs.len() == 0 {
        Seq::empty()
    } else {
        text_of(rs.drop_last()) + line_of(rs.last()) + seq!['\n']
    }
}

impl RuleType {
    pub fn word(&self) -> (r: &'static str)
        ensures
            r@ == kind_word(*self),
    {
        match self {
            RuleType::Domain => {
                proof {
                    reveal_strlit("domain");
                }
                assert("domain"@ =~= domain_word());
                "domain"
            },
            RuleType::Full => {
                proof {
                    reveal_strlit("full");
                }
                assert("full"@ =~= full_word());
                "full"
            },
            RuleType::Keyword => {
                proof {
                    reveal_strlit("keyword");
                }
                assert("keyword"@ =~= kind_word(RuleType::Keyword));
                "keyword"
            },
            RuleType::Regex => {
                proof {
                    reveal_strlit("regex");
                }
                assert("regex"@ =~= kind_word(RuleType::Regex));
                "regex"
            },
        }
    }
}

impl Rule {
    pub fn new(rule_type: RuleType, rule_content: String) -> (r: Self)
        ensures
            r.rule_type == rule_type,
            r.rule_content@ == rule_content@,
    {
        Rule { rule_type, rule_content }
    }

    /// The display form `<kind>:<content>`, as rule files hold it.
    pub fn to_line(&self) -> (r: String)
        ensures
            r@ == line_of(self@),
    {
        let mut s = String::from_str(self.rule_type.word());
        s.append(":");
        s.append(self.rule_content.as_str());
        proof {
            reveal_strlit(":");
        }
        assert(s@ =~= line_of(self@));
        s
    }
}

impl PartialEq for Rule {
    fn eq(&self, other: &Rule) -> (r: bool) {
        self.rule_type == other.rule_type && self.rule_content == other.rule_content
    }
}

impl vstd::std_specs::cmp::PartialEqSpecImpl for Rule {
    open spec fn obeys_eq_spec() -> bool {
        true
    }

    open spec fn eq_spec(&self, other: &Rule) -> bool {
        self@ == other@
    }
}

/// Writes rules one per line in their display form, each line ended by a
/// line feed.
pub fn write_rules(rules: &Vec<Rule>) -> (r: String)
    ensures
        r@ == text_of(rules@.map_values(|x: Rule| x@)),
{
    let ghost rv = rules@.map_values(|x: Rule| x@);
    let mut s = String::new();
    let mut i: usize = 0;
    assert(rv.subrange(0, 0) =~= Seq::<(RuleType, Seq<char>)>::empty());
    while i < rules.len()
        invariant
            rv == rules@.map_values(|x: Rule| x@),
            i <= rules.len(),
            s@ == text_of(rv.subrange(0, i as int)),
        decreases rules.len() - i,
    {
        let line = rules[i].to_line();
        s.append(line.as_str());
        s.append("\n");
        proof {
            reveal_strlit("\n");
        }
        assert(rv.subrange(0, i + 1).drop_last() =~= rv.subrange(0, i as int));
        assert(rv[i as int] == rules[i as int]@);
        i += 1;
        assert(s@ =~= text_of(rv.subrange(0, i as int)));
    }
    assert(rv.subrange(0, rules.len() as int) =~= rv);
    s
}

} // verus!
