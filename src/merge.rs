use vstd::prelude::*;

use crate::labels::dotted;
use crate::labels::labels_of;
use crate::labels::is_strict_subdomain;
use crate::labels::lemma_dotted_labels_of;
use crate::labels::lemma_labels_of_proper;
use crate::labels::lemma_strict_subdomain_iff;
use crate::labels::proper_labels;
use crate::labels::split_labels;
use crate::labels::label_views;
use crate::rule::Rule;
use crate::rule::RuleType;
use crate::trie::DomainTrie;
use crate::trie::insert_model;
use crate::trie::kind_of;

verus! {

/// A rule as a value: its kind and its content.
pub type RuleView = (RuleType, Seq<char>);

/// `Domain` and `Full` rules are merged; `Keyword` and `Regex` rules are not.
pub open spec fn is_mergeable(k: RuleType) -> bool {
    k == RuleType::Domain || k == RuleType::Full
}

/// The rule set after one more rule: a `Domain` rule for `d` stands for `d`
/// and drops every rule strictly below `d`; a `Full` rule stands for its
/// name alone; other kinds change nothing.
pub open spec fn apply_rule(m: Map<Seq<char>, RuleType>, r: RuleView) -> Map<Seq<char>, RuleType> {
    if r.0 == RuleType::Domain {
        Map::new(
            |c: Seq<char>| m.contains_key(c) && !is_strict_subdomain(c, r.1),
            |c: Seq<char>| m[c],
        ).insert(r.1, RuleType::Domain)
    } else if r.0 == RuleType::Full {
        m.insert(r.1, RuleType::Full)
    } else {
        m
    }
}

/// The rule set after the rules of `rs`, in order.
pub open spec fn apply_rules(m: Map<Seq<char>, RuleType>, rs: Seq<RuleView>) -> Map<
    Seq<char>,
    RuleType,
>
    decreases rs.len(),
{
    if rs.len() == 0 {
        m
    } else {
        apply_rule(apply_rules(m, rs.drop_last()), rs.last())
    }
}

/// The rule set after every list of `ls`, in order.
pub open spec fn apply_lists(m: Map<Seq<char>, RuleType>, ls: Seq<Seq<RuleView>>) -> Map<
    Seq<char>,
    RuleType,
>
    decreases ls.len(),
{
    if ls.len() == 0 {
        m
    } else {
        apply_rules(apply_lists(m, ls.drop_last()), ls.last())
    }
}

/// The merged rule set of some lists: each content that it keeps, with its kind.
pub open spec fn merged(ls: Seq<Seq<RuleView>>) -> Map<Seq<char>, RuleType> {
    apply_lists(Map::empty(), ls)
}

/// The rules of `rs` that are not merged, in order.
pub open spec fn unsupported_of(rs: Seq<RuleView>) -> Seq<RuleView>
    decreases rs.len(),
{
    if rs.len() == 0 {
        Seq::empty()
    } else if is_mergeable(rs.last().0) {
        unsupported_of(rs.drop_last())
    } else {
        unsupported_of(rs.drop_last()).push(rs.last())
    }
}

/// The rules of all lists that are not merged, in order.
pub open spec fn unsupported_lists(ls: Seq<Seq<RuleView>>) -> Seq<RuleView>
    decreases ls.len(),
{
    if ls.len() == 0 {
        Seq::empty()
    } else {
        unsupported_lists(ls.drop_last()) + unsupported_of(ls.last())
    }
}

pub open spec fn rules_view(v: Seq<Rule>) -> Seq<RuleView> {
    v.map_values(|r: Rule| r@)
}

pub open spec fn lists_view(v: Seq<Vec<Rule>>) -> Seq<Seq<RuleView>> {
    v.map_values(|l: Vec<Rule>| rules_view(l@))
}

/// `out` lists the rule set `m`: each content once, with its kind.
pub open spec fn lists_exactly(out: Seq<Rule>, m: Map<Seq<char>, RuleType>) -> bool {
    &&& forall|i: int|
        #![trigger out[i]]
        0 <= i < out.len() ==> m.contains_key(out[i].rule_content@) && out[i].rule_type
            == m[out[i].rule_content@]
    &&& forall|c: Seq<char>| #[trigger]
        m.contains_key(c) ==> exists|i: int| 0 <= i < out.len() && out[i]@ == (m[c], c)
    &&& forall|i: int, j: int|
        0 <= i < j < out.len() ==> out[i].rule_content@ != out[j].rule_content@
}

/// The tree's rules, keyed by label path, are the rule set `cm`, keyed by content.
spec fn tree_holds(pm: Map<Seq<Seq<char>>, bool>, cm: Map<Seq<char>, RuleType>) -> bool {
    &&& forall|c: Seq<char>|
        #![trigger cm.contains_key(c)]
        #![trigger pm.contains_key(labels_of(c))]
        cm.contains_key(c) <==> pm.contains_key(labels_of(c))
    &&& forall|c: Seq<char>| #[trigger]
        cm.contains_key(c) ==> cm[c] == kind_of(pm[labels_of(c)])
    &&& forall|p: Seq<Seq<char>>| #[trigger] pm.contains_key(p) ==> proper_labels(p)
}

proof fn lemma_labels_of_injective(a: Seq<char>, b: Seq<char>)
    requires
        labels_of(a) == labels_of(b),
    ensures
        a == b,
{
    lemma_dotted_labels_of(a);
    lemma_dotted_labels_of(b);
}

proof fn lemma_tree_step(
    pm: Map<Seq<Seq<char>>, bool>,
    cm: Map<Seq<char>, RuleType>,
    r: RuleView,
)
    requires
        tree_holds(pm, cm),
        is_mergeable(r.0),
    ensures
        tree_holds(
            insert_model(pm, labels_of(r.1), r.0 == RuleType::Domain),
            apply_rule(cm, r),
        ),
{
    let d = r.1;
    let pd = labels_of(d);
    let pm2 = insert_model(pm, pd, r.0 == RuleType::Domain);
    let cm2 = apply_rule(cm, r);
    lemma_labels_of_proper(d);
    assert forall|c: Seq<char>| cm2.contains_key(c) <==> pm2.contains_key(labels_of(c)) by {
        lemma_strict_subdomain_iff(c, d);
        if labels_of(c) == pd {
            lemma_labels_of_injective(c, d);
        }
    }
    assert forall|c: Seq<char>| #[trigger] cm2.contains_key(c) implies cm2[c] == kind_of(
        pm2[labels_of(c)],
    ) by {
        lemma_strict_subdomain_iff(c, d);
        if labels_of(c) == pd {
            lemma_labels_of_injective(c, d);
        }
    }
}

/// Merges rule lists into one minimal list: a `Domain` rule swallows the
/// rules at and below its name that came before it, duplicates collapse,
/// and `Keyword` and `Regex` rules are set aside.  A rule that comes after a
/// `Domain` rule above it is kept: pruning happens only when the covering
/// rule arrives.  Returns the merged rules and the rules set aside, in input
/// order.
pub fn merge_with_skipped(rules_vec: Vec<Vec<Rule>>) -> (r: (Vec<Rule>, Vec<Rule>))
    ensures
        lists_exactly(r.0@, merged(lists_view(rules_vec@))),
        rules_view(r.1@) == unsupported_lists(lists_view(rules_vec@)),
{
    let ghost lv = lists_view(rules_vec@);
    let mut trie = DomainTrie::new();
    let mut skipped: Vec<Rule> = Vec::new();
    let mut i: usize = 0;
    assert(lv.subrange(0, 0) =~= Seq::<Seq<RuleView>>::empty());
    assert(tree_holds(trie.model(), Map::empty()));
    while i < rules_vec.len()
        invariant
            lv == lists_view(rules_vec@),
            i <= rules_vec.len(),
            trie.wf(),
            tree_holds(trie.model(), apply_lists(Map::empty(), lv.subrange(0, i as int))),
            rules_view(skipped@) == unsupported_lists(lv.subrange(0, i as int)),
        decreases rules_vec.len() - i,
    {
        let list = &rules_vec[i];
        let ghost before = apply_lists(Map::empty(), lv.subrange(0, i as int));
        let ghost skipped_before = unsupported_lists(lv.subrange(0, i as int));
        let ghost lr = lv[i as int];
        assert(lr == rules_view(list@));
        let mut j: usize = 0;
        assert(lr.subrange(0, 0) =~= Seq::<RuleView>::empty());
        assert(skipped_before + unsupported_of(lr.subrange(0, 0)) =~= skipped_before);
        while j < list.len()
            invariant
                lr == rules_view(list@),
                j <= list.len(),
                trie.wf(),
                tree_holds(trie.model(), apply_rules(before, lr.subrange(0, j as int))),
                rules_view(skipped@) == skipped_before + unsupported_of(lr.subrange(0, j as int)),
            decreases list.len() - j,
        {
            let rule = &list[j];
            let ghost pre = lr.subrange(0, j as int);
            assert(lr.subrange(0, j + 1).drop_last() =~= pre);
            assert(lr.subrange(0, j + 1).last() == rule@);
            let ghost old_skipped = skipped@;
            match rule.rule_type {
                RuleType::Domain | RuleType::Full => {
                    let path = split_labels(rule.rule_content.as_str());
                    proof {
                        lemma_labels_of_proper(rule.rule_content@);
                        lemma_tree_step(trie.model(), apply_rules(before, pre), rule@);
                    }
                    trie.insert(&path, rule.rule_type == RuleType::Domain);
                },
                _ => {
                    skipped.push(Rule::new(rule.rule_type, rule.rule_content.clone()));
                    assert(rules_view(skipped@) =~= rules_view(old_skipped).push(rule@));
                },
            }
            j += 1;
            assert(rules_view(skipped@) =~= skipped_before + unsupported_of(
                lr.subrange(0, j as int),
            ));
        }
        assert(lr.subrange(0, lr.len() as int) =~= lr);
        assert(lv.subrange(0, i + 1).drop_last() =~= lv.subrange(0, i as int));
        assert(lv.subrange(0, i + 1).last() == lr);
        i += 1;
    }
    assert(lv.subrange(0, lv.len() as int) =~= lv);
    let out = trie.to_rules();
    proof {
        let cm = merged(lv);
        let pm = trie.model();
        assert forall|i: int|
            #![trigger out[i]]
            0 <= i < out.len() implies cm.contains_key(out[i].rule_content@) && out[i].rule_type
                == cm[out[i].rule_content@] by {
            lemma_dotted_labels_of(out[i].rule_content@);
        }
        assert forall|c: Seq<char>| #[trigger]
            cm.contains_key(c) implies exists|i: int| 0 <= i < out.len() && out[i]@ == (cm[c], c) by {
            let p = labels_of(c);
            assert(pm.contains_key(p));
            lemma_dotted_labels_of(c);
            let i = choose|i: int| 0 <= i < out.len() && out[i]@ == (kind_of(pm[p]), dotted(p));
            assert(out[i]@ == (cm[c], c));
        }
    }
    (out, skipped)
}

/// Merges rule lists into one minimal list; `Keyword` and `Regex` rules are
/// dropped.
pub fn merge_and_remove_duplicates(rules_vec: Vec<Vec<Rule>>) -> (out: Vec<Rule>)
    ensures
        lists_exactly(out@, merged(lists_view(rules_vec@))),
{
    let (out, _skipped) = merge_with_skipped(rules_vec);
    out
}

} // verus!
