use vstd::prelude::*;
use vstd::set_lib::lemma_len_subset;
use vstd::seq_lib::seq_to_set_is_finite;

use crate::labels::is_strict_subdomain;
use crate::merge::RuleView;
use crate::merge::apply_lists;
use crate::merge::apply_rule;
use crate::merge::apply_rules;
use crate::merge::is_mergeable;
use crate::merge::lists_exactly;
use crate::merge::merged;
use crate::merge::rules_view;
use crate::rule::Rule;
use crate::rule::RuleType;
use crate::rule::line_of;
use crate::rule::text_of;
use crate::source::domain_word;
use crate::source::first_index;
use crate::source::full_word;
use crate::source::structured_line;
use crate::source::structured_lines;
use crate::text::is_space;
use crate::text::lines_of;
use crate::text::pieces;
use crate::text::strip_cr;
use crate::text::trim;
use crate::text::trim_end;
use crate::text::trim_start;

verus! {

/// The rules of `rs` that are merged, in order.
pub open spec fn mergeable_of(rs: Seq<RuleView>) -> Seq<RuleView>
    decreases rs.len(),
{
    if rs.len() == 0 {
        Seq::empty()
    } else if is_mergeable(rs.last().0) {
        mergeable_of(rs.drop_last()).push(rs.last())
    } else {
        mergeable_of(rs.drop_last())
    }
}

pub open spec fn mergeable_lists(ls: Seq<Seq<RuleView>>) -> Seq<Seq<RuleView>> {
    ls.map_values(|rs: Seq<RuleView>| mergeable_of(rs))
}

/// Once a `Domain` rule for `d` is taken in, the set holds `d` as a `Domain`
/// rule and nothing strictly below `d`.
pub proof fn law_dominance(ls: Seq<Seq<RuleView>>, rs: Seq<RuleView>, d: Seq<char>)
    ensures
        ({
            let m = merged(ls.push(rs.push((RuleType::Domain, d))));
            &&& m.contains_key(d)
            &&& m[d] == RuleType::Domain
            &&& forall|c: Seq<char>| is_strict_subdomain(c, d) ==> !#[trigger] m.contains_key(c)
        }),
{
    let l = rs.push((RuleType::Domain, d));
    assert(ls.push(l).drop_last() =~= ls);
    assert(l.drop_last() =~= rs);
    let m = merged(ls.push(l));
    assert forall|c: Seq<char>| is_strict_subdomain(c, d) implies !#[trigger] m.contains_key(c) by {
        assert(c != d);
    }
}

/// A `Domain` rule for `d` leaves alone every rule for a name that is
/// neither `d` nor below `d`.
pub proof fn law_no_dominance_elsewhere(m: Map<Seq<char>, RuleType>, d: Seq<char>, c: Seq<char>)
    requires
        c != d,
        !is_strict_subdomain(c, d),
    ensures
        apply_rule(m, (RuleType::Domain, d)).contains_key(c) == m.contains_key(c),
        m.contains_key(c) ==> apply_rule(m, (RuleType::Domain, d))[c] == m[c],
{
}

proof fn lemma_skip_rules(m: Map<Seq<char>, RuleType>, rs: Seq<RuleView>)
    ensures
        apply_rules(m, rs) == apply_rules(m, mergeable_of(rs)),
    decreases rs.len(),
{
    if rs.len() > 0 {
        lemma_skip_rules(m, rs.drop_last());
        if is_mergeable(rs.last().0) {
            let f = mergeable_of(rs);
            assert(f.drop_last() =~= mergeable_of(rs.drop_last()));
        }
    }
}

/// `Keyword` and `Regex` rules, wherever they stand, do not change the
/// merged set: it is that of the lists without them.
pub proof fn law_kind_skip(ls: Seq<Seq<RuleView>>)
    ensures
        merged(ls) == merged(mergeable_lists(ls)),
    decreases ls.len(),
{
    if ls.len() > 0 {
        let f = mergeable_lists(ls);
        law_kind_skip(ls.drop_last());
        assert(f.drop_last() =~= mergeable_lists(ls.drop_last()));
        lemma_skip_rules(merged(ls.drop_last()), ls.last());
    }
}

/// No rule of the set lies strictly below one of its `Domain` rules.
pub open spec fn reduced(m: Map<Seq<char>, RuleType>) -> bool {
    forall|c: Seq<char>, d: Seq<char>|
        m.contains_key(c) && m.contains_key(d) && m[d] == RuleType::Domain ==> !(
        #[trigger] is_strict_subdomain(c, d))
}

proof fn lemma_replay(s: Map<Seq<char>, RuleType>, base: Map<Seq<char>, RuleType>, o: Seq<RuleView>, k: int)
    requires
        reduced(s),
        base.submap_of(s),
        0 <= k <= o.len(),
        forall|i: int| 0 <= i < o.len() ==> s.contains_key(#[trigger] o[i].1) && s[o[i].1] == o[i].0,
        forall|c: Seq<char>| #[trigger] s.contains_key(c) ==> is_mergeable(s[c]),
    ensures
        apply_rules(base, o.subrange(0, k)).submap_of(s),
        forall|i: int| 0 <= i < k ==> apply_rules(base, o.subrange(0, k)).contains_key(#[trigger] o[i].1),
    decreases k,
{
    if k > 0 {
        lemma_replay(s, base, o, k - 1);
        let pre = o.subrange(0, k - 1);
        assert(o.subrange(0, k).drop_last() =~= pre);
        let m = apply_rules(base, pre);
        let r = o[k - 1];
        assert(s.contains_key(r.1));
        assert(is_mergeable(r.0));
        let m2 = apply_rule(m, r);
        assert(m2 == apply_rules(base, o.subrange(0, k)));
        assert forall|i: int| 0 <= i < k implies m2.contains_key(#[trigger] o[i].1) by {
            if i < k - 1 {
                assert(m.contains_key(o[i].1));
                assert(s.contains_key(o[i].1));
                if r.0 == RuleType::Domain {
                    assert(!is_strict_subdomain(o[i].1, r.1));
                }
            }
        }
    }
}

proof fn lemma_rules_kinds(m: Map<Seq<char>, RuleType>, rs: Seq<RuleView>)
    requires
        forall|c: Seq<char>| #[trigger] m.contains_key(c) ==> is_mergeable(m[c]),
    ensures
        forall|c: Seq<char>| #[trigger]
            apply_rules(m, rs).contains_key(c) ==> is_mergeable(apply_rules(m, rs)[c]),
    decreases rs.len(),
{
    if rs.len() > 0 {
        lemma_rules_kinds(m, rs.drop_last());
        let m1 = apply_rules(m, rs.drop_last());
        let m2 = apply_rules(m, rs);
        assert forall|c: Seq<char>| #[trigger] m2.contains_key(c) implies is_mergeable(m2[c]) by {
            if c != rs.last().1 {
                assert(m1.contains_key(c));
            }
        }
    }
}

proof fn lemma_merged_kinds(ls: Seq<Seq<RuleView>>)
    ensures
        forall|c: Seq<char>| #[trigger] merged(ls).contains_key(c) ==> is_mergeable(merged(ls)[c]),
    decreases ls.len(),
{
    if ls.len() > 0 {
        lemma_merged_kinds(ls.drop_last());
        lemma_rules_kinds(merged(ls.drop_last()), ls.last());
    }
}

proof fn lemma_replay_all(s: Map<Seq<char>, RuleType>, base: Map<Seq<char>, RuleType>, out: Seq<Rule>)
    requires
        reduced(s),
        base.submap_of(s),
        lists_exactly(out, s),
        forall|c: Seq<char>| #[trigger] s.contains_key(c) ==> is_mergeable(s[c]),
    ensures
        apply_rules(base, rules_view(out)) == s,
{
    let o = rules_view(out);
    assert forall|i: int| 0 <= i < o.len() implies s.contains_key(#[trigger] o[i].1) && s[o[i].1]
        == o[i].0 by {
        assert(o[i] == out[i]@);
    }
    assert(o.subrange(0, o.len() as int) =~= o);
    lemma_replay(s, base, o, o.len() as int);
    let m = apply_rules(base, o);
    assert forall|c: Seq<char>| s.contains_key(c) implies m.contains_key(c) by {
        let i = choose|i: int| 0 <= i < out.len() && out[i]@ == (s[c], c);
        assert(o[i] == out[i]@);
        assert(o[i].1 == c);
    }
    assert(m =~= s);
}

/// Merging, as two lists, a listing of a merged set in which no rule lies
/// below a `Domain` rule gives that set again.
pub proof fn law_idempotence(ls: Seq<Seq<RuleView>>, out: Seq<Rule>)
    requires
        reduced(merged(ls)),
        lists_exactly(out, merged(ls)),
    ensures
        merged(seq![rules_view(out), rules_view(out)]) == merged(ls),
{
    let s = merged(ls);
    let o = rules_view(out);
    let empty = Map::<Seq<char>, RuleType>::empty();
    lemma_merged_kinds(ls);
    lemma_replay_all(s, empty, out);
    lemma_replay_all(s, s, out);
    let two = seq![o, o];
    assert(two.drop_last() =~= seq![o]);
    assert(seq![o].drop_last() =~= Seq::<Seq<RuleView>>::empty());
    assert(apply_lists(empty, Seq::<Seq<RuleView>>::empty()) == empty);
    assert(merged(seq![o]) == apply_rules(empty, o));
}

/// Every rule of the lists, in order.
pub open spec fn all_contents(ls: Seq<Seq<RuleView>>) -> Seq<Seq<char>>
    decreases ls.len(),
{
    if ls.len() == 0 {
        Seq::empty()
    } else {
        all_contents(ls.drop_last()) + ls.last().map_values(|r: RuleView| r.1)
    }
}

/// How many rules the lists hold together.
pub open spec fn total_len(ls: Seq<Seq<RuleView>>) -> nat
    decreases ls.len(),
{
    if ls.len() == 0 {
        0
    } else {
        total_len(ls.drop_last()) + ls.last().len()
    }
}

proof fn lemma_rules_dom(m: Map<Seq<char>, RuleType>, rs: Seq<RuleView>)
    ensures
        forall|c: Seq<char>| #[trigger]
            apply_rules(m, rs).contains_key(c) ==> m.contains_key(c) || rs.map_values(
                |r: RuleView| r.1,
            ).contains(c),
    decreases rs.len(),
{
    if rs.len() > 0 {
        lemma_rules_dom(m, rs.drop_last());
        let cs = rs.map_values(|r: RuleView| r.1);
        let ps = rs.drop_last().map_values(|r: RuleView| r.1);
        assert forall|c: Seq<char>| #[trigger]
            apply_rules(m, rs).contains_key(c) implies m.contains_key(c) || cs.contains(c) by {
            if c == rs.last().1 {
                assert(cs[rs.len() - 1] == c);
            } else if !m.contains_key(c) {
                assert(apply_rules(m, rs.drop_last()).contains_key(c));
                assert(ps.contains(c));
                let i = choose|i: int| 0 <= i < ps.len() && ps[i] == c;
                assert(cs[i] == c);
            }
        }
    }
}

proof fn lemma_merged_dom(ls: Seq<Seq<RuleView>>)
    ensures
        merged(ls).dom().subset_of(all_contents(ls).to_set()),
        all_contents(ls).len() == total_len(ls),
    decreases ls.len(),
{
    if ls.len() > 0 {
        lemma_merged_dom(ls.drop_last());
        lemma_rules_dom(merged(ls.drop_last()), ls.last());
        let a = all_contents(ls.drop_last());
        let b = ls.last().map_values(|r: RuleView| r.1);
        assert forall|c: Seq<char>| merged(ls).dom().contains(c) implies all_contents(
            ls,
        ).to_set().contains(c) by {
            if merged(ls.drop_last()).contains_key(c) {
                assert(a.to_set().contains(c));
                let i = choose|i: int| 0 <= i < a.len() && a[i] == c;
                assert((a + b)[i] == c);
            } else {
                assert(b.contains(c));
                let i = choose|i: int| 0 <= i < b.len() && b[i] == c;
                assert((a + b)[a.len() + i] == c);
            }
        }
    }
}

/// A listing of the merged set has no more rules than the lists together.
pub proof fn law_size_bound(ls: Seq<Seq<RuleView>>, out: Seq<Rule>)
    requires
        lists_exactly(out, merged(ls)),
    ensures
        out.len() <= total_len(ls),
{
    let cs = out.map_values(|r: Rule| r.rule_content@);
    assert(cs.no_duplicates()) by {
        assert forall|i: int, j: int| 0 <= i < cs.len() && 0 <= j < cs.len() && i != j implies cs[i]
            != cs[j] by {
            if i < j {
                assert(out[i].rule_content@ != out[j].rule_content@);
            } else {
                assert(out[j].rule_content@ != out[i].rule_content@);
            }
        }
    }
    cs.unique_seq_to_set();
    lemma_merged_dom(ls);
    let all = all_contents(ls);
    all.lemma_cardinality_of_set();
    seq_to_set_is_finite(all);
    assert forall|c: Seq<char>| cs.to_set().contains(c) implies all.to_set().contains(c) by {
        let i = choose|i: int| 0 <= i < cs.len() && cs[i] == c;
        assert(out[i].rule_content@ == c);
        assert(merged(ls).dom().contains(c));
    }
    lemma_len_subset(cs.to_set(), all.to_set());
}

proof fn lemma_pieces_append(s: Seq<char>, l: Seq<char>)
    requires
        forall|i: int| 0 <= i < l.len() ==> l[i] != '\n',
    ensures
        pieces(s + l) == pieces(s).update(pieces(s).len() - 1, pieces(s).last() + l),
        pieces(s).len() >= 1,
    decreases l.len(),
{
    lemma_pieces_nonempty(s);
    if l.len() == 0 {
        assert(s + l =~= s);
        assert(pieces(s).update(pieces(s).len() - 1, pieces(s).last() + l) =~= pieces(s));
    } else {
        lemma_pieces_append(s, l.drop_last());
        assert((s + l).drop_last() =~= s + l.drop_last());
        assert((s + l).last() == l.last());
        let p = pieces(s);
        let q = p.update(p.len() - 1, p.last() + l.drop_last());
        assert(l[l.len() - 1] != '\n');
        assert(q.last() == p.last() + l.drop_last());
        assert((p.last() + l.drop_last()).push(l.last()) =~= p.last() + l);
        assert(q.update(q.len() - 1, q.last().push(l.last())) =~= p.update(
            p.len() - 1,
            p.last() + l,
        ));
    }
}

proof fn lemma_pieces_nonempty(s: Seq<char>)
    ensures
        pieces(s).len() >= 1,
    decreases s.len(),
{
    if s.len() > 0 {
        lemma_pieces_nonempty(s.drop_last());
    }
}

proof fn lemma_trim_start_len(s: Seq<char>)
    ensures
        trim_start(s).len() <= s.len(),
        s.len() > 0 && is_space(s[0]) ==> trim_start(s).len() < s.len(),
    decreases s.len(),
{
    if s.len() > 0 && is_space(s[0]) {
        lemma_trim_start_len(s.drop_first());
    }
}

proof fn lemma_trim_end_len(s: Seq<char>)
    ensures
        trim_end(s).len() <= s.len(),
        s.len() > 0 && is_space(s.last()) ==> trim_end(s).len() < s.len(),
    decreases s.len(),
{
    if s.len() > 0 && is_space(s.last()) {
        lemma_trim_end_len(s.drop_last());
    }
}

/// A trimmed non-empty text starts and ends with a non-space.
proof fn lemma_trimmed_ends(s: Seq<char>)
    requires
        trim(s) == s,
        s.len() > 0,
    ensures
        !is_space(s[0]),
        !is_space(s.last()),
{
    lemma_trim_start_len(s);
    lemma_trim_end_len(trim_start(s));
    if !is_space(s[0]) {
        lemma_trim_end_len(s);
    }
}

proof fn lemma_trim_id(s: Seq<char>)
    requires
        s.len() > 0 ==> !is_space(s[0]) && !is_space(s.last()),
    ensures
        trim(s) == s,
{
}

/// A rule whose display form reads back as itself.
pub open spec fn writable(r: RuleView) -> bool {
    &&& is_mergeable(r.0)
    &&& trim(r.1) == r.1
    &&& forall|i: int| 0 <= i < r.1.len() ==> r.1[i] != '\n'
}

proof fn lemma_read_line(r: RuleView)
    requires
        writable(r),
    ensures
        structured_line(line_of(r)) == Some(Some(r)),
        line_of(r).len() > 0,
        line_of(r).last() != '\r',
        forall|i: int| 0 <= i < line_of(r).len() ==> line_of(r)[i] != '\n',
{
    let w = if r.0 == RuleType::Domain {
        domain_word()
    } else {
        full_word()
    };
    let l = line_of(r);
    let c = r.1;
    assert(l =~= w + seq![':'] + c);
    if c.len() > 0 {
        lemma_trimmed_ends(c);
        assert(l.last() == c.last());
    }
    assert(is_space('\r'));
    lemma_trim_id(l);
    assert(forall|j: int| 0 <= j < w.len() ==> l[j] == w[j] && w[j] != ':');
    lemma_first_index_at(l, ':', w.len() as int);
    assert(l.subrange(0, w.len() as int) =~= w);
    assert(l.subrange(w.len() as int + 1, l.len() as int) =~= c);
    lemma_trim_id(w);
    assert forall|i: int| 0 <= i < l.len() implies l[i] != '\n' by {
        if i >= w.len() + 1 {
            assert(l[i] == c[i - w.len() - 1]);
        }
    }
}

proof fn lemma_first_index_at(s: Seq<char>, c: char, i: int)
    requires
        0 <= i < s.len(),
        forall|j: int| 0 <= j < i ==> s[j] != c,
        s[i] == c,
    ensures
        first_index(s, c) == i,
    decreases i,
{
    if i > 0 {
        lemma_first_index_at(s.drop_first(), c, i - 1);
    }
}

proof fn lemma_pieces_text(rs: Seq<RuleView>)
    requires
        forall|i: int| 0 <= i < rs.len() ==> writable(#[trigger] rs[i]),
    ensures
        pieces(text_of(rs)) == rs.map_values(|r: RuleView| line_of(r)).push(Seq::empty()),
    decreases rs.len(),
{
    if rs.len() == 0 {
        assert(pieces(text_of(rs)) =~= rs.map_values(|r: RuleView| line_of(r)).push(
            Seq::empty(),
        ));
    } else {
        let pre = rs.drop_last();
        lemma_pieces_text(pre);
        let r = rs.last();
        assert(writable(rs[rs.len() - 1]));
        lemma_read_line(r);
        let a = text_of(pre);
        lemma_pieces_append(a, line_of(r));
        let t = a + line_of(r) + seq!['\n'];
        assert(t.drop_last() =~= a + line_of(r));
        assert(t.last() == '\n');
        let pm = pre.map_values(|r: RuleView| line_of(r));
        let pp = pieces(a);
        assert(pp == pm.push(Seq::empty()));
        assert(pp.last() + line_of(r) =~= line_of(r));
        assert(pp.update(pp.len() - 1, pp.last() + line_of(r)) =~= pm.push(line_of(r)));
        assert(pm.push(line_of(r)) =~= rs.map_values(|r: RuleView| line_of(r)));
        assert(pieces(t) == pieces(a + line_of(r)).push(Seq::empty()));
    }
}

proof fn lemma_read_lines(rs: Seq<RuleView>)
    requires
        forall|i: int| 0 <= i < rs.len() ==> writable(#[trigger] rs[i]),
    ensures
        structured_lines(rs.map_values(|r: RuleView| line_of(r))) == Some(rs),
    decreases rs.len(),
{
    let ls = rs.map_values(|r: RuleView| line_of(r));
    if rs.len() == 0 {
        assert(rs =~= Seq::<RuleView>::empty());
    } else {
        lemma_read_lines(rs.drop_last());
        assert(ls.drop_last() =~= rs.drop_last().map_values(|r: RuleView| line_of(r)));
        assert(writable(rs[rs.len() - 1]));
        lemma_read_line(rs.last());
        assert(rs.drop_last().push(rs.last()) =~= rs);
    }
}

/// Rules written in their display form, one per line, read back through
/// the structured-file reader as the same rules, for `Domain` and `Full`
/// rules whose contents are trimmed and hold no line feed.
pub proof fn law_round_trip(rs: Seq<RuleView>)
    requires
        forall|i: int| 0 <= i < rs.len() ==> writable(#[trigger] rs[i]),
    ensures
        structured_lines(lines_of(text_of(rs))) == Some(rs),
{
    lemma_pieces_text(rs);
    let ls = rs.map_values(|r: RuleView| line_of(r));
    assert forall|i: int| 0 <= i < ls.len() implies strip_cr(#[trigger] ls[i]) == ls[i] by {
        assert(writable(rs[i]));
        lemma_read_line(rs[i]);
    }
    assert(lines_of(text_of(rs)) =~= ls);
    lemma_read_lines(rs);
}

} // verus!
