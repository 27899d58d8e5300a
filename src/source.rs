use vstd::prelude::*;

use crate::merge::RuleView;
use crate::merge::rules_view;
use crate::rule::Rule;
use crate::rule::RuleType;
use crate::text::chars_of;
use crate::text::line_ranges;
use crate::text::lines_of;
use crate::text::ranges_ok;
use crate::text::ranges_view;
use crate::text::string_of;
use crate::text::trim;
use crate::text::trim_range;

verus! {

/// Position of the first `c` in `s`, or -1.
pub open spec fn first_index(s: Seq<char>, c: char) -> int
    decreases s.len(),
{
    if s.len() == 0 {
        -1
    } else if s[0] == c {
        0
    } else {
        let r = first_index(s.drop_first(), c);
        if r < 0 {
            -1
        } else {
            r + 1
        }
    }
}

pub open spec fn domain_word() -> Seq<char> {
    seq!['d', 'o', 'm', 'a', 'i', 'n']
}

pub open spec fn full_word() -> Seq<char> {
    seq!['f', 'u', 'l', 'l']
}

/// What one line of a structured rule file says: `None` where it has no
/// `:`; `Some(None)` where its kind word, trimmed, is neither `domain` nor
/// `full`; else the rule, its content trimmed.
pub open spec fn structured_line(l: Seq<char>) -> Option<Option<RuleView>> {
    let t = trim(l);
    let k = first_index(t, ':');
    if k < 0 {
        None
    } else {
        let kw = trim(t.subrange(0, k));
        let content = trim(t.subrange(k + 1, t.len() as int));
        if kw == domain_word() {
            Some(Some((RuleType::Domain, content)))
        } else if kw == full_word() {
            Some(Some((RuleType::Full, content)))
        } else {
            Some(None)
        }
    }
}

/// The rules of the lines of a structured rule file; `None` where a line has no `:`.
pub open spec fn structured_lines(ls: Seq<Seq<char>>) -> Option<Seq<RuleView>>
    decreases ls.len(),
{
    if ls.len() == 0 {
        Some(Seq::empty())
    } else {
        match structured_lines(ls.drop_last()) {
            None => None,
            Some(v) => match structured_line(ls.last()) {
                None => None,
                Some(None) => Some(v),
                Some(Some(r)) => Some(v.push(r)),
            },
        }
    }
}

/// The rules of the lines of a plain domain list: each line, trimmed, that
/// is not empty, as a `Domain` rule.
pub open spec fn plain_lines(ls: Seq<Seq<char>>) -> Seq<RuleView>
    decreases ls.len(),
{
    if ls.len() == 0 {
        Seq::empty()
    } else {
        let v = plain_lines(ls.drop_last());
        let t = trim(ls.last());
        if t.len() == 0 {
            v
        } else {
            v.push((RuleType::Domain, t))
        }
    }
}

pub open spec fn starts_with(s: Seq<char>, p: Seq<char>) -> bool {
    p.len() <= s.len() && s.subrange(0, p.len() as int) == p
}

/// `s` with every leading repetition of `p` removed.
pub open spec fn strip_prefixes(s: Seq<char>, p: Seq<char>) -> Seq<char>
    decreases s.len(),
{
    if p.len() > 0 && starts_with(s, p) {
        strip_prefixes(s.subrange(p.len() as int, s.len() as int), p)
    } else {
        s
    }
}

/// `s` with every trailing `^` removed.
pub open spec fn strip_carets(s: Seq<char>) -> Seq<char>
    decreases s.len(),
{
    if s.len() > 0 && s.last() == '^' {
        strip_carets(s.drop_last())
    } else {
        s
    }
}

pub open spec fn allow_marker() -> Seq<char> {
    seq!['@', '@', '|', '|']
}

pub open spec fn block_marker() -> Seq<char> {
    seq!['|', '|']
}

/// The domain of a filter line `@@||name^` (allow) or `||name^` (block), as
/// `want_accept` asks; `None` for any other line.
pub open spec fn filter_line(l: Seq<char>, want_accept: bool) -> Option<Seq<char>> {
    let p = if want_accept {
        allow_marker()
    } else {
        block_marker()
    };
    if starts_with(l, p) && l.len() > 0 && l.last() == '^' {
        Some(strip_carets(strip_prefixes(l, p)))
    } else {
        None
    }
}

pub open spec fn filter_lines(ls: Seq<Seq<char>>, want_accept: bool) -> Seq<RuleView>
    decreases ls.len(),
{
    if ls.len() == 0 {
        Seq::empty()
    } else {
        let v = filter_lines(ls.drop_last(), want_accept);
        match filter_line(ls.last(), want_accept) {
            Some(d) => v.push((RuleType::Domain, d)),
            None => v,
        }
    }
}

/// A structured rule file has a line without the `:` separator.
#[derive(PartialEq, Eq, Structural, Clone, Copy, Debug)]
pub enum ParseError {
    MissingSeparator,
}

proof fn lemma_first_index(s: Seq<char>, c: char, i: int)
    requires
        0 <= i <= s.len(),
        forall|j: int| 0 <= j < i ==> s[j] != c,
        i < s.len() ==> s[i] == c,
    ensures
        first_index(s, c) == if i < s.len() {
            i
        } else {
            -1
        },
    decreases i,
{
    if i > 0 {
        lemma_first_index(s.drop_first(), c, i - 1);
    }
}

proof fn lemma_structured_none(ls: Seq<Seq<char>>, k: int)
    requires
        0 <= k <= ls.len(),
        structured_lines(ls.subrange(0, k)) is None,
    ensures
        structured_lines(ls) is None,
    decreases ls.len() - k,
{
    if k < ls.len() {
        assert(ls.subrange(0, k + 1).drop_last() =~= ls.subrange(0, k));
        lemma_structured_none(ls, k + 1);
    } else {
        assert(ls.subrange(0, k) =~= ls);
    }
}

/// `v[a..b]` is `w`.
fn range_is(v: &Vec<char>, a: usize, b: usize, w: &Vec<char>) -> (r: bool)
    requires
        a <= b <= v.len(),
    ensures
        r == (v@.subrange(a as int, b as int) == w@),
{
    if b - a != w.len() {
        return false;
    }
    let mut i: usize = 0;
    while i < w.len()
        invariant
            a <= b <= v.len(),
            b - a == w.len(),
            i <= w.len(),
            forall|j: int| 0 <= j < i ==> v@[a + j] == w@[j],
        decreases w.len() - i,
    {
        if v[a + i] != w[i] {
            assert(v@.subrange(a as int, b as int)[i as int] != w@[i as int]);
            return false;
        }
        i += 1;
    }
    assert(v@.subrange(a as int, b as int) =~= w@);
    true
}

/// The meaning of the line `v[a..b]` of a structured rule file.
fn structured_line_at(v: &Vec<char>, a: usize, b: usize) -> (r: Option<Option<Rule>>)
    requires
        a <= b <= v.len(),
    ensures
        match r {
            None => structured_line(v@.subrange(a as int, b as int)) is None,
            Some(None) => structured_line(v@.subrange(a as int, b as int)) == Some(
                None::<RuleView>,
            ),
            Some(Some(rule)) => structured_line(v@.subrange(a as int, b as int)) == Some(
                Some(rule@),
            ),
        },
{
    let (ta, tb) = trim_range(v, a, b);
    let ghost t = v@.subrange(ta as int, tb as int);
    let mut i = ta;
    while i < tb && v[i] != ':'
        invariant
            ta <= i <= tb <= v.len(),
            forall|j: int| ta <= j < i ==> v@[j] != ':',
        decreases tb - i,
    {
        i += 1;
    }
    proof {
        lemma_first_index(t, ':', i - ta);
    }
    if i == tb {
        return None;
    }
    let k = i - ta;
    assert(t.subrange(0, k as int) =~= v@.subrange(ta as int, i as int));
    assert(t.subrange(k + 1, t.len() as int) =~= v@.subrange(i + 1, tb as int));
    let (ka, kb) = trim_range(v, ta, i);
    let (ca, cb) = trim_range(v, i + 1, tb);
    let domain = vec!['d', 'o', 'm', 'a', 'i', 'n'];
    let full = vec!['f', 'u', 'l', 'l'];
    assert(domain@ == domain_word());
    assert(full@ == full_word());
    if range_is(v, ka, kb, &domain) {
        Some(Some(Rule::new(RuleType::Domain, string_of(v, ca, cb))))
    } else if range_is(v, ka, kb, &full) {
        Some(Some(Rule::new(RuleType::Full, string_of(v, ca, cb))))
    } else {
        Some(None)
    }
}

/// Reads a structured rule file: one `kind: content` rule per line; lines
/// whose kind word is neither `domain` nor `full` give no rule; a line
/// without `:` makes the whole file fail.
pub fn parse_structured(text: &str) -> (r: Result<Vec<Rule>, ParseError>)
    ensures
        match r {
            Ok(v) => structured_lines(lines_of(text@)) == Some(rules_view(v@)),
            Err(_) => structured_lines(lines_of(text@)) is None,
        },
{
    let v = chars_of(text);
    let ranges = line_ranges(&v);
    let ghost ls = ranges_view(v@, ranges@);
    let mut out: Vec<Rule> = Vec::new();
    let mut k: usize = 0;
    assert(ls.subrange(0, 0) =~= Seq::<Seq<char>>::empty());
    assert(rules_view(out@) =~= Seq::<RuleView>::empty());
    while k < ranges.len()
        invariant
            ls == ranges_view(v@, ranges@),
            ranges_ok(v.len() as nat, ranges@),
            k <= ranges.len(),
            structured_lines(ls.subrange(0, k as int)) == Some(rules_view(out@)),
            ls == lines_of(text@),
        decreases ranges.len() - k,
    {
        let (a, b) = ranges[k];
        assert(ranges@[k as int].0 <= ranges@[k as int].1 <= v.len());
        assert(ls.subrange(0, k + 1).drop_last() =~= ls.subrange(0, k as int));
        assert(ls.subrange(0, k + 1).last() == v@.subrange(a as int, b as int));
        let ghost before = rules_view(out@);
        match structured_line_at(&v, a, b) {
            None => {
                proof {
                    lemma_structured_none(ls, k + 1);
                    assert(ls == lines_of(text@));
                }
                return Err(ParseError::MissingSeparator);
            },
            Some(None) => {},
            Some(Some(rule)) => {
                out.push(rule);
                assert(rules_view(out@) =~= before.push(out@.last()@));
            },
        }
        k += 1;
    }
    assert(ls.subrange(0, ranges.len() as int) =~= ls);
    Ok(out)
}

/// Reads a plain domain list: each line, trimmed, that is not empty becomes
/// a `Domain` rule.
pub fn parse_plain(text: &str) -> (r: Vec<Rule>)
    ensures
        rules_view(r@) == plain_lines(lines_of(text@)),
{
    let v = chars_of(text);
    let ranges = line_ranges(&v);
    let ghost ls = ranges_view(v@, ranges@);
    let mut out: Vec<Rule> = Vec::new();
    let mut k: usize = 0;
    assert(ls.subrange(0, 0) =~= Seq::<Seq<char>>::empty());
    assert(rules_view(out@) =~= Seq::<RuleView>::empty());
    while k < ranges.len()
        invariant
            ls == ranges_view(v@, ranges@),
            ranges_ok(v.len() as nat, ranges@),
            k <= ranges.len(),
            plain_lines(ls.subrange(0, k as int)) == rules_view(out@),
        decreases ranges.len() - k,
    {
        let (a, b) = ranges[k];
        assert(ranges@[k as int].0 <= ranges@[k as int].1 <= v.len());
        assert(ls.subrange(0, k + 1).drop_last() =~= ls.subrange(0, k as int));
        assert(ls.subrange(0, k + 1).last() == v@.subrange(a as int, b as int));
        let ghost before = rules_view(out@);
        let (ta, tb) = trim_range(&v, a, b);
        if ta < tb {
            out.push(Rule::new(RuleType::Domain, string_of(&v, ta, tb)));
            assert(rules_view(out@) =~= before.push(out@.last()@));
        }
        k += 1;
    }
    assert(ls.subrange(0, ranges.len() as int) =~= ls);
    out
}

/// The domain of the filter line `v[a..b]`, as bounds, if it is one.
fn filter_line_at(v: &Vec<char>, a: usize, b: usize, want_accept: bool) -> (r: Option<
    (usize, usize),
>)
    requires
        a <= b <= v.len(),
    ensures
        match r {
            None => filter_line(v@.subrange(a as int, b as int), want_accept) is None,
            Some(ab) => ab.0 <= ab.1 <= v.len() && filter_line(
                v@.subrange(a as int, b as int),
                want_accept,
            ) == Some(v@.subrange(ab.0 as int, ab.1 as int)),
        },
{
    let p = if want_accept {
        vec!['@', '@', '|', '|']
    } else {
        vec!['|', '|']
    };
    let ghost l = v@.subrange(a as int, b as int);
    let ghost ps = p@;
    assert(ps == if want_accept {
        allow_marker()
    } else {
        block_marker()
    });
    let n = p.len();
    if b - a < n || !range_is(v, a, a + n, &p) || b == a || v[b - 1] != '^' {
        proof {
            if starts_with(l, ps) {
                assert(l.subrange(0, ps.len() as int) =~= v@.subrange(a as int, a + n));
            }
        }
        return None;
    }
    assert(l.subrange(0, ps.len() as int) =~= v@.subrange(a as int, a + n));
    let mut i = a;
    while n <= b - i && range_is(v, i, i + n, &p)
        invariant
            a <= i <= b <= v.len(),
            n == p.len() > 0,
            ps == p@,
            strip_prefixes(l, ps) == strip_prefixes(v@.subrange(i as int, b as int), ps),
        decreases b - i,
    {
        let ghost s = v@.subrange(i as int, b as int);
        assert(s.subrange(0, n as int) =~= v@.subrange(i as int, i + n));
        assert(s.subrange(n as int, s.len() as int) =~= v@.subrange(i + n, b as int));
        i += n;
    }
    proof {
        let s = v@.subrange(i as int, b as int);
        if starts_with(s, ps) {
            assert(s.subrange(0, n as int) =~= v@.subrange(i as int, i + n));
        }
    }
    let mut j = b;
    while j > i && v[j - 1] == '^'
        invariant
            a <= i <= j <= b <= v.len(),
            strip_carets(strip_prefixes(l, ps)) == strip_carets(v@.subrange(i as int, j as int)),
        decreases j,
    {
        assert(v@.subrange(i as int, j as int).drop_last() =~= v@.subrange(i as int, j - 1));
        j -= 1;
    }
    Some((i, j))
}

/// Reads an AdGuard-style filter list: lines `@@||name^` give allow rules,
/// lines `||name^` block rules, each a `Domain` rule for `name`; which of
/// the two is read, `want_accept` says; other lines give nothing.
pub fn parse_filter_list(text: &str, want_accept: bool) -> (r: Vec<Rule>)
    ensures
        rules_view(r@) == filter_lines(lines_of(text@), want_accept),
{
    let v = chars_of(text);
    let ranges = line_ranges(&v);
    let ghost ls = ranges_view(v@, ranges@);
    let mut out: Vec<Rule> = Vec::new();
    let mut k: usize = 0;
    assert(ls.subrange(0, 0) =~= Seq::<Seq<char>>::empty());
    assert(rules_view(out@) =~= Seq::<RuleView>::empty());
    while k < ranges.len()
        invariant
            ls == ranges_view(v@, ranges@),
            ranges_ok(v.len() as nat, ranges@),
            k <= ranges.len(),
            filter_lines(ls.subrange(0, k as int), want_accept) == rules_view(out@),
        decreases ranges.len() - k,
    {
        let (a, b) = ranges[k];
        assert(ranges@[k as int].0 <= ranges@[k as int].1 <= v.len());
        assert(ls.subrange(0, k + 1).drop_last() =~= ls.subrange(0, k as int));
        assert(ls.subrange(0, k + 1).last() == v@.subrange(a as int, b as int));
        let ghost before = rules_view(out@);
        match filter_line_at(&v, a, b, want_accept) {
            Some((da, db)) => {
                out.push(Rule::new(RuleType::Domain, string_of(&v, da, db)));
                assert(rules_view(out@) =~= before.push(out@.last()@));
            },
            None => {},
        }
        k += 1;
    }
    assert(ls.subrange(0, ranges.len() as int) =~= ls);
    out
}

} // verus!
