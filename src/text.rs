use vstd::prelude::*;

verus! {

/// The characters of `s`, in order.
/// Relies on `str::chars`, which yields each char of the string once, in order.
#[verifier::external_body]
pub(crate) fn chars_of(s: &str) -> (r: Vec<char>)
    ensures
        r@ == s@,
{
    s.chars().collect()
}

/// The string of `v[from..to]`.
/// Relies on `String`'s `FromIterator<&char>`, which appends each char in order.
#[verifier::external_body]
pub(crate) fn string_of(v: &Vec<char>, from: usize, to: usize) -> (r: String)
    requires
        from <= to <= v.len(),
    ensures
        r@ == v@.subrange(from as int, to as int),
{
    v[from..to].iter().collect()
}

/// Unicode's White_Space property, which `char::is_whitespace` and
/// `str::trim` go by.
pub open spec fn is_space(c: char) -> bool {
    let u = c as u32;
    (0x9 <= u <= 0xd) || u == 0x20 || u == 0x85 || u == 0xa0 || u == 0x1680 || (0x2000 <= u
        <= 0x200a) || u == 0x2028 || u == 0x2029 || u == 0x202f || u == 0x205f || u == 0x3000
}

pub fn space(c: char) -> (r: bool)
    ensures
        r == is_space(c),
{
    let u = c as u32;
    (0x9 <= u && u <= 0xd) || u == 0x20 || u == 0x85 || u == 0xa0 || u == 0x1680 || (0x2000 <= u
        && u <= 0x200a) || u == 0x2028 || u == 0x2029 || u == 0x202f || u == 0x205f || u == 0x3000
}

pub open spec fn trim_start(s: Seq<char>) -> Seq<char>
    decreases s.len(),
{
    if s.len() > 0 && is_space(s[0]) {
        trim_start(s.drop_first())
    } else {
        s
    }
}

pub open spec fn trim_end(s: Seq<char>) -> Seq<char>
    decreases s.len(),
{
    if s.len() > 0 && is_space(s.last()) {
        trim_end(s.drop_last())
    } else {
        s
    }
}

/// `s` without leading and trailing white space.
pub open spec fn trim(s: Seq<char>) -> Seq<char> {
    trim_end(trim_start(s))
}

/// The pieces of `s` between line feeds; there is always at least one.
pub open spec fn pieces(s: Seq<char>) -> Seq<Seq<char>>
    decreases s.len(),
{
    if s.len() == 0 {
        seq![Seq::empty()]
    } else {
        let p = pieces(s.drop_last());
        if s.last() == '\n' {
            p.push(Seq::empty())
        } else {
            p.update(p.len() - 1, p.last().push(s.last()))
        }
    }
}

pub open spec fn strip_cr(l: Seq<char>) -> Seq<char> {
    if l.len() > 0 && l.last() == '\r' {
        l.drop_last()
    } else {
        l
    }
}

/// The lines of a text: split at `\n` or `\r\n`, which are not part of the
/// lines, with a line ending at the very end optional.
pub open spec fn lines_of(s: Seq<char>) -> Seq<Seq<char>> {
    let p = pieces(s);
    let done = p.drop_last().map_values(|l: Seq<char>| strip_cr(l));
    if p.last().len() == 0 {
        done
    } else {
        done.push(p.last())
    }
}

pub open spec fn ranges_view(v: Seq<char>, r: Seq<(usize, usize)>) -> Seq<Seq<char>> {
    r.map_values(|ab: (usize, usize)| v.subrange(ab.0 as int, ab.1 as int))
}

pub open spec fn ranges_ok(n: nat, r: Seq<(usize, usize)>) -> bool {
    forall|i: int| 0 <= i < r.len() ==> (#[trigger] r[i]).0 <= r[i].1 <= n
}

/// The bounds of each line of `v`.
pub fn line_ranges(v: &Vec<char>) -> (r: Vec<(usize, usize)>)
    ensures
        ranges_ok(v.len() as nat, r@),
        ranges_view(v@, r@) == lines_of(v@),
{
    let n = v.len();
    let mut r: Vec<(usize, usize)> = Vec::new();
    let mut start: usize = 0;
    let mut i: usize = 0;
    assert(v@.subrange(0, 0) =~= Seq::<char>::empty());
    assert(pieces(v@.subrange(0, 0)) =~= ranges_view(v@, r@).push(v@.subrange(0, 0)));
    while i < n
        invariant
            n == v.len(),
            start <= i <= n,
            ranges_ok(n as nat, r@),
            pieces(v@.subrange(0, i as int)) == ranges_view(v@, r@).push(
                v@.subrange(start as int, i as int),
            ),
        decreases n - i,
    {
        let ghost t = v@.subrange(0, i + 1);
        assert(t.drop_last() =~= v@.subrange(0, i as int));
        let ghost before = ranges_view(v@, r@);
        let ghost old_start = start;
        if v[i] == '\n' {
            r.push((start, i));
            start = i + 1;
            assert(ranges_view(v@, r@) =~= before.push(v@.subrange(old_start as int, i as int)));
            assert(v@.subrange(start as int, i + 1) =~= Seq::<char>::empty());
            assert(pieces(t) =~= ranges_view(v@, r@).push(v@.subrange(start as int, i + 1)));
        } else {
            assert(v@.subrange(start as int, i as int).push(v[i as int]) =~= v@.subrange(
                start as int,
                i + 1,
            ));
            assert(pieces(t) =~= ranges_view(v@, r@).push(v@.subrange(start as int, i + 1)));
        }
        i += 1;
    }
    assert(v@.subrange(0, n as int) =~= v@);
    // strip a carriage return before each line feed
    let ghost raw = ranges_view(v@, r@);
    let mut out: Vec<(usize, usize)> = Vec::new();
    let mut k: usize = 0;
    while k < r.len()
        invariant
            n == v.len(),
            ranges_ok(n as nat, r@),
            ranges_ok(n as nat, out@),
            raw == ranges_view(v@, r@),
            k <= r.len(),
            ranges_view(v@, out@) == raw.subrange(0, k as int).map_values(
                |l: Seq<char>| strip_cr(l),
            ),
        decreases r.len() - k,
    {
        let (a, b) = r[k];
        let ghost before = ranges_view(v@, out@);
        assert(raw[k as int] == v@.subrange(a as int, b as int));
        if a < b && v[b - 1] == '\r' {
            out.push((a, b - 1));
            assert(v@.subrange(a as int, b - 1) =~= strip_cr(v@.subrange(a as int, b as int)));
        } else {
            out.push((a, b));
        }
        k += 1;
        assert(ranges_view(v@, out@) =~= before.push(strip_cr(raw[k - 1])));
        assert(raw.subrange(0, k as int).map_values(|l: Seq<char>| strip_cr(l)) =~= raw.subrange(
            0,
            k - 1,
        ).map_values(|l: Seq<char>| strip_cr(l)).push(strip_cr(raw[k - 1])));
    }
    assert(raw.subrange(0, r.len() as int) =~= raw);
    let ghost done = ranges_view(v@, out@);
    if start < n {
        out.push((start, n));
        assert(ranges_view(v@, out@) =~= done.push(v@.subrange(start as int, n as int)));
    }
    proof {
        let p = pieces(v@);
        assert(p.drop_last() =~= raw);
        assert(ranges_view(v@, out@) =~= lines_of(v@));
    }
    out
}

/// Bounds of `v[a..b]` without its leading and trailing white space.
pub fn trim_range(v: &Vec<char>, a: usize, b: usize) -> (r: (usize, usize))
    requires
        a <= b <= v.len(),
    ensures
        a <= r.0 <= r.1 <= b,
        v@.subrange(r.0 as int, r.1 as int) == trim(v@.subrange(a as int, b as int)),
{
    let mut i = a;
    while i < b && space(v[i])
        invariant
            a <= i <= b <= v.len(),
            trim_start(v@.subrange(a as int, b as int)) == trim_start(
                v@.subrange(i as int, b as int),
            ),
        decreases b - i,
    {
        assert(v@.subrange(i as int, b as int).drop_first() =~= v@.subrange(i + 1, b as int));
        i += 1;
    }
    assert(trim_start(v@.subrange(i as int, b as int)) == v@.subrange(i as int, b as int));
    let mut j = b;
    while j > i && space(v[j - 1])
        invariant
            a <= i <= j <= b <= v.len(),
            trim_end(v@.subrange(i as int, b as int)) == trim_end(v@.subrange(i as int, j as int)),
        decreases j,
    {
        assert(v@.subrange(i as int, j as int).drop_last() =~= v@.subrange(i as int, j - 1));
        j -= 1;
    }
    (i, j)
}

} // verus!
