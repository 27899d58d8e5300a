use vstd::prelude::*;
use vstd::string::StrSliceExecFns;
use vstd::string::StringExecFns;

verus! {

/// The label sequence of a dotted name, top-level label first:
/// `a.b.c` gives `["c", "b", "a"]`.  Every name gives at least one label.
pub open spec fn labels_of(s: Seq<char>) -> Seq<Seq<char>>
    decreases s.len(),
{
    if s.len() == 0 {
        seq![Seq::<char>::empty()]
    } else {
        let p = labels_of(s.drop_last());
        if s.last() == '.' {
            seq![Seq::<char>::empty()] + p
        } else {
            p.update(0, p[0].push(s.last()))
        }
    }
}

/// The dotted name of a label sequence given top-level label first:
/// `["c", "b", "a"]` gives `a.b.c`.
pub open spec fn dotted(p: Seq<Seq<char>>) -> Seq<char>
    decreases p.len(),
{
    if p.len() == 0 {
        Seq::empty()
    } else if p.len() == 1 {
        p[0]
    } else {
        dotted(p.drop_first()) + seq!['.'] + p[0]
    }
}

pub open spec fn dot_free(s: Seq<char>) -> bool {
    forall|i: int| 0 <= i < s.len() ==> s[i] != '.'
}

/// A label sequence that some dotted name has.
pub open spec fn proper_labels(p: Seq<Seq<char>>) -> bool {
    p.len() > 0 && forall|i: int| 0 <= i < p.len() ==> dot_free(#[trigger] p[i])
}

/// `c` names a host strictly below `d`: it is `x.d` for some `x`.
pub open spec fn is_strict_subdomain(c: Seq<char>, d: Seq<char>) -> bool {
    &&& c.len() > d.len()
    &&& c[c.len() - d.len() - 1] == '.'
    &&& c.subrange(c.len() - d.len(), c.len() as int) == d
}

/// `q` lies strictly below `p` in the label tree.
pub open spec fn strictly_extends(q: Seq<Seq<char>>, p: Seq<Seq<char>>) -> bool {
    p.len() < q.len() && q.subrange(0, p.len() as int) == p
}

pub proof fn lemma_labels_of_proper(s: Seq<char>)
    ensures
        proper_labels(labels_of(s)),
    decreases s.len(),
{
    if s.len() > 0 {
        lemma_labels_of_proper(s.drop_last());
        let p = labels_of(s.drop_last());
        if s.last() != '.' {
            assert(dot_free(p[0].push(s.last())));
        } else {
            assert forall|i: int| 0 <= i < labels_of(s).len() implies dot_free(
                #[trigger] labels_of(s)[i],
            ) by {
                if i > 0 {
                    assert(labels_of(s)[i] == p[i - 1]);
                }
            }
        }
    }
}

/// Joining the labels of a name gives the name back.
pub proof fn lemma_dotted_labels_of(s: Seq<char>)
    ensures
        dotted(labels_of(s)) == s,
    decreases s.len(),
{
    if s.len() > 0 {
        let t = s.drop_last();
        lemma_dotted_labels_of(t);
        lemma_labels_of_proper(t);
        let p = labels_of(t);
        if s.last() == '.' {
            let q = seq![Seq::<char>::empty()] + p;
            assert(q.drop_first() =~= p);
            assert(dotted(q) =~= s);
        } else {
            let q = p.update(0, p[0].push(s.last()));
            if p.len() == 1 {
                assert(dotted(q) =~= s);
            } else {
                assert(q.drop_first() =~= p.drop_first());
                assert(dotted(p) == dotted(p.drop_first()) + seq!['.'] + p[0]);
                assert(q[0] == p[0].push(s.last()));
                assert(dotted(q) == dotted(p.drop_first()) + seq!['.'] + q[0]);
                assert(s =~= t.push(s.last()));
                assert(dotted(q) =~= s);
            }
        }
    }
}

proof fn lemma_labels_of_dot_free(x: Seq<char>)
    requires
        dot_free(x),
    ensures
        labels_of(x) == seq![x],
    decreases x.len(),
{
    if x.len() > 0 {
        assert(x[x.len() - 1] != '.');
        assert(dot_free(x.drop_last()));
        lemma_labels_of_dot_free(x.drop_last());
        assert(x.drop_last().push(x.last()) =~= x);
        assert(seq![x.drop_last()].update(0, x.drop_last().push(x.last())) =~= seq![x]);
    } else {
        assert(x =~= Seq::<char>::empty());
    }
}

/// The labels of `x.d` are those of `d` followed by those of `x`.
pub proof fn lemma_labels_of_append(x: Seq<char>, d: Seq<char>)
    ensures
        labels_of(x + seq!['.'] + d) == labels_of(d) + labels_of(x),
    decreases d.len(),
{
    let s = x + seq!['.'] + d;
    if d.len() == 0 {
        assert(s.drop_last() =~= x);
        assert(seq![Seq::<char>::empty()] + labels_of(x) =~= labels_of(d) + labels_of(x));
    } else {
        lemma_labels_of_append(x, d.drop_last());
        assert(s.drop_last() =~= x + seq!['.'] + d.drop_last());
        lemma_labels_of_proper(d.drop_last());
        let l = labels_of(d.drop_last());
        if d.last() == '.' {
            assert(seq![Seq::<char>::empty()] + (l + labels_of(x)) =~= (seq![
                Seq::<char>::empty(),
            ] + l) + labels_of(x));
        } else {
            let m = l + labels_of(x);
            assert(m.update(0, m[0].push(d.last())) =~= l.update(0, l[0].push(d.last()))
                + labels_of(x));
        }
    }
}

/// Joining distinct-name label sequences: `dotted(p + q)` is `dotted(q).dotted(p)`.
pub proof fn lemma_dotted_append(p: Seq<Seq<char>>, q: Seq<Seq<char>>)
    requires
        p.len() > 0,
        q.len() > 0,
    ensures
        dotted(p + q) == dotted(q) + seq!['.'] + dotted(p),
    decreases p.len(),
{
    assert((p + q).drop_first() =~= p.drop_first() + q);
    assert((p + q)[0] == p[0]);
    if p.len() == 1 {
        assert(p.drop_first() + q =~= q);
    } else {
        lemma_dotted_append(p.drop_first(), q);
        assert(dotted(p + q) =~= dotted(q) + seq!['.'] + dotted(p));
    }
}

/// A proper label sequence is the label sequence of its dotted name.
pub proof fn lemma_labels_of_dotted(p: Seq<Seq<char>>)
    requires
        proper_labels(p),
    ensures
        labels_of(dotted(p)) == p,
    decreases p.len(),
{
    if p.len() == 1 {
        lemma_labels_of_dot_free(p[0]);
        assert(seq![p[0]] =~= p);
    } else {
        let q = p.drop_first();
        assert forall|i: int| 0 <= i < q.len() implies dot_free(#[trigger] q[i]) by {
            assert(q[i] == p[i + 1]);
        }
        lemma_labels_of_dotted(q);
        lemma_labels_of_append(dotted(q), p[0]);
        lemma_labels_of_dot_free(p[0]);
        assert(seq![p[0]] + q =~= p);
    }
}

/// Below-in-the-tree and strict-subdomain are the same relation on names.
pub proof fn lemma_strict_subdomain_iff(c: Seq<char>, d: Seq<char>)
    ensures
        is_strict_subdomain(c, d) <==> strictly_extends(labels_of(c), labels_of(d)),
{
    lemma_labels_of_proper(c);
    lemma_labels_of_proper(d);
    if is_strict_subdomain(c, d) {
        let x = c.subrange(0, c.len() - d.len() - 1);
        assert(c =~= x + seq!['.'] + d);
        lemma_labels_of_append(x, d);
        lemma_labels_of_proper(x);
        assert((labels_of(d) + labels_of(x)).subrange(0, labels_of(d).len() as int)
            =~= labels_of(d));
    }
    if strictly_extends(labels_of(c), labels_of(d)) {
        let lc = labels_of(c);
        let ld = labels_of(d);
        let q = lc.subrange(ld.len() as int, lc.len() as int);
        assert(lc =~= ld + q);
        lemma_dotted_append(ld, q);
        lemma_dotted_labels_of(c);
        lemma_dotted_labels_of(d);
        let x = dotted(q);
        assert(c == x + seq!['.'] + d);
        assert(c.subrange(c.len() - d.len(), c.len() as int) =~= d);
        assert(c[c.len() - d.len() - 1] == (x + seq!['.'] + d)[x.len() as int]);
    }
}

pub open spec fn label_views(v: Seq<String>) -> Seq<Seq<char>> {
    v.map_values(|l: String| l@)
}

/// Splits a name on `.` into its labels, top-level label first.
pub fn split_labels(s: &str) -> (r: Vec<String>)
    ensures
        label_views(r@) == labels_of(s@),
{
    let n = s.unicode_len();
    // finished labels, the one finished last first
    let mut done: Vec<String> = Vec::new();
    let mut start: usize = 0;
    let mut i: usize = 0;
    assert(s@.subrange(0, 0) =~= Seq::<char>::empty());
    assert(seq![s@.subrange(0, 0)] + label_views(done@) =~= seq![Seq::<char>::empty()]);
    while i < n
        invariant
            n == s@.len(),
            start <= i <= n,
            labels_of(s@.subrange(0, i as int)) == seq![s@.subrange(start as int, i as int)]
                + label_views(done@),
        decreases n - i,
    {
        let c = s.get_char(i);
        let ghost t = s@.subrange(0, i + 1);
        assert(t.drop_last() =~= s@.subrange(0, i as int));
        assert(t.last() == c);
        if c == '.' {
            let label = String::from_str(s.substring_char(start, i));
            let ghost old_done = done@;
            done.insert(0, label);
            assert(label_views(done@) =~= seq![label@] + label_views(old_done));
            start = i + 1;
            assert(s@.subrange(start as int, i + 1) =~= Seq::<char>::empty());
            assert(seq![s@.subrange(start as int, i + 1)] + label_views(done@) =~= seq![
                Seq::<char>::empty(),
            ] + labels_of(s@.subrange(0, i as int)));
        } else {
            let ghost p = labels_of(s@.subrange(0, i as int));
            assert(p[0].push(c) =~= s@.subrange(start as int, i + 1));
            assert(p.update(0, p[0].push(c)) =~= seq![s@.subrange(start as int, i + 1)]
                + label_views(done@));
        }
        i += 1;
    }
    let last = String::from_str(s.substring_char(start, n));
    let ghost old_done = done@;
    done.insert(0, last);
    assert(label_views(done@) =~= seq![last@] + label_views(old_done));
    assert(s@.subrange(0, n as int) =~= s@);
    done
}

/// Joins `v[from..]`, read as labels top-level first, into a dotted name.
pub fn join_labels(v: &Vec<String>, from: usize) -> (r: String)
    requires
        from < v.len(),
    ensures
        r@ == dotted(label_views(v@).subrange(from as int, v.len() as int)),
{
    let n = v.len();
    let mut r = v[n - 1].clone();
    let mut j: usize = n - 1;
    assert(label_views(v@).subrange(j as int, n as int) =~= seq![v[n - 1]@]);
    while j > from
        invariant
            n == v.len(),
            from <= j < n,
            r@ == dotted(label_views(v@).subrange(j as int, n as int)),
        decreases j,
    {
        j -= 1;
        let ghost w = label_views(v@).subrange(j as int, n as int);
        assert(w.drop_first() =~= label_views(v@).subrange(j + 1, n as int));
        r.append(".");
        r.append(v[j].as_str());
        proof {
            reveal_strlit(".");
        }
        assert(r@ =~= dotted(w));
    }
    r
}

} // verus!
