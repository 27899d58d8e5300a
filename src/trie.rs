use vstd::prelude::*;

use crate::labels::dot_free;
use crate::labels::dotted;
use crate::labels::join_labels;
use crate::labels::label_views;
use crate::labels::lemma_labels_of_dotted;
use crate::labels::labels_of;
use crate::labels::proper_labels;
use crate::labels::strictly_extends;
use crate::rule::Rule;
use crate::rule::RuleType;

verus! {

/// One node of the label tree: a single DNS label and what is asserted of it.
pub struct DomainNode {
    pub label: String,
    /// positions of the child nodes in the arena
    pub children: Vec<usize>,
    /// this exact label path was asserted as a rule
    pub is_rule: bool,
    /// the assertion covers the whole subtree (a `Domain` rule) rather than
    /// the exact name alone (a `Full` rule)
    pub covers_subtree: bool,
}

/// A suffix tree of label paths, top-level label first, held in an arena.
/// Nodes cut off by pruning stay in the arena but are no longer reachable.
pub struct DomainTrie {
    nodes: Vec<DomainNode>,
    /// the label path of each arena node
    paths: Ghost<Seq<Seq<Seq<char>>>>,
    /// the reachable node of each label path in the tree
    index: Ghost<Map<Seq<Seq<char>>, nat>>,
}

/// The rules asserted in a tree after asserting one more: a subtree-covering
/// rule drops every rule strictly below it.
/// The kind of rule that a rule node stands for.
pub open spec fn kind_of(covers_subtree: bool) -> RuleType {
    if covers_subtree {
        RuleType::Domain
    } else {
        RuleType::Full
    }
}

/// `q` is `p` or lies below it.
pub open spec fn below(q: Seq<Seq<char>>, p: Seq<Seq<char>>) -> bool {
    p.len() <= q.len() && q.subrange(0, p.len() as int) == p
}

/// The root label followed by the labels of `p`.
pub open spec fn rooted(p: Seq<Seq<char>>) -> Seq<Seq<char>> {
    seq![Seq::<char>::empty()] + p
}

pub open spec fn insert_model(m: Map<Seq<Seq<char>>, bool>, p: Seq<Seq<char>>, domain: bool) -> Map<
    Seq<Seq<char>>,
    bool,
> {
    if domain {
        Map::new(|q: Seq<Seq<char>>| m.contains_key(q) && !strictly_extends(q, p), |q| m[q]).insert(
            p,
            true,
        )
    } else {
        m.insert(p, false)
    }
}

impl DomainTrie {
    pub closed spec fn node_of(&self, p: Seq<Seq<char>>) -> DomainNode {
        self.nodes@[self.index@[p] as int]
    }

    pub closed spec fn kids(&self, p: Seq<Seq<char>>) -> Seq<usize> {
        self.node_of(p).children@
    }

    /// The asserted rules: each label path that is a rule, and whether it
    /// covers its subtree.
    pub closed spec fn model(&self) -> Map<Seq<Seq<char>>, bool> {
        Map::new(
            |p: Seq<Seq<char>>| self.index@.contains_key(p) && self.node_of(p).is_rule,
            |p: Seq<Seq<char>>| self.node_of(p).covers_subtree,
        )
    }

    #[verifier::opaque]
    pub closed spec fn wf(&self) -> bool {
        let n = self.nodes.len();
        let idx = self.index@;
        &&& self.paths@.len() == n
        &&& idx.dom().finite()
        &&& idx.contains_key(Seq::empty())
        &&& idx[Seq::empty()] == 0
        &&& self.nodes[0].label@ == Seq::<char>::empty()
        &&& !self.nodes[0].is_rule
        &&& forall|p: Seq<Seq<char>>| #[trigger]
            idx.contains_key(p) ==> {
                &&& idx[p] < n
                &&& self.paths@[idx[p] as int] == p
                &&& forall|i: int| 0 <= i < p.len() ==> dot_free(#[trigger] p[i])
            }
        &&& forall|p: Seq<Seq<char>>, k: int|
            #![trigger self.kids(p)[k]]
            idx.contains_key(p) && 0 <= k < self.kids(p).len() ==> {
                let c = self.kids(p)[k];
                &&& c < n
                &&& idx.contains_key(p.push(self.nodes[c as int].label@))
                &&& idx[p.push(self.nodes[c as int].label@)] == c
            }
        &&& forall|p: Seq<Seq<char>>| #[trigger]
            idx.contains_key(p) ==> self.kids(p).no_duplicates()
        &&& forall|p: Seq<Seq<char>>| #[trigger]
            idx.contains_key(p) && p.len() > 0 ==> {
                &&& idx.contains_key(p.drop_last())
                &&& self.kids(p.drop_last()).contains(idx[p] as usize)
            }
    }

    pub fn new() -> (t: Self)
        ensures
            t.wf(),
            t.model() == Map::<Seq<Seq<char>>, bool>::empty(),
    {
        proof {
            reveal(DomainTrie::wf);
        }
        let root = DomainNode {
            label: String::new(),
            children: Vec::new(),
            is_rule: false,
            covers_subtree: false,
        };
        let mut nodes: Vec<DomainNode> = Vec::new();
        nodes.push(root);
        let ghost paths = seq![Seq::<Seq<char>>::empty()];
        let ghost index = map![Seq::<Seq<char>>::empty() => 0nat];
        let t = DomainTrie { nodes, paths: Ghost(paths), index: Ghost(index) };
        assert(t.model() =~= Map::<Seq<Seq<char>>, bool>::empty());
        t
    }

    /// The child of node `cur` that carries `label`, if there is one.
    fn find_child(&self, cur: usize, label: &String) -> (r: Option<usize>)
        requires
            cur < self.nodes.len(),
            forall|k: int|
                0 <= k < self.nodes[cur as int].children.len()
                    ==> #[trigger] self.nodes[cur as int].children[k] < self.nodes.len(),
        ensures
            match r {
                Some(c) => self.nodes[cur as int].children@.contains(c) && c < self.nodes.len()
                    && self.nodes[c as int].label@ == label@,
                None => forall|k: int|
                    0 <= k < self.nodes[cur as int].children.len() ==> self.nodes[self.nodes[cur as int].children[k] as int].label@
                        != label@,
            },
    {
        let mut k: usize = 0;
        let len = self.nodes[cur].children.len();
        while k < len
            invariant
                cur < self.nodes.len(),
                len == self.nodes[cur as int].children.len(),
                k <= len,
                forall|j: int|
                    0 <= j < len ==> #[trigger] self.nodes[cur as int].children[j]
                        < self.nodes.len(),
                forall|j: int|
                    0 <= j < k ==> self.nodes[self.nodes[cur as int].children[j] as int].label@
                        != label@,
            decreases len - k,
        {
            let c = self.nodes[cur].children[k];
            if self.nodes[c].label == *label {
                return Some(c);
            }
            k += 1;
        }
        None
    }

    proof fn lemma_index_injective(&self, p: Seq<Seq<char>>, q: Seq<Seq<char>>)
        requires
            self.wf(),
            self.index@.contains_key(p),
            self.index@.contains_key(q),
            self.index@[p] == self.index@[q],
        ensures
            p == q,
    {
        reveal(DomainTrie::wf);
    }

    /// Attaches a fresh intermediate node labelled `label` below node `cur`,
    /// the node of path `p`, which has no child of that label.
    fn add_child(&mut self, cur: usize, label: String, Ghost(p): Ghost<Seq<Seq<char>>>) -> (c:
        usize)
        requires
            old(self).wf(),
            old(self).index@.contains_key(p),
            old(self).index@[p] == cur,
            dot_free(label@),
            forall|k: int|
                0 <= k < old(self).nodes[cur as int].children.len()
                    ==> old(self).nodes[old(self).nodes[cur as int].children[k] as int].label@
                    != label@,
        ensures
            final(self).wf(),
            final(self).index@ == old(self).index@.insert(p.push(label@), c as nat),
            final(self).model() == old(self).model(),
    {
        proof {
            reveal(DomainTrie::wf);
        }
        let ghost q = p.push(label@);
        let ghost idx = self.index@;
        assert(!idx.contains_key(q)) by {
            if idx.contains_key(q) {
                let d = idx[q];
                assert(q.drop_last() =~= p);
                assert(self.kids(p).contains(d as usize));
                let k = choose|k: int| 0 <= k < self.kids(p).len() && self.kids(p)[k] == d;
                assert(self.kids(p)[k] == d);
                self.lemma_index_injective(q, p.push(self.nodes[d as int].label@));
                assert(q.last() == self.nodes[d as int].label@);
            }
        }
        let c = self.nodes.len();
        let node = DomainNode {
            label,
            children: Vec::new(),
            is_rule: false,
            covers_subtree: false,
        };
        let ghost old_self = *self;
        self.nodes.push(node);
        self.nodes[cur].children.push(c);
        self.paths = Ghost(self.paths@.push(q));
        self.index = Ghost(idx.insert(q, c as nat));
        assert forall|r: Seq<Seq<char>>| #[trigger]
            self.index@.contains_key(r) implies {
                &&& self.index@[r] < self.nodes.len()
                &&& self.paths@[self.index@[r] as int] == r
                &&& forall|i: int| 0 <= i < r.len() ==> dot_free(#[trigger] r[i])
            } by {
            if r != q {
                assert(old_self.index@.contains_key(r));
            } else {
                assert forall|i: int| 0 <= i < r.len() implies dot_free(#[trigger] r[i]) by {
                    if i < p.len() {
                        assert(r[i] == p[i]);
                    }
                }
            }
        }
        assert forall|r: Seq<Seq<char>>, k: int|
            self.index@.contains_key(r) && 0 <= k < self.kids(r).len() implies {
                let d = #[trigger] self.kids(r)[k];
                &&& d < self.nodes.len()
                &&& self.index@.contains_key(r.push(self.nodes[d as int].label@))
                &&& self.index@[r.push(self.nodes[d as int].label@)] == d
            } by {
            if r == q {
            } else if r == p {
                if k < old_self.kids(p).len() {
                    assert(self.kids(r)[k] == old_self.kids(p)[k]);
                    assert(old_self.kids(p)[k] == old_self.kids(p)[k]);
                } else {
                    assert(self.kids(r)[k] == c);
                }
            } else {
                assert(old_self.index@.contains_key(r));
                assert(idx[r] != cur) by {
                    if idx[r] == cur {
                        old_self.lemma_index_injective(r, p);
                    }
                }
                assert(self.kids(r) == old_self.kids(r));
                assert(old_self.kids(r)[k] == old_self.kids(r)[k]);
            }
        }
        assert forall|r: Seq<Seq<char>>| #[trigger]
            self.index@.contains_key(r) && r.len() > 0 implies {
                &&& self.index@.contains_key(r.drop_last())
                &&& self.kids(r.drop_last()).contains(self.index@[r] as usize)
            } by {
            if r == q {
                assert(r.drop_last() =~= p);
                assert(self.kids(p).last() == c);
            } else {
                assert(old_self.index@.contains_key(r));
                let pr = r.drop_last();
                assert(old_self.index@.contains_key(pr));
                assert(pr != q);
                let d = idx[r] as usize;
                assert(old_self.kids(pr).contains(d));
                let k = choose|k: int| 0 <= k < old_self.kids(pr).len() && old_self.kids(pr)[k] == d;
                if pr == p {
                    assert(self.kids(pr)[k] == d);
                } else {
                    assert(idx[pr] != cur) by {
                        if idx[pr] == cur {
                            old_self.lemma_index_injective(pr, p);
                        }
                    }
                    assert(self.kids(pr) == old_self.kids(pr));
                }
            }
        }
        assert(self.wf());
        assert(self.model() =~= old_self.model());
        c
    }

    /// Asserts a rule for the label path `path`, top-level label first;
    /// `domain` tells whether it covers its subtree, whose rules it then drops.
    pub fn insert(&mut self, path: &Vec<String>, domain: bool)
        requires
            old(self).wf(),
            proper_labels(label_views(path@)),
        ensures
            final(self).wf(),
            final(self).model() == insert_model(old(self).model(), label_views(path@), domain),
    {
        proof {
            reveal(DomainTrie::wf);
        }
        let ghost lv = label_views(path@);
        let mut cur: usize = 0;
        let mut k: usize = 0;
        assert(lv.subrange(0, 0) =~= Seq::<Seq<char>>::empty());
        while k < path.len()
            invariant
                self.wf(),
                k <= path.len(),
                lv == label_views(path@),
                proper_labels(lv),
                self.index@.contains_key(lv.subrange(0, k as int)),
                self.index@[lv.subrange(0, k as int)] == cur,
                self.model() == old(self).model(),
            decreases path.len() - k,
        {
            proof {
                reveal(DomainTrie::wf);
            }
            let ghost pre = lv.subrange(0, k as int);
            assert(pre.push(lv[k as int]) =~= lv.subrange(0, k + 1));
            assert(forall|j: int|
                0 <= j < self.kids(pre).len() ==> #[trigger] self.kids(pre)[j] < self.nodes.len());
            match self.find_child(cur, &path[k]) {
                Some(c) => {
                    let ghost j = choose|j: int|
                        0 <= j < self.kids(pre).len() && self.kids(pre)[j] == c;
                    assert(self.kids(pre)[j] == c);
                    cur = c;
                },
                None => {
                    assert(dot_free(lv[k as int]));
                    cur = self.add_child(cur, path[k].clone(), Ghost(pre));
                },
            }
            k += 1;
        }
        assert(lv.subrange(0, lv.len() as int) =~= lv);
        assert(cur != 0) by {
            if cur == 0 {
                self.lemma_index_injective(lv, Seq::empty());
            }
        }
        let ghost old_self = *self;
        let ghost idx = self.index@;
        if domain {
            self.nodes[cur].is_rule = true;
            self.nodes[cur].covers_subtree = true;
            self.nodes[cur].children = Vec::new();
            self.index = Ghost(
                Map::new(
                    |q: Seq<Seq<char>>| idx.contains_key(q) && !strictly_extends(q, lv),
                    |q: Seq<Seq<char>>| idx[q],
                ),
            );
            assert(self.index@.dom() =~= idx.dom().filter(
                |q: Seq<Seq<char>>| !strictly_extends(q, lv),
            ));
            assert forall|r: Seq<Seq<char>>|
                self.index@.contains_key(r) && r != lv implies #[trigger] self.node_of(r)
                == old_self.node_of(r) by {
                if idx[r] == cur {
                    old_self.lemma_index_injective(r, lv);
                }
            }
            assert forall|r: Seq<Seq<char>>, k: int|
                self.index@.contains_key(r) && 0 <= k < self.kids(r).len() implies {
                    let d = #[trigger] self.kids(r)[k];
                    &&& d < self.nodes.len()
                    &&& self.index@.contains_key(r.push(self.nodes[d as int].label@))
                    &&& self.index@[r.push(self.nodes[d as int].label@)] == d
                } by {
                assert(r != lv);
                assert(self.node_of(r) == old_self.node_of(r));
                assert(old_self.kids(r)[k] == self.kids(r)[k]);
                let d = self.kids(r)[k];
                let e = r.push(self.nodes[d as int].label@);
                if strictly_extends(e, lv) {
                    assert(e.subrange(0, lv.len() as int) =~= r.subrange(0, lv.len() as int));
                    if r.len() == lv.len() {
                        assert(r =~= lv);
                    }
                }
            }
            assert forall|r: Seq<Seq<char>>| #[trigger]
                self.index@.contains_key(r) && r.len() > 0 implies {
                    &&& self.index@.contains_key(r.drop_last())
                    &&& self.kids(r.drop_last()).contains(self.index@[r] as usize)
                } by {
                let pr = r.drop_last();
                assert(idx.contains_key(pr));
                if strictly_extends(pr, lv) {
                    assert(r.subrange(0, lv.len() as int) =~= pr.subrange(0, lv.len() as int));
                }
                if pr == lv {
                    assert(r.subrange(0, lv.len() as int) =~= lv);
                }
                assert(self.node_of(pr) == old_self.node_of(pr));
            }
            assert(self.wf());
            assert(self.model() =~= insert_model(old_self.model(), lv, domain));
        } else {
            self.nodes[cur].is_rule = true;
            self.nodes[cur].covers_subtree = false;
            assert forall|r: Seq<Seq<char>>|
                self.index@.contains_key(r) && r != lv implies #[trigger] self.node_of(r)
                == old_self.node_of(r) by {
                if idx[r] == cur {
                    old_self.lemma_index_injective(r, lv);
                }
            }
            assert forall|r: Seq<Seq<char>>, k: int|
                self.index@.contains_key(r) && 0 <= k < self.kids(r).len() implies {
                    let d = #[trigger] self.kids(r)[k];
                    &&& d < self.nodes.len()
                    &&& self.index@.contains_key(r.push(self.nodes[d as int].label@))
                    &&& self.index@[r.push(self.nodes[d as int].label@)] == d
                } by {
                assert(self.kids(r) == old_self.kids(r));
                assert(old_self.kids(r)[k] == self.kids(r)[k]);
            }
            assert forall|r: Seq<Seq<char>>| #[trigger]
                self.index@.contains_key(r) && r.len() > 0 implies {
                    &&& self.index@.contains_key(r.drop_last())
                    &&& self.kids(r.drop_last()).contains(self.index@[r] as usize)
                } by {
                assert(self.kids(r.drop_last()) == old_self.kids(r.drop_last()));
            }
            assert(self.wf());
            assert(self.model() =~= insert_model(old_self.model(), lv, domain));
        }
    }

    proof fn lemma_basics(&self)
        requires
            self.wf(),
        ensures
            self.paths@.len() == self.nodes.len(),
            self.index@.dom().finite(),
            self.index@.contains_key(Seq::empty()),
            self.index@[Seq::empty()] == 0,
            self.paths@[0] == Seq::<Seq<char>>::empty(),
            !self.nodes[0].is_rule,
            self.nodes[0].label@ == Seq::<char>::empty(),
            forall|p: Seq<Seq<char>>| #[trigger]
                self.index@.contains_key(p) ==> {
                    &&& self.index@[p] < self.nodes.len()
                    &&& self.paths@[self.index@[p] as int] == p
                    &&& forall|i: int| 0 <= i < p.len() ==> dot_free(#[trigger] p[i])
                },
    {
        reveal(DomainTrie::wf);
    }

    /// The children of the node of `p` are nodes of the tree one label
    /// below it, each listed once.
    proof fn lemma_kids(&self, p: Seq<Seq<char>>)
        requires
            self.wf(),
            self.index@.contains_key(p),
        ensures
            self.kids(p).no_duplicates(),
            forall|k: int|
                0 <= k < self.kids(p).len() ==> {
                    let c = #[trigger] self.kids(p)[k];
                    &&& c < self.nodes.len()
                    &&& self.index@.contains_key(self.paths@[c as int])
                    &&& self.index@[self.paths@[c as int]] == c
                    &&& self.paths@[c as int] == p.push(self.nodes[c as int].label@)
                },
    {
        reveal(DomainTrie::wf);
        assert forall|k: int| 0 <= k < self.kids(p).len() implies {
            let c = #[trigger] self.kids(p)[k];
            &&& c < self.nodes.len()
            &&& self.index@.contains_key(self.paths@[c as int])
            &&& self.index@[self.paths@[c as int]] == c
            &&& self.paths@[c as int] == p.push(self.nodes[c as int].label@)
        } by {
            let c = self.kids(p)[k];
            assert(self.index@.contains_key(p.push(self.nodes[c as int].label@)));
        }
    }

    proof fn lemma_prefix_closed(&self, q: Seq<Seq<char>>, m: int)
        requires
            self.wf(),
            self.index@.contains_key(q),
            0 <= m <= q.len(),
        ensures
            self.index@.contains_key(q.subrange(0, m)),
        decreases q.len() - m,
    {
        reveal(DomainTrie::wf);
        if m < q.len() {
            self.lemma_prefix_closed(q, m + 1);
            let r = q.subrange(0, m + 1);
            assert(r.drop_last() =~= q.subrange(0, m));
        } else {
            assert(q.subrange(0, m) =~= q);
        }
    }

    proof fn lemma_label_last(&self, p: Seq<Seq<char>>)
        requires
            self.wf(),
            self.index@.contains_key(p),
            p.len() > 0,
        ensures
            self.nodes[self.index@[p] as int].label@ == p.last(),
    {
        reveal(DomainTrie::wf);
        let pr = p.drop_last();
        let c = self.index@[p] as usize;
        assert(self.kids(pr).contains(c));
        let k = choose|k: int| 0 <= k < self.kids(pr).len() && self.kids(pr)[k] == c;
        assert(self.kids(pr)[k] == c);
        self.lemma_index_injective(p, pr.push(self.nodes[c as int].label@));
    }

    /// Whatever lies strictly below a node lies at or below one of its children.
    proof fn lemma_child_below(&self, p: Seq<Seq<char>>, q: Seq<Seq<char>>) -> (k: int)
        requires
            self.wf(),
            self.index@.contains_key(p),
            self.index@.contains_key(q),
            strictly_extends(q, p),
        ensures
            0 <= k < self.kids(p).len(),
            below(q, self.paths@[self.kids(p)[k] as int]),
    {
        reveal(DomainTrie::wf);
        let q1 = q.subrange(0, p.len() as int + 1);
        self.lemma_prefix_closed(q, p.len() as int + 1);
        assert(q1.drop_last() =~= p);
        let c = self.index@[q1] as usize;
        assert(self.kids(p).contains(c));
        let k = choose|k: int| 0 <= k < self.kids(p).len() && self.kids(p)[k] == c;
        assert(self.kids(p)[k] == c);
        self.lemma_index_injective(q1, p.push(self.nodes[c as int].label@));
        assert(q.subrange(0, q1.len() as int) =~= q1);
        k
    }

    spec fn entry_ok(&self, st: Seq<(usize, usize)>, e: int, bufv: Seq<Seq<char>>) -> bool {
        let n = st[e].0;
        let d = st[e].1;
        &&& n < self.nodes.len()
        &&& self.index@.contains_key(self.paths@[n as int])
        &&& self.index@[self.paths@[n as int]] == n
        &&& d == self.paths@[n as int].len()
        &&& d <= bufv.len()
        &&& bufv.subrange(0, d as int) == rooted(self.paths@[n as int]).subrange(0, d as int)
    }

    /// The work stack of the walk: each entry a node of the tree with its
    /// depth, depths never falling towards the top, the path buffer holding
    /// the ancestors of each entry, and no entry at or below another.
    spec fn stack_ok(&self, st: Seq<(usize, usize)>, bufv: Seq<Seq<char>>) -> bool {
        &&& forall|e: int| 0 <= e < st.len() ==> #[trigger] self.entry_ok(st, e, bufv)
        &&& forall|e1: int, e2: int|
            0 <= e1 <= e2 < st.len() ==> #[trigger] st[e1].1 <= #[trigger] st[e2].1
        &&& forall|e1: int, e2: int|
            0 <= e1 < st.len() && 0 <= e2 < st.len() && e1 != e2 ==> !below(
                self.paths@[#[trigger] st[e1].0 as int],
                self.paths@[#[trigger] st[e2].0 as int],
            )
    }

    /// `q` is still to be visited: it lies at or below some stack entry.
    spec fn pending(&self, st: Seq<(usize, usize)>, q: Seq<Seq<char>>) -> bool {
        exists|e: int| 0 <= e < st.len() && #[trigger] below(q, self.paths@[st[e].0 as int])
    }

    /// One step of the walk: the top entry popped, the buffer reset to its
    /// path, and its children pushed one level deeper.
    spec fn step_pre(
        &self,
        st: Seq<(usize, usize)>,
        bufv: Seq<Seq<char>>,
        ns: Seq<(usize, usize)>,
        nbufv: Seq<Seq<char>>,
    ) -> bool {
        &&& st.len() > 0
        &&& st.last().1 < usize::MAX
        &&& self.stack_ok(st, bufv)
        &&& nbufv == rooted(self.paths@[st.last().0 as int])
        &&& ns == st.drop_last() + Seq::new(
            self.nodes[st.last().0 as int].children.len() as nat,
            |j: int| (self.nodes[st.last().0 as int].children[j], (st.last().1 + 1) as usize),
        )
    }

    proof fn lemma_step_entries(
        &self,
        st: Seq<(usize, usize)>,
        bufv: Seq<Seq<char>>,
        ns: Seq<(usize, usize)>,
        nbufv: Seq<Seq<char>>,
    )
        requires
            self.wf(),
            self.step_pre(st, bufv, ns, nbufv),
        ensures
            forall|e: int| 0 <= e < ns.len() ==> #[trigger] self.entry_ok(ns, e, nbufv),
            forall|e1: int, e2: int|
                0 <= e1 <= e2 < ns.len() ==> #[trigger] ns[e1].1 <= #[trigger] ns[e2].1,
    {
        let idx = self.index@;
        let paths = self.paths@;
        let top = st.len() - 1;
        assert(self.entry_ok(st, top, bufv));
        let s = st.last().0;
        let d = st.last().1;
        let ps = paths[s as int];
        let kids = self.nodes[s as int].children@;
        assert(kids == self.kids(ps));
        let nb = st.len() - 1;
        self.lemma_kids(ps);
        assert forall|e: int| 0 <= e < ns.len() implies #[trigger] self.entry_ok(ns, e, nbufv) by {
            if e < nb {
                assert(ns[e] == st[e]);
                assert(self.entry_ok(st, e, bufv));
                assert(st[e].1 <= st[top].1);
                assert(nbufv.subrange(0, d as int) == bufv.subrange(0, d as int));
                assert(nbufv.subrange(0, ns[e].1 as int) =~= nbufv.subrange(0, d as int).subrange(
                    0,
                    ns[e].1 as int,
                ));
                assert(bufv.subrange(0, ns[e].1 as int) =~= bufv.subrange(0, d as int).subrange(
                    0,
                    ns[e].1 as int,
                ));
            } else {
                let c = kids[e - nb];
                assert(ns[e] == (c, (d + 1) as usize));
                assert(rooted(paths[c as int]).subrange(0, d + 1) =~= rooted(ps));
                assert(nbufv.subrange(0, d + 1) =~= rooted(ps));
            }
        }
        assert forall|e1: int, e2: int|
            0 <= e1 <= e2 < ns.len() implies #[trigger] ns[e1].1 <= #[trigger] ns[e2].1 by {
            if e1 < nb {
                assert(ns[e1] == st[e1]);
                assert(st[e1].1 <= st[top].1);
            }
            if e2 < nb {
                assert(ns[e2] == st[e2]);
            }
        }
    }

    proof fn lemma_step_apart(
        &self,
        st: Seq<(usize, usize)>,
        bufv: Seq<Seq<char>>,
        ns: Seq<(usize, usize)>,
        nbufv: Seq<Seq<char>>,
    )
        requires
            self.wf(),
            self.step_pre(st, bufv, ns, nbufv),
        ensures
            forall|e1: int, e2: int|
                0 <= e1 < ns.len() && 0 <= e2 < ns.len() && e1 != e2 ==> !below(
                    self.paths@[#[trigger] ns[e1].0 as int],
                    self.paths@[#[trigger] ns[e2].0 as int],
                ),
    {
        let idx = self.index@;
        let paths = self.paths@;
        let top = st.len() - 1;
        assert(self.entry_ok(st, top, bufv));
        let s = st.last().0;
        let d = st.last().1;
        let ps = paths[s as int];
        let kids = self.nodes[s as int].children@;
        assert(kids == self.kids(ps));
        let nb = st.len() - 1;
        self.lemma_kids(ps);
        assert forall|e1: int, e2: int|
            0 <= e1 < ns.len() && 0 <= e2 < ns.len() && e1 != e2 implies !below(
                paths[#[trigger] ns[e1].0 as int],
                paths[#[trigger] ns[e2].0 as int],
            ) by {
            let p1 = paths[ns[e1].0 as int];
            let p2 = paths[ns[e2].0 as int];
            if e1 < nb && e2 < nb {
                assert(ns[e1] == st[e1]);
                assert(ns[e2] == st[e2]);
            } else if e1 >= nb && e2 >= nb {
                let c1 = kids[e1 - nb];
                let c2 = kids[e2 - nb];
                assert(c1 != c2);
                if below(p1, p2) {
                    assert(p1 =~= p2);
                }
            } else if e1 < nb {
                assert(ns[e1] == st[e1]);
                assert(self.entry_ok(st, e1, bufv));
                assert(!below(ps, p1));
                assert(!below(p1, ps));
                if below(p1, p2) {
                    assert(p1.subrange(0, ps.len() as int) =~= p2.subrange(
                        0,
                        ps.len() as int,
                    ).subrange(0, ps.len() as int));
                    assert(p2.subrange(0, ps.len() as int) =~= ps);
                }
            } else {
                assert(ns[e2] == st[e2]);
                assert(self.entry_ok(st, e2, bufv));
                assert(!below(ps, p2));
                assert(!below(p2, ps));
                if below(p1, p2) {
                    if p2.len() == p1.len() {
                        assert(p1 =~= p2);
                        assert(p2.subrange(0, ps.len() as int) =~= ps);
                    } else {
                        assert(ps.subrange(0, p2.len() as int) =~= p1.subrange(
                            0,
                            p2.len() as int,
                        ));
                    }
                }
            }
        }
    }

    proof fn lemma_step_pending(
        &self,
        st: Seq<(usize, usize)>,
        bufv: Seq<Seq<char>>,
        ns: Seq<(usize, usize)>,
        nbufv: Seq<Seq<char>>,
    )
        requires
            self.wf(),
            self.step_pre(st, bufv, ns, nbufv),
        ensures
            forall|q: Seq<Seq<char>>|
                #[trigger] self.index@.contains_key(q) ==> (self.pending(ns, q) <==> (self.pending(
                    st,
                    q,
                ) && q != self.paths@[st.last().0 as int])),
    {
        let idx = self.index@;
        let paths = self.paths@;
        let top = st.len() - 1;
        assert(self.entry_ok(st, top, bufv));
        let s = st.last().0;
        let d = st.last().1;
        let ps = paths[s as int];
        let kids = self.nodes[s as int].children@;
        assert(kids == self.kids(ps));
        let nb = st.len() - 1;
        self.lemma_kids(ps);
        assert forall|q: Seq<Seq<char>>| #[trigger]
            idx.contains_key(q) implies (self.pending(ns, q) <==> (self.pending(st, q) && q
                != ps)) by {
            if self.pending(st, q) && q != ps {
                let e = choose|e: int|
                    0 <= e < st.len() && #[trigger] below(q, paths[st[e].0 as int]);
                if e < nb {
                    assert(ns[e] == st[e]);
                    assert(below(q, paths[ns[e].0 as int]));
                } else {
                    assert(strictly_extends(q, ps)) by {
                        if q.len() == ps.len() {
                            assert(q =~= ps);
                        }
                    }
                    let j = self.lemma_child_below(ps, q);
                    assert(self.kids(ps)[j] == kids[j]);
                    assert(ns[nb + j].0 == kids[j]);
                    assert(below(q, paths[ns[nb + j].0 as int]));
                }
            }
            if self.pending(ns, q) {
                let e = choose|e: int|
                    0 <= e < ns.len() && #[trigger] below(q, paths[ns[e].0 as int]);
                if e < nb {
                    assert(ns[e] == st[e]);
                    assert(below(q, paths[st[e].0 as int]));
                    if q == ps {
                        assert(self.entry_ok(st, e, bufv));
                        assert(below(paths[st[top].0 as int], paths[st[e].0 as int]));
                    }
                } else {
                    let c = kids[e - nb];
                    let pc = paths[c as int];
                    assert(q.subrange(0, ps.len() as int) =~= pc.subrange(0, ps.len() as int));
                    assert(pc.subrange(0, ps.len() as int) =~= ps);
                    assert(below(q, paths[st[top].0 as int]));
                }
            }
        }
    }

    proof fn lemma_step(
        &self,
        st: Seq<(usize, usize)>,
        bufv: Seq<Seq<char>>,
        ns: Seq<(usize, usize)>,
        nbufv: Seq<Seq<char>>,
    )
        requires
            self.wf(),
            self.step_pre(st, bufv, ns, nbufv),
        ensures
            self.stack_ok(ns, nbufv),
            forall|q: Seq<Seq<char>>|
                #[trigger] self.index@.contains_key(q) ==> (self.pending(ns, q) <==> (self.pending(
                    st,
                    q,
                ) && q != self.paths@[st.last().0 as int])),
    {
        self.lemma_step_entries(st, bufv, ns, nbufv);
        self.lemma_step_apart(st, bufv, ns, nbufv);
        self.lemma_step_pending(st, bufv, ns, nbufv);
    }

    /// Pushes each child of node `s` onto the work stack at depth `depth`.
    fn push_children(&self, s: usize, depth: usize, stack: &mut Vec<(usize, usize)>)
        requires
            s < self.nodes.len(),
        ensures
            final(stack)@ == old(stack)@ + Seq::new(
                self.nodes[s as int].children.len() as nat,
                |j: int| (self.nodes[s as int].children[j], depth),
            ),
    {
        let kids = &self.nodes[s].children;
        let mut k: usize = 0;
        while k < kids.len()
            invariant
                k <= kids.len(),
                kids == self.nodes[s as int].children,
                stack@ == old(stack)@ + Seq::new(k as nat, |j: int| (kids[j], depth)),
            decreases kids.len() - k,
        {
            stack.push((kids[k], depth));
            k += 1;
            assert(stack@ =~= old(stack)@ + Seq::new(k as nat, |j: int| (kids[j], depth)));
        }
        assert(stack@ =~= old(stack)@ + Seq::new(kids.len() as nat, |j: int| (kids[j], depth)));
    }

    /// Every rule of the tree, read back as a list of rules with dotted
    /// contents, by a depth-first walk over an explicit work stack.
    pub fn to_rules(&self) -> (out: Vec<Rule>)
        requires
            self.wf(),
        ensures
            forall|p: Seq<Seq<char>>| #[trigger]
                self.model().contains_key(p) ==> proper_labels(p),
            forall|i: int|
                #![trigger out[i]]
                0 <= i < out.len() ==> {
                    let p = labels_of(out[i].rule_content@);
                    &&& self.model().contains_key(p)
                    &&& out[i]@ == (kind_of(self.model()[p]), dotted(p))
                },
            forall|p: Seq<Seq<char>>| #[trigger]
                self.model().contains_key(p) ==> exists|i: int|
                    0 <= i < out.len() && out[i]@ == (kind_of(self.model()[p]), dotted(p)),
            forall|i: int, j: int|
                0 <= i < j < out.len() ==> out[i].rule_content@ != out[j].rule_content@,
    {
        let ghost idx = self.index@;
        let ghost paths = self.paths@;
        let ghost model = self.model();
        let mut out: Vec<Rule> = Vec::new();
        let mut stack: Vec<(usize, usize)> = Vec::new();
        stack.push((0, 0));
        let mut buf: Vec<String> = Vec::new();
        let ghost mut remaining: Set<Seq<Seq<char>>> = idx.dom();
        let ghost mut emitted: Seq<Seq<Seq<char>>> = Seq::empty();
        proof {
            self.lemma_basics();
            assert(label_views(buf@).subrange(0, 0) =~= rooted(paths[0]).subrange(0, 0));
            assert(self.entry_ok(stack@, 0, label_views(buf@)));
            assert forall|q: Seq<Seq<char>>| #[trigger]
                idx.contains_key(q) implies self.pending(stack@, q) by {
                assert(q.subrange(0, 0) =~= Seq::<Seq<char>>::empty());
                assert(paths[0] == Seq::<Seq<char>>::empty());
                assert(below(q, paths[stack@[0].0 as int]));
            }
        }
        while stack.len() > 0
            invariant
                self.wf(),
                idx == self.index@,
                paths == self.paths@,
                model == self.model(),
                remaining.finite(),
                self.stack_ok(stack@, label_views(buf@)),
                forall|q: Seq<Seq<char>>|
                    #[trigger] remaining.contains(q) <==> (idx.contains_key(q) && self.pending(
                        stack@,
                        q,
                    )),
                out.len() == emitted.len(),
                emitted.no_duplicates(),
                forall|i: int|
                    #![trigger emitted[i]]
                    0 <= i < emitted.len() ==> {
                        &&& model.contains_key(emitted[i])
                        &&& !remaining.contains(emitted[i])
                        &&& out[i]@ == (kind_of(model[emitted[i]]), dotted(emitted[i]))
                    },
                forall|q: Seq<Seq<char>>|
                    #[trigger] model.contains_key(q) && !remaining.contains(q) ==> emitted.contains(
                        q,
                    ),
            decreases remaining.len(),
        {
            let ghost st = stack@;
            let ghost bufv = label_views(buf@);
            let top = stack.pop().unwrap();
            let s = top.0;
            let d = top.1;
            let ghost ps = paths[s as int];
            proof {
                assert(st.last() == top);
                assert(stack@ =~= st.drop_last());
                assert(self.entry_ok(st, st.len() - 1, bufv));
            }
            buf.truncate(d);
            buf.push(self.nodes[s].label.clone());
            proof {
                self.lemma_basics();
                if d > 0 {
                    self.lemma_label_last(ps);
                } else {
                    assert(ps =~= Seq::<Seq<char>>::empty());
                }
                assert(buf@.len() == d + 1);
                assert forall|i: int| 0 <= i < d implies label_views(buf@)[i] == bufv[i] by {}
                assert(bufv.subrange(0, d as int) == rooted(ps).subrange(0, d as int));
                assert forall|i: int| 0 <= i < d implies bufv[i] == rooted(ps)[i] by {
                    assert(bufv.subrange(0, d as int)[i] == rooted(ps).subrange(0, d as int)[i]);
                }
                assert(self.index@[ps] == s);
                assert(label_views(buf@)[d as int] == self.nodes[s as int].label@);
                assert(rooted(ps)[d as int] == self.nodes[s as int].label@);
                assert(label_views(buf@).len() == rooted(ps).len());
                assert forall|i: int| 0 <= i < label_views(buf@).len() implies #[trigger] label_views(
                    buf@,
                )[i] == rooted(ps)[i] by {
                    if i < d {
                        assert(label_views(buf@)[i] == bufv[i]);
                        assert(bufv[i] == rooted(ps)[i]);
                    }
                }
                assert(label_views(buf@) =~= rooted(ps));
                assert(below(ps, paths[st[st.len() - 1].0 as int])) by {
                    assert(ps.subrange(0, ps.len() as int) =~= ps);
                }
                assert(below(ps, self.paths@[st[st.len() - 1].0 as int]));
                assert(self.pending(st, ps));
                assert(remaining.contains(ps));
            }
            let ghost old_emitted = emitted;
            assert(self.node_of(ps) == self.nodes[s as int]);
            if self.nodes[s].is_rule {
                assert(d > 0) by {
                    if d == 0 {
                        assert(ps =~= Seq::<Seq<char>>::empty());
                        self.lemma_index_injective(ps, Seq::empty());
                    }
                }
                let content = join_labels(&buf, 1);
                assert(label_views(buf@).subrange(1, buf.len() as int) =~= ps);
                let kind = if self.nodes[s].covers_subtree {
                    RuleType::Domain
                } else {
                    RuleType::Full
                };
                out.push(Rule::new(kind, content));
                proof {
                    assert(model.contains_key(ps));
                    emitted = emitted.push(ps);
                }
            }
            let depth = buf.len();
            self.push_children(s, depth, &mut stack);
            proof {
                assert(self.step_pre(st, bufv, stack@, label_views(buf@)));
                self.lemma_step(st, bufv, stack@, label_views(buf@));
                let old_remaining = remaining;
                remaining = remaining.remove(ps);
                assert forall|q: Seq<Seq<char>>|
                    #[trigger] model.contains_key(q) && !remaining.contains(q) implies emitted.contains(
                        q,
                    ) by {
                    if q == ps {
                        assert(emitted[emitted.len() - 1] == ps);
                    } else {
                        assert(!old_remaining.contains(q));
                        assert(old_emitted.contains(q));
                        let i = choose|i: int| 0 <= i < old_emitted.len() && old_emitted[i] == q;
                        assert(emitted[i] == q);
                    }
                }
            }
        }
        proof {
            assert forall|q: Seq<Seq<char>>| #[trigger]
                self.model().contains_key(q) implies proper_labels(q) by {
                if q.len() == 0 {
                    assert(q =~= Seq::<Seq<char>>::empty());
                }
            }
            assert forall|q: Seq<Seq<char>>| #[trigger]
                self.model().contains_key(q) implies exists|i: int|
                    0 <= i < out.len() && out[i]@ == (kind_of(self.model()[q]), dotted(q)) by {
                assert(!remaining.contains(q));
                assert(emitted.contains(q));
                let i = choose|i: int| 0 <= i < emitted.len() && emitted[i] == q;
                assert(out[i]@ == (kind_of(self.model()[emitted[i]]), dotted(emitted[i])));
            }
            assert forall|i: int|
                #![trigger out[i]]
                0 <= i < out.len() implies {
                    let p = labels_of(out[i].rule_content@);
                    &&& self.model().contains_key(p)
                    &&& out[i]@ == (kind_of(self.model()[p]), dotted(p))
                } by {
                let p = emitted[i];
                assert(self.model().contains_key(p));
                assert(out[i]@ == (kind_of(self.model()[p]), dotted(p)));
                lemma_labels_of_dotted(p);
            }
            assert forall|i: int, j: int|
                0 <= i < j < out.len() implies out[i].rule_content@ != out[j].rule_content@ by {
                assert(out[i]@ == (kind_of(self.model()[emitted[i]]), dotted(emitted[i])));
                assert(out[j]@ == (kind_of(self.model()[emitted[j]]), dotted(emitted[j])));
                lemma_labels_of_dotted(emitted[i]);
                lemma_labels_of_dotted(emitted[j]);
            }
        }
        out
    }
}

} // verus!
