//! A slash-segmented route trie.
//!
//! Unlike the compressed trie of `route_node`, this table stores one path
//! segment per node: a key is cut after every `'/'`, and each resulting
//! segment becomes one level of the tree. Children of a node never repeat a
//! segment.

use vstd::prelude::*;

verus! {

/// One node of the segment trie.
#[derive(Debug)]
pub struct RouteNode {
    pub path: String,
    pub children: Vec<RouteNode>,
}

/// The number of characters before the first `'/'` of `s` (the length of `s`
/// when it has none).
pub open spec fn first_slash(s: Seq<char>) -> nat
    decreases s.len(),
{
    if s.len() == 0 {
        0
    } else if s[0] == '/' {
        0
    } else {
        1 + first_slash(s.skip(1))
    }
}

/// `s` cut after every `'/'`: each segment but possibly the last ends with
/// `'/'`, no segment is empty, and the segments concatenate back to `s`.
pub open spec fn seg_split(s: Seq<char>) -> Seq<Seq<char>>
    decreases s.len(),
{
    if s.len() == 0 {
        Seq::empty()
    } else {
        let f = first_slash(s) as int;
        let c = if f < s.len() {
            f + 1
        } else {
            s.len() as int
        };
        seq![s.subrange(0, c)] + seg_split(s.skip(c))
    }
}

/// `first_slash` is the unique index with no `'/'` before it and a `'/'` (or
/// the end of `s`) at it.
pub proof fn lemma_first_slash_at(s: Seq<char>, f: int)
    requires
        0 <= f <= s.len(),
        forall|j: int| 0 <= j < f ==> s[j] != '/',
        f < s.len() ==> s[f] == '/',
    ensures
        first_slash(s) == f,
    decreases s.len(),
{
    if f == 0 {
    } else {
        assert(s[0] != '/');
        lemma_first_slash_at(s.skip(1), f - 1);
    }
}

/// Every segment the split yields is non-empty, and a non-empty key yields at
/// least one segment.
pub proof fn lemma_seg_split_nonempty(s: Seq<char>)
    ensures
        s.len() > 0 ==> seg_split(s).len() > 0,
        forall|t: int| 0 <= t < seg_split(s).len() ==> (#[trigger] seg_split(s)[t]).len() > 0,
    decreases s.len(),
{
    if s.len() > 0 {
        let f = first_slash(s) as int;
        let c = if f < s.len() {
            f + 1
        } else {
            s.len() as int
        };
        lemma_seg_split_nonempty(s.skip(c));
        assert forall|t: int| 0 <= t < seg_split(s).len() implies (#[trigger] seg_split(
            s,
        )[t]).len() > 0 by {
            if t == 0 {
                assert(seg_split(s)[0] == s.subrange(0, c));
            } else {
                assert(seg_split(s)[t] == seg_split(s.skip(c))[t - 1]);
            }
        }
    }
}

/// Finds the first `'/'` of `s`, or its end when it has none.
fn find_first_slash(s: &str) -> (f: usize)
    ensures
        f as nat == first_slash(s@),
        f <= s@.len(),
{
    let len = s.unicode_len();
    let mut j: usize = 0;
    while j < len && s.get_char(j) != '/'
        invariant
            len == s@.len(),
            j <= len,
            forall|t: int| 0 <= t < j ==> s@[t] != '/',
        decreases len - j,
    {
        j = j + 1;
    }
    proof {
        lemma_first_slash_at(s@, j as int);
    }
    j
}

/// Cuts a key after every `'/'`.
fn split_segments(s: &str) -> (r: Vec<String>)
    ensures
        r.deep_view() == seg_split(s@),
    decreases s@.len(),
{
    let len = s.unicode_len();
    if len == 0 {
        let r: Vec<String> = Vec::new();
        proof {
            assert(r.deep_view() =~= seg_split(s@));
        }
        r
    } else {
        let f = find_first_slash(s);
        let c = if f < len {
            f + 1
        } else {
            len
        };
        let head = s.substring_char(0, c).to_owned();
        let tail = s.substring_char(c, len);
        let mut r = split_segments(tail);
        r.insert(0, head);
        proof {
            assert(r.deep_view() =~= seg_split(s@)) by {
                assert(tail@ == s@.skip(c as int));
                assert(forall|t: int|
                    0 <= t < r@.len() ==> r.deep_view()[t] == (#[trigger] r@[t])@);
            }
        }
        r
    }
}

/// Whether some node in `cs` holds exactly the segment `s`.
pub open spec fn seq_has_seg(cs: Seq<RouteNode>, s: Seq<char>) -> bool {
    exists|i: int| 0 <= i < cs.len() && (#[trigger] cs[i]).path@ == s
}

/// The node in `cs` holding the segment `s`; under the sibling invariant
/// there is at most one.
pub open spec fn seq_seg_child(cs: Seq<RouteNode>, s: Seq<char>) -> RouteNode {
    cs[choose|i: int| 0 <= i < cs.len() && (#[trigger] cs[i]).path@ == s]
}

impl RouteNode {
    /// Well-formedness: every segment in the tree is non-empty and no two
    /// children of the same node hold the same segment.
    pub open spec fn wf(self) -> bool
        decreases self,
    {
        &&& self.path@.len() > 0
        &&& forall|i: int| 0 <= i < self.children@.len() ==> (#[trigger] self.children@[i]).wf()
        &&& forall|i: int, j: int|
            0 <= i < self.children@.len() && 0 <= j < self.children@.len() && i != j
                ==> (#[trigger] self.children@[i]).path@ != (#[trigger] self.children@[j]).path@
    }

    /// Whether the tree below this node holds every segment of `segs` in
    /// order, each one level deeper than the one before.
    pub open spec fn contains_chain(self, segs: Seq<Seq<char>>) -> bool
        decreases segs.len(),
    {
        if segs.len() == 0 {
            true
        } else if seq_has_seg(self.children@, segs[0]) {
            seq_seg_child(self.children@, segs[0]).contains_chain(segs.skip(1))
        } else {
            false
        }
    }

    /// Whether this node is the head of a single-branch chain holding exactly
    /// the segments of `segs`.
    pub open spec fn is_chain(self, segs: Seq<Seq<char>>) -> bool
        decreases segs.len(),
    {
        &&& segs.len() > 0
        &&& self.path@ == segs[0]
        &&& if segs.len() == 1 {
            self.children@.len() == 0
        } else {
            self.children@.len() == 1 && self.children@[0].is_chain(segs.skip(1))
        }
    }

    /// The node reached by descending one child per segment of `segs`, if
    /// every segment matches.
    pub open spec fn find_chain(self, segs: Seq<Seq<char>>) -> Option<RouteNode>
        decreases segs.len(),
    {
        if segs.len() == 0 {
            None
        } else if seq_has_seg(self.children@, segs[0]) {
            let child = seq_seg_child(self.children@, segs[0]);
            if segs.len() == 1 {
                Some(child)
            } else {
                child.find_chain(segs.skip(1))
            }
        } else {
            None
        }
    }

    /// How one insertion reshapes this node: the chain's leading segments
    /// are matched in order against existing children, reshaping the child
    /// that holds the segment; the first segment no child holds starts a new
    /// chain, appended as the last child.
    pub open spec fn merged(self, post: RouteNode, segs: Seq<Seq<char>>) -> bool
        decreases segs.len(),
    {
        &&& segs.len() > 0
        &&& post.path == self.path
        &&& if seq_has_seg(self.children@, segs[0]) {
            exists|j: int|
                #![trigger self.children@[j]]
                0 <= j < self.children@.len() && self.children@[j].path@ == segs[0]
                    && post.children@.len() == self.children@.len() && (forall|t: int|
                    0 <= t < self.children@.len() && t != j ==> post.children@[t]
                        == self.children@[t]) && segs.len() > 1 && self.children@[j].merged(
                    post.children@[j],
                    segs.skip(1),
                )
        } else {
            &&& post.children@.len() == self.children@.len() + 1
            &&& forall|t: int|
                0 <= t < self.children@.len() ==> post.children@[t] == self.children@[t]
            &&& post.children@[self.children@.len() as int].is_chain(segs)
        }
    }

    /// Under `wf`, the child chosen for a segment is the only one holding it.
    pub proof fn lemma_seg_child_unique(self, s: Seq<char>, j: int)
        requires
            self.wf(),
            0 <= j < self.children@.len(),
            self.children@[j].path@ == s,
        ensures
            seq_has_seg(self.children@, s),
            seq_seg_child(self.children@, s) == self.children@[j],
    {
        assert(seq_has_seg(self.children@, s));
        let i = choose|i: int| 0 <= i < self.children@.len() && (#[trigger] self.children@[i]).path@
            == s;
        assert(i == j);
    }

    /// A single-branch chain contains exactly the prefixes of its own tail.
    pub proof fn lemma_chain_contains(self, segs: Seq<Seq<char>>, q: Seq<Seq<char>>)
        requires
            self.is_chain(segs),
        ensures
            self.contains_chain(q) <==> q.is_prefix_of(segs.skip(1)),
        decreases q.len(),
    {
        if q.len() == 0 {
            assert(q.is_prefix_of(segs.skip(1)));
        } else {
            if segs.len() == 1 {
                assert(!seq_has_seg(self.children@, q[0]));
                assert(!q.is_prefix_of(segs.skip(1)));
            } else {
                let child = self.children@[0];
                assert(child.is_chain(segs.skip(1)));
                assert(child.path@ == segs.skip(1)[0]);
                if q[0] == segs.skip(1)[0] {
                    self.lemma_seg_child_unique_single(q[0]);
                    child.lemma_chain_contains(segs.skip(1), q.skip(1));
                    assert(segs.skip(1).skip(1) =~= segs.skip(2));
                    assert(q.is_prefix_of(segs.skip(1)) <==> q.skip(1).is_prefix_of(segs.skip(2)))
                        by {
                        if q.skip(1).is_prefix_of(segs.skip(2)) {
                            assert(q.len() <= segs.skip(1).len());
                            assert forall|t: int| 0 <= t < q.len() implies q[t] == segs.skip(
                                1,
                            ).subrange(0, q.len() as int)[t] by {
                                if t > 0 {
                                    assert(q[t] == q.skip(1)[t - 1]);
                                    assert(q.skip(1)[t - 1] == segs.skip(2).subrange(
                                        0,
                                        q.len() - 1,
                                    )[t - 1]);
                                    assert(segs.skip(2)[t - 1] == segs.skip(1)[t]);
                                }
                            }
                            assert(q =~= segs.skip(1).subrange(0, q.len() as int));
                        }
                        if q.is_prefix_of(segs.skip(1)) {
                            assert forall|t: int| 0 <= t < q.len() - 1 implies q.skip(1)[t]
                                == segs.skip(2).subrange(0, q.len() - 1)[t] by {
                                assert(q.skip(1)[t] == q[t + 1]);
                                assert(q[t + 1] == segs.skip(1).subrange(0, q.len() as int)[t + 1]);
                                assert(segs.skip(1)[t + 1] == segs.skip(2)[t]);
                            }
                            assert(q.skip(1) =~= segs.skip(2).subrange(0, q.len() - 1));
                        }
                    }
                } else {
                    assert(!seq_has_seg(self.children@, q[0])) by {
                        if seq_has_seg(self.children@, q[0]) {
                            let i = choose|i: int|
                                0 <= i < self.children@.len() && (#[trigger] self.children@[i]).path@
                                    == q[0];
                            assert(i == 0);
                        }
                    }
                    assert(!q.is_prefix_of(segs.skip(1))) by {
                        if q.is_prefix_of(segs.skip(1)) {
                            assert(q[0] == segs.skip(1).subrange(0, q.len() as int)[0]);
                        }
                    }
                }
            }
        }
    }

    /// In a chain the sole child is the unique holder of its segment.
    proof fn lemma_seg_child_unique_single(self, s: Seq<char>)
        requires
            self.children@.len() == 1,
            self.children@[0].path@ == s,
        ensures
            seq_has_seg(self.children@, s),
            seq_seg_child(self.children@, s) == self.children@[0],
    {
        assert(seq_has_seg(self.children@, s));
        let i = choose|i: int| 0 <= i < self.children@.len() && (#[trigger] self.children@[i]).path@
            == s;
        assert(i == 0);
    }

    /// What `find` reaches and what `add` stores agree: a non-empty segment
    /// chain leads to a node exactly when the tree contains it.
    pub proof fn lemma_find_chain_contains(self, segs: Seq<Seq<char>>)
        requires
            self.wf(),
            segs.len() > 0,
        ensures
            self.find_chain(segs) is Some <==> self.contains_chain(segs),
        decreases segs.len(),
    {
        if seq_has_seg(self.children@, segs[0]) {
            let child = seq_seg_child(self.children@, segs[0]);
            assert(child.wf()) by {
                let i = choose|i: int|
                    0 <= i < self.children@.len() && (#[trigger] self.children@[i]).path@
                        == segs[0];
                assert(self.children@[i].wf());
            }
            if segs.len() > 1 {
                child.lemma_find_chain_contains(segs.skip(1));
            } else {
                assert(segs.skip(1).len() == 0);
                assert(child.contains_chain(segs.skip(1)));
            }
        }
    }

    /// Replacing one child with a node that keeps its segment changes only
    /// the chains that descend into that child.
    pub proof fn lemma_contains_replace_child(self, other: RouteNode, j: int, q: Seq<Seq<char>>)
        requires
            self.wf(),
            other.children@.len() == self.children@.len(),
            0 <= j < self.children@.len(),
            forall|t: int|
                0 <= t < self.children@.len() && t != j ==> other.children@[t]
                    == self.children@[t],
            other.children@[j].path@ == self.children@[j].path@,
        ensures
            (if q.len() > 0 && q[0] == self.children@[j].path@ {
                other.contains_chain(q) == other.children@[j].contains_chain(q.skip(1))
                    && self.contains_chain(q) == self.children@[j].contains_chain(q.skip(1))
            } else {
                other.contains_chain(q) == self.contains_chain(q)
            }),
    {
        if q.len() == 0 {
        } else if q[0] == self.children@[j].path@ {
            self.lemma_seg_child_unique(q[0], j);
            assert(seq_has_seg(other.children@, q[0]));
            let t = choose|t: int|
                0 <= t < other.children@.len() && (#[trigger] other.children@[t]).path@ == q[0];
            assert(t == j) by {
                if t != j {
                    assert(other.children@[t] == self.children@[t]);
                }
            }
            assert(seq_seg_child(other.children@, q[0]) == other.children@[j]);
        } else {
            assert(seq_has_seg(self.children@, q[0]) == seq_has_seg(other.children@, q[0])) by {
                if seq_has_seg(self.children@, q[0]) {
                    let t = choose|t: int|
                        0 <= t < self.children@.len() && (#[trigger] self.children@[t]).path@
                            == q[0];
                    assert(other.children@[t].path@ == q[0]);
                }
                if seq_has_seg(other.children@, q[0]) {
                    let t = choose|t: int|
                        0 <= t < other.children@.len() && (#[trigger] other.children@[t]).path@
                            == q[0];
                    assert(self.children@[t].path@ == q[0]);
                }
            }
            if seq_has_seg(self.children@, q[0]) {
                let ts = choose|t: int|
                    0 <= t < self.children@.len() && (#[trigger] self.children@[t]).path@ == q[0];
                let to = choose|t: int|
                    0 <= t < other.children@.len() && (#[trigger] other.children@[t]).path@ == q[0];
                assert(ts != j && to != j);
                assert(self.children@[to].path@ == q[0]);
                assert(ts == to) by {
                    if ts != to {
                        assert(self.children@[ts].path@ != self.children@[to].path@);
                    }
                }
                assert(seq_seg_child(self.children@, q[0]) == seq_seg_child(
                    other.children@,
                    q[0],
                ));
            }
        }
    }

    /// Appending a child whose segment no sibling holds changes only the
    /// chains that descend into the new child.
    pub proof fn lemma_contains_append_child(
        self,
        other: RouteNode,
        leaf: RouteNode,
        q: Seq<Seq<char>>,
    )
        requires
            self.wf(),
            other.children@ == self.children@.push(leaf),
            forall|t: int|
                0 <= t < self.children@.len() ==> (#[trigger] self.children@[t]).path@
                    != leaf.path@,
        ensures
            (if q.len() > 0 && q[0] == leaf.path@ {
                other.contains_chain(q) == leaf.contains_chain(q.skip(1)) && !self.contains_chain(
                    q,
                )
            } else {
                other.contains_chain(q) == self.contains_chain(q)
            }),
    {
        let n = self.children@.len() as int;
        assert(other.children@[n] == leaf);
        if q.len() == 0 {
        } else if q[0] == leaf.path@ {
            assert(!seq_has_seg(self.children@, q[0]));
            assert(seq_has_seg(other.children@, q[0]));
            let t = choose|t: int|
                0 <= t < other.children@.len() && (#[trigger] other.children@[t]).path@ == q[0];
            assert(t == n) by {
                if t < n {
                    assert(self.children@[t].path@ == q[0]);
                }
            }
            assert(seq_seg_child(other.children@, q[0]) == leaf);
        } else {
            assert(seq_has_seg(self.children@, q[0]) == seq_has_seg(other.children@, q[0])) by {
                if seq_has_seg(self.children@, q[0]) {
                    let t = choose|t: int|
                        0 <= t < self.children@.len() && (#[trigger] self.children@[t]).path@
                            == q[0];
                    assert(other.children@[t].path@ == q[0]);
                }
                if seq_has_seg(other.children@, q[0]) {
                    let t = choose|t: int|
                        0 <= t < other.children@.len() && (#[trigger] other.children@[t]).path@
                            == q[0];
                    assert(t < n);
                    assert(self.children@[t].path@ == q[0]);
                }
            }
            if seq_has_seg(self.children@, q[0]) {
                let ts = choose|t: int|
                    0 <= t < self.children@.len() && (#[trigger] self.children@[t]).path@ == q[0];
                let to = choose|t: int|
                    0 <= t < other.children@.len() && (#[trigger] other.children@[t]).path@ == q[0];
                assert(to < n) by {
                    if to == n {
                        assert(other.children@[to].path@ == leaf.path@);
                    }
                }
                assert(self.children@[to].path@ == q[0]);
                assert(ts == to) by {
                    if ts != to {
                        assert(self.children@[ts].path@ != self.children@[to].path@);
                    }
                }
                assert(seq_seg_child(self.children@, q[0]) == seq_seg_child(
                    other.children@,
                    q[0],
                ));
            }
        }
    }

    /// Creates the chain of nodes for a key: one node per segment of the
    /// key, normalized to start with `'/'`.
    pub fn new(path: &str) -> (r: RouteNode)
        requires
            path@.len() > 0,
        ensures
            r.wf(),
            r.is_chain(seg_split(crate::route_node::norm(path@))),
    {
        let key = with_starting_slash(path);
        let segs = split_segments(key.as_str());
        proof {
            lemma_seg_split_nonempty(key@);
            assert(forall|t: int|
                0 <= t < segs@.len() ==> (#[trigger] segs@[t])@ == segs.deep_view()[t]);
        }
        let r = Self::new_recursive(&segs, 0);
        proof {
            assert(segs.deep_view().skip(0) =~= segs.deep_view());
        }
        r
    }

    /// Creates the chain holding `segs[i..]`, one node per segment.
    fn new_recursive(segs: &Vec<String>, i: usize) -> (r: RouteNode)
        requires
            i < segs@.len(),
            forall|t: int| 0 <= t < segs@.len() ==> (#[trigger] segs@[t])@.len() > 0,
        ensures
            r.is_chain(segs.deep_view().skip(i as int)),
            r.wf(),
        decreases segs@.len() - i,
    {
        let seg_count = segs.len();
        let path = segs[i].clone();
        let mut children: Vec<RouteNode> = Vec::new();
        if i + 1 < seg_count {
            let child = Self::new_recursive(segs, i + 1);
            children.push(child);
        }
        let r = RouteNode { path, children };
        proof {
            let tail = segs.deep_view().skip(i as int);
            assert(tail[0] == segs@[i as int]@);
            if i + 1 < segs@.len() {
                assert(tail.skip(1) =~= segs.deep_view().skip(i + 1));
            }
            assert(r.is_chain(tail));
        }
        r
    }

    /// Adds the chain for a key, normalized to start with `'/'`, merging it
    /// with the chains already stored: matching leading segments are shared,
    /// and the first unmatched segment starts a new branch. The key must cut
    /// into at least one segment beyond the leading `"/"`, and must not be
    /// stored already.
    pub fn add(&mut self, path: &str)
        requires
            old(self).wf(),
            seg_split(crate::route_node::norm(path@)).len() > 1,
            !old(self).contains_chain(seg_split(crate::route_node::norm(path@)).skip(1)),
        ensures
            final(self).wf(),
            final(self).path == old(self).path,
            old(self).merged(*final(self), seg_split(crate::route_node::norm(path@)).skip(1)),
            forall|q: Seq<Seq<char>>|
                final(self).contains_chain(q) <==> old(self).contains_chain(q) || q.is_prefix_of(
                    seg_split(crate::route_node::norm(path@)).skip(1),
                ),
    {
        let key = with_starting_slash(path);
        let segs = split_segments(key.as_str());
        proof {
            lemma_seg_split_nonempty(key@);
            assert(forall|t: int|
                0 <= t < segs@.len() ==> (#[trigger] segs@[t])@ == segs.deep_view()[t]);
        }
        self.add_recursive(&segs, 1);
    }

    /// Merges the chain for `segs[i..]` into this node's children.
    fn add_recursive(&mut self, segs: &Vec<String>, i: usize)
        requires
            old(self).wf(),
            i < segs@.len(),
            forall|t: int| 0 <= t < segs@.len() ==> (#[trigger] segs@[t])@.len() > 0,
            !old(self).contains_chain(segs.deep_view().skip(i as int)),
        ensures
            final(self).wf(),
            final(self).path == old(self).path,
            old(self).merged(*final(self), segs.deep_view().skip(i as int)),
            forall|q: Seq<Seq<char>>|
                final(self).contains_chain(q) <==> old(self).contains_chain(q) || q.is_prefix_of(
                    segs.deep_view().skip(i as int),
                ),
        decreases segs@.len() - i,
    {
        let ghost o = *old(self);
        let ghost tail = segs.deep_view().skip(i as int);
        proof {
            assert(tail[0] == segs@[i as int]@);
        }
        let n_children = self.children.len();
        let mut idx: usize = 0;
        let mut found: bool = false;
        while idx < n_children && !found
            invariant
                n_children == self.children@.len(),
                idx <= n_children,
                *self == o,
                i < segs@.len(),
                found ==> idx < n_children && o.children@[idx as int].path@ == segs@[i as int]@,
                !found ==> forall|t: int|
                    0 <= t < idx ==> (#[trigger] o.children@[t]).path@ != segs@[i as int]@,
            decreases n_children - idx + (if found { 0int } else { 1int }),
        {
            if self.children[idx].path == segs[i] {
                found = true;
            } else {
                idx = idx + 1;
            }
        }
        if found {
            let j = idx;
            proof {
                o.lemma_seg_child_unique(tail[0], j as int);
                assert(o.contains_chain(tail) == o.children@[j as int].contains_chain(
                    tail.skip(1),
                ));
                assert(tail.skip(1).len() > 0);
                assert(tail.skip(1) =~= segs.deep_view().skip(i + 1));
                assert(o.children@[j as int].wf());
            }
            let seg_count = segs.len();
            let mut child = self.children.remove(j);
            child.add_recursive(segs, i + 1);
            let ghost newchild = child;
            self.children.insert(j, child);
            proof {
                let n = *self;
                assert(n.children@ =~= o.children@.update(j as int, newchild));
                assert(n.wf()) by {
                    assert(forall|t: int|
                        0 <= t < n.children@.len() ==> (#[trigger] n.children@[t]).wf());
                    assert(forall|t: int|
                        0 <= t < n.children@.len() ==> (#[trigger] n.children@[t]).path@
                            == o.children@[t].path@);
                }
                assert(o.merged(n, tail)) by {
                    assert(o.children@[j as int].path@ == tail[0]);
                    assert(n.children@.len() == o.children@.len());
                    assert(forall|t: int|
                        0 <= t < o.children@.len() && t != j ==> n.children@[t]
                            == o.children@[t]);
                    assert(o.children@[j as int].merged(n.children@[j as int], tail.skip(1)));
                }
                assert forall|q: Seq<Seq<char>>|
                    n.contains_chain(q) <==> o.contains_chain(q) || q.is_prefix_of(tail) by {
                    o.lemma_contains_replace_child(n, j as int, q);
                    if q.len() > 0 && q[0] == tail[0] {
                        assert(q.is_prefix_of(tail) <==> q.skip(1).is_prefix_of(tail.skip(1))) by {
                            if q.skip(1).is_prefix_of(tail.skip(1)) {
                                assert forall|t: int| 0 <= t < q.len() implies q[t]
                                    == tail.subrange(0, q.len() as int)[t] by {
                                    if t > 0 {
                                        assert(q[t] == q.skip(1)[t - 1]);
                                        assert(q.skip(1)[t - 1] == tail.skip(1).subrange(
                                            0,
                                            q.len() - 1,
                                        )[t - 1]);
                                        assert(tail.skip(1)[t - 1] == tail[t]);
                                    }
                                }
                                assert(q =~= tail.subrange(0, q.len() as int));
                            }
                            if q.is_prefix_of(tail) {
                                assert forall|t: int| 0 <= t < q.len() - 1 implies q.skip(1)[t]
                                    == tail.skip(1).subrange(0, q.len() - 1)[t] by {
                                    assert(q.skip(1)[t] == q[t + 1]);
                                    assert(q[t + 1] == tail.subrange(0, q.len() as int)[t + 1]);
                                    assert(tail.skip(1)[t] == tail[t + 1]);
                                }
                                assert(q.skip(1) =~= tail.skip(1).subrange(0, q.len() - 1));
                            }
                        }
                    } else if q.len() > 0 {
                        assert(!q.is_prefix_of(tail)) by {
                            if q.is_prefix_of(tail) {
                                assert(q[0] == tail.subrange(0, q.len() as int)[0]);
                            }
                        }
                    } else {
                        assert(q.is_prefix_of(tail));
                    }
                }
            }
        } else {
            let chain = Self::new_recursive(segs, i);
            let ghost chaing = chain;
            self.children.push(chain);
            proof {
                let n = *self;
                assert(chaing.path@ == tail[0]);
                assert(n.children@ == o.children@.push(chaing));
                assert(n.wf()) by {
                    assert(forall|t: int|
                        0 <= t < o.children@.len() ==> (#[trigger] n.children@[t])
                            == o.children@[t]);
                }
                assert(o.merged(n, tail)) by {
                    assert(!seq_has_seg(o.children@, tail[0]));
                    assert(n.children@[o.children@.len() as int].is_chain(tail));
                    assert(forall|t: int|
                        0 <= t < o.children@.len() ==> n.children@[t] == o.children@[t]);
                }
                assert forall|q: Seq<Seq<char>>|
                    n.contains_chain(q) <==> o.contains_chain(q) || q.is_prefix_of(tail) by {
                    o.lemma_contains_append_child(n, chaing, q);
                    if q.len() > 0 && q[0] == tail[0] {
                        chaing.lemma_chain_contains(tail, q.skip(1));
                        assert(q.is_prefix_of(tail) <==> q.skip(1).is_prefix_of(tail.skip(1))) by {
                            if q.skip(1).is_prefix_of(tail.skip(1)) {
                                assert forall|t: int| 0 <= t < q.len() implies q[t]
                                    == tail.subrange(0, q.len() as int)[t] by {
                                    if t > 0 {
                                        assert(q[t] == q.skip(1)[t - 1]);
                                        assert(q.skip(1)[t - 1] == tail.skip(1).subrange(
                                            0,
                                            q.len() - 1,
                                        )[t - 1]);
                                        assert(tail.skip(1)[t - 1] == tail[t]);
                                    }
                                }
                                assert(q =~= tail.subrange(0, q.len() as int));
                            }
                            if q.is_prefix_of(tail) {
                                assert forall|t: int| 0 <= t < q.len() - 1 implies q.skip(1)[t]
                                    == tail.skip(1).subrange(0, q.len() - 1)[t] by {
                                    assert(q.skip(1)[t] == q[t + 1]);
                                    assert(q[t + 1] == tail.subrange(0, q.len() as int)[t + 1]);
                                    assert(tail.skip(1)[t] == tail[t + 1]);
                                }
                                assert(q.skip(1) =~= tail.skip(1).subrange(0, q.len() - 1));
                            }
                        }
                    } else if q.len() > 0 {
                        assert(!q.is_prefix_of(tail)) by {
                            if q.is_prefix_of(tail) {
                                assert(q[0] == tail.subrange(0, q.len() as int)[0]);
                            }
                        }
                    } else {
                        assert(q.is_prefix_of(tail));
                    }
                }
            }
        }
    }

    /// Resolves a key, normalized to start with `'/'`: the node itself when
    /// the whole key is its own segment, otherwise the node reached by
    /// matching one child per segment. An empty key never resolves.
    pub fn find<'a>(&'a self, path: &str) -> (r: Option<&'a RouteNode>)
        requires
            self.wf(),
            path@.len() > 0 && crate::route_node::norm(path@) != self.path@ ==> seg_split(
                crate::route_node::norm(path@),
            ).len() > 1,
        ensures
            path@.len() == 0 ==> r is None,
            path@.len() > 0 && crate::route_node::norm(path@) == self.path@ ==> (match r {
                Some(node) => *node == *self,
                None => false,
            }),
            path@.len() > 0 && crate::route_node::norm(path@) != self.path@ ==> (match r {
                Some(node) => self.find_chain(
                    seg_split(crate::route_node::norm(path@)).skip(1),
                ) == Some(*node) && node.wf(),
                None => self.find_chain(seg_split(crate::route_node::norm(path@)).skip(1)) is None,
            }),
    {
        if path.unicode_len() == 0 {
            return None;
        }
        let key = with_starting_slash(path);
        if self.path.eq(&key) {
            return Some(self);
        }
        let segs = split_segments(key.as_str());
        proof {
            assert(forall|t: int|
                0 <= t < segs@.len() ==> (#[trigger] segs@[t])@ == segs.deep_view()[t]);
        }
        self.find_recursive(&segs, 1)
    }

    /// Resolves `segs[i..]` against this node's children.
    fn find_recursive<'a>(&'a self, segs: &Vec<String>, i: usize) -> (r: Option<&'a RouteNode>)
        requires
            self.wf(),
            i < segs@.len(),
        ensures
            match r {
                Some(node) => self.find_chain(segs.deep_view().skip(i as int)) == Some(*node)
                    && node.wf(),
                None => self.find_chain(segs.deep_view().skip(i as int)) is None,
            },
        decreases segs@.len() - i,
    {
        let ghost tail = segs.deep_view().skip(i as int);
        proof {
            assert(tail[0] == segs@[i as int]@);
        }
        let seg_count = segs.len();
        let n_children = self.children.len();
        let mut idx: usize = 0;
        while idx < n_children
            invariant
                seg_count == segs@.len(),
                n_children == self.children@.len(),
                idx <= n_children,
                self.wf(),
                i < segs@.len(),
                tail == segs.deep_view().skip(i as int),
                tail[0] == segs@[i as int]@,
                forall|t: int|
                    0 <= t < idx ==> (#[trigger] self.children@[t]).path@ != segs@[i as int]@,
            decreases n_children - idx,
        {
            if self.children[idx].path == segs[i] {
                proof {
                    self.lemma_seg_child_unique(tail[0], idx as int);
                    assert(self.children@[idx as int].wf());
                }
                if i + 1 == seg_count {
                    return Some(&self.children[idx]);
                } else {
                    proof {
                        assert(tail.skip(1) =~= segs.deep_view().skip(i + 1));
                    }
                    return self.children[idx].find_recursive(segs, i + 1);
                }
            }
            idx = idx + 1;
        }
        proof {
            assert(!seq_has_seg(self.children@, tail[0]));
        }
        None
    }
}

/// The key as this trie consumes it: prepends `'/'` unless already present.
fn with_starting_slash(path: &str) -> (r: String)
    ensures
        r@ == crate::route_node::norm(path@),
{
    if path.unicode_len() > 0 && path.get_char(0) == '/' {
        path.to_owned()
    } else {
        let mut r = "/".to_owned();
        r.append(path);
        proof {
            reveal_strlit("/");
            assert(r@ =~= crate::route_node::norm(path@));
        }
        r
    }
}

} // verus!
