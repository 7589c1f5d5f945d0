//! The compressed prefix trie that stores route keys.
//!
//! Each node owns a non-empty `path` segment, an optional handler of an
//! opaque type `H`, and the children that continue keys sharing this node's
//! segment as a prefix. No two children of a node may start with the same
//! character: lookup picks the child to descend into by the first unconsumed
//! character alone, so siblings must be distinguishable by it.

use vstd::prelude::*;

verus! {

/// A registration-time error: these abort the violating registration and are
/// reported to the caller, never discovered during dispatch.
#[derive(Debug, Clone, Copy, PartialEq, Eq, Structural)]
pub enum RouteError {
    /// An empty path was supplied.
    InvalidPath,
    /// A route with the identical resolved key already has a handler.
    DuplicateRoute,
}

/// One node of the compressed prefix trie.
#[derive(Debug)]
pub struct RouteNode<H> {
    pub path: String,
    pub handler: Option<H>,
    pub children: Vec<RouteNode<H>>,
}

/// A key as the trie consumes it: unchanged when it already starts with
/// `'/'`, otherwise with `'/'` prepended.
pub open spec fn norm(s: Seq<char>) -> Seq<char> {
    if s.len() > 0 && s[0] == '/' {
        s
    } else {
        seq!['/'] + s
    }
}

/// The length of the longest common prefix of `a` and `b`.
pub open spec fn common_prefix_len(a: Seq<char>, b: Seq<char>) -> nat
    decreases a.len(),
{
    if a.len() == 0 || b.len() == 0 || a[0] != b[0] {
        0
    } else {
        1 + common_prefix_len(a.skip(1), b.skip(1))
    }
}

/// `common_prefix_len` is the unique index below which `a` and `b` agree and
/// at which they differ or one of them ends.
pub proof fn lemma_common_prefix_at(a: Seq<char>, b: Seq<char>, k: int)
    requires
        0 <= k <= a.len(),
        k <= b.len(),
        forall|j: int| 0 <= j < k ==> a[j] == b[j],
        k < a.len() && k < b.len() ==> a[k] != b[k],
    ensures
        common_prefix_len(a, b) == k,
    decreases a.len(),
{
    if k > 0 {
        lemma_common_prefix_at(a.skip(1), b.skip(1), k - 1);
    }
}

/// The longest common prefix is no longer than either sequence.
pub proof fn lemma_common_prefix_bounds(a: Seq<char>, b: Seq<char>)
    ensures
        common_prefix_len(a, b) <= a.len(),
        common_prefix_len(a, b) <= b.len(),
    decreases a.len(),
{
    if a.len() > 0 && b.len() > 0 && a[0] == b[0] {
        lemma_common_prefix_bounds(a.skip(1), b.skip(1));
    }
}

/// Whether some node in `cs` has a segment starting with `c`.
pub open spec fn seq_has_child_for<H>(cs: Seq<RouteNode<H>>, c: char) -> bool {
    exists|i: int| 0 <= i < cs.len() && (#[trigger] cs[i]).path@[0] == c
}

/// The node in `cs` whose segment starts with `c`; under the sibling
/// invariant there is at most one.
pub open spec fn seq_child_for<H>(cs: Seq<RouteNode<H>>, c: char) -> RouteNode<H> {
    cs[choose|i: int| 0 <= i < cs.len() && (#[trigger] cs[i]).path@[0] == c]
}

impl<H> RouteNode<H> {
    /// Well-formedness: every segment in the subtree is non-empty, and no
    /// two children of the same node share a first character.
    pub open spec fn wf(self) -> bool
        decreases self,
    {
        &&& self.path@.len() > 0
        &&& forall|i: int| 0 <= i < self.children@.len() ==> (#[trigger] self.children@[i]).wf()
        &&& forall|i: int, j: int|
            0 <= i < self.children@.len() && 0 <= j < self.children@.len() && i != j
                ==> (#[trigger] self.children@[i]).path@[0]
                    != (#[trigger] self.children@[j]).path@[0]
    }

    /// Whether some child's segment starts with `c`.
    pub open spec fn has_child_for(self, c: char) -> bool {
        seq_has_child_for(self.children@, c)
    }

    /// The child whose segment starts with `c`; under `wf` there is at most
    /// one such child.
    pub open spec fn child_for(self, c: char) -> RouteNode<H> {
        seq_child_for(self.children@, c)
    }

    /// The node at which `key` terminates, if the whole key can be consumed
    /// from this node down: first this node's entire segment, then, by the
    /// next unconsumed character, one child's subtree.
    pub open spec fn locate(self, key: Seq<char>) -> Option<RouteNode<H>>
        decreases key.len(),
    {
        if self.path@.len() == 0 {
            None
        } else if key.len() < self.path@.len() || key.subrange(0, self.path@.len() as int)
            != self.path@ {
            None
        } else if key.len() == self.path@.len() {
            Some(self)
        } else {
            let rest = key.subrange(self.path@.len() as int, key.len() as int);
            if self.has_child_for(rest[0]) {
                self.child_for(rest[0]).locate(rest)
            } else {
                None
            }
        }
    }

    /// The handler registered for `key` in this subtree, if any.
    pub open spec fn lookup(self, key: Seq<char>) -> Option<H> {
        match self.locate(key) {
            Some(node) => node.handler,
            None => None,
        }
    }

    /// How one insertion reshapes this node, following the four cases of the
    /// splitting algorithm. With `k` the length of the longest common prefix
    /// of this node's segment and the inserted suffix: an exact match
    /// attaches the handler here; a suffix that stops short inside the
    /// segment shrinks the segment to the suffix and demotes the remainder,
    /// with the old handler and old children, into the single child; a
    /// suffix that continues past the segment reshapes, by this same
    /// relation, the child sharing its next character, or appends a new leaf
    /// as the last child when no child does; a divergence inside the segment
    /// shrinks it to the shared prefix, clears the handler, and leaves
    /// exactly two children, the demoted remainder and then the new leaf.
    pub open spec fn inserted(self, post: RouteNode<H>, suffix: Seq<char>, handler: H) -> bool
        decreases suffix.len(),
        via Self::inserted_decreases
    {
        if self.path@.len() == 0 || suffix.len() == 0 || self.path@[0] != suffix[0] {
            false
        } else {
            let k = common_prefix_len(self.path@, suffix) as int;
            if k == self.path@.len() && k == suffix.len() {
                &&& post.path == self.path
                &&& post.handler == Some(handler)
                &&& post.children == self.children
            } else if k == suffix.len() {
                &&& post.path@ == suffix
                &&& post.handler == Some(handler)
                &&& post.children@.len() == 1
                &&& post.children@[0].path@ == self.path@.skip(k)
                &&& post.children@[0].handler == self.handler
                &&& post.children@[0].children == self.children
            } else if k == self.path@.len() {
                let rest = suffix.skip(k);
                &&& post.path == self.path
                &&& post.handler == self.handler
                &&& if self.has_child_for(rest[0]) {
                    exists|j: int|
                        #![trigger self.children@[j]]
                        0 <= j < self.children@.len() && self.children@[j].path@[0] == rest[0]
                            && post.children@.len() == self.children@.len() && (forall|t: int|
                            0 <= t < self.children@.len() && t != j ==> post.children@[t]
                                == self.children@[t]) && self.children@[j].inserted(
                            post.children@[j],
                            rest,
                            handler,
                        )
                } else {
                    &&& post.children@.len() == self.children@.len() + 1
                    &&& forall|t: int|
                        0 <= t < self.children@.len() ==> post.children@[t] == self.children@[t]
                    &&& post.children@[self.children@.len() as int].path@ == rest
                    &&& post.children@[self.children@.len() as int].handler == Some(handler)
                    &&& post.children@[self.children@.len() as int].children@.len() == 0
                }
            } else {
                &&& post.path@ == self.path@.subrange(0, k)
                &&& post.handler is None
                &&& post.children@.len() == 2
                &&& post.children@[0].path@ == self.path@.skip(k)
                &&& post.children@[0].handler == self.handler
                &&& post.children@[0].children == self.children
                &&& post.children@[1].path@ == suffix.skip(k)
                &&& post.children@[1].handler == Some(handler)
                &&& post.children@[1].children@.len() == 0
            }
        }
    }

    #[via_fn]
    proof fn inserted_decreases(self, post: RouteNode<H>, suffix: Seq<char>, handler: H) {
        lemma_common_prefix_bounds(self.path@, suffix);
    }

    /// Under `wf`, the child chosen for a first character is the only one
    /// whose segment starts with it.
    pub proof fn lemma_child_for_unique(self, c: char, j: int)
        requires
            self.wf(),
            0 <= j < self.children@.len(),
            self.children@[j].path@[0] == c,
        ensures
            self.has_child_for(c),
            self.child_for(c) == self.children@[j],
    {
        assert(self.has_child_for(c));
        let i = choose|i: int|
            0 <= i < self.children@.len() && (#[trigger] self.children@[i]).path@[0] == c;
        assert(i == j);
    }

    /// A node without children resolves exactly its own segment.
    pub proof fn lemma_lookup_leaf(self, q: Seq<char>)
        requires
            self.children@.len() == 0,
            self.path@.len() > 0,
        ensures
            self.lookup(q) == (if q == self.path@ {
                self.handler
            } else {
                None::<H>
            }),
    {
        if q.len() < self.path@.len() || q.subrange(0, self.path@.len() as int) != self.path@ {
            assert(q != self.path@) by {
                if q == self.path@ {
                    assert(q.subrange(0, self.path@.len() as int) =~= self.path@);
                }
            }
        } else if q.len() == self.path@.len() {
            assert(q =~= self.path@);
        } else {
            let rest = q.subrange(self.path@.len() as int, q.len() as int);
            assert(!self.has_child_for(rest[0]));
        }
    }

    /// Changing only a node's handler changes only the resolution of its own
    /// full segment.
    pub proof fn lemma_lookup_set_handler(self, other: RouteNode<H>, q: Seq<char>)
        requires
            self.path@.len() > 0,
            other.path == self.path,
            other.children == self.children,
        ensures
            other.lookup(q) == (if q == self.path@ {
                other.handler
            } else {
                self.lookup(q)
            }),
    {
        if q.len() < self.path@.len() || q.subrange(0, self.path@.len() as int) != self.path@ {
            assert(q != self.path@) by {
                if q == self.path@ {
                    assert(q.subrange(0, self.path@.len() as int) =~= self.path@);
                }
            }
        } else if q.len() == self.path@.len() {
            assert(q =~= self.path@);
        } else {
            assert(q != self.path@);
            let rest = q.subrange(self.path@.len() as int, q.len() as int);
            assert(other.locate(q) == self.locate(q));
        }
    }

    /// Splitting a node's segment at `k` does not change what it resolves:
    /// resolution through the original node equals resolution through a copy
    /// whose segment keeps only the part after `k`, once the query has been
    /// stripped of the first `k` characters it must share with the segment.
    pub proof fn lemma_lookup_split(self, d: RouteNode<H>, k: int, q: Seq<char>)
        requires
            0 < k < self.path@.len(),
            d.path@ == self.path@.subrange(k, self.path@.len() as int),
            d.handler == self.handler,
            d.children == self.children,
        ensures
            self.lookup(q) == (if q.len() > k && q.subrange(0, k) == self.path@.subrange(0, k) {
                d.lookup(q.subrange(k, q.len() as int))
            } else {
                None::<H>
            }),
    {
        let p = self.path@.len() as int;
        let cpre = self.path@.subrange(0, k);
        if q.len() > k && q.subrange(0, k) == cpre {
            let qrest = q.subrange(k, q.len() as int);
            if q.len() < p {
                // too short for the whole segment, and too short for `d` too
                assert(qrest.len() < d.path@.len());
                assert(self.lookup(q) is None);
                assert(d.lookup(qrest) is None);
            } else if q.subrange(0, p) == self.path@ {
                assert(qrest.subrange(0, d.path@.len() as int) =~= d.path@) by {
                    assert(forall|t: int|
                        0 <= t < d.path@.len() ==> #[trigger] qrest.subrange(
                            0,
                            d.path@.len() as int,
                        )[t] == q[k + t] == self.path@[k + t]);
                }
                if q.len() == p {
                    assert(qrest.len() == d.path@.len());
                    assert(self.locate(q) == Some(self));
                    assert(d.locate(qrest) == Some(d));
                } else {
                    let rest = q.subrange(p, q.len() as int);
                    let drest = qrest.subrange(d.path@.len() as int, qrest.len() as int);
                    assert(drest =~= rest);
                    assert(self.locate(q) == (if seq_has_child_for(self.children@, rest[0]) {
                        seq_child_for(self.children@, rest[0]).locate(rest)
                    } else {
                        None::<RouteNode<H>>
                    }));
                    assert(d.locate(qrest) == (if seq_has_child_for(d.children@, drest[0]) {
                        seq_child_for(d.children@, drest[0]).locate(drest)
                    } else {
                        None::<RouteNode<H>>
                    }));
                    assert(d.children@ == self.children@);
                    assert(self.locate(q) == d.locate(qrest));
                }
            } else {
                // the query diverges from the segment somewhere in k..p
                assert(self.lookup(q) is None);
                assert(exists|t: int|
                    0 <= t < p && #[trigger] q.subrange(0, p)[t] != self.path@[t]) by {
                    if forall|t: int|
                        0 <= t < p ==> #[trigger] q.subrange(0, p)[t] == self.path@[t] {
                        assert(q.subrange(0, p) =~= self.path@);
                    }
                }
                let t = choose|t: int|
                    0 <= t < p && #[trigger] q.subrange(0, p)[t] != self.path@[t];
                assert(t >= k) by {
                    if t < k {
                        assert(q.subrange(0, k)[t] == q[t]);
                    }
                }
                if qrest.len() >= d.path@.len() {
                    assert(qrest.subrange(0, d.path@.len() as int)[t - k] == q[t]);
                    assert(d.path@[t - k] == self.path@[t]);
                    assert(qrest.subrange(0, d.path@.len() as int) != d.path@);
                }
                assert(d.lookup(qrest) is None);
            }
        } else {
            // the query cannot reach the segment's first k characters
            if q.len() >= p {
                assert(q.subrange(0, p) != self.path@) by {
                    if q.subrange(0, p) == self.path@ {
                        assert(q.subrange(0, k) =~= self.path@.subrange(0, k)) by {
                            assert(forall|t: int|
                                0 <= t < k ==> q.subrange(0, k)[t] == q.subrange(0, p)[t]);
                        }
                    }
                }
            }
            assert(self.lookup(q) is None);
        }
    }

    /// Replacing one child with a node that keeps its first character
    /// changes only the queries that descend into that child.
    pub proof fn lemma_lookup_replace_child(self, other: RouteNode<H>, j: int, q: Seq<char>)
        requires
            self.wf(),
            other.path == self.path,
            other.handler == self.handler,
            other.children@.len() == self.children@.len(),
            0 <= j < self.children@.len(),
            forall|t: int|
                0 <= t < self.children@.len() && t != j ==> other.children@[t]
                    == self.children@[t],
            other.children@[j].path@.len() > 0,
            other.children@[j].path@[0] == self.children@[j].path@[0],
        ensures
            ({
                let p = self.path@.len() as int;
                let rest = q.subrange(p, q.len() as int);
                if q.len() > p && q.subrange(0, p) == self.path@ && q[p]
                    == self.children@[j].path@[0] {
                    other.lookup(q) == other.children@[j].lookup(rest) && self.lookup(q)
                        == self.children@[j].lookup(rest)
                } else {
                    other.lookup(q) == self.lookup(q)
                }
            }),
    {
        let p = self.path@.len() as int;
        if q.len() < p || q.subrange(0, p) != self.path@ {
            assert(self.lookup(q) is None);
            assert(other.lookup(q) is None);
        } else if q.len() == p {
            assert(self.locate(q) == Some(self));
            assert(other.locate(q) == Some(other));
        } else {
            let rest = q.subrange(p, q.len() as int);
            let c = rest[0];
            assert(c == q[p]);
            if c == self.children@[j].path@[0] {
                self.lemma_child_for_unique(c, j);
                assert(seq_has_child_for(other.children@, c));
                let t = choose|t: int|
                    0 <= t < other.children@.len() && (#[trigger] other.children@[t]).path@[0]
                        == c;
                assert(t == j) by {
                    if t != j {
                        assert(other.children@[t] == self.children@[t]);
                    }
                }
                assert(seq_child_for(other.children@, c) == other.children@[j]);
                assert(self.locate(q) == self.children@[j].locate(rest));
                assert(other.locate(q) == other.children@[j].locate(rest));
            } else {
                assert(seq_has_child_for(self.children@, c) == seq_has_child_for(
                    other.children@,
                    c,
                )) by {
                    if seq_has_child_for(self.children@, c) {
                        let t = choose|t: int|
                            0 <= t < self.children@.len() && (#[trigger] self.children@[t]).path@[0]
                                == c;
                        assert(other.children@[t].path@[0] == c);
                    }
                    if seq_has_child_for(other.children@, c) {
                        let t = choose|t: int|
                            0 <= t < other.children@.len() && (#[trigger] other.children@[t]).path@[0]
                                == c;
                        assert(self.children@[t].path@[0] == c);
                    }
                }
                if seq_has_child_for(self.children@, c) {
                    let ts = choose|t: int|
                        0 <= t < self.children@.len() && (#[trigger] self.children@[t]).path@[0]
                            == c;
                    let to = choose|t: int|
                        0 <= t < other.children@.len() && (#[trigger] other.children@[t]).path@[0]
                            == c;
                    assert(ts != j && to != j);
                    assert(self.children@[to].path@[0] == c);
                    assert(ts == to) by {
                        if ts != to {
                            assert(self.children@[ts].path@[0] != self.children@[to].path@[0]);
                        }
                    }
                    assert(seq_child_for(self.children@, c) == seq_child_for(other.children@, c));
                    assert(self.locate(q) == other.locate(q));
                } else {
                    assert(self.locate(q) is None);
                    assert(other.locate(q) is None);
                }
            }
        }
    }

    /// Appending a child whose first character no sibling shares changes
    /// only the queries that descend into the new child.
    pub proof fn lemma_lookup_append_child(
        self,
        other: RouteNode<H>,
        leaf: RouteNode<H>,
        q: Seq<char>,
    )
        requires
            self.wf(),
            other.path == self.path,
            other.handler == self.handler,
            other.children@ == self.children@.push(leaf),
            leaf.path@.len() > 0,
            forall|t: int|
                0 <= t < self.children@.len() ==> (#[trigger] self.children@[t]).path@[0]
                    != leaf.path@[0],
        ensures
            ({
                let p = self.path@.len() as int;
                let rest = q.subrange(p, q.len() as int);
                if q.len() > p && q.subrange(0, p) == self.path@ && q[p] == leaf.path@[0] {
                    other.lookup(q) == leaf.lookup(rest) && self.lookup(q) is None
                } else {
                    other.lookup(q) == self.lookup(q)
                }
            }),
    {
        let p = self.path@.len() as int;
        let n = self.children@.len() as int;
        assert(other.children@[n] == leaf);
        if q.len() < p || q.subrange(0, p) != self.path@ {
            assert(self.lookup(q) is None);
            assert(other.lookup(q) is None);
        } else if q.len() == p {
            assert(self.locate(q) == Some(self));
            assert(other.locate(q) == Some(other));
        } else {
            let rest = q.subrange(p, q.len() as int);
            let c = rest[0];
            assert(c == q[p]);
            if c == leaf.path@[0] {
                assert(seq_has_child_for(other.children@, c));
                assert(!seq_has_child_for(self.children@, c));
                let t = choose|t: int|
                    0 <= t < other.children@.len() && (#[trigger] other.children@[t]).path@[0]
                        == c;
                assert(t == n) by {
                    if t < n {
                        assert(self.children@[t].path@[0] == c);
                    }
                }
                assert(seq_child_for(other.children@, c) == leaf);
                assert(other.locate(q) == leaf.locate(rest));
                assert(self.locate(q) is None);
            } else {
                assert(seq_has_child_for(self.children@, c) == seq_has_child_for(
                    other.children@,
                    c,
                )) by {
                    if seq_has_child_for(self.children@, c) {
                        let t = choose|t: int|
                            0 <= t < self.children@.len() && (#[trigger] self.children@[t]).path@[0]
                                == c;
                        assert(other.children@[t].path@[0] == c);
                    }
                    if seq_has_child_for(other.children@, c) {
                        let t = choose|t: int|
                            0 <= t < other.children@.len() && (#[trigger] other.children@[t]).path@[0]
                                == c;
                        assert(t < n);
                        assert(self.children@[t].path@[0] == c);
                    }
                }
                if seq_has_child_for(self.children@, c) {
                    let ts = choose|t: int|
                        0 <= t < self.children@.len() && (#[trigger] self.children@[t]).path@[0]
                            == c;
                    let to = choose|t: int|
                        0 <= t < other.children@.len() && (#[trigger] other.children@[t]).path@[0]
                            == c;
                    assert(to < n) by {
                        if to == n {
                            assert(other.children@[to].path@[0] == leaf.path@[0]);
                        }
                    }
                    assert(self.children@[to].path@[0] == c);
                    assert(ts == to) by {
                        if ts != to {
                            assert(self.children@[ts].path@[0] != self.children@[to].path@[0]);
                        }
                    }
                    assert(seq_child_for(self.children@, c) == seq_child_for(other.children@, c));
                    assert(self.locate(q) == other.locate(q));
                } else {
                    assert(self.locate(q) is None);
                    assert(other.locate(q) is None);
                }
            }
        }
    }

    /// Creates a detached node holding the given segment and handler.
    pub fn new(path: &str, handler: Option<H>) -> (r: RouteNode<H>)
        requires
            path@.len() > 0,
        ensures
            r.path@ == path@,
            r.handler == handler,
            r.children@.len() == 0,
            r.wf(),
    {
        RouteNode { path: path.to_owned(), handler, children: Vec::new() }
    }
}

/// Length of the longest common prefix of `seg` and `key[i..]`.
fn common_len(seg: &str, key: &str, i: usize) -> (k: usize)
    requires
        i <= key@.len(),
    ensures
        k <= seg@.len(),
        i + k <= key@.len(),
        forall|j: int| 0 <= j < k ==> seg@[j] == key@[i + j],
        k < seg@.len() && i + k < key@.len() ==> seg@[k as int] != key@[i + k],
{
    let seg_len = seg.unicode_len();
    let key_len = key.unicode_len();
    let mut k: usize = 0;
    while k < seg_len && i + k < key_len && seg.get_char(k) == key.get_char(i + k)
        invariant
            i <= key@.len(),
            seg_len == seg@.len(),
            key_len == key@.len(),
            k <= seg@.len(),
            i + k <= key@.len(),
            forall|j: int| 0 <= j < k ==> seg@[j] == key@[i + j],
        decreases seg@.len() - k,
    {
        k = k + 1;
    }
    k
}

impl<H> RouteNode<H> {
    /// Inserts `key[i..]` below this node, comparing the suffix with this
    /// node's own segment: an exact match attaches the handler here, a
    /// strict-prefix or diverging suffix splits this node, and a longer
    /// suffix descends into the child sharing its next character (or becomes
    /// a new child when none does).
    fn add_recursive(&mut self, key: &str, i: usize, handler: H)
        requires
            old(self).wf(),
            i < key@.len(),
            old(self).path@[0] == key@[i as int],
            old(self).lookup(key@.skip(i as int)) is None,
        ensures
            final(self).wf(),
            final(self).path@[0] == old(self).path@[0],
            final(self).lookup(key@.skip(i as int)) == Some(handler),
            forall|q: Seq<char>|
                q != key@.skip(i as int) ==> final(self).lookup(q) == old(self).lookup(q),
            old(self).inserted(*final(self), key@.skip(i as int), handler),
        decreases key@.len() - i,
    {
        let ghost o = *old(self);
        let ghost suffix = key@.skip(i as int);
        let key_len = key.unicode_len();
        let seg_len = self.path.unicode_len();
        let k = common_len(self.path.as_str(), key, i);
        proof {
            assert(k >= 1) by {
                if k == 0 {
                    assert(o.path@[0] != key@[i as int]);
                }
            }
            assert(forall|t: int| 0 <= t < k ==> suffix[t] == o.path@[t]);
            lemma_common_prefix_at(o.path@, suffix, k as int);
        }
        if k == seg_len && i + k == key_len {
            // the suffix is exactly this node's segment
            proof {
                assert(suffix =~= o.path@);
                assert(suffix.subrange(0, o.path@.len() as int) =~= o.path@);
                assert(o.lookup(suffix) == o.handler);
            }
            self.handler = Some(handler);
            proof {
                let n = *self;
                assert(n.lookup(suffix) == Some(handler)) by {
                    o.lemma_lookup_set_handler(n, suffix);
                }
                assert forall|q: Seq<char>| q != suffix implies n.lookup(q) == o.lookup(q) by {
                    o.lemma_lookup_set_handler(n, q);
                }
                assert(o.inserted(n, suffix, handler));
            }
        } else if k == seg_len {
            // the segment is consumed and key characters remain: descend
            let c = key.get_char(i + k);
            let ghost keyrest = key@.skip((i + k) as int);
            proof {
                assert(suffix.subrange(0, k as int) =~= o.path@);
                assert(suffix.subrange(k as int, suffix.len() as int) =~= keyrest);
                assert(keyrest[0] == c);
            }
            let n_children = self.children.len();
            let mut idx: usize = 0;
            let mut found: bool = false;
            while idx < n_children && !found
                invariant
                    n_children == self.children@.len(),
                    idx <= n_children,
                    *self == o,
                    o.wf(),
                    found ==> idx < n_children && o.children@[idx as int].path@[0] == c,
                    !found ==> forall|t: int|
                        0 <= t < idx ==> (#[trigger] o.children@[t]).path@[0] != c,
                decreases n_children - idx + (if found { 0int } else { 1int }),
            {
                proof {
                    assert(o.children@[idx as int].wf());
                }
                if self.children[idx].path.as_str().get_char(0) == c {
                    found = true;
                } else {
                    idx = idx + 1;
                }
            }
            if found {
                let j = idx;
                proof {
                    o.lemma_child_for_unique(c, j as int);
                    assert(o.lookup(suffix) == o.children@[j as int].lookup(keyrest)) by {
                        assert(o.locate(suffix) == o.children@[j as int].locate(keyrest));
                    }
                    assert(o.children@[j as int].wf());
                }
                let mut child = self.children.remove(j);
                child.add_recursive(key, i + k, handler);
                let ghost newchild = child;
                self.children.insert(j, child);
                proof {
                    let n = *self;
                    assert(n.children@ =~= o.children@.update(j as int, newchild));
                    assert(n.wf()) by {
                        assert(forall|t: int|
                            0 <= t < n.children@.len() ==> (#[trigger] n.children@[t]).wf());
                        assert(forall|t: int|
                            0 <= t < n.children@.len() ==> (#[trigger] n.children@[t]).path@[0]
                                == o.children@[t].path@[0]);
                    }
                    assert forall|q: Seq<char>|
                        (if q == suffix {
                            n.lookup(q) == Some(handler)
                        } else {
                            n.lookup(q) == o.lookup(q)
                        }) by {
                        o.lemma_lookup_replace_child(n, j as int, q);
                        let p = o.path@.len() as int;
                        let rest = q.subrange(p, q.len() as int);
                        if q.len() > p && q.subrange(0, p) == o.path@ && q[p]
                            == o.children@[j as int].path@[0] {
                            assert(q == suffix <==> rest == keyrest) by {
                                if rest == keyrest {
                                    assert(q.len() == suffix.len());
                                    assert forall|t: int| 0 <= t < q.len() implies q[t]
                                        == suffix[t] by {
                                        if t < p {
                                            assert(q[t] == q.subrange(0, p)[t]);
                                            assert(suffix[t] == o.path@[t]);
                                        } else {
                                            assert(q[t] == rest[t - p]);
                                            assert(suffix[t] == keyrest[t - p]);
                                        }
                                    }
                                    assert(q =~= suffix);
                                }
                                if q == suffix {
                                    assert(rest =~= keyrest);
                                }
                            }
                        } else {
                            assert(q != suffix) by {
                                if q == suffix {
                                    assert(suffix.subrange(0, p) == o.path@);
                                    assert(suffix[p] == keyrest[0]);
                                }
                            }
                        }
                    }
                    assert(n.lookup(suffix) == Some(handler));
                    assert(o.inserted(n, suffix, handler)) by {
                        let rest = suffix.subrange(k as int, suffix.len() as int);
                        assert(rest == keyrest);
                        assert(o.children@[j as int].path@[0] == rest[0]);
                        assert(n.children@.len() == o.children@.len());
                        assert(forall|t: int|
                            0 <= t < o.children@.len() && t != j ==> n.children@[t]
                                == o.children@[t]);
                        assert(o.children@[j as int].inserted(
                            n.children@[j as int],
                            rest,
                            handler,
                        ));
                    }
                }
            } else {
                let rest_str = key.substring_char(i + k, key_len);
                let leaf = RouteNode::new(rest_str, Some(handler));
                let ghost leafg = leaf;
                self.children.push(leaf);
                proof {
                    let n = *self;
                    assert(n.children@ == o.children@.push(leafg));
                    assert(leafg.path@ == keyrest);
                    assert(n.wf()) by {
                        assert(forall|t: int|
                            0 <= t < o.children@.len() ==> (#[trigger] n.children@[t])
                                == o.children@[t]);
                    }
                    assert forall|q: Seq<char>|
                        (if q == suffix {
                            n.lookup(q) == Some(handler)
                        } else {
                            n.lookup(q) == o.lookup(q)
                        }) by {
                        o.lemma_lookup_append_child(n, leafg, q);
                        let p = o.path@.len() as int;
                        let rest = q.subrange(p, q.len() as int);
                        if q.len() > p && q.subrange(0, p) == o.path@ && q[p] == leafg.path@[0] {
                            leafg.lemma_lookup_leaf(rest);
                            assert(q == suffix <==> rest == keyrest) by {
                                if rest == keyrest {
                                    assert(q.len() == suffix.len());
                                    assert forall|t: int| 0 <= t < q.len() implies q[t]
                                        == suffix[t] by {
                                        if t < p {
                                            assert(q[t] == q.subrange(0, p)[t]);
                                            assert(suffix[t] == o.path@[t]);
                                        } else {
                                            assert(q[t] == rest[t - p]);
                                            assert(suffix[t] == keyrest[t - p]);
                                        }
                                    }
                                    assert(q =~= suffix);
                                }
                                if q == suffix {
                                    assert(rest =~= keyrest);
                                }
                            }
                        } else {
                            assert(q != suffix) by {
                                if q == suffix {
                                    assert(suffix.subrange(0, p) == o.path@);
                                    assert(suffix[p] == keyrest[0]);
                                }
                            }
                        }
                    }
                    assert(n.lookup(suffix) == Some(handler));
                    assert(o.inserted(n, suffix, handler)) by {
                        let rest = suffix.subrange(k as int, suffix.len() as int);
                        assert(rest == keyrest);
                        assert(!o.has_child_for(rest[0]));
                        assert(n.children@[o.children@.len() as int] == leafg);
                        assert(forall|t: int|
                            0 <= t < o.children@.len() ==> n.children@[t] == o.children@[t]);
                    }
                }
            }
        } else {
            // the suffix stops short of, or diverges inside, this segment:
            // shrink this node to the shared prefix and demote the remainder
            let demoted_path = self.path.as_str().substring_char(k, seg_len).to_owned();
            let old_handler = self.handler.take();
            let mut old_children: Vec<RouteNode<H>> = Vec::new();
            core::mem::swap(&mut old_children, &mut self.children);
            let demoted = RouteNode { path: demoted_path, handler: old_handler, children: old_children };
            let ghost d = demoted;
            let common = self.path.as_str().substring_char(0, k).to_owned();
            self.path = common;
            let ghost cpre = o.path@.subrange(0, k as int);
            proof {
                assert(d.path@ == o.path@.subrange(k as int, o.path@.len() as int));
                assert(d.handler == o.handler);
                assert(d.children == o.children);
                assert(d.wf()) by {
                    assert(forall|t: int|
                        0 <= t < d.children@.len() ==> (#[trigger] d.children@[t])
                            == o.children@[t]);
                }
            }
            if i + k == key_len {
                // the suffix is a strict prefix of the segment
                proof {
                    assert(suffix =~= cpre);
                }
                self.handler = Some(handler);
                let mut cs: Vec<RouteNode<H>> = Vec::new();
                cs.push(demoted);
                self.children = cs;
                proof {
                    let n = *self;
                    assert(n.path@ == cpre && n.handler == Some(handler) && n.children@ =~= seq![d]);
                    assert(n.wf());
                    assert forall|q: Seq<char>|
                        (if q == suffix {
                            n.lookup(q) == Some(handler)
                        } else {
                            n.lookup(q) == o.lookup(q)
                        }) by {
                        o.lemma_lookup_split(d, k as int, q);
                        if q.len() < k || q.subrange(0, k as int) != cpre {
                            assert(n.lookup(q) is None);
                            assert(q != suffix) by {
                                if q == suffix {
                                    assert(q.subrange(0, k as int) =~= cpre);
                                }
                            }
                        } else if q.len() == k {
                            assert(q =~= cpre);
                            assert(q == suffix);
                            assert(n.locate(q) == Some(n));
                        } else {
                            assert(q != suffix);
                            let rest = q.subrange(k as int, q.len() as int);
                            if rest[0] == d.path@[0] {
                                n.lemma_child_for_unique(rest[0], 0);
                                assert(n.locate(q) == d.locate(rest));
                                assert(o.lookup(q) == d.lookup(rest));
                            } else {
                                assert(!seq_has_child_for(n.children@, rest[0]));
                                assert(n.lookup(q) is None);
                                assert(d.lookup(rest) is None) by {
                                    if rest.len() >= d.path@.len() {
                                        assert(rest.subrange(0, d.path@.len() as int)[0]
                                            == rest[0]);
                                        assert(rest.subrange(0, d.path@.len() as int) != d.path@);
                                    }
                                }
                            }
                        }
                    }
                    assert(n.lookup(suffix) == Some(handler));
                    assert(o.inserted(n, suffix, handler)) by {
                        assert(n.path@ == suffix);
                        assert(n.children@[0] == d);
                        assert(d.path@ == o.path@.skip(k as int));
                    }
                }
            } else {
                // the suffix and the segment diverge after the shared prefix
                let rest_str = key.substring_char(i + k, key_len);
                let leaf = RouteNode::new(rest_str, Some(handler));
                let ghost leafg = leaf;
                let ghost keyrest = key@.skip((i + k) as int);
                self.handler = None;
                let mut cs: Vec<RouteNode<H>> = Vec::new();
                cs.push(demoted);
                cs.push(leaf);
                self.children = cs;
                proof {
                    let n = *self;
                    assert(leafg.path@ == keyrest);
                    assert(keyrest[0] == key@[(i + k) as int]);
                    assert(d.path@[0] == o.path@[k as int]);
                    assert(d.path@[0] != leafg.path@[0]);
                    assert(n.path@ == cpre && n.handler is None && n.children@ =~= seq![d, leafg]);
                    assert(n.wf());
                    assert forall|q: Seq<char>|
                        (if q == suffix {
                            n.lookup(q) == Some(handler)
                        } else {
                            n.lookup(q) == o.lookup(q)
                        }) by {
                        o.lemma_lookup_split(d, k as int, q);
                        if q.len() < k || q.subrange(0, k as int) != cpre {
                            assert(n.lookup(q) is None);
                            assert(q != suffix) by {
                                if q == suffix {
                                    assert(q.subrange(0, k as int) =~= cpre);
                                }
                            }
                        } else if q.len() == k {
                            assert(n.locate(q) == Some(n));
                            assert(n.lookup(q) is None);
                            assert(q != suffix);
                        } else {
                            let rest = q.subrange(k as int, q.len() as int);
                            assert(rest[0] == q[k as int]);
                            if rest[0] == d.path@[0] {
                                n.lemma_child_for_unique(rest[0], 0);
                                assert(n.locate(q) == d.locate(rest));
                                assert(o.lookup(q) == d.lookup(rest));
                                assert(q != suffix) by {
                                    if q == suffix {
                                        assert(suffix[k as int] == keyrest[0]);
                                    }
                                }
                            } else if rest[0] == leafg.path@[0] {
                                n.lemma_child_for_unique(rest[0], 1);
                                assert(n.locate(q) == leafg.locate(rest));
                                leafg.lemma_lookup_leaf(rest);
                                assert(o.lookup(q) == d.lookup(rest));
                                assert(d.lookup(rest) is None) by {
                                    if rest.len() >= d.path@.len() {
                                        assert(rest.subrange(0, d.path@.len() as int)[0]
                                            == rest[0]);
                                        assert(rest.subrange(0, d.path@.len() as int) != d.path@);
                                    }
                                }
                                assert(q == suffix <==> rest == keyrest) by {
                                    if rest == keyrest {
                                        assert(q.len() == suffix.len());
                                        assert forall|t: int| 0 <= t < q.len() implies q[t]
                                            == suffix[t] by {
                                            if t < k {
                                                assert(q[t] == q.subrange(0, k as int)[t]);
                                                assert(q.subrange(0, k as int)[t] == cpre[t]);
                                                assert(cpre[t] == o.path@[t]);
                                                assert(suffix[t] == o.path@[t]);
                                            } else {
                                                assert(q[t] == rest[t - k]);
                                                assert(suffix[t] == keyrest[t - k]);
                                            }
                                        }
                                        assert(q =~= suffix);
                                    }
                                    if q == suffix {
                                        assert(rest =~= keyrest);
                                    }
                                }
                            } else {
                                assert(!seq_has_child_for(n.children@, rest[0]));
                                assert(n.lookup(q) is None);
                                assert(o.lookup(q) == d.lookup(rest));
                                assert(d.lookup(rest) is None) by {
                                    if rest.len() >= d.path@.len() {
                                        assert(rest.subrange(0, d.path@.len() as int)[0]
                                            == rest[0]);
                                        assert(rest.subrange(0, d.path@.len() as int) != d.path@);
                                    }
                                }
                                assert(q != suffix) by {
                                    if q == suffix {
                                        assert(suffix[k as int] == keyrest[0]);
                                    }
                                }
                            }
                        }
                    }
                    assert(n.lookup(suffix) == Some(handler));
                    assert(o.inserted(n, suffix, handler)) by {
                        assert(n.children@[0] == d && n.children@[1] == leafg);
                        assert(d.path@ == o.path@.skip(k as int));
                        assert(leafg.path@ == suffix.subrange(k as int, suffix.len() as int));
                    }
                }
            }
        }
    }

    /// Resolves `key[i..]` against this subtree, returning the node at which
    /// the suffix terminates, exactly as `locate` describes.
    fn find_at<'a>(&'a self, key: &str, i: usize) -> (r: Option<&'a RouteNode<H>>)
        requires
            self.wf(),
            i <= key@.len(),
        ensures
            match r {
                Some(node) => self.locate(key@.skip(i as int)) == Some(*node) && node.wf(),
                None => self.locate(key@.skip(i as int)) is None,
            },
        decreases key@.len() - i,
    {
        let ghost suffix = key@.skip(i as int);
        let key_len = key.unicode_len();
        let seg_len = self.path.unicode_len();
        let k = common_len(self.path.as_str(), key, i);
        if k < seg_len {
            proof {
                if suffix.len() >= self.path@.len() {
                    // the characters diverge at index k
                    assert(suffix.subrange(0, self.path@.len() as int)[k as int]
                        == key@[i + k]);
                    assert(suffix.subrange(0, self.path@.len() as int) != self.path@);
                }
            }
            None
        } else if i + k == key_len {
            proof {
                assert(suffix.subrange(0, self.path@.len() as int) =~= self.path@);
            }
            Some(self)
        } else {
            proof {
                assert(suffix.subrange(0, self.path@.len() as int) =~= self.path@);
            }
            let c = key.get_char(i + k);
            let ghost rest = suffix.subrange(self.path@.len() as int, suffix.len() as int);
            proof {
                assert(rest =~= key@.skip((i + k) as int));
                assert(rest[0] == c);
            }
            let n = self.children.len();
            let mut idx: usize = 0;
            while idx < n
                invariant
                    n == self.children@.len(),
                    idx <= n,
                    forall|j: int|
                        0 <= j < idx ==> (#[trigger] self.children@[j]).path@[0] != c,
                    self.wf(),
                    1 <= k == self.path@.len(),
                    i + k < key@.len() <= usize::MAX,
                    c == key@[i + k],
                    rest == key@.skip((i + k) as int),
                    suffix == key@.skip(i as int),
                    suffix.subrange(0, self.path@.len() as int) == self.path@,
                    rest == suffix.subrange(self.path@.len() as int, suffix.len() as int),
                decreases n - idx,
            {
                let child = &self.children[idx];
                proof {
                    assert(self.children@[idx as int].wf());
                }
                if child.path.as_str().get_char(0) == c {
                    proof {
                        self.lemma_child_for_unique(c, idx as int);
                    }
                    return child.find_at(key, i + k);
                }
                idx = idx + 1;
            }
            proof {
                assert(!self.has_child_for(c));
            }
            None
        }
    }

    /// Registers `handler` under the key `path`, normalized to start with
    /// `'/'`. The key must not already carry a handler; `try_add` reports
    /// that case as an error instead.
    pub fn add(&mut self, path: &str, handler: H)
        requires
            old(self).wf(),
            path@.len() > 0,
            old(self).path@[0] == '/',
            old(self).lookup(norm(path@)) is None,
        ensures
            final(self).wf(),
            final(self).path@[0] == '/',
            final(self).lookup(norm(path@)) == Some(handler),
            forall|q: Seq<char>|
                q != norm(path@) ==> final(self).lookup(q) == old(self).lookup(q),
            old(self).inserted(*final(self), norm(path@), handler),
    {
        let key = with_starting_slash(path);
        proof {
            assert(key@.skip(0) =~= key@);
        }
        self.add_recursive(key.as_str(), 0, handler);
    }

    /// Registers `handler` under the key `path`, reporting an empty path and
    /// a duplicate registration as errors and leaving the trie unchanged in
    /// either case.
    pub fn try_add(&mut self, path: &str, handler: H) -> (r: Result<(), RouteError>)
        requires
            old(self).wf(),
            old(self).path@[0] == '/',
        ensures
            final(self).wf(),
            final(self).path@[0] == '/',
            path@.len() == 0 ==> r == Err::<(), RouteError>(RouteError::InvalidPath) && *final(self)
                == *old(self),
            path@.len() > 0 && old(self).lookup(norm(path@)) is Some ==> r == Err::<
                (),
                RouteError,
            >(RouteError::DuplicateRoute) && *final(self) == *old(self),
            path@.len() > 0 && old(self).lookup(norm(path@)) is None ==> r == Ok::<
                (),
                RouteError,
            >(()) && final(self).lookup(norm(path@)) == Some(handler) && old(self).inserted(
                *final(self),
                norm(path@),
                handler,
            ) && (forall|q: Seq<char>|
                q != norm(path@) ==> final(self).lookup(q) == old(self).lookup(q)),
    {
        if path.unicode_len() == 0 {
            return Err(RouteError::InvalidPath);
        }
        let duplicate = match self.find(path) {
            Some(node) => node.handler.is_some(),
            None => false,
        };
        if duplicate {
            Err(RouteError::DuplicateRoute)
        } else {
            self.add(path, handler);
            Ok(())
        }
    }

    /// Resolves a key, normalized to start with `'/'`, against this subtree.
    /// An empty key never resolves.
    pub fn find<'a>(&'a self, path: &str) -> (r: Option<&'a RouteNode<H>>)
        requires
            self.wf(),
        ensures
            path@.len() == 0 ==> r is None,
            path@.len() > 0 ==> match r {
                Some(node) => self.locate(norm(path@)) == Some(*node) && node.wf(),
                None => self.locate(norm(path@)) is None,
            },
    {
        if path.unicode_len() == 0 {
            return None;
        }
        let key = with_starting_slash(path);
        let r = self.find_at(key.as_str(), 0);
        proof {
            assert(key@.skip(0) =~= norm(path@));
        }
        r
    }
}

/// The key as the trie consumes it: prepends `'/'` unless already present.
fn with_starting_slash(path: &str) -> (r: String)
    ensures
        r@ == norm(path@),
{
    if path.unicode_len() > 0 && path.get_char(0) == '/' {
        path.to_owned()
    } else {
        let mut r = "/".to_owned();
        r.append(path);
        proof {
            reveal_strlit("/");
            assert(r@ =~= norm(path@));
        }
        r
    }
}

} // verus!
