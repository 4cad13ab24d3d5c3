//! The search tree, stored as an arena of nodes addressed by index.
//!
//! Index 0 is the root. A child is always created after its parent, so
//! every parent index is strictly smaller than the child's own index;
//! walking parent links therefore terminates and the tree is acyclic by
//! construction. Children are append-only: nodes are never removed or
//! reordered, and two children created from identical data remain two
//! distinct arena slots with independent statistics.

use crate::score::value_in_range;
use vstd::prelude::*;

verus! {

/// One node of the search tree.
///
/// `visits` and `value` are the node's statistics: how many
/// backpropagations passed through it and the sum of the rewards they
/// carried, so that `value / visits` is the running mean reward.
#[derive(Debug)]
pub struct Node<T, U> {
    pub state: T,
    pub action: Option<U>,
    pub parent: Option<usize>,
    pub children: Vec<usize>,
    pub visits: u64,
    pub value: i128,
}

impl<T, U> Node<T, U> {
    /// A fresh, unlinked node with zero statistics.
    pub fn new(state: T, action: Option<U>) -> (n: Node<T, U>)
        ensures
            n.state == state,
            n.action == action,
            n.parent is None,
            n.children@ == Seq::<usize>::empty(),
            n.visits == 0,
            n.value == 0,
    {
        Node { state, action, parent: None, children: Vec::new(), visits: 0, value: 0 }
    }
}

/// The arena of nodes; `nodes[0]` is the root.
#[derive(Debug)]
pub struct Tree<T, U> {
    pub nodes: Vec<Node<T, U>>,
}

impl<T, U> Tree<T, U> {
    pub open spec fn num_nodes(self) -> int {
        self.nodes.len() as int
    }

    /// The parent index of a non-root node.
    pub open spec fn parent_of(self, i: int) -> int {
        self.nodes[i].parent->0 as int
    }

    pub open spec fn nchildren(self, i: int) -> int {
        self.nodes[i].children.len() as int
    }

    /// The j-th child index of node i.
    pub open spec fn child(self, i: int, j: int) -> int {
        self.nodes[i].children[j] as int
    }

    /// The total visit count recorded across the child entries of `s`.
    pub open spec fn sum_visits(self, s: Seq<usize>) -> int
        decreases s.len(),
    {
        if s.len() == 0 {
            0
        } else {
            self.nodes[s[0] as int].visits + self.sum_visits(s.drop_first())
        }
    }

    /// Well-formedness of the arena:
    /// - the root has no parent and no action; every other node has both;
    /// - every parent index is smaller than its child's index (acyclicity);
    /// - child lists point into the arena, in strictly increasing order
    ///   (so no child is listed twice), back-linked to their parent;
    /// - a node is visited no more often than its parent, at least as
    ///   often as all its children together, and the root at least as
    ///   often as anyone (every backpropagation ends at the root);
    /// - a node's accumulated value is bounded by `visits` rewards' worth,
    ///   as befits a sum updated only together with the visit count.
    pub open spec fn wf(self) -> bool {
        &&& 1 <= self.num_nodes()
        &&& self.nodes[0].parent is None
        &&& self.nodes[0].action is None
        &&& forall|i: int|
            1 <= i < self.num_nodes() ==> ((#[trigger] self.nodes[i]).parent is Some
                && self.parent_of(i) < i && self.nodes[i].action is Some && self.nodes[i].visits
                <= self.nodes[self.parent_of(i)].visits)
        &&& forall|i: int|
            0 <= i < self.num_nodes() ==> (#[trigger] self.nodes[i]).visits
                <= self.nodes[0].visits
        &&& forall|i: int|
            0 <= i < self.num_nodes() ==> value_in_range(
                (#[trigger] self.nodes[i]).value as int,
                self.nodes[i].visits as nat,
            )
        &&& forall|i: int, j: int|
            0 <= i < self.num_nodes() && 0 <= j < self.nchildren(i) ==> (i < #[trigger] self.child(
                i,
                j,
            ) && self.child(i, j) < self.num_nodes() && self.nodes[self.child(i, j)].parent
                == Some(i as usize))
        &&& forall|i: int, j1: int, j2: int|
            0 <= i < self.num_nodes() && 0 <= j1 < j2 < self.nchildren(i)
                ==> #[trigger] self.child(i, j1) < #[trigger] self.child(i, j2)
        &&& forall|i: int|
            0 <= i < self.num_nodes() ==> self.sum_visits((#[trigger] self.nodes[i]).children@)
                <= self.nodes[i].visits
    }

    /// Node j lies on the parent chain from node i up to the root
    /// (inclusive of both ends).
    pub open spec fn on_path(self, i: int, j: int) -> bool
        decreases i,
    {
        if i == j {
            true
        } else if 0 < i < self.num_nodes() && self.nodes[i].parent is Some {
            let p = self.parent_of(i);
            if 0 <= p < i {
                self.on_path(p, j)
            } else {
                false
            }
        } else {
            false
        }
    }

    /// The depth of node `j`: the length of its parent chain up to the
    /// root.
    pub open spec fn depth_of(self, j: int) -> int
        decreases j,
    {
        if 0 < j < self.num_nodes() && self.nodes[j].parent is Some && 0 <= self.parent_of(j)
            < j {
            1 + self.depth_of(self.parent_of(j))
        } else {
            0
        }
    }

    /// The greatest node depth among the first `n` nodes.
    pub open spec fn max_depth_upto(self, n: int) -> int
        decreases n,
    {
        if n <= 0 {
            0
        } else {
            let d = self.depth_of(n - 1);
            let m = self.max_depth_upto(n - 1);
            if d > m {
                d
            } else {
                m
            }
        }
    }

    /// The tree's current depth: its deepest node's depth.
    pub open spec fn depth(self) -> int {
        self.max_depth_upto(self.num_nodes())
    }

    pub proof fn lemma_depth_nonneg(self, n: int)
        ensures
            self.max_depth_upto(n) >= 0,
        decreases n,
    {
        if n > 0 {
            self.lemma_depth_nonneg(n - 1);
        }
    }

    pub proof fn lemma_depth_le(self, j: int, n: int)
        requires
            0 <= j < n <= self.num_nodes(),
        ensures
            self.depth_of(j) <= self.max_depth_upto(n),
        decreases n,
    {
        if j < n - 1 {
            self.lemma_depth_le(j, n - 1);
        }
    }

    /// Anything on the chain from `i` has an index no greater than `i`.
    pub proof fn lemma_on_path_le(self, i: int, j: int)
        requires
            self.on_path(i, j),
            0 <= i,
        ensures
            0 <= j <= i,
        decreases i,
    {
        if i != j {
            self.lemma_on_path_le(self.parent_of(i), j);
        }
    }

    /// Every chain reaches the root.
    pub proof fn lemma_on_path_root(self, i: int)
        requires
            self.wf(),
            0 <= i < self.num_nodes(),
        ensures
            self.on_path(i, 0),
        decreases i,
    {
        if i != 0 {
            self.lemma_on_path_root(self.parent_of(i));
        }
    }

    /// A chain that reaches a non-root node continues through its parent.
    pub proof fn lemma_on_path_step(self, i: int, j: int)
        requires
            self.wf(),
            self.on_path(i, j),
            0 <= i < self.num_nodes(),
            0 < j,
        ensures
            self.on_path(i, self.parent_of(j)),
        decreases i,
    {
        if i != j {
            self.lemma_on_path_step(self.parent_of(i), j);
        } else {
            let p = self.parent_of(j);
            assert(self.on_path(p, p));
        }
    }

    /// Two stops on one chain are themselves chained.
    pub proof fn lemma_on_path_total(self, i: int, a: int, b: int)
        requires
            self.on_path(i, a),
            self.on_path(i, b),
            0 <= i,
        ensures
            self.on_path(a, b) || self.on_path(b, a),
        decreases i,
    {
        if i != a && i != b {
            self.lemma_on_path_total(self.parent_of(i), a, b);
        }
    }

    /// A visit sum reads only the entries' visit counts.
    proof fn lemma_sum_visits_same(a: Tree<T, U>, b: Tree<T, U>, s: Seq<usize>)
        requires
            forall|k: int|
                0 <= k < s.len() ==> b.nodes[(#[trigger] s[k]) as int].visits == a.nodes[s[k] as int].visits,
        ensures
            b.sum_visits(s) == a.sum_visits(s),
        decreases s.len(),
    {
        if s.len() > 0 {
            assert forall|k: int|
                0 <= k < s.drop_first().len() implies b.nodes[(#[trigger] s.drop_first()[k]) as int].visits
                == a.nodes[s.drop_first()[k] as int].visits by {
                assert(s.drop_first()[k] == s[k + 1]);
            }
            Self::lemma_sum_visits_same(a, b, s.drop_first());
        }
    }

    /// Appending an entry adds its visit count to the sum.
    proof fn lemma_sum_visits_push(self, s: Seq<usize>, x: usize)
        ensures
            self.sum_visits(s.push(x)) == self.sum_visits(s) + self.nodes[x as int].visits,
        decreases s.len(),
    {
        if s.len() == 0 {
            assert(s.push(x).drop_first() =~= Seq::<usize>::empty());
            assert(s.push(x)[0] == x);
            assert(self.sum_visits(Seq::<usize>::empty()) == 0);
            assert(self.sum_visits(s) == 0);
        } else {
            assert(s.push(x).drop_first() =~= s.drop_first().push(x));
            assert(s.push(x)[0] == s[0]);
            self.lemma_sum_visits_push(s.drop_first(), x);
        }
    }

    /// Across one backpropagation, the visit total of a strictly
    /// increasing list of one node's children grows by at most one: a
    /// root-ward chain passes through at most one child of any node.
    pub proof fn lemma_sum_after_update(
        pre: Tree<T, U>,
        post: Tree<T, U>,
        i: int,
        p: int,
        s: Seq<usize>,
    )
        requires
            pre.wf(),
            0 <= i < pre.num_nodes(),
            0 <= p,
            forall|k: int|
                0 <= k < s.len() ==> p < ((#[trigger] s[k]) as int) < pre.num_nodes()
                    && pre.nodes[s[k] as int].parent == Some(p as usize),
            forall|k1: int, k2: int|
                0 <= k1 < k2 < s.len() ==> (#[trigger] s[k1]) < (#[trigger] s[k2]),
            forall|j: int|
                0 <= j < pre.num_nodes() && pre.on_path(i, j)
                    ==> (#[trigger] post.nodes[j]).visits == pre.nodes[j].visits + 1,
            forall|j: int|
                0 <= j < pre.num_nodes() && !pre.on_path(i, j)
                    ==> (#[trigger] post.nodes[j]).visits == pre.nodes[j].visits,
        ensures
            post.sum_visits(s) <= pre.sum_visits(s) + 1,
            (forall|k: int| 0 <= k < s.len() ==> !pre.on_path(i, (#[trigger] s[k]) as int))
                ==> post.sum_visits(s) == pre.sum_visits(s),
        decreases s.len(),
    {
        if s.len() > 0 {
            let c0 = s[0] as int;
            let rest = s.drop_first();
            assert forall|k: int|
                0 <= k < rest.len() implies p < ((#[trigger] rest[k]) as int) < pre.num_nodes()
                && pre.nodes[rest[k] as int].parent == Some(p as usize) by {
                assert(rest[k] == s[k + 1]);
            }
            assert forall|k1: int, k2: int|
                0 <= k1 < k2 < rest.len() implies (#[trigger] rest[k1]) < (#[trigger] rest[k2]) by {
                assert(rest[k1] == s[k1 + 1] && rest[k2] == s[k2 + 1]);
            }
            Self::lemma_sum_after_update(pre, post, i, p, rest);
            if pre.on_path(i, c0) {
                assert forall|k: int|
                    0 <= k < rest.len() implies !pre.on_path(i, (#[trigger] rest[k]) as int) by {
                    let c2 = rest[k] as int;
                    assert(rest[k] == s[k + 1]);
                    if pre.on_path(i, c2) {
                        pre.lemma_on_path_total(i, c0, c2);
                        if pre.on_path(c0, c2) {
                            pre.lemma_on_path_le(c0, c2);
                        } else {
                            pre.lemma_on_path_le(p, c0);
                        }
                    }
                }
            }
        }
    }

    /// Both trees have the same nodes, links and payloads; only the
    /// statistics may differ.
    pub open spec fn same_skeleton(pre: Tree<T, U>, post: Tree<T, U>) -> bool {
        &&& post.num_nodes() == pre.num_nodes()
        &&& forall|j: int|
            0 <= j < pre.num_nodes() ==> ((#[trigger] post.nodes[j]).state == pre.nodes[j].state
                && post.nodes[j].action == pre.nodes[j].action && post.nodes[j].parent
                == pre.nodes[j].parent && post.nodes[j].children == pre.nodes[j].children)
    }

    /// `post` grows out of `pre`: every node of `pre` is still there with
    /// the same state, action and parent, and its child list has only
    /// been appended to. Statistics may differ.
    pub open spec fn extends(pre: Tree<T, U>, post: Tree<T, U>) -> bool {
        &&& pre.num_nodes() <= post.num_nodes()
        &&& forall|j: int|
            0 <= j < pre.num_nodes() ==> ((#[trigger] post.nodes[j]).state == pre.nodes[j].state
                && post.nodes[j].action == pre.nodes[j].action && post.nodes[j].parent
                == pre.nodes[j].parent && pre.nodes[j].children.len()
                <= post.nodes[j].children.len())
        &&& forall|j: int, k: int|
            0 <= j < pre.num_nodes() && 0 <= k < pre.nchildren(j) ==> #[trigger] post.child(j, k)
                == pre.child(j, k)
    }

    pub proof fn lemma_skeleton_trans(a: Tree<T, U>, b: Tree<T, U>, c: Tree<T, U>)
        requires
            Self::same_skeleton(a, b),
            Self::same_skeleton(b, c),
        ensures
            Self::same_skeleton(a, c),
    {
        assert forall|j: int|
            0 <= j < a.num_nodes() implies ((#[trigger] c.nodes[j]).state == a.nodes[j].state
            && c.nodes[j].action == a.nodes[j].action && c.nodes[j].parent == a.nodes[j].parent
            && c.nodes[j].children == a.nodes[j].children) by {
            assert(b.nodes[j].state == a.nodes[j].state && b.nodes[j].action == a.nodes[j].action
                && b.nodes[j].parent == a.nodes[j].parent && b.nodes[j].children
                == a.nodes[j].children);
        }
    }

    /// Keeping the skeleton is a special case of extending.
    pub proof fn lemma_skeleton_extends(pre: Tree<T, U>, post: Tree<T, U>)
        requires
            Self::same_skeleton(pre, post),
        ensures
            Self::extends(pre, post),
    {
        assert forall|j: int, k: int|
            0 <= j < pre.num_nodes() && 0 <= k < pre.nchildren(j) implies #[trigger] post.child(
            j,
            k,
        ) == pre.child(j, k) by {
            assert(post.nodes[j].children == pre.nodes[j].children);
        }
    }

    pub proof fn lemma_extends_trans(a: Tree<T, U>, b: Tree<T, U>, c: Tree<T, U>)
        requires
            Self::extends(a, b),
            Self::extends(b, c),
        ensures
            Self::extends(a, c),
    {
        assert forall|j: int, k: int|
            0 <= j < a.num_nodes() && 0 <= k < a.nchildren(j) implies #[trigger] c.child(j, k)
            == a.child(j, k) by {
            assert(b.child(j, k) == a.child(j, k));
        }
    }

    /// A fresh tree: just a root carrying the initial state.
    pub fn new(state: T) -> (t: Tree<T, U>)
        ensures
            t.wf(),
            t.num_nodes() == 1,
            t.nodes[0].state == state,
            t.nodes[0].action is None,
            t.nodes[0].parent is None,
            t.nodes[0].children@ == Seq::<usize>::empty(),
            t.nodes[0].visits == 0,
            t.nodes[0].value == 0,
    {
        Tree { nodes: vec![Node::new(state, None)] }
    }

    /// What `add_child` does: one new node at the end of the arena, born
    /// with the given state and action, zero statistics and no children,
    /// appended to the parent's child list; everything else untouched.
    pub open spec fn child_added(pre: Tree<T, U>, post: Tree<T, U>, p: int, state: T, action: U) -> bool {
        let n = pre.num_nodes();
        &&& post.num_nodes() == n + 1
        &&& forall|i: int| 0 <= i < n && i != p ==> post.nodes[i] == pre.nodes[i]
        &&& post.nodes[p].children@ == pre.nodes[p].children@.push(n as usize)
        &&& post.nodes[p].state == pre.nodes[p].state
        &&& post.nodes[p].action == pre.nodes[p].action
        &&& post.nodes[p].parent == pre.nodes[p].parent
        &&& post.nodes[p].visits == pre.nodes[p].visits
        &&& post.nodes[p].value == pre.nodes[p].value
        &&& post.nodes[n].state == state
        &&& post.nodes[n].action == Some(action)
        &&& post.nodes[n].parent == Some(p as usize)
        &&& post.nodes[n].children@ == Seq::<usize>::empty()
        &&& post.nodes[n].visits == 0
        &&& post.nodes[n].value == 0
    }

    /// Creating two children from the same `(state, action)` on the same
    /// parent never merges them: the parent gains two distinct arena
    /// slots, each carrying that state and action, each with statistics
    /// of its own.
    pub proof fn lemma_add_child_no_merge(
        t0: Tree<T, U>,
        t1: Tree<T, U>,
        t2: Tree<T, U>,
        p: int,
        state: T,
        action: U,
    )
        requires
            0 <= p < t0.num_nodes(),
            Self::child_added(t0, t1, p, state, action),
            Self::child_added(t1, t2, p, state, action),
        ensures
            t2.nchildren(p) == t0.nchildren(p) + 2,
            t2.child(p, t0.nchildren(p)) == t0.num_nodes(),
            t2.child(p, t0.nchildren(p) + 1) == t0.num_nodes() + 1,
            t2.child(p, t0.nchildren(p)) != t2.child(p, t0.nchildren(p) + 1),
            t2.nodes[t0.num_nodes()].state == state,
            t2.nodes[t0.num_nodes()].action == Some(action),
            t2.nodes[t0.num_nodes() + 1].state == state,
            t2.nodes[t0.num_nodes() + 1].action == Some(action),
    {
        let n0 = t0.num_nodes();
        assert(t2.nodes[n0] == t1.nodes[n0]);
        assert(t2.nodes[p].children@ == t0.nodes[p].children@.push(n0 as usize).push(
            (n0 + 1) as usize,
        ));
    }

    /// Create a new node for `state`, reached by `action`, as a child of
    /// `parent`. Identical data never merges: each call appends a new,
    /// independently tracked node.
    pub fn add_child(&mut self, parent: usize, state: T, action: U)
        requires
            old(self).wf(),
            parent < old(self).num_nodes(),
        ensures
            final(self).wf(),
            Self::child_added(*old(self), *final(self), parent as int, state, action),
    {
        let idx: usize = self.nodes.len();
        let mut node = Node::new(state, Some(action));
        node.parent = Some(parent);
        self.nodes.push(node);
        self.nodes[parent].children.push(idx);
        proof {
            let pre = *old(self);
            let n = pre.num_nodes();
            assert forall|i: int, j: int|
                0 <= i < self.num_nodes() && 0 <= j < self.nchildren(i) implies (i
                < #[trigger] self.child(i, j) && self.child(i, j) < self.num_nodes()
                && self.nodes[self.child(i, j)].parent == Some(i as usize)) by {
                if i == parent as int && j == self.nchildren(i) - 1 {
                    assert(self.child(i, j) == n);
                } else {
                    assert(self.child(i, j) == pre.child(i, j));
                    assert(i < pre.child(i, j) && pre.child(i, j) < n && pre.nodes[pre.child(
                        i,
                        j,
                    )].parent == Some(i as usize));
                    assert(self.nodes[self.child(i, j)].parent == pre.nodes[pre.child(
                        i,
                        j,
                    )].parent);
                }
            }
            assert forall|i2: int, j1: int, j2: int|
                0 <= i2 < self.num_nodes() && 0 <= j1 < j2 < self.nchildren(i2) implies #[trigger] self.child(
                i2,
                j1,
            ) < #[trigger] self.child(i2, j2) by {
                if i2 == parent as int && j2 == self.nchildren(i2) - 1 {
                    assert(self.child(i2, j1) == pre.child(i2, j1));
                    assert(pre.child(i2, j1) < n);
                    assert(self.child(i2, j2) == n);
                } else {
                    assert(self.child(i2, j1) == pre.child(i2, j1) && self.child(i2, j2)
                        == pre.child(i2, j2));
                }
            }
            assert forall|i2: int|
                0 <= i2 < self.num_nodes() implies self.sum_visits(
                (#[trigger] self.nodes[i2]).children@,
            ) <= self.nodes[i2].visits by {
                if i2 == n {
                    assert(self.nodes[i2].children@ =~= Seq::<usize>::empty());
                    assert(self.sum_visits(Seq::<usize>::empty()) == 0);
                } else {
                    let s0 = pre.nodes[i2].children@;
                    assert forall|k: int|
                        0 <= k < s0.len() implies self.nodes[(#[trigger] s0[k]) as int].visits
                        == pre.nodes[s0[k] as int].visits by {
                        assert(pre.child(i2, k) == s0[k]);
                        if s0[k] as int != parent as int {
                            assert(self.nodes[s0[k] as int] == pre.nodes[s0[k] as int]);
                        }
                    }
                    Self::lemma_sum_visits_same(pre, *self, s0);
                    if i2 == parent as int {
                        self.lemma_sum_visits_push(s0, idx);
                        assert(self.nodes[idx as int].visits == 0);
                    } else {
                        assert(self.nodes[i2].children@ == s0);
                    }
                }
            }
        }
    }
}

} // verus!
