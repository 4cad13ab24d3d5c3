//! The search engine: the four MCTS phases (selection by UCB1, expansion,
//! random rollout, backpropagation), the outer iteration loop and
//! principal-variation extraction.
//!
//! Backpropagation adds the same, un-negated reward at every node of the
//! path; there is no sign alternation by depth. A caller modeling an
//! adversarial, turn-taking domain must account for that at a higher
//! layer, for instance in how its state model assigns rewards.

use crate::model::GameState;
use crate::score::{spec_ucb1, ucb1_fp, value_in_range};
use crate::tree::Tree;
use vstd::prelude::*;

verus! {

/// Relies on rand::random: draws a fresh value from the thread-local
/// generator. Nothing is promised of the result; every caller must be
/// correct for every possible value.
pub assume_specification<T>[ rand::random::<T> ]() -> (r: T)
    where
        rand::distributions::Standard: rand::distributions::Distribution<T>,
;

/// The position of the first maximum of a sequence: a later element
/// displaces an earlier one only by being strictly greater.
pub open spec fn first_max_at(vs: Seq<int>) -> int
    decreases vs.len(),
{
    if vs.len() <= 1 {
        0
    } else {
        let p = first_max_at(vs.drop_last());
        if vs[vs.len() - 1] > vs[p] {
            vs.len() - 1
        } else {
            p
        }
    }
}

pub proof fn lemma_first_max_at(vs: Seq<int>)
    requires
        vs.len() >= 1,
    ensures
        0 <= first_max_at(vs) < vs.len(),
        forall|j: int| 0 <= j < vs.len() ==> #[trigger] vs[j] <= vs[first_max_at(vs)],
        forall|j: int| 0 <= j < first_max_at(vs) ==> #[trigger] vs[j] < vs[first_max_at(vs)],
    decreases vs.len(),
{
    if vs.len() > 1 {
        lemma_first_max_at(vs.drop_last());
        assert forall|j: int| 0 <= j < vs.len() - 1 implies vs[j] == vs.drop_last()[j] by {}
    }
}

/// The Monte Carlo Tree Search engine; owns the search tree.
pub struct MCTS<T: GameState<U>, U> {
    pub tree: Tree<T, U>,
}

impl<T, U> MCTS<T, U> where T: GameState<U>, U: Copy {
    /// Every node the engine has built is either unexpanded (no children)
    /// or fully expanded: one child per legal action of its state.
    pub open spec fn well_expanded(t: Tree<T, U>) -> bool {
        forall|i: int|
            0 <= i < t.num_nodes() ==> ((#[trigger] t.nchildren(i)) == 0 || t.nchildren(i)
                == t.nodes[i].state.spec_actions().len())
    }

    pub open spec fn wf(self) -> bool {
        self.tree.wf() && Self::well_expanded(self.tree)
    }

    pub open spec fn num_nodes(self) -> int {
        self.tree.num_nodes()
    }

    /// The UCB1 score of the non-root node `c`, as stored statistics and
    /// the parent's visit count determine it.
    pub open spec fn score_of(t: Tree<T, U>, c: int) -> int {
        spec_ucb1(
            t.nodes[c].value as int,
            t.nodes[c].visits as nat,
            t.nodes[t.parent_of(c)].visits as nat,
        )
    }

    /// Node `a` is strictly preferred to node `b` by selection: an
    /// unvisited node outranks every visited one, and two visited nodes
    /// compare by UCB1 score.
    pub open spec fn better(t: Tree<T, U>, a: int, b: int) -> bool {
        if t.nodes[a].visits == 0 {
            t.nodes[b].visits != 0
        } else {
            t.nodes[b].visits != 0 && Self::score_of(t, a) > Self::score_of(t, b)
        }
    }

    /// Statistics only move forward during a search, and only together:
    /// no node's visit count decreases, none grows by more than the
    /// number of iterations, and a node whose visit count did not change
    /// kept its value bit for bit.
    pub open spec fn stats_evolve(pre: Tree<T, U>, post: Tree<T, U>, iterations: int) -> bool {
        forall|j: int|
            0 <= j < pre.num_nodes() ==> (pre.nodes[j].visits <= (#[trigger] post.nodes[j]).visits
                <= pre.nodes[j].visits + iterations && (post.nodes[j].visits
                == pre.nodes[j].visits ==> post.nodes[j].value == pre.nodes[j].value))
    }

    proof fn lemma_stats_evolve_trans(
        a: Tree<T, U>,
        b: Tree<T, U>,
        c: Tree<T, U>,
        i1: int,
        i2: int,
    )
        requires
            Self::stats_evolve(a, b, i1),
            Self::stats_evolve(b, c, i2),
            a.num_nodes() <= b.num_nodes(),
            0 <= i1,
            0 <= i2,
        ensures
            Self::stats_evolve(a, c, i1 + i2),
    {
        assert forall|j: int|
            0 <= j < a.num_nodes() implies (a.nodes[j].visits <= (#[trigger] c.nodes[j]).visits
            <= a.nodes[j].visits + (i1 + i2) && (c.nodes[j].visits == a.nodes[j].visits
            ==> c.nodes[j].value == a.nodes[j].value)) by {
            assert(a.nodes[j].visits <= b.nodes[j].visits <= a.nodes[j].visits + i1);
        }
    }

    /// After the first expansion of a childless, non-terminal root, the
    /// root's children mirror its legal actions in order: the k-th child
    /// is the k-th freshly appended node, carries the k-th action, and
    /// holds the state that action leads to.
    pub open spec fn root_expanded_in_order(pre: Tree<T, U>, post: Tree<T, U>) -> bool {
        let acts = pre.nodes[0].state.spec_actions();
        let n = pre.num_nodes();
        &&& post.nchildren(0) == acts.len()
        &&& forall|k: int| 0 <= k < acts.len() ==> #[trigger] post.child(0, k) == n + k
        &&& forall|k: int|
            0 <= k < acts.len() ==> ((#[trigger] post.nodes[n + k]).action == Some(acts[k])
                && post.nodes[n + k].state == pre.nodes[0].state.spec_next(acts[k]))
    }

    /// A single iteration from a fresh, non-terminal root rolls out
    /// exactly one of the new children — the first, by the zero-visit
    /// priority rule: it alone carries the iteration's visit, the root
    /// accumulates exactly its reward, and its siblings stay untouched.
    pub open spec fn one_child_rolled_out(pre: Tree<T, U>, post: Tree<T, U>) -> bool {
        let acts = pre.nodes[0].state.spec_actions();
        let n = pre.num_nodes();
        &&& post.nodes[n].visits == 1
        &&& post.nodes[0].value == pre.nodes[0].value + post.nodes[n].value
        &&& forall|k: int|
            1 <= k < acts.len() ==> ((#[trigger] post.nodes[n + k]).visits == 0 && post.nodes[n
                + k].value == 0)
    }

    /// A fresh engine: a tree holding only the root state, no statistics.
    pub fn new(state: T) -> (m: MCTS<T, U>)
        ensures
            m.wf(),
            m.num_nodes() == 1,
            m.tree.nodes[0].state == state,
            m.tree.nodes[0].children@ == Seq::<usize>::empty(),
            m.tree.nodes[0].visits == 0,
            m.tree.nodes[0].value == 0,
    {
        MCTS { tree: Tree::new(state) }
    }

    /// The UCB1 score of the node `c` in Q16 fixed point, computed from
    /// its statistics and its parent's visit count.
    pub fn ucb1(&self, c: usize) -> (s: i128)
        requires
            self.wf(),
            0 < c < self.num_nodes(),
            self.tree.nodes[c as int].visits >= 1,
        ensures
            s == Self::score_of(self.tree, c as int),
    {
        let p: usize = match self.tree.nodes[c].parent {
            Some(p) => p,
            None => 0,  // unreachable: every non-root node has a parent
        };
        let pv: u64 = self.tree.nodes[p].visits;
        ucb1_fp(self.tree.nodes[c].value, self.tree.nodes[c].visits, pv)
    }

    /// What selection returns: `c` is the child of `i` at position `k`,
    /// no child is strictly preferred to it, and it is strictly preferred
    /// to every child before it — the first maximal child wins a tie.
    pub open spec fn selected(t: Tree<T, U>, i: int, c: int, k: int) -> bool {
        &&& 0 <= k < t.nchildren(i)
        &&& c == t.child(i, k)
        &&& forall|j: int|
            0 <= j < t.nchildren(i) ==> !Self::better(t, #[trigger] t.child(i, j), c)
        &&& forall|j: int| 0 <= j < k ==> Self::better(t, c, #[trigger] t.child(i, j))
    }

    /// Selection: among the children of node `i`, return the first
    /// unvisited child if there is one — an unvisited child has
    /// unconditional priority — and otherwise the first child with the
    /// maximal UCB1 score.
    pub fn select(&self, i: usize) -> (c: usize)
        requires
            self.wf(),
            (i as int) < self.num_nodes(),
            self.tree.nchildren(i as int) >= 1,
        ensures
            (i as int) < c < self.num_nodes(),
            exists|k: int| Self::selected(self.tree, i as int, c as int, k),
    {
        let n = self.tree.nodes[i].children.len();
        let mut j: usize = 0;
        while j < n
            invariant
                self.wf(),
                (i as int) < self.num_nodes(),
                n == self.tree.nchildren(i as int),
                j <= n,
                forall|m: int|
                    0 <= m < j ==> self.tree.nodes[#[trigger] self.tree.child(i as int, m)].visits
                        != 0,
            decreases n - j,
        {
            let cj = self.tree.nodes[i].children[j];
            proof {
                assert(self.tree.child(i as int, j as int) == cj as int);
            }
            if self.tree.nodes[cj].visits == 0 {
                proof {
                    assert(Self::selected(self.tree, i as int, cj as int, j as int));
                }
                return cj;
            }
            j = j + 1;
        }
        let c0 = self.tree.nodes[i].children[0];
        proof {
            assert(self.tree.child(i as int, 0) == c0 as int);
        }
        let mut best: usize = 0;
        let mut best_c: usize = c0;
        let mut best_s: i128 = self.ucb1(c0);
        let mut j2: usize = 1;
        while j2 < n
            invariant
                self.wf(),
                (i as int) < self.num_nodes(),
                n == self.tree.nchildren(i as int),
                1 <= n,
                forall|m: int|
                    0 <= m < n ==> self.tree.nodes[#[trigger] self.tree.child(i as int, m)].visits
                        != 0,
                1 <= j2 <= n,
                0 <= (best as int) < j2,
                best_c == self.tree.child(i as int, best as int),
                best_s == Self::score_of(self.tree, best_c as int),
                forall|m: int|
                    0 <= m < j2 ==> Self::score_of(
                        self.tree,
                        #[trigger] self.tree.child(i as int, m),
                    ) <= best_s,
                forall|m: int|
                    0 <= m < best ==> Self::score_of(
                        self.tree,
                        #[trigger] self.tree.child(i as int, m),
                    ) < best_s,
            decreases n - j2,
        {
            let cj = self.tree.nodes[i].children[j2];
            proof {
                assert(self.tree.child(i as int, j2 as int) == cj as int);
            }
            let s = self.ucb1(cj);
            if s > best_s {
                best = j2;
                best_c = cj;
                best_s = s;
            }
            j2 = j2 + 1;
        }
        proof {
            assert(Self::selected(self.tree, i as int, best_c as int, best as int));
        }
        best_c
    }

    /// What expansion does to the leaf `i`: one new child per legal
    /// action of its state, in action order, each born with the
    /// transition's state and zero statistics; nothing else changes.
    pub open spec fn expanded(pre: Tree<T, U>, post: Tree<T, U>, i: int) -> bool {
        let acts = pre.nodes[i].state.spec_actions();
        let n = pre.num_nodes();
        &&& post.num_nodes() == n + acts.len()
        &&& post.nchildren(i) == acts.len()
        &&& forall|k: int| 0 <= k < acts.len() ==> #[trigger] post.child(i, k) == n + k
        &&& forall|k: int|
            0 <= k < acts.len() ==> ((#[trigger] post.nodes[n + k]).state == pre.nodes[i].state.spec_next(
                acts[k],
            ) && post.nodes[n + k].action == Some(acts[k]) && post.nodes[n + k].parent == Some(
                i as usize,
            ) && post.nodes[n + k].children@ == Seq::<usize>::empty() && post.nodes[n + k].visits
                == 0 && post.nodes[n + k].value == 0)
        &&& forall|j: int| 0 <= j < n && j != i ==> post.nodes[j] == pre.nodes[j]
        &&& post.nodes[i].state == pre.nodes[i].state
        &&& post.nodes[i].action == pre.nodes[i].action
        &&& post.nodes[i].parent == pre.nodes[i].parent
        &&& post.nodes[i].visits == pre.nodes[i].visits
        &&& post.nodes[i].value == pre.nodes[i].value
    }

    /// Expansion: create one child of the unexpanded, non-terminal leaf
    /// `i` per legal action of its state. A state reached twice through
    /// different expansions is never merged.
    pub fn expand(&mut self, i: usize)
        requires
            old(self).wf(),
            (i as int) < old(self).num_nodes(),
            old(self).tree.nchildren(i as int) == 0,
            old(self).tree.nodes[i as int].state.spec_terminal() is None,
        ensures
            final(self).wf(),
            Self::expanded(old(self).tree, final(self).tree, i as int),
            1 <= final(self).tree.nchildren(i as int),
    {
        let ghost pre = self.tree;
        let state = self.tree.nodes[i].state.clone_state();
        let actions = state.get_actions();
        proof {
            state.lemma_actions_nonempty();
        }
        let mut k: usize = 0;
        while k < actions.len()
            invariant
                self.tree.wf(),
                pre.wf(),
                Self::well_expanded(pre),
                (i as int) < pre.num_nodes(),
                pre.nchildren(i as int) == 0,
                state == pre.nodes[i as int].state,
                actions@ == state.spec_actions(),
                k <= actions.len(),
                self.tree.num_nodes() == pre.num_nodes() + k,
                self.tree.nchildren(i as int) == k,
                forall|m: int|
                    0 <= m < k ==> #[trigger] self.tree.child(i as int, m) == pre.num_nodes() + m,
                forall|m: int|
                    0 <= m < k ==> ((#[trigger] self.tree.nodes[pre.num_nodes() + m]).state
                        == state.spec_next(actions@[m]) && self.tree.nodes[pre.num_nodes()
                        + m].action == Some(actions@[m]) && self.tree.nodes[pre.num_nodes()
                        + m].parent == Some(i) && self.tree.nodes[pre.num_nodes() + m].children@
                        == Seq::<usize>::empty() && self.tree.nodes[pre.num_nodes() + m].visits == 0
                        && self.tree.nodes[pre.num_nodes() + m].value == 0)
                ,
                forall|j: int|
                    0 <= j < pre.num_nodes() && j != i ==> #[trigger] self.tree.nodes[j]
                        == pre.nodes[j],
                self.tree.nodes[i as int].state == pre.nodes[i as int].state,
                self.tree.nodes[i as int].action == pre.nodes[i as int].action,
                self.tree.nodes[i as int].parent == pre.nodes[i as int].parent,
                self.tree.nodes[i as int].visits == pre.nodes[i as int].visits,
                self.tree.nodes[i as int].value == pre.nodes[i as int].value,
            decreases actions.len() - k,
        {
            let a = actions[k];
            proof {
                assert(state.spec_actions()[k as int] == a);
                assert(state.spec_actions().contains(a));
            }
            let next = state.get_next_state(a);
            let ghost before = self.tree;
            self.tree.add_child(i, next, a);
            proof {
                assert forall|m: int|
                    0 <= m < k + 1 implies #[trigger] self.tree.child(i as int, m)
                    == pre.num_nodes() + m by {
                    if m < k {
                        assert(before.child(i as int, m) == pre.num_nodes() + m);
                        assert(self.tree.nodes[i as int].children@[m]
                            == before.nodes[i as int].children@[m]);
                    }
                }
            }
            k = k + 1;
        }
        proof {
            assert forall|j: int|
                0 <= j < self.tree.num_nodes() implies ((#[trigger] self.tree.nchildren(j)) == 0
                || self.tree.nchildren(j) == self.tree.nodes[j].state.spec_actions().len()) by {
                if j == i {
                    assert(self.tree.nodes[j].state == state);
                    assert(self.tree.nchildren(j) == state.spec_actions().len());
                } else if j < pre.num_nodes() {
                    assert(self.tree.nodes[j] == pre.nodes[j]);
                    assert(pre.nchildren(j) == 0 || pre.nchildren(j)
                        == pre.nodes[j].state.spec_actions().len());
                } else {
                    let m = j - pre.num_nodes();
                    assert(self.tree.nodes[pre.num_nodes() + m].children@ == Seq::<
                        usize,
                    >::empty());
                }
            }
        }
    }

    /// The state after taking the actions of `path` in order, from `s`.
    pub open spec fn apply_path(s: T, path: Seq<U>) -> T
        decreases path.len(),
    {
        if path.len() == 0 {
            s
        } else {
            Self::apply_path(s.spec_next(path[0]), path.drop_first())
        }
    }

    /// `path` is a legal playout from `s`: every intermediate state is
    /// non-terminal and offers the action taken from it, and the final
    /// state is terminal with reward `reward`.
    pub open spec fn valid_rollout(s: T, path: Seq<U>, reward: i64) -> bool {
        &&& forall|k: int|
            0 <= k < path.len() ==> (#[trigger] Self::apply_path(
                s,
                path.take(k),
            )).spec_terminal() is None
        &&& forall|k: int|
            0 <= k < path.len() ==> Self::apply_path(s, path.take(k)).spec_actions().contains(
                #[trigger] path[k],
            )
        &&& Self::apply_path(s, path).spec_terminal() == Some(reward)
    }

    /// Taking one more action applies the transition to the final state.
    proof fn lemma_apply_path_push(s: T, path: Seq<U>, a: U)
        ensures
            Self::apply_path(s, path.push(a)) == Self::apply_path(s, path).spec_next(a),
        decreases path.len(),
    {
        if path.len() == 0 {
            assert(path.push(a).drop_first() =~= Seq::<U>::empty());
            assert(path.push(a)[0] == a);
            assert(Self::apply_path(s.spec_next(a), Seq::<U>::empty()) == s.spec_next(a));
            assert(Self::apply_path(s, path) == s);
        } else {
            assert(path.push(a).drop_first() =~= path.drop_first().push(a));
            assert(path.push(a)[0] == path[0]);
            Self::lemma_apply_path_push(s.spec_next(path[0]), path.drop_first(), a);
        }
    }

    /// Rollout: from the detached state `s`, repeatedly take a uniformly
    /// random legal action until a terminal state is reached; return that
    /// state's reward. The rollout never touches the tree. Whatever the
    /// random source yields, the result is the terminal reward at the end
    /// of some legal action sequence from `s`.
    pub fn simulate(&self, s: T) -> (r: i64)
        ensures
            exists|path: Seq<U>| #[trigger] Self::valid_rollout(s, path, r),
    {
        let ghost s0 = s;
        let ghost mut path = Seq::<U>::empty();
        let mut cur = s;
        let mut t = cur.is_terminal();
        while t.is_none()
            invariant
                cur == Self::apply_path(s0, path),
                t == cur.spec_terminal(),
                forall|k: int|
                    0 <= k < path.len() ==> (#[trigger] Self::apply_path(
                        s0,
                        path.take(k),
                    )).spec_terminal() is None,
                forall|k: int|
                    0 <= k < path.len() ==> Self::apply_path(s0, path.take(k)).spec_actions().contains(
                        #[trigger] path[k],
                    ),
            decreases cur.spec_measure(),
        {
            let actions = cur.get_actions();
            proof {
                cur.lemma_actions_nonempty();
            }
            let draw: usize = rand::random();
            let idx: usize = draw % actions.len();
            let a = actions[idx];
            proof {
                assert(cur.spec_actions()[idx as int] == a);
                assert(cur.spec_actions().contains(a));
                cur.lemma_measure_decreases(a);
                Self::lemma_apply_path_push(s0, path, a);
                assert forall|k: int|
                    0 <= k < path.len() + 1 implies ((#[trigger] Self::apply_path(
                    s0,
                    path.push(a).take(k),
                )).spec_terminal() is None && Self::apply_path(
                    s0,
                    path.push(a).take(k),
                ).spec_actions().contains(path.push(a)[k])) by {
                    if k < path.len() {
                        assert(path.push(a).take(k) =~= path.take(k));
                        assert((Self::apply_path(s0, path.take(k))).spec_terminal() is None);
                        assert(path.push(a)[k] == path[k]);
                    } else {
                        assert(path.push(a).take(k) =~= path);
                        assert(path.push(a)[k] == a);
                    }
                }
            }
            let next = cur.get_next_state(a);
            proof {
                path = path.push(a);
            }
            cur = next;
            t = cur.is_terminal();
        }
        match t {
            Some(reward) => {
                proof {
                    assert(Self::valid_rollout(s0, path, reward));
                }
                reward
            },
            None => 0,  // unreachable: the loop exits only on a terminal state
        }
    }

    /// The visit counts of node `i`'s children, in child order.
    pub open spec fn child_visit_seq(t: Tree<T, U>, i: int) -> Seq<int> {
        Seq::new(t.nchildren(i) as nat, |k: int| t.nodes[t.child(i, k)].visits as int)
    }

    /// The principal variation from node `i`: follow the most-visited
    /// child (first wins a tie) down to a childless node, collecting the
    /// actions along the way.
    pub open spec fn spec_pv(t: Tree<T, U>, i: int) -> Seq<U>
        decreases t.num_nodes() - i,
    {
        if 0 <= i < t.num_nodes() && t.nchildren(i) >= 1 {
            let k = first_max_at(Self::child_visit_seq(t, i));
            if 0 <= k < t.nchildren(i) {
                let c = t.child(i, k);
                if i < c < t.num_nodes() {
                    seq![t.nodes[c].action->0] + Self::spec_pv(t, c)
                } else {
                    Seq::empty()
                }
            } else {
                Seq::empty()
            }
        } else {
            Seq::empty()
        }
    }

    /// The arena indices the principal variation passes through, from
    /// `i` exclusive down to the childless node it ends at.
    pub open spec fn spec_pv_nodes(t: Tree<T, U>, i: int) -> Seq<int>
        decreases t.num_nodes() - i,
    {
        if 0 <= i < t.num_nodes() && t.nchildren(i) >= 1 {
            let k = first_max_at(Self::child_visit_seq(t, i));
            if 0 <= k < t.nchildren(i) {
                let c = t.child(i, k);
                if i < c < t.num_nodes() {
                    seq![c] + Self::spec_pv_nodes(t, c)
                } else {
                    Seq::empty()
                }
            } else {
                Seq::empty()
            }
        } else {
            Seq::empty()
        }
    }

    /// The principal variation is a strictly descending chain of child
    /// links: it never revisits a node, and its number of steps is the
    /// depth of the root-to-leaf path it walks, which is at most the
    /// tree's depth.
    pub proof fn lemma_pv_no_revisit(t: Tree<T, U>, i: int)
        requires
            t.wf(),
            0 <= i < t.num_nodes(),
        ensures
            Self::spec_pv_nodes(t, i).len() == Self::spec_pv(t, i).len(),
            Self::spec_pv_nodes(t, i).len() <= t.num_nodes() - 1 - i,
            forall|j: int|
                0 <= j < Self::spec_pv_nodes(t, i).len() ==> i < #[trigger] Self::spec_pv_nodes(
                    t,
                    i,
                )[j] < t.num_nodes(),
            forall|j1: int, j2: int|
                0 <= j1 < j2 < Self::spec_pv_nodes(t, i).len() ==> #[trigger] Self::spec_pv_nodes(
                    t,
                    i,
                )[j1] < #[trigger] Self::spec_pv_nodes(t, i)[j2],
            forall|j: int|
                0 <= j < Self::spec_pv_nodes(t, i).len() ==> t.parent_of(
                    #[trigger] Self::spec_pv_nodes(t, i)[j],
                ) == (if j == 0 {
                    i
                } else {
                    Self::spec_pv_nodes(t, i)[j - 1]
                }),
        decreases t.num_nodes() - i,
    {
        if t.nchildren(i) >= 1 {
            lemma_first_max_at(Self::child_visit_seq(t, i));
            let k = first_max_at(Self::child_visit_seq(t, i));
            let c = t.child(i, k);
            Self::lemma_pv_no_revisit(t, c);
            let rest = Self::spec_pv_nodes(t, c);
            assert forall|j: int|
                0 <= j < Self::spec_pv_nodes(t, i).len() implies i < #[trigger] Self::spec_pv_nodes(
                t,
                i,
            )[j] < t.num_nodes() by {
                if j > 0 {
                    assert(Self::spec_pv_nodes(t, i)[j] == rest[j - 1]);
                }
            }
            assert forall|j1: int, j2: int|
                0 <= j1 < j2 < Self::spec_pv_nodes(t, i).len() implies Self::spec_pv_nodes(
                t,
                i,
            )[j1] < Self::spec_pv_nodes(t, i)[j2] by {
                assert(Self::spec_pv_nodes(t, i)[j2] == rest[j2 - 1]);
                if j1 > 0 {
                    assert(Self::spec_pv_nodes(t, i)[j1] == rest[j1 - 1]);
                }
            }
            assert forall|j: int|
                0 <= j < Self::spec_pv_nodes(t, i).len() implies t.parent_of(
                #[trigger] Self::spec_pv_nodes(t, i)[j],
            ) == (if j == 0 {
                i
            } else {
                Self::spec_pv_nodes(t, i)[j - 1]
            }) by {
                if j > 0 {
                    assert(Self::spec_pv_nodes(t, i)[j] == rest[j - 1]);
                    if j > 1 {
                        assert(Self::spec_pv_nodes(t, i)[j - 1] == rest[j - 2]);
                    }
                }
            }
        }
    }

    /// Each node of the principal variation is one level deeper than the
    /// one before it.
    proof fn lemma_pv_nodes_depth(t: Tree<T, U>, i: int)
        requires
            t.wf(),
            0 <= i < t.num_nodes(),
        ensures
            forall|j: int|
                0 <= j < Self::spec_pv_nodes(t, i).len() ==> t.depth_of(
                    #[trigger] Self::spec_pv_nodes(t, i)[j],
                ) == t.depth_of(i) + j + 1,
        decreases t.num_nodes() - i,
    {
        if t.nchildren(i) >= 1 {
            lemma_first_max_at(Self::child_visit_seq(t, i));
            let k = first_max_at(Self::child_visit_seq(t, i));
            let c = t.child(i, k);
            assert(t.depth_of(c) == 1 + t.depth_of(i));
            Self::lemma_pv_nodes_depth(t, c);
            let rest = Self::spec_pv_nodes(t, c);
            assert forall|j: int|
                0 <= j < Self::spec_pv_nodes(t, i).len() implies t.depth_of(
                #[trigger] Self::spec_pv_nodes(t, i)[j],
            ) == t.depth_of(i) + j + 1 by {
                if j > 0 {
                    assert(Self::spec_pv_nodes(t, i)[j] == rest[j - 1]);
                }
            }
        }
    }

    /// The principal variation terminates in at most the tree's current
    /// depth steps: it recommends one action per level of the
    /// root-to-leaf path it walks.
    pub proof fn lemma_pv_length_le_depth(t: Tree<T, U>)
        requires
            t.wf(),
        ensures
            Self::spec_pv(t, 0).len() <= t.depth(),
    {
        Self::lemma_pv_no_revisit(t, 0);
        Self::lemma_pv_nodes_depth(t, 0);
        let pv = Self::spec_pv_nodes(t, 0);
        t.lemma_depth_nonneg(t.num_nodes());
        if pv.len() > 0 {
            let last = pv[pv.len() - 1];
            assert(t.depth_of(0) == 0);
            assert(t.depth_of(last) == pv.len());
            t.lemma_depth_le(last, t.num_nodes());
        }
    }

    /// Principal-variation extraction: starting at the root, repeatedly
    /// move to the child with the greatest visit count (ties broken by
    /// encounter order) until reaching a childless node; return the
    /// actions along that path. Performs no mutation.
    pub fn get_principal_variation(&self) -> (r: Vec<U>)
        requires
            self.wf(),
        ensures
            r@ == Self::spec_pv(self.tree, 0),
    {
        let ghost t = self.tree;
        let mut node: usize = 0;
        let mut actions: Vec<U> = Vec::new();
        while self.tree.nodes[node].children.len() > 0
            invariant
                self.wf(),
                t == self.tree,
                (node as int) < self.num_nodes(),
                actions@ + Self::spec_pv(t, node as int) == Self::spec_pv(t, 0),
            decreases self.num_nodes() - node,
        {
            let n = self.tree.nodes[node].children.len();
            let ghost vs = Self::child_visit_seq(t, node as int);
            let mut best: usize = 0;
            let mut best_c: usize = self.tree.nodes[node].children[0];
            proof {
                assert(t.child(node as int, 0) == best_c as int);
                assert(vs.take(1) =~= seq![vs[0]]);
            }
            let mut best_v: u64 = self.tree.nodes[best_c].visits;
            let mut j: usize = 1;
            while j < n
                invariant
                    self.wf(),
                    t == self.tree,
                    (node as int) < self.num_nodes(),
                    n == t.nchildren(node as int),
                    1 <= n,
                    vs == Self::child_visit_seq(t, node as int),
                    1 <= j <= n,
                    (best as int) < j,
                    best_c == t.child(node as int, best as int),
                    best_v == t.nodes[best_c as int].visits,
                    best as int == first_max_at(vs.take(j as int)),
                decreases n - j,
            {
                let cj = self.tree.nodes[node].children[j];
                proof {
                    assert(t.child(node as int, j as int) == cj as int);
                    assert(vs.take(j + 1).drop_last() =~= vs.take(j as int));
                    assert(vs.take(j + 1)[j as int] == vs[j as int]);
                    assert(vs[j as int] == t.nodes[cj as int].visits);
                }
                if self.tree.nodes[cj].visits > best_v {
                    best = j;
                    best_c = cj;
                    best_v = self.tree.nodes[cj].visits;
                }
                j = j + 1;
            }
            proof {
                assert(vs.take(n as int) =~= vs);
                lemma_first_max_at(vs);
            }
            let a: U = match self.tree.nodes[best_c].action {
                Some(a) => a,
                None => {
                    proof {
                        assert(false);  // unreachable: a child is never the root
                    }
                    return actions;
                },
            };
            let ghost prev = actions@;
            actions.push(a);
            proof {
                let c = best_c as int;
                assert(t.nodes[c].action->0 == a);
                assert(Self::spec_pv(t, node as int) == seq![a] + Self::spec_pv(t, c));
                assert(prev.push(a) + Self::spec_pv(t, c) =~= prev + (seq![a] + Self::spec_pv(
                    t,
                    c,
                )));
            }
            node = best_c;
        }
        proof {
            assert(Self::spec_pv(t, node as int) =~= Seq::<U>::empty());
            assert(actions@ + Self::spec_pv(t, node as int) =~= actions@);
        }
        actions
    }

    /// Expansion extends the tree.
    proof fn lemma_expanded_extends(pre: Tree<T, U>, post: Tree<T, U>, i: int)
        requires
            0 <= i < pre.num_nodes(),
            pre.nchildren(i) == 0,
            Self::expanded(pre, post, i),
        ensures
            Tree::extends(pre, post),
    {
        assert forall|j: int, k: int|
            0 <= j < pre.num_nodes() && 0 <= k < pre.nchildren(j) implies #[trigger] post.child(
            j,
            k,
        ) == pre.child(j, k) by {
            assert(post.nodes[j] == pre.nodes[j]);
        }
        assert forall|j: int|
            0 <= j < pre.num_nodes() implies ((#[trigger] post.nodes[j]).state
            == pre.nodes[j].state && post.nodes[j].action == pre.nodes[j].action
            && post.nodes[j].parent == pre.nodes[j].parent && pre.nodes[j].children.len()
            <= post.nodes[j].children.len()) by {
            if j != i {
                assert(post.nodes[j] == pre.nodes[j]);
            }
        }
    }

    /// The search loop: `iterations` cycles of descent by selection,
    /// expansion, random rollout and backpropagation against the shared
    /// tree. Every completed iteration backpropagates through the root
    /// exactly once, so the root's visit count grows by exactly
    /// `iterations`. A root that is already terminal degenerates to
    /// re-backpropagating its terminal reward; that is wasted work, not
    /// an error.
    #[verifier::rlimit(100)]
    pub fn search(&mut self, iterations: u32)
        requires
            old(self).wf(),
            old(self).tree.nodes[0].visits + iterations <= u64::MAX,
        ensures
            final(self).wf(),
            Tree::extends(old(self).tree, final(self).tree),
            final(self).tree.nodes[0].visits == old(self).tree.nodes[0].visits + iterations,
            Self::stats_evolve(old(self).tree, final(self).tree, iterations as int),
            iterations == 0 ==> final(self).tree == old(self).tree,
            old(self).tree.nodes[0].state.spec_terminal() matches Some(r) ==> (Tree::same_skeleton(
                old(self).tree,
                final(self).tree,
            ) && final(self).tree.nodes[0].value == old(self).tree.nodes[0].value + iterations * r
                && (forall|j: int|
                1 <= j < old(self).num_nodes() ==> #[trigger] final(self).tree.nodes[j] == old(
                    self,
                ).tree.nodes[j])),
            (old(self).tree.nchildren(0) == 0 && old(self).tree.nodes[0].state.spec_terminal() is None
                && iterations >= 1) ==> Self::root_expanded_in_order(
                old(self).tree,
                final(self).tree,
            ),
            (old(self).tree.nchildren(0) == 0 && old(self).tree.nodes[0].state.spec_terminal() is None
                && iterations == 1) ==> Self::one_child_rolled_out(
                old(self).tree,
                final(self).tree,
            ),
    {
        let ghost orig = self.tree;
        let mut it: u32 = 0;
        while it < iterations
            invariant
                self.wf(),
                it <= iterations,
                orig == old(self).tree,
                orig.wf(),
                Self::well_expanded(orig),
                orig.nodes[0].visits + iterations <= u64::MAX,
                Tree::extends(orig, self.tree),
                self.tree.nodes[0].visits == orig.nodes[0].visits + it,
                Self::stats_evolve(orig, self.tree, it as int),
                it == 0 ==> self.tree == orig,
                orig.nodes[0].state.spec_terminal() matches Some(r) ==> (Tree::same_skeleton(
                    orig,
                    self.tree,
                ) && self.tree.nodes[0].value == orig.nodes[0].value + it * r && (forall|j: int|
                    1 <= j < orig.num_nodes() ==> #[trigger] self.tree.nodes[j] == orig.nodes[j])),
                (orig.nchildren(0) == 0 && orig.nodes[0].state.spec_terminal() is None && it >= 1)
                    ==> Self::root_expanded_in_order(orig, self.tree),
                (orig.nchildren(0) == 0 && orig.nodes[0].state.spec_terminal() is None && it >= 1
                    && iterations == 1) ==> Self::one_child_rolled_out(orig, self.tree),
            decreases iterations - it,
        {
            let ghost before = self.tree;
            self.search_iteration();
            proof {
                Tree::lemma_extends_trans(orig, before, self.tree);
                Self::lemma_stats_evolve_trans(orig, before, self.tree, it as int, 1);
                if orig.nodes[0].state.spec_terminal() is Some {
                    let r = orig.nodes[0].state.spec_terminal()->0;
                    assert(before.nodes[0].state == orig.nodes[0].state);
                    Tree::lemma_skeleton_trans(orig, before, self.tree);
                    assert((it as int + 1) * r == it as int * r + r) by (nonlinear_arith);
                    assert forall|j: int|
                        1 <= j < orig.num_nodes() implies #[trigger] self.tree.nodes[j]
                        == orig.nodes[j] by {
                        assert(before.nodes[j] == orig.nodes[j]);
                    }
                }
                if orig.nchildren(0) == 0 && orig.nodes[0].state.spec_terminal() is None && it
                    >= 1 {
                    orig.nodes[0].state.lemma_actions_nonempty();
                    Self::lemma_root_order_preserved(orig, before, self.tree);
                }
            }
            it = it + 1;
        }
    }

    /// One full iteration: descend by selection, then either
    /// backpropagate a terminal state's reward, or expand the reached
    /// leaf, roll out one freshly created child and backpropagate the
    /// rollout's reward.
    #[verifier::rlimit(100)]
    fn search_iteration(&mut self)
        requires
            old(self).wf(),
            old(self).tree.nodes[0].visits < u64::MAX,
        ensures
            final(self).wf(),
            Tree::extends(old(self).tree, final(self).tree),
            final(self).tree.nodes[0].visits == old(self).tree.nodes[0].visits + 1,
            Self::stats_evolve(old(self).tree, final(self).tree, 1),
            old(self).tree.nchildren(0) >= 1 ==> final(self).tree.nchildren(0) == old(
                self,
            ).tree.nchildren(0),
            old(self).tree.nodes[0].state.spec_terminal() matches Some(r) ==> (Tree::same_skeleton(
                old(self).tree,
                final(self).tree,
            ) && final(self).tree.nodes[0].value == old(self).tree.nodes[0].value + r && (forall|
                j: int,
            |
                1 <= j < old(self).num_nodes() ==> #[trigger] final(self).tree.nodes[j] == old(
                    self,
                ).tree.nodes[j])),
            (old(self).tree.nchildren(0) == 0 && old(self).tree.nodes[0].state.spec_terminal() is None)
                ==> (Self::root_expanded_in_order(old(self).tree, final(self).tree)
                && Self::one_child_rolled_out(old(self).tree, final(self).tree)),
    {
        let ghost iter_start = self.tree;
        let mut node: usize = 0;
        let mut t: Option<i64> = self.tree.nodes[node].state.is_terminal();
        while t.is_none() && self.tree.nodes[node].children.len() > 0
            invariant
                self.wf(),
                (node as int) < self.num_nodes(),
                self.tree == iter_start,
                iter_start == old(self).tree,
                t == self.tree.nodes[node as int].state.spec_terminal(),
                iter_start.nchildren(0) == 0 ==> node == 0,
                iter_start.nodes[0].state.spec_terminal() is Some ==> node == 0,
            decreases self.num_nodes() - node,
        {
            node = self.select(node);
            t = self.tree.nodes[node].state.is_terminal();
        }
        match t {
            Some(reward) => {
                self.backpropagate(node, reward);
                proof {
                    Tree::lemma_skeleton_extends(iter_start, self.tree);
                    assert(self.tree.nodes[0].children == iter_start.nodes[0].children);
                    assert forall|j: int|
                        0 <= j < iter_start.num_nodes() implies (iter_start.nodes[j].visits
                        <= (#[trigger] self.tree.nodes[j]).visits <= iter_start.nodes[j].visits + 1
                        && (self.tree.nodes[j].visits == iter_start.nodes[j].visits
                            ==> self.tree.nodes[j].value == iter_start.nodes[j].value)) by {}
                    if iter_start.nodes[0].state.spec_terminal() is Some {
                        // the descent stayed at the terminal root, so only it was touched
                        assert(node == 0);
                        assert forall|j: int|
                            1 <= j < iter_start.num_nodes() implies #[trigger] self.tree.nodes[j]
                            == iter_start.nodes[j] by {
                            if iter_start.on_path(0, j) {
                                iter_start.lemma_on_path_le(0, j);
                            }
                        }
                    }
                }
            },
            None => {
                self.expand(node);
                let ghost mid = self.tree;
                proof {
                    Self::lemma_expanded_extends(iter_start, mid, node as int);
                }
                let child = self.select(node);
                proof {
                    if iter_start.nchildren(0) == 0 {
                        // all fresh children are unvisited, so the first one is chosen
                        let k0 = choose|k0: int|
                            Self::selected(mid, node as int, child as int, k0);
                        if k0 > 0 {
                            assert(Self::better(mid, child as int, mid.child(node as int, 0)));
                        }
                        assert(child == mid.child(0, 0));
                    }
                }
                let s = self.tree.nodes[child].state.clone_state();
                let reward = self.simulate(s);
                self.backpropagate(child, reward);
                proof {
                    Tree::lemma_skeleton_extends(mid, self.tree);
                    Tree::lemma_extends_trans(iter_start, mid, self.tree);
                    assert forall|j: int|
                        0 <= j < iter_start.num_nodes() implies (iter_start.nodes[j].visits
                        <= (#[trigger] self.tree.nodes[j]).visits <= iter_start.nodes[j].visits + 1
                        && (self.tree.nodes[j].visits == iter_start.nodes[j].visits
                            ==> self.tree.nodes[j].value == iter_start.nodes[j].value)) by {
                        if j == node as int {
                            assert(mid.nodes[j].visits == iter_start.nodes[j].visits
                                && mid.nodes[j].value == iter_start.nodes[j].value);
                        } else {
                            assert(mid.nodes[j] == iter_start.nodes[j]);
                        }
                    }
                    if iter_start.nchildren(0) >= 1 {
                        // the expanded leaf is not the root: its child list stands
                        assert(node != 0);
                        assert(mid.nodes[0] == iter_start.nodes[0]);
                        assert(self.tree.nodes[0].children == mid.nodes[0].children);
                    }
                    if iter_start.nchildren(0) == 0
                        && iter_start.nodes[0].state.spec_terminal() is None {
                        assert(node == 0);
                        assert(Self::root_expanded_in_order(iter_start, mid));
                        Self::lemma_root_order_after_skeleton(iter_start, mid, self.tree);
                        Self::lemma_one_child_after_first_rollout(
                            iter_start,
                            mid,
                            self.tree,
                            child as int,
                            reward as int,
                        );
                    }
                }
            },
        }
    }

    /// `root_expanded_in_order` survives an operation that keeps the
    /// skeleton (a rollout's backpropagation).
    proof fn lemma_root_order_after_skeleton(orig: Tree<T, U>, b: Tree<T, U>, c: Tree<T, U>)
        requires
            b.wf(),
            Self::root_expanded_in_order(orig, b),
            Tree::same_skeleton(b, c),
        ensures
            Self::root_expanded_in_order(orig, c),
    {
        let acts = orig.nodes[0].state.spec_actions();
        let n = orig.num_nodes();
        assert(c.nodes[0].children == b.nodes[0].children);
        assert forall|k: int| 0 <= k < acts.len() implies #[trigger] c.child(0, k) == n + k by {
            assert(b.child(0, k) == n + k);
        }
        assert forall|k: int|
            0 <= k < acts.len() implies ((#[trigger] c.nodes[n + k]).action == Some(acts[k])
            && c.nodes[n + k].state == orig.nodes[0].state.spec_next(acts[k])) by {
            assert(b.child(0, k) == n + k);
            assert(n + k < b.num_nodes());
            assert(c.nodes[n + k].action == b.nodes[n + k].action);
            assert(c.nodes[n + k].state == b.nodes[n + k].state);
        }
    }

    /// `root_expanded_in_order` survives any later iteration, which only
    /// extends the tree and leaves the root's child count alone.
    proof fn lemma_root_order_preserved(orig: Tree<T, U>, b: Tree<T, U>, c: Tree<T, U>)
        requires
            b.wf(),
            Self::root_expanded_in_order(orig, b),
            Tree::extends(b, c),
            c.nchildren(0) == b.nchildren(0),
        ensures
            Self::root_expanded_in_order(orig, c),
    {
        let acts = orig.nodes[0].state.spec_actions();
        let n = orig.num_nodes();
        assert forall|k: int| 0 <= k < acts.len() implies #[trigger] c.child(0, k) == n + k by {
            assert(b.child(0, k) == n + k);
            assert(c.child(0, k) == b.child(0, k));
        }
        assert forall|k: int|
            0 <= k < acts.len() implies ((#[trigger] c.nodes[n + k]).action == Some(acts[k])
            && c.nodes[n + k].state == orig.nodes[0].state.spec_next(acts[k])) by {
            assert(b.child(0, k) == n + k);
            assert(n + k < b.num_nodes());
            assert(c.nodes[n + k].action == b.nodes[n + k].action && c.nodes[n + k].state
                == b.nodes[n + k].state);
        }
    }

    /// After the first iteration's rollout from the first fresh child,
    /// that child alone carries the new visit and reward.
    proof fn lemma_one_child_after_first_rollout(
        orig: Tree<T, U>,
        mid: Tree<T, U>,
        c: Tree<T, U>,
        child: int,
        reward: int,
    )
        requires
            orig.wf(),
            mid.wf(),
            orig.nchildren(0) == 0,
            orig.nodes[0].state.spec_terminal() is None,
            Self::expanded(orig, mid, 0),
            child == mid.child(0, 0),
            c.num_nodes() == mid.num_nodes(),
            forall|j: int|
                0 <= j < mid.num_nodes() && mid.on_path(child, j)
                    ==> (#[trigger] c.nodes[j]).visits == mid.nodes[j].visits + 1
                    && c.nodes[j].value == mid.nodes[j].value + reward,
            forall|j: int|
                0 <= j < mid.num_nodes() && !mid.on_path(child, j) ==> #[trigger] c.nodes[j]
                    == mid.nodes[j],
        ensures
            Self::one_child_rolled_out(orig, c),
    {
        let acts = orig.nodes[0].state.spec_actions();
        let n = orig.num_nodes();
        orig.nodes[0].state.lemma_actions_nonempty();
        assert(child == n);
        mid.lemma_on_path_root(child);
        assert(c.nodes[n].visits == mid.nodes[n].visits + 1);
        assert(c.nodes[0].value == mid.nodes[0].value + reward);
        assert forall|k: int|
            1 <= k < acts.len() implies ((#[trigger] c.nodes[n + k]).visits == 0 && c.nodes[n
            + k].value == 0) by {
            if mid.on_path(child, n + k) {
                mid.lemma_on_path_le(child, n + k);
            }
            assert(c.nodes[n + k] == mid.nodes[n + k]);
        }
    }

    /// Walk from node `i` up to and including the root; at every node on
    /// the path add 1 to `visits` and the reward to `value`, and touch
    /// nothing else. The two statistics are only ever updated together,
    /// which keeps `value / visits` a mean over exactly the rewards that
    /// passed through the node.
    pub fn backpropagate(&mut self, i: usize, reward: i64)
        requires
            old(self).wf(),
            (i as int) < old(self).num_nodes(),
            old(self).tree.nodes[0].visits < u64::MAX,
        ensures
            final(self).wf(),
            Tree::same_skeleton(old(self).tree, final(self).tree),
            forall|j: int|
                0 <= j < old(self).num_nodes() && old(self).tree.on_path(i as int, j)
                    ==> (#[trigger] final(self).tree.nodes[j]).visits == old(self).tree.nodes[j].visits
                    + 1 && final(self).tree.nodes[j].value == old(self).tree.nodes[j].value
                    + reward,
            forall|j: int|
                0 <= j < old(self).num_nodes() && !old(self).tree.on_path(i as int, j)
                    ==> #[trigger] final(self).tree.nodes[j] == old(self).tree.nodes[j],
            final(self).tree.nodes[0].visits == old(self).tree.nodes[0].visits + 1,
    {
        let ghost pre = self.tree;
        let mut cur: usize = i;
        let mut done: bool = false;
        while !done
            invariant
                pre.wf(),
                pre == old(self).tree,
                (i as int) < pre.num_nodes(),
                pre.nodes[0].visits < u64::MAX,
                Tree::same_skeleton(pre, self.tree),
                !done ==> cur < pre.num_nodes(),
                !done ==> pre.on_path(i as int, cur as int),
                !done ==> forall|j: int|
                    0 <= j < pre.num_nodes() && pre.on_path(i as int, j) && !pre.on_path(
                        cur as int,
                        j,
                    ) ==> (#[trigger] self.tree.nodes[j]).visits == pre.nodes[j].visits + 1
                        && self.tree.nodes[j].value == pre.nodes[j].value + reward,
                !done ==> forall|j: int|
                    0 <= j < pre.num_nodes() && (!pre.on_path(i as int, j) || pre.on_path(
                        cur as int,
                        j,
                    )) ==> #[trigger] self.tree.nodes[j] == pre.nodes[j],
                done ==> forall|j: int|
                    0 <= j < pre.num_nodes() && pre.on_path(i as int, j)
                        ==> (#[trigger] self.tree.nodes[j]).visits == pre.nodes[j].visits + 1
                        && self.tree.nodes[j].value == pre.nodes[j].value + reward,
                done ==> forall|j: int|
                    0 <= j < pre.num_nodes() && !pre.on_path(i as int, j)
                        ==> #[trigger] self.tree.nodes[j] == pre.nodes[j],
            decreases (if done { 0int } else { cur as int + 1 }),
        {
            proof {
                assert(self.tree.nodes[cur as int] == pre.nodes[cur as int]);
                pre.lemma_on_path_le(i as int, cur as int);
            }
            self.tree.nodes[cur].visits = self.tree.nodes[cur].visits + 1;
            self.tree.nodes[cur].value = self.tree.nodes[cur].value + reward as i128;
            let parent_link: Option<usize> = self.tree.nodes[cur].parent;
            proof {
                let t = self.tree;
                let c = cur as int;
                assert forall|j: int|
                    0 <= j < pre.num_nodes() && pre.on_path(c, j) && j != c implies pre.on_path(
                    pre.parent_of(c),
                    j,
                ) by {}
            }
            match parent_link {
                Some(p) => {
                    proof {
                        pre.lemma_on_path_step(i as int, cur as int);
                        assert forall|j: int|
                            0 <= j < pre.num_nodes() && pre.on_path(pre.parent_of(cur as int), j)
                                implies j != cur as int by {
                            pre.lemma_on_path_le(pre.parent_of(cur as int), j);
                        }
                    }
                    cur = p;
                },
                None => {
                    proof {
                        assert(cur == 0);
                        assert forall|j: int|
                            0 <= j < pre.num_nodes() && pre.on_path(cur as int, j) implies j
                            == cur as int by {
                            pre.lemma_on_path_le(cur as int, j);
                        }
                    }
                    done = true;
                },
            }
        }
        proof {
            pre.lemma_on_path_root(i as int);
            assert forall|j: int| 1 <= j < self.num_nodes() implies (#[trigger] self.tree.nodes[j]).visits
                <= self.tree.nodes[self.tree.parent_of(j)].visits by {
                let p = pre.parent_of(j);
                if pre.on_path(i as int, j) {
                    pre.lemma_on_path_step(i as int, j);
                }
            }
            assert forall|j: int| 0 <= j < self.num_nodes() implies (#[trigger] self.tree.nodes[j]).visits
                <= self.tree.nodes[0].visits by {}
            assert forall|j: int| 0 <= j < self.num_nodes() implies value_in_range(
                (#[trigger] self.tree.nodes[j]).value as int,
                self.tree.nodes[j].visits as nat,
            ) by {}
            assert forall|i2: int, j2: int|
                0 <= i2 < self.tree.num_nodes() && 0 <= j2 < self.tree.nchildren(i2) implies (i2
                < #[trigger] self.tree.child(i2, j2) && self.tree.child(i2, j2)
                < self.tree.num_nodes() && self.tree.nodes[self.tree.child(i2, j2)].parent == Some(
                i2 as usize,
            )) by {
                assert(self.tree.nodes[i2].children == pre.nodes[i2].children);
                assert(pre.child(i2, j2) == self.tree.child(i2, j2));
                assert(self.tree.nodes[pre.child(i2, j2)].parent == pre.nodes[pre.child(
                    i2,
                    j2,
                )].parent);
            }
            assert forall|j: int|
                0 <= j < self.tree.num_nodes() implies ((#[trigger] self.tree.nchildren(j)) == 0
                || self.tree.nchildren(j) == self.tree.nodes[j].state.spec_actions().len()) by {
                assert(self.tree.nodes[j].children == pre.nodes[j].children);
                assert(self.tree.nodes[j].state == pre.nodes[j].state);
                assert(pre.nchildren(j) == 0 || pre.nchildren(j)
                    == pre.nodes[j].state.spec_actions().len());
            }
            assert forall|i2: int, j1: int, j2: int|
                0 <= i2 < self.num_nodes() && 0 <= j1 < j2 < self.tree.nchildren(i2)
                implies #[trigger] self.tree.child(i2, j1) < #[trigger] self.tree.child(
                i2,
                j2,
            ) by {
                assert(self.tree.nodes[i2].children == pre.nodes[i2].children);
                assert(self.tree.child(i2, j1) == pre.child(i2, j1) && self.tree.child(i2, j2)
                    == pre.child(i2, j2));
            }
            assert forall|ii: int|
                0 <= ii < self.num_nodes() implies self.tree.sum_visits(
                (#[trigger] self.tree.nodes[ii]).children@,
            ) <= self.tree.nodes[ii].visits by {
                let s = pre.nodes[ii].children@;
                assert(self.tree.nodes[ii].children@ == s);
                assert forall|k: int|
                    0 <= k < s.len() implies ii < ((#[trigger] s[k]) as int) < pre.num_nodes()
                    && pre.nodes[s[k] as int].parent == Some(ii as usize) by {
                    assert(pre.child(ii, k) == s[k]);
                }
                assert forall|k1: int, k2: int|
                    0 <= k1 < k2 < s.len() implies (#[trigger] s[k1]) < (#[trigger] s[k2]) by {
                    assert(pre.child(ii, k1) == s[k1] && pre.child(ii, k2) == s[k2]);
                }
                Tree::lemma_sum_after_update(pre, self.tree, i as int, ii, s);
                if !pre.on_path(i as int, ii) {
                    assert forall|k: int|
                        0 <= k < s.len() implies !pre.on_path(i as int, (#[trigger] s[k]) as int) by {
                        if pre.on_path(i as int, s[k] as int) {
                            pre.lemma_on_path_step(i as int, s[k] as int);
                        }
                    }
                }
            }
        }
    }
}

} // verus!
