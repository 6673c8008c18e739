//! The MCTS engine: one decision over one tree, generic over the game.
//!
//! Each iteration clones the base position, walks and extends the tree
//! (selection and expansion), simulates to a terminal outcome (rollout),
//! and folds the result back along the traversal path (backpropagation).
//! After the iteration budget, the root child with the most visits is
//! the recommended move.

use crate::game::Game;
use crate::game::GameError;
use crate::rng::rng_below;
use crate::score::MoveScore;
use crate::score::sat_add;
use crate::score::sat_add_spec;
use crate::tree::MctsTree;
use crate::uct::uct;
use crate::uct::uct_spec;
use vstd::prelude::*;

verus! {

/// Why a decision was abandoned as a whole. None of these is expected
/// in normal operation: each marks a game-contract defect or an
/// exhausted safety budget, and the decision is not retried.
#[derive(Debug, Clone, Copy, PartialEq, Eq, Structural)]
pub enum SearchError {
    /// The game refused a move the engine drew from `possible_moves`.
    GameFault(GameError),
    /// A position that was not reported terminal offered no legal move.
    NoLegalMoves,
    /// A single rollout ran past its step budget without terminating.
    RolloutLimitReached,
    /// No iteration ran, so the root has no children to recommend from.
    NothingExplored,
}

/// Steps a single rollout may take before the decision is abandoned.
pub const ROLLOUT_LIMIT: usize = 1000000;

/// `b` extends `a` without touching what `a` already holds: every old
/// node keeps its move, every old child list is a prefix of the new one.
pub open spec fn tree_grows<M>(a: &MctsTree<M>, b: &MctsTree<M>) -> bool {
    &&& a.nodes@.len() <= b.nodes@.len()
    &&& a.children@.len() <= b.children@.len()
    &&& forall|i: int|
        0 <= i < a.nodes@.len() ==> (#[trigger] b.nodes@[i]).placement_move
            == a.nodes@[i].placement_move
    &&& forall|i: int|
        0 <= i < a.children@.len() ==> (#[trigger] a.children@[i]@).is_prefix_of(b.children@[i]@)
}

/// `b` grows out of `a` and also keeps every old node's statistics;
/// every node added since `a` is fresh (zero visits, zero score).
pub open spec fn tree_extends<M>(a: &MctsTree<M>, b: &MctsTree<M>) -> bool {
    &&& tree_grows(a, b)
    &&& forall|i: int| 0 <= i < a.nodes@.len() ==> #[trigger] b.nodes@[i] == a.nodes@[i]
    &&& forall|i: int|
        a.nodes@.len() <= i < b.nodes@.len() ==> (#[trigger] b.nodes@[i]).visits == 0
            && b.nodes@[i].score == 0
}

pub proof fn lemma_tree_grows_trans<M>(a: &MctsTree<M>, b: &MctsTree<M>, c: &MctsTree<M>)
    requires
        tree_grows(a, b),
        tree_grows(b, c),
    ensures
        tree_grows(a, c),
{
    assert forall|i: int| 0 <= i < a.children@.len() implies (#[trigger] a.children@[i]@)
        .is_prefix_of(c.children@[i]@) by {
        assert(a.children@[i]@.is_prefix_of(b.children@[i]@));
        assert(b.children@[i]@.is_prefix_of(c.children@[i]@));
        assert(a.children@[i]@ =~= c.children@[i]@.subrange(0, a.children@[i]@.len() as int));
    }
}

pub proof fn lemma_tree_extends_trans<M>(a: &MctsTree<M>, b: &MctsTree<M>, c: &MctsTree<M>)
    requires
        tree_extends(a, b),
        tree_extends(b, c),
    ensures
        tree_extends(a, c),
{
    lemma_tree_grows_trans(a, b, c);
}

/// A traversal path: starts at the root, stays inside the arena, and
/// each step descends into a child of the previous node.
pub open spec fn valid_path<M>(t: &MctsTree<M>, path: Seq<(usize, MoveScore)>) -> bool {
    &&& path.len() >= 1
    &&& path[0].0 == 0usize
    &&& forall|i: int| 0 <= i < path.len() ==> (#[trigger] path[i].0) < t.nodes@.len()
    &&& forall|i: int|
        0 <= i < path.len() - 1 ==> t.children@[#[trigger] path[i].0 as int]@.contains(
            path[i + 1].0,
        )
}

/// In a well-formed tree a path's node indices strictly increase, so no
/// node appears twice on it.
pub proof fn lemma_valid_path_increases<M>(t: &MctsTree<M>, path: Seq<(usize, MoveScore)>)
    requires
        t.wf(),
        valid_path(t, path),
    ensures
        forall|i: int, j: int| 0 <= i < j < path.len() ==> (#[trigger] path[i].0) < (
        #[trigger] path[j].0),
    decreases path.len(),
{
    if path.len() > 1 {
        let front = path.drop_last();
        assert(valid_path(t, front));
        lemma_valid_path_increases(t, front);
        let k = path.len() - 2;
        assert(t.children@[path[k].0 as int]@.contains(path[k + 1].0));
        assert forall|i: int, j: int| 0 <= i < j < path.len() implies (#[trigger] path[i].0) < (
        #[trigger] path[j].0) by {
            if j < path.len() - 1 {
                assert(front[i].0 < front[j].0);
            } else {
                if i < k {
                    assert(front[i].0 < front[k].0);
                }
            }
        }
    }
}

/// The UCT priority of the `j`-th child of `parent` in tree `t`: the
/// scorer applied to that child's statistics, with the parent's own
/// visit count as the total.
pub open spec fn child_priority_in<M>(t: &MctsTree<M>, parent: int, j: int) -> int {
    let c = t.children@[parent]@[j] as int;
    uct_spec(
        t.nodes@[c].score as int,
        t.nodes@[c].visits as nat,
        t.nodes@[parent].visits as nat,
    )
}

/// `c` stands at position `j` of `parent`'s child list, carries the
/// maximal UCT priority there, and every earlier child carries strictly
/// less.
pub open spec fn first_uct_choice_at<M>(t: &MctsTree<M>, parent: int, c: int, j: int) -> bool {
    &&& 0 <= j < t.children@[parent]@.len()
    &&& c == t.children@[parent]@[j]
    &&& forall|k: int|
        0 <= k < t.children@[parent]@.len() ==> #[trigger] child_priority_in(t, parent, k)
            <= child_priority_in(t, parent, j)
    &&& forall|k: int|
        0 <= k < j ==> #[trigger] child_priority_in(t, parent, k) < child_priority_in(
            t,
            parent,
            j,
        )
}

/// Whether `c` is the child selection descends into at `parent`: the
/// first child with maximal UCT priority.
pub open spec fn is_first_uct_choice<M>(t: &MctsTree<M>, parent: int, c: int) -> bool {
    exists|j: int| first_uct_choice_at(t, parent, c, j)
}

/// All growth from `a` to `b` happened at the single node `p`: every
/// other old child list is unchanged, and every node added since `a` is
/// a child of `p`.
pub open spec fn expansion_at<M>(a: &MctsTree<M>, b: &MctsTree<M>, p: int) -> bool {
    &&& 0 <= p < a.children@.len()
    &&& forall|i: int|
        0 <= i < a.children@.len() && i != p ==> b.children@[i]@ == #[trigger] a.children@[i]@
    &&& forall|x: int|
        a.nodes@.len() <= x < b.nodes@.len() ==> b.children@[p]@.contains(#[trigger] (x as usize))
    &&& forall|j: int|
        a.children@[p]@.len() <= j < b.children@[p]@.len() ==> (#[trigger] b.children@[p]@[j])
            >= a.nodes@.len()
}

/// The total visit count over the first `upto` children of `parent`.
pub open spec fn child_visit_sum<M>(t: &MctsTree<M>, parent: int, upto: int) -> int
    decreases upto,
{
    if upto <= 0 {
        0
    } else {
        child_visit_sum(t, parent, upto - 1) + t.nodes@[t.children@[parent]@[upto - 1] as int].visits
    }
}

/// A selection walk keeps the root children's visit total: old children
/// keep their statistics, and any child appended by its expansion is
/// fresh.
proof fn lemma_visit_sum_preserved<M>(a: &MctsTree<M>, b: &MctsTree<M>, p: int, upto: int)
    requires
        a.wf(),
        b.wf(),
        tree_extends(a, b),
        expansion_at(a, b, p),
        0 <= upto <= b.children@[0]@.len(),
    ensures
        child_visit_sum(b, 0, upto) == child_visit_sum(
            a,
            0,
            if upto <= a.children@[0]@.len() {
                upto
            } else {
                a.children@[0]@.len() as int
            },
        ),
    decreases upto,
{
    if upto > 0 {
        lemma_visit_sum_preserved(a, b, p, upto - 1);
        let e = b.children@[0]@[upto - 1];
        assert(a.children@[0]@.is_prefix_of(b.children@[0]@));
        if upto - 1 < a.children@[0]@.len() {
            assert(a.children@[0]@ =~= b.children@[0]@.subrange(0, a.children@[0]@.len() as int));
            assert(a.children@[0]@[upto - 1] == e);
            assert(e < a.nodes@.len());
            assert(b.nodes@[e as int] == a.nodes@[e as int]);
        } else {
            assert(p == 0) by {
                if p != 0 {
                    assert(b.children@[0]@ == a.children@[0]@);
                }
            }
            assert(e >= a.nodes@.len());
            assert(b.nodes@[e as int].visits == 0);
        }
    }
}

/// Bumping the visits of the child at one position by one raises the
/// children's visit total by exactly one.
proof fn lemma_visit_sum_bump<M>(a: &MctsTree<M>, b: &MctsTree<M>, c: int, w: int, upto: int)
    requires
        a.children@.len() == b.children@.len(),
        forall|i: int| 0 <= i < a.children@.len() ==> b.children@[i]@ == #[trigger] a.children@[i]@,
        a.children@.len() >= 1,
        0 <= w < a.children@[0]@.len(),
        a.children@[0]@[w] == c,
        b.nodes@[c].visits == a.nodes@[c].visits + 1,
        forall|k: int|
            0 <= k < a.children@[0]@.len() && k != w ==> b.nodes@[(
            #[trigger] a.children@[0]@[k]) as int].visits == a.nodes@[a.children@[0]@[k] as int].visits,
        0 <= upto <= a.children@[0]@.len(),
    ensures
        child_visit_sum(b, 0, upto) == child_visit_sum(a, 0, upto) + (if w < upto {
            1int
        } else {
            0
        }),
    decreases upto,
{
    if upto > 0 {
        lemma_visit_sum_bump(a, b, c, w, upto - 1);
    }
}

/// A tree extends itself.
pub proof fn lemma_tree_extends_refl<M>(t: &MctsTree<M>)
    ensures
        tree_extends(t, t),
{
    assert forall|i: int| 0 <= i < t.children@.len() implies (#[trigger] t.children@[i]@)
        .is_prefix_of(t.children@[i]@) by {
        assert(t.children@[i]@ =~= t.children@[i]@.subrange(0, t.children@[i]@.len() as int));
    }
}

/// A well-formed engine: a well-formed tree rooted at index 0 whose
/// root counts at least as many visits as any node (each backpropagation
/// pass touches the root).
pub struct Mcts<G: Game> {
    pub tree: MctsTree<G::Move>,
    pub player_id: G::Player,
    pub root: usize,
}

impl<G: Game> Mcts<G> {
    pub open spec fn wf(&self) -> bool {
        &&& self.tree.wf()
        &&& self.root == 0usize
        &&& forall|i: int|
            0 <= i < self.tree.nodes@.len() ==> (#[trigger] self.tree.nodes@[i].visits)
                <= self.tree.nodes@[0].visits
    }

    /// A fresh engine evaluating for `player_id`: a tree holding only
    /// the unvisited root, which carries the game's placeholder move.
    pub fn new(player_id: G::Player) -> (r: Self)
        ensures
            r.wf(),
            r.player_id == player_id,
            r.tree.nodes@.len() == 1,
            r.tree.nodes@[0].placement_move == G::spec_placeholder(),
            r.tree.nodes@[0].visits == 0,
            r.tree.nodes@[0].score == 0,
            r.tree.children@[0]@.len() == 0,
    {
        Mcts { tree: MctsTree::new(G::placeholder_move()), player_id, root: 0 }
    }

    /// The UCT priority of the `j`-th child of `parent`, as the scorer
    /// computes it from the tree's statistics.
    pub open spec fn child_priority(&self, parent: int, j: int) -> int {
        child_priority_in(&self.tree, parent, j)
    }

    /// The child of `parent` with the greatest UCT priority, ties going
    /// to the first such child in the list; `None` iff `parent` has no
    /// children.
    pub fn pick_best_child(&self, parent: usize) -> (r: Option<usize>)
        requires
            self.wf(),
            parent < self.tree.nodes@.len(),
        ensures
            (r is None) <==> self.tree.children@[parent as int]@.len() == 0,
            r matches Some(c) ==> is_first_uct_choice(&self.tree, parent as int, c as int),
    {
        let list_len = self.tree.children[parent].len();
        if list_len == 0 {
            return None;
        }
        let total = self.tree.nodes[parent].visits;
        let c0 = self.tree.children[parent][0];
        let mut best_j: usize = 0;
        let mut best_v: i64 = uct(self.tree.nodes[c0].score, self.tree.nodes[c0].visits, total);
        let mut j: usize = 1;
        while j < list_len
            invariant
                self.wf(),
                parent < self.tree.nodes@.len(),
                list_len == self.tree.children@[parent as int]@.len(),
                total == self.tree.nodes@[parent as int].visits,
                1 <= j <= list_len,
                0 <= best_j < j,
                best_v as int == child_priority_in(&self.tree, parent as int, best_j as int),
                forall|k: int|
                    0 <= k < j ==> #[trigger] child_priority_in(&self.tree, parent as int, k)
                        <= best_v as int,
                forall|k: int|
                    0 <= k < best_j ==> #[trigger] child_priority_in(&self.tree, parent as int, k)
                        < best_v as int,
            decreases list_len - j,
        {
            let c = self.tree.children[parent][j];
            let v = uct(self.tree.nodes[c].score, self.tree.nodes[c].visits, total);
            if v > best_v {
                best_v = v;
                best_j = j;
            }
            j = j + 1;
        }
        let c = self.tree.children[parent][best_j];
        proof {
            assert(is_first_uct_choice(&self.tree, parent as int, c as int)) by {
                assert(first_uct_choice_at(&self.tree, parent as int, c as int, best_j as int));
            }
        }
        Some(c)
    }

    /// Whether some child among `existing` already carries the move `m`.
    pub open spec fn represented(&self, existing: Seq<usize>, m: G::Move) -> bool {
        exists|j: int|
            0 <= j < existing.len() && self.tree.nodes@[#[trigger] existing[j] as int
            ].placement_move == m
    }

    /// The currently-legal moves in `truth` that none of the `existing`
    /// children carries, in order: the options newly revealed by this
    /// simulation's hidden-state sample. `None` when every legal move is
    /// already represented, so ordinary selection can proceed.
    pub fn diff_existing_children(&self, existing: &Vec<usize>, truth: &Vec<G::Move>) -> (r: Option<
        Vec<G::Move>,
    >)
        requires
            self.wf(),
            forall|j: int| 0 <= j < existing@.len() ==> (#[trigger] existing@[j]) < self.tree.nodes@.len(),
        ensures
            r matches Some(d) ==> d@ == truth@.filter(
                |m: G::Move| !self.represented(existing@, m),
            ) && d@.len() >= 1,
            r is None ==> truth@.filter(|m: G::Move| !self.represented(existing@, m)).len() == 0,
    {
        let ghost pred = |m: G::Move| !self.represented(existing@, m);
        let mut out: Vec<G::Move> = Vec::new();
        let mut i: usize = 0;
        while i < truth.len()
            invariant
                self.wf(),
                forall|j: int|
                    0 <= j < existing@.len() ==> (#[trigger] existing@[j])
                        < self.tree.nodes@.len(),
                i <= truth@.len(),
                pred == (|m: G::Move| !self.represented(existing@, m)),
                out@ == truth@.subrange(0, i as int).filter(pred),
            decreases truth@.len() - i,
        {
            let m = &truth[i];
            let mut found = false;
            let mut j: usize = 0;
            while j < existing.len()
                invariant
                    self.wf(),
                    forall|k: int|
                        0 <= k < existing@.len() ==> (#[trigger] existing@[k])
                            < self.tree.nodes@.len(),
                    i < truth@.len(),
                    m == &truth@[i as int],
                    j <= existing@.len(),
                    found <==> exists|k: int|
                        0 <= k < j && self.tree.nodes@[#[trigger] existing@[k] as int
                        ].placement_move == truth@[i as int],
                decreases existing@.len() - j,
            {
                if !found {
                    let c = existing[j];
                    if G::moves_equal(&self.tree.nodes[c].placement_move, m) {
                        found = true;
                    }
                }
                j = j + 1;
            }
            proof {
                assert(found <==> self.represented(existing@, truth@[i as int]));
                assert(truth@.subrange(0, i + 1 as int).drop_last() =~= truth@.subrange(
                    0,
                    i as int,
                ));
                assert(truth@.subrange(0, i + 1 as int).last() == truth@[i as int]);
                reveal(Seq::filter);
            }
            if !found {
                out.push(G::clone_move(m));
            }
            i = i + 1;
        }
        proof {
            assert(truth@.subrange(0, truth@.len() as int) =~= truth@);
        }
        if out.len() > 0 {
            Some(out)
        } else {
            None
        }
    }

    /// Appends exactly `new_moves`, in order, as fresh children of
    /// `node`; everything already in the tree, statistics included, is
    /// untouched. Returns the indices of the appended children.
    pub fn expand_new_children(&mut self, node: usize, new_moves: Vec<G::Move>) -> (r: Vec<usize>)
        requires
            old(self).wf(),
            node < old(self).tree.nodes@.len(),
        ensures
            final(self).wf(),
            final(self).player_id == old(self).player_id,
            tree_extends(&old(self).tree, &final(self).tree),
            final(self).tree.nodes@[0].visits == old(self).tree.nodes@[0].visits,
            final(self).tree.nodes@.len() == old(self).tree.nodes@.len() + new_moves@.len(),
            forall|i: int|
                0 <= i < old(self).tree.children@.len() && i != node
                    ==> final(self).tree.children@[i]@ == #[trigger] old(self).tree.children@[i]@,
            r@.len() == new_moves@.len(),
            forall|i: int|
                0 <= i < r@.len() ==> (#[trigger] r@[i]) == old(self).tree.nodes@.len() + i,
            forall|i: int|
                0 <= i < r@.len() ==> final(self).tree.nodes@[#[trigger] r@[i] as int
                ].placement_move == new_moves@[i],
            forall|i: int|
                0 <= i < r@.len() ==> final(self).tree.children@[node as int]@.contains(
                    #[trigger] r@[i],
                ),
            final(self).tree.children@[node as int]@ == old(self).tree.children@[node as int]@
                + r@,
    {
        let ghost orig = self.tree;
        let mut r: Vec<usize> = Vec::new();
        let mut moves = new_moves;
        let mut i: usize = 0;
        let total = moves.len();
        proof {
            assert(orig.children@[node as int]@ + r@ =~= orig.children@[node as int]@);
        }
        while i < total
            invariant
                self.wf(),
                self.player_id == old(self).player_id,
                node < self.tree.nodes@.len(),
                total == new_moves@.len(),
                i <= total,
                moves@ == new_moves@,
                tree_extends(&orig, &self.tree),
                self.tree.nodes@[0].visits == orig.nodes@[0].visits,
                self.tree.nodes@.len() == orig.nodes@.len() + i,
                forall|k: int|
                    0 <= k < orig.children@.len() && k != node ==> self.tree.children@[k]@
                        == #[trigger] orig.children@[k]@,
                r@.len() == i,
                forall|k: int| 0 <= k < i ==> (#[trigger] r@[k]) == orig.nodes@.len() + k,
                forall|k: int|
                    0 <= k < i ==> self.tree.nodes@[#[trigger] r@[k] as int].placement_move
                        == new_moves@[k],
                self.tree.children@[node as int]@ == orig.children@[node as int]@ + r@,
            decreases total - i,
        {
            let ghost before = self.tree;
            let m = G::clone_move(&moves[i]);
            let added = self.tree.add_child(node, m);
            proof {
                assert(added matches Some(v) && v == before.nodes@.len());
            }
            let id = match added {
                Some(id) => id,
                None => {
                    proof {
                        assert(false);
                    }
                    0
                },
            };
            r.push(id);
            proof {
                assert(tree_extends(&before, &self.tree)) by {
                    assert forall|k: int| 0 <= k < before.children@.len() implies (
                    #[trigger] before.children@[k]@).is_prefix_of(self.tree.children@[k]@) by {
                        if k == node {
                            assert(self.tree.children@[k]@ == before.children@[k]@.push(
                                before.nodes@.len() as usize,
                            ));
                            assert(before.children@[k]@ =~= self.tree.children@[k]@.subrange(
                                0,
                                before.children@[k]@.len() as int,
                            ));
                        } else {
                            assert(self.tree.children@[k]@ == before.children@[k]@);
                            assert(before.children@[k]@ =~= self.tree.children@[k]@.subrange(
                                0,
                                before.children@[k]@.len() as int,
                            ));
                        }
                    }
                }
                lemma_tree_extends_trans(&orig, &before, &self.tree);
                assert(self.tree.children@[node as int]@ =~= orig.children@[node as int]@ + r@);
            }
            i = i + 1;
        }
        proof {
            assert forall|k: int|
                0 <= k < r@.len() implies self.tree.children@[node as int]@.contains(
                #[trigger] r@[k],
            ) by {
                assert(self.tree.children@[node as int]@[orig.children@[node as int]@.len() + k]
                    == r@[k]);
            }
        }
        r
    }

    /// One selection walk with its expansion. Descends from the root,
    /// each step into the first child of maximal UCT priority; stops on
    /// a leaf or a terminal outcome. For an imperfect-information game,
    /// a node whose children no longer cover the currently-true move set
    /// stops the descent instead, and exactly the missing moves become
    /// new children. On a leaf, every legal move becomes a child. Either
    /// way one new child, chosen uniformly, is descended into. Returns
    /// the traversal path with the outcome recorded at each step: it
    /// starts at the root under the placeholder tag, only its last
    /// entry may be terminal, every descent step is the UCT choice in
    /// the old tree or the one fresh child, and unless it ended on a
    /// terminal outcome it ends in a node added by this call. All
    /// growth happens at a single node; old nodes and their statistics
    /// are untouched, and a terminal walk changes nothing at all.
    fn select(&mut self, game: &mut G, rng: &mut rand::rngs::SmallRng) -> (r: Result<
        Vec<(usize, MoveScore)>,
        SearchError,
    >)
        requires
            old(self).wf(),
        ensures
            final(self).wf(),
            final(self).player_id == old(self).player_id,
            final(self).root == old(self).root,
            tree_extends(&old(self).tree, &final(self).tree),
            r matches Ok(path) ==> {
                &&& valid_path(&final(self).tree, path@)
                &&& path@[0].1 == MoveScore::Unscored
                &&& forall|i: int|
                    0 <= i < path@.len() - 1 ==> !((#[trigger] path@[i]).1 is Terminal)
                &&& forall|i: int|
                    0 <= i < path@.len() - 1 ==> (#[trigger] path@[i]).0 < old(
                        self,
                    ).tree.nodes@.len()
                &&& (path@.last().1 is Terminal && *final(self) == *old(self)) || {
                    &&& final(self).tree.nodes@.len() > old(self).tree.nodes@.len()
                    &&& path@.last().0 >= old(self).tree.nodes@.len()
                    &&& final(self).tree.nodes@[path@.last().0 as int].visits == 0
                    &&& final(self).tree.nodes@[path@.last().0 as int].score == 0
                }
                &&& forall|i: int|
                    0 <= i < path@.len() - 1 ==> ((#[trigger] path@[i + 1]).0 >= old(
                        self,
                    ).tree.nodes@.len() || is_first_uct_choice(
                        &old(self).tree,
                        path@[i].0 as int,
                        path@[i + 1].0 as int,
                    ))
                &&& exists|p: int|
                    #[trigger] expansion_at(&old(self).tree, &final(self).tree, p)
            },
    {
        let mut traversal: Vec<(usize, MoveScore)> = Vec::new();
        traversal.push((0usize, MoveScore::Unscored));
        let mut pending: Option<Vec<G::Move>> = None;
        let mut last_id: usize = 0;
        let mut last_score: MoveScore = MoveScore::Unscored;
        loop
            invariant_except_break
                pending is None,
                !(traversal@.last().1 is Terminal),
            invariant
                old(self).wf(),
                *self == *old(self),
                valid_path(&old(self).tree, traversal@),
                traversal@[0].1 == MoveScore::Unscored,
                last_id == traversal@.last().0,
                last_id < old(self).tree.nodes@.len(),
                last_score == traversal@.last().1,
                forall|i: int|
                    0 <= i < traversal@.len() - 1 ==> !((#[trigger] traversal@[i]).1 is Terminal),
                forall|i: int|
                    0 <= i < traversal@.len() - 1 ==> is_first_uct_choice(
                        &old(self).tree,
                        (#[trigger] traversal@[i]).0 as int,
                        traversal@[i + 1].0 as int,
                    ),
            ensures
                old(self).wf(),
                *self == *old(self),
                valid_path(&old(self).tree, traversal@),
                traversal@[0].1 == MoveScore::Unscored,
                last_id == traversal@.last().0,
                last_id < old(self).tree.nodes@.len(),
                last_score == traversal@.last().1,
                forall|i: int|
                    0 <= i < traversal@.len() - 1 ==> !((#[trigger] traversal@[i]).1 is Terminal),
                forall|i: int|
                    0 <= i < traversal@.len() - 1 ==> is_first_uct_choice(
                        &old(self).tree,
                        (#[trigger] traversal@[i]).0 as int,
                        traversal@[i + 1].0 as int,
                    ),
                pending matches Some(d) ==> d@.len() >= 1,
            decreases old(self).tree.nodes@.len() - last_id,
        {
            proof {
                assert(self.wf());
            }
            let kids = match self.tree.children_of(last_id) {
                Some(kids) => kids,
                None => {
                    proof {
                        assert(false);
                    }
                    Vec::new()
                },
            };
            if kids.len() == 0 {
                break;
            }
            if !G::is_perfect_information() {
                let truth = game.possible_moves();
                match self.diff_existing_children(&kids, &truth) {
                    Some(d) => {
                        pending = Some(d);
                        break;
                    },
                    None => {},
                }
            }
            let chosen = match self.pick_best_child(last_id) {
                Some(c) => c,
                None => {
                    proof {
                        assert(false);
                    }
                    0
                },
            };
            proof {
                assert(is_first_uct_choice(&old(self).tree, last_id as int, chosen as int));
                let j = choose|j: int|
                    first_uct_choice_at(&self.tree, last_id as int, chosen as int, j);
                assert(last_id < chosen < self.tree.nodes@.len());
                assert(self.tree.children@[last_id as int]@.contains(chosen));
            }
            let mv = G::clone_move(&self.tree.nodes[chosen].placement_move);
            let s = match game.place_move(mv) {
                Ok(s) => s,
                Err(e) => {
                    return Err(SearchError::GameFault(e));
                },
            };
            let sc = game.score_state(s, &self.player_id);
            traversal.push((chosen, sc));
            last_id = chosen;
            last_score = sc;
            if sc.is_terminal() {
                break;
            }
        }
        if last_score.is_terminal() {
            proof {
                lemma_tree_extends_refl(&old(self).tree);
                assert(expansion_at(&old(self).tree, &self.tree, 0));
            }
            return Ok(traversal);
        }
        let ghost mid = self.tree;
        let added: Vec<usize> = match pending {
            Some(d) => self.expand_new_children(last_id, d),
            None => {
                let moves = game.possible_moves();
                if moves.len() == 0 {
                    proof {
                        lemma_tree_extends_refl(&old(self).tree);
                    }
                    return Err(SearchError::NoLegalMoves);
                }
                self.expand_new_children(last_id, moves)
            },
        };
        proof {
            assert(tree_extends(&old(self).tree, &self.tree));
        }
        let node_count = self.tree.len();
        proof {
            // Binding the node count to a machine word shows every fresh
            // index fits one.
            assert(self.tree.nodes@.len() == node_count);
        }
        let pick = rng_below(rng, added.len() as u64) as usize;
        let next = added[pick];
        proof {
            assert(next < self.tree.nodes@.len());
            assert(next >= mid.nodes@.len());
            assert(self.tree.children@[last_id as int]@.contains(next));
            assert(valid_path(&self.tree, traversal@)) by {
                assert forall|i: int|
                    0 <= i < traversal@.len() - 1 implies self.tree.children@[
                #[trigger] traversal@[i].0 as int]@.contains(traversal@[i + 1].0) by {
                    assert(mid.children@[traversal@[i].0 as int]@.contains(traversal@[i + 1].0));
                    let w = choose|w: int|
                        0 <= w < mid.children@[traversal@[i].0 as int]@.len() && mid.children@[
                            traversal@[i].0 as int
                        ]@[w] == traversal@[i + 1].0;
                    assert(mid.children@[traversal@[i].0 as int]@.is_prefix_of(
                        self.tree.children@[traversal@[i].0 as int]@,
                    ));
                    assert(self.tree.children@[traversal@[i].0 as int]@[w] == traversal@[i + 1].0);
                }
            }
            assert(expansion_at(&old(self).tree, &self.tree, last_id as int)) by {
                assert forall|x: int|
                    old(self).tree.nodes@.len() <= x < self.tree.nodes@.len() implies
                    self.tree.children@[last_id as int]@.contains(#[trigger] (x as usize)) by {
                    assert(added@[x - mid.nodes@.len()] == x as usize);
                    assert(self.tree.children@[last_id as int]@.contains(
                        added@[x - mid.nodes@.len()],
                    ));
                }
            }
        }
        let mv = G::clone_move(&self.tree.nodes[next].placement_move);
        let s = match game.place_move(mv) {
            Ok(s) => s,
            Err(e) => {
                return Err(SearchError::GameFault(e));
            },
        };
        let sc = game.score_state(s, &self.player_id);
        traversal.push((next, sc));
        Ok(traversal)
    }

    /// A rollout: random legal moves until a terminal outcome, summing
    /// each step's score (saturating); the total is the contribution to
    /// backpropagate. Aborts if the game refuses a legal move, offers no
    /// move while not terminal, or outlasts the step budget.
    fn rollout(&self, game: &mut G, rng: &mut rand::rngs::SmallRng) -> (r: Result<i64, SearchError>)
    {
        let mut acc: i64 = 0;
        let mut fuel: usize = ROLLOUT_LIMIT;
        while fuel > 0
            decreases fuel,
        {
            let mut moves = game.possible_moves();
            if moves.len() == 0 {
                return Err(SearchError::NoLegalMoves);
            }
            let pick = rng_below(rng, moves.len() as u64) as usize;
            let mv = moves.swap_remove(pick);
            let s = match game.place_move(mv) {
                Ok(s) => s,
                Err(e) => {
                    return Err(SearchError::GameFault(e));
                },
            };
            let sc = game.score_state(s, &self.player_id);
            acc = sat_add(acc, sc.score());
            if sc.is_terminal() {
                return Ok(acc);
            }
            fuel = fuel - 1;
        }
        Err(SearchError::RolloutLimitReached)
    }

    /// Folds one traversal's result back into the tree: walking the path
    /// leaf to root, an accumulator starts at the rollout contribution
    /// and adds each step's score; the running value is added
    /// (saturating) to that node's accumulated score and its visit count
    /// increases by one. So a node is credited with the rollout reward
    /// plus every step reward from itself down to the leaf, and scores
    /// compound toward the root. Nothing else in the tree changes.
    pub fn backpropagate(&mut self, traversal: &Vec<(usize, MoveScore)>, rollout_score: i64)
        requires
            old(self).wf(),
            valid_path(&old(self).tree, traversal@),
            old(self).tree.nodes@[0].visits < u64::MAX,
        ensures
            final(self).wf(),
            final(self).player_id == old(self).player_id,
            final(self).root == old(self).root,
            tree_grows(&old(self).tree, &final(self).tree),
            final(self).tree.nodes@.len() == old(self).tree.nodes@.len(),
            forall|i: int|
                0 <= i < old(self).tree.children@.len() ==> final(self).tree.children@[i]@
                    == #[trigger] old(self).tree.children@[i]@,
            forall|j: int|
                0 <= j < traversal@.len() ==> final(self).tree.nodes@[(
                #[trigger] traversal@[j]).0 as int].visits == old(self).tree.nodes@[
                    traversal@[j].0 as int
                ].visits + 1,
            forall|j: int|
                0 <= j < traversal@.len() ==> final(self).tree.nodes@[(
                #[trigger] traversal@[j]).0 as int].score as int == sat_add_spec(
                    old(self).tree.nodes@[traversal@[j].0 as int].score as int,
                    path_credit(traversal@, rollout_score as int, j),
                ),
            forall|i: int|
                0 <= i < old(self).tree.nodes@.len() && !path_suffix_contains(traversal@, 0, i)
                    ==> final(self).tree.nodes@[i] == #[trigger] old(self).tree.nodes@[i],
    {
        let ghost orig = self.tree;
        proof {
            lemma_valid_path_increases(&orig, traversal@);
        }
        let mut acc: i64 = rollout_score;
        let mut j: usize = traversal.len();
        while j > 0
            invariant
                self.tree.wf(),
                self.player_id == old(self).player_id,
                self.root == old(self).root,
                orig == old(self).tree,
                old(self).wf(),
                valid_path(&orig, traversal@),
                orig.nodes@[0].visits < u64::MAX,
                forall|a: int, b: int|
                    0 <= a < b < traversal@.len() ==> (#[trigger] traversal@[a].0) < (
                    #[trigger] traversal@[b].0),
                j <= traversal@.len(),
                acc as int == path_credit(traversal@, rollout_score as int, j as int),
                self.tree.nodes@.len() == orig.nodes@.len(),
                self.tree.children@ == orig.children@,
                forall|k: int|
                    j <= k < traversal@.len() ==> self.tree.nodes@[(
                    #[trigger] traversal@[k]).0 as int].visits == orig.nodes@[
                        traversal@[k].0 as int
                    ].visits + 1,
                forall|k: int|
                    j <= k < traversal@.len() ==> self.tree.nodes@[(
                    #[trigger] traversal@[k]).0 as int].score as int == sat_add_spec(
                        orig.nodes@[traversal@[k].0 as int].score as int,
                        path_credit(traversal@, rollout_score as int, k),
                    ),
                forall|k: int|
                    j <= k < traversal@.len() ==> self.tree.nodes@[(
                    #[trigger] traversal@[k]).0 as int].placement_move == orig.nodes@[
                        traversal@[k].0 as int
                    ].placement_move,
                forall|i: int|
                    0 <= i < orig.nodes@.len() && !path_suffix_contains(traversal@, j as int, i)
                        ==> self.tree.nodes@[i] == #[trigger] orig.nodes@[i],
            decreases j,
        {
            j = j - 1;
            let pair = traversal[j];
            let idx = pair.0;
            proof {
                assert(idx == traversal@[j as int].0);
                assert(idx < orig.nodes@.len());
                assert forall|k: int| j < k < traversal@.len() implies (
                #[trigger] traversal@[k]).0 as int != idx as int by {
                    assert(traversal@[j as int].0 < traversal@[k].0);
                }
                assert(!path_suffix_contains(traversal@, j as int + 1, idx as int));
                assert(self.tree.nodes@[idx as int] == orig.nodes@[idx as int]);
                assert(orig.nodes@[idx as int].visits <= orig.nodes@[0].visits);
            }
            acc = sat_add(acc, pair.1.score());
            let new_score = sat_add(self.tree.nodes[idx].score, acc);
            let node = &mut self.tree.nodes[idx];
            node.score = new_score;
            node.visits = node.visits + 1;
            proof {
                assert forall|i: int|
                    0 <= i < orig.nodes@.len() && !path_suffix_contains(
                        traversal@,
                        j as int,
                        i,
                    ) implies self.tree.nodes@[i] == #[trigger] orig.nodes@[i] by {
                    assert(i != idx as int);
                    assert(!path_suffix_contains(traversal@, j as int + 1, i));
                }
            }
        }
        proof {
            assert(traversal@[0].0 == 0usize);
            assert(path_suffix_contains(traversal@, 0, 0));
            assert(self.tree.nodes@[0].visits == orig.nodes@[0].visits + 1);
            assert forall|i: int|
                0 <= i < self.tree.nodes@.len() implies (#[trigger] self.tree.nodes@[i].visits)
                <= self.tree.nodes@[0].visits by {
                if path_suffix_contains(traversal@, 0, i) {
                    let k = choose|k: int|
                        0 <= k < traversal@.len() && (#[trigger] traversal@[k].0) as int == i;
                    assert(self.tree.nodes@[i].visits == orig.nodes@[i].visits + 1);
                } else {
                    assert(self.tree.nodes@[i] == orig.nodes@[i]);
                }
            }
            assert(tree_grows(&orig, &self.tree)) by {
                assert forall|i: int| 0 <= i < orig.children@.len() implies (
                #[trigger] orig.children@[i]@).is_prefix_of(self.tree.children@[i]@) by {
                    assert(orig.children@[i]@ =~= self.tree.children@[i]@.subrange(
                        0,
                        orig.children@[i]@.len() as int,
                    ));
                }
                assert forall|i: int| 0 <= i < orig.nodes@.len() implies (
                #[trigger] self.tree.nodes@[i]).placement_move == orig.nodes@[i].placement_move
                    by {
                    if path_suffix_contains(traversal@, 0, i) {
                        let k = choose|k: int|
                            0 <= k < traversal@.len() && (#[trigger] traversal@[k].0) as int == i;
                        assert(self.tree.nodes@[traversal@[k].0 as int].placement_move
                            == orig.nodes@[traversal@[k].0 as int].placement_move);
                    } else {
                        assert(self.tree.nodes@[i] == orig.nodes@[i]);
                    }
                }
            }
        }
    }

    /// The visit count of the `j`-th child of the root.
    pub open spec fn root_child_visits(&self, j: int) -> int {
        self.tree.nodes@[self.tree.children@[0]@[j] as int].visits as int
    }

    /// The root child with the most visits — the recommendation after the
    /// iteration budget — with its visit count; ties go to the first such
    /// child. `None` iff the root has no children.
    pub fn best_descendant(&self) -> (r: Option<(usize, u64)>)
        requires
            self.wf(),
        ensures
            (r is None) <==> self.tree.children@[0]@.len() == 0,
            r matches Some(p) ==> exists|j: int|
                {
                    &&& 0 <= j < self.tree.children@[0]@.len()
                    &&& p.0 == self.tree.children@[0]@[j]
                    &&& p.1 == self.tree.nodes@[p.0 as int].visits
                    &&& forall|k: int|
                        0 <= k < self.tree.children@[0]@.len()
                            ==> #[trigger] self.root_child_visits(k) <= self.root_child_visits(j)
                    &&& forall|k: int|
                        0 <= k < j ==> #[trigger] self.root_child_visits(k)
                            < self.root_child_visits(j)
                },
    {
        let list_len = self.tree.children[0].len();
        if list_len == 0 {
            return None;
        }
        let c0 = self.tree.children[0][0];
        let mut best_j: usize = 0;
        let mut best_c: usize = c0;
        let mut best_v: u64 = self.tree.nodes[c0].visits;
        let mut j: usize = 1;
        while j < list_len
            invariant
                self.wf(),
                list_len == self.tree.children@[0]@.len(),
                1 <= j <= list_len,
                0 <= best_j < j,
                best_c == self.tree.children@[0]@[best_j as int],
                best_v == self.tree.nodes@[best_c as int].visits,
                best_v as int == self.root_child_visits(best_j as int),
                forall|k: int|
                    0 <= k < j ==> #[trigger] self.root_child_visits(k) <= best_v as int,
                forall|k: int|
                    0 <= k < best_j ==> #[trigger] self.root_child_visits(k) < best_v as int,
            decreases list_len - j,
        {
            let c = self.tree.children[0][j];
            let v = self.tree.nodes[c].visits;
            if v > best_v {
                best_v = v;
                best_j = j;
                best_c = c;
            }
            j = j + 1;
        }
        Some((best_c, best_v))
    }

    /// One full decision: runs `iterations` search iterations, each
    /// against a fresh clone of `base_game`, then recommends the move of
    /// the root child with the most visits (ties to the first such
    /// child). The whole decision fails if any iteration hits a
    /// game-contract defect, and recommends nothing when no child was
    /// ever expanded (a zero budget, or a position already terminal).
    pub fn best_move(
        &mut self,
        base_game: &G,
        iterations: usize,
        rng: &mut rand::rngs::SmallRng,
    ) -> (r: Result<G::Move, SearchError>)
        requires
            old(self).wf(),
            old(self).tree.nodes@[0].visits + iterations <= u64::MAX,
        ensures
            final(self).wf(),
            final(self).player_id == old(self).player_id,
            tree_grows(&old(self).tree, &final(self).tree),
            iterations == 0 ==> (r is Ok <==> old(self).tree.children@[0]@.len() > 0),
            r is Ok ==> final(self).tree.nodes@[0].visits == old(self).tree.nodes@[0].visits
                + iterations,
            r is Ok ==> child_visit_sum(
                &final(self).tree,
                0,
                final(self).tree.children@[0]@.len() as int,
            ) == child_visit_sum(&old(self).tree, 0, old(self).tree.children@[0]@.len() as int)
                + iterations,
            r matches Ok(m) ==> exists|j: int|
                {
                    &&& 0 <= j < final(self).tree.children@[0]@.len()
                    &&& m == final(self).tree.nodes@[final(self).tree.children@[0]@[j] as int
                    ].placement_move
                    &&& forall|k: int|
                        0 <= k < final(self).tree.children@[0]@.len()
                            ==> #[trigger] final(self).root_child_visits(k)
                            <= final(self).root_child_visits(j)
                    &&& forall|k: int|
                        0 <= k < j ==> #[trigger] final(self).root_child_visits(k)
                            < final(self).root_child_visits(j)
                },
    {
        let ghost orig = self.tree;
        let mut i: usize = 0;
        while i < iterations
            invariant
                self.wf(),
                self.player_id == old(self).player_id,
                self.root == old(self).root,
                orig == old(self).tree,
                tree_grows(&orig, &self.tree),
                i <= iterations,
                orig.nodes@[0].visits + iterations <= u64::MAX,
                self.tree.nodes@[0].visits == orig.nodes@[0].visits + i,
                child_visit_sum(&self.tree, 0, self.tree.children@[0]@.len() as int)
                    == child_visit_sum(&orig, 0, orig.children@[0]@.len() as int) + i,
                i == 0 ==> self.tree == orig,
            decreases iterations - i,
        {
            let ghost at_top = self.tree;
            let mut game = base_game.duplicate();
            let selected = match self.select(&mut game, rng) {
                Ok(path) => path,
                Err(e) => {
                    return Err(e);
                },
            };
            proof {
                lemma_tree_grows_trans(&orig, &at_top, &self.tree);
            }
            let last = selected[selected.len() - 1];
            let rollout_score: i64 = if !last.1.is_terminal() {
                match self.rollout(&mut game, rng) {
                    Ok(v) => v,
                    Err(e) => {
                        return Err(e);
                    },
                }
            } else {
                0
            };
            let ghost mid = self.tree;
            proof {
                // The walk kept the root children's visit total.
                let p = choose|p: int| expansion_at(&at_top, &mid, p);
                lemma_visit_sum_preserved(&at_top, &mid, p, mid.children@[0]@.len() as int);
            }
            self.backpropagate(&selected, rollout_score);
            proof {
                lemma_tree_grows_trans(&orig, &mid, &self.tree);
                // Exactly one root child lies on the traversal path, so
                // backpropagation raises the children's visit total by one.
                let path = selected@;
                lemma_valid_path_increases(&mid, path);
                assert(path.len() >= 2) by {
                    if path.len() == 1 {
                        assert(path.last() == path[0]);
                    }
                }
                let c = path[1].0;
                assert(mid.children@[path[0].0 as int]@.contains(c));
                let w = choose|w: int|
                    0 <= w < mid.children@[0]@.len() && mid.children@[0]@[w] == c;
                assert forall|k: int|
                    0 <= k < mid.children@[0]@.len() && k != w implies self.tree.nodes@[(
                #[trigger] mid.children@[0]@[k]) as int].visits == mid.nodes@[mid.children@[0]@[
                    k
                ] as int].visits by {
                    let e = mid.children@[0]@[k];
                    assert(e != c);
                    if path_suffix_contains(path, 0, e as int) {
                        let k2 = choose|k2: int|
                            0 <= k2 < path.len() && (#[trigger] path[k2].0) as int == e as int;
                        assert(k2 >= 2);
                        assert(mid.children@[path[k2 - 1].0 as int]@.contains(path[k2].0));
                        let l = choose|l: int|
                            0 <= l < mid.children@[path[k2 - 1].0 as int]@.len() && (
                            #[trigger] mid.children@[path[k2 - 1].0 as int]@[l]) == path[k2].0;
                        assert(path[k2 - 1].0 > path[0].0);
                        assert(false);
                    }
                }
                lemma_visit_sum_bump(
                    &mid,
                    &self.tree,
                    c as int,
                    w,
                    mid.children@[0]@.len() as int,
                );
            }
            i = i + 1;
        }
        match self.best_descendant() {
            Some(p) => {
                let c = p.0;
                proof {
                    assert(c < self.tree.nodes@.len());
                }
                Ok(G::clone_move(&self.tree.nodes[c].placement_move))
            },
            None => Err(SearchError::NothingExplored),
        }
    }
}

/// Whether some entry of `path` from position `j` on names node `i`.
pub open spec fn path_suffix_contains(path: Seq<(usize, MoveScore)>, j: int, i: int) -> bool {
    exists|k: int| j <= k < path.len() && (#[trigger] path[k].0) as int == i
}

/// The accumulator backpropagation carries at position `j` of the path:
/// the rollout contribution plus, saturating at each step, every step
/// score from the path's end down to `j`.
pub open spec fn path_credit(path: Seq<(usize, MoveScore)>, rollout: int, j: int) -> int
    decreases path.len() - j when j <= path.len()
{
    if j < 0 || j >= path.len() {
        rollout
    } else {
        sat_add_spec(path_credit(path, rollout, j + 1), path[j].1.spec_score())
    }
}

/// The exact sum of the step scores of `path` from position `j` on.
pub open spec fn suffix_score_sum(path: Seq<(usize, MoveScore)>, j: int) -> int
    decreases path.len() - j when j <= path.len()
{
    if j < 0 || j >= path.len() {
        0
    } else {
        path[j].1.spec_score() + suffix_score_sum(path, j + 1)
    }
}

proof fn lemma_suffix_sum_nonneg(path: Seq<(usize, MoveScore)>, j: int)
    requires
        forall|i: int| 0 <= i < path.len() ==> (#[trigger] path[i]).1.spec_score() >= 0,
        j <= path.len(),
    ensures
        suffix_score_sum(path, j) >= 0,
    decreases path.len() - j,
{
    if 0 <= j < path.len() {
        lemma_suffix_sum_nonneg(path, j + 1);
    }
}

proof fn lemma_suffix_sum_monotone(path: Seq<(usize, MoveScore)>, a: int, b: int)
    requires
        forall|i: int| 0 <= i < path.len() ==> (#[trigger] path[i]).1.spec_score() >= 0,
        0 <= a <= b <= path.len(),
    ensures
        suffix_score_sum(path, a) >= suffix_score_sum(path, b),
    decreases b - a,
{
    if a < b {
        lemma_suffix_sum_monotone(path, a + 1, b);
    }
}

/// Where nothing saturates, the backpropagation accumulator at `j` is
/// exactly the rollout contribution plus the sum of the step scores from
/// `j` to the leaf.
proof fn lemma_path_credit_exact(path: Seq<(usize, MoveScore)>, rollout: int, j: int)
    requires
        forall|i: int| 0 <= i < path.len() ==> (#[trigger] path[i]).1.spec_score() >= 0,
        i64::MIN <= rollout,
        0 <= j <= path.len(),
        rollout + suffix_score_sum(path, 0) <= i64::MAX,
    ensures
        path_credit(path, rollout, j) == rollout + suffix_score_sum(path, j),
    decreases path.len() - j,
{
    if j < path.len() {
        lemma_path_credit_exact(path, rollout, j + 1);
        lemma_suffix_sum_monotone(path, 0, j);
        lemma_suffix_sum_nonneg(path, j + 1);
    }
}

/// Backpropagation credit law: for a traversal path with a representable
/// rollout contribution and non-negative step scores whose total stays
/// representable, the leaf of the path is credited exactly the rollout
/// contribution plus the leaf step's score, the root is credited the
/// rollout contribution plus every step score on the path, and the
/// root's credit is at least the leaf's.
pub proof fn lemma_backprop_credit(path: Seq<(usize, MoveScore)>, rollout: int)
    requires
        path.len() >= 1,
        forall|i: int| 0 <= i < path.len() ==> (#[trigger] path[i]).1.spec_score() >= 0,
        i64::MIN <= rollout,
        rollout + suffix_score_sum(path, 0) <= i64::MAX,
    ensures
        path_credit(path, rollout, path.len() - 1) == rollout + path.last().1.spec_score(),
        path_credit(path, rollout, 0) == rollout + suffix_score_sum(path, 0),
        path_credit(path, rollout, 0) >= path_credit(path, rollout, path.len() - 1),
{
    lemma_path_credit_exact(path, rollout, path.len() - 1);
    lemma_path_credit_exact(path, rollout, 0);
    lemma_suffix_sum_monotone(path, 0, path.len() - 1);
    assert(suffix_score_sum(path, path.len() as int) == 0);
    assert(suffix_score_sum(path, path.len() - 1) == path.last().1.spec_score());
}

} // verus!
