//! Search in a tree of games that grows where games played on by chance
//! have earned most.

use rand::rngs::StdRng;
use vstd::prelude::*;
use crate::board::{Board, BoardView};
use crate::cache::{cache_sound, empty_cache};
use crate::game::{
    is_finished_game, lemma_reachable_self, lemma_reachable_step, lemma_reachable_trans, reachable,
};
use crate::grid::COLOR_COUNT;
use crate::region::{are_moves, lemma_move_removable, RegionView, views};
use crate::solvers::mcrws::{CACHE_CAPACITY, rollout};
use crate::solvers::solution::{is_best_so_far, keep_best};
use crate::text::actions_text;

verus! {

/// A node is given children once more games than this have passed through
/// it.
pub const VISITS_BEFORE_EXPAND: u64 = 13;

/// Number of games that a search plays where nothing else is asked for.
pub const ITERATIONS: usize = 1000000;

/// A game in the tree, with what the games played on from it have earned.
pub struct Node {
    visited: u64,
    highest_score: u32,
    sum_score: u128,
    board: Board,
    childs: Vec<usize>,
    parent: Option<usize>,
    leaf: bool,
}

/// What a [`Node`] holds, as mathematical values.
pub struct NodeView {
    /// Number of games played on from the node or from below it.
    pub visited: nat,
    /// The highest score among those games.
    pub highest_score: nat,
    /// The sum of their scores.
    pub sum_score: nat,
    /// The game at the node.
    pub board: BoardView,
    /// The places of the children in the tree.
    pub childs: Seq<usize>,
    /// The place of the parent in the tree; the root has none.
    pub parent: Option<usize>,
    /// Whether the game at the node was found to have no move.
    pub leaf: bool,
}

/// The view of a node for `board` through which no game has passed.
pub open spec fn fresh_node(board: BoardView, parent: Option<usize>) -> NodeView {
    NodeView {
        visited: 0,
        highest_score: 0,
        sum_score: 0,
        board,
        childs: Seq::empty(),
        parent,
        leaf: false,
    }
}

/// A node after it has taken up a score.
pub open spec fn scored(node: NodeView, score: u32) -> NodeView {
    NodeView {
        visited: node.visited + 1,
        sum_score: node.sum_score + score as nat,
        highest_score: if score > node.highest_score {
            score as nat
        } else {
            node.highest_score
        },
        ..node
    }
}

/// Whether the node at `i` is the node at `from` or stands above it.
pub open spec fn on_path(nodes: Seq<NodeView>, from: int, i: int) -> bool
    decreases from,
{
    if i == from {
        true
    } else if 0 <= from < nodes.len() {
        match nodes[from].parent {
            Some(p) => p < from && on_path(nodes, p as int, i),
            None => false,
        }
    } else {
        false
    }
}

/// What the children of the node at `node` have earned: for each the number
/// of games, the sum of their scores and the highest score.
pub open spec fn child_stats(nodes: Seq<NodeView>, node: int) -> Seq<(u64, u128, u32)> {
    Seq::new(
        nodes[node].childs.len(),
        |j: int|
            {
                let child = nodes[nodes[node].childs[j] as int];
                (child.visited as u64, child.sum_score as u128, child.highest_score as u32)
            },
    )
}

/// The nodes after the node at `node` has been given a child for each of
/// `regions`, the moves of its game; or has been marked as a leaf, where
/// there is no move.
pub open spec fn expanded(nodes: Seq<NodeView>, node: int, regions: Seq<RegionView>) -> Seq<
    NodeView,
> {
    if regions.len() == 0 {
        nodes.update(node, NodeView { leaf: true, ..nodes[node] })
    } else {
        Seq::new(
            nodes.len() + regions.len(),
            |i: int|
                if i == node {
                    NodeView {
                        childs: Seq::new(regions.len(), |k: int| (nodes.len() + k) as usize),
                        ..nodes[node]
                    }
                } else if i < nodes.len() {
                    nodes[i]
                } else {
                    fresh_node(
                        nodes[node].board.after_play(regions[i - nodes.len()]),
                        Some(node as usize),
                    )
                },
        )
    }
}

/// A node stands above the nodes on the way up from it.
proof fn lemma_path_below(nodes: Seq<NodeView>, from: int, i: int)
    requires
        on_path(nodes, from, i),
    ensures
        i <= from,
    decreases from,
{
    if i != from {
        lemma_path_below(nodes, nodes[from].parent->0 as int, i);
    }
}

/// The way up from a node goes on from each node on it to that node's
/// parent, past no other node.
proof fn lemma_path_chain(nodes: Seq<NodeView>, from: int, at: int, i: int)
    requires
        on_path(nodes, from, at),
        on_path(nodes, from, i),
        i < at,
    ensures
        0 <= at < nodes.len(),
        nodes[at].parent is Some,
        nodes[at].parent->0 < at,
        on_path(nodes, nodes[at].parent->0 as int, i),
        i <= nodes[at].parent->0,
    decreases from,
{
    lemma_path_below(nodes, from, at);
    if from != at {
        lemma_path_chain(nodes, nodes[from].parent->0 as int, at, i);
    } else {
        lemma_path_below(nodes, nodes[at].parent->0 as int, i);
    }
}

/// The parent of a node on the way up is on the way up.
proof fn lemma_path_up(nodes: Seq<NodeView>, from: int, at: int)
    requires
        on_path(nodes, from, at),
        0 <= at < nodes.len(),
        nodes[at].parent is Some,
        nodes[at].parent->0 < at,
    ensures
        on_path(nodes, from, nodes[at].parent->0 as int),
    decreases from,
{
    let p = nodes[at].parent->0 as int;
    lemma_path_below(nodes, from, at);
    if from != at {
        lemma_path_up(nodes, nodes[from].parent->0 as int, at);
    } else {
        assert(on_path(nodes, p, p));
    }
}

impl View for Node {
    type V = NodeView;

    closed spec fn view(&self) -> NodeView {
        NodeView {
            visited: self.visited as nat,
            highest_score: self.highest_score as nat,
            sum_score: self.sum_score as nat,
            board: self.board@,
            childs: self.childs@,
            parent: self.parent,
            leaf: self.leaf,
        }
    }
}

impl Node {
    /// Whether the board of the node is well formed.
    pub closed spec fn wf(&self) -> bool {
        self.board.wf()
    }

    /// A node for the game `board`, without parent or children, through
    /// which no game has passed.
    pub fn new(board: Board) -> (node: Node)
        ensures
            node@ == fresh_node(board@, None),
            board.wf() ==> node.wf(),
    {
        Node {
            visited: 0,
            highest_score: 0,
            sum_score: 0,
            board,
            childs: Vec::new(),
            parent: None,
            leaf: false,
        }
    }

    /// The game at the node.
    pub fn get_board(&self) -> (board: &Board)
        ensures
            board@ == self@.board,
            self.wf() ==> board.wf(),
    {
        &self.board
    }

    /// Number of games played on from the node or from below it.
    pub fn get_visited(&self) -> (visited: u64)
        ensures
            visited == self@.visited,
    {
        self.visited
    }

    /// The sum of the scores of those games.
    pub fn get_sum_score(&self) -> (sum_score: u128)
        ensures
            sum_score == self@.sum_score,
    {
        self.sum_score
    }

    /// The highest score among those games.
    pub fn get_highest_score(&self) -> (highest_score: u32)
        ensures
            highest_score == self@.highest_score,
    {
        self.highest_score
    }

    /// Whether the game at the node was found to have no move.
    pub fn is_leaf(&self) -> (leaf: bool)
        ensures
            leaf == self@.leaf,
    {
        self.leaf
    }

    /// Makes the node at `parent` the parent.
    pub fn set_parent(&mut self, parent: usize)
        ensures
            final(self)@ == (NodeView { parent: Some(parent), ..old(self)@ }),
            old(self).wf() ==> final(self).wf(),
    {
        self.parent = Some(parent);
    }

    /// Appends the node at `child` to the children.
    pub fn add_child(&mut self, child: usize)
        ensures
            final(self)@ == (NodeView { childs: old(self)@.childs.push(child), ..old(self)@ }),
            old(self).wf() ==> final(self).wf(),
    {
        self.childs.push(child);
    }

    /// Whether the node has children.
    pub fn is_expanded(&self) -> (expanded: bool)
        ensures
            expanded == (self@.childs.len() > 0),
    {
        self.childs.len() > 0
    }

    /// Records that the game at the node has no move.
    pub fn set_leaf(&mut self)
        ensures
            final(self)@ == (NodeView { leaf: true, ..old(self)@ }),
            old(self).wf() ==> final(self).wf(),
    {
        self.leaf = true;
    }
}

/// A tree of games: the nodes in the order in which they were made, the root
/// first.  Parents and children are named by their places in this order.
pub struct Tree {
    nodes: Vec<Node>,
    rounds: u64,
}

/// What the invariant of a tree asks of the node at `i`.
spec fn node_ok(nodes: Seq<Node>, rounds: u64, i: int) -> bool {
    let node = nodes[i];
    &&& node.wf()
    &&& reachable(nodes[0]@.board, node@.board)
    &&& node.visited <= rounds
    &&& node.sum_score <= node.visited * 0xffff_ffff
    &&& (node.parent matches Some(p) ==> p < i)
    &&& forall|j: int| 0 <= j < node.childs@.len() ==> i < (#[trigger] node.childs@[j]) < nodes.len()
}

impl Tree {
    /// The nodes of the tree, as mathematical values.
    pub closed spec fn nodes(&self) -> Seq<NodeView> {
        Seq::new(self.nodes@.len(), |k: int| self.nodes@[k]@)
    }

    /// Number of games whose scores the tree has taken up.
    pub closed spec fn rounds(&self) -> nat {
        self.rounds as nat
    }

    /// The invariant of a tree: every node is a game that began at the game
    /// of the root; a parent stands before its children; no node counts
    /// more games than the tree, and none sums up more than those games can
    /// have earned.
    pub closed spec fn wf(&self) -> bool {
        &&& self.nodes@.len() >= 1
        &&& forall|i: int| 0 <= i < self.nodes@.len() ==> #[trigger] node_ok(self.nodes@, self.rounds, i)
    }

    /// What the invariant says of the nodes.
    pub proof fn lemma_wf(&self, i: int)
        requires
            self.wf(),
            0 <= i < self.nodes().len(),
        ensures
            self.nodes().len() >= 1,
            reachable(self.nodes()[0].board, self.nodes()[i].board),
            self.nodes()[i].visited <= self.rounds(),
            self.nodes()[i].parent matches Some(p) ==> p < i,
            forall|j: int|
                0 <= j < self.nodes()[i].childs.len() ==> i < (#[trigger] self.nodes()[i].childs[j])
                    < self.nodes().len(),
    {
        assert(node_ok(self.nodes@, self.rounds, i));
    }

    /// The tree that consists of the game `board` alone.
    pub fn new(board: Board) -> (tree: Tree)
        requires
            board.wf(),
        ensures
            tree.wf(),
            tree.nodes() == seq![fresh_node(board@, None)],
            tree.rounds() == 0,
    {
        let ghost start = board@;
        let root = Node::new(board);
        let mut nodes: Vec<Node> = Vec::new();
        nodes.push(root);
        let tree = Tree { nodes, rounds: 0 };
        proof {
            lemma_reachable_self(start);
            assert(0 * 0xffff_ffff == 0) by (nonlinear_arith);
            assert(node_ok(tree.nodes@, 0, 0));
            assert(tree.nodes() =~= seq![fresh_node(start, None)]);
        }
        tree
    }

    /// Number of nodes.
    pub fn len(&self) -> (n: usize)
        ensures
            n == self.nodes().len(),
    {
        self.nodes.len()
    }

    /// The node at place `node`.
    pub fn get(&self, node: usize) -> (found: &Node)
        requires
            node < self.nodes().len(),
        ensures
            found@ == self.nodes()[node as int],
            self.wf() ==> found.wf(),
    {
        proof {
            if self.wf() {
                assert(node_ok(self.nodes@, self.rounds, node as int));
            }
        }
        &self.nodes[node]
    }

    /// Takes up the score of a game played on from the node at `node`: that
    /// node and each node above it count one game more, add the score to
    /// their sum, and raise their highest score to it where it is higher.
    pub fn backpropagate(&mut self, node: usize, score: u32)
        requires
            old(self).wf(),
            node < old(self).nodes().len(),
            old(self).rounds() < u64::MAX,
        ensures
            final(self).wf(),
            final(self).rounds() == old(self).rounds() + 1,
            final(self).nodes().len() == old(self).nodes().len(),
            forall|i: int|
                0 <= i < old(self).nodes().len() ==> (#[trigger] final(self).nodes()[i])
                    == if on_path(old(self).nodes(), node as int, i) {
                    scored(old(self).nodes()[i], score)
                } else {
                    old(self).nodes()[i]
                },
    {
        let ghost before = *self;
        let ghost shown = before.nodes();
        proof {
            assert forall|i: int| 0 <= i < shown.len() implies shown[i] == before.nodes@[i]@ by {}
            assert forall|i: int| on_path(shown, node as int, i) implies i <= node by {
                lemma_path_below(shown, node as int, i);
            }
            assert forall|i: int| 0 <= i < before.nodes@.len() implies (#[trigger] before.nodes@[i]).wf() by {
                assert(node_ok(before.nodes@, before.rounds, i));
            }
        }
        self.rounds = self.rounds + 1;
        let mut at: usize = node;
        let mut more: bool = true;
        while more
            invariant
                self.nodes@.len() == before.nodes@.len(),
                self.rounds == before.rounds + 1,
                before.wf(),
                shown == before.nodes(),
                node < before.nodes@.len(),
                at < self.nodes@.len(),
                on_path(shown, node as int, at as int),
                !more ==> forall|i: int| on_path(shown, node as int, i) ==> i >= at,
                forall|i: int|
                    0 <= i < before.nodes@.len() ==> (#[trigger] self.nodes@[i])@ == if on_path(
                        shown,
                        node as int,
                        i,
                    ) && (i > at || !more) {
                        scored(shown[i], score)
                    } else {
                        shown[i]
                    },
                forall|i: int| 0 <= i < before.nodes@.len() ==> (#[trigger] self.nodes@[i]).wf(),
            decreases at + if more { 1int } else { 0int },
        {
            let ghost now = self.nodes@;
            proof {
                assert(node_ok(before.nodes@, before.rounds, at as int));
                assert(before.nodes@[at as int].visited * 0xffff_ffff <= 0xffff_ffff_ffff_ffff
                    * 0xffff_ffff) by (nonlinear_arith)
                    requires
                        before.nodes@[at as int].visited <= 0xffff_ffff_ffff_ffff,
                ;
                assert(now[at as int]@ == shown[at as int]);
                assert(shown[at as int] == before.nodes@[at as int]@);
            }
            let sum = self.nodes[at].sum_score + score as u128;
            let visits = self.nodes[at].visited + 1;
            self.nodes[at].sum_score = sum;
            self.nodes[at].visited = visits;
            if score > self.nodes[at].highest_score {
                self.nodes[at].highest_score = score;
            }
            let up = self.nodes[at].parent;
            proof {
                assert(self.nodes@[at as int]@ == scored(shown[at as int], score));
            }
            match up {
                Some(p) => {
                    proof {
                        lemma_path_up(shown, node as int, at as int);
                        assert forall|i: int| p < i < at implies !on_path(shown, node as int, i) by {
                            if on_path(shown, node as int, i) {
                                lemma_path_chain(shown, node as int, at as int, i);
                            }
                        }
                    }
                    at = p;
                },
                None => {
                    proof {
                        assert forall|i: int| on_path(shown, node as int, i) implies i >= at by {
                            if i < at {
                                lemma_path_chain(shown, node as int, at as int, i);
                            }
                        }
                    }
                    more = false;
                },
            }
        }
        proof {
            assert forall|i: int| 0 <= i < shown.len() implies (#[trigger] self.nodes()[i])
                == if on_path(shown, node as int, i) {
                scored(shown[i], score)
            } else {
                shown[i]
            } by {
                assert(self.nodes()[i] == self.nodes@[i]@);
            }
            assert forall|i: int| 0 <= i < self.nodes@.len() implies #[trigger] node_ok(
                self.nodes@,
                self.rounds,
                i,
            ) by {
                assert(node_ok(before.nodes@, before.rounds, i));
                assert(self.nodes@[i]@ == self.nodes()[i]);
                assert(before.nodes@[i]@ == shown[i]);
                assert(self.nodes@[0]@ == self.nodes()[0]);
                assert(before.nodes@[0]@ == shown[0]);
                assert(self.nodes@[i].wf());
                let v = before.nodes@[i].visited as int;
                assert((v + 1) * 0xffff_ffff == v * 0xffff_ffff + 0xffff_ffff) by (nonlinear_arith);
            }
        }
    }

    /// The child of the node at `node` that `select` names, given the number
    /// of games of the node and what its children have earned.  Where it
    /// names none, the first child.
    pub fn get_child<S: Fn(u64, Vec<(u64, u128, u32)>) -> usize>(&self, node: usize, select: &S) -> (child:
        usize)
        requires
            self.wf(),
            node < self.nodes().len(),
            self.nodes()[node as int].childs.len() > 0,
            forall|visited: u64, stats: Vec<(u64, u128, u32)>| call_requires(select, (visited, stats)),
        ensures
            node < child < self.nodes().len(),
            exists|stats: Vec<(u64, u128, u32)>, named: usize|
                stats@ == child_stats(self.nodes(), node as int) && #[trigger] call_ensures(
                    select,
                    (self.nodes()[node as int].visited as u64, stats),
                    named,
                ) && child == self.nodes()[node as int].childs[if named
                    < self.nodes()[node as int].childs.len() {
                    named as int
                } else {
                    0
                }],
    {
        let parent = &self.nodes[node];
        proof {
            assert(node_ok(self.nodes@, self.rounds, node as int));
            assert(self.nodes()[node as int] == parent@);
        }
        let mut stats: Vec<(u64, u128, u32)> = Vec::new();
        let mut j: usize = 0;
        while j < parent.childs.len()
            invariant
                self.wf(),
                node < self.nodes@.len(),
                parent == self.nodes@[node as int],
                j <= parent.childs@.len(),
                stats@.len() == j,
                forall|a: int|
                    0 <= a < j ==> #[trigger] stats@[a] == child_stats(self.nodes(), node as int)[a],
                forall|a: int|
                    0 <= a < parent.childs@.len() ==> node < (#[trigger] parent.childs@[a])
                        < self.nodes@.len(),
            decreases parent.childs@.len() - j,
        {
            let child = &self.nodes[parent.childs[j]];
            proof {
                assert(self.nodes()[parent.childs@[j as int] as int] == child@);
                assert(self.nodes()[node as int] == parent@);
            }
            stats.push((child.visited, child.sum_score, child.highest_score));
            j += 1;
        }
        proof {
            assert(self.nodes()[node as int] == parent@);
            assert(stats@ =~= child_stats(self.nodes(), node as int));
        }
        let ghost handed = stats;
        let named = select(parent.visited, stats);
        let child = if named < parent.childs.len() {
            parent.childs[named]
        } else {
            parent.childs[0]
        };
        proof {
            assert(handed@ == child_stats(self.nodes(), node as int) && call_ensures(
                select,
                (self.nodes()[node as int].visited as u64, handed),
                named,
            ) && child == self.nodes()[node as int].childs[if named
                < self.nodes()[node as int].childs.len() {
                named as int
            } else {
                0
            }]);
        }
        child
    }

    /// Gives the childless node at `node` a child for each move of its game,
    /// in the order of the moves; where the game has no move, marks the
    /// node as a leaf.
    pub fn expand(&mut self, node: usize)
        requires
            old(self).wf(),
            node < old(self).nodes().len(),
            old(self).nodes()[node as int].childs.len() == 0,
        ensures
            final(self).wf(),
            final(self).rounds() == old(self).rounds(),
            exists|regions: Seq<RegionView>|
                #![auto]
                are_moves(old(self).nodes()[node as int].board.cells, regions)
                    && final(self).nodes() == expanded(old(self).nodes(), node as int, regions),
    {
        let ghost before = *self;
        let ghost shown = before.nodes();
        proof {
            assert(node_ok(self.nodes@, self.rounds, node as int));
            assert(shown[node as int] == self.nodes@[node as int]@);
        }
        let all_regions = self.nodes[node].board.compute_all_regions();
        let ghost regions = views(all_regions@);
        let first = self.nodes.len();
        if all_regions.len() == 0 {
            self.nodes[node].set_leaf();
            proof {
                assert forall|i: int| 0 <= i < shown.len() implies shown[i] == before.nodes@[i]@ by {}
                assert(self.nodes() =~= expanded(shown, node as int, regions));
                assert forall|i: int| 0 <= i < self.nodes@.len() implies #[trigger] node_ok(
                    self.nodes@,
                    self.rounds,
                    i,
                ) by {
                    assert(node_ok(before.nodes@, before.rounds, i));
                    assert(node_ok(before.nodes@, before.rounds, 0));
                    if i != node {
                        assert(self.nodes@[i] == before.nodes@[i]);
                    }
                }
            }
            return ;
        }
        let mut k: usize = 0;
        proof {
            assert(shown[node as int].childs =~= Seq::new(0nat, |a: int| (first + a) as usize));
        }
        while k < all_regions.len()
            invariant
                before.wf(),
                shown == before.nodes(),
                regions == views(all_regions@),
                are_moves(shown[node as int].board.cells, regions),
                node < first,
                first == before.nodes@.len(),
                k <= all_regions@.len(),
                self.rounds == before.rounds,
                self.nodes@.len() == first + k,
                forall|i: int|
                    0 <= i < first && i != node ==> (#[trigger] self.nodes@[i]) == before.nodes@[i],
                self.nodes@[node as int]@ == (NodeView {
                    childs: Seq::new(k as nat, |a: int| (first + a) as usize),
                    ..shown[node as int]
                }),
                self.nodes@[node as int].wf(),
                forall|a: int|
                    0 <= a < k ==> (#[trigger] self.nodes@[first + a])@ == fresh_node(
                        shown[node as int].board.after_play(regions[a]),
                        Some(node),
                    ) && self.nodes@[first + a].wf() && reachable(
                        shown[0].board,
                        self.nodes@[first + a]@.board,
                    ),
            decreases all_regions@.len() - k,
        {
            let region = &all_regions[k];
            let mut copy = self.nodes[node].board.clone();
            proof {
                assert(node_ok(before.nodes@, before.rounds, node as int));
                assert(shown[node as int] == before.nodes@[node as int]@);
                assert(shown[0] == before.nodes@[0]@);
                copy.lemma_valid();
                assert(regions[k as int] == region@);
                lemma_move_removable(region@, copy@.cells);
                lemma_reachable_step(shown[0].board, copy@, region@);
            }
            copy.play_region(region);
            let mut child = Node::new(copy);
            child.set_parent(node);
            let ghost grown = self.nodes@;
            self.nodes.push(child);
            let place = self.nodes.len() - 1;
            self.nodes[node].add_child(place);
            proof {
                assert(self.nodes@[node as int]@.childs =~= Seq::new(
                    (k + 1) as nat,
                    |a: int| (first + a) as usize,
                ));
                assert forall|a: int| 0 <= a < k + 1 implies (#[trigger] self.nodes@[first + a])@
                    == fresh_node(shown[node as int].board.after_play(regions[a]), Some(node))
                    && self.nodes@[first + a].wf() && reachable(
                    shown[0].board,
                    self.nodes@[first + a]@.board,
                ) by {
                    if a < k {
                        assert(self.nodes@[first + a] == grown[first + a]);
                    }
                }
            }
            k += 1;
        }
        let total = self.nodes.len();
        proof {
            assert(total == first + all_regions@.len());
            assert forall|j: int| 0 <= j < all_regions@.len() implies node < (#[trigger] self.nodes@[node as int].childs@[j])
                < total by {
                assert(self.nodes@[node as int]@.childs[j] == (first + j) as usize);
            }
            assert forall|i: int| 0 <= i < self.nodes@.len() implies self.nodes()[i] == expanded(
                shown,
                node as int,
                regions,
            )[i] by {
                if i < first {
                    assert(shown[i] == before.nodes@[i]@);
                    if i != node {
                        assert(self.nodes@[i] == before.nodes@[i]);
                    }
                } else {
                    assert(self.nodes@[first + (i - first)]@ == fresh_node(
                        shown[node as int].board.after_play(regions[i - first]),
                        Some(node),
                    ));
                }
            }
            assert(self.nodes() =~= expanded(shown, node as int, regions));
            assert forall|i: int| 0 <= i < self.nodes@.len() implies #[trigger] node_ok(
                self.nodes@,
                self.rounds,
                i,
            ) by {
                assert(0 * 0xffff_ffff == 0) by (nonlinear_arith);
                assert(shown[0] == before.nodes@[0]@);
                assert(self.nodes@[0]@.board == shown[0].board) by {
                    if node != 0 {
                        assert(self.nodes@[0] == before.nodes@[0]);
                    }
                }
                if i < first {
                    assert(node_ok(before.nodes@, before.rounds, i));
                    assert(shown[i] == before.nodes@[i]@);
                    if i == node {
                        assert(self.nodes@[i]@.childs == Seq::new(
                            all_regions@.len(),
                            |a: int| (first + a) as usize,
                        ));
                    } else {
                        assert(self.nodes@[i] == before.nodes@[i]);
                    }
                } else {
                    assert(self.nodes@[first + (i - first)]@ == fresh_node(
                        shown[node as int].board.after_play(regions[i - first]),
                        Some(node),
                    ));
                    assert(self.nodes@[i]@.childs.len() == 0);
                    assert(self.nodes@[i]@.parent == Some(node));
                }
            }
        }
    }
}

/// Searches the games that begin at `initial_state` by `iterations` games
/// played to their end.  Each begins at the node that is reached from the
/// root by going, at every node with children, to the child that `select`
/// names, and is played on from there by chance, with `policy` and `rng` as
/// in [`rollout`]; its score is taken up by that node and the nodes above,
/// and the node is given children once it counts more than
/// [`VISITS_BEFORE_EXPAND`] games.  Returns the moves as text, and the
/// score, of the first game played to the end whose score no later one
/// exceeded; without a game, of `initial_state`.
pub fn _solve<S: Fn(u64, Vec<(u64, u128, u32)>) -> usize, P: Fn([u8; COLOR_COUNT], u32) -> i8>(
    initial_state: &Board,
    iterations: usize,
    select: &S,
    policy: &P,
    rng: &mut StdRng,
) -> (answer: (String, u32))
    requires
        initial_state.wf(),
        forall|visited: u64, stats: Vec<(u64, u128, u32)>| call_requires(select, (visited, stats)),
        forall|counts: [u8; COLOR_COUNT], drawn: u32| call_requires(policy, (counts, drawn)),
    ensures
        exists|best: BoardView|
            #![auto]
            reachable(initial_state@, best) && answer.0@ == actions_text(best.actions) && answer.1
                == best.score && if iterations > 0 {
                is_finished_game(initial_state@, best)
            } else {
                best == initial_state@
            },
{
    let ghost start = initial_state@;
    let mut best_probe: Option<Board> = None;
    let mut cache_region = empty_cache(CACHE_CAPACITY);
    let mut tree = Tree::new(initial_state.clone());

    let mut round: usize = 0;
    while round < iterations
        invariant
            start == initial_state@,
            tree.wf(),
            tree.nodes()[0].board == start,
            tree.rounds() == round,
            round <= iterations,
            cache_sound(&cache_region),
            is_best_so_far(best_probe, start),
            round > 0 <==> best_probe is Some,
            forall|visited: u64, stats: Vec<(u64, u128, u32)>|
                call_requires(select, (visited, stats)),
            forall|counts: [u8; COLOR_COUNT], drawn: u32| call_requires(policy, (counts, drawn)),
        decreases iterations - round,
    {
        // selection
        let mut node: usize = 0;
        proof {
            tree.lemma_wf(0);
        }
        while tree.get(node).is_expanded()
            invariant
                tree.wf(),
                node < tree.nodes().len(),
                forall|visited: u64, stats: Vec<(u64, u128, u32)>|
                    call_requires(select, (visited, stats)),
            decreases tree.nodes().len() - node,
        {
            node = tree.get_child(node, select);
        }

        // rollout
        proof {
            tree.lemma_wf(node as int);
        }
        let probe = rollout(tree.get(node).get_board(), &mut cache_region, policy, rng);
        proof {
            lemma_reachable_trans(start, tree.nodes()[node as int].board, probe@);
        }

        // backpropagate
        let ghost shown = tree.nodes();
        tree.backpropagate(node, probe.get_score());
        proof {
            assert(tree.nodes()[0].board == shown[0].board);
            assert(tree.nodes()[node as int].childs == shown[node as int].childs);
        }

        // keep the best game in case none in the tree is as good
        best_probe = keep_best(best_probe, probe, Ghost(start));

        // expand
        if tree.get(node).get_visited() > VISITS_BEFORE_EXPAND && !tree.get(node).is_leaf() {
            let ghost grown = tree.nodes();
            tree.expand(node);
            proof {
                assert(tree.nodes()[0].board == grown[0].board);
            }
        }
        round += 1;
    }

    match best_probe {
        Some(best) => {
            let actions = best.get_actions_str();
            let score = best.get_score();
            proof {
                let found = best@;
                assert(reachable(start, found) && actions@ == actions_text(found.actions) && score
                    == found.score && is_finished_game(start, found));
            }
            (actions, score)
        },
        None => {
            let actions = initial_state.get_actions_str();
            let score = initial_state.get_score();
            proof {
                lemma_reachable_self(start);
                assert(reachable(start, start) && actions@ == actions_text(start.actions) && score
                    == start.score);
            }
            (actions, score)
        },
    }
}

} // verus!
