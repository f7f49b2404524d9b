//! Monte-Carlo tree search over half-moves.
//!
//! The tree is an arena: a flat sequence of nodes that name their parent and
//! their children by index. Each node stands for the position that its path
//! from the root leads to. A node of yours holds your candidates as children;
//! a move of yours changes nothing on the board yet, and the opponent's reply
//! below it plays the tick of both.

use rand::rngs::ThreadRng;
use rand::seq::IteratorRandom;
use vstd::prelude::*;

use crate::board::{Game, GameView, Side};
use crate::eval::{deterministic, leaf_value, read_leaf, Eval, SCORE_ONE};
use crate::movegen::{lemma_legal_moves, Move};
use crate::step::{lemma_pair_is_legal, lemma_step_undo, tick};

verus! {

/// `rand::rngs::ThreadRng`, the handle of a thread's random number generator,
/// carried as it is.
#[verifier::external_type_specification]
#[verifier::external_body]
pub struct ExThreadRng(rand::rngs::ThreadRng);

/// `rand::thread_rng`: the handle of the calling thread's generator. Nothing
/// is stated of it.
pub assume_specification[ rand::thread_rng ]() -> ThreadRng
;

/// `rand::seq::IteratorRandom::choose` on the range of indices from `start`
/// up to `end`: it returns one of them, whichever the generator picks, and
/// `None` exactly where the range is empty.
#[verifier::external_body]
fn choose_in_range(rng: &mut ThreadRng, start: usize, end: usize) -> (picked: Option<usize>)
    ensures
        picked is None <==> start >= end,
        picked matches Some(i) ==> start <= i < end,
{
    (start..end).choose(rng)
}

/// A run of consecutive indices of the arena.
#[derive(Clone, Copy, Debug)]
pub struct IdxRange {
    pub start: usize,
    pub len: usize,
}

/// A node of the tree: the half-move that leads to it, how often it was
/// visited and the sum of the scores credited to it, its parent and its
/// children.
#[derive(Clone, Copy, Debug)]
pub struct Node {
    pub move_to_here: Move,
    pub num_simulations: u32,
    pub score_total: u64,
    pub parent: Option<usize>,
    pub children: IdxRange,
}

/// The search: the position it starts from, the evaluator, the generator
/// and the arena.
pub struct Search<E: Eval> {
    start: Game,
    eval: E,
    rng: ThreadRng,
    tree: Vec<Node>,
}

/// The position after the half-move `mv` of the side to move in `g`. A move
/// of yours leaves the board and passes the turn; a move of the opponent
/// plays the tick of it and of `pending`, your move before it.
pub open spec fn half_move(g: GameView, pending: Move, mv: Move) -> GameView {
    match g.side {
        Side::You => GameView { side: Side::Them, ..g },
        Side::Them => GameView { side: Side::You, ..tick(g, seq![mv, pending]) },
    }
}

/// The position that node `i` stands for: `start` at the root, and below it
/// the parent's position after the node's half-move.
pub open spec fn position(tree: Seq<Node>, start: GameView, i: int) -> GameView
    decreases i,
{
    if i <= 0 || i >= tree.len() {
        start
    } else {
        match tree[i].parent {
            Some(p) => if p < i {
                half_move(
                    position(tree, start, p as int),
                    tree[p as int].move_to_here,
                    tree[i].move_to_here,
                )
            } else {
                start
            },
            None => start,
        }
    }
}

/// Every node but the root has a parent before it; every node stands for a
/// well-formed position; and where the opponent is to move, both snakes are
/// alive and the move that led there is a legal move of yours.
pub open spec fn linked(tree: Seq<Node>, start: GameView) -> bool {
    &&& tree.len() >= 1
    &&& tree[0].parent is None
    &&& start.wf()
    &&& start.side == Side::You
    &&& forall|i: int|
        1 <= i < tree.len() ==> ((#[trigger] tree[i]).parent matches Some(p) && p < i)
    &&& forall|i: int| 0 <= i < tree.len() ==> (#[trigger] position(tree, start, i)).wf()
    &&& forall|i: int|
        0 <= i < tree.len() && (#[trigger] position(tree, start, i)).side == Side::Them ==> {
            &&& !position(tree, start, i).is_terminal()
            &&& position(tree, start, i).moves_of(Side::You).contains(tree[i].move_to_here)
        }
}

/// The children of node `p` lie behind it in the arena, name it as their
/// parent, and hold the legal moves of the side to move in its position, in
/// their order; and that position is not terminal.
pub open spec fn branch_ok(tree: Seq<Node>, start: GameView, p: int) -> bool {
    let r = tree[p].children;
    let g = position(tree, start, p);
    let moves = g.moves_of(g.side);
    &&& p < r.start
    &&& r.start + r.len <= tree.len()
    &&& !g.is_terminal()
    &&& r.len == moves.len()
    &&& forall|c: int|
        r.start <= c < r.start + r.len ==> (#[trigger] tree[c]).parent == Some(p as usize)
            && tree[c].move_to_here == moves[c - r.start]
}

/// Every node that has children has them in order.
pub open spec fn branched(tree: Seq<Node>, start: GameView) -> bool {
    forall|p: int|
        0 <= p < tree.len() && (#[trigger] tree[p]).children.len > 0 ==> branch_ok(tree, start, p)
}

/// No node was visited more often than the root, and no node was credited
/// more than `SCORE_ONE` a visit.
pub open spec fn counted(tree: Seq<Node>) -> bool {
    forall|i: int|
        0 <= i < tree.len() ==> (#[trigger] tree[i]).num_simulations <= tree[0].num_simulations
            && tree[i].score_total <= tree[i].num_simulations * SCORE_ONE
}

/// The two arenas agree on parent and half-move of their first `n` nodes.
pub open spec fn same_links(a: Seq<Node>, b: Seq<Node>, n: int) -> bool {
    &&& n <= a.len()
    &&& n <= b.len()
    &&& forall|j: int|
        0 <= j < n ==> (#[trigger] a[j]).parent == b[j].parent && a[j].move_to_here
            == b[j].move_to_here
}

/// The score that a walk from node `leaf` up to the root, which starts with
/// `score` and turns it round at every step, credits to node `i`; `None`
/// where the walk does not pass `i`.
pub open spec fn credit(tree: Seq<Node>, leaf: int, i: int, score: int) -> Option<int>
    decreases leaf,
{
    if leaf == i {
        Some(score)
    } else if leaf <= 0 {
        None
    } else {
        match tree[leaf].parent {
            Some(p) => if p < leaf {
                credit(tree, p as int, i, SCORE_ONE - score)
            } else {
                None
            },
            None => None,
        }
    }
}

/// The node with one more visit and `c` more credit, where `c` is a score.
pub open spec fn credited(n: Node, c: Option<int>) -> Node {
    match c {
        Some(s) => Node {
            num_simulations: (n.num_simulations + 1) as u32,
            score_total: (n.score_total + s) as u64,
            ..n
        },
        None => n,
    }
}

/// The index of the greatest of `keys`, the last one among equals.
pub open spec fn is_last_greatest(keys: Seq<u64>, k: int) -> bool {
    &&& 0 <= k < keys.len()
    &&& forall|j: int| 0 <= j < keys.len() ==> keys[j] <= keys[k]
    &&& forall|j: int| k < j < keys.len() ==> keys[j] < keys[k]
}

/// The index of the greatest of `keys`; of several that are equal, the last.
pub fn argmax_last(keys: &Vec<u64>) -> (k: usize)
    requires
        keys@.len() > 0,
    ensures
        is_last_greatest(keys@, k as int),
{
    let mut k: usize = 0;
    let mut i: usize = 1;
    while i < keys.len()
        invariant
            1 <= i <= keys.len(),
            k < i,
            forall|j: int| 0 <= j < i ==> keys@[j] <= keys@[k as int],
            forall|j: int| k < j < i ==> keys@[j] < keys@[k as int],
        decreases keys.len() - i,
    {
        if keys[i] >= keys[k] {
            k = i;
        }
        i += 1;
    }
    k
}

/// Positions depend on the links alone: on arenas that agree on them, every
/// node stands for the same position.
pub proof fn lemma_position_frame(a: Seq<Node>, b: Seq<Node>, start: GameView, n: int, i: int)
    requires
        same_links(a, b, n),
        0 <= i < n,
    ensures
        position(a, start, i) == position(b, start, i),
    decreases i,
{
    if i > 0 {
        match a[i].parent {
            Some(p) => {
                if p < i {
                    lemma_position_frame(a, b, start, n, p as int);
                }
            },
            None => {},
        }
    }
}

/// A walk that starts below node `i` does not pass it.
pub proof fn lemma_credit_above(tree: Seq<Node>, leaf: int, i: int, score: int)
    requires
        leaf < i,
    ensures
        credit(tree, leaf, i, score) is None,
    decreases leaf,
{
    if leaf > 0 {
        match tree[leaf].parent {
            Some(p) => {
                if p < leaf {
                    lemma_credit_above(tree, p as int, i, SCORE_ONE - score);
                }
            },
            None => {},
        }
    }
}

impl IdxRange {
    /// The `len` indices from `start`.
    pub fn new(start: usize, len: usize) -> (r: Self)
        ensures
            r.start == start,
            r.len == len,
    {
        Self { start, len }
    }
}

impl Node {
    /// A node below `parent` that was never visited and has no children.
    pub fn new(parent: Option<usize>, move_to_here: Move) -> (n: Self)
        ensures
            n == (Node {
                move_to_here,
                num_simulations: 0,
                score_total: 0,
                parent,
                children: IdxRange { start: 0, len: 0 },
            }),
    {
        Node {
            move_to_here,
            num_simulations: 0,
            score_total: 0,
            children: IdxRange::new(0, 0),
            parent,
        }
    }

    /// Whether the node has children.
    pub fn expanded(&self) -> (r: bool)
        ensures
            r == (self.children.len != 0),
    {
        self.children.len != 0
    }
}

/// Plays the half-move `mv` of the side to move on `game`.
fn play(game: &mut Game, pending: Move, mv: Move)
    requires
        old(game)@.wf(),
        old(game)@.side == Side::Them ==> {
            &&& !old(game)@.is_terminal()
            &&& old(game)@.moves_of(Side::Them).contains(mv)
            &&& old(game)@.moves_of(Side::You).contains(pending)
        },
    ensures
        final(game)@ == half_move(old(game)@, pending, mv),
        final(game)@.wf(),
{
    match game.side {
        Side::You => {
            game.side = Side::Them;
        },
        Side::Them => {
            let mut pair: Vec<Move> = Vec::new();
            pair.push(mv);
            pair.push(pending);
            proof {
                assert(pair@ =~= seq![mv, pending]);
                lemma_pair_is_legal(game@, mv, pending);
            }
            let _ = game.step(&pair);
            game.side = Side::You;
        },
    }
}

/// A legal half-move from a well-formed position that is not terminal leads
/// to a well-formed position; after a move of yours both snakes are still
/// alive there and the move is still one of your legal moves.
pub proof fn lemma_half_move(g: GameView, pending: Move, m: Move)
    requires
        g.wf(),
        !g.is_terminal(),
        g.moves_of(g.side).contains(m),
        g.side == Side::Them ==> g.moves_of(Side::You).contains(pending),
    ensures
        half_move(g, pending, m).wf(),
        half_move(g, pending, m).side != g.side,
        half_move(g, pending, m).side == Side::Them ==> {
            &&& !half_move(g, pending, m).is_terminal()
            &&& half_move(g, pending, m).moves_of(Side::You).contains(m)
        },
{
    match g.side {
        Side::You => {
            let h = GameView { side: Side::Them, ..g };
            assert(h.moves_of(Side::You) == g.moves_of(Side::You));
        },
        Side::Them => {
            lemma_pair_is_legal(g, m, pending);
            lemma_step_undo(g, seq![m, pending]);
        },
    }
}

/// `t2` is `t` after node `node` was given the children `moves`: the node
/// names them, they follow the nodes of `t`, and nothing else differs.
pub open spec fn expanded_to(t: Seq<Node>, node: int, moves: Seq<Move>, t2: Seq<Node>) -> bool {
    &&& 0 <= node < t.len()
    &&& t2.len() == t.len() + moves.len()
    &&& t2.len() <= usize::MAX
    &&& t2[node] == (Node {
        children: IdxRange { start: t.len() as usize, len: moves.len() as usize },
        ..t[node]
    })
    &&& forall|j: int| 0 <= j < t.len() && j != node ==> #[trigger] t2[j] == t[j]
    &&& forall|c: int|
        t.len() <= c < t2.len() ==> #[trigger] t2[c] == (Node {
            move_to_here: moves[c - t.len()],
            num_simulations: 0,
            score_total: 0,
            parent: Some(node as usize),
            children: IdxRange { start: 0, len: 0 },
        })
}

/// The nodes that an arena had before it grew stand for the positions they
/// stood for.
pub proof fn lemma_positions_kept(t: Seq<Node>, t2: Seq<Node>, start: GameView)
    requires
        same_links(t, t2, t.len() as int),
    ensures
        forall|i: int|
            0 <= i < t.len() ==> #[trigger] position(t2, start, i) == position(t, start, i),
{
    assert forall|i: int| 0 <= i < t.len() implies #[trigger] position(t2, start, i) == position(
        t,
        start,
        i,
    ) by {
        lemma_position_frame(t, t2, start, t.len() as int, i);
    }
}

/// The arena after node `node`, which stands for a position that is not
/// terminal, was given one child for each legal move of the side to move:
/// it is in order as it was before, and the nodes it had stand for the
/// positions they stood for.
pub proof fn lemma_expand(t: Seq<Node>, start: GameView, node: int, t2: Seq<Node>)
    requires
        linked(t, start),
        branched(t, start),
        counted(t),
        0 <= node < t.len(),
        t[node].children.len == 0,
        !position(t, start, node).is_terminal(),
        expanded_to(
            t,
            node,
            position(t, start, node).moves_of(position(t, start, node).side),
            t2,
        ),
    ensures
        linked(t2, start),
        branched(t2, start),
        counted(t2),
        same_links(t, t2, t.len() as int),
        forall|i: int|
            0 <= i < t.len() ==> #[trigger] position(t2, start, i) == position(t, start, i),
{
    lemma_positions_kept(t, t2, start);
    lemma_expand_linked(t, start, node, t2);
    lemma_expand_branched(t, start, node, t2);
    assert forall|i: int| 0 <= i < t2.len() implies (#[trigger] t2[i]).num_simulations
        <= t2[0].num_simulations && t2[i].score_total <= t2[i].num_simulations * SCORE_ONE by {
        if i < t.len() {
            assert(t[i].num_simulations <= t[0].num_simulations);
        }
    }
}

proof fn lemma_expand_linked(t: Seq<Node>, start: GameView, node: int, t2: Seq<Node>)
    requires
        linked(t, start),
        0 <= node < t.len(),
        !position(t, start, node).is_terminal(),
        expanded_to(
            t,
            node,
            position(t, start, node).moves_of(position(t, start, node).side),
            t2,
        ),
        forall|i: int|
            0 <= i < t.len() ==> #[trigger] position(t2, start, i) == position(t, start, i),
    ensures
        linked(t2, start),
{
    let g = position(t, start, node);
    let moves = g.moves_of(g.side);
    let n = t.len() as int;
    assert forall|i: int| 1 <= i < t2.len() implies ((#[trigger] t2[i]).parent matches Some(p)
        && p < i) by {
        if i < n {
            assert(t[i].parent matches Some(p) && p < i);
        }
    }
    assert forall|i: int| 0 <= i < t2.len() implies (#[trigger] position(t2, start, i)).wf() && (
    position(t2, start, i).side == Side::Them ==> !position(t2, start, i).is_terminal()
        && position(t2, start, i).moves_of(Side::You).contains(t2[i].move_to_here)) by {
        if i < n {
            assert(position(t, start, i).wf());
            assert(t2[i].move_to_here == t[i].move_to_here);
        } else {
            let m = moves[i - n];
            assert(moves.contains(m));
            assert(t2[i].parent == Some(node as usize));
            assert(position(t2, start, node) == g);
            assert(position(t2, start, i) == half_move(g, t2[node].move_to_here, m));
            assert(g.wf());
            lemma_half_move(g, t[node].move_to_here, m);
        }
    }
}

proof fn lemma_expand_branched(t: Seq<Node>, start: GameView, node: int, t2: Seq<Node>)
    requires
        linked(t, start),
        branched(t, start),
        0 <= node < t.len(),
        t[node].children.len == 0,
        !position(t, start, node).is_terminal(),
        expanded_to(
            t,
            node,
            position(t, start, node).moves_of(position(t, start, node).side),
            t2,
        ),
        forall|i: int|
            0 <= i < t.len() ==> #[trigger] position(t2, start, i) == position(t, start, i),
    ensures
        branched(t2, start),
{
    let n = t.len() as int;
    assert forall|p: int| 0 <= p < t2.len() && (#[trigger] t2[p]).children.len > 0 implies branch_ok(
        t2,
        start,
        p,
    ) by {
        assert(position(t2, start, p) == position(t, start, p)) by {
            if p >= n {
                assert(t2[p].children.len == 0);
            }
        }
        if p == node {
        } else if p < n {
            assert(t2[p] == t[p]);
            assert(branch_ok(t, start, p));
            let r = t[p].children;
            let moves = position(t, start, p).moves_of(position(t, start, p).side);
            assert forall|c: int| r.start <= c < r.start + r.len implies (#[trigger] t2[c]).parent
                == Some(p as usize) && t2[c].move_to_here == moves[c - r.start] by {
                assert(t[c].parent == Some(p as usize));
            }
        }
    }
}

/// The two arenas differ in what a walk from `leaf` with `score` credits,
/// and in nothing else.
pub open spec fn credited_walk(t: Seq<Node>, t2: Seq<Node>, leaf: int, score: int) -> bool {
    &&& t2.len() == t.len()
    &&& forall|i: int|
        0 <= i < t.len() ==> #[trigger] t2[i] == credited(t[i], credit(t, leaf, i, score))
}

/// An arena in order is still in order after a walk was credited, as long as
/// the root's visits can still be counted.
pub proof fn lemma_credited_walk(
    t: Seq<Node>,
    t2: Seq<Node>,
    start: GameView,
    leaf: int,
    score: int,
)
    requires
        linked(t, start),
        branched(t, start),
        counted(t),
        0 <= leaf < t.len(),
        0 <= score <= SCORE_ONE,
        t[0].num_simulations < u32::MAX,
        credited_walk(t, t2, leaf, score),
    ensures
        linked(t2, start),
        branched(t2, start),
        counted(t2),
        same_links(t, t2, t.len() as int),
        t2[0].num_simulations == t[0].num_simulations + 1,
{
    lemma_walk_reaches_root(t, start, leaf, score);
    assert(same_links(t, t2, t.len() as int));
    lemma_positions_kept(t, t2, start);
    assert forall|i: int| 0 <= i < t2.len() implies (#[trigger] t2[i]).num_simulations
        <= t2[0].num_simulations && t2[i].score_total <= t2[i].num_simulations * SCORE_ONE by {
        lemma_credit_is_score(t, leaf, i, score);
        assert(t[i].num_simulations <= t[0].num_simulations);
        let v = t[i].num_simulations;
        let total = t[i].score_total;
        assert(total + SCORE_ONE <= (v + 1) * SCORE_ONE) by (nonlinear_arith)
            requires
                total <= v * SCORE_ONE,
        ;
    }
    assert forall|i: int| 1 <= i < t2.len() implies ((#[trigger] t2[i]).parent matches Some(p)
        && p < i) by {
        assert(t[i].parent matches Some(p) && p < i);
    }
    assert forall|i: int| 0 <= i < t2.len() implies (#[trigger] position(t2, start, i)).wf() && (
    position(t2, start, i).side == Side::Them ==> !position(t2, start, i).is_terminal()
        && position(t2, start, i).moves_of(Side::You).contains(t2[i].move_to_here)) by {
        assert(position(t, start, i).wf());
        assert(t2[i].move_to_here == t[i].move_to_here);
    }
    assert forall|p: int| 0 <= p < t2.len() && (#[trigger] t2[p]).children.len > 0 implies branch_ok(
        t2,
        start,
        p,
    ) by {
        assert(t2[p].children == t[p].children);
        assert(branch_ok(t, start, p));
        let r = t[p].children;
        let moves = position(t, start, p).moves_of(position(t, start, p).side);
        assert forall|c: int| r.start <= c < r.start + r.len implies (#[trigger] t2[c]).parent
            == Some(p as usize) && t2[c].move_to_here == moves[c - r.start] by {
            assert(t[c].parent == Some(p as usize));
        }
    }
}

/// What a walk credits is a score where it starts with one.
pub proof fn lemma_credit_is_score(tree: Seq<Node>, leaf: int, i: int, score: int)
    requires
        0 <= score <= SCORE_ONE,
    ensures
        credit(tree, leaf, i, score) matches Some(c) ==> 0 <= c <= SCORE_ONE,
    decreases leaf,
{
    if leaf != i && leaf > 0 {
        match tree[leaf].parent {
            Some(p) => {
                if p < leaf {
                    lemma_credit_is_score(tree, p as int, i, SCORE_ONE - score);
                }
            },
            None => {},
        }
    }
}

/// The score that a round reads at the position `g`, as the side sees it
/// that moved last: the evaluator's where you are to move, and what is left
/// of `SCORE_ONE` where the opponent is.
pub open spec fn reading<E: Eval>(e: E, g: GameView) -> int {
    match g.side {
        Side::You => leaf_value(e, g),
        Side::Them => SCORE_ONE - leaf_value(e, g),
    }
}

/// `t` is `before` after the walk down has ended at `node`, a node without
/// children: unchanged where the position of `node` is terminal, and `leaf`
/// is then `node`; and else with one child of `node` for each legal move of
/// the side to move there, of which `leaf` is one.
pub open spec fn grown(
    before: Seq<Node>,
    start: GameView,
    node: int,
    leaf: int,
    t: Seq<Node>,
) -> bool {
    let g = position(before, start, node);
    &&& 0 <= node < before.len()
    &&& before[node].children.len == 0
    &&& if g.is_terminal() {
        t == before && leaf == node
    } else {
        &&& expanded_to(before, node, g.moves_of(g.side), t)
        &&& before.len() <= leaf < t.len()
    }
}

/// `c` is the child of `p` that the walk down takes: the one with the
/// greatest of the keys that `uct` gives for the children of `p`, the last
/// among equals.
pub open spec fn takes<F: Fn(u32, u32, u64) -> u64>(
    uct: F,
    tree: Seq<Node>,
    p: int,
    c: int,
) -> bool {
    let r = tree[p].children;
    exists|keys: Seq<u64>|
        {
            &&& keys.len() == r.len
            &&& forall|k: int|
                0 <= k < r.len ==> call_ensures(
                    uct,
                    (
                        tree[p].num_simulations,
                        tree[r.start + k].num_simulations,
                        tree[r.start + k].score_total,
                    ),
                    #[trigger] keys[k],
                )
            &&& r.start <= c < r.start + r.len
            &&& is_last_greatest(keys, c - r.start)
        }
}

/// The walk down from the root leads to node `i`: each node on the way is
/// the child that the walk takes at its parent.
pub open spec fn walked_to<F: Fn(u32, u32, u64) -> u64>(uct: F, tree: Seq<Node>, i: int) -> bool
    decreases i,
{
    if i <= 0 {
        i == 0
    } else {
        match tree[i].parent {
            Some(p) => p < i && takes(uct, tree, p as int, i) && walked_to(uct, tree, p as int),
            None => false,
        }
    }
}

/// One round leads from `before` to `after`: the walk down leads to `node`,
/// the arena grows to `t` below it, and the walk back from `leaf` credits
/// `score`, which is what the evaluator reads at the position of `leaf` if
/// it is deterministic.
pub open spec fn one_round<E: Eval, F: Fn(u32, u32, u64) -> u64>(
    e: E,
    uct: F,
    before: Seq<Node>,
    after: Seq<Node>,
    start: GameView,
    node: int,
    leaf: int,
    score: int,
    t: Seq<Node>,
) -> bool {
    &&& walked_to(uct, before, node)
    &&& grown(before, start, node, leaf, t)
    &&& 0 <= score <= SCORE_ONE
    &&& deterministic(e) ==> score == reading(e, position(t, start, leaf))
    &&& credited_walk(t, after, leaf, score)
}

impl<E: Eval> Search<E> {
    /// The nodes of the arena.
    pub closed spec fn nodes(&self) -> Seq<Node> {
        self.tree@
    }

    /// The position that the search starts from.
    pub closed spec fn root(&self) -> GameView {
        self.start@
    }

    /// The evaluator that the search reads.
    pub closed spec fn evaluator(&self) -> E {
        self.eval
    }

    /// The arena is a tree in order over the starting position.
    pub open spec fn wf(&self) -> bool {
        &&& linked(self.nodes(), self.root())
        &&& branched(self.nodes(), self.root())
        &&& counted(self.nodes())
    }

    /// Number of nodes of the arena.
    pub fn size(&self) -> (n: usize)
        ensures
            n == self.nodes().len(),
    {
        self.tree.len()
    }

    /// Node `i` of the arena, if there is one.
    pub fn node(&self, i: usize) -> (r: Option<Node>)
        ensures
            r == if i < self.nodes().len() {
                Some(self.nodes()[i as int])
            } else {
                None
            },
    {
        if i < self.tree.len() {
            Some(self.tree[i])
        } else {
            None
        }
    }

    /// The mean score of the root: the sum credited to it by the number of
    /// its visits, rounded down; `None` before the first visit.
    pub fn root_score(&self) -> (r: Option<i64>)
        requires
            self.wf(),
        ensures
            match r {
                None => self.nodes()[0].num_simulations == 0,
                Some(mean) => self.nodes()[0].num_simulations > 0 && mean == self.nodes()[0].score_total
                    / (self.nodes()[0].num_simulations as u64) && 0 <= mean <= SCORE_ONE,
            },
    {
        let root = self.tree[0];
        if root.num_simulations == 0 {
            None
        } else {
            let visits = root.num_simulations as u64;
            let total = root.score_total;
            assert(total / visits <= SCORE_ONE) by (nonlinear_arith)
                requires
                    total <= visits * SCORE_ONE,
                    visits > 0,
            ;
            Some((total / visits) as i64)
        }
    }

    /// A search from `game` with the root as its only node.
    pub fn new(game: Game, eval: E) -> (s: Search<E>)
        requires
            game@.wf(),
            game@.side == Side::You,
        ensures
            s.wf(),
            s.root() == game@,
            s.evaluator() == eval,
            s.nodes() == seq![
                Node {
                    move_to_here: Move { move_type: crate::movegen::MoveType::Death, id: 0 },
                    num_simulations: 0,
                    score_total: 0,
                    parent: None,
                    children: IdxRange { start: 0, len: 0 },
                },
            ],
    {
        let mut tree: Vec<Node> = Vec::new();
        tree.push(Node::new(None, Move::new_death(0)));
        Search { tree, start: game, eval, rng: rand::thread_rng() }
    }

    /// One round of the search: it walks from the root to a leaf, by the
    /// child with the greatest key at each node, gives the leaf its children,
    /// steps to one of them at random, reads the evaluator there, and credits
    /// the score to every node of the way back, turned round at every step.
    ///
    /// `uct` gives the key of a child from the visits of its parent, its own
    /// visits and the sum credited to it; of equal keys the last child wins.
    pub fn iterate<F: Fn(u32, u32, u64) -> u64>(&mut self, uct: &F)
        requires
            old(self).wf(),
            old(self).nodes()[0].num_simulations < u32::MAX,
            old(self).nodes().len() + 4 <= usize::MAX,
            forall|a: u32, b: u32, c: u64| call_requires(uct, (a, b, c)),
        ensures
            final(self).wf(),
            final(self).root() == old(self).root(),
            final(self).evaluator() == old(self).evaluator(),
            final(self).nodes()[0].num_simulations == old(self).nodes()[0].num_simulations + 1,
            old(self).nodes().len() <= final(self).nodes().len() <= old(self).nodes().len() + 4,
            same_links(old(self).nodes(), final(self).nodes(), old(self).nodes().len() as int),
            exists|node: int, leaf: int, score: int, t: Seq<Node>|
                one_round(
                    old(self).evaluator(),
                    *uct,
                    old(self).nodes(),
                    final(self).nodes(),
                    old(self).root(),
                    node,
                    leaf,
                    score,
                    t,
                ),
    {
        let mut game = self.start.clone();
        let next_leaf = self.next_leaf_node(&mut game, uct);
        let score = self.score(&game);
        let ghost before = self.nodes();
        self.backprop(next_leaf, score);
        proof {
            let node = choose|node: int|
                walked_to(*uct, old(self).nodes(), node) && grown(
                    old(self).nodes(),
                    old(self).root(),
                    node,
                    next_leaf as int,
                    before,
                );
            assert(one_round(
                old(self).evaluator(),
                *uct,
                old(self).nodes(),
                self.nodes(),
                old(self).root(),
                node,
                next_leaf as int,
                score as int,
                before,
            ));
            lemma_credited_walk(
                before,
                self.nodes(),
                self.root(),
                next_leaf as int,
                score as int,
            );
            assert forall|j: int| 0 <= j < old(self).nodes().len() implies (
            #[trigger] old(self).nodes()[j]).parent == self.nodes()[j].parent && old(
                self,
            ).nodes()[j].move_to_here == self.nodes()[j].move_to_here by {
                assert(old(self).nodes()[j].parent == before[j].parent);
            }
        }
    }

    /// The score of the position that a walk has reached, as the side sees
    /// it that moved last: the evaluator's where you are to move, and what
    /// is left of `SCORE_ONE` where the opponent is.
    fn score(&self, game: &Game) -> (s: i64)
        requires
            game@.wf(),
        ensures
            deterministic(self.evaluator()) ==> s == reading(self.evaluator(), game@),
            0 <= s <= SCORE_ONE,
    {
        let v = read_leaf(&self.eval, game);
        match game.side {
            Side::You => v,
            Side::Them => SCORE_ONE - v,
        }
    }

    /// Walks from the root to a node without children, gives it children
    /// unless its position is terminal, and steps to one of them at random.
    /// Returns the node reached; `game` is then its position.
    fn next_leaf_node<F: Fn(u32, u32, u64) -> u64>(&mut self, game: &mut Game, uct: &F) -> (leaf:
        usize)
        requires
            old(self).wf(),
            old(game)@ == old(self).root(),
            old(self).nodes().len() + 4 <= usize::MAX,
            forall|a: u32, b: u32, c: u64| call_requires(uct, (a, b, c)),
        ensures
            final(self).wf(),
            final(self).root() == old(self).root(),
            final(self).evaluator() == old(self).evaluator(),
            old(self).nodes().len() <= final(self).nodes().len() <= old(self).nodes().len() + 4,
            same_links(old(self).nodes(), final(self).nodes(), old(self).nodes().len() as int),
            final(self).nodes()[0].num_simulations == old(self).nodes()[0].num_simulations,
            leaf < final(self).nodes().len(),
            final(game)@ == position(final(self).nodes(), final(self).root(), leaf as int),
            final(game)@.wf(),
            exists|node: int|
                walked_to(*uct, old(self).nodes(), node) && grown(
                    old(self).nodes(),
                    old(self).root(),
                    node,
                    leaf as int,
                    final(self).nodes(),
                ),
    {
        let mut best_node: usize = 0;
        while self.tree[best_node].expanded()
            invariant
                *self == *old(self),
                self.wf(),
                best_node < self.tree@.len(),
                game@ == position(self.nodes(), self.root(), best_node as int),
                walked_to(*uct, self.nodes(), best_node as int),
                forall|a: u32, b: u32, c: u64| call_requires(uct, (a, b, c)),
            decreases self.tree@.len() - best_node,
        {
            best_node = self.pick_child(game, best_node, uct);
        }
        self.expand(best_node, game);
        let leaf = self.pick_random(best_node, game);
        proof {
            assert(walked_to(*uct, old(self).nodes(), best_node as int) && grown(
                old(self).nodes(),
                old(self).root(),
                best_node as int,
                leaf as int,
                self.nodes(),
            ));
        }
        leaf
    }

    /// Gives `node` one child for each legal move of the side to move in its
    /// position `game`, unless that position is terminal.
    fn expand(&mut self, node: usize, game: &Game)
        requires
            old(self).wf(),
            node < old(self).nodes().len(),
            old(self).nodes()[node as int].children.len == 0,
            game@ == position(old(self).nodes(), old(self).root(), node as int),
            old(self).nodes().len() + 4 <= usize::MAX,
        ensures
            final(self).wf(),
            final(self).root() == old(self).root(),
            final(self).evaluator() == old(self).evaluator(),
            old(self).nodes().len() <= final(self).nodes().len() <= old(self).nodes().len() + 4,
            same_links(old(self).nodes(), final(self).nodes(), old(self).nodes().len() as int),
            final(self).nodes()[0].num_simulations == old(self).nodes()[0].num_simulations,
            game@.is_terminal() <==> final(self).nodes()[node as int].children.len == 0,
            game@.is_terminal() ==> final(self).nodes() == old(self).nodes(),
            !game@.is_terminal() ==> expanded_to(
                old(self).nodes(),
                node as int,
                game@.moves_of(game@.side),
                final(self).nodes(),
            ),
            forall|i: int|
                0 <= i < old(self).nodes().len() ==> #[trigger] position(
                    final(self).nodes(),
                    final(self).root(),
                    i,
                ) == position(old(self).nodes(), old(self).root(), i),
    {
        if game.is_terminal() {
            return ;
        }
        let ghost t = self.tree@;
        proof {
            assert(position(t, self.root(), node as int).wf());
            lemma_legal_moves(game@.board, game@.id_of(game@.side));
        }
        let moves = game.get_current_side_moves();
        let n = self.tree.len();
        let mut parent = self.tree[node];
        parent.children = IdxRange::new(n, moves.len());
        self.tree[node] = parent;
        let mut i: usize = 0;
        while i < moves.len()
            invariant
                i <= moves.len(),
                moves@.len() <= 4,
                n == t.len(),
                n + 4 <= usize::MAX,
                node < n,
                self.tree@.len() == n + i,
                self.start == old(self).start,
                self.eval == old(self).eval,
                self.tree@[node as int] == (Node {
                    children: IdxRange { start: n, len: moves@.len() as usize },
                    ..t[node as int]
                }),
                forall|j: int| 0 <= j < n && j != node ==> #[trigger] self.tree@[j] == t[j],
                forall|c: int|
                    n <= c < n + i ==> #[trigger] self.tree@[c] == (Node {
                        move_to_here: moves@[c - n],
                        num_simulations: 0,
                        score_total: 0,
                        parent: Some(node),
                        children: IdxRange { start: 0, len: 0 },
                    }),
            decreases moves.len() - i,
        {
            self.tree.push(Node::new(Some(node), moves[i]));
            i += 1;
        }
        proof {
            assert(expanded_to(t, node as int, moves@, self.tree@));
            lemma_expand(t, self.root(), node as int, self.tree@);
        }
    }

    /// Steps from `node` to one of its children at random, where it has any,
    /// and returns the node reached.
    fn pick_random(&mut self, node: usize, game: &mut Game) -> (idx: usize)
        requires
            old(self).wf(),
            node < old(self).nodes().len(),
            old(game)@ == position(old(self).nodes(), old(self).root(), node as int),
        ensures
            final(self).nodes() == old(self).nodes(),
            final(self).root() == old(self).root(),
            final(self).evaluator() == old(self).evaluator(),
            idx < final(self).nodes().len(),
            final(game)@ == position(final(self).nodes(), final(self).root(), idx as int),
            final(game)@.wf(),
            old(self).nodes()[node as int].children.len == 0 ==> idx == node,
            old(self).nodes()[node as int].children.len > 0 ==> old(self).nodes()[idx as int].parent
                == Some(node) && old(self).nodes()[node as int].children.start <= idx < old(
                self,
            ).nodes()[node as int].children.start + old(self).nodes()[node as int].children.len,
    {
        let range = self.tree[node].children;
        let size = self.tree.len();
        proof {
            assert(position(self.nodes(), self.root(), node as int).wf());
            if range.len > 0 {
                assert(branch_ok(self.nodes(), self.root(), node as int));
            }
        }
        if range.len == 0 {
            return node;
        }
        match choose_in_range(&mut self.rng, range.start, range.start + range.len) {
            Some(idx) => {
                self.descend(game, node, idx);
                idx
            },
            None => node,
        }
    }

    /// Plays on `game` the half-move that leads from `node` to its child
    /// `idx`.
    fn descend(&self, game: &mut Game, node: usize, idx: usize)
        requires
            self.wf(),
            node < self.nodes().len(),
            old(game)@ == position(self.nodes(), self.root(), node as int),
            self.nodes()[node as int].children.start <= idx < self.nodes()[node as int].children.start
                + self.nodes()[node as int].children.len,
        ensures
            idx < self.nodes().len(),
            node < idx,
            self.nodes()[idx as int].parent == Some(node),
            final(game)@ == position(self.nodes(), self.root(), idx as int),
            final(game)@.wf(),
    {
        let ghost g = game@;
        proof {
            assert(branch_ok(self.nodes(), self.root(), node as int));
            assert(self.nodes()[idx as int].parent == Some(node));
            assert(position(self.nodes(), self.root(), node as int).wf());
            let moves = g.moves_of(g.side);
            let m = self.nodes()[idx as int].move_to_here;
            assert(m == moves[idx - self.nodes()[node as int].children.start]);
            assert(moves.contains(m));
            assert(position(self.nodes(), self.root(), idx as int).wf());
        }
        play(game, self.tree[node].move_to_here, self.tree[idx].move_to_here);
    }

    /// Steps from `best_node` to the child with the greatest key, the last
    /// one among equals, and returns it.
    fn pick_child<F: Fn(u32, u32, u64) -> u64>(
        &self,
        game: &mut Game,
        best_node: usize,
        uct: &F,
    ) -> (idx: usize)
        requires
            self.wf(),
            best_node < self.nodes().len(),
            self.nodes()[best_node as int].children.len > 0,
            old(game)@ == position(self.nodes(), self.root(), best_node as int),
            forall|a: u32, b: u32, c: u64| call_requires(uct, (a, b, c)),
        ensures
            best_node < idx < self.nodes().len(),
            self.nodes()[idx as int].parent == Some(best_node),
            takes(*uct, self.nodes(), best_node as int, idx as int),
            final(game)@ == position(self.nodes(), self.root(), idx as int),
            final(game)@.wf(),
    {
        let node = self.tree[best_node];
        let range = node.children;
        proof {
            assert(branch_ok(self.nodes(), self.root(), best_node as int));
        }
        let size = self.tree.len();
        let mut keys: Vec<u64> = Vec::new();
        let mut i: usize = 0;
        while i < range.len
            invariant
                i <= range.len,
                keys@.len() == i,
                size == self.tree@.len(),
                range.start + range.len <= size,
                forall|a: u32, b: u32, c: u64| call_requires(uct, (a, b, c)),
                forall|k: int|
                    0 <= k < i ==> call_ensures(
                        *uct,
                        (
                            node.num_simulations,
                            self.tree@[range.start + k].num_simulations,
                            self.tree@[range.start + k].score_total,
                        ),
                        #[trigger] keys@[k],
                    ),
            decreases range.len - i,
        {
            let child = self.tree[range.start + i];
            keys.push(uct(node.num_simulations, child.num_simulations, child.score_total));
            i += 1;
        }
        let highest_index = range.start + argmax_last(&keys);
        assert(takes(*uct, self.nodes(), best_node as int, highest_index as int));
        self.descend(game, best_node, highest_index);
        highest_index
    }

    /// Credits `score` to `leaf` and, turned round at every step, to each
    /// node on the way up to the root, and counts one more visit for each.
    fn backprop(&mut self, leaf: usize, score: i64)
        requires
            old(self).wf(),
            leaf < old(self).nodes().len(),
            0 <= score <= SCORE_ONE,
            old(self).nodes()[0].num_simulations < u32::MAX,
        ensures
            final(self).root() == old(self).root(),
            final(self).evaluator() == old(self).evaluator(),
            credited_walk(old(self).nodes(), final(self).nodes(), leaf as int, score as int),
    {
        let ghost t = self.tree@;
        let mut current_node = leaf;
        let mut credit_now = score;
        proof {
            assert forall|i: int| leaf < i < t.len() implies credit(t, leaf as int, i, score as int)
                is None by {
                lemma_credit_above(t, leaf as int, i, score as int);
            }
        }
        loop
            invariant_except_break
                forall|i: int|
                    current_node < i < t.len() ==> #[trigger] self.tree@[i] == credited(
                        t[i],
                        credit(t, leaf as int, i, score as int),
                    ),
                forall|i: int| 0 <= i <= current_node ==> #[trigger] self.tree@[i] == t[i],
                forall|i: int|
                    0 <= i <= current_node ==> #[trigger] credit(t, leaf as int, i, score as int)
                        == credit(t, current_node as int, i, credit_now as int),
            invariant
                self.start == old(self).start,
                self.eval == old(self).eval,
                t == old(self).tree@,
                linked(t, old(self).root()),
                counted(t),
                t[0].num_simulations < u32::MAX,
                self.tree@.len() == t.len(),
                current_node < t.len(),
                0 <= credit_now <= SCORE_ONE,
            ensures
                self.start == old(self).start,
                self.eval == old(self).eval,
                credited_walk(t, self.tree@, leaf as int, score as int),
            decreases current_node,
        {
            let mut node = self.tree[current_node];
            let ghost here = current_node as int;
            proof {
                assert(node == t[here]);
                assert(t[here].num_simulations <= t[0].num_simulations);
                assert(node.score_total + credit_now <= u64::MAX) by (nonlinear_arith)
                    requires
                        node.score_total <= node.num_simulations * SCORE_ONE,
                        node.num_simulations < u32::MAX,
                        0 <= credit_now <= SCORE_ONE,
                ;
                assert(credit(t, leaf as int, here, score as int) == Some(credit_now as int));
                match t[here].parent {
                    Some(p) => {
                        assert(here >= 1);
                        assert(t[here].parent matches Some(q) && q < here);
                        assert forall|i: int| 0 <= i < here implies #[trigger] credit(
                            t,
                            leaf as int,
                            i,
                            score as int,
                        ) == credit(t, p as int, i, SCORE_ONE - credit_now) by {
                            assert(credit(t, here, i, credit_now as int) == credit(
                                t,
                                p as int,
                                i,
                                SCORE_ONE - credit_now,
                            ));
                        }
                        assert forall|i: int| p < i < here implies credit(
                            t,
                            leaf as int,
                            i,
                            score as int,
                        ) is None by {
                            lemma_credit_above(t, p as int, i, SCORE_ONE - credit_now);
                        }
                    },
                    None => {
                        assert(here == 0) by {
                            if here >= 1 {
                                assert(t[here].parent matches Some(q) && q < here);
                            }
                        }
                    },
                }
            }
            node.score_total = node.score_total + credit_now as u64;
            node.num_simulations = node.num_simulations + 1;
            let parent = node.parent;
            self.tree[current_node] = node;
            assert(self.tree@[here] == credited(t[here], Some(credit_now as int)));
            match parent {
                Some(node_idx) => {
                    credit_now = SCORE_ONE - credit_now;
                    current_node = node_idx;
                },
                None => {
                    break ;
                },
            }
        }
    }
}

/// Every walk up passes the root; so a round credits a score to it.
pub proof fn lemma_walk_reaches_root(tree: Seq<Node>, start: GameView, leaf: int, score: int)
    requires
        linked(tree, start),
        0 <= leaf < tree.len(),
    ensures
        credit(tree, leaf, 0, score) is Some,
    decreases leaf,
{
    if leaf > 0 {
        assert(tree[leaf].parent matches Some(p) && p < leaf);
        lemma_walk_reaches_root(tree, start, tree[leaf].parent.unwrap() as int, SCORE_ONE - score);
    }
}

} // verus!
