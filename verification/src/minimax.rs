//! Alpha-beta minimax with iterative deepening for the game of two snakes
//! that move at once.
//!
//! A tick is searched as two half-plies. In the maximizing half-ply the
//! search tries each of your moves without touching the board; in the
//! minimizing half-ply it joins each of the opponent's moves to the move
//! carried in, plays the tick, searches one level lower and takes the tick
//! back. A table of moves, indexed by the hash of the position, only decides
//! which candidate is tried first.

use vstd::prelude::*;

use crate::board::{position_hash, Game, GameView, Side};
use crate::eval::{
    deterministic, leaf_value, read_leaf, Eval, SCORE_LIMIT, SCORE_ONE,
};
use crate::bitboard::lemma_union_holds;
use crate::movegen::{lemma_legal_moves, open_squares, Move, MoveType};
use crate::step::{lemma_pair_is_legal, lemma_step_undo, tick};

verus! {

/// The moves last recorded for the positions of one slot of the table.
#[derive(Clone, Copy)]
pub struct TableEntry {
    pub you: Option<Move>,
    pub them: Option<Move>,
}

struct MoveTable {
    inner: Vec<TableEntry>,
}

/// Counters for instrumentation: half-moves tried, and candidates that the
/// table moved to the front. They stop at `u64::MAX`.
#[derive(Clone, Copy)]
pub struct Stats {
    pub node_count: u64,
    pub tt_hits: u64,
}

/// The minimax search: the table of moves, the evaluator and the counters.
pub struct Search<E: Eval> {
    move_table: MoveTable,
    eval: E,
    pub statistics: Stats,
}

/// The minimax value of `g` searched `depth` ticks deep: what the evaluator
/// reads where the game is over or the depth is 0, and else the best, over
/// your moves, of the worst that the opponent's reply leaves.
pub open spec fn value<E: Eval>(e: E, g: GameView, depth: nat) -> int
    decreases depth, 3nat, 0nat,
{
    if g.is_terminal() || depth == 0 {
        leaf_value(e, g)
    } else {
        best_of(e, g, depth, g.moves_of(Side::You), g.moves_of(Side::You).len())
    }
}

/// The greatest `reply_value` of the first `n` of `moves`; below every score
/// where `n` is 0.
pub open spec fn best_of<E: Eval>(e: E, g: GameView, depth: nat, moves: Seq<Move>, n: nat) -> int
    decreases depth, 2nat, n,
{
    if n == 0 || depth == 0 {
        -SCORE_LIMIT
    } else {
        let rest = best_of(e, g, depth, moves, (n - 1) as nat);
        let this = reply_value(e, g, depth, moves[n - 1]);
        if this > rest {
            this
        } else {
            rest
        }
    }
}

/// The value of `g` for you once you are set on `you_move`: the least, over
/// the opponent's moves, of the value of the position after the tick,
/// searched one tick less deep.
pub open spec fn reply_value<E: Eval>(e: E, g: GameView, depth: nat, you_move: Move) -> int
    decreases depth, 1nat, 0nat,
{
    worst_of(e, g, depth, you_move, g.moves_of(Side::Them), g.moves_of(Side::Them).len())
}

/// The least value after the tick of `you_move` with one of the first `n` of
/// `moves`; above every score where `n` is 0.
pub open spec fn worst_of<E: Eval>(
    e: E,
    g: GameView,
    depth: nat,
    you_move: Move,
    moves: Seq<Move>,
    n: nat,
) -> int
    decreases depth, 0nat, n,
{
    if n == 0 || depth == 0 {
        SCORE_LIMIT as int
    } else {
        let rest = worst_of(e, g, depth, you_move, moves, (n - 1) as nat);
        let this = value(e, tick(g, seq![moves[n - 1], you_move]), (depth - 1) as nat);
        if this < rest {
            this
        } else {
            rest
        }
    }
}

/// The value that a half-ply computes: `value` in the maximizing one,
/// `reply_value` of the move carried in in the minimizing one.
pub open spec fn node_value<E: Eval>(
    e: E,
    g: GameView,
    depth: nat,
    maximizing: bool,
    you_move: Option<Move>,
) -> int {
    if maximizing {
        value(e, g, depth)
    } else {
        reply_value(e, g, depth, you_move.unwrap())
    }
}

/// What a search in the window from `alpha` to `beta` tells of the value `v`:
/// `r` is `v` where `v` lies inside the window, and lies on the same side of
/// the window as `v` where it does not.
pub open spec fn within(r: int, v: int, alpha: int, beta: int) -> bool {
    &&& v <= alpha ==> r <= alpha
    &&& v >= beta ==> r >= beta
    &&& alpha < v < beta ==> r == v
}

/// `s` with the elements at 0 and at `k` exchanged.
pub open spec fn swapped(s: Seq<Move>, k: int) -> Seq<Move> {
    s.update(0, s[k]).update(k, s[0])
}

/// `i` is the first place of `m` in `s`.
pub open spec fn is_first(s: Seq<Move>, m: Move, i: int) -> bool {
    &&& 0 <= i < s.len()
    &&& s[i] == m
    &&& forall|j: int| 0 <= j < i ==> s[j] != m
}

/// `out` is `moves` in the order in which the search tries them: with the
/// move of the table in front, in exchange for the first candidate, where
/// the table holds one of the candidates; and as they are where it does not.
pub open spec fn tried_order(moves: Seq<Move>, cached: Option<Move>, out: Seq<Move>) -> bool {
    match cached {
        Some(m) => if moves.contains(m) {
            exists|i: int| is_first(moves, m, i) && out == swapped(moves, i)
        } else {
            out == moves
        },
        None => out == moves,
    }
}

/// The counters of `later` are those of `earlier` or more.
pub open spec fn counted_on(earlier: Stats, later: Stats) -> bool {
    earlier.node_count <= later.node_count && earlier.tt_hits <= later.tt_hits
}

/// `x + 1`, stopping at `u64::MAX`.
pub open spec fn bumped(x: u64) -> u64 {
    if x == u64::MAX {
        x
    } else {
        (x + 1) as u64
    }
}

fn bump(x: u64) -> (r: u64)
    ensures
        r == bumped(x),
{
    if x == u64::MAX {
        x
    } else {
        x + 1
    }
}

/// The value after the tick of `you_move` and `them_move`, searched one tick
/// less deep than `depth`.
pub open spec fn child_value<E: Eval>(
    e: E,
    g: GameView,
    depth: nat,
    you_move: Move,
    them_move: Move,
) -> int {
    value(e, tick(g, seq![them_move, you_move]), (depth - 1) as nat)
}

/// `best_of` is the greatest of the reply values it ranges over, and never
/// below the floor.
proof fn lemma_best_of_max<E: Eval>(e: E, g: GameView, depth: nat, moves: Seq<Move>, n: nat)
    requires
        depth >= 1,
        n <= moves.len(),
    ensures
        best_of(e, g, depth, moves, n) >= -SCORE_LIMIT,
        forall|i: int|
            0 <= i < n ==> #[trigger] reply_value(e, g, depth, moves[i]) <= best_of(
                e,
                g,
                depth,
                moves,
                n,
            ),
        best_of(e, g, depth, moves, n) == -SCORE_LIMIT || exists|i: int|
            0 <= i < n && #[trigger] reply_value(e, g, depth, moves[i]) == best_of(
                e,
                g,
                depth,
                moves,
                n,
            ),
    decreases n,
{
    if n > 0 {
        lemma_best_of_max(e, g, depth, moves, (n - 1) as nat);
        let rest = best_of(e, g, depth, moves, (n - 1) as nat);
        let this = reply_value(e, g, depth, moves[n - 1]);
        let all = best_of(e, g, depth, moves, n);
        assert(all == if this > rest {
            this
        } else {
            rest
        });
        if this > rest {
            assert(reply_value(e, g, depth, moves[n - 1]) == all);
        } else if rest != -SCORE_LIMIT {
            let i = choose|i: int|
                0 <= i < n - 1 && #[trigger] reply_value(e, g, depth, moves[i]) == rest;
            assert(reply_value(e, g, depth, moves[i]) == all);
        }
    }
}

/// `worst_of` is the least of the values it ranges over, and never above the
/// ceiling.
proof fn lemma_worst_of_min<E: Eval>(
    e: E,
    g: GameView,
    depth: nat,
    you_move: Move,
    moves: Seq<Move>,
    n: nat,
)
    requires
        depth >= 1,
        n <= moves.len(),
    ensures
        worst_of(e, g, depth, you_move, moves, n) <= SCORE_LIMIT,
        forall|i: int|
            0 <= i < n ==> worst_of(e, g, depth, you_move, moves, n) <= #[trigger] child_value(
                e,
                g,
                depth,
                you_move,
                moves[i],
            ),
        worst_of(e, g, depth, you_move, moves, n) == SCORE_LIMIT || exists|i: int|
            0 <= i < n && worst_of(e, g, depth, you_move, moves, n) == #[trigger] child_value(
                e,
                g,
                depth,
                you_move,
                moves[i],
            ),
    decreases n,
{
    if n > 0 {
        lemma_worst_of_min(e, g, depth, you_move, moves, (n - 1) as nat);
        let rest = worst_of(e, g, depth, you_move, moves, (n - 1) as nat);
        let this = child_value(e, g, depth, you_move, moves[n - 1]);
        let all = worst_of(e, g, depth, you_move, moves, n);
        assert(all == if this < rest {
            this
        } else {
            rest
        });
        if this < rest {
            assert(child_value(e, g, depth, you_move, moves[n - 1]) == all);
        } else if rest != SCORE_LIMIT {
            let i = choose|i: int|
                0 <= i < n - 1 && rest == #[trigger] child_value(e, g, depth, you_move, moves[i]);
            assert(child_value(e, g, depth, you_move, moves[i]) == all);
        }
    }
}

/// The order in which candidates are tried does not change the best.
proof fn lemma_best_of_swapped<E: Eval>(e: E, g: GameView, depth: nat, moves: Seq<Move>, k: int)
    requires
        depth >= 1,
        0 <= k < moves.len(),
    ensures
        best_of(e, g, depth, swapped(moves, k), moves.len()) == best_of(
            e,
            g,
            depth,
            moves,
            moves.len(),
        ),
{
    let other = swapped(moves, k);
    let n = moves.len();
    lemma_best_of_max(e, g, depth, moves, n);
    lemma_best_of_max(e, g, depth, other, n);
    let a = best_of(e, g, depth, moves, n);
    let b = best_of(e, g, depth, other, n);
    if a != -SCORE_LIMIT {
        let i = choose|i: int| 0 <= i < n && #[trigger] reply_value(e, g, depth, moves[i]) == a;
        let i2 = if i == 0 {
            k
        } else if i == k {
            0
        } else {
            i
        };
        assert(other[i2] == moves[i]);
        assert(reply_value(e, g, depth, other[i2]) <= b);
    }
    if b != -SCORE_LIMIT {
        let j = choose|j: int| 0 <= j < n && #[trigger] reply_value(e, g, depth, other[j]) == b;
        let j2 = if j == 0 {
            k
        } else if j == k {
            0
        } else {
            j
        };
        assert(moves[j2] == other[j]);
        assert(reply_value(e, g, depth, moves[j2]) <= a);
    }
}

/// The order in which replies are tried does not change the worst.
proof fn lemma_worst_of_swapped<E: Eval>(
    e: E,
    g: GameView,
    depth: nat,
    you_move: Move,
    moves: Seq<Move>,
    k: int,
)
    requires
        depth >= 1,
        0 <= k < moves.len(),
    ensures
        worst_of(e, g, depth, you_move, swapped(moves, k), moves.len()) == worst_of(
            e,
            g,
            depth,
            you_move,
            moves,
            moves.len(),
        ),
{
    let other = swapped(moves, k);
    let n = moves.len();
    lemma_worst_of_min(e, g, depth, you_move, moves, n);
    lemma_worst_of_min(e, g, depth, you_move, other, n);
    let a = worst_of(e, g, depth, you_move, moves, n);
    let b = worst_of(e, g, depth, you_move, other, n);
    if a != SCORE_LIMIT {
        let i = choose|i: int|
            0 <= i < n && a == #[trigger] child_value(e, g, depth, you_move, moves[i]);
        let i2 = if i == 0 {
            k
        } else if i == k {
            0
        } else {
            i
        };
        assert(other[i2] == moves[i]);
        assert(b <= child_value(e, g, depth, you_move, other[i2]));
    }
    if b != SCORE_LIMIT {
        let j = choose|j: int|
            0 <= j < n && b == #[trigger] child_value(e, g, depth, you_move, other[j]);
        let j2 = if j == 0 {
            k
        } else if j == k {
            0
        } else {
            j
        };
        assert(moves[j2] == other[j]);
        assert(a <= child_value(e, g, depth, you_move, moves[j2]));
    }
}

/// Whatever the table holds, the candidates tried are the legal moves, and
/// their best and worst are those of the legal moves in their own order.
proof fn lemma_tried_order<E: Eval>(
    e: E,
    g: GameView,
    depth: nat,
    you_move: Move,
    moves: Seq<Move>,
    cached: Option<Move>,
    out: Seq<Move>,
)
    requires
        depth >= 1,
        tried_order(moves, cached, out),
    ensures
        out.len() == moves.len(),
        forall|i: int| 0 <= i < out.len() ==> moves.contains(#[trigger] out[i]),
        best_of(e, g, depth, out, out.len()) == best_of(e, g, depth, moves, moves.len()),
        worst_of(e, g, depth, you_move, out, out.len()) == worst_of(
            e,
            g,
            depth,
            you_move,
            moves,
            moves.len(),
        ),
{
    if out != moves {
        let m = cached.unwrap();
        let k = choose|i: int| is_first(moves, m, i) && out == swapped(moves, i);
        lemma_best_of_swapped(e, g, depth, moves, k);
        lemma_worst_of_swapped(e, g, depth, you_move, moves, k);
        assert forall|i: int| 0 <= i < out.len() implies moves.contains(#[trigger] out[i]) by {
            let i2 = if i == 0 {
                k
            } else if i == k {
                0
            } else {
                i
            };
            assert(moves[i2] == out[i]);
        }
    }
}

impl TableEntry {
    /// An entry without moves.
    pub fn new() -> (e: Self)
        ensures
            e.you is None,
            e.them is None,
    {
        Self { you: None, them: None }
    }
}

impl MoveTable {
    /// The place of `game` in the table, if the table has any.
    fn slot(&self, game: &Game) -> (i: Option<usize>)
        requires
            game@.wf(),
        ensures
            i == slot_of(self.inner@.len(), game@),
            i matches Some(k) ==> k < self.inner@.len(),
    {
        let n = self.inner.len();
        if n == 0 {
            None
        } else {
            Some((game.hash() % (n as u64)) as usize)
        }
    }
}

/// The place of `g` in a table of `capacity` entries: its hash modulo the
/// capacity. A table without entries has no place.
pub open spec fn slot_of(capacity: nat, g: GameView) -> Option<usize> {
    if capacity == 0 {
        None
    } else {
        Some((position_hash(g) as nat % capacity) as usize)
    }
}

impl<E: Eval> Search<E> {
    /// The evaluator that the search reads.
    pub closed spec fn evaluator(&self) -> E {
        self.eval
    }

    /// The counters.
    pub closed spec fn counters(&self) -> Stats {
        self.statistics
    }

    /// Number of entries of the table of moves.
    pub closed spec fn capacity(&self) -> nat {
        self.move_table.inner@.len()
    }

    /// The entries of the table of moves.
    pub closed spec fn entries(&self) -> Seq<TableEntry> {
        self.move_table.inner@
    }

    /// The move that the table holds for the position `g` and the side.
    pub open spec fn cached(&self, g: GameView, you: bool) -> Option<Move> {
        match slot_of(self.capacity(), g) {
            Some(k) => if you {
                self.entries()[k as int].you
            } else {
                self.entries()[k as int].them
            },
            None => None,
        }
    }

    /// Empties the table of moves.
    pub fn reset(&mut self)
        ensures
            final(self).evaluator() == old(self).evaluator(),
            final(self).counters() == old(self).counters(),
            final(self).capacity() == old(self).capacity(),
            forall|i: int|
                0 <= i < final(self).capacity() ==> (#[trigger] final(self).entries()[i]).you is None
                    && final(self).entries()[i].them is None,
    {
        let n = self.move_table.inner.len();
        let mut i: usize = 0;
        while i < n
            invariant
                i <= n,
                n == self.move_table.inner@.len(),
                self.eval == old(self).eval,
                self.statistics == old(self).counters(),
                forall|k: int|
                    0 <= k < i ==> (#[trigger] self.move_table.inner@[k]).you is None
                        && self.move_table.inner@[k].them is None,
            decreases n - i,
        {
            self.move_table.inner[i] = TableEntry::new();
            i += 1;
        }
    }

    /// A search with an empty table of `table_size` entries. With no entries
    /// the candidates are always tried in their own order.
    pub fn new(table_size: usize, eval: E) -> (s: Search<E>)
        ensures
            s.evaluator() == eval,
            s.capacity() == table_size,
            s.counters().node_count == 0,
            s.counters().tt_hits == 0,
            forall|i: int|
                0 <= i < s.capacity() ==> (#[trigger] s.entries()[i]).you is None
                    && s.entries()[i].them is None,
    {
        let mut table: Vec<TableEntry> = Vec::new();
        let mut i: usize = 0;
        while i < table_size
            invariant
                i <= table_size,
                table@.len() == i,
                forall|k: int|
                    0 <= k < i ==> (#[trigger] table@[k]).you is None && table@[k].them is None,
            decreases table_size - i,
        {
            table.push(TableEntry::new());
            i += 1;
        }
        Search {
            move_table: MoveTable { inner: table },
            eval,
            statistics: Stats { node_count: 0, tt_hits: 0 },
        }
    }

    /// Records `mov` as the move to try first in the position of `board`.
    fn update_move(&mut self, board: &Game, you: bool, mov: Move)
        requires
            board@.wf(),
        ensures
            final(self).evaluator() == old(self).evaluator(),
            final(self).counters() == old(self).counters(),
            final(self).capacity() == old(self).capacity(),
            final(self).capacity() > 0 ==> final(self).cached(board@, you) == Some(mov),
    {
        match self.move_table.slot(board) {
            Some(k) => {
                let mut entry = self.move_table.inner[k];
                if you {
                    entry.you = Some(mov);
                } else {
                    entry.them = Some(mov);
                }
                self.move_table.inner[k] = entry;
            },
            None => {},
        }
    }

    /// Searches `board` to each depth from 1 to `target_depth` and returns
    /// the move and the value that the deepest search found: the minimax
    /// value of the position at that depth, and a move of yours that attains
    /// it. What the table holds has no part in either.
    pub fn iterative_deepen(&mut self, board: &mut Game, target_depth: u32) -> (out: (Move, i64))
        requires
            old(board)@.wf(),
            !old(board)@.is_terminal(),
            target_depth >= 1,
            deterministic(old(self).evaluator()),
        ensures
            final(board)@ == old(board)@,
            final(self).evaluator() == old(self).evaluator(),
            final(self).capacity() == old(self).capacity(),
            out.1 == value(old(self).evaluator(), old(board)@, target_depth as nat),
            0 <= out.1 <= SCORE_ONE,
            old(board)@.moves_of(Side::You).contains(out.0),
            reply_value(old(self).evaluator(), old(board)@, target_depth as nat, out.0) == out.1,
            counted_on(old(self).counters(), final(self).counters()),
    {
        let ghost e = self.evaluator();
        let ghost g = board@;
        proof {
            lemma_value_bounds(e, g, 1);
        }
        let mut out = self.minimax(board, 1, -SCORE_LIMIT, SCORE_LIMIT, true, None);
        let mut depth: u32 = 1;
        while depth < target_depth
            invariant
                1 <= depth <= target_depth,
                board@ == g,
                g.wf(),
                !g.is_terminal(),
                self.evaluator() == e,
                deterministic(e),
                self.capacity() == old(self).capacity(),
                counted_on(old(self).counters(), self.counters()),
                out.1 == value(e, g, depth as nat),
                0 <= out.1 <= SCORE_ONE,
                (out.0 matches Some(m) && g.moves_of(Side::You).contains(m) && reply_value(
                    e,
                    g,
                    depth as nat,
                    m,
                ) == out.1),
            decreases target_depth - depth,
        {
            depth += 1;
            proof {
                lemma_value_bounds(e, g, depth as nat);
            }
            out = self.minimax(board, depth, -SCORE_LIMIT, SCORE_LIMIT, true, None);
        }
        (out.0.unwrap(), out.1)
    }

    /// The half-moves of the side in the order in which the search tries
    /// them: the legal moves, with the move that the table holds for the
    /// position in front where it is one of them.
    fn sort_moves(&mut self, board: &Game, you: bool) -> (out: Vec<Move>)
        requires
            board@.wf(),
        ensures
            final(self).evaluator() == old(self).evaluator(),
            final(self).capacity() == old(self).capacity(),
            final(self).entries() == old(self).entries(),
            final(self).counters().node_count == old(self).counters().node_count,
            tried_order(
                board@.moves_of(
                    if you {
                        Side::You
                    } else {
                        Side::Them
                    },
                ),
                old(self).cached(board@, you),
                out@,
            ),
            final(self).counters().tt_hits == if old(self).cached(board@, you) is Some
                && board@.moves_of(
                if you {
                    Side::You
                } else {
                    Side::Them
                },
            ).contains(old(self).cached(board@, you).unwrap()) {
                bumped(old(self).counters().tt_hits)
            } else {
                old(self).counters().tt_hits
            },
    {
        let side = if you {
            Side::You
        } else {
            Side::Them
        };
        let mut out = board.legal_moves(side);
        let ghost legal = out@;
        let cached = match self.move_table.slot(board) {
            Some(k) => {
                let entry = self.move_table.inner[k];
                if you {
                    entry.you
                } else {
                    entry.them
                }
            },
            None => None,
        };
        assert(cached == self.cached(board@, you));
        if let Some(hash_move) = cached {
            let mut i: usize = 0;
            while i < out.len()
                invariant
                    i <= out.len(),
                    out@ == legal,
                    out@.len() >= 1,
                    legal == board@.moves_of(side),
                    side == if you {
                        Side::You
                    } else {
                        Side::Them
                    },
                    old(self).cached(board@, you) == Some(hash_move),
                    *self == *old(self),
                    forall|j: int| 0 <= j < i ==> out@[j] != hash_move,
                decreases out.len() - i,
            {
                if out[i] == hash_move {
                    self.statistics.tt_hits = bump(self.statistics.tt_hits);
                    let first = out[0];
                    out[0] = hash_move;
                    out[i] = first;
                    assert(is_first(legal, hash_move, i as int));
                    assert(out@ =~= swapped(legal, i as int));
                    return out;
                }
                i += 1;
            }
            assert(!legal.contains(hash_move));
        }
        out
    }

    /// Plays the tick of `them_move` and the move carried in, searches the
    /// position one level lower, and takes the tick back.
    fn try_reply(
        &mut self,
        board: &mut Game,
        depth: u32,
        alpha: i64,
        beta: i64,
        them_move: Move,
        carried: Move,
    ) -> (score: i64)
        requires
            old(board)@.wf(),
            !old(board)@.is_terminal(),
            depth >= 1,
            deterministic(old(self).evaluator()),
            -SCORE_LIMIT <= alpha < beta <= SCORE_LIMIT,
            old(board)@.moves_of(Side::Them).contains(them_move),
            old(board)@.moves_of(Side::You).contains(carried),
        ensures
            final(board)@ == old(board)@,
            final(self).evaluator() == old(self).evaluator(),
            final(self).capacity() == old(self).capacity(),
            within(
                score as int,
                child_value(old(self).evaluator(), old(board)@, depth as nat, carried, them_move),
                alpha as int,
                beta as int,
            ),
            -SCORE_LIMIT <= score <= SCORE_LIMIT,
            counted_on(old(self).counters(), final(self).counters()),
        decreases depth, 0nat,
    {
        let mut pair: Vec<Move> = Vec::new();
        pair.push(them_move);
        pair.push(carried);
        proof {
            assert(pair@ =~= seq![them_move, carried]);
            lemma_pair_is_legal(board@, them_move, carried);
        }
        let undo = board.step(&pair);
        self.statistics.node_count = bump(self.statistics.node_count);
        let (_, score) = self.minimax(board, depth - 1, alpha, beta, true, None);
        board.undo(&undo);
        score
    }

    /// One half-ply of the search in the window from `alpha` to `beta`.
    ///
    /// In the maximizing half-ply the result tells of `value` what a window
    /// can tell; in the minimizing one, of `reply_value` of the move carried
    /// in. The board is left as it was found.
    #[verifier::rlimit(50)]
    pub fn minimax(
        &mut self,
        board: &mut Game,
        depth: u32,
        alpha: i64,
        beta: i64,
        maximizing: bool,
        you_move: Option<Move>,
    ) -> (out: (Option<Move>, i64))
        requires
            old(board)@.wf(),
            deterministic(old(self).evaluator()),
            -SCORE_LIMIT <= alpha < beta <= SCORE_LIMIT,
            !maximizing ==> depth >= 1 && !old(board)@.is_terminal() && you_move is Some && old(
                board,
            )@.moves_of(Side::You).contains(you_move.unwrap()),
        ensures
            final(board)@ == old(board)@,
            final(self).evaluator() == old(self).evaluator(),
            final(self).capacity() == old(self).capacity(),
            within(
                out.1 as int,
                node_value(old(self).evaluator(), old(board)@, depth as nat, maximizing, you_move),
                alpha as int,
                beta as int,
            ),
            -SCORE_LIMIT <= out.1 <= SCORE_LIMIT,
            maximizing && depth >= 1 && !old(board)@.is_terminal() ==> (out.0 matches Some(m)
                && old(board)@.moves_of(Side::You).contains(m) && (alpha < out.1 < beta
                ==> reply_value(old(self).evaluator(), old(board)@, depth as nat, m) == out.1)),
            !maximizing || depth == 0 || old(board)@.is_terminal() ==> out.0 is None,
            counted_on(old(self).counters(), final(self).counters()),
        decreases depth, (if maximizing {
            2nat
        } else {
            1nat
        }),
    {
        let ghost g = board@;
        let ghost e = self.evaluator();
        let ghost d = depth as nat;
        if board.is_terminal() || depth == 0 {
            return (None, read_leaf(&self.eval, board));
        }
        if maximizing {
            let mut alpha_now = alpha;
            let mut best_score: i64 = -SCORE_LIMIT;
            let mut best_move: Option<Move> = None;
            let moves = self.sort_moves(board, maximizing);
            proof {
                lemma_legal_moves(g.board, g.you_id);
                lemma_tried_order(
                    e,
                    g,
                    d,
                    moves@[0],
                    g.moves_of(Side::You),
                    old(self).cached(g, true),
                    moves@,
                );
                lemma_best_of_max(e, g, d, moves@, moves@.len());
            }
            let mut i: usize = 0;
            while i < moves.len()
                invariant
                    i <= moves.len(),
                    maximizing,
                    board@ == g,
                    g == old(board)@,
                    g.wf(),
                    !g.is_terminal(),
                    d == depth,
                    depth >= 1,
                    e == old(self).evaluator(),
                    self.evaluator() == e,
                    deterministic(e),
                    self.capacity() == old(self).capacity(),
                    counted_on(old(self).counters(), self.counters()),
                    forall|k: int|
                        0 <= k < moves.len() ==> g.moves_of(Side::You).contains(
                            #[trigger] moves@[k],
                        ),
                    forall|k: int|
                        0 <= k < moves.len() ==> #[trigger] reply_value(e, g, d, moves@[k])
                            <= value(e, g, d),
                    best_of(e, g, d, moves@, moves@.len()) == value(e, g, d),
                    -SCORE_LIMIT <= alpha <= alpha_now < beta <= SCORE_LIMIT,
                    -SCORE_LIMIT <= best_score < beta,
                    alpha_now == if best_score > alpha {
                        best_score
                    } else {
                        alpha
                    },
                    best_of(e, g, d, moves@, i as nat) < beta,
                    best_of(e, g, d, moves@, i as nat) <= alpha ==> best_score <= alpha,
                    best_of(e, g, d, moves@, i as nat) > alpha ==> best_score == best_of(
                        e,
                        g,
                        d,
                        moves@,
                        i as nat,
                    ),
                    i == 0 ==> best_move is None,
                    i > 0 ==> (best_move matches Some(m) && g.moves_of(Side::You).contains(m) && (
                    best_of(e, g, d, moves@, i as nat) > alpha ==> reply_value(e, g, d, m)
                        == best_of(e, g, d, moves@, i as nat))),
                decreases moves.len() - i,
            {
                let you_move = moves[i];
                if best_move.is_none() {
                    best_move = Some(you_move);
                }
                self.statistics.node_count = bump(self.statistics.node_count);
                let (_, score) = self.minimax(
                    board,
                    depth,
                    alpha_now,
                    beta,
                    !maximizing,
                    Some(you_move),
                );
                proof {
                    let this = reply_value(e, g, d, moves@[i as int]);
                    let rest = best_of(e, g, d, moves@, i as nat);
                    assert(best_of(e, g, d, moves@, (i + 1) as nat) == if this > rest {
                        this
                    } else {
                        rest
                    });
                    assert(this <= value(e, g, d));
                }
                if score > best_score {
                    best_score = score;
                    best_move = Some(you_move);
                }
                if best_score > alpha_now {
                    alpha_now = best_score;
                }
                if best_score >= beta {
                    self.update_move(board, maximizing, you_move);
                    return (Some(you_move), beta);
                }
                i += 1;
            }
            self.update_move(board, maximizing, best_move.unwrap());
            (best_move, best_score)
        } else {
            let mut beta_now = beta;
            let mut best_score: i64 = SCORE_LIMIT;
            let carried = you_move.unwrap();
            let moves = self.sort_moves(board, maximizing);
            proof {
                lemma_legal_moves(g.board, g.them_id());
                lemma_tried_order(
                    e,
                    g,
                    d,
                    carried,
                    g.moves_of(Side::Them),
                    old(self).cached(g, false),
                    moves@,
                );
                lemma_worst_of_min(e, g, d, carried, moves@, moves@.len());
            }
            let mut i: usize = 0;
            while i < moves.len()
                invariant
                    i <= moves.len(),
                    !maximizing,
                    board@ == g,
                    g == old(board)@,
                    g.wf(),
                    !g.is_terminal(),
                    d == depth,
                    depth >= 1,
                    e == old(self).evaluator(),
                    self.evaluator() == e,
                    deterministic(e),
                    self.capacity() == old(self).capacity(),
                    counted_on(old(self).counters(), self.counters()),
                    you_move == Some(carried),
                    g.moves_of(Side::You).contains(carried),
                    forall|k: int|
                        0 <= k < moves.len() ==> g.moves_of(Side::Them).contains(
                            #[trigger] moves@[k],
                        ),
                    forall|k: int|
                        0 <= k < moves.len() ==> reply_value(e, g, d, carried)
                            <= #[trigger] child_value(e, g, d, carried, moves@[k]),
                    worst_of(e, g, d, carried, moves@, moves@.len()) == reply_value(
                        e,
                        g,
                        d,
                        carried,
                    ),
                    -SCORE_LIMIT <= alpha < beta_now <= beta <= SCORE_LIMIT,
                    alpha < best_score <= SCORE_LIMIT,
                    beta_now == if best_score < beta {
                        best_score
                    } else {
                        beta
                    },
                    worst_of(e, g, d, carried, moves@, i as nat) > alpha,
                    worst_of(e, g, d, carried, moves@, i as nat) >= beta ==> best_score >= beta,
                    worst_of(e, g, d, carried, moves@, i as nat) < beta ==> best_score == worst_of(
                        e,
                        g,
                        d,
                        carried,
                        moves@,
                        i as nat,
                    ),
                decreases moves.len() - i,
            {
                let them_move = moves[i];
                let score = self.try_reply(board, depth, alpha, beta_now, them_move, carried);
                proof {
                    let this = child_value(e, g, d, carried, moves@[i as int]);
                    let rest = worst_of(e, g, d, carried, moves@, i as nat);
                    assert(worst_of(e, g, d, carried, moves@, (i + 1) as nat) == if this < rest {
                        this
                    } else {
                        rest
                    });
                    assert(reply_value(e, g, d, carried) <= this);
                }
                if score < best_score {
                    best_score = score;
                }
                if best_score < beta_now {
                    self.update_move(board, maximizing, them_move);
                    beta_now = score;
                }
                if best_score <= alpha {
                    self.update_move(board, maximizing, them_move);
                    return (None, alpha);
                }
                i += 1;
            }
            (None, best_score)
        }
    }
}

/// Every minimax value is a score: it lies between 0 and `SCORE_ONE`.
pub proof fn lemma_value_bounds<E: Eval>(e: E, g: GameView, depth: nat)
    requires
        g.wf(),
    ensures
        0 <= value(e, g, depth) <= SCORE_ONE,
    decreases depth, 3nat, 0nat,
{
    if !g.is_terminal() && depth > 0 {
        lemma_legal_moves(g.board, g.you_id);
        lemma_best_of_bounds(e, g, depth, g.moves_of(Side::You).len());
    }
}

proof fn lemma_best_of_bounds<E: Eval>(e: E, g: GameView, depth: nat, n: nat)
    requires
        g.wf(),
        !g.is_terminal(),
        depth >= 1,
        1 <= n <= g.moves_of(Side::You).len(),
    ensures
        0 <= best_of(e, g, depth, g.moves_of(Side::You), n) <= SCORE_ONE,
    decreases depth, 2nat, n,
{
    let moves = g.moves_of(Side::You);
    lemma_reply_bounds(e, g, depth, moves[n - 1]);
    if n > 1 {
        lemma_best_of_bounds(e, g, depth, (n - 1) as nat);
    }
    let rest = best_of(e, g, depth, moves, (n - 1) as nat);
    let this = reply_value(e, g, depth, moves[n - 1]);
    assert(best_of(e, g, depth, moves, n) == if this > rest {
        this
    } else {
        rest
    });
    assert(n == 1 ==> rest == -SCORE_LIMIT);
}

/// Every reply value is a score.
pub proof fn lemma_reply_bounds<E: Eval>(e: E, g: GameView, depth: nat, you_move: Move)
    requires
        g.wf(),
        !g.is_terminal(),
        depth >= 1,
        g.moves_of(Side::You).contains(you_move),
    ensures
        0 <= reply_value(e, g, depth, you_move) <= SCORE_ONE,
    decreases depth, 1nat, 0nat,
{
    lemma_legal_moves(g.board, g.them_id());
    lemma_worst_of_bounds(e, g, depth, you_move, g.moves_of(Side::Them).len());
}

proof fn lemma_worst_of_bounds<E: Eval>(e: E, g: GameView, depth: nat, you_move: Move, n: nat)
    requires
        g.wf(),
        !g.is_terminal(),
        depth >= 1,
        g.moves_of(Side::You).contains(you_move),
        1 <= n <= g.moves_of(Side::Them).len(),
    ensures
        0 <= worst_of(e, g, depth, you_move, g.moves_of(Side::Them), n) <= SCORE_ONE,
    decreases depth, 0nat, n,
{
    let moves = g.moves_of(Side::Them);
    let pair = seq![moves[n - 1], you_move];
    lemma_pair_is_legal(g, moves[n - 1], you_move);
    lemma_step_undo(g, pair);
    lemma_value_bounds(e, tick(g, pair), (depth - 1) as nat);
    if n > 1 {
        lemma_worst_of_bounds(e, g, depth, you_move, (n - 1) as nat);
    }
    let rest = worst_of(e, g, depth, you_move, moves, (n - 1) as nat);
    let this = value(e, tick(g, pair), (depth - 1) as nat);
    assert(worst_of(e, g, depth, you_move, moves, n) == if this < rest {
        this
    } else {
        rest
    });
    assert(n == 1 ==> rest == SCORE_LIMIT);
}

/// Where all of the first `n` candidates have the reply value `v`, it is
/// their best.
proof fn lemma_best_of_equals<E: Eval>(
    e: E,
    g: GameView,
    depth: nat,
    moves: Seq<Move>,
    n: nat,
    v: int,
)
    requires
        depth >= 1,
        1 <= n <= moves.len(),
        v >= -SCORE_LIMIT,
        forall|i: int| 0 <= i < n ==> #[trigger] reply_value(e, g, depth, moves[i]) == v,
    ensures
        best_of(e, g, depth, moves, n) == v,
    decreases n,
{
    if n > 1 {
        lemma_best_of_equals(e, g, depth, moves, (n - 1) as nat, v);
    }
    let rest = best_of(e, g, depth, moves, (n - 1) as nat);
    let this = reply_value(e, g, depth, moves[n - 1]);
    assert(best_of(e, g, depth, moves, n) == if this > rest {
        this
    } else {
        rest
    });
    assert(n == 1 ==> rest == -SCORE_LIMIT);
}

/// You are alive in `g` and the opponent is not.
pub open spec fn won(g: GameView) -> bool {
    g.board.snakes[g.you_id as int].alive && !g.board.snakes[g.them_id() as int].alive
}

/// The evaluator reads every position that you have won as a certain win.
pub open spec fn rates_wins<E: Eval>(e: E) -> bool {
    forall|g: GameView| g.wf() && won(g) ==> #[trigger] leaf_value(e, g) == SCORE_ONE
}

/// A tick in which the opponent has nowhere to go, and you step to an open
/// square with health to spare, leaves you alone alive.
proof fn lemma_winning_tick(g: GameView, m: Move)
    requires
        g.wf(),
        !g.is_terminal(),
        open_squares(g.board, g.them_id()).len() == 0,
        open_squares(g.board, g.you_id).len() > 0,
        g.board.snakes[g.you_id as int].health >= 2,
        g.moves_of(Side::You).contains(m),
    ensures
        g.moves_of(Side::Them) == seq![Move { move_type: MoveType::Death, id: g.them_id() }],
        tick(g, seq![Move { move_type: MoveType::Death, id: g.them_id() }, m]).is_terminal(),
        tick(g, seq![Move { move_type: MoveType::Death, id: g.them_id() }, m]).wf(),
        won(tick(g, seq![Move { move_type: MoveType::Death, id: g.them_id() }, m])),
{
    let you = g.board.snakes[g.you_id as int];
    let them = g.board.snakes[g.them_id() as int];
    lemma_legal_moves(g.board, g.you_id);
    lemma_legal_moves(g.board, g.them_id());
    let yours = g.moves_of(Side::You);
    let i = choose|i: int| 0 <= i < yours.len() && yours[i] == m;
    let d = open_squares(g.board, g.you_id)[i];
    assert(m == (Move { move_type: MoveType::MoveSquare(d), id: g.you_id }));
    let death = Move { move_type: MoveType::Death, id: g.them_id() };
    let pair = seq![death, m];
    assert(pair[0] == death && pair[1] == m);
    assert(g.moves_of(Side::Them).contains(death)) by {
        assert(g.moves_of(Side::Them)[0] == death);
    }
    lemma_pair_is_legal(g, death, m);
    lemma_step_undo(g, pair);
    let h = them.head();
    let o = them.occupied();
    let f = you.full;
    assert(h & o == h) by {
        assert(them.body =~= them.body.drop_last().push(them.body.last()));
        lemma_union_holds(them.body, 0);
    }
    assert(d & h == 0) by (bit_vector)
        requires
            d & (f | o) == 0,
            h & o == h,
    ;
    assert(d != 0);
    let t = tick(g, pair);
    assert(!t.board.snakes[g.them_id() as int].alive);
    assert(t.board.snakes[g.you_id as int].alive);
}

/// A forced win is scored as one: where the opponent has no open neighbour,
/// and you have one and health for more than one tick, every search at
/// least one tick deep finds the value `SCORE_ONE`, if the evaluator reads
/// the positions that you have won as certain wins.
pub proof fn lemma_forced_win<E: Eval>(e: E, g: GameView, depth: nat)
    requires
        g.wf(),
        !g.is_terminal(),
        depth >= 1,
        open_squares(g.board, g.them_id()).len() == 0,
        open_squares(g.board, g.you_id).len() > 0,
        g.board.snakes[g.you_id as int].health >= 2,
        rates_wins(e),
    ensures
        value(e, g, depth) == SCORE_ONE,
{
    let yours = g.moves_of(Side::You);
    let theirs = g.moves_of(Side::Them);
    let death = Move { move_type: MoveType::Death, id: g.them_id() };
    lemma_legal_moves(g.board, g.you_id);
    assert forall|i: int| 0 <= i < yours.len() implies #[trigger] reply_value(
        e,
        g,
        depth,
        yours[i],
    ) == SCORE_ONE by {
        let m = yours[i];
        lemma_winning_tick(g, m);
        assert(theirs == seq![death]);
        assert(theirs[0] == death);
        let after = tick(g, seq![death, m]);
        assert(value(e, after, (depth - 1) as nat) == leaf_value(e, after));
        assert(worst_of(e, g, depth, m, theirs, 0) == SCORE_LIMIT);
        assert(worst_of(e, g, depth, m, theirs, 1) == SCORE_ONE);
    }
    lemma_best_of_equals(e, g, depth, yours, yours.len(), SCORE_ONE as int);
}

} // verus!
