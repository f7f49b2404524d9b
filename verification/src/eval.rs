//! The evaluator that the searches read at their leaves, the scale of its
//! scores, and the helpers that evaluators build on.

use vstd::prelude::*;

use crate::bitboard::square_at;
use crate::board::{Board, BoardView, Game, GameView, Snake};
use crate::Coordinate;

verus! {

/// The score of a certain win. Scores are win probabilities in millionths.
pub const SCORE_ONE: i64 = 1_000_000;

/// Bound of the search window: beyond every score.
pub const SCORE_LIMIT: i64 = 100_000_000;

/// An estimate of the chance to win for the side the search plays for.
///
/// A search reads the estimate as a number between 0 and `SCORE_ONE`; what
/// lies outside is cut to that range.
pub trait Eval {
    fn get_valuation(&self, game: &Game) -> (v: i64)
        requires
            game@.wf(),
    ;
}

/// `v` is what the evaluator may return for a game that holds the position
/// `g`.
pub open spec fn may_return<E: Eval>(e: E, g: GameView, v: i64) -> bool {
    exists|game: Game| game@ == g && #[trigger] call_ensures(E::get_valuation, (&e, &game), v)
}

/// The estimate is a function of the position alone: whenever the evaluator
/// is asked about the same position, it returns the same.
pub open spec fn deterministic<E: Eval>(e: E) -> bool {
    forall|g: GameView, v1: i64, v2: i64|
        #![trigger may_return(e, g, v1), may_return(e, g, v2)]
        may_return(e, g, v1) && may_return(e, g, v2) ==> v1 == v2
}

/// The estimate of a deterministic evaluator for the position `g`.
pub open spec fn valuation<E: Eval>(e: E, g: GameView) -> int {
    (choose|v: i64| may_return(e, g, v)) as int
}

/// The value that a search reads at a leaf: the evaluator's, cut to the range
/// from 0 to `SCORE_ONE`.
pub open spec fn leaf_value<E: Eval>(e: E, g: GameView) -> int {
    let v = valuation(e, g);
    if v < 0 {
        0
    } else if v > SCORE_ONE {
        SCORE_ONE as int
    } else {
        v
    }
}

/// Reads the evaluator and cuts what it returns to the range from 0 to
/// `SCORE_ONE`.
pub fn read_leaf<E: Eval>(e: &E, game: &Game) -> (v: i64)
    requires
        game@.wf(),
    ensures
        deterministic(*e) ==> v == leaf_value(*e, game@),
        0 <= v <= SCORE_ONE,
{
    let v = e.get_valuation(game);
    proof {
        assert(may_return(*e, game@, v));
    }
    if v < 0 {
        0
    } else if v > SCORE_ONE {
        SCORE_ONE
    } else {
        v
    }
}

/// The sum of the two.
pub fn add(left: usize, right: usize) -> (sum: usize)
    requires
        left + right <= usize::MAX,
    ensures
        sum == left + right,
{
    left + right
}

/// The distance between two squares in steps: `|x1 - x2| + |y1 - y2|`.
pub open spec fn manhattan_distance(c1: Coordinate, c2: Coordinate) -> int {
    let dx = c1.x - c2.x;
    let dy = c1.y - c2.y;
    (if dx < 0 {
        -dx
    } else {
        dx
    }) + (if dy < 0 {
        -dy
    } else {
        dy
    })
}

/// The distance between two squares in steps.
pub fn manhattan(c1: &Coordinate, c2: &Coordinate) -> (d: i32)
    ensures
        d == manhattan_distance(*c1, *c2),
{
    let dx: i32 = c1.x as i32 - c2.x as i32;
    let dy: i32 = c1.y as i32 - c2.y as i32;
    (if dx < 0 {
        -dx
    } else {
        dx
    }) + (if dy < 0 {
        -dy
    } else {
        dy
    })
}

impl Snake {
    /// The four squares next to `coord`: above, below, right, left.
    pub fn square_moves(coord: Coordinate) -> (out: Vec<Coordinate>)
        requires
            i8::MIN < coord.x < i8::MAX,
            i8::MIN < coord.y < i8::MAX,
        ensures
            out@ == seq![
                Coordinate { x: coord.x, y: (coord.y + 1) as i8 },
                Coordinate { x: coord.x, y: (coord.y - 1) as i8 },
                Coordinate { x: (coord.x + 1) as i8, y: coord.y },
                Coordinate { x: (coord.x - 1) as i8, y: coord.y },
            ],
    {
        let mut out: Vec<Coordinate> = Vec::new();
        out.push(Coordinate::new(0, 1).add(coord));
        out.push(Coordinate::new(0, -1).add(coord));
        out.push(Coordinate::new(1, 0).add(coord));
        out.push(Coordinate::new(-1, 0).add(coord));
        assert(out@ =~= seq![
            Coordinate { x: coord.x, y: (coord.y + 1) as i8 },
            Coordinate { x: coord.x, y: (coord.y - 1) as i8 },
            Coordinate { x: (coord.x + 1) as i8, y: coord.y },
            Coordinate { x: (coord.x - 1) as i8, y: coord.y },
        ]);
        out
    }
}

/// The squares that the snakes alive cover.
pub open spec fn covered(b: BoardView) -> u128 {
    (if b.snakes[0].alive {
        b.snakes[0].occupied()
    } else {
        0
    }) | (if b.snakes[1].alive {
        b.snakes[1].occupied()
    } else {
        0
    })
}

/// A path may lead over `c`: it lies on the board above the bottom row, and
/// no snake alive covers it.
pub open spec fn passable(c: Coordinate, b: BoardView) -> bool {
    &&& 0 <= c.x < b.width
    &&& 0 < c.y < b.height
    &&& square_at(c.index()) & covered(b) == 0
}

/// `s` with `(c, 1)` at its end if a path may lead over `c`.
pub open spec fn push_passable(s: Seq<(Coordinate, i32)>, c: Coordinate, b: BoardView) -> Seq<
    (Coordinate, i32),
> {
    if passable(c, b) {
        s.push((c, 1i32))
    } else {
        s
    }
}

/// The squares next to `c` that a path may lead over, each at cost 1, in the
/// order above, below, right, left.
pub open spec fn successors_of(c: Coordinate, b: BoardView) -> Seq<(Coordinate, i32)> {
    push_passable(
        push_passable(
            push_passable(
                push_passable(Seq::empty(), Coordinate { x: c.x, y: (c.y + 1) as i8 }, b),
                Coordinate { x: c.x, y: (c.y - 1) as i8 },
                b,
            ),
            Coordinate { x: (c.x + 1) as i8, y: c.y },
            b,
        ),
        Coordinate { x: (c.x - 1) as i8, y: c.y },
        b,
    )
}

impl Board {
    /// The squares that the snakes alive cover.
    pub fn covered(&self) -> (m: u128)
        requires
            self@.wf(),
        ensures
            m == covered(self@),
    {
        assert(self@.snakes[0] == self.snakes@[0]@);
        assert(self@.snakes[1] == self.snakes@[1]@);
        let first = if self.snakes[0].alive {
            self.snakes[0].full | self.snakes[0].tail()
        } else {
            0
        };
        let second = if self.snakes[1].alive {
            self.snakes[1].full | self.snakes[1].tail()
        } else {
            0
        };
        first | second
    }
}

fn push_if_passable(
    out: &mut Vec<(Coordinate, i32)>,
    square: Coordinate,
    board: &Board,
    taken: u128,
)
    requires
        board@.wf(),
        taken == covered(board@),
    ensures
        final(out)@ == push_passable(old(out)@, square, board@),
{
    if square.x >= 0 && (square.x as u32) < board.width && square.y > 0 && (square.y as u32)
        < board.height {
        if square.mask() & taken == 0 {
            out.push((square, 1));
        }
    }
}

/// The steps that a path can take from `coord`: to each square next to it
/// that lies on the board above the bottom row and that no snake alive
/// covers, at cost 1.
pub fn successors(coord: &Coordinate, board: &Board) -> (out: Vec<(Coordinate, i32)>)
    requires
        board@.wf(),
        i8::MIN < coord.x < i8::MAX,
        i8::MIN < coord.y < i8::MAX,
    ensures
        out@ == successors_of(*coord, board@),
{
    let possible = Snake::square_moves(*coord);
    let taken = board.covered();
    let mut out: Vec<(Coordinate, i32)> = Vec::new();
    push_if_passable(&mut out, possible[0], board, taken);
    push_if_passable(&mut out, possible[1], board, taken);
    push_if_passable(&mut out, possible[2], board, taken);
    push_if_passable(&mut out, possible[3], board, taken);
    out
}

} // verus!
