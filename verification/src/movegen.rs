//! The move generator: the squares that a snake's head may step to.

use vstd::prelude::*;

use crate::bitboard::{
    is_square, lemma_shift_order, lemma_shift_square, neighbours, shift_down, shift_left,
    shift_right, shift_up, step_down, step_left, step_right, step_up,
};
use crate::board::{BoardView, Game, GameView, Side, Snake};

verus! {

/// One side's half-move.
#[derive(Clone, Copy, Debug, PartialEq, Eq, Structural)]
pub struct Move {
    pub move_type: MoveType,
    pub id: usize,
}

/// Where a half-move leads: to a square, or nowhere because the head has no
/// open neighbour.
#[derive(Clone, Copy, Debug, PartialEq, Eq, Structural)]
pub enum MoveType {
    Death,
    MoveSquare(u128),
}

/// The direction of a step on the board.
#[derive(Clone, Copy, Debug, PartialEq, Eq, Structural)]
pub enum Direction {
    Up,
    Down,
    Left,
    Right,
}

/// The squares that snake `id` may not step to: what it covers itself behind
/// its head once it has moved, and all that the other snake covers now, if
/// that snake is alive.
pub open spec fn blocked(b: BoardView, id: usize) -> u128 {
    let own = b.snakes[id as int];
    let other = b.snakes[1 - id];
    if other.alive {
        own.full | other.occupied()
    } else {
        own.full
    }
}

/// `d` is a square that is not blocked.
pub open spec fn is_open(d: u128, blocked: u128) -> bool {
    d != 0 && d & blocked == 0
}

/// `s` with `d` at its end if `d` is open.
pub open spec fn push_open(s: Seq<u128>, d: u128, blocked: u128) -> Seq<u128> {
    if is_open(d, blocked) {
        s.push(d)
    } else {
        s
    }
}

/// The open neighbours of the head of snake `id`, in ascending bit index:
/// down, left, right, up.
pub open spec fn open_squares(b: BoardView, id: usize) -> Seq<u128> {
    let h = b.snakes[id as int].head();
    let bl = blocked(b, id);
    push_open(
        push_open(
            push_open(push_open(Seq::empty(), shift_down(h), bl), shift_left(h), bl),
            shift_right(h),
            bl,
        ),
        shift_up(h),
        bl,
    )
}

/// The half-moves of snake `id`: one per open neighbour of its head, or the
/// single move `Death` where there is none.
pub open spec fn legal_moves(b: BoardView, id: usize) -> Seq<Move> {
    let open = open_squares(b, id);
    if open.len() == 0 {
        seq![Move { move_type: MoveType::Death, id }]
    } else {
        Seq::new(open.len(), |i: int| Move { move_type: MoveType::MoveSquare(open[i]), id })
    }
}

/// `m` is one of the half-moves of snake `m.id`.
pub open spec fn is_legal(b: BoardView, m: Move) -> bool {
    m.id < 2 && legal_moves(b, m.id).contains(m)
}

impl GameView {
    /// The half-moves of `side`.
    pub open spec fn moves_of(self, side: Side) -> Seq<Move> {
        legal_moves(self.board, self.id_of(side))
    }
}

impl Move {
    /// The half-move of snake `id` to the square `end_square`.
    pub fn new_square(end_square: u128, id: usize) -> (m: Move)
        ensures
            m == (Move { move_type: MoveType::MoveSquare(end_square), id }),
    {
        Self { move_type: MoveType::MoveSquare(end_square), id }
    }

    /// The half-move of snake `id` that has nowhere to go.
    pub fn new_death(id: usize) -> (m: Move)
        ensures
            m == (Move { move_type: MoveType::Death, id }),
    {
        Self { move_type: MoveType::Death, id }
    }

    /// The direction in which this move leaves the square `head`: `None` for
    /// `Death`, and for a square that is no neighbour of `head`.
    pub fn direction(&self, head: u128) -> (d: Option<Direction>)
        ensures
            d == direction_of(*self, head),
    {
        match self.move_type {
            MoveType::Death => None,
            MoveType::MoveSquare(square) => {
                if square == 0 {
                    None
                } else if square == step_down(head) {
                    Some(Direction::Down)
                } else if square == step_left(head) {
                    Some(Direction::Left)
                } else if square == step_right(head) {
                    Some(Direction::Right)
                } else if square == step_up(head) {
                    Some(Direction::Up)
                } else {
                    None
                }
            },
        }
    }
}

/// The direction of the step from `head` that `m` takes: right for the next
/// bit index, left for the one before, up for eleven more, down for eleven
/// less.
pub open spec fn direction_of(m: Move, head: u128) -> Option<Direction> {
    match m.move_type {
        MoveType::Death => None,
        MoveType::MoveSquare(square) => {
            if square == 0 {
                None
            } else if square == shift_down(head) {
                Some(Direction::Down)
            } else if square == shift_left(head) {
                Some(Direction::Left)
            } else if square == shift_right(head) {
                Some(Direction::Right)
            } else if square == shift_up(head) {
                Some(Direction::Up)
            } else {
                None
            }
        },
    }
}

impl Snake {
    /// The neighbours of the head that lie on the board.
    pub fn moves(&self) -> (r: u128)
        requires
            self@.body.len() >= 1,
        ensures
            r == neighbours(self@.head()),
    {
        let h = self.body[0];
        step_down(h) | step_left(h) | step_right(h) | step_up(h)
    }
}

impl Game {
    /// The squares that snake `id` may not step to.
    pub fn blocked(&self, id: usize) -> (r: u128)
        requires
            self@.wf(),
            id < 2,
        ensures
            r == blocked(self@.board, id),
    {
        let own = &self.board.snakes[id];
        let other = &self.board.snakes[1 - id];
        assert(self@.board.snakes[id as int] == own@);
        assert(self@.board.snakes[1 - id] == other@);
        if other.alive {
            own.full | (other.full | other.tail())
        } else {
            own.full
        }
    }

    /// The half-moves of `side`: between one and four, in ascending bit index
    /// of their squares, or the one move `Death`.
    pub fn legal_moves(&self, side: Side) -> (out: Vec<Move>)
        requires
            self@.wf(),
        ensures
            out@ == self@.moves_of(side),
            1 <= out@.len() <= 4,
            open_squares(self@.board, self@.id_of(side)).len() == 0 ==> out@ == seq![
                Move { move_type: MoveType::Death, id: self@.id_of(side) },
            ],
            open_squares(self@.board, self@.id_of(side)).len() > 0 ==> forall|i: int|
                0 <= i < out@.len() ==> (#[trigger] out@[i]).move_type is MoveSquare,
    {
        let id = self.id_of(side);
        let bl = self.blocked(id);
        assert(self@.board.snakes[id as int] == self.board.snakes@[id as int]@);
        let h = self.board.snakes[id].head();
        let mut out: Vec<Move> = Vec::new();
        let ghost mut open: Seq<u128> = Seq::empty();
        let d = step_down(h);
        if d != 0 && d & bl == 0 {
            out.push(Move::new_square(d, id));
        }
        proof {
            open = push_open(open, d, bl);
        }
        let d = step_left(h);
        if d != 0 && d & bl == 0 {
            out.push(Move::new_square(d, id));
        }
        proof {
            open = push_open(open, d, bl);
        }
        let d = step_right(h);
        if d != 0 && d & bl == 0 {
            out.push(Move::new_square(d, id));
        }
        proof {
            open = push_open(open, d, bl);
        }
        let d = step_up(h);
        if d != 0 && d & bl == 0 {
            out.push(Move::new_square(d, id));
        }
        proof {
            open = push_open(open, d, bl);
            assert(open == open_squares(self@.board, id));
            assert(out@.len() == open.len());
            assert(forall|i: int|
                0 <= i < open.len() ==> out@[i] == (Move {
                    move_type: MoveType::MoveSquare(open[i]),
                    id,
                }));
        }
        if out.len() == 0 {
            out.push(Move::new_death(id));
        }
        assert(out@ =~= self@.moves_of(side));
        out
    }

    /// The half-moves of the side to move.
    pub fn get_current_side_moves(&self) -> (out: Vec<Move>)
        requires
            self@.wf(),
        ensures
            out@ == self@.moves_of(self@.side),
            1 <= out@.len() <= 4,
            open_squares(self@.board, self@.id_of(self@.side)).len() == 0 ==> out@ == seq![
                Move { move_type: MoveType::Death, id: self@.id_of(self@.side) },
            ],
            open_squares(self@.board, self@.id_of(self@.side)).len() > 0 ==> forall|i: int|
                0 <= i < out@.len() ==> (#[trigger] out@[i]).move_type is MoveSquare,
    {
        self.legal_moves(self.side)
    }
}

/// There are between one and four half-moves. Either all lead to squares,
/// each one an unblocked neighbour of the head, in strictly ascending order;
/// or the head has no open neighbour and the one half-move is `Death`.
pub proof fn lemma_legal_moves(b: BoardView, id: usize)
    requires
        b.wf(),
        id < 2,
    ensures
        1 <= legal_moves(b, id).len() <= 4,
        forall|i: int|
            0 <= i < legal_moves(b, id).len() ==> (#[trigger] legal_moves(b, id)[i]).id == id,
        open_squares(b, id).len() == 0 ==> legal_moves(b, id) == seq![
            Move { move_type: MoveType::Death, id },
        ],
        open_squares(b, id).len() > 0 ==> legal_moves(b, id).len() == open_squares(b, id).len(),
        forall|i: int|
            0 <= i < open_squares(b, id).len() ==> {
                let d = #[trigger] open_squares(b, id)[i];
                &&& legal_moves(b, id)[i].move_type == MoveType::MoveSquare(d)
                &&& is_square(d)
                &&& d & blocked(b, id) == 0
                &&& d & neighbours(b.snakes[id as int].head()) == d
            },
        forall|i: int, j: int|
            0 <= i < j < open_squares(b, id).len() ==> open_squares(b, id)[i] < open_squares(
                b,
                id,
            )[j],
{
    let h = b.snakes[id as int].head();
    let bl = blocked(b, id);
    assert(is_square(h));
    lemma_shift_square(h);
    lemma_shift_order(h);
    let (d0, d1, d2, d3) = (shift_down(h), shift_left(h), shift_right(h), shift_up(h));
    assert(d0 & (d0 | d1 | d2 | d3) == d0 && d1 & (d0 | d1 | d2 | d3) == d1 && d2 & (d0 | d1 | d2
        | d3) == d2 && d3 & (d0 | d1 | d2 | d3) == d3) by (bit_vector);
    let s1 = push_open(Seq::empty(), d0, bl);
    let s2 = push_open(s1, d1, bl);
    let s3 = push_open(s2, d2, bl);
    let s4 = push_open(s3, d3, bl);
    assert(s4 == open_squares(b, id));
}

} // verus!
