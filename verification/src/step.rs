//! The state mutator: `Game::step` plays one tick for both snakes in place and
//! hands back an `Undo`; `Game::undo` puts the position back as it was.
//!
//! Every `step` is paired with one later `undo`, the last step first.

use vstd::prelude::*;

use crate::bitboard::{
    all_squares, in_runs, is_square, lemma_union_excludes, lemma_union_misses, on_board, union_of,
};
use crate::board::{BoardView, Game, GameView, Side, Snake, SnakeView, FULL_HEALTH};
use crate::movegen::{blocked, is_legal, lemma_legal_moves, open_squares, Move, MoveType};

verus! {

/// What one tick changed on one snake.
#[derive(Clone, Copy, Debug, PartialEq, Eq, Structural)]
pub struct SnakeUndo {
    moved: bool,
    tail: u128,
    full: u128,
    health: u8,
    fed: bool,
    killed: bool,
}

/// What one tick changed: for each snake the tail square it left, its
/// occupancy and health before, whether it ate and whether it was killed;
/// and the food before the tick.
#[derive(Clone, Copy, Debug, PartialEq, Eq, Structural)]
pub struct Undo {
    first: SnakeUndo,
    second: SnakeUndo,
    food: u128,
}

/// The half-move that `moves` holds for snake `id`, if any.
pub open spec fn choice(moves: Seq<Move>, id: usize) -> Option<MoveType> {
    if moves.len() >= 1 && moves[0].id == id {
        Some(moves[0].move_type)
    } else if moves.len() >= 2 && moves[1].id == id {
        Some(moves[1].move_type)
    } else {
        None
    }
}

/// `moves` holds exactly one legal half-move for each snake alive, and none
/// for a dead one.
pub open spec fn legal_tick(g: GameView, moves: Seq<Move>) -> bool {
    &&& moves.len() == g.board.alive_count()
    &&& forall|k: int|
        0 <= k < moves.len() ==> {
            &&& is_legal(g.board, #[trigger] moves[k])
            &&& g.board.snakes[moves[k].id as int].alive
        }
    &&& moves.len() == 2 ==> moves[0].id != moves[1].id
}

/// The turn counter after one more tick. It wraps.
pub open spec fn next_turn(t: u32) -> u32 {
    if t == u32::MAX {
        0
    } else {
        (t + 1) as u32
    }
}

/// The turn counter one tick earlier.
pub open spec fn previous_turn(t: u32) -> u32 {
    if t == 0 {
        u32::MAX
    } else {
        (t - 1) as u32
    }
}

impl SnakeView {
    /// The snake after its head has gone to `d` and its last segment has
    /// left.
    pub open spec fn moved_to(self, d: u128) -> SnakeView {
        let body = seq![d] + self.body.drop_last();
        SnakeView { body, full: union_of(body.drop_last()), ..self }
    }

    /// The snake after the half-move `c`, if it has one that leads to a
    /// square.
    pub open spec fn relocated(self, c: Option<MoveType>) -> SnakeView {
        match c {
            Some(MoveType::MoveSquare(d)) => self.moved_to(d),
            _ => self,
        }
    }

    /// The snake one health point lower, never below 0.
    pub open spec fn hungrier(self) -> SnakeView {
        SnakeView {
            health: if self.health > 0 {
                (self.health - 1) as u8
            } else {
                0
            },
            ..self
        }
    }

    /// The snake's head lies on a square of `food`.
    pub open spec fn on_food(self, food: u128) -> bool {
        self.head() & food != 0
    }

    /// The snake after a meal: at full health, and one segment longer, the
    /// new one on the tail's square.
    pub open spec fn fed(self) -> SnakeView {
        SnakeView {
            body: self.body.push(self.tail()),
            full: self.occupied(),
            health: FULL_HEALTH,
            ..self
        }
    }

    /// The snake after it has moved, lost a health point and eaten, before
    /// any elimination. A dead snake stays as it is.
    pub open spec fn advanced(self, c: Option<MoveType>, food: u128) -> SnakeView {
        if !self.alive {
            self
        } else {
            let s = self.relocated(c).hungrier();
            if s.on_food(food) {
                s.fed()
            } else {
                s
            }
        }
    }

    /// Whether the snake eats in a tick with half-move `c` and food `food`.
    pub open spec fn eats(self, c: Option<MoveType>, food: u128) -> bool {
        self.alive && self.relocated(c).on_food(food)
    }

    /// The squares of `food` that the snake eats in such a tick.
    pub open spec fn eaten(self, c: Option<MoveType>, food: u128) -> u128 {
        if self.eats(c, food) {
            self.relocated(c).head()
        } else {
            0
        }
    }
}

/// Whether `s`, after both snakes have moved and eaten, is eliminated:
/// by starvation, by meeting the head of a snake at least as long, or by
/// its own half-move `Death`. Both snakes still carry the alive flags that
/// they had before the tick.
pub open spec fn eliminated(s: SnakeView, other: SnakeView, c: Option<MoveType>) -> bool {
    s.alive && {
        ||| s.health == 0
        ||| (other.alive && s.head() & other.head() != 0 && other.body.len() >= s.body.len())
        ||| c == Some(MoveType::Death)
    }
}

/// The position after one tick with the half-moves `moves`.
pub open spec fn tick(g: GameView, moves: Seq<Move>) -> GameView {
    let food = g.board.food;
    let c0 = choice(moves, 0);
    let c1 = choice(moves, 1);
    let a0 = g.board.snakes[0].advanced(c0, food);
    let a1 = g.board.snakes[1].advanced(c1, food);
    let s0 = SnakeView { alive: a0.alive && !eliminated(a0, a1, c0), ..a0 };
    let s1 = SnakeView { alive: a1.alive && !eliminated(a1, a0, c1), ..a1 };
    let eaten = g.board.snakes[0].eaten(c0, food) | g.board.snakes[1].eaten(c1, food);
    GameView {
        board: BoardView { snakes: seq![s0, s1], food: food & !eaten, ..g.board },
        turn: next_turn(g.turn),
        ..g
    }
}

impl SnakeUndo {
    /// What a tick from `before` to `after` with half-move `c` leaves.
    pub closed spec fn record(before: SnakeView, after: SnakeView, c: Option<MoveType>, food: u128)
        -> SnakeUndo {
        SnakeUndo {
            moved: before.alive && c is Some && c->0 is MoveSquare,
            tail: before.tail(),
            full: before.full,
            health: before.health,
            fed: before.eats(c, food),
            killed: before.alive && !after.alive,
        }
    }

    /// The snake `s` as it was before the changes of `self`.
    pub closed spec fn restored(self, s: SnakeView) -> SnakeView {
        let body = if self.fed {
            s.body.drop_last()
        } else {
            s.body
        };
        let body = if self.moved {
            body.subrange(1, body.len() as int).push(self.tail)
        } else {
            body
        };
        SnakeView { body, full: self.full, health: self.health, alive: s.alive || self.killed, ..s }
    }

    /// The body of `s` is long enough to take the changes of `self` back.
    pub closed spec fn fits(self, s: SnakeView) -> bool {
        s.body.len() >= 1 + (if self.fed {
            1nat
        } else {
            0nat
        })
    }
}

impl Undo {
    /// What the tick from `g` with the half-moves `moves` leaves.
    pub closed spec fn record(g: GameView, moves: Seq<Move>) -> Undo {
        let after = tick(g, moves);
        Undo {
            first: SnakeUndo::record(
                g.board.snakes[0],
                after.board.snakes[0],
                choice(moves, 0),
                g.board.food,
            ),
            second: SnakeUndo::record(
                g.board.snakes[1],
                after.board.snakes[1],
                choice(moves, 1),
                g.board.food,
            ),
            food: g.board.food,
        }
    }

    /// The position `g` as it was before the tick that left `self`.
    pub closed spec fn untick(self, g: GameView) -> GameView {
        GameView {
            board: BoardView {
                snakes: seq![
                    self.first.restored(g.board.snakes[0]),
                    self.second.restored(g.board.snakes[1]),
                ],
                food: self.food,
                ..g.board
            },
            turn: previous_turn(g.turn),
            ..g
        }
    }

    /// `self` can be taken back from `g`: the bodies are long enough, and
    /// what comes out is well formed. This holds of the `Undo` that a tick
    /// left and the position it led to, as long as that position is the
    /// current one.
    pub closed spec fn fits(self, g: GameView) -> bool {
        &&& self.first.fits(g.board.snakes[0])
        &&& self.second.fits(g.board.snakes[1])
        &&& self.untick(g).wf()
    }
}

/// The union of a sequence with one more mask in front.
proof fn lemma_union_front(d: u128, s: Seq<u128>)
    ensures
        union_of(seq![d] + s) == d | union_of(s),
    decreases s.len(),
{
    let t = seq![d] + s;
    assert(t.last() == if s.len() == 0 {
        d
    } else {
        s.last()
    });
    assert(union_of(t) == union_of(t.drop_last()) | t.last());
    if s.len() == 0 {
        assert(t.drop_last() =~= Seq::<u128>::empty());
        assert(union_of(t.drop_last()) == 0);
        assert(union_of(s) == 0);
        assert(0u128 | d == d | 0u128) by (bit_vector);
    } else {
        lemma_union_front(d, s.drop_last());
        assert(t.drop_last() =~= seq![d] + s.drop_last());
        let u = union_of(s.drop_last());
        let l = s.last();
        assert((d | u) | l == d | (u | l)) by (bit_vector);
    }
}

/// In a body whose equal squares stand in runs, the union of all segments
/// but the last: the last square leaves the union of all, unless the segment
/// before lies on it too.
proof fn lemma_union_without_last(s: Seq<u128>)
    requires
        s.len() >= 1,
        all_squares(s),
        in_runs(s),
    ensures
        union_of(s.drop_last()) == if s.len() >= 2 && s[s.len() - 2] == s.last() {
            union_of(s)
        } else {
            union_of(s) & !s.last()
        },
{
    let rest = s.drop_last();
    let t = s.last();
    let u = union_of(rest);
    assert(union_of(s) == u | t);
    if s.len() >= 2 && s[s.len() - 2] == t {
        let a = union_of(rest.drop_last());
        assert(rest.last() == t);
        assert(u == a | t);
        assert((a | t) | t == a | t) by (bit_vector);
    } else {
        assert forall|i: int| 0 <= i < rest.len() implies rest[i] != t by {
            if rest[i] == t {
                assert(s[i] == s[s.len() - 1]);
            }
        }
        lemma_union_misses(rest, t);
        assert((u | t) & !t == u) by (bit_vector)
            requires
                t & u == 0,
        ;
    }
}

impl Snake {
    /// Moves the head to `d` and drops the last segment. Returns the square
    /// of the segment dropped.
    pub fn advance(&mut self, d: u128) -> (tail: u128)
        requires
            old(self)@.wf(),
            is_square(d),
            d & old(self)@.full == 0,
        ensures
            final(self)@ == old(self)@.moved_to(d),
            final(self)@.wf(),
            tail == old(self)@.tail(),
    {
        let ghost b = self@.body;
        proof {
            lemma_moved_to(self@, d);
        }
        let n = self.body.len();
        let tail = self.body.pop_back().unwrap();
        assert(self.body@ =~= b.drop_last());
        if n >= 2 {
            let t = self.body[n - 2];
            let stacked = n >= 3 && self.body[n - 3] == t;
            proof {
                lemma_union_without_last(b.drop_last());
                lemma_union_front(d, b.drop_last().drop_last());
            }
            if !stacked {
                self.full = self.full & !t;
            }
            self.full = d | self.full;
        }
        self.body.push_front(d);
        proof {
            let nb = seq![d] + b.drop_last();
            assert(self.body@ =~= nb);
            if n == 1 {
                assert(nb.drop_last() =~= Seq::<u128>::empty());
                assert(b.drop_last() =~= Seq::<u128>::empty());
            } else {
                assert(nb.drop_last() =~= seq![d] + b.drop_last().drop_last());
            }
        }
        tail
    }

    /// Takes the changes of one tick back.
    pub fn restore(&mut self, undo: &SnakeUndo)
        requires
            undo.fits(old(self)@),
        ensures
            final(self)@ == undo.restored(old(self)@),
    {
        if undo.fed {
            let _ = self.body.pop_back();
        }
        if undo.moved {
            let _ = self.body.pop_front();
            self.body.push_back(undo.tail);
        }
        self.full = undo.full;
        self.health = undo.health;
        if undo.killed {
            self.alive = true;
        }
        assert(self@.body =~= undo.restored(old(self)@).body);
    }

    /// Plays the snake's part of one tick up to the eliminations: it moves as
    /// `c` says, loses a health point, and eats if its head then lies on
    /// `food`. A dead snake is left alone.
    pub fn half_tick(&mut self, c: Option<MoveType>, food: u128) -> (undo: SnakeUndo)
        requires
            old(self)@.wf(),
            c matches Some(MoveType::MoveSquare(d)) ==> is_square(d) && d & old(self)@.full == 0,
        ensures
            final(self)@ == old(self)@.advanced(c, food),
            final(self)@.wf(),
            undo == SnakeUndo::record(old(self)@, old(self)@, c, food),
            undo.fits(final(self)@),
            undo.restored(final(self)@) == old(self)@,
    {
        proof {
            lemma_advanced(self@, c, food);
        }
        let mut undo = SnakeUndo {
            moved: false,
            tail: self.tail(),
            full: self.full,
            health: self.health,
            fed: false,
            killed: false,
        };
        if !self.alive {
            return undo;
        }
        match c {
            Some(MoveType::MoveSquare(d)) => {
                let _ = self.advance(d);
                undo.moved = true;
            },
            _ => {},
        }
        if self.health > 0 {
            self.health = self.health - 1;
        }
        if self.head() & food != 0 {
            self.grow();
            self.health = FULL_HEALTH;
            undo.fed = true;
        }
        undo
    }

    /// Whether the snake, after both have moved and eaten, is eliminated.
    pub fn eliminated(&self, other: &Snake, c: Option<MoveType>) -> (e: bool)
        requires
            self@.wf(),
            other@.wf(),
        ensures
            e == eliminated(self@, other@, c),
    {
        let died = match c {
            Some(MoveType::Death) => true,
            _ => false,
        };
        self.alive && (self.health == 0 || (other.alive && self.head() & other.head() != 0
            && other.length() >= self.length()) || died)
    }
}

/// A step to a free square keeps the snake well formed.
pub proof fn lemma_moved_to(s: SnakeView, d: u128)
    requires
        s.wf(),
        is_square(d),
        d & s.full == 0,
    ensures
        s.moved_to(d).wf(),
{
    let b = s.body;
    let nb = seq![d] + b.drop_last();
    lemma_union_excludes(b.drop_last(), d);
    assert forall|i: int, j: int|
        #![trigger nb[i], nb[j]]
        0 <= i < j < nb.len() && nb[i] == nb[j] implies nb[j - 1] == nb[j] by {
        if i == 0 {
            assert(b.drop_last()[j - 1] == nb[j]);
        } else {
            assert(b[i - 1] == b[j - 1]);
        }
    }
}

/// One snake's part of a tick keeps it well formed, and what the tick
/// records of it restores it.
pub proof fn lemma_advanced(s: SnakeView, c: Option<MoveType>, food: u128)
    requires
        s.wf(),
        c matches Some(MoveType::MoveSquare(d)) ==> is_square(d) && d & s.full == 0,
    ensures
        s.advanced(c, food).wf(),
        SnakeUndo::record(s, s, c, food).fits(s.advanced(c, food)),
        SnakeUndo::record(s, s, c, food).restored(s.advanced(c, food)) == s,
{
    let u = SnakeUndo::record(s, s, c, food);
    let a = s.advanced(c, food);
    if s.alive {
        if let Some(MoveType::MoveSquare(d)) = c {
            lemma_moved_to(s, d);
        }
        let r = s.relocated(c).hungrier();
        assert(r.wf());
        if r.on_food(food) {
            let b = r.body;
            let nb = b.push(r.tail());
            assert(nb.drop_last() =~= b);
            assert(b =~= b.drop_last().push(r.tail()));
            assert(union_of(b) == union_of(b.drop_last()) | r.tail());
        }
    }
    assert(u.restored(a).body =~= s.body);
}

/// The half-move that `moves` holds for snake `id`, if any.
pub fn choice_of(moves: &Vec<Move>, id: usize) -> (c: Option<MoveType>)
    ensures
        c == choice(moves@, id),
{
    if moves.len() >= 1 && moves[0].id == id {
        Some(moves[0].move_type)
    } else if moves.len() >= 2 && moves[1].id == id {
        Some(moves[1].move_type)
    } else {
        None
    }
}

/// A legal half-move to a square leads to one square of the board that the
/// mover does not cover behind its head.
pub proof fn lemma_legal_square(b: BoardView, m: Move)
    requires
        b.wf(),
        is_legal(b, m),
    ensures
        m.move_type matches MoveType::MoveSquare(d) ==> is_square(d) && d & b.snakes[m.id as int].full
            == 0 && d & blocked(b, m.id) == 0,
{
    lemma_legal_moves(b, m.id);
    let lm = crate::movegen::legal_moves(b, m.id);
    let i = choose|i: int| 0 <= i < lm.len() && lm[i] == m;
    if let MoveType::MoveSquare(d) = m.move_type {
        let open = open_squares(b, m.id);
        assert(open.len() > 0);
        assert(d == open[i]);
        let bl = blocked(b, m.id);
        let full = b.snakes[m.id as int].full;
        let occ = b.snakes[1 - m.id].occupied();
        assert(d & full == 0) by (bit_vector)
            requires
                d & bl == 0,
                bl == full | occ || bl == full,
        ;
    }
}

/// What `legal_tick` means for each snake's half-move.
pub proof fn lemma_choices(g: GameView, moves: Seq<Move>, id: usize)
    requires
        g.wf(),
        legal_tick(g, moves),
        id < 2,
    ensures
        choice(moves, id) matches Some(MoveType::MoveSquare(d)) ==> is_square(d) && d
            & g.board.snakes[id as int].full == 0 && d & blocked(g.board, id) == 0,
        g.board.snakes[id as int].alive <==> choice(moves, id) is Some,
{
    if moves.len() >= 1 && moves[0].id == id {
        lemma_legal_square(g.board, moves[0]);
    } else if moves.len() >= 2 && moves[1].id == id {
        lemma_legal_square(g.board, moves[1]);
    }
    if moves.len() >= 1 {
        assert(is_legal(g.board, moves[0]));
    }
    if moves.len() >= 2 {
        assert(is_legal(g.board, moves[1]));
    }
}

impl Game {
    /// Plays one tick: both snakes move at once, lose a health point and eat
    /// where their heads land on food; then the starved, the losers of a
    /// head-to-head meeting and those that moved to their death are marked
    /// dead. The position is changed in place, and the `Undo` returned takes
    /// the change back.
    pub fn step(&mut self, moves: &Vec<Move>) -> (undo: Undo)
        requires
            old(self)@.wf(),
            legal_tick(old(self)@, moves@),
        ensures
            final(self)@ == tick(old(self)@, moves@),
            final(self)@.wf(),
            undo == Undo::record(old(self)@, moves@),
            undo.fits(final(self)@),
            undo.untick(final(self)@) == old(self)@,
    {
        let ghost g = self@;
        let c0 = choice_of(moves, 0);
        let c1 = choice_of(moves, 1);
        proof {
            lemma_choices(g, moves@, 0);
            lemma_choices(g, moves@, 1);
            assert(g.board.snakes[0] == self.board.snakes@[0]@);
            assert(g.board.snakes[1] == self.board.snakes@[1]@);
        }
        let food = self.board.food;
        let mut first = self.board.snakes[0].half_tick(c0, food);
        let mut second = self.board.snakes[1].half_tick(c1, food);
        let e0 = if first.fed {
            self.board.snakes[0].head()
        } else {
            0
        };
        let e1 = if second.fed {
            self.board.snakes[1].head()
        } else {
            0
        };
        self.board.food = food & !(e0 | e1);
        assert(on_board(self.board.food)) by {
            let f = food;
            let e = e0 | e1;
            assert((f & !e) & !crate::bitboard::UNIVERSE == 0) by (bit_vector)
                requires
                    f & !crate::bitboard::UNIVERSE == 0,
            ;
        }
        let k0 = self.board.snakes[0].eliminated(&self.board.snakes[1], c0);
        let k1 = self.board.snakes[1].eliminated(&self.board.snakes[0], c1);
        if k0 {
            self.board.snakes[0].alive = false;
            first.killed = true;
        }
        if k1 {
            self.board.snakes[1].alive = false;
            second.killed = true;
        }
        self.turn = if self.turn == u32::MAX {
            0
        } else {
            self.turn + 1
        };
        let undo = Undo { first, second, food };
        proof {
            let t = tick(g, moves@);
            assert(self@.board.snakes =~= t.board.snakes);
            assert(self@ == t);
            assert(undo.untick(self@).board.snakes =~= g.board.snakes);
            assert(undo.untick(self@) == g);
        }
        undo
    }

    /// Takes the last tick back.
    ///
    /// `undo` must be the one that the tick to the current position returned:
    /// that is what `fits` asks.
    pub fn undo(&mut self, undo: &Undo)
        requires
            old(self)@.wf(),
            undo.fits(old(self)@),
        ensures
            final(self)@ == undo.untick(old(self)@),
            final(self)@.wf(),
    {
        assert(self@.board.snakes[0] == self.board.snakes@[0]@);
        assert(self@.board.snakes[1] == self.board.snakes@[1]@);
        self.board.snakes[0].restore(&undo.first);
        self.board.snakes[1].restore(&undo.second);
        self.board.food = undo.food;
        self.turn = if self.turn == 0 {
            u32::MAX
        } else {
            self.turn - 1
        };
        assert(self@.board.snakes =~= undo.untick(old(self)@).board.snakes);
    }
}

/// The pair of one legal move of each side is a legal tick while both snakes
/// are alive.
pub proof fn lemma_pair_is_legal(g: GameView, them_move: Move, you_move: Move)
    requires
        g.wf(),
        !g.is_terminal(),
        g.moves_of(Side::Them).contains(them_move),
        g.moves_of(Side::You).contains(you_move),
    ensures
        legal_tick(g, seq![them_move, you_move]),
{
    lemma_legal_moves(g.board, g.you_id);
    lemma_legal_moves(g.board, g.them_id());
    let moves = seq![them_move, you_move];
    assert(moves[0] == them_move && moves[1] == you_move);
    let i = choose|i: int|
        0 <= i < g.moves_of(Side::Them).len() && g.moves_of(Side::Them)[i] == them_move;
    let j = choose|j: int|
        0 <= j < g.moves_of(Side::You).len() && g.moves_of(Side::You)[j] == you_move;
    assert(them_move.id == g.them_id());
    assert(you_move.id == g.you_id);
}

/// Taking a tick back gives the position before it, exactly: each snake's
/// body, occupancy, health and alive flag, the food and the turn counter;
/// whether snakes ate or were eliminated in the tick or not.
pub proof fn lemma_step_undo(g: GameView, moves: Seq<Move>)
    requires
        g.wf(),
        legal_tick(g, moves),
    ensures
        tick(g, moves).wf(),
        Undo::record(g, moves).fits(tick(g, moves)),
        Undo::record(g, moves).untick(tick(g, moves)) == g,
{
    let food = g.board.food;
    let c0 = choice(moves, 0);
    let c1 = choice(moves, 1);
    lemma_choices(g, moves, 0);
    lemma_choices(g, moves, 1);
    lemma_advanced(g.board.snakes[0], c0, food);
    lemma_advanced(g.board.snakes[1], c1, food);
    let t = tick(g, moves);
    let e = g.board.snakes[0].eaten(c0, food) | g.board.snakes[1].eaten(c1, food);
    assert((food & !e) & !crate::bitboard::UNIVERSE == 0) by (bit_vector)
        requires
            food & !crate::bitboard::UNIVERSE == 0,
    ;
    let u = Undo::record(g, moves);
    assert(u.untick(t).board.snakes =~= g.board.snakes);
    assert(u.untick(t) == g);
}

/// `plan` is a run of ticks from `g`, each legal where it is played.
pub open spec fn legal_run(g: GameView, plan: Seq<Seq<Move>>) -> bool
    decreases plan.len(),
{
    plan.len() == 0 || (legal_tick(g, plan[0]) && legal_run(tick(g, plan[0]), plan.drop_first()))
}

/// The position after the ticks of `plan`.
pub open spec fn run(g: GameView, plan: Seq<Seq<Move>>) -> GameView
    decreases plan.len(),
{
    if plan.len() == 0 {
        g
    } else {
        run(tick(g, plan[0]), plan.drop_first())
    }
}

/// What the ticks of `plan` leave, in the order in which they are played.
pub open spec fn records(g: GameView, plan: Seq<Seq<Move>>) -> Seq<Undo>
    decreases plan.len(),
{
    if plan.len() == 0 {
        Seq::empty()
    } else {
        seq![Undo::record(g, plan[0])] + records(tick(g, plan[0]), plan.drop_first())
    }
}

/// The position `g` after `undos` were taken back, the last one first.
pub open spec fn rewound(g: GameView, undos: Seq<Undo>) -> GameView
    decreases undos.len(),
{
    if undos.len() == 0 {
        g
    } else {
        rewound(undos.last().untick(g), undos.drop_last())
    }
}

/// The first of a run of undos is taken back last.
proof fn lemma_rewound_first(g: GameView, first: Undo, rest: Seq<Undo>)
    ensures
        rewound(g, seq![first] + rest) == first.untick(rewound(g, rest)),
    decreases rest.len(),
{
    let all = seq![first] + rest;
    if rest.len() == 0 {
        assert(all.drop_last() =~= Seq::<Undo>::empty());
        assert(all.last() == first);
        assert(rewound(first.untick(g), all.drop_last()) == first.untick(g));
    } else {
        assert(all.last() == rest.last());
        assert(all.drop_last() =~= seq![first] + rest.drop_last());
        lemma_rewound_first(rest.last().untick(g), first, rest.drop_last());
    }
}

/// Taking back a run of ticks, the last one first, gives the position
/// before the run, exactly.
pub proof fn lemma_run_rewound(g: GameView, plan: Seq<Seq<Move>>)
    requires
        g.wf(),
        legal_run(g, plan),
    ensures
        run(g, plan).wf(),
        rewound(run(g, plan), records(g, plan)) == g,
    decreases plan.len(),
{
    if plan.len() > 0 {
        let after = tick(g, plan[0]);
        lemma_step_undo(g, plan[0]);
        lemma_run_rewound(after, plan.drop_first());
        lemma_rewound_first(
            run(g, plan),
            Undo::record(g, plan[0]),
            records(after, plan.drop_first()),
        );
    }
}

/// A snake whose head lands on food is one segment longer after the tick
/// and at full health, and the square it ate is no longer food.
pub proof fn lemma_feeding(g: GameView, moves: Seq<Move>, id: usize)
    requires
        g.wf(),
        legal_tick(g, moves),
        id < 2,
        g.board.snakes[id as int].eats(choice(moves, id), g.board.food),
    ensures
        tick(g, moves).board.snakes[id as int].body.len() == g.board.snakes[id as int].body.len()
            + 1,
        tick(g, moves).board.snakes[id as int].health == FULL_HEALTH,
        tick(g, moves).board.snakes[id as int].head() & tick(g, moves).board.food == 0,
{
    let food = g.board.food;
    let h = g.board.snakes[id as int].relocated(choice(moves, id)).head();
    let o = g.board.snakes[1 - id].eaten(choice(moves, (1 - id) as usize), food);
    assert(h & (food & !(h | o)) == 0 && h & (food & !(o | h)) == 0) by (bit_vector);
}

/// What a position has left to spend: its food, and below that the health
/// of the snakes alive.
pub open spec fn potential(g: GameView) -> nat {
    let h0: nat = if g.board.snakes[0].alive {
        g.board.snakes[0].health as nat
    } else {
        0
    };
    let h1: nat = if g.board.snakes[1].alive {
        g.board.snakes[1].health as nat
    } else {
        0
    };
    (g.board.food as nat) * 256 + h0 + h1
}

/// A tick either leaves fewer than two snakes alive, or leaves strictly less
/// potential, which is never negative.
pub proof fn lemma_tick_progress(g: GameView, moves: Seq<Move>)
    requires
        g.wf(),
        legal_tick(g, moves),
    ensures
        tick(g, moves).is_terminal() || potential(tick(g, moves)) < potential(g),
{
    let t = tick(g, moves);
    if !t.is_terminal() {
        let food = g.board.food;
        let c0 = choice(moves, 0);
        let c1 = choice(moves, 1);
        let s0 = g.board.snakes[0];
        let s1 = g.board.snakes[1];
        lemma_choices(g, moves, 0);
        lemma_choices(g, moves, 1);
        let e = s0.eaten(c0, food) | s1.eaten(c1, food);
        if s0.eats(c0, food) || s1.eats(c1, food) {
            let x0 = s0.eaten(c0, food);
            let x1 = s1.eaten(c1, food);
            assert(food & !(x0 | x1) < food) by (bit_vector)
                requires
                    x0 & food != 0 || x1 & food != 0,
            ;
            assert(t.board.snakes[0].health <= 100 && t.board.snakes[1].health <= 100);
        } else {
            assert(food & !(0u128 | 0u128) == food) by (bit_vector);
        }
    }
}

/// Both snakes are alive after each tick of `plan` played from `g`.
pub open spec fn both_alive_through(g: GameView, plan: Seq<Seq<Move>>) -> bool
    decreases plan.len(),
{
    plan.len() == 0 || (!tick(g, plan[0]).is_terminal() && both_alive_through(
        tick(g, plan[0]),
        plan.drop_first(),
    ))
}

/// Play comes to an end: a run of legal ticks through which both snakes
/// stay alive has no more ticks than its start has potential.
pub proof fn lemma_runs_end(g: GameView, plan: Seq<Seq<Move>>)
    requires
        g.wf(),
        legal_run(g, plan),
        both_alive_through(g, plan),
    ensures
        plan.len() <= potential(g),
    decreases plan.len(),
{
    if plan.len() > 0 {
        lemma_step_undo(g, plan[0]);
        lemma_tick_progress(g, plan[0]);
        lemma_runs_end(tick(g, plan[0]), plan.drop_first());
    }
}

} // verus!
