//! The position model: two snakes on a bit-board, the food, and whose
//! half-move is due.

use std::collections::VecDeque;
use vstd::prelude::*;
use vstd::std_specs::cmp::PartialEqSpecImpl;

use crate::bitboard::{
    all_squares, in_runs, is_square, lemma_union_excludes, lemma_union_misses, on_board, union_of,
    UNIVERSE,
};

verus! {

/// Health of a snake that has just eaten.
pub const FULL_HEALTH: u8 = 100;

/// The side whose half-move is due.
#[derive(Clone, Copy, Debug, PartialEq, Eq, Structural)]
pub enum Side {
    You,
    Them,
}

/// One snake.
///
/// `body[0]` is the head and the last element the tail; each element is the
/// mask of one square. `full` is the union of all of `body` but its last
/// element: the squares that the snake still covers behind its head once it
/// has moved. A tail that lies on the segment before it (after a meal, or at
/// the start) is therefore part of `full`; a tail about to be vacated is not.
#[derive(Debug)]
pub struct Snake {
    pub id: usize,
    pub alive: bool,
    pub body: VecDeque<u128>,
    pub full: u128,
    pub health: u8,
}

/// The board: its size, the two snakes and the food squares.
#[derive(Debug)]
pub struct Board {
    pub width: u32,
    pub height: u32,
    pub snakes: Vec<Snake>,
    pub food: u128,
}

/// A position: the board, the index of the snake that the search plays for,
/// the turn counter and the side to move.
#[derive(Debug)]
pub struct Game {
    pub board: Board,
    pub you_id: usize,
    pub turn: u32,
    pub side: Side,
}

/// What a `Snake` holds.
pub struct SnakeView {
    pub id: usize,
    pub alive: bool,
    pub body: Seq<u128>,
    pub full: u128,
    pub health: u8,
}

/// What a `Board` holds.
pub struct BoardView {
    pub width: u32,
    pub height: u32,
    pub snakes: Seq<SnakeView>,
    pub food: u128,
}

/// What a `Game` holds.
pub struct GameView {
    pub board: BoardView,
    pub you_id: usize,
    pub turn: u32,
    pub side: Side,
}

impl SnakeView {
    /// The body is not empty, made of squares of the board with repeated
    /// squares in runs, `full` is the union of all but the last of them, and
    /// health is at most 100.
    pub open spec fn wf(self) -> bool {
        &&& self.body.len() >= 1
        &&& all_squares(self.body)
        &&& in_runs(self.body)
        &&& self.full == union_of(self.body.drop_last())
        &&& self.health <= FULL_HEALTH
    }

    /// The mask of the head.
    pub open spec fn head(self) -> u128 {
        self.body[0]
    }

    /// The mask of the tail.
    pub open spec fn tail(self) -> u128 {
        self.body.last()
    }

    /// Every square that the snake covers now.
    pub open spec fn occupied(self) -> u128 {
        self.full | self.tail()
    }
}

impl BoardView {
    /// An 11×11 board with two well-formed snakes, each at its own index,
    /// and food on the board only.
    pub open spec fn wf(self) -> bool {
        &&& self.width == 11
        &&& self.height == 11
        &&& self.snakes.len() == 2
        &&& self.snakes[0].wf()
        &&& self.snakes[1].wf()
        &&& self.snakes[0].id == 0
        &&& self.snakes[1].id == 1
        &&& on_board(self.food)
    }

    /// Number of snakes alive.
    pub open spec fn alive_count(self) -> nat {
        (if self.snakes[0].alive {
            1nat
        } else {
            0nat
        }) + (if self.snakes[1].alive {
            1nat
        } else {
            0nat
        })
    }
}

impl GameView {
    /// A well-formed board, and `you_id` the index of one of its snakes.
    pub open spec fn wf(self) -> bool {
        &&& self.board.wf()
        &&& self.you_id < 2
    }

    /// Fewer than two snakes are alive.
    pub open spec fn is_terminal(self) -> bool {
        self.board.alive_count() < 2
    }

    /// Index of the opponent's snake.
    pub open spec fn them_id(self) -> usize {
        (1 - self.you_id) as usize
    }

    /// Index of the snake of `side`.
    pub open spec fn id_of(self, side: Side) -> usize {
        match side {
            Side::You => self.you_id,
            Side::Them => self.them_id(),
        }
    }

    /// The two positions agree on each snake's body, occupancy, health and
    /// alive flag and on the food. The turn counter plays no part.
    pub open spec fn same_position(self, other: GameView) -> bool {
        &&& self.board.food == other.board.food
        &&& self.board.snakes.len() == other.board.snakes.len()
        &&& forall|i: int|
            0 <= i < self.board.snakes.len() ==> {
                &&& (#[trigger] self.board.snakes[i]).body == other.board.snakes[i].body
                &&& self.board.snakes[i].full == other.board.snakes[i].full
                &&& self.board.snakes[i].health == other.board.snakes[i].health
                &&& self.board.snakes[i].alive == other.board.snakes[i].alive
            }
    }
}

impl View for Snake {
    type V = SnakeView;

    open spec fn view(&self) -> SnakeView {
        SnakeView {
            id: self.id,
            alive: self.alive,
            body: self.body@,
            full: self.full,
            health: self.health,
        }
    }
}

impl View for Board {
    type V = BoardView;

    open spec fn view(&self) -> BoardView {
        BoardView {
            width: self.width,
            height: self.height,
            snakes: Seq::new(self.snakes@.len(), |i: int| self.snakes@[i]@),
            food: self.food,
        }
    }
}

impl View for Game {
    type V = GameView;

    open spec fn view(&self) -> GameView {
        GameView { board: self.board@, you_id: self.you_id, turn: self.turn, side: self.side }
    }
}

impl Clone for Snake {
    fn clone(&self) -> (res: Self)
        ensures
            res@ == self@,
    {
        let body = self.body.clone();
        assert(body@ =~= self.body@);
        Snake { id: self.id, alive: self.alive, body, full: self.full, health: self.health }
    }
}

impl Clone for Board {
    fn clone(&self) -> (res: Self)
        ensures
            res@ == self@,
    {
        let mut snakes: Vec<Snake> = Vec::new();
        let mut i: usize = 0;
        while i < self.snakes.len()
            invariant
                i <= self.snakes.len(),
                snakes.len() == i,
                forall|k: int| 0 <= k < i ==> snakes@[k]@ == self.snakes@[k]@,
            decreases self.snakes.len() - i,
        {
            snakes.push(self.snakes[i].clone());
            i += 1;
        }
        let res = Board { width: self.width, height: self.height, snakes, food: self.food };
        assert(res@.snakes =~= self@.snakes);
        res
    }
}

impl Clone for Game {
    fn clone(&self) -> (res: Self)
        ensures
            res@ == self@,
    {
        Game { board: self.board.clone(), you_id: self.you_id, turn: self.turn, side: self.side }
    }
}

impl Snake {
    /// The mask of the head.
    pub fn head(&self) -> (h: u128)
        requires
            self@.body.len() >= 1,
        ensures
            h == self@.head(),
    {
        self.body[0]
    }

    /// The mask of the tail.
    pub fn tail(&self) -> (t: u128)
        requires
            self@.body.len() >= 1,
        ensures
            t == self@.tail(),
    {
        self.body[self.body.len() - 1]
    }

    /// Number of segments.
    pub fn length(&self) -> (n: usize)
        ensures
            n == self@.body.len(),
    {
        self.body.len()
    }

    /// Adds a segment behind the tail, on the tail's square.
    pub fn grow(&mut self)
        requires
            old(self)@.wf(),
        ensures
            final(self)@.wf(),
            final(self)@ == (SnakeView {
                body: old(self)@.body.push(old(self)@.tail()),
                full: old(self)@.occupied(),
                ..old(self)@
            }),
    {
        let t = self.tail();
        proof {
            let b = self@.body;
            let nb = b.push(t);
            assert(nb.drop_last() =~= b);
            assert(b =~= b.drop_last().push(t));
            assert(union_of(b) == union_of(b.drop_last()) | t);
        }
        self.body.push_back(t);
        self.full = self.full | t;
    }

    /// Whether the snake is well formed.
    pub fn is_well_formed(&self) -> (r: bool)
        ensures
            r == self@.wf(),
    {
        if self.body.len() == 0 || self.health > FULL_HEALTH {
            return false;
        }
        let ghost body = self.body@;
        let mut seen: u128 = 0;
        let mut full: u128 = 0;
        let mut i: usize = 0;
        while i < self.body.len()
            invariant
                i <= self.body.len(),
                body == self.body@,
                all_squares(body.take(i as int)),
                in_runs(body.take(i as int)),
                seen == union_of(body.take(i as int)),
                i > 0 ==> full == union_of(body.take(i as int).drop_last()),
            decreases self.body.len() - i,
        {
            let m = self.body[i];
            let ghost before = body.take(i as int);
            let ghost now = body.take(i + 1);
            if m == 0 || m & (m - 1) != 0 || m & !UNIVERSE != 0 {
                assert(!is_square(body[i as int]));
                return false;
            }
            if i > 0 && self.body[i - 1] != m && m & seen != 0 {
                proof {
                    if forall|j: int| 0 <= j < before.len() ==> before[j] != m {
                        lemma_union_misses(before, m);
                    }
                    let j = choose|j: int| 0 <= j < before.len() && before[j] == m;
                    assert(body[j] == body[i as int]);
                    assert(body[i - 1] != body[i as int]);
                }
                return false;
            }
            proof {
                if i > 0 && before[i - 1] != m {
                    lemma_union_excludes(before, m);
                }
                assert(now.drop_last() =~= before);
                assert forall|k: int| 0 <= k < now.len() implies is_square(#[trigger] now[k]) by {
                    if k < i {
                        assert(is_square(before[k]));
                    }
                }
                assert forall|a: int, b: int|
                    #![trigger now[a], now[b]]
                    0 <= a < b < now.len() && now[a] == now[b] implies now[b - 1] == now[b] by {
                    if b < i {
                        assert(before[a] == before[b]);
                    } else if i > 0 && before[i - 1] != m {
                        assert(before[a] != m);
                    }
                }
            }
            full = seen;
            seen = seen | m;
            i += 1;
        }
        assert(body.take(body.len() as int) =~= body);
        self.full == full
    }
}

impl Game {
    /// Whether the game is well formed.
    pub fn is_well_formed(&self) -> (r: bool)
        ensures
            r == self@.wf(),
    {
        if self.board.width != 11 || self.board.height != 11 || self.board.snakes.len() != 2
            || self.you_id >= 2 || self.board.food & !UNIVERSE != 0 {
            return false;
        }
        assert(self@.board.snakes[0] == self.board.snakes@[0]@);
        assert(self@.board.snakes[1] == self.board.snakes@[1]@);
        self.board.snakes[0].id == 0 && self.board.snakes[1].id == 1
            && self.board.snakes[0].is_well_formed() && self.board.snakes[1].is_well_formed()
    }

    /// Number of snakes alive.
    pub fn alive_count(&self) -> (n: usize)
        requires
            self@.wf(),
        ensures
            n == self@.board.alive_count(),
    {
        let a: usize = if self.board.snakes[0].alive {
            1
        } else {
            0
        };
        let b: usize = if self.board.snakes[1].alive {
            1
        } else {
            0
        };
        a + b
    }

    /// Whether fewer than two snakes are alive.
    pub fn is_terminal(&self) -> (t: bool)
        requires
            self@.wf(),
        ensures
            t == self@.is_terminal(),
    {
        self.alive_count() < 2
    }

    /// Index of the opponent's snake.
    pub fn them_id(&self) -> (id: usize)
        requires
            self@.wf(),
        ensures
            id == self@.them_id(),
            id < 2,
    {
        1 - self.you_id
    }

    /// Index of the snake of `side`.
    pub fn id_of(&self, side: Side) -> (id: usize)
        requires
            self@.wf(),
        ensures
            id == self@.id_of(side),
            id < 2,
    {
        match side {
            Side::You => self.you_id,
            Side::Them => 1 - self.you_id,
        }
    }
}

/// Where the hash of a position starts.
pub const HASH_SEED: u64 = 0xcbf2_9ce4_8422_2325;

/// The low 64 bits of `x`.
pub open spec fn low_half(x: u128) -> u64 {
    (x & 0xffff_ffff_ffff_ffff) as u64
}

/// The high 64 bits of `x`.
pub open spec fn high_half(x: u128) -> u64 {
    (x >> 64) as u64
}

/// The hash `h` with the mask `x` stirred in.
pub open spec fn mix(h: u64, x: u128) -> u64 {
    let turned = (h << 13) | (h >> 51);
    let high = high_half(x);
    (turned ^ low_half(x)) ^ ((high << 29) | (high >> 35))
}

/// Health and alive flag of a snake as one mask.
pub open spec fn vitals(s: SnakeView) -> u128 {
    if s.alive {
        (s.health as u128) | 0x100
    } else {
        s.health as u128
    }
}

/// The hash `h` with head, occupancy, tail, health and alive flag of `s`
/// stirred in.
pub open spec fn mix_snake(h: u64, s: SnakeView) -> u64 {
    mix(mix(mix(mix(h, s.head()), s.full), s.tail()), vitals(s))
}

/// The hash of a position: of its food and its two snakes. The turn counter
/// plays no part.
pub open spec fn position_hash(g: GameView) -> u64 {
    mix_snake(mix_snake(mix(HASH_SEED, g.board.food), g.board.snakes[0]), g.board.snakes[1])
}

/// Positions that differ in nothing but the turn counter, the side to move
/// or the snake played for have the same hash.
pub proof fn lemma_hash_of_position(a: GameView, b: GameView)
    requires
        a.wf(),
        b.wf(),
        a.same_position(b),
    ensures
        position_hash(a) == position_hash(b),
{
    assert(a.board.snakes[0].body == b.board.snakes[0].body);
    assert(a.board.snakes[1].body == b.board.snakes[1].body);
}

fn stir(h: u64, x: u128) -> (r: u64)
    ensures
        r == mix(h, x),
{
    assert(x & 0xffff_ffff_ffff_ffff <= 0xffff_ffff_ffff_ffff && (x >> 64)
        <= 0xffff_ffff_ffff_ffff) by (bit_vector);
    let low = (x & 0xffff_ffff_ffff_ffff) as u64;
    let high = (x >> 64) as u64;
    let turned = (h << 13) | (h >> 51);
    (turned ^ low) ^ ((high << 29) | (high >> 35))
}

impl Snake {
    fn stir_into(&self, h: u64) -> (r: u64)
        requires
            self@.body.len() >= 1,
        ensures
            r == mix_snake(h, self@),
    {
        let vitals: u128 = if self.alive {
            (self.health as u128) | 0x100
        } else {
            self.health as u128
        };
        stir(stir(stir(stir(h, self.head()), self.full), self.tail()), vitals)
    }

    /// Whether the two snakes have the same body, occupancy, health and
    /// alive flag.
    pub fn same_state(&self, other: &Snake) -> (r: bool)
        ensures
            r == (self@.body == other@.body && self.full == other.full && self.health
                == other.health && self.alive == other.alive),
    {
        if self.full != other.full || self.health != other.health || self.alive != other.alive
            || self.body.len() != other.body.len() {
            return false;
        }
        let mut i: usize = 0;
        while i < self.body.len()
            invariant
                i <= self.body.len(),
                self.body.len() == other.body.len(),
                forall|k: int| 0 <= k < i ==> self.body@[k] == other.body@[k],
            decreases self.body.len() - i,
        {
            if self.body[i] != other.body[i] {
                return false;
            }
            i += 1;
        }
        assert(self.body@ =~= other.body@);
        true
    }
}

impl Game {
    /// The hash of the position.
    pub fn hash(&self) -> (h: u64)
        requires
            self@.wf(),
        ensures
            h == position_hash(self@),
    {
        assert(self@.board.snakes[0] == self.board.snakes@[0]@);
        assert(self@.board.snakes[1] == self.board.snakes@[1]@);
        let h = stir(HASH_SEED, self.board.food);
        let h = self.board.snakes[0].stir_into(h);
        self.board.snakes[1].stir_into(h)
    }
}

impl PartialEq for Game {
    /// Two games are equal where they hold the same position: bodies,
    /// occupancy, health, alive flags and food. The turn counter plays no
    /// part.
    fn eq(&self, other: &Game) -> (r: bool) {
        if self.board.food != other.board.food || self.board.snakes.len()
            != other.board.snakes.len() {
            return false;
        }
        let mut i: usize = 0;
        while i < self.board.snakes.len()
            invariant
                i <= self.board.snakes.len(),
                self.board.snakes.len() == other.board.snakes.len(),
                forall|k: int|
                    0 <= k < i ==> {
                        &&& (#[trigger] self@.board.snakes[k]).body == other@.board.snakes[k].body
                        &&& self@.board.snakes[k].full == other@.board.snakes[k].full
                        &&& self@.board.snakes[k].health == other@.board.snakes[k].health
                        &&& self@.board.snakes[k].alive == other@.board.snakes[k].alive
                    },
            decreases self.board.snakes.len() - i,
        {
            assert(self@.board.snakes[i as int] == self.board.snakes@[i as int]@);
            assert(other@.board.snakes[i as int] == other.board.snakes@[i as int]@);
            if !self.board.snakes[i].same_state(&other.board.snakes[i]) {
                return false;
            }
            i += 1;
        }
        true
    }
}

impl PartialEqSpecImpl for Game {
    open spec fn obeys_eq_spec() -> bool {
        true
    }

    open spec fn eq_spec(&self, other: &Game) -> bool {
        self@.same_position(other@)
    }
}

} // verus!
