//! The position as a request describes it, by coordinates and snake names,
//! and its conversion into the bit-board model.

use std::collections::VecDeque;
use vstd::prelude::*;

use crate::bitboard::{
    all_squares, in_runs, lemma_union_excludes, lemma_union_misses, lemma_union_on_board,
    square_at, union_of,
};
use crate::board::{Board, BoardView, Game, GameView, Side, Snake, SnakeView, FULL_HEALTH};
use crate::Coordinate;

verus! {

/// A request for a move.
#[derive(Debug, Clone)]
pub struct Request {
    pub board: IBoard,
    pub you: IBattlesnake,
    pub turn: u32,
}

/// The board of a request.
#[derive(Debug, Clone)]
pub struct IBoard {
    pub width: u32,
    pub height: u32,
    pub food: Vec<Coordinate>,
    pub snakes: Vec<IBattlesnake>,
}

/// A snake of a request: its name, its health and its body from head to
/// tail.
#[derive(Debug, Clone)]
pub struct IBattlesnake {
    pub id: String,
    pub health: u8,
    pub body: Vec<Coordinate>,
}

/// The masks of the squares of `s`.
pub open spec fn masks_of(s: Seq<Coordinate>) -> Seq<u128> {
    Seq::new(s.len(), |i: int| square_at(s[i].index()))
}

/// Every square of `s` lies on the board.
pub open spec fn all_on_board(s: Seq<Coordinate>) -> bool {
    forall|i: int| 0 <= i < s.len() ==> (#[trigger] s[i]).on_board()
}

impl IBattlesnake {
    /// The body is not empty and lies on the board, squares that it covers
    /// more than once are covered by segments in a row, and health is at
    /// most 100.
    pub open spec fn valid(&self) -> bool {
        &&& self.body@.len() >= 1
        &&& all_on_board(self.body@)
        &&& in_runs(masks_of(self.body@))
        &&& self.health <= FULL_HEALTH
    }

    /// The snake on the bit-board, alive, at index `id`.
    pub open spec fn snake_view(&self, id: usize) -> SnakeView {
        SnakeView {
            id,
            alive: true,
            body: masks_of(self.body@),
            full: union_of(masks_of(self.body@).drop_last()),
            health: self.health,
        }
    }

    /// The snake on the bit-board, if it is valid.
    pub fn to_snake(&self, id: usize) -> (r: Option<Snake>)
        ensures
            r is Some <==> self.valid(),
            r matches Some(s) ==> s@ == self.snake_view(id) && s@.wf(),
    {
        if self.body.len() == 0 || self.health > FULL_HEALTH {
            return None;
        }
        let ghost masks = masks_of(self.body@);
        let mut body: VecDeque<u128> = VecDeque::new();
        let mut seen: u128 = 0;
        let mut full: u128 = 0;
        let mut i: usize = 0;
        while i < self.body.len()
            invariant
                i <= self.body.len(),
                masks == masks_of(self.body@),
                body@ == masks.take(i as int),
                all_on_board(self.body@.take(i as int)),
                all_squares(body@),
                in_runs(body@),
                seen == union_of(body@),
                i > 0 ==> full == union_of(body@.drop_last()),
                i == 0 ==> full == 0,
            decreases self.body.len() - i,
        {
            let c = self.body[i];
            if !c.is_on_board() {
                assert(!all_on_board(self.body@));
                return None;
            }
            let m = c.mask();
            assert(m == masks[i as int]);
            let ghost before = body@;
            if i > 0 && body[i - 1] != m && m & seen != 0 {
                proof {
                    if forall|j: int| 0 <= j < before.len() ==> before[j] != m {
                        lemma_union_misses(before, m);
                    }
                    let j = choose|j: int| 0 <= j < before.len() && before[j] == m;
                    assert(masks[j] == masks[i as int]);
                    assert(masks[i - 1] != masks[i as int]);
                    assert(!in_runs(masks));
                }
                return None;
            }
            proof {
                if i > 0 && before[i - 1] != m {
                    lemma_union_excludes(before, m);
                }
            }
            full = seen;
            seen = seen | m;
            body.push_back(m);
            proof {
                let now = body@;
                assert(now =~= masks.take(i + 1));
                assert(now.drop_last() =~= before);
                assert(self.body@.take(i + 1).drop_last() =~= self.body@.take(i as int));
                assert forall|k: int| 0 <= k < i + 1 implies (#[trigger] self.body@.take(
                    i + 1,
                )[k]).on_board() by {
                    if k < i {
                        assert(self.body@.take(i as int)[k].on_board());
                    }
                }
                assert forall|a: int, b: int|
                    #![trigger now[a], now[b]]
                    0 <= a < b < now.len() && now[a] == now[b] implies now[b - 1] == now[b] by {
                    if b < i {
                        assert(before[a] == before[b]);
                    } else if i > 0 && before[i - 1] != m {
                        assert(before[a] != m);
                    }
                }
            }
            i += 1;
        }
        proof {
            assert(body@ =~= masks);
            assert(self.body@.take(self.body@.len() as int) =~= self.body@);
        }
        Some(Snake { id, alive: true, body, full, health: self.health })
    }
}

/// The union of the masks of the squares of `food`, if all lie on the board.
pub fn food_mask(food: &Vec<Coordinate>) -> (r: Option<u128>)
    ensures
        r is Some <==> all_on_board(food@),
        r matches Some(m) ==> m == union_of(masks_of(food@)) && crate::bitboard::on_board(m),
{
    let ghost masks = masks_of(food@);
    let mut out: u128 = 0;
    let mut i: usize = 0;
    while i < food.len()
        invariant
            i <= food.len(),
            masks == masks_of(food@),
            all_on_board(food@.take(i as int)),
            all_squares(masks.take(i as int)),
            out == union_of(masks.take(i as int)),
        decreases food.len() - i,
    {
        let c = food[i];
        if !c.is_on_board() {
            return None;
        }
        let m = c.mask();
        out = out | m;
        proof {
            assert(m == masks[i as int]);
            assert(masks.take(i + 1).drop_last() =~= masks.take(i as int));
            assert forall|k: int| 0 <= k < i + 1 implies (#[trigger] food@.take(i + 1)[k]).on_board(
            ) by {
                if k < i {
                    assert(food@.take(i as int)[k].on_board());
                }
            }
            assert forall|k: int| 0 <= k < i + 1 implies crate::bitboard::is_square(
                #[trigger] masks.take(i + 1)[k],
            ) by {
                if k < i {
                    assert(crate::bitboard::is_square(masks.take(i as int)[k]));
                }
            }
        }
        i += 1;
    }
    proof {
        assert(masks.take(food@.len() as int) =~= masks);
        assert(food@.take(food@.len() as int) =~= food@);
        lemma_union_on_board(masks);
    }
    Some(out)
}

impl Request {
    /// The request describes a duel on the 11×11 board: two valid snakes,
    /// food on the board, and `you` named like one of the two.
    pub open spec fn valid(&self) -> bool {
        &&& self.board.width == 11
        &&& self.board.height == 11
        &&& self.board.snakes@.len() == 2
        &&& self.board.snakes@[0].valid()
        &&& self.board.snakes@[1].valid()
        &&& all_on_board(self.board.food@)
        &&& (self.board.snakes@[0].id@ == self.you.id@ || self.board.snakes@[1].id@ == self.you.id@)
    }

    /// The position that the request describes: both snakes alive, each at
    /// its place in the request, `you` the first snake with your name, and
    /// you to move.
    pub open spec fn game_view(&self) -> GameView {
        GameView {
            board: BoardView {
                width: self.board.width,
                height: self.board.height,
                snakes: seq![
                    self.board.snakes@[0].snake_view(0),
                    self.board.snakes@[1].snake_view(1),
                ],
                food: union_of(masks_of(self.board.food@)),
            },
            you_id: if self.board.snakes@[0].id@ == self.you.id@ {
                0
            } else {
                1
            },
            turn: self.turn,
            side: Side::You,
        }
    }

    /// The position on the bit-board, if the request is valid.
    pub fn try_into_usable(&self) -> (r: Option<Game>)
        ensures
            r is Some <==> self.valid(),
            r matches Some(g) ==> g@ == self.game_view() && g@.wf(),
    {
        if self.board.width != 11 || self.board.height != 11 || self.board.snakes.len() != 2 {
            return None;
        }
        let first = match self.board.snakes[0].to_snake(0) {
            Some(s) => s,
            None => {
                return None;
            },
        };
        let second = match self.board.snakes[1].to_snake(1) {
            Some(s) => s,
            None => {
                return None;
            },
        };
        let food = match food_mask(&self.board.food) {
            Some(m) => m,
            None => {
                return None;
            },
        };
        let you_id: usize = if self.board.snakes[0].id == self.you.id {
            0
        } else if self.board.snakes[1].id == self.you.id {
            1
        } else {
            return None;
        };
        let mut snakes: Vec<Snake> = Vec::new();
        snakes.push(first);
        snakes.push(second);
        let game = Game {
            board: Board { width: self.board.width, height: self.board.height, snakes, food },
            you_id,
            turn: self.turn,
            side: Side::You,
        };
        assert(game@.board.snakes =~= self.game_view().board.snakes);
        Some(game)
    }

    /// The position on the bit-board.
    pub fn into_usable(&self) -> (g: Game)
        requires
            self.valid(),
        ensures
            g@ == self.game_view(),
            g@.wf(),
    {
        self.try_into_usable().unwrap()
    }
}

} // verus!
