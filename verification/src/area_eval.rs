//! The features by which the area evaluator rates a position: how the two
//! snakes compare in length, in distance to the centre and in health, and
//! who is nearer to each food square and to each free square.

use pathfinding::prelude::astar;
use vstd::prelude::*;

use crate::bitboard::{is_square, square_at};
use crate::board::{Board, BoardView, Game, GameView};
use crate::eval::{covered, manhattan, manhattan_distance, successors};
use crate::Coordinate;

verus! {

/// What the area evaluator reads off a position, each as yours less the
/// opponent's.
#[derive(Clone, Copy, Debug, PartialEq, Eq, Structural)]
pub struct Features {
    pub length_difference: i32,
    pub distance_to_center: i32,
    pub health_diff: i32,
    pub food_ownership_difference: i32,
    pub square_ownership_difference: i32,
}

/// Length that stands for "no path".
pub const NO_PATH: usize = 1000;

/// The path that `pathfinding::prelude::astar` finds from `start` to `goal`
/// over the steps of `successors`, guided by `manhattan`; `None` where it
/// finds none.
pub uninterp spec fn astar_path(start: Coordinate, board: BoardView, goal: Coordinate) -> Option<
    Seq<Coordinate>,
>;

/// Whether the two squares are the same.
pub fn same_square(a: &Coordinate, b: &Coordinate) -> (r: bool)
    ensures
        r == (*a == *b),
{
    a.x == b.x && a.y == b.y
}

/// `pathfinding::prelude::astar` from `start` to `goal`, with the steps of
/// `successors` and the estimate `manhattan`. The contract names what it
/// returns and says no more of it: the search is a function of the start,
/// the board and the goal.
#[verifier::external_body]
fn shortest_path(start: &Coordinate, board: &Board, goal: &Coordinate) -> (path: Option<
    Vec<Coordinate>,
>)
    requires
        board@.wf(),
        start.on_board(),
    ensures
        paths(path) == astar_path(*start, board@, *goal),
{
    astar(start, |p| successors(p, board), |p| manhattan(p, goal), |p| same_square(p, goal)).map(
        |found| found.0,
    )
}

/// What an optional path holds.
pub open spec fn paths(p: Option<Vec<Coordinate>>) -> Option<Seq<Coordinate>> {
    match p {
        Some(v) => Some(v@),
        None => None,
    }
}

/// The length of a path, and `NO_PATH` where there is none.
pub open spec fn path_length(p: Option<Seq<Coordinate>>) -> int {
    match p {
        Some(s) => s.len() as int,
        None => NO_PATH as int,
    }
}

/// You are nearer than the opponent: your path is the shorter one.
pub open spec fn is_nearer(mine: Option<Seq<Coordinate>>, theirs: Option<Seq<Coordinate>>) -> bool {
    path_length(mine) < path_length(theirs)
}

/// Square number `t` in the order in which the squares are swept: column by
/// column, each from the bottom up.
pub open spec fn target(t: int) -> Coordinate {
    Coordinate { x: (t / 11) as i8, y: (t % 11) as i8 }
}

/// The number of a square in the order of the sweep.
pub open spec fn slot(c: Coordinate) -> int {
    c.x * 11 + c.y
}

/// The square that the mask `m` holds.
pub open spec fn square_of(m: u128) -> Coordinate {
    choose|c: Coordinate| c.on_board() && square_at(c.index()) == m
}

/// Among the first `n` squares of the sweep: the food that you are nearer to,
/// less the food that you are not.
pub open spec fn food_balance(b: BoardView, me: Coordinate, other: Coordinate, n: nat) -> int
    decreases n,
{
    if n == 0 {
        0
    } else {
        let c = target(n - 1);
        let rest = food_balance(b, me, other, (n - 1) as nat);
        if square_at(c.index()) & b.food == 0 {
            rest
        } else if is_nearer(astar_path(me, b, c), astar_path(other, b, c)) {
            rest + 1
        } else {
            rest - 1
        }
    }
}

/// `i` is the first place of `c` in `s`.
pub open spec fn is_first_at(s: Seq<Coordinate>, c: Coordinate, i: int) -> bool {
    &&& 0 <= i < s.len()
    &&& s[i] == c
    &&& forall|j: int| 0 <= j < i ==> s[j] != c
}

/// The first place of `c` in `s`.
pub open spec fn first_index(s: Seq<Coordinate>, c: Coordinate) -> int {
    choose|i: int| is_first_at(s, c, i)
}

/// The square at place `idx` of `path` goes to the walker of `path`: the
/// other path does not pass it, or has further to go from it.
pub open spec fn closer_at(path: Seq<Coordinate>, other: Seq<Coordinate>, idx: int) -> bool {
    let c = path[idx];
    !other.contains(c) || other.len() - first_index(other, c) > path.len() - idx
}

/// `marks` after the first `n` squares of `path` were given to `owner` where
/// they go to the walker of `path`.
pub open spec fn mark_along(
    marks: Seq<Option<bool>>,
    path: Seq<Coordinate>,
    other: Seq<Coordinate>,
    owner: bool,
    n: nat,
) -> Seq<Option<bool>>
    decreases n,
{
    if n == 0 {
        marks
    } else {
        let m = mark_along(marks, path, other, owner, (n - 1) as nat);
        let c = path[n - 1];
        if c.on_board() && closer_at(path, other, n - 1) {
            m.update(slot(c), Some(owner))
        } else {
            m
        }
    }
}

/// `marks` after one more square `c` was swept: nothing changes where the
/// square is marked or covered or one of the snakes has no path to it; else
/// the squares of your path that go to you are marked yours, and then those
/// of the opponent's path that go to the opponent are marked the opponent's.
pub open spec fn swept(
    marks: Seq<Option<bool>>,
    b: BoardView,
    c: Coordinate,
    mine: Option<Seq<Coordinate>>,
    theirs: Option<Seq<Coordinate>>,
) -> Seq<Option<bool>> {
    if marks[slot(c)] is Some || square_at(c.index()) & covered(b) != 0 {
        marks
    } else {
        match (mine, theirs) {
            (Some(p), Some(q)) => mark_along(
                mark_along(marks, p, q, true, p.len()),
                q,
                p,
                false,
                q.len(),
            ),
            _ => marks,
        }
    }
}

/// The marks after the first `k` squares were swept.
pub open spec fn marks_after(b: BoardView, me: Coordinate, other: Coordinate, k: nat) -> Seq<
    Option<bool>,
>
    decreases k,
{
    if k == 0 {
        Seq::new(121, |i: int| None::<bool>)
    } else {
        let c = target(k - 1);
        swept(
            marks_after(b, me, other, (k - 1) as nat),
            b,
            c,
            astar_path(me, b, c),
            astar_path(other, b, c),
        )
    }
}

/// Among the first `n` marks: those of yours less those of the opponent's.
pub open spec fn mark_balance(marks: Seq<Option<bool>>, n: nat) -> int
    decreases n,
{
    if n == 0 {
        0
    } else {
        let rest = mark_balance(marks, (n - 1) as nat);
        match marks[n - 1] {
            Some(true) => rest + 1,
            Some(false) => rest - 1,
            None => rest,
        }
    }
}

/// `d` cut to the range of `i32`.
pub open spec fn cut(d: int) -> int {
    if d > i32::MAX {
        i32::MAX as int
    } else if d < i32::MIN {
        i32::MIN as int
    } else {
        d
    }
}

/// The features of a position.
pub open spec fn features_of(g: GameView) -> Features {
    let me = g.board.snakes[g.you_id as int];
    let other = g.board.snakes[g.them_id() as int];
    let my_head = square_of(me.head());
    let their_head = square_of(other.head());
    let center = Coordinate { x: 6, y: 6 };
    Features {
        length_difference: cut(me.body.len() - other.body.len()) as i32,
        distance_to_center: (manhattan_distance(my_head, center) - manhattan_distance(
            their_head,
            center,
        )) as i32,
        health_diff: (me.health - other.health) as i32,
        food_ownership_difference: food_balance(g.board, my_head, their_head, 121) as i32,
        square_ownership_difference: mark_balance(
            marks_after(g.board, my_head, their_head, 121),
            121,
        ) as i32,
    }
}

/// A square has one first place in a path.
pub proof fn lemma_first_index(s: Seq<Coordinate>, c: Coordinate, i: int)
    requires
        is_first_at(s, c, i),
    ensures
        first_index(s, c) == i,
{
    let j = first_index(s, c);
    assert(is_first_at(s, c, j));
    if i < j {
        assert(s[i] != c);
    }
    if j < i {
        assert(s[j] != c);
    }
}

/// A mask of one square holds the square whose mask it is.
pub proof fn lemma_square_of(c: Coordinate)
    requires
        c.on_board(),
    ensures
        square_of(square_at(c.index())) == c,
{
    let m = square_at(c.index());
    let d = square_of(m);
    assert(d.on_board() && square_at(d.index()) == m);
    let i = c.index();
    let j = d.index();
    assert(i == j) by (bit_vector)
        requires
            i < 121,
            j < 121,
            1u128 << i == 1u128 << j,
    ;
}

/// The square that the mask `m` of one square holds.
pub fn coordinate_of(m: u128) -> (c: Coordinate)
    requires
        is_square(m),
    ensures
        c == square_of(m),
        c.on_board(),
        square_at(c.index()) == m,
{
    let mut i: u32 = 0;
    assert(m >> 0u32 != 0) by (bit_vector)
        requires
            m != 0,
    ;
    loop
        invariant_except_break
            (m >> i) != 0,
        invariant
            is_square(m),
            i < 121,
        ensures
            m == 1u128 << i,
        decreases 121 - i,
    {
        if (m >> i) & 1 == 1 {
            assert(m == 1u128 << i) by (bit_vector)
                requires
                    is_square(m),
                    (m >> i) & 1 == 1,
                    i < 121,
            ;
            break ;
        }
        assert((m >> ((i + 1) as u32)) != 0 && i + 1 < 121) by (bit_vector)
            requires
                (m >> i) != 0,
                (m >> i) & 1 != 1,
                is_square(m),
                i < 121,
        ;
        i += 1;
    }
    let c = Coordinate { x: (i % 11) as i8, y: (i / 11) as i8 };
    proof {
        assert(c.index() == i);
        lemma_square_of(c);
    }
    c
}

/// The first place of `c` in `path`, if it has one.
pub fn position_in(path: &Vec<Coordinate>, c: &Coordinate) -> (r: Option<usize>)
    ensures
        match r {
            Some(i) => is_first_at(path@, *c, i as int),
            None => !path@.contains(*c),
        },
{
    let mut i: usize = 0;
    while i < path.len()
        invariant
            i <= path.len(),
            forall|j: int| 0 <= j < i ==> path@[j] != *c,
        decreases path.len() - i,
    {
        if same_square(&path[i], c) {
            return Some(i);
        }
        i += 1;
    }
    None
}

/// Whether your path is shorter than the opponent's, where no path counts
/// as one of length `NO_PATH`.
pub fn nearer(mine: &Option<Vec<Coordinate>>, theirs: &Option<Vec<Coordinate>>) -> (r: bool)
    ensures
        r == is_nearer(paths(*mine), paths(*theirs)),
{
    let my_dist = match mine {
        None => NO_PATH,
        Some(path) => path.len(),
    };
    let their_dist = match theirs {
        None => NO_PATH,
        Some(path) => path.len(),
    };
    my_dist < their_dist
}

/// Gives to `owner` each square of `path` that goes to its walker: that
/// `other` does not pass, or has further to go from.
pub fn mark_owned(
    marks: &mut Vec<Option<bool>>,
    path: &Vec<Coordinate>,
    other: &Vec<Coordinate>,
    owner: bool,
)
    requires
        old(marks)@.len() == 121,
    ensures
        final(marks)@ == mark_along(old(marks)@, path@, other@, owner, path@.len()),
        final(marks)@.len() == 121,
{
    let mut idx: usize = 0;
    while idx < path.len()
        invariant
            idx <= path.len(),
            marks@.len() == 121,
            marks@ == mark_along(old(marks)@, path@, other@, owner, idx as nat),
        decreases path.len() - idx,
    {
        let coord = path[idx];
        let closer = match position_in(other, &coord) {
            None => true,
            Some(at) => {
                proof {
                    lemma_first_index(other@, coord, at as int);
                }
                other.len() - at > path.len() - idx
            },
        };
        if coord.is_on_board() && closer {
            let place = (coord.x as usize) * 11 + (coord.y as usize);
            marks[place] = Some(owner);
        }
        idx += 1;
    }
}

/// Sweeps one more square `c`, to which `mine` and `theirs` are the paths of
/// the two snakes.
pub fn sweep(
    marks: &mut Vec<Option<bool>>,
    board: &Board,
    c: &Coordinate,
    mine: &Option<Vec<Coordinate>>,
    theirs: &Option<Vec<Coordinate>>,
)
    requires
        old(marks)@.len() == 121,
        board@.wf(),
        c.on_board(),
    ensures
        final(marks)@ == swept(old(marks)@, board@, *c, paths(*mine), paths(*theirs)),
        final(marks)@.len() == 121,
{
    let place = (c.x as usize) * 11 + (c.y as usize);
    if marks[place].is_some() || c.mask() & board.covered() != 0 {
        return ;
    }
    match (mine, theirs) {
        (Some(path), Some(path2)) => {
            mark_owned(marks, path, path2, true);
            mark_owned(marks, path2, path, false);
        },
        _ => {},
    }
}

/// The marks of yours less those of the opponent's.
pub fn count_marks(marks: &Vec<Option<bool>>) -> (d: i32)
    requires
        marks@.len() == 121,
    ensures
        d == mark_balance(marks@, 121),
{
    let mut d: i32 = 0;
    let mut i: usize = 0;
    while i < 121
        invariant
            i <= 121,
            marks@.len() == 121,
            d == mark_balance(marks@, i as nat),
            -(i as int) <= d <= i,
        decreases 121 - i,
    {
        match marks[i] {
            Some(true) => {
                d += 1;
            },
            Some(false) => {
                d -= 1;
            },
            None => {},
        }
        i += 1;
    }
    d
}

/// The features of a position.
pub fn label(position: &Game) -> (f: Features)
    requires
        position@.wf(),
    ensures
        f == features_of(position@),
{
    let ghost g = position@;
    let me = &position.board.snakes[position.you_id];
    let other = &position.board.snakes[1 - position.you_id];
    proof {
        assert(g.board.snakes[g.you_id as int] == me@);
        assert(g.board.snakes[g.them_id() as int] == other@);
    }
    let my_len = me.length();
    let their_len = other.length();
    let length_difference: i32 = if my_len >= their_len {
        if my_len - their_len > i32::MAX as usize {
            i32::MAX
        } else {
            (my_len - their_len) as i32
        }
    } else {
        if their_len - my_len > i32::MAX as usize {
            i32::MIN
        } else {
            -((their_len - my_len) as i32)
        }
    };
    let my_head = coordinate_of(me.head());
    let their_head = coordinate_of(other.head());
    let center = Coordinate::new(6, 6);
    let distance_to_center = manhattan(&my_head, &center) - manhattan(&their_head, &center);
    let health_diff = me.health as i32 - other.health as i32;
    let mut food_ownership_difference: i32 = 0;
    let mut marks: Vec<Option<bool>> = Vec::new();
    let mut t: usize = 0;
    while t < 121
        invariant
            t <= 121,
            marks@.len() == t,
            forall|i: int| 0 <= i < t ==> marks@[i] is None,
        decreases 121 - t,
    {
        marks.push(None);
        t += 1;
    }
    assert(marks@ =~= marks_after(g.board, my_head, their_head, 0));
    let mut t: usize = 0;
    while t < 121
        invariant
            t <= 121,
            position@ == g,
            g.wf(),
            my_head.on_board(),
            their_head.on_board(),
            marks@.len() == 121,
            marks@ == marks_after(g.board, my_head, their_head, t as nat),
            food_ownership_difference == food_balance(g.board, my_head, their_head, t as nat),
            -(t as int) <= food_ownership_difference <= t,
        decreases 121 - t,
    {
        let thing = Coordinate { x: (t / 11) as i8, y: (t % 11) as i8 };
        assert(thing == target(t as int));
        let is_food = thing.mask() & position.board.food != 0;
        let is_open = marks[t].is_none() && thing.mask() & position.board.covered() == 0;
        if is_food || is_open {
            let my_path = shortest_path(&my_head, &position.board, &thing);
            let their_path = shortest_path(&their_head, &position.board, &thing);
            if is_food {
                if nearer(&my_path, &their_path) {
                    food_ownership_difference += 1;
                } else {
                    food_ownership_difference -= 1;
                }
            }
            sweep(&mut marks, &position.board, &thing, &my_path, &their_path);
        }
        t += 1;
    }
    let square_ownership_difference = count_marks(&marks);
    Features {
        length_difference,
        distance_to_center,
        health_diff,
        food_ownership_difference,
        square_ownership_difference,
    }
}

} // verus!
