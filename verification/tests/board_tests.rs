use snake_engine::bitboard::{
    square_mask, step_down, step_left, step_right, step_up, LEFT_COLUMN, RIGHT_COLUMN, UNIVERSE,
};
use snake_engine::board::{Game, Side, Snake};
use snake_engine::incoming_board::{food_mask, IBattlesnake, IBoard, Request};
use snake_engine::movegen::{Direction, Move, MoveType};
use snake_engine::Coordinate;

fn bit(x: u32, y: u32) -> u128 {
    1u128 << (x + 11 * y)
}

fn coords(squares: &[(i8, i8)]) -> Vec<Coordinate> {
    squares.iter().map(|&(x, y)| Coordinate::new(x, y)).collect()
}

fn snake(id: &str, health: u8, body: &[(i8, i8)]) -> IBattlesnake {
    IBattlesnake { id: id.to_string(), health, body: coords(body) }
}

fn request(you: &[(i8, i8)], them: &[(i8, i8)], food: &[(i8, i8)]) -> Request {
    Request {
        board: IBoard {
            width: 11,
            height: 11,
            food: coords(food),
            snakes: vec![snake("you", 100, you), snake("them", 100, them)],
        },
        you: snake("you", 100, you),
        turn: 7,
    }
}

fn game(you: &[(i8, i8)], them: &[(i8, i8)], food: &[(i8, i8)]) -> Game {
    request(you, them, food).try_into_usable().unwrap()
}

fn squares_of(moves: &[Move]) -> Vec<u128> {
    moves
        .iter()
        .map(|m| match m.move_type {
            MoveType::MoveSquare(s) => s,
            MoveType::Death => 0,
        })
        .collect()
}

#[test]
fn square_mask_is_bit_x_plus_eleven_y() {
    assert_eq!(square_mask(0, 0), 1);
    assert_eq!(square_mask(10, 0), 1u128 << 10);
    assert_eq!(square_mask(0, 1), 1u128 << 11);
    assert_eq!(square_mask(3, 4), 1u128 << 47);
    assert_eq!(square_mask(10, 10), 1u128 << 120);
}

#[test]
fn universe_and_columns_cover_the_board() {
    let mut all: u128 = 0;
    let mut left: u128 = 0;
    let mut right: u128 = 0;
    for y in 0..11 {
        left |= bit(0, y);
        right |= bit(10, y);
        for x in 0..11 {
            all |= bit(x, y);
        }
    }
    assert_eq!(UNIVERSE, all);
    assert_eq!(LEFT_COLUMN, left);
    assert_eq!(RIGHT_COLUMN, right);
}

#[test]
fn steps_move_one_square() {
    assert_eq!(step_down(bit(3, 3)), bit(3, 2));
    assert_eq!(step_left(bit(3, 3)), bit(2, 3));
    assert_eq!(step_right(bit(3, 3)), bit(4, 3));
    assert_eq!(step_up(bit(3, 3)), bit(3, 4));
}

#[test]
fn steps_do_not_wrap_round_the_edges() {
    assert_eq!(step_left(bit(0, 3)), 0);
    assert_eq!(step_right(bit(10, 3)), 0);
    assert_eq!(step_down(bit(4, 0)), 0);
    assert_eq!(step_up(bit(4, 10)), 0);
    assert_eq!(step_right(bit(10, 10)), 0);
    assert_eq!(step_up(bit(10, 10)), 0);
    assert_eq!(step_left(bit(0, 0)), 0);
    assert_eq!(step_down(bit(0, 0)), 0);
}

#[test]
fn coordinate_add_sums_columns_and_rows() {
    let c = Coordinate::new(3, -2).add(Coordinate::new(-1, 7));
    assert_eq!(c, Coordinate::new(2, 5));
    assert_eq!(Coordinate::new(4, 9).mask(), bit(4, 9));
    assert!(Coordinate::new(10, 10).is_on_board());
    assert!(!Coordinate::new(11, 0).is_on_board());
    assert!(!Coordinate::new(0, -1).is_on_board());
}

#[test]
fn square_moves_lists_up_down_right_left() {
    let out = Snake::square_moves(Coordinate::new(5, 5));
    assert_eq!(
        out,
        vec![
            Coordinate::new(5, 6),
            Coordinate::new(5, 4),
            Coordinate::new(6, 5),
            Coordinate::new(4, 5),
        ]
    );
}

#[test]
fn into_usable_builds_the_bit_board() {
    let r = request(&[(1, 1), (1, 2), (1, 3)], &[(8, 8), (8, 8), (8, 8)], &[(5, 5), (0, 10)]);
    let g = r.into_usable();
    assert_eq!(g.board.width, 11);
    assert_eq!(g.board.height, 11);
    assert_eq!(g.you_id, 0);
    assert_eq!(g.turn, 7);
    assert_eq!(g.side, Side::You);
    assert_eq!(g.board.food, bit(5, 5) | bit(0, 10));
    assert_eq!(g.board.snakes.len(), 2);
    let you = &g.board.snakes[0];
    assert_eq!(you.id, 0);
    assert!(you.alive);
    assert_eq!(you.health, 100);
    assert_eq!(you.body.iter().copied().collect::<Vec<u128>>(), vec![bit(1, 1), bit(1, 2), bit(1, 3)]);
    assert_eq!(you.full, bit(1, 1) | bit(1, 2));
    let them = &g.board.snakes[1];
    assert_eq!(them.id, 1);
    assert_eq!(them.body.len(), 3);
    assert_eq!(them.full, bit(8, 8));
    assert_eq!(them.head(), bit(8, 8));
    assert_eq!(them.tail(), bit(8, 8));
    assert_eq!(them.length(), 3);
}

#[test]
fn into_usable_finds_you_among_the_snakes() {
    let mut r = request(&[(1, 1)], &[(8, 8)], &[]);
    r.you = snake("them", 100, &[(8, 8)]);
    let g = r.try_into_usable().unwrap();
    assert_eq!(g.you_id, 1);
    assert_eq!(g.them_id(), 0);
    assert_eq!(g.id_of(Side::You), 1);
    assert_eq!(g.id_of(Side::Them), 0);
}

#[test]
fn try_into_usable_rejects_what_is_no_duel_on_the_board() {
    let good = request(&[(1, 1), (1, 2)], &[(8, 8)], &[(3, 3)]);
    assert!(good.try_into_usable().is_some());

    let mut r = good.clone();
    r.board.width = 10;
    assert!(r.try_into_usable().is_none());

    let mut r = good.clone();
    r.board.height = 12;
    assert!(r.try_into_usable().is_none());

    let mut r = good.clone();
    r.board.snakes.pop();
    assert!(r.try_into_usable().is_none());

    let mut r = good.clone();
    r.board.snakes.push(snake("third", 100, &[(4, 4)]));
    assert!(r.try_into_usable().is_none());

    let mut r = good.clone();
    r.board.snakes[1].body.clear();
    assert!(r.try_into_usable().is_none());

    let mut r = good.clone();
    r.board.snakes[0].body.push(Coordinate::new(11, 2));
    assert!(r.try_into_usable().is_none());

    let mut r = good.clone();
    r.board.snakes[0].body.push(Coordinate::new(1, -1));
    assert!(r.try_into_usable().is_none());

    let mut r = good.clone();
    r.board.food.push(Coordinate::new(0, 11));
    assert!(r.try_into_usable().is_none());

    let mut r = good.clone();
    r.board.snakes[1].health = 101;
    assert!(r.try_into_usable().is_none());

    let mut r = good.clone();
    r.you.id = "nobody".to_string();
    assert!(r.try_into_usable().is_none());

    let mut r = good.clone();
    r.board.snakes[0].body = coords(&[(1, 1), (1, 2), (1, 1)]);
    assert!(r.try_into_usable().is_none());

    let mut r = good.clone();
    r.board.snakes[0].body = coords(&[(1, 1), (1, 2), (1, 2), (1, 2)]);
    assert!(r.try_into_usable().is_some());
}

#[test]
fn food_mask_is_the_union_of_the_squares() {
    assert_eq!(food_mask(&coords(&[])), Some(0));
    assert_eq!(food_mask(&coords(&[(0, 0), (10, 10), (0, 0)])), Some(bit(0, 0) | bit(10, 10)));
    assert_eq!(food_mask(&coords(&[(0, 0), (-1, 3)])), None);
}

#[test]
fn a_lone_head_has_four_moves_in_ascending_order() {
    let g = game(&[(5, 5)], &[(9, 9)], &[]);
    let moves = g.legal_moves(Side::You);
    assert_eq!(squares_of(&moves), vec![bit(5, 4), bit(4, 5), bit(6, 5), bit(5, 6)]);
    assert!(moves.iter().all(|m| m.id == 0));
    assert_eq!(g.board.snakes[0].moves(), bit(5, 4) | bit(4, 5) | bit(6, 5) | bit(5, 6));
}

#[test]
fn the_neck_is_blocked() {
    let g = game(&[(5, 5), (5, 4), (5, 3)], &[(9, 9)], &[]);
    let moves = g.legal_moves(Side::You);
    assert_eq!(squares_of(&moves), vec![bit(4, 5), bit(6, 5), bit(5, 6)]);
}

#[test]
fn a_corner_leaves_the_moves_on_the_board() {
    let g = game(&[(0, 0)], &[(10, 10)], &[]);
    assert_eq!(squares_of(&g.legal_moves(Side::You)), vec![bit(1, 0), bit(0, 1)]);
    assert_eq!(squares_of(&g.legal_moves(Side::Them)), vec![bit(10, 9), bit(9, 10)]);
    assert!(g.legal_moves(Side::Them).iter().all(|m| m.id == 1));
}

#[test]
fn the_own_tail_is_free_and_the_others_is_not() {
    let alone = game(&[(1, 0), (0, 0), (0, 1), (1, 1)], &[(9, 9)], &[]);
    assert_eq!(squares_of(&alone.legal_moves(Side::You)), vec![bit(2, 0), bit(1, 1)]);

    let crowded = game(&[(1, 0), (0, 0), (0, 1), (1, 1)], &[(4, 0), (3, 0), (2, 0)], &[]);
    assert_eq!(squares_of(&crowded.legal_moves(Side::You)), vec![bit(1, 1)]);
    assert_eq!(crowded.blocked(0), bit(1, 0) | bit(0, 0) | bit(0, 1) | bit(4, 0) | bit(3, 0) | bit(2, 0));
}

#[test]
fn a_tail_that_stays_is_blocked() {
    let g = game(&[(1, 0), (0, 0), (0, 1), (1, 1), (1, 1)], &[(9, 9)], &[]);
    assert_eq!(squares_of(&g.legal_moves(Side::You)), vec![bit(2, 0)]);
}

#[test]
fn no_open_neighbour_gives_the_one_move_death() {
    let g = game(&[(0, 0), (1, 0), (1, 1), (0, 1), (0, 1)], &[(9, 9)], &[]);
    let moves = g.legal_moves(Side::You);
    assert_eq!(moves, vec![Move::new_death(0)]);
    assert_eq!(moves[0].move_type, MoveType::Death);
}

#[test]
fn a_dead_snake_blocks_nothing() {
    let mut g = game(&[(1, 0)], &[(2, 0), (2, 1)], &[]);
    assert_eq!(squares_of(&g.legal_moves(Side::You)), vec![bit(0, 0), bit(1, 1)]);
    g.board.snakes[1].alive = false;
    assert_eq!(squares_of(&g.legal_moves(Side::You)), vec![bit(0, 0), bit(2, 0), bit(1, 1)]);
    assert_eq!(g.alive_count(), 1);
    assert!(g.is_terminal());
}

#[test]
fn current_side_moves_follow_the_side_to_move() {
    let mut g = game(&[(5, 5)], &[(0, 0)], &[]);
    assert_eq!(g.get_current_side_moves(), g.legal_moves(Side::You));
    g.side = Side::Them;
    let moves = g.get_current_side_moves();
    assert_eq!(squares_of(&moves), vec![bit(1, 0), bit(0, 1)]);
    assert!(moves.iter().all(|m| m.id == 1));
}

#[test]
fn never_more_than_four_moves_and_never_none() {
    for y in 0..11i8 {
        for x in 0..11i8 {
            if (x, y) == (5, 5) || (x, y) == (5, 6) {
                continue;
            }
            let g = game(&[(x, y)], &[(5, 5), (5, 6)], &[]);
            let moves = g.legal_moves(Side::You);
            assert!(!moves.is_empty() && moves.len() <= 4);
            let squares = squares_of(&moves);
            assert!(squares.windows(2).all(|w| w[0] < w[1]));
            assert!(squares.iter().all(|s| s.count_ones() == 1 && s & !UNIVERSE == 0));
        }
    }
}

#[test]
fn direction_reads_the_step_from_the_head() {
    let head = bit(5, 5);
    assert_eq!(Move::new_square(bit(6, 5), 0).direction(head), Some(Direction::Right));
    assert_eq!(Move::new_square(bit(4, 5), 0).direction(head), Some(Direction::Left));
    assert_eq!(Move::new_square(bit(5, 6), 0).direction(head), Some(Direction::Up));
    assert_eq!(Move::new_square(bit(5, 4), 0).direction(head), Some(Direction::Down));
    assert_eq!(Move::new_death(0).direction(head), None);
    assert_eq!(Move::new_square(bit(7, 5), 0).direction(head), None);
    assert_eq!(Move::new_square(bit(0, 4), 0).direction(bit(10, 3)), None);
}

#[test]
fn equality_and_hash_leave_the_turn_out() {
    let a = game(&[(1, 1), (1, 2)], &[(8, 8)], &[(4, 4)]);
    let mut b = a.clone();
    b.turn = 99;
    assert_eq!(a, b);
    assert_eq!(a.hash(), b.hash());

    let mut c = a.clone();
    c.board.snakes[0].health = 50;
    assert_ne!(a, c);
    assert_ne!(a.hash(), c.hash());

    let mut d = a.clone();
    d.board.food = 0;
    assert_ne!(a, d);
    assert_ne!(a.hash(), d.hash());

    let mut e = a.clone();
    e.board.snakes[1].alive = false;
    assert_ne!(a, e);
    assert_ne!(a.hash(), e.hash());

    let f = game(&[(1, 2), (1, 1)], &[(8, 8)], &[(4, 4)]);
    assert_ne!(a, f);
}

#[test]
fn grow_adds_a_segment_on_the_tail() {
    let mut g = game(&[(2, 3), (2, 4)], &[(9, 9)], &[]);
    let s = &mut g.board.snakes[0];
    assert_eq!(s.full, bit(2, 3));
    s.grow();
    assert_eq!(s.length(), 3);
    assert_eq!(s.full, bit(2, 3) | bit(2, 4));
    assert_eq!(s.body.iter().copied().collect::<Vec<u128>>(), vec![bit(2, 3), bit(2, 4), bit(2, 4)]);
    assert_eq!(s.head(), bit(2, 3));
    assert_eq!(s.tail(), bit(2, 4));
    assert!(g.is_well_formed());
}

#[test]
fn hash_stirs_in_the_food_and_both_snakes() {
    fn mix(h: u64, x: u128) -> u64 {
        (h.rotate_left(13) ^ (x as u64)) ^ ((x >> 64) as u64).rotate_left(29)
    }
    let g = game(&[(1, 1), (1, 2), (1, 3)], &[(9, 10), (10, 10)], &[(4, 4), (10, 9)]);
    let mut h = mix(0xcbf2_9ce4_8422_2325, bit(4, 4) | bit(10, 9));
    h = mix(h, bit(1, 1));
    h = mix(h, bit(1, 1) | bit(1, 2));
    h = mix(h, bit(1, 3));
    h = mix(h, 100 | 0x100);
    h = mix(h, bit(9, 10));
    h = mix(h, bit(9, 10));
    h = mix(h, bit(10, 10));
    h = mix(h, 100 | 0x100);
    assert_eq!(g.hash(), h);
    let mut dead = g.clone();
    dead.board.snakes[1].alive = false;
    dead.board.snakes[1].health = 7;
    let mut h = mix(0xcbf2_9ce4_8422_2325, bit(4, 4) | bit(10, 9));
    h = mix(mix(mix(mix(h, bit(1, 1)), bit(1, 1) | bit(1, 2)), bit(1, 3)), 100 | 0x100);
    h = mix(mix(mix(mix(h, bit(9, 10)), bit(9, 10)), bit(10, 10)), 7);
    assert_eq!(dead.hash(), h);
}
