use snake_engine::board::{Game, Side};
use snake_engine::incoming_board::{IBattlesnake, IBoard, Request};
use snake_engine::movegen::{Move, MoveType};
use snake_engine::step::choice_of;
use snake_engine::Coordinate;

fn bit(x: u32, y: u32) -> u128 {
    1u128 << (x + 11 * y)
}

fn coords(squares: &[(i8, i8)]) -> Vec<Coordinate> {
    squares.iter().map(|&(x, y)| Coordinate::new(x, y)).collect()
}

fn duel(you: (u8, &[(i8, i8)]), them: (u8, &[(i8, i8)]), food: &[(i8, i8)]) -> Game {
    let you_snake = IBattlesnake { id: "you".to_string(), health: you.0, body: coords(you.1) };
    let them_snake = IBattlesnake { id: "them".to_string(), health: them.0, body: coords(them.1) };
    let r = Request {
        board: IBoard {
            width: 11,
            height: 11,
            food: coords(food),
            snakes: vec![you_snake.clone(), them_snake],
        },
        you: you_snake,
        turn: 3,
    };
    r.try_into_usable().unwrap()
}

fn body(g: &Game, id: usize) -> Vec<u128> {
    g.board.snakes[id].body.iter().copied().collect()
}

struct Snapshot {
    bodies: Vec<Vec<u128>>,
    fulls: Vec<u128>,
    healths: Vec<u8>,
    alive: Vec<bool>,
    food: u128,
    turn: u32,
    side: Side,
    you_id: usize,
}

fn snapshot(g: &Game) -> Snapshot {
    Snapshot {
        bodies: vec![body(g, 0), body(g, 1)],
        fulls: vec![g.board.snakes[0].full, g.board.snakes[1].full],
        healths: vec![g.board.snakes[0].health, g.board.snakes[1].health],
        alive: vec![g.board.snakes[0].alive, g.board.snakes[1].alive],
        food: g.board.food,
        turn: g.turn,
        side: g.side,
        you_id: g.you_id,
    }
}

fn assert_same(g: &Game, s: &Snapshot) {
    assert_eq!(vec![body(g, 0), body(g, 1)], s.bodies);
    assert_eq!(vec![g.board.snakes[0].full, g.board.snakes[1].full], s.fulls);
    assert_eq!(vec![g.board.snakes[0].health, g.board.snakes[1].health], s.healths);
    assert_eq!(vec![g.board.snakes[0].alive, g.board.snakes[1].alive], s.alive);
    assert_eq!(g.board.food, s.food);
    assert_eq!(g.turn, s.turn);
    assert_eq!(g.side, s.side);
    assert_eq!(g.you_id, s.you_id);
}

fn to(x: u32, y: u32, id: usize) -> Move {
    Move::new_square(bit(x, y), id)
}

#[test]
fn step_moves_the_head_and_drops_the_tail() {
    let mut g = duel((90, &[(5, 5), (5, 4), (5, 3)]), (80, &[(9, 9), (9, 8)]), &[(0, 0)]);
    let before = snapshot(&g);
    let undo = g.step(&vec![to(9, 10, 1), to(5, 6, 0)]);
    assert_eq!(body(&g, 0), vec![bit(5, 6), bit(5, 5), bit(5, 4)]);
    assert_eq!(g.board.snakes[0].full, bit(5, 6) | bit(5, 5));
    assert_eq!(g.board.snakes[0].health, 89);
    assert_eq!(body(&g, 1), vec![bit(9, 10), bit(9, 9)]);
    assert_eq!(g.board.snakes[1].full, bit(9, 10));
    assert_eq!(g.board.snakes[1].health, 79);
    assert!(g.board.snakes[0].alive && g.board.snakes[1].alive);
    assert_eq!(g.board.food, bit(0, 0));
    assert_eq!(g.turn, 4);
    assert_eq!(g.side, Side::You);
    g.undo(&undo);
    assert_same(&g, &before);
}

#[test]
fn a_stacked_tail_leaves_one_segment_behind() {
    let mut g = duel((100, &[(5, 5), (5, 5), (5, 5)]), (100, &[(0, 0)]), &[]);
    let before = snapshot(&g);
    let first = g.step(&vec![to(5, 6, 0), to(1, 0, 1)]);
    assert_eq!(body(&g, 0), vec![bit(5, 6), bit(5, 5), bit(5, 5)]);
    assert_eq!(g.board.snakes[0].full, bit(5, 6) | bit(5, 5));
    assert_eq!(body(&g, 1), vec![bit(1, 0)]);
    assert_eq!(g.board.snakes[1].full, 0);
    let second = g.step(&vec![to(5, 7, 0), to(2, 0, 1)]);
    assert_eq!(body(&g, 0), vec![bit(5, 7), bit(5, 6), bit(5, 5)]);
    assert_eq!(g.board.snakes[0].full, bit(5, 7) | bit(5, 6));
    g.undo(&second);
    g.undo(&first);
    assert_same(&g, &before);
}

#[test]
fn a_meal_grows_the_snake_and_fills_its_health() {
    let mut g = duel((40, &[(5, 5), (5, 4), (5, 3)]), (80, &[(9, 9), (9, 8)]), &[(5, 6), (1, 1)]);
    let before = snapshot(&g);
    let undo = g.step(&vec![to(5, 6, 0), to(9, 10, 1)]);
    assert_eq!(body(&g, 0), vec![bit(5, 6), bit(5, 5), bit(5, 4), bit(5, 4)]);
    assert_eq!(g.board.snakes[0].length(), 4);
    assert_eq!(g.board.snakes[0].health, 100);
    assert_eq!(g.board.snakes[0].full, bit(5, 6) | bit(5, 5) | bit(5, 4));
    assert_eq!(g.board.food, bit(1, 1));
    assert_eq!(g.board.snakes[1].health, 79);
    assert_eq!(g.board.snakes[1].length(), 2);
    g.undo(&undo);
    assert_same(&g, &before);
}

#[test]
fn heads_that_meet_at_equal_length_both_die() {
    let mut g = duel((100, &[(4, 5), (3, 5), (2, 5)]), (100, &[(6, 5), (7, 5), (8, 5)]), &[]);
    let before = snapshot(&g);
    let undo = g.step(&vec![to(5, 5, 0), to(5, 5, 1)]);
    assert!(!g.board.snakes[0].alive);
    assert!(!g.board.snakes[1].alive);
    assert_eq!(g.alive_count(), 0);
    assert!(g.is_terminal());
    assert_eq!(body(&g, 0), vec![bit(5, 5), bit(4, 5), bit(3, 5)]);
    g.undo(&undo);
    assert_same(&g, &before);
    assert!(!g.is_terminal());
}

#[test]
fn heads_that_meet_kill_the_shorter_snake() {
    let mut g =
        duel((100, &[(4, 5), (3, 5), (2, 5), (1, 5)]), (100, &[(6, 5), (7, 5), (8, 5)]), &[]);
    let before = snapshot(&g);
    let undo = g.step(&vec![to(5, 5, 0), to(5, 5, 1)]);
    assert!(g.board.snakes[0].alive);
    assert!(!g.board.snakes[1].alive);
    assert_eq!(g.alive_count(), 1);
    g.undo(&undo);
    assert_same(&g, &before);
}

#[test]
fn a_meal_counts_before_the_heads_are_compared() {
    let mut g = duel((10, &[(4, 5), (3, 5), (2, 5)]), (20, &[(6, 5), (7, 5), (8, 5)]), &[(5, 5)]);
    let before = snapshot(&g);
    let undo = g.step(&vec![to(5, 5, 0), to(5, 5, 1)]);
    assert_eq!(g.board.snakes[0].length(), 4);
    assert_eq!(g.board.snakes[1].length(), 4);
    assert_eq!(g.board.snakes[0].health, 100);
    assert_eq!(g.board.snakes[1].health, 100);
    assert_eq!(g.board.food, 0);
    assert!(!g.board.snakes[0].alive && !g.board.snakes[1].alive);
    g.undo(&undo);
    assert_same(&g, &before);
}

#[test]
fn a_snake_without_health_starves() {
    let mut g = duel((1, &[(5, 5), (5, 4)]), (2, &[(9, 9), (9, 8)]), &[]);
    let before = snapshot(&g);
    let undo = g.step(&vec![to(5, 6, 0), to(9, 10, 1)]);
    assert_eq!(g.board.snakes[0].health, 0);
    assert!(!g.board.snakes[0].alive);
    assert_eq!(g.board.snakes[1].health, 1);
    assert!(g.board.snakes[1].alive);
    g.undo(&undo);
    assert_same(&g, &before);
}

#[test]
fn a_meal_saves_from_starving() {
    let mut g = duel((1, &[(5, 5), (5, 4)]), (50, &[(9, 9), (9, 8)]), &[(5, 6)]);
    let undo = g.step(&vec![to(5, 6, 0), to(9, 10, 1)]);
    assert_eq!(g.board.snakes[0].health, 100);
    assert!(g.board.snakes[0].alive);
    g.undo(&undo);
    assert_eq!(g.board.snakes[0].health, 1);
    assert_eq!(g.board.food, bit(5, 6));
}

#[test]
fn the_move_death_kills_the_mover() {
    let mut g =
        duel((100, &[(0, 0), (1, 0), (1, 1), (0, 1), (0, 1)]), (100, &[(9, 9), (9, 8)]), &[]);
    let before = snapshot(&g);
    assert_eq!(g.legal_moves(Side::You), vec![Move::new_death(0)]);
    let undo = g.step(&vec![to(9, 10, 1), Move::new_death(0)]);
    assert!(!g.board.snakes[0].alive);
    assert!(g.board.snakes[1].alive);
    assert_eq!(body(&g, 0), before.bodies[0]);
    assert_eq!(g.board.snakes[0].health, 99);
    assert!(g.is_terminal());
    g.undo(&undo);
    assert_same(&g, &before);
}

#[test]
fn a_dead_snake_takes_no_part_in_a_tick() {
    let mut g = duel((100, &[(5, 5), (5, 4)]), (60, &[(9, 9), (9, 8)]), &[]);
    g.board.snakes[1].alive = false;
    let before = snapshot(&g);
    let undo = g.step(&vec![to(5, 6, 0)]);
    assert_eq!(body(&g, 0), vec![bit(5, 6), bit(5, 5)]);
    assert_eq!(body(&g, 1), before.bodies[1]);
    assert_eq!(g.board.snakes[1].health, 60);
    assert!(!g.board.snakes[1].alive);
    g.undo(&undo);
    assert_same(&g, &before);
}

#[test]
fn undo_in_reverse_order_restores_every_position() {
    let mut g = duel((100, &[(2, 2), (2, 2), (2, 2)]), (100, &[(8, 8), (8, 8), (8, 8)]), &[(2, 4), (8, 6)]);
    let mut snapshots = vec![];
    let mut undos = vec![];
    let plan = [((2, 3), (8, 7)), ((2, 4), (8, 6)), ((3, 4), (7, 6)), ((4, 4), (6, 6))];
    for (you, them) in plan {
        snapshots.push(snapshot(&g));
        undos.push(g.step(&vec![to(them.0, them.1, 1), to(you.0, you.1, 0)]));
    }
    assert_eq!(g.board.snakes[0].length(), 4);
    assert_eq!(g.board.snakes[1].length(), 4);
    assert_eq!(g.board.food, 0);
    assert_eq!(g.turn, 7);
    while let Some(undo) = undos.pop() {
        g.undo(&undo);
        assert_same(&g, &snapshots.pop().unwrap());
    }
}

#[test]
fn the_turn_counter_wraps() {
    let mut g = duel((100, &[(5, 5)]), (100, &[(9, 9)]), &[]);
    g.turn = u32::MAX;
    let undo = g.step(&vec![to(5, 6, 0), to(9, 10, 1)]);
    assert_eq!(g.turn, 0);
    g.undo(&undo);
    assert_eq!(g.turn, u32::MAX);
}

#[test]
fn choice_of_finds_the_move_of_a_snake() {
    let moves = vec![to(9, 10, 1), Move::new_death(0)];
    assert_eq!(choice_of(&moves, 0), Some(MoveType::Death));
    assert_eq!(choice_of(&moves, 1), Some(MoveType::MoveSquare(bit(9, 10))));
    assert_eq!(choice_of(&vec![to(1, 1, 1)], 0), None);
    assert_eq!(choice_of(&vec![], 1), None);
}

#[test]
fn play_comes_to_an_end() {
    let mut g = duel(
        (100, &[(2, 2), (2, 2), (2, 2)]),
        (100, &[(8, 8), (8, 8), (8, 8)]),
        &[(2, 4), (8, 6), (5, 5), (0, 0), (10, 10)],
    );
    let mut ticks = 0u32;
    while !g.is_terminal() {
        let food = g.board.food;
        let health: u32 =
            g.board.snakes.iter().filter(|s| s.alive).map(|s| s.health as u32).sum();
        let you = g.legal_moves(Side::You);
        let them = g.legal_moves(Side::Them);
        let pick = (ticks as usize) % 3;
        let moves = vec![them[pick % them.len()], you[(pick + 1) % you.len()]];
        let _ = g.step(&moves);
        ticks += 1;
        if !g.is_terminal() {
            let health_after: u32 =
                g.board.snakes.iter().filter(|s| s.alive).map(|s| s.health as u32).sum();
            assert!(g.board.food < food || (g.board.food == food && health_after < health));
        }
        assert!(ticks <= 700);
    }
    assert!(g.alive_count() <= 1);
}
