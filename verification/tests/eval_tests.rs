use snake_engine::area_eval::{
    coordinate_of, count_marks, label, mark_owned, nearer, position_in, same_square, sweep,
};
use snake_engine::board::Game;
use snake_engine::combat_adapter::{games_with, winner_of, ParticipantsEntry};
use snake_engine::eval::{manhattan, successors};
use snake_engine::incoming_board::{IBattlesnake, IBoard, Request};
use snake_engine::Coordinate;

fn at(x: i8, y: i8) -> Coordinate {
    Coordinate::new(x, y)
}

fn coords(squares: &[(i8, i8)]) -> Vec<Coordinate> {
    squares.iter().map(|&(x, y)| Coordinate::new(x, y)).collect()
}

fn duel(you: (u8, &[(i8, i8)]), them: (u8, &[(i8, i8)]), food: &[(i8, i8)]) -> Game {
    let you_snake = IBattlesnake { id: "you".to_string(), health: you.0, body: coords(you.1) };
    let them_snake = IBattlesnake { id: "them".to_string(), health: them.0, body: coords(them.1) };
    let r = Request {
        board: IBoard {
            width: 11,
            height: 11,
            food: coords(food),
            snakes: vec![you_snake.clone(), them_snake],
        },
        you: you_snake,
        turn: 0,
    };
    r.try_into_usable().unwrap()
}

fn row(game: &str, snake: &str, winner: u8) -> ParticipantsEntry {
    ParticipantsEntry { game_id: game.to_string(), snake_id: snake.to_string(), winner }
}

fn pair(game: &str, winner: &str) -> (String, String) {
    (game.to_string(), winner.to_string())
}

#[test]
fn it_works() {
    let result = snake_engine::eval::add(2, 2);
    assert_eq!(result, 4);
}

#[test]
fn manhattan_counts_steps() {
    assert_eq!(manhattan(&at(1, 2), &at(4, 0)), 5);
    assert_eq!(manhattan(&at(3, 3), &at(3, 3)), 0);
    assert_eq!(manhattan(&at(-128, 127), &at(127, -128)), 510);
}

#[test]
fn successors_are_the_free_neighbours_above_the_bottom_row() {
    let g = duel((100, &[(2, 5), (2, 6)]), (100, &[(8, 8), (8, 8)]), &[]);
    assert_eq!(
        successors(&at(5, 5), &g.board),
        vec![(at(5, 6), 1), (at(5, 4), 1), (at(6, 5), 1), (at(4, 5), 1)]
    );
    assert_eq!(successors(&at(5, 1), &g.board), vec![(at(5, 2), 1), (at(6, 1), 1), (at(4, 1), 1)]);
    assert_eq!(successors(&at(0, 10), &g.board), vec![(at(0, 9), 1), (at(1, 10), 1)]);
    assert_eq!(successors(&at(10, 5), &g.board), vec![(at(10, 6), 1), (at(10, 4), 1), (at(9, 5), 1)]);
    assert_eq!(successors(&at(3, 5), &g.board), vec![(at(3, 6), 1), (at(3, 4), 1), (at(4, 5), 1)]);
    assert_eq!(successors(&at(2, 7), &g.board), vec![(at(2, 8), 1), (at(3, 7), 1), (at(1, 7), 1)]);
    assert_eq!(successors(&at(5, 0), &g.board), vec![(at(5, 1), 1)]);
}

#[test]
fn successors_pass_over_a_dead_snake() {
    let mut g = duel((100, &[(2, 5), (2, 6)]), (100, &[(8, 8), (8, 7)]), &[]);
    assert_eq!(successors(&at(8, 6), &g.board), vec![(at(8, 5), 1), (at(9, 6), 1), (at(7, 6), 1)]);
    assert_eq!(g.board.covered(), g.board.snakes[0].full
        | g.board.snakes[0].tail()
        | g.board.snakes[1].full
        | g.board.snakes[1].tail());
    g.board.snakes[1].alive = false;
    assert_eq!(
        successors(&at(8, 6), &g.board),
        vec![(at(8, 7), 1), (at(8, 5), 1), (at(9, 6), 1), (at(7, 6), 1)]
    );
}

#[test]
fn coordinate_of_reads_the_square_of_a_mask() {
    for y in 0..11i8 {
        for x in 0..11i8 {
            let c = at(x, y);
            assert_eq!(coordinate_of(c.mask()), c);
        }
    }
    assert!(same_square(&at(3, 4), &at(3, 4)));
    assert!(!same_square(&at(3, 4), &at(4, 3)));
}

#[test]
fn position_in_finds_the_first_place() {
    let path = coords(&[(1, 1), (1, 2), (1, 1), (2, 2)]);
    assert_eq!(position_in(&path, &at(1, 1)), Some(0));
    assert_eq!(position_in(&path, &at(2, 2)), Some(3));
    assert_eq!(position_in(&path, &at(5, 5)), None);
    assert_eq!(position_in(&vec![], &at(5, 5)), None);
}

#[test]
fn nearer_compares_lengths_and_counts_no_path_as_a_thousand() {
    let short = Some(coords(&[(1, 1), (1, 2)]));
    let long = Some(coords(&[(1, 1), (1, 2), (1, 3)]));
    assert!(nearer(&short, &long));
    assert!(!nearer(&long, &short));
    assert!(!nearer(&short, &short));
    assert!(nearer(&short, &None));
    assert!(!nearer(&None, &short));
    assert!(!nearer(&None, &None));
    let endless = Some(vec![at(1, 1); 1000]);
    assert!(!nearer(&endless, &None));
    assert!(!nearer(&None, &endless));
}

#[test]
fn mark_owned_gives_a_path_to_its_walker() {
    let mut marks: Vec<Option<bool>> = vec![None; 121];
    let path = coords(&[(1, 1), (1, 2), (1, 3)]);
    let other = coords(&[(3, 3), (2, 3), (1, 3)]);
    mark_owned(&mut marks, &path, &other, true);
    mark_owned(&mut marks, &other, &path, false);
    for (place, mark) in marks.iter().enumerate() {
        let expected = match place {
            12 | 13 => Some(true),
            36 | 25 => Some(false),
            _ => None,
        };
        assert_eq!(*mark, expected);
    }
    assert_eq!(count_marks(&marks), 0);

    let mut marks: Vec<Option<bool>> = vec![None; 121];
    let path = coords(&[(4, 4), (4, 5)]);
    let other = coords(&[(4, 8), (4, 7), (4, 6), (4, 5)]);
    mark_owned(&mut marks, &path, &other, true);
    assert_eq!(marks[4 * 11 + 4], Some(true));
    assert_eq!(marks[4 * 11 + 5], None);
    mark_owned(&mut marks, &other, &path, false);
    assert_eq!(marks[4 * 11 + 5], None);
    assert_eq!(marks[4 * 11 + 6], Some(false));
    assert_eq!(count_marks(&marks), 1 - 3);

    let mut marks: Vec<Option<bool>> = vec![None; 121];
    let path = coords(&[(4, 4), (4, 5), (4, 6)]);
    let other = coords(&[(4, 5), (4, 6), (4, 7), (4, 8)]);
    mark_owned(&mut marks, &path, &other, true);
    assert_eq!(marks[4 * 11 + 4], Some(true));
    assert_eq!(marks[4 * 11 + 5], Some(true));
    assert_eq!(marks[4 * 11 + 6], Some(true));
    assert_eq!(count_marks(&marks), 3);
}

#[test]
fn sweep_skips_marked_and_covered_squares_and_missing_paths() {
    let g = duel((100, &[(2, 5), (2, 6)]), (100, &[(8, 8), (8, 7)]), &[]);
    let mine = Some(coords(&[(2, 5), (3, 5)]));
    let theirs = Some(coords(&[(8, 8), (7, 8), (6, 8), (5, 8), (4, 8), (3, 8), (3, 7), (3, 6), (3, 5)]));

    let mut marks: Vec<Option<bool>> = vec![None; 121];
    sweep(&mut marks, &g.board, &at(3, 5), &mine, &None);
    assert!(marks.iter().all(|m| m.is_none()));
    sweep(&mut marks, &g.board, &at(3, 5), &None, &theirs);
    assert!(marks.iter().all(|m| m.is_none()));
    sweep(&mut marks, &g.board, &at(2, 6), &mine, &theirs);
    assert!(marks.iter().all(|m| m.is_none()));

    sweep(&mut marks, &g.board, &at(3, 5), &mine, &theirs);
    assert_eq!(marks[2 * 11 + 5], Some(true));
    assert_eq!(marks[3 * 11 + 5], None);
    assert_eq!(marks[8 * 11 + 8], Some(false));
    assert_eq!(marks[3 * 11 + 6], Some(false));
    assert_eq!(count_marks(&marks), 1 - 8);

    let before = marks.clone();
    sweep(&mut marks, &g.board, &at(3, 6), &theirs, &mine);
    assert_eq!(marks, before);
}

#[test]
fn label_compares_length_centre_health_and_food() {
    let g = duel(
        (80, &[(2, 5), (1, 5), (0, 5), (0, 6)]),
        (95, &[(8, 5), (9, 5), (10, 5)]),
        &[(3, 5), (9, 6), (5, 0)],
    );
    let f = label(&g);
    assert_eq!(f.length_difference, 1);
    assert_eq!(f.distance_to_center, (4 + 1) - (2 + 1));
    assert_eq!(f.health_diff, -15);
    assert_eq!(f.food_ownership_difference, 1 - 2);
    assert!(f.square_ownership_difference.abs() <= 121);
    assert_eq!(label(&g), f);
}

#[test]
fn label_gives_nothing_to_a_snake_that_cannot_move() {
    let g = duel((100, &[(5, 5), (5, 4)]), (100, &[(0, 0), (0, 1)]), &[(3, 5), (7, 7)]);
    let f = label(&g);
    assert_eq!(f.length_difference, 0);
    assert_eq!(f.distance_to_center, 2 - 12);
    assert_eq!(f.health_diff, 0);
    assert_eq!(f.food_ownership_difference, 2);
    assert_eq!(f.square_ownership_difference, 0);

    let mut swapped = g.clone();
    swapped.you_id = 1;
    let f = label(&swapped);
    assert_eq!(f.distance_to_center, 12 - 2);
    assert_eq!(f.food_ownership_difference, -2);
    assert_eq!(f.square_ownership_difference, 0);
}

#[test]
fn label_shares_the_board_between_two_snakes() {
    let g = duel((100, &[(1, 5), (0, 5)]), (100, &[(9, 5), (10, 5)]), &[]);
    let f = label(&g);
    assert!(f.square_ownership_difference.abs() <= 121);
    let mut mirrored = g.clone();
    mirrored.you_id = 1;
    let m = label(&mirrored);
    assert_eq!(m.length_difference, 0);
    assert_eq!(m.distance_to_center, -f.distance_to_center);
}

#[test]
fn games_with_chooses_the_runs_of_the_right_length() {
    let rows = vec![
        row("g1", "a", 1),
        row("g1", "b", 0),
        row("g2", "c", 0),
        row("g2", "d", 1),
        row("g3", "e", 0),
    ];
    assert_eq!(games_with(&rows, 2), vec![pair("g1", "a"), pair("g2", "d")]);
    assert_eq!(games_with(&rows, 3), vec![]);
    assert_eq!(games_with(&vec![], 2), vec![]);
}

#[test]
fn games_with_leaves_out_the_last_run_and_reads_the_winner_first() {
    let rows = vec![
        row("g1", "a", 0),
        row("g1", "b", 1),
        row("g2", "c", 1),
        row("g2", "d", 0),
        row("g2", "e", 0),
        row("g3", "f", 0),
        row("g3", "g", 1),
    ];
    assert_eq!(games_with(&rows, 2), vec![pair("g1", "c")]);
    assert_eq!(games_with(&rows, 3), vec![pair("g2", "c")]);
}

#[test]
fn winner_of_reads_the_first_pair_of_a_game() {
    let games = vec![pair("g1", "a"), pair("g2", "d"), pair("g1", "z")];
    assert_eq!(winner_of(&games, &"g1".to_string()), Some("a".to_string()));
    assert_eq!(winner_of(&games, &"g2".to_string()), Some("d".to_string()));
    assert_eq!(winner_of(&games, &"g9".to_string()), None);
}

#[test]
fn is_well_formed_tells_a_game_in_order() {
    let g = duel((100, &[(2, 5), (1, 5), (1, 5)]), (100, &[(8, 8)]), &[(3, 3)]);
    assert!(g.is_well_formed());
    assert!(g.board.snakes[0].is_well_formed());

    let mut bad = g.clone();
    bad.board.snakes[0].full = 0;
    assert!(!bad.is_well_formed());

    let mut bad = g.clone();
    bad.board.snakes[1].body.clear();
    assert!(!bad.is_well_formed());

    let mut bad = g.clone();
    bad.board.snakes[1].body[0] = 1u128 << 121;
    assert!(!bad.is_well_formed());

    let mut bad = g.clone();
    bad.board.snakes[1].body[0] = 3;
    assert!(!bad.is_well_formed());

    let mut bad = g.clone();
    bad.board.snakes[0].health = 101;
    assert!(!bad.is_well_formed());

    let mut bad = g.clone();
    bad.board.snakes[0].id = 1;
    assert!(!bad.is_well_formed());

    let mut bad = g.clone();
    bad.you_id = 2;
    assert!(!bad.is_well_formed());

    let mut bad = g.clone();
    bad.board.food = 1u128 << 127;
    assert!(!bad.is_well_formed());

    let mut bad = g.clone();
    bad.board.width = 7;
    assert!(!bad.is_well_formed());

    let mut bad = g.clone();
    bad.board.snakes.pop();
    assert!(!bad.is_well_formed());

    let mut bad = g.clone();
    let head = bad.board.snakes[0].body[0];
    bad.board.snakes[0].body.push_back(head);
    bad.board.snakes[0].full |= 1u128 << 56;
    assert!(!bad.is_well_formed());
}
