//! Choosing, from the records of played games, the games that a tuner
//! learns from, and who won them.

use vstd::prelude::*;

verus! {

/// One row of the table of participants: a snake that took part in a game,
/// and whether it won.
pub struct ParticipantsEntry {
    pub game_id: String,
    pub snake_id: String,
    pub winner: u8,
}

/// What a row holds.
pub struct Row {
    pub game: Seq<char>,
    pub snake: Seq<char>,
    pub winner: u8,
}

/// How far a pass over the rows has come: the games chosen, and of the run
/// of rows under way its game, its length, and the winner last seen.
pub struct Tally {
    pub games: Seq<(Seq<char>, Seq<char>)>,
    pub counter: int,
    pub game: Seq<char>,
    pub winner: Seq<char>,
}

impl View for ParticipantsEntry {
    type V = Row;

    open spec fn view(&self) -> Row {
        Row { game: self.game_id@, snake: self.snake_id@, winner: self.winner }
    }
}

/// What the rows hold.
pub open spec fn rows_of(rows: Seq<ParticipantsEntry>) -> Seq<Row> {
    Seq::new(rows.len(), |i: int| rows[i]@)
}

/// What the pairs hold.
pub open spec fn pairs_of(games: Seq<(String, String)>) -> Seq<(Seq<char>, Seq<char>)> {
    Seq::new(games.len(), |i: int| (games[i].0@, games[i].1@))
}

/// The tally after one more row. A row that names a winner sets the winner
/// first. The first row with a game opens the first run; a row of the same
/// game makes the run longer; a row of another game ends the run, which is
/// chosen with the winner as it stands if it has `num_snakes` rows, and opens
/// the next.
pub open spec fn tally_row(t: Tally, row: Row, num_snakes: int) -> Tally {
    let winner = if row.winner == 1 {
        row.snake
    } else {
        t.winner
    };
    if t.game.len() == 0 {
        Tally { game: row.game, counter: 1, winner, ..t }
    } else if t.game == row.game {
        Tally { counter: t.counter + 1, winner, ..t }
    } else {
        Tally {
            games: if t.counter == num_snakes {
                t.games.push((t.game, winner))
            } else {
                t.games
            },
            game: row.game,
            counter: 1,
            winner,
        }
    }
}

/// The tally after the first `n` rows.
pub open spec fn tally(rows: Seq<Row>, n: nat, num_snakes: int) -> Tally
    decreases n,
{
    if n == 0 {
        Tally { games: Seq::empty(), counter: 0, game: Seq::empty(), winner: Seq::empty() }
    } else {
        tally_row(tally(rows, (n - 1) as nat, num_snakes), rows[n - 1], num_snakes)
    }
}

/// The games with `num_snakes` participants and their winners, from rows in
/// which the participants of a game follow each other. The run of rows that
/// no row of another game follows is not chosen.
pub fn games_with(rows: &Vec<ParticipantsEntry>, num_snakes: usize) -> (thing: Vec<
    (String, String),
>)
    requires
        num_snakes > 1,
    ensures
        pairs_of(thing@) == tally(rows_of(rows@), rows@.len(), num_snakes as int).games,
{
    let mut thing: Vec<(String, String)> = Vec::new();
    let mut num_snake_counter: usize = 0;
    let mut current_game_id = String::new();
    let mut current_winner_id = String::new();
    let mut i: usize = 0;
    assert(pairs_of(thing@) =~= Seq::<(Seq<char>, Seq<char>)>::empty());
    while i < rows.len()
        invariant
            i <= rows.len(),
            num_snake_counter <= i,
            tally(rows_of(rows@), i as nat, num_snakes as int) == (Tally {
                games: pairs_of(thing@),
                counter: num_snake_counter as int,
                game: current_game_id@,
                winner: current_winner_id@,
            }),
        decreases rows.len() - i,
    {
        let x = &rows[i];
        proof {
            assert(rows_of(rows@)[i as int] == x@);
        }
        if x.winner == 1 {
            current_winner_id = x.snake_id.clone();
        }
        if current_game_id.as_str().is_empty() {
            current_game_id = x.game_id.clone();
            num_snake_counter = 1;
        } else if current_game_id == x.game_id {
            num_snake_counter += 1;
        } else {
            if num_snake_counter == num_snakes {
                let ghost before = pairs_of(thing@);
                thing.push((current_game_id, current_winner_id.clone()));
                assert(pairs_of(thing@) =~= before.push(
                    (thing@[thing@.len() - 1].0@, current_winner_id@),
                ));
            }
            current_game_id = x.game_id.clone();
            num_snake_counter = 1;
        }
        i += 1;
    }
    thing
}

/// `i` is the first place in `games` of a pair for the game `id`.
pub open spec fn is_first_of(games: Seq<(Seq<char>, Seq<char>)>, id: Seq<char>, i: int) -> bool {
    &&& 0 <= i < games.len()
    &&& games[i].0 == id
    &&& forall|j: int| 0 <= j < i ==> games[j].0 != id
}

/// The winner of the game `id`: that of the first pair for it, if there is
/// one.
pub fn winner_of(games: &Vec<(String, String)>, id: &String) -> (winner: Option<String>)
    ensures
        match winner {
            Some(w) => exists|i: int|
                is_first_of(pairs_of(games@), id@, i) && w@ == pairs_of(games@)[i].1,
            None => forall|i: int| 0 <= i < games@.len() ==> games@[i].0@ != id@,
        },
{
    let mut i: usize = 0;
    while i < games.len()
        invariant
            i <= games.len(),
            forall|j: int| 0 <= j < i ==> games@[j].0@ != id@,
        decreases games.len() - i,
    {
        if games[i].0 == *id {
            let w = games[i].1.clone();
            assert(is_first_of(pairs_of(games@), id@, i as int));
            return Some(w);
        }
        i += 1;
    }
    None
}

} // verus!
