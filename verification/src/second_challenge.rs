//! Cube games: records of coloured-cube draws, read from text and reduced
//! under per-colour limits.

use crate::pattern::{capture_group, compile, compiled_pattern, group_text, pattern_compiles};
use crate::text::{
    char_lines, char_views, chars_of, fields, lines_of, lower_all, lowered, parse_i32, parsed_i32,
    pieces, spells, split, split_fields, str_views, trim, trimmed, Delimiter,
};
use vstd::prelude::*;

verus! {

/// The colour of a cube.
#[derive(Debug, Clone, Copy, PartialEq, Eq, Structural)]
pub enum Color {
    Red,
    Blue,
    Green,
}

/// One draw: so many cubes of one colour.
#[derive(Debug, Clone, Copy, PartialEq, Eq, Structural)]
pub struct Cube {
    pub color: Color,
    pub quantity: i32,
}

/// A game: its identifier and all its draws in the order they were written,
/// the rounds run together.
#[derive(Debug, PartialEq, Eq)]
pub struct Game {
    pub id: i32,
    pub cubes: Vec<Cube>,
}

/// What a game holds, as mathematical values.
pub struct GameModel {
    pub id: int,
    pub cubes: Seq<Cube>,
}

impl View for Game {
    type V = GameModel;

    open spec fn view(&self) -> GameModel {
        GameModel { id: self.id as int, cubes: self.cubes@ }
    }
}

/// The model of each game of a sequence.
pub open spec fn game_views(games: Seq<Game>) -> Seq<GameModel> {
    Seq::new(games.len(), |i: int| games[i]@)
}

/// Why a game record was not read.
#[derive(Debug, Clone, Copy, PartialEq, Eq, Structural)]
pub enum GameError {
    /// The regular-expression engine refused the header pattern.
    Header,
    /// A draw does not have exactly two fields.
    Shape,
    /// The second field of a draw names no colour.
    Color,
    /// The first field of a draw is not an integer of 32 bits.
    Quantity,
    /// The answer does not fit the result type.
    Overflow,
}

/// The pattern that finds a record's header and captures the identifier.
pub const GAME_HEADER: &'static str = r"Game (\d+):";

/// The capture group of the header pattern that holds the identifier.
pub const ID_GROUP: usize = 1;

/// The most red cubes a feasible game shows in one draw.
pub const RED_LIMIT: i32 = 12;

/// The most green cubes a feasible game shows in one draw.
pub const GREEN_LIMIT: i32 = 13;

/// The most blue cubes a feasible game shows in one draw.
pub const BLUE_LIMIT: i32 = 14;

/// The colour that a name stands for, whatever the case of its ASCII letters.
pub open spec fn color_value(name: Seq<char>) -> Option<Color> {
    let w = lowered(name);
    if w == "red"@ {
        Some(Color::Red)
    } else if w == "blue"@ {
        Some(Color::Blue)
    } else if w == "green"@ {
        Some(Color::Green)
    } else {
        None
    }
}

/// Reads a colour name given as characters.
fn color_of(name: &Vec<char>) -> (color: Option<Color>)
    ensures
        color == color_value(name@),
{
    let w = lower_all(name);
    if spells(&w, "red") {
        Some(Color::Red)
    } else if spells(&w, "blue") {
        Some(Color::Blue)
    } else if spells(&w, "green") {
        Some(Color::Green)
    } else {
        None
    }
}

/// Reads a colour name, ignoring the case of ASCII letters.
pub fn parse_color(input: &str) -> (color: Option<Color>)
    ensures
        color == color_value(input@),
{
    color_of(&chars_of(input))
}

/// Reads a decimal integer with white space allowed around it.
pub fn parse_int(input: &str) -> (number: Option<i32>)
    ensures
        match number {
            Some(n) => parsed_i32(trimmed(input@)) == Some(n as int),
            None => parsed_i32(trimmed(input@)) is None,
        },
{
    let text = chars_of(input);
    let inner = trim(&text);
    parse_i32(&inner)
}

impl Cube {
    /// A draw of `quantity` cubes of one colour.
    pub fn new(color: Color, quantity: i32) -> (cube: Cube)
        ensures
            cube == (Cube { color, quantity }),
    {
        Cube { color, quantity }
    }
}

/// The draw that a piece of a record writes: a quantity and a colour name,
/// with white space between and around them.
pub open spec fn draw_of(piece: Seq<char>) -> Result<Cube, GameError> {
    let f = fields(piece);
    if f.len() != 2 {
        Err(GameError::Shape)
    } else {
        match color_value(f[1]) {
            None => Err(GameError::Color),
            Some(color) => match parsed_i32(f[0]) {
                None => Err(GameError::Quantity),
                Some(q) => Ok(Cube { color, quantity: q as i32 }),
            },
        }
    }
}

/// The draws that a sequence of pieces writes, in order; where a piece is
/// malformed, the error of the first such piece.
pub open spec fn draws_of(parts: Seq<Seq<char>>) -> Result<Seq<Cube>, GameError>
    decreases parts.len(),
{
    if parts.len() == 0 {
        Ok(Seq::<Cube>::empty())
    } else {
        match draws_of(parts.drop_last()) {
            Err(e) => Err(e),
            Ok(cubes) => match draw_of(parts.last()) {
                Err(e) => Err(e),
                Ok(cube) => Ok(cubes.push(cube)),
            },
        }
    }
}

/// The part of a record that lists the draws: what stands between the first
/// colon and the second one, or the end; empty where the record has no colon.
pub open spec fn record_body(line: Seq<char>) -> Seq<char> {
    let parts = pieces(line, Delimiter::One(':'));
    if parts.len() >= 2 {
        parts[1]
    } else {
        Seq::<char>::empty()
    }
}

/// The identifier of a record: the number that the header pattern captures,
/// and 0 where the pattern finds no header or the number is too large.
pub open spec fn record_id(line: Seq<char>) -> int {
    match group_text(GAME_HEADER@, line, ID_GROUP as int) {
        Some(digits) => match parsed_i32(digits) {
            Some(n) => n,
            None => 0,
        },
        None => 0,
    }
}

/// The game that a record writes. Draws are separated by `;` or `,` alike.
pub open spec fn game_of(line: Seq<char>) -> Result<GameModel, GameError> {
    match draws_of(pieces(record_body(line), Delimiter::Either(';', ','))) {
        Err(e) => Err(e),
        Ok(cubes) => Ok(GameModel { id: record_id(line), cubes }),
    }
}

/// The games that a sequence of records writes, in order; where a record is
/// malformed, the error of the first such record.
pub open spec fn games_of(lines: Seq<Seq<char>>) -> Result<Seq<GameModel>, GameError>
    decreases lines.len(),
{
    if lines.len() == 0 {
        Ok(Seq::<GameModel>::empty())
    } else {
        match games_of(lines.drop_last()) {
            Err(e) => Err(e),
            Ok(games) => match game_of(lines.last()) {
                Err(e) => Err(e),
                Ok(game) => Ok(games.push(game)),
            },
        }
    }
}

/// Reads one draw.
pub fn parse_draw(piece: &Vec<char>) -> (res: Result<Cube, GameError>)
    ensures
        res == draw_of(piece@),
{
    let f = split_fields(piece);
    assert(char_views(f@).len() == f.len());
    if f.len() != 2 {
        return Err(GameError::Shape);
    }
    assert(char_views(f@)[0] == f@[0]@);
    assert(char_views(f@)[1] == f@[1]@);
    match color_of(&f[1]) {
        None => Err(GameError::Color),
        Some(color) => match parse_i32(&f[0]) {
            None => Err(GameError::Quantity),
            Some(quantity) => Ok(Cube::new(color, quantity)),
        },
    }
}

/// Reads the draws of a record's body.
pub fn parse_draws(body: &Vec<char>) -> (res: Result<Vec<Cube>, GameError>)
    ensures
        match draws_of(pieces(body@, Delimiter::Either(';', ','))) {
            Ok(cubes) => res is Ok && res->Ok_0@ == cubes,
            Err(e) => res == Err::<Vec<Cube>, GameError>(e),
        },
{
    let parts = split(body, Delimiter::Either(';', ','));
    let ghost all = char_views(parts@);
    let mut cubes: Vec<Cube> = Vec::new();
    let mut i: usize = 0;
    while i < parts.len()
        invariant
            i <= parts.len(),
            all == char_views(parts@),
            all == pieces(body@, Delimiter::Either(';', ',')),
            draws_of(all.take(i as int)) == Ok::<Seq<Cube>, GameError>(cubes@),
        decreases parts.len() - i,
    {
        assert(all.take(i + 1).drop_last() == all.take(i as int));
        assert(all.take(i + 1).last() == parts@[i as int]@);
        match parse_draw(&parts[i]) {
            Ok(cube) => {
                cubes.push(cube);
            },
            Err(e) => {
                assert(draws_of(all.take(i + 1)) == Err::<Seq<Cube>, GameError>(e));
                proof {
                    lemma_draws_error_stays(all, i + 1);
                }
                return Err(e);
            },
        }
        i = i + 1;
    }
    assert(all.take(parts.len() as int) == all);
    Ok(cubes)
}

/// An error among the first pieces is the error of the whole sequence.
pub proof fn lemma_draws_error_stays(parts: Seq<Seq<char>>, k: int)
    requires
        0 <= k <= parts.len(),
        draws_of(parts.take(k)) is Err,
    ensures
        draws_of(parts) == draws_of(parts.take(k)),
    decreases parts.len(),
{
    if k == parts.len() {
        assert(parts.take(k) == parts);
    } else {
        assert(parts.drop_last().take(k) == parts.take(k));
        lemma_draws_error_stays(parts.drop_last(), k);
    }
}

/// An error among the first records is the error of the whole sequence.
pub proof fn lemma_games_error_stays(lines: Seq<Seq<char>>, k: int)
    requires
        0 <= k <= lines.len(),
        games_of(lines.take(k)) is Err,
    ensures
        games_of(lines) == games_of(lines.take(k)),
    decreases lines.len(),
{
    if k == lines.len() {
        assert(lines.take(k) == lines);
    } else {
        assert(lines.drop_last().take(k) == lines.take(k));
        lemma_games_error_stays(lines.drop_last(), k);
    }
}

/// Picks the body of a record out of its characters.
pub fn body_of(line: &Vec<char>) -> (body: Vec<char>)
    ensures
        body@ == record_body(line@),
{
    let parts = split(line, Delimiter::One(':'));
    assert(char_views(parts@).len() == parts.len());
    if parts.len() >= 2 {
        assert(char_views(parts@)[1] == parts@[1]@);
        parts[1].clone()
    } else {
        Vec::new()
    }
}

/// Settles a record's identifier from what the header pattern captured.
pub fn id_from_capture(group: Option<String>) -> (id: i32)
    ensures
        id as int == (match group {
            Some(digits) => match parsed_i32(digits@) {
                Some(n) => n,
                None => 0,
            },
            None => 0,
        }),
{
    match group {
        Some(digits) => match parse_i32(&chars_of(digits.as_str())) {
            Some(n) => n,
            None => 0,
        },
        None => 0,
    }
}

/// Reads one game from each record. A record without a header gets the
/// identifier 0; a malformed draw fails the whole reading.
pub fn read_games(lines: &Vec<Vec<char>>) -> (res: Result<Vec<Game>, GameError>)
    ensures
        !pattern_compiles(GAME_HEADER@) ==> res == Err::<Vec<Game>, GameError>(GameError::Header),
        pattern_compiles(GAME_HEADER@) ==> match games_of(char_views(lines@)) {
            Ok(games) => res is Ok && game_views(res->Ok_0@) == games,
            Err(e) => res == Err::<Vec<Game>, GameError>(e),
        },
{
    let id_pattern = match compile(GAME_HEADER) {
        Ok(re) => re,
        Err(_) => {
            return Err(GameError::Header);
        },
    };
    let ghost all = char_views(lines@);
    let mut games: Vec<Game> = Vec::new();
    let mut i: usize = 0;
    assert(game_views(games@) == Seq::<GameModel>::empty());
    while i < lines.len()
        invariant
            i <= lines.len(),
            all == char_views(lines@),
            pattern_compiles(GAME_HEADER@),
            compiled_pattern(id_pattern) == GAME_HEADER@,
            games_of(all.take(i as int)) == Ok::<Seq<GameModel>, GameError>(game_views(games@)),
        decreases lines.len() - i,
    {
        assert(all.take(i + 1).drop_last() == all.take(i as int));
        assert(all.take(i + 1).last() == lines@[i as int]@);
        let line = &lines[i];
        let id = id_from_capture(capture_group(&id_pattern, line, ID_GROUP));
        let body = body_of(line);
        match parse_draws(&body) {
            Ok(cubes) => {
                let ghost before = game_views(games@);
                let game = Game { id, cubes };
                games.push(game);
                assert(game_views(games@) == before.push(game@));
            },
            Err(e) => {
                assert(games_of(all.take(i + 1)) == Err::<Seq<GameModel>, GameError>(e));
                proof {
                    lemma_games_error_stays(all, i + 1);
                }
                return Err(e);
            },
        }
        i = i + 1;
    }
    assert(all.take(lines.len() as int) == all);
    Ok(games)
}

/// Reads one game from each record, the records given as string slices.
pub fn parse_results(strings: Vec<&str>) -> (res: Result<Vec<Game>, GameError>)
    ensures
        !pattern_compiles(GAME_HEADER@) ==> res == Err::<Vec<Game>, GameError>(GameError::Header),
        pattern_compiles(GAME_HEADER@) ==> match games_of(str_views(strings@)) {
            Ok(games) => res is Ok && game_views(res->Ok_0@) == games,
            Err(e) => res == Err::<Vec<Game>, GameError>(e),
        },
{
    let lines = char_lines(&strings);
    read_games(&lines)
}

/// Whether a draw shows more cubes than its colour's limit allows.
pub open spec fn over_limit(cube: Cube) -> bool {
    match cube.color {
        Color::Red => cube.quantity > RED_LIMIT,
        Color::Green => cube.quantity > GREEN_LIMIT,
        Color::Blue => cube.quantity > BLUE_LIMIT,
    }
}

/// A game is infeasible where one of its draws is over the limit.
pub open spec fn infeasible(cubes: Seq<Cube>) -> bool {
    exists|i: int| 0 <= i < cubes.len() && over_limit(#[trigger] cubes[i])
}

/// The sum of the identifiers of all games.
pub open spec fn id_sum(games: Seq<GameModel>) -> int
    decreases games.len(),
{
    if games.len() == 0 {
        0
    } else {
        id_sum(games.drop_last()) + games.last().id
    }
}

/// The sum of the identifiers of the infeasible games, each game counted once.
pub open spec fn infeasible_id_sum(games: Seq<GameModel>) -> int
    decreases games.len(),
{
    if games.len() == 0 {
        0
    } else if infeasible(games.last().cubes) {
        infeasible_id_sum(games.drop_last()) + games.last().id
    } else {
        infeasible_id_sum(games.drop_last())
    }
}

/// The sum of the identifiers of the feasible games.
pub open spec fn feasible_id_sum(games: Seq<GameModel>) -> int
    decreases games.len(),
{
    if games.len() == 0 {
        0
    } else if infeasible(games.last().cubes) {
        feasible_id_sum(games.drop_last())
    } else {
        feasible_id_sum(games.drop_last()) + games.last().id
    }
}

/// The feasibility answer: all identifiers, less those of infeasible games.
pub open spec fn feasibility_answer(games: Seq<GameModel>) -> int {
    id_sum(games) - infeasible_id_sum(games)
}

/// Taking the infeasible identifiers off the sum of all identifiers leaves
/// the sum of the feasible ones, whether or not identifiers repeat.
pub proof fn lemma_answer_is_feasible_sum(games: Seq<GameModel>)
    ensures
        feasibility_answer(games) == feasible_id_sum(games),
    decreases games.len(),
{
    if games.len() > 0 {
        lemma_answer_is_feasible_sum(games.drop_last());
    }
}

/// Whether one of a game's draws is over its colour's limit.
pub fn is_infeasible(game: &Game) -> (yes: bool)
    ensures
        yes == infeasible(game@.cubes),
{
    let mut k: usize = 0;
    while k < game.cubes.len()
        invariant
            k <= game.cubes.len(),
            forall|j: int| 0 <= j < k ==> !over_limit(#[trigger] game.cubes@[j]),
        decreases game.cubes.len() - k,
    {
        let cube = game.cubes[k];
        let over = match cube.color {
            Color::Red => cube.quantity > RED_LIMIT,
            Color::Green => cube.quantity > GREEN_LIMIT,
            Color::Blue => cube.quantity > BLUE_LIMIT,
        };
        if over {
            assert(over_limit(game.cubes@[k as int]));
            return true;
        }
        k = k + 1;
    }
    false
}

/// The feasibility reducer: the sum of all identifiers less the sum of the
/// identifiers of the infeasible games. `None` where that number does not
/// fit 32 bits with sign.
pub fn consume_results_a(games_list: Vec<Game>) -> (answer: Option<i32>)
    ensures
        match answer {
            Some(v) => v as int == feasibility_answer(game_views(games_list@)),
            None => !(i32::MIN <= feasibility_answer(game_views(games_list@)) <= i32::MAX),
        },
{
    let ghost all = game_views(games_list@);
    let mut total: i128 = 0;
    let mut removed: i128 = 0;
    let mut i: usize = 0;
    while i < games_list.len()
        invariant
            i <= games_list.len(),
            all == game_views(games_list@),
            total == id_sum(all.take(i as int)),
            removed == infeasible_id_sum(all.take(i as int)),
            -(i * 0x8000_0000) <= total <= i * 0x8000_0000,
            -(i * 0x8000_0000) <= removed <= i * 0x8000_0000,
        decreases games_list.len() - i,
    {
        assert(all.take(i + 1).drop_last() == all.take(i as int));
        assert(all.take(i + 1).last() == games_list@[i as int]@);
        let game = &games_list[i];
        total = total + game.id as i128;
        if is_infeasible(game) {
            removed = removed + game.id as i128;
        }
        i = i + 1;
    }
    assert(all.take(games_list.len() as int) == all);
    let answer: i128 = total - removed;
    if answer < -0x8000_0000 || answer > 0x7FFF_FFFF {
        None
    } else {
        Some(answer as i32)
    }
}

/// The most cubes of one colour that any draw shows, and 0 where no draw
/// shows that colour.
pub open spec fn most_seen(cubes: Seq<Cube>, color: Color) -> int
    decreases cubes.len(),
{
    if cubes.len() == 0 {
        0
    } else {
        let before = most_seen(cubes.drop_last(), color);
        let cube = cubes.last();
        if cube.color == color && cube.quantity > before {
            cube.quantity as int
        } else {
            before
        }
    }
}

/// The power of a game: the product of the most cubes seen of each colour.
pub open spec fn power(cubes: Seq<Cube>) -> int {
    most_seen(cubes, Color::Red) * most_seen(cubes, Color::Green) * most_seen(cubes, Color::Blue)
}

/// The sum of the powers of all games.
pub open spec fn power_sum(games: Seq<GameModel>) -> int
    decreases games.len(),
{
    if games.len() == 0 {
        0
    } else {
        power_sum(games.drop_last()) + power(games.last().cubes)
    }
}

/// The most cubes seen of a colour is never negative, no draw of that colour
/// shows more, and where it is not 0 some draw of that colour shows as many.
pub proof fn lemma_most_seen_bounds(cubes: Seq<Cube>, color: Color)
    ensures
        0 <= most_seen(cubes, color) <= i32::MAX,
        forall|i: int|
            0 <= i < cubes.len() && cubes[i].color == color ==> (#[trigger] cubes[i]).quantity
                <= most_seen(cubes, color),
        most_seen(cubes, color) > 0 ==> exists|i: int|
            0 <= i < cubes.len() && (#[trigger] cubes[i]).color == color && cubes[i].quantity
                == most_seen(cubes, color),
    decreases cubes.len(),
{
    if cubes.len() > 0 {
        let front = cubes.drop_last();
        lemma_most_seen_bounds(front, color);
        assert forall|i: int| 0 <= i < cubes.len() && cubes[i].color == color implies (
        #[trigger] cubes[i]).quantity <= most_seen(cubes, color) by {
            if i < cubes.len() - 1 {
                assert(front[i] == cubes[i]);
            }
        }
        if most_seen(cubes, color) > 0 {
            let last = cubes.len() - 1;
            if cubes[last].color == color && cubes[last].quantity > most_seen(front, color) {
                assert(cubes[last].color == color && cubes[last].quantity == most_seen(
                    cubes,
                    color,
                ));
            } else {
                let i = choose|i: int|
                    0 <= i < front.len() && (#[trigger] front[i]).color == color
                        && front[i].quantity == most_seen(front, color);
                assert(front[i] == cubes[i]);
                assert(cubes[i].color == color && cubes[i].quantity == most_seen(cubes, color));
            }
        }
    }
}

/// A power is never negative, and bounded by the cube of the largest quantity.
pub proof fn lemma_power_bounds(cubes: Seq<Cube>)
    ensures
        0 <= power(cubes) <= 0x7FFF_FFFF * 0x7FFF_FFFF * 0x7FFF_FFFF,
{
    lemma_most_seen_bounds(cubes, Color::Red);
    lemma_most_seen_bounds(cubes, Color::Green);
    lemma_most_seen_bounds(cubes, Color::Blue);
    let r = most_seen(cubes, Color::Red);
    let g = most_seen(cubes, Color::Green);
    let b = most_seen(cubes, Color::Blue);
    assert(0 <= r * g <= 0x7FFF_FFFF * 0x7FFF_FFFF) by (nonlinear_arith)
        requires
            0 <= r <= 0x7FFF_FFFF,
            0 <= g <= 0x7FFF_FFFF,
    ;
    let rg = r * g;
    assert(0 <= rg * b <= 0x7FFF_FFFF * 0x7FFF_FFFF * 0x7FFF_FFFF) by (nonlinear_arith)
        requires
            0 <= rg <= 0x7FFF_FFFF * 0x7FFF_FFFF,
            0 <= b <= 0x7FFF_FFFF,
    ;
}

/// The powers of the first games sum to no more than those of all games.
pub proof fn lemma_power_sum_prefix(games: Seq<GameModel>, k: int)
    requires
        0 <= k <= games.len(),
    ensures
        0 <= power_sum(games.take(k)) <= power_sum(games),
    decreases games.len(),
{
    if games.len() == 0 {
        assert(games.take(k) == games);
    } else {
        lemma_power_bounds(games.last().cubes);
        if k == games.len() {
            assert(games.take(k) == games);
            lemma_power_sum_prefix(games.drop_last(), k - 1);
        } else {
            assert(games.drop_last().take(k) == games.take(k));
            lemma_power_sum_prefix(games.drop_last(), k);
        }
    }
}

/// The fewest cubes of each colour that make a game possible: red, green
/// and blue, in that order.
pub fn minimum_set(game: &Game) -> (least: (i32, i32, i32))
    ensures
        least.0 as int == most_seen(game@.cubes, Color::Red),
        least.1 as int == most_seen(game@.cubes, Color::Green),
        least.2 as int == most_seen(game@.cubes, Color::Blue),
        least.0 >= 0 && least.1 >= 0 && least.2 >= 0,
{
    let mut red: i32 = 0;
    let mut green: i32 = 0;
    let mut blue: i32 = 0;
    let mut k: usize = 0;
    let ghost cubes = game.cubes@;
    assert(cubes.take(0) == Seq::<Cube>::empty());
    while k < game.cubes.len()
        invariant
            k <= game.cubes.len(),
            cubes == game.cubes@,
            red as int == most_seen(cubes.take(k as int), Color::Red),
            green as int == most_seen(cubes.take(k as int), Color::Green),
            blue as int == most_seen(cubes.take(k as int), Color::Blue),
            red >= 0 && green >= 0 && blue >= 0,
        decreases game.cubes.len() - k,
    {
        assert(cubes.take(k + 1).drop_last() == cubes.take(k as int));
        let cube = game.cubes[k];
        match cube.color {
            Color::Red => {
                if cube.quantity > red {
                    red = cube.quantity;
                }
            },
            Color::Green => {
                if cube.quantity > green {
                    green = cube.quantity;
                }
            },
            Color::Blue => {
                if cube.quantity > blue {
                    blue = cube.quantity;
                }
            },
        }
        k = k + 1;
    }
    assert(cubes.take(game.cubes.len() as int) == cubes);
    (red, green, blue)
}

/// The minimum-set reducer: the sum over all games of the product of the
/// most cubes seen of each colour. `None` where that number does not fit 32
/// bits with sign.
pub fn consume_results_b(games_list: Vec<Game>) -> (answer: Option<i32>)
    ensures
        match answer {
            Some(v) => v as int == power_sum(game_views(games_list@)),
            None => power_sum(game_views(games_list@)) > i32::MAX,
        },
{
    let ghost all = game_views(games_list@);
    let mut total: i128 = 0;
    let mut i: usize = 0;
    while i < games_list.len()
        invariant
            i <= games_list.len(),
            all == game_views(games_list@),
            total == power_sum(all.take(i as int)),
            0 <= total <= 0x7FFF_FFFF,
        decreases games_list.len() - i,
    {
        assert(all.take(i + 1).drop_last() == all.take(i as int));
        assert(all.take(i + 1).last() == games_list@[i as int]@);
        let (red, green, blue) = minimum_set(&games_list[i]);
        proof {
            lemma_power_bounds(games_list@[i as int]@.cubes);
            assert(0 <= red * green <= 0x7FFF_FFFF * 0x7FFF_FFFF) by (nonlinear_arith)
                requires
                    0 <= red <= 0x7FFF_FFFF,
                    0 <= green <= 0x7FFF_FFFF,
            ;
        }
        let pair: i128 = red as i128 * green as i128;
        let product: i128 = pair * blue as i128;
        total = total + product;
        if total > 0x7FFF_FFFF {
            proof {
                lemma_power_sum_prefix(all, i + 1);
            }
            return None;
        }
        i = i + 1;
    }
    assert(all.take(games_list.len() as int) == all);
    Some(total as i32)
}

/// What a reducer's answer becomes as the result of a challenge: the answer
/// where it fits 32 bits with sign, an overflow error where it does not.
pub open spec fn narrowed(answer: int) -> Result<i32, GameError> {
    if i32::MIN <= answer <= i32::MAX {
        Ok(answer as i32)
    } else {
        Err(GameError::Overflow)
    }
}

/// The feasibility answer for the records of a text, one record a line.
pub fn second_challenge_a(file_content: &str) -> (res: Result<i32, GameError>)
    ensures
        !pattern_compiles(GAME_HEADER@) ==> res == Err::<i32, GameError>(GameError::Header),
        pattern_compiles(GAME_HEADER@) ==> res == (match games_of(
            pieces(file_content@, Delimiter::One('\n')),
        ) {
            Ok(games) => narrowed(feasibility_answer(games)),
            Err(e) => Err::<i32, GameError>(e),
        }),
{
    let lines = lines_of(file_content);
    match read_games(&lines) {
        Err(e) => Err(e),
        Ok(games) => match consume_results_a(games) {
            Some(answer) => Ok(answer),
            None => Err(GameError::Overflow),
        },
    }
}

/// The minimum-set answer for the records of a text, one record a line.
pub fn second_challenge_b(file_content: &str) -> (res: Result<i32, GameError>)
    ensures
        !pattern_compiles(GAME_HEADER@) ==> res == Err::<i32, GameError>(GameError::Header),
        pattern_compiles(GAME_HEADER@) ==> res == (match games_of(
            pieces(file_content@, Delimiter::One('\n')),
        ) {
            Ok(games) => narrowed(power_sum(games)),
            Err(e) => Err::<i32, GameError>(e),
        }),
{
    let lines = lines_of(file_content);
    match read_games(&lines) {
        Err(e) => Err(e),
        Ok(games) => {
            proof {
                lemma_power_sum_prefix(game_views(games@), 0);
            }
            match consume_results_b(games) {
                Some(answer) => Ok(answer),
                None => Err(GameError::Overflow),
            }
        },
    }
}

} // verus!
