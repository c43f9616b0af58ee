use arena_planner::decimal::{push_decimal, push_int, read_i32, read_numeral, read_usize};
use arena_planner::game_state::{GameState, Item, Player};
use arena_planner::point::Point;
use arena_planner::tokens::{is_separator, ParseError, TokenReader};

fn sample() -> GameState {
    GameState {
        width: 1000,
        height: 800,
        turn: 3,
        max_turns: 100,
        players: vec![
            Player {
                pos: Point { x: 100, y: 100 },
                speed: Point { x: 10, y: 0 },
                target: Point { x: 150, y: 200 },
                score: 0,
                radius: 1,
            },
            Player {
                pos: Point { x: -1, y: i32::MIN },
                speed: Point { x: i32::MAX, y: -7 },
                target: Point { x: 0, y: 0 },
                score: 12,
                radius: 30,
            },
        ],
        items: vec![Item { pos: Point { x: 5, y: -7 }, radius: 3 }],
        game_id: "game-7".to_string(),
    }
}

fn chars(s: &str) -> Vec<char> {
    s.chars().collect()
}

#[test]
fn writes_the_snapshot_in_lines() {
    assert_eq!(
        sample().to_string(),
        "TURN 3 100 1000 800 game-7\n\
         2\n\
         player 0 100 100 1 10 0 150 200\n\
         player 12 -1 -2147483648 30 2147483647 -7 0 0\n\
         1\n\
         5 -7 3\n\
         END_STATE\n"
    );
}

#[test]
fn writes_an_empty_snapshot() {
    let state = GameState {
        width: 0,
        height: 0,
        turn: 0,
        max_turns: usize::MAX,
        players: vec![],
        items: vec![],
        game_id: "x".to_string(),
    };
    assert_eq!(
        state.to_string(),
        format!("TURN 0 {} 0 0 x\n0\n0\nEND_STATE\n", usize::MAX)
    );
    assert_eq!(GameState::from_string(&state.to_string()), Ok(state));
}

#[test]
fn round_trip() {
    let state = sample();
    assert_eq!(GameState::from_string(&state.to_string()), Ok(state));
}

#[test]
fn round_trip_of_what_was_read() {
    let text = "TURN 1 2 3 4 игра 1 bob +5 -0 007 1 2 3 4 5\t0\r\nEND_STATE trailing";
    let state = GameState::from_string(text).unwrap();
    assert_eq!(state.game_id, "игра");
    assert_eq!(
        state.players,
        vec![Player {
            score: 5,
            pos: Point { x: 0, y: 7 },
            radius: 1,
            speed: Point { x: 2, y: 3 },
            target: Point { x: 4, y: 5 },
        }]
    );
    let written = state.to_string();
    assert_eq!(written, "TURN 1 2 3 4 игра\n1\nplayer 5 0 7 1 2 3 4 5\n0\nEND_STATE\n");
    assert_eq!(GameState::from_string(&written), Ok(state));
}

#[test]
fn reads_the_tokens_wherever_the_white_space_stands() {
    let state = GameState::from_string(
        "  TURN\n7 9\t1000 \x0c 2000   id-1 \r\n 2 a 1 2 3 4 5 6 7 8 b -1 -2 -3 -4 -5 -6 -7 -8 \
         3 10 20 30 40 50 60 70 80 90 END_STATE",
    )
    .unwrap();
    assert_eq!(state.turn, 7);
    assert_eq!(state.max_turns, 9);
    assert_eq!(state.width, 1000);
    assert_eq!(state.height, 2000);
    assert_eq!(state.game_id, "id-1");
    assert_eq!(state.players.len(), 2);
    assert_eq!(
        state.players[0],
        Player {
            score: 1,
            pos: Point { x: 2, y: 3 },
            radius: 4,
            speed: Point { x: 5, y: 6 },
            target: Point { x: 7, y: 8 },
        }
    );
    assert_eq!(state.players[1].score, -1);
    assert_eq!(state.players[1].target, Point { x: -7, y: -8 });
    assert_eq!(
        state.items,
        vec![
            Item { pos: Point { x: 10, y: 20 }, radius: 30 },
            Item { pos: Point { x: 40, y: 50 }, radius: 60 },
            Item { pos: Point { x: 70, y: 80 }, radius: 90 },
        ]
    );
}

#[test]
fn a_missing_token_is_reported_by_its_number() {
    assert_eq!(GameState::from_string(""), Err(ParseError::Missing(0)));
    assert_eq!(GameState::from_string(" \n\t "), Err(ParseError::Missing(0)));
    assert_eq!(GameState::from_string("TURN"), Err(ParseError::Missing(1)));
    assert_eq!(GameState::from_string("TURN 1 2 3 4"), Err(ParseError::Missing(5)));
    assert_eq!(GameState::from_string("TURN 1 2 3 4 id"), Err(ParseError::Missing(6)));
    assert_eq!(GameState::from_string("TURN 1 2 3 4 id 1"), Err(ParseError::Missing(7)));
    assert_eq!(
        GameState::from_string("TURN 1 2 3 4 id 1 name 1 2 3 4 5 6 7"),
        Err(ParseError::Missing(15))
    );
    assert_eq!(
        GameState::from_string("TURN 1 2 3 4 id 0 2 1 2 3 4 5"),
        Err(ParseError::Missing(13))
    );
    assert_eq!(GameState::from_string("TURN 1 2 3 4 id 0 0"), Err(ParseError::Missing(8)));
    // A player's name may be any token, the closing word too.
    assert_eq!(
        GameState::from_string("TURN 1 2 3 4 id 5 END_STATE"),
        Err(ParseError::Missing(8))
    );
}

#[test]
fn a_numeral_that_is_none_is_reported_by_its_number() {
    assert_eq!(GameState::from_string("TURN x"), Err(ParseError::Malformed(1)));
    assert_eq!(GameState::from_string("TURN -1 2 3 4 id"), Err(ParseError::Malformed(1)));
    assert_eq!(GameState::from_string("TURN -0 2 3 4 id"), Err(ParseError::Malformed(1)));
    assert_eq!(GameState::from_string("TURN 1 2.0 3 4 id"), Err(ParseError::Malformed(2)));
    assert_eq!(
        GameState::from_string("TURN 1 2 2147483648 4 id"),
        Err(ParseError::Malformed(3))
    );
    assert_eq!(
        GameState::from_string("TURN 1 2 3 -2147483649 id"),
        Err(ParseError::Malformed(4))
    );
    assert_eq!(
        GameState::from_string("TURN 1 2 3 4 id 99999999999999999999999"),
        Err(ParseError::Malformed(6))
    );
    assert_eq!(
        GameState::from_string("TURN 1 2 3 4 id 1 name 1 2 3 4 5 6 7 eight 0 END_STATE"),
        Err(ParseError::Malformed(15))
    );
    assert_eq!(
        GameState::from_string("TURN 1 2 3 4 id 0 many END_STATE"),
        Err(ParseError::Malformed(7))
    );
    assert_eq!(
        GameState::from_string("TURN 1 2 3 4 id 0 1 1 2 - END_STATE"),
        Err(ParseError::Malformed(10))
    );
    assert_eq!(
        GameState::from_string("TURN 1 2 3 4 id 0 1 1 2 1_0 END_STATE"),
        Err(ParseError::Malformed(10))
    );
}

#[test]
fn a_wrong_word_is_reported_by_its_number() {
    assert_eq!(GameState::from_string("turn 1 2 3 4 id 0 0 END_STATE"), Err(ParseError::Unexpected(0)));
    assert_eq!(GameState::from_string("TURNS 1"), Err(ParseError::Unexpected(0)));
    // A vertical tab separates nothing.
    assert_eq!(GameState::from_string("TURN\x0b1 2 3 4"), Err(ParseError::Unexpected(0)));
    assert_eq!(
        GameState::from_string("TURN 1 2 3 4 id 0 0 END"),
        Err(ParseError::Unexpected(8))
    );
    assert_eq!(
        GameState::from_string("TURN 1 2 3 4 id 1 n 1 2 3 4 5 6 7 8 1 1 2 3 4 END_STATE"),
        Err(ParseError::Unexpected(20))
    );
}

#[test]
fn the_first_error_wins() {
    assert_eq!(GameState::from_string("TURNS x"), Err(ParseError::Unexpected(0)));
    assert_eq!(GameState::from_string("TURN x y"), Err(ParseError::Malformed(1)));
}

#[test]
fn reader_hands_out_tokens_in_order() {
    let mut reader = TokenReader::new(" one  -2\t3 four ");
    assert_eq!(reader.position(), 0);
    assert_eq!(reader.next(), Ok("one".to_string()));
    assert_eq!(reader.next_i32(), Ok(-2));
    assert_eq!(reader.next_usize(), Ok(3));
    assert_eq!(reader.position(), 3);
    assert_eq!(reader.skip(), Ok(()));
    assert_eq!(reader.position(), 4);
    assert_eq!(reader.skip(), Err(ParseError::Missing(4)));
    assert_eq!(reader.next(), Err(ParseError::Missing(4)));
    assert_eq!(reader.next_i32(), Err(ParseError::Missing(4)));
    assert_eq!(reader.next_usize(), Err(ParseError::Missing(4)));
    assert_eq!(reader.position(), 4);
}

#[test]
fn reader_steps_over_a_token_that_it_cannot_read() {
    let mut reader = TokenReader::new("x -1 7");
    assert_eq!(reader.next_i32(), Err(ParseError::Malformed(0)));
    assert_eq!(reader.next_usize(), Err(ParseError::Malformed(1)));
    assert_eq!(reader.next_usize(), Ok(7));
}

#[test]
fn separators() {
    for c in [' ', '\t', '\n', '\x0c', '\r'] {
        assert!(is_separator(c));
    }
    for c in ['\x0b', 'a', '0', '-', '\u{a0}', '\u{2003}', '\0'] {
        assert!(!is_separator(c));
    }
}

#[test]
fn numerals() {
    let text = chars("x-12+7y007");
    assert_eq!(read_i32(&text, 1, 4), Some(-12));
    assert_eq!(read_i32(&text, 4, 6), Some(7));
    assert_eq!(read_usize(&text, 4, 6), Some(7));
    assert_eq!(read_usize(&text, 1, 4), None);
    assert_eq!(read_i32(&text, 7, 10), Some(7));
    assert_eq!(read_i32(&text, 0, 4), None);
    assert_eq!(read_i32(&text, 1, 6), None);
    assert_eq!(read_i32(&text, 1, 2), None);
    assert_eq!(read_i32(&text, 4, 5), None);
    assert_eq!(read_i32(&text, 3, 3), None);
    assert_eq!(read_numeral(&text, 1, 4), Some((true, 12)));
    assert_eq!(read_numeral(&text, 4, 6), Some((false, 7)));
    assert_eq!(read_numeral(&text, 2, 4), Some((false, 12)));
}

#[test]
fn numerals_at_the_limits() {
    assert_eq!(read_i32(&chars("2147483647"), 0, 10), Some(i32::MAX));
    assert_eq!(read_i32(&chars("2147483648"), 0, 10), None);
    assert_eq!(read_i32(&chars("-2147483648"), 0, 11), Some(i32::MIN));
    assert_eq!(read_i32(&chars("-2147483649"), 0, 11), None);
    assert_eq!(read_i32(&chars("-0"), 0, 2), Some(0));
    assert_eq!(read_usize(&chars("-0"), 0, 2), None);
    assert_eq!(read_usize(&chars("+0"), 0, 2), Some(0));
    let max = format!("{}", usize::MAX);
    assert_eq!(read_usize(&chars(&max), 0, max.len()), Some(usize::MAX));
    assert_eq!(read_numeral(&chars("18446744073709551615"), 0, 20), Some((false, u64::MAX)));
    assert_eq!(read_numeral(&chars("18446744073709551616"), 0, 20), None);
    assert_eq!(read_numeral(&chars("184467440737095516150"), 0, 21), None);
    assert_eq!(read_numeral(&chars("00000000000000000000000000001"), 0, 29), Some((false, 1)));
    assert_eq!(read_usize(&chars("٣"), 0, 1), None);
}

#[test]
fn writes_numerals() {
    let mut out = String::from("n=");
    push_decimal(&mut out, 0);
    out.push(' ');
    push_decimal(&mut out, 1_000_000);
    out.push(' ');
    push_decimal(&mut out, u64::MAX);
    out.push(' ');
    push_int(&mut out, -45);
    out.push(' ');
    push_int(&mut out, i64::MIN);
    out.push(' ');
    push_int(&mut out, i64::MAX);
    assert_eq!(
        out,
        "n=0 1000000 18446744073709551615 -45 -9223372036854775808 9223372036854775807"
    );
}
