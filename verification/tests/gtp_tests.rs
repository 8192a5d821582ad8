use rust_pyaq::board::{Board, Error};
use rust_pyaq::constants::PASS;
use rust_pyaq::coord_convert::str2ev;
use rust_pyaq::gtp::{
    command_names, interpret, load_pv, load_record, move2xy, parse, parse_number, same,
    sequence_vertices, split_words, Command, RecordNode,
};
use rust_pyaq::intersection::{Color, Intersection};

#[test]
fn lines_are_split_at_white_space() {
    assert_eq!(split_words("play  b\tD5 "), vec!["play", "b", "D5"]);
    assert_eq!(split_words("   "), Vec::<&str>::new());
    assert_eq!(split_words(""), Vec::<&str>::new());
    assert_eq!(split_words("x"), vec!["x"]);
    assert_eq!(split_words("a\u{3000}b\u{a0}c"), vec!["a", "b", "c"]);
    assert_eq!(split_words("a\u{200b}b"), vec!["a\u{200b}b"]);
}

#[test]
fn the_command_comes_first_or_behind_an_equals_sign() {
    assert_eq!(parse("play b D5"), (Some("play"), vec!["b", "D5"]));
    assert_eq!(parse("= play b D5"), (Some("play"), vec!["b", "D5"]));
    assert_eq!(parse("=play b"), (Some("=play"), vec!["b"]));
    assert_eq!(parse("quit"), (Some("quit"), vec![]));
    assert_eq!(parse("="), (None, vec![]));
    assert_eq!(parse(""), (None, vec![]));
    assert_eq!(parse("= ="), (Some("="), vec![]));
}

#[test]
fn strings_compare_by_their_characters() {
    assert!(same("komi", "komi"));
    assert!(!same("komi", "Komi"));
    assert!(!same("komi", "komi "));
    assert!(same("", ""));
}

#[test]
fn numbers_are_read_in_decimal() {
    assert_eq!(parse_number("0"), Some(0));
    assert_eq!(parse_number("9"), Some(9));
    assert_eq!(parse_number("0120"), Some(120));
    assert_eq!(parse_number("18446744073709551615"), Some(usize::MAX));
    assert_eq!(parse_number("18446744073709551616"), None);
    assert_eq!(parse_number("99999999999999999999999"), None);
    assert_eq!(parse_number(""), None);
    assert_eq!(parse_number("+9"), None);
    assert_eq!(parse_number("-1"), None);
    assert_eq!(parse_number("9a"), None);
    assert_eq!(parse_number("٣"), None);
}

#[test]
fn commands_are_told_apart() {
    let none: Vec<&str> = vec![];
    assert_eq!(interpret("protocol_version", &none), Command::ProtocolVersion);
    assert_eq!(interpret("name", &none), Command::Name);
    assert_eq!(interpret("version", &none), Command::Version);
    assert_eq!(interpret("list_commands", &none), Command::ListCommands);
    assert_eq!(interpret("komi", &vec!["7.0"]), Command::Komi);
    assert_eq!(interpret("time_settings", &vec!["10", "3"]), Command::TimeSettings);
    assert_eq!(interpret("time_left", &vec!["b", "10", "0"]), Command::TimeLeft);
    assert_eq!(interpret("clear_board", &none), Command::ClearBoard);
    assert_eq!(interpret("genmove", &vec!["b"]), Command::Genmove);
    assert_eq!(interpret("undo", &none), Command::Undo);
    assert_eq!(interpret("gogui-play_sequence", &none), Command::PlaySequence);
    assert_eq!(interpret("showboard", &none), Command::Showboard);
    assert_eq!(interpret("quit", &none), Command::Quit);
    assert_eq!(interpret("Quit", &none), Command::Unknown);
    assert_eq!(interpret("final_score", &none), Command::Unknown);
    assert_eq!(interpret("", &none), Command::Unknown);
}

#[test]
fn only_the_board_size_nine_is_accepted() {
    assert_eq!(interpret("boardsize", &vec!["9"]), Command::Boardsize(true));
    assert_eq!(interpret("boardsize", &vec!["09"]), Command::Boardsize(true));
    assert_eq!(interpret("boardsize", &vec!["19"]), Command::Boardsize(false));
    assert_eq!(interpret("boardsize", &vec!["nine"]), Command::Boardsize(false));
    assert_eq!(interpret("boardsize", &vec![]), Command::Boardsize(false));
}

#[test]
fn play_reads_the_vertex() {
    assert_eq!(interpret("play", &vec!["b", "D5"]), Command::Play(str2ev("D5")));
    assert_eq!(interpret("play", &vec!["w", "pass"]), Command::Play(Some(PASS)));
    assert_eq!(interpret("play", &vec!["b", "Z5"]), Command::Play(None));
    assert_eq!(interpret("play", &vec!["b"]), Command::Play(None));
}

#[test]
fn loadsgf_reads_the_move_limit() {
    assert_eq!(interpret("loadsgf", &vec!["game.sgf"]), Command::LoadSgf(Some(usize::MAX)));
    assert_eq!(interpret("loadsgf", &vec!["game.sgf", "12"]), Command::LoadSgf(Some(12)));
    assert_eq!(interpret("loadsgf", &vec!["game.sgf", "x"]), Command::LoadSgf(None));
    assert_eq!(interpret("loadsgf", &vec![]), Command::LoadSgf(Some(usize::MAX)));
}

#[test]
fn sequences_take_every_second_argument() {
    let d5 = str2ev("D5").unwrap();
    let e5 = str2ev("E5").unwrap();
    assert_eq!(sequence_vertices(&vec!["b", "D5", "w", "E5"]), Some(vec![d5, e5]));
    assert_eq!(sequence_vertices(&vec!["b", "D5", "w"]), Some(vec![d5]));
    assert_eq!(sequence_vertices(&vec!["b"]), Some(vec![]));
    assert_eq!(sequence_vertices(&vec![]), Some(vec![]));
    assert_eq!(sequence_vertices(&vec!["b", "D5", "w", "Z5"]), None);
    assert_eq!(sequence_vertices(&vec!["zz", "pass"]), Some(vec![PASS]));
}

#[test]
fn every_listed_command_is_known() {
    let names = command_names();
    assert_eq!(names.len(), 16);
    assert_eq!(names[0], "protocol_version");
    assert_eq!(names[15], "quit");
    for n in names.iter() {
        assert_ne!(interpret(n, &vec![]), Command::Unknown);
    }
}

#[test]
fn record_points_are_letters() {
    assert_eq!(move2xy("aa"), Some((1, 1)));
    assert_eq!(move2xy("ei"), Some((5, 9)));
    assert_eq!(move2xy("ss"), Some((19, 19)));
    assert_eq!(move2xy("eix"), Some((5, 9)));
    assert_eq!(move2xy("tt"), None);
    assert_eq!(move2xy("a"), None);
    assert_eq!(move2xy(""), None);
    assert_eq!(move2xy("A1"), None);
    assert_eq!(move2xy("`a"), None);
}

fn node(black: Option<&str>, white: Option<&str>) -> RecordNode {
    RecordNode {
        black: black.map(|s| s.to_string()),
        white: white.map(|s| s.to_string()),
    }
}

#[test]
fn a_record_is_played_node_by_node() {
    let mut b = Board::new();
    assert!(b.play(PASS, false).is_ok());
    let nodes = vec![
        node(None, None),
        node(Some("dd"), None),
        node(None, Some("ee")),
        node(Some("tt"), None),
        node(None, Some("dd")),
        node(Some("fa"), Some("ab")),
    ];
    assert_eq!(load_record(&mut b, &nodes, usize::MAX), Color::White);
    // dd, ee, a pass for tt, nothing for the occupied dd, fa
    assert_eq!(b.get_history(), &vec![48, 60, PASS, 17]);
    assert_eq!(b.get_state(48), Intersection::Stone(Color::Black));
    assert_eq!(b.get_state(60), Intersection::Stone(Color::White));
    assert_eq!(b.get_state(17), Intersection::Stone(Color::White));
    // the limit counts the moves read, refused or not
    assert_eq!(load_record(&mut b, &nodes, 2), Color::Black);
    assert_eq!(b.get_history(), &vec![48, 60]);
    assert_eq!(load_record(&mut b, &nodes, 4), Color::Black);
    assert_eq!(b.get_history(), &vec![48, 60, PASS]);
    assert_eq!(load_record(&mut b, &nodes, 0), Color::Black);
    assert!(b.get_history().is_empty());
    assert_eq!(load_record(&mut b, &vec![], 5), Color::Black);
}

#[test]
fn a_line_of_moves_is_played_until_one_is_refused() {
    let mut b = Board::new();
    let d5 = str2ev("D5").unwrap();
    let e5 = str2ev("E5").unwrap();
    assert_eq!(load_pv(&mut b, &vec![d5, e5, PASS]), Ok(Color::White));
    assert_eq!(b.get_history(), &vec![d5, e5, PASS]);
    assert_eq!(load_pv(&mut b, &vec![d5, d5, e5]), Err(Error::Illegal));
    assert_eq!(b.get_history(), &vec![d5]);
    assert_eq!(load_pv(&mut b, &vec![]), Ok(Color::Black));
    assert_eq!(b.get_move_cnt(), 0);
}
