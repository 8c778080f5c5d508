use std::collections::HashSet;

use chess_extract::{
    extract_moves, fen_key, matches_target, matches_target_from, moves_key, moves_key_from,
    search_limit, targets_from_text, targets_from_text_at, GamePosition,
};

#[test]
fn empty_line_is_the_start_position() {
    let start = fen_key("rnbqkbnr/pppppppp/8/8/8/8/PPPPPPPP/RNBQKBNR w KQkq - 0 1");
    assert!(start.is_some());
    assert_eq!(moves_key(&[]), start);
}

#[test]
fn moves_key_matches_fen_of_reached_position() {
    let after = fen_key("rnbqkbnr/pppp1ppp/8/4p3/4P3/8/PPPP1PPP/RNBQKBNR w KQkq - 0 2");
    assert!(after.is_some());
    assert_eq!(moves_key(&[b"e4", b"e5"]), after);
    assert_ne!(moves_key(&[b"e4"]), after);
}

#[test]
fn transpositions_reach_the_same_key() {
    let a = moves_key(&[b"Nf3", b"Nc6", b"Nc3", b"Nf6"]);
    let b = moves_key(&[b"Nc3", b"Nf6", b"Nf3", b"Nc6"]);
    assert!(a.is_some());
    assert_eq!(a, b);
}

#[test]
fn illegal_or_unparsable_moves_give_none() {
    assert_eq!(moves_key(&[b"e5"]), None);
    assert_eq!(moves_key(&[b"e4", b"zz"]), None);
    assert_eq!(moves_key(&[b"e4", b"e5", b"Ke3"]), None);
}

#[test]
fn fen_counters_are_optional() {
    let full = fen_key("r1bqkb1r/pppp1ppp/2n2n2/4p3/4P3/2NP1N2/PPP2PPP/R1BQKB1R b KQkq - 0 1");
    let short = fen_key("r1bqkb1r/pppp1ppp/2n2n2/4p3/4P3/2NP1N2/PPP2PPP/R1BQKB1R b KQkq -");
    let spaced = fen_key("  r1bqkb1r/pppp1ppp/2n2n2/4p3/4P3/2NP1N2/PPP2PPP/R1BQKB1R   b KQkq -  ");
    let other = fen_key("r1bqkb1r/pppp1ppp/2n2n2/4p3/4P3/2NP1N2/PPP2PPP/R1BQKB1R b KQkq - 7 30");
    assert!(full.is_some());
    assert_eq!(full, short);
    assert_eq!(full, spaced);
    assert_eq!(full, other);
    let counted = fen_key("r1bqkb1r/pppp1ppp/2n2n2/4p3/4P3/2NP1N2/PPP2PPP/R1BQKB1R b KQkq - 3 12");
    assert_eq!(full, counted);
}

#[test]
fn castling_rights_are_part_of_the_position() {
    let with = fen_key("r3k2r/8/8/8/8/8/8/R3K2R w KQkq -");
    let without = fen_key("r3k2r/8/8/8/8/8/8/R3K2R w Kkq -");
    assert!(with.is_some() && without.is_some());
    assert_ne!(with, without);
}

#[test]
fn bad_fens_give_none() {
    assert_eq!(fen_key("not/a/fen"), None);
    assert_eq!(fen_key(""), None);
    assert_eq!(fen_key("8/8/8/8/8/8/8/8 w - -"), None);
}

#[test]
fn matches_target_after_some_ply() {
    let mut targets = HashSet::new();
    targets.insert(moves_key(&[b"e4", b"e5"]).unwrap());
    let game = extract_moves(b"1. e4 e5 2. Nf3 Nc6", usize::MAX);
    assert!(matches_target(&game, &targets));
    let short = extract_moves(b"1. e4 e5", 1);
    assert!(!matches_target(&short, &targets));
    let other = extract_moves(b"1. d4 d5", usize::MAX);
    assert!(!matches_target(&other, &targets));
}

#[test]
fn matches_target_ignores_start_and_stops_at_bad_move() {
    let mut targets = HashSet::new();
    targets.insert(moves_key(&[]).unwrap());
    assert!(!matches_target(&[], &targets));
    let mut later = HashSet::new();
    later.insert(moves_key(&[b"e4", b"e5", b"Nf3"]).unwrap());
    assert!(!matches_target(&[b"e4", b"e5", b"Bad", b"Nf3"], &later));
    assert!(matches_target(&[b"e4", b"e5", b"Nf3", b"Bad"], &later));
}

#[test]
fn matches_target_by_transposition() {
    let mut targets = HashSet::new();
    targets.insert(moves_key(&[b"d4", b"Nf6", b"c4", b"e6"]).unwrap());
    assert!(matches_target(&[b"c4", b"e6", b"d4", b"Nf6", b"Nc3"], &targets));
}

#[test]
fn targets_file_lines() {
    let text = "# a comment\n\n  e4 e5  \r\nrnbqkbnr/pppp1ppp/8/4p3/4P3/8/PPPP1PPP/RNBQKBNR w KQkq -\nbogus line\n1. d4 d5 2. c4\nnot/a/fen";
    let (t, rejected) = targets_from_text(text);
    assert_eq!(t.keys.len(), 2);
    assert!(t.keys.contains(&moves_key(&[b"e4", b"e5"]).unwrap()));
    assert!(t.keys.contains(&moves_key(&[b"d4", b"d5", b"c4"]).unwrap()));
    assert_eq!(t.move_depth, 3);
    assert!(t.has_fen);
    assert_eq!(rejected, vec!["bogus line".to_string(), "not/a/fen".to_string()]);
}

#[test]
fn targets_file_of_moves_only() {
    let (t, rejected) = targets_from_text("e4 e5 Nf3 Nc6 Nc3 Nf6 d3\ne4 e5 Nf3 Nc6 Nc3 Nf6 Bb5\n");
    assert_eq!(t.keys.len(), 2);
    assert_eq!(t.move_depth, 7);
    assert!(!t.has_fen);
    assert!(rejected.is_empty());
    let (empty, r) = targets_from_text("");
    assert!(empty.keys.is_empty());
    assert!(r.is_empty());
}

#[test]
fn search_limits() {
    assert_eq!(search_limit(false, 7, None), 7);
    assert_eq!(search_limit(false, 7, Some(30)), 30);
    assert_eq!(search_limit(false, 7, Some(3)), 3);
    assert_eq!(search_limit(true, 7, None), usize::MAX);
    assert_eq!(search_limit(true, 7, Some(30)), 30);
    assert_eq!(search_limit(true, 7, Some(3)), 7);
}

#[test]
fn replay_from_a_given_position() {
    let start = GamePosition::from_fen("rnbqkbnr/pppppppp/8/8/8/8/PPPPPPPP/RNBQKBNR w KQkq -").unwrap();
    assert_eq!(moves_key_from(&start, &[b"e4", b"e5"]), moves_key(&[b"e4", b"e5"]));
    let black_to_move = GamePosition::from_fen("rnbqkbnr/pppppppp/8/8/4P3/8/PPPP1PPP/RNBQKBNR b KQkq -").unwrap();
    assert_eq!(moves_key_from(&black_to_move, &[b"e5"]), moves_key(&[b"e4", b"e5"]));
    assert_eq!(moves_key_from(&black_to_move, &[b"e4"]), None);
    let mut targets = HashSet::new();
    targets.insert(moves_key(&[b"e4", b"e5", b"Nf3"]).unwrap());
    assert!(matches_target_from(&black_to_move, &[b"e5", b"Nf3"], &targets));
    assert!(GamePosition::from_fen("8/8/8").is_none());
}

#[test]
fn targets_from_a_given_position() {
    let black_to_move = GamePosition::from_fen("rnbqkbnr/pppppppp/8/8/4P3/8/PPPP1PPP/RNBQKBNR b KQkq -").unwrap();
    let (t, rejected) = targets_from_text_at("e5\nNf3\n", &black_to_move);
    assert_eq!(t.keys.len(), 1);
    assert!(t.keys.contains(&moves_key(&[b"e4", b"e5"]).unwrap()));
    assert_eq!(t.move_depth, 1);
    assert_eq!(rejected, vec!["Nf3".to_string()]);
}
