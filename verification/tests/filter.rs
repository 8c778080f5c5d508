use std::collections::HashSet;

use chess_extract::{
    elite_keeps, moves_key, EcoFilter, EliteFilter, OpeningFilter, Step,
};

const PGN: &str = "[Event \"Rated Blitz game\"]\n[WhiteElo \"2450\"]\n[BlackElo \"2405\"]\n[ECO \"B90\"]\n[TimeControl \"180+0\"]\n\n1. e4 c5 2. Nf3 d6 { [%clk 0:03:00] } 3. d4 cxd4 4. Nxd4 Nf6 5. Nc3 a6 1-0\n\n[Event \"Rated Bullet game\"]\n[WhiteElo \"2600\"]\n[BlackElo \"2500\"]\n[ECO \"C20\"]\n[TimeControl \"60+0\"]\n\n1. e4 e5 0-1\n\n[Event \"Rated Classical game\"]\n[WhiteElo \"2300\"]\n[BlackElo \"2550\"]\n[ECO \"B97\"]\n[TimeControl \"-\"]\n\r\n1. e4 c5 2. Nf3 d6 3. d4 cxd4 1/2-1/2\n";

fn lines(text: &str) -> Vec<&[u8]> {
    text.split_inclusive('\n').map(|l| l.as_bytes()).collect()
}

fn collect(step: Step, out: &mut Vec<u8>) {
    if let Some(g) = step.write {
        out.extend_from_slice(&g);
    }
}

fn game(n: usize) -> String {
    let starts: Vec<usize> = PGN.match_indices("[Event ").map(|(i, _)| i).collect();
    let end = if n + 1 < starts.len() { starts[n + 1] } else { PGN.len() };
    PGN[starts[n]..end].to_string()
}

fn run_eco(prefixes: &[&str], min_tc: u32) -> (Vec<u8>, u64, u64) {
    let mut f = EcoFilter::new(prefixes.iter().map(|p| p.as_bytes().to_vec()).collect(), min_tc);
    let mut out = Vec::new();
    for l in lines(PGN) {
        match f.on_line(l) {
            Ok(step) => collect(step, &mut out),
            Err(_) => panic!("overflow"),
        }
    }
    match f.finish() {
        Ok(step) => collect(step, &mut out),
        Err(_) => panic!("overflow"),
    }
    (out, f.total(), f.kept())
}

#[test]
fn eco_prefix_family() {
    let (out, total, kept) = run_eco(&["B9"], 180);
    assert_eq!(total, 3);
    assert_eq!(kept, 2);
    assert_eq!(String::from_utf8(out).unwrap(), game(0) + &game(2));
}

#[test]
fn eco_exact_code_and_several_prefixes() {
    let (out, _, kept) = run_eco(&["B90"], 180);
    assert_eq!(kept, 1);
    assert_eq!(String::from_utf8(out).unwrap(), game(0));
    let (_, _, kept) = run_eco(&["C", "B97"], 0);
    assert_eq!(kept, 2);
    let (out, total, kept) = run_eco(&["E"], 0);
    assert_eq!((total, kept), (3, 0));
    assert!(out.is_empty());
}

#[test]
fn games_are_copied_verbatim() {
    let (out, _, _) = run_eco(&["B", "C"], 0);
    assert_eq!(out, PGN.as_bytes());
}

#[test]
fn eco_applies_the_time_control_floor() {
    let (out, total, kept) = run_eco(&["C"], 180);
    assert_eq!((total, kept), (3, 0));
    assert!(out.is_empty());
    let (_, _, kept) = run_eco(&["B97"], 100000);
    assert_eq!(kept, 1);
}

fn run_elite(min_low: u32, min_high: u32, min_tc: u32) -> (String, u64) {
    let mut f = EliteFilter::new(min_low, min_high, min_tc);
    let mut out = Vec::new();
    for l in lines(PGN) {
        match f.on_line(l) {
            Ok(step) => collect(step, &mut out),
            Err(_) => panic!("overflow"),
        }
    }
    match f.finish() {
        Ok(step) => collect(step, &mut out),
        Err(_) => panic!("overflow"),
    }
    (String::from_utf8(out).unwrap(), f.kept())
}

#[test]
fn elite_both_players_and_floor() {
    let (out, kept) = run_elite(2400, 2400, 180);
    assert_eq!(kept, 1);
    assert_eq!(out, game(0));
    let (_, kept) = run_elite(2400, 2400, 0);
    assert_eq!(kept, 2);
}

#[test]
fn elite_asymmetric_floors_and_correspondence() {
    let (out, kept) = run_elite(2300, 2500, 180);
    assert_eq!(kept, 1);
    assert_eq!(out, game(2));
}

#[test]
fn elite_rule_is_colour_blind() {
    assert!(elite_keeps(2300, 2500, 2300, 2500, true));
    assert!(elite_keeps(2500, 2300, 2300, 2500, true));
    assert!(!elite_keeps(2299, 2600, 2300, 2500, true));
    assert!(!elite_keeps(2600, 2600, 2300, 2500, false));
}

#[test]
fn elite_missing_ratings_count_as_zero() {
    let mut f = EliteFilter::new(1, 1, 0);
    let mut out = Vec::new();
    for l in lines("[Event \"x\"]\n[WhiteElo \"?\"]\n[BlackElo \"2000\"]\n\n1. e4 *\n") {
        collect(f.on_line(l).ok().unwrap(), &mut out);
    }
    collect(f.finish().ok().unwrap(), &mut out);
    assert_eq!((f.total(), f.kept()), (1, 0));
    assert!(out.is_empty());
}

#[test]
fn overlong_time_controls_pass_the_floor() {
    let mut f = EliteFilter::new(0, 0, 180);
    let mut out = Vec::new();
    for l in lines("[Event \"x\"]\n[TimeControl \"0+107374183\"]\n\n1. e4 *\n") {
        collect(f.on_line(l).ok().unwrap(), &mut out);
    }
    collect(f.finish().ok().unwrap(), &mut out);
    assert_eq!((f.total(), f.kept()), (1, 1));
}

fn run_opening(targets: HashSet<u64>, limit: usize, min_tc: u32, allow: bool) -> (String, u64) {
    let mut f = OpeningFilter::new(targets, limit, min_tc, allow);
    let mut out = Vec::new();
    for l in lines(PGN) {
        match f.on_line(l) {
            Ok(step) => collect(step, &mut out),
            Err(_) => panic!("overflow"),
        }
    }
    match f.finish() {
        Ok(step) => collect(step, &mut out),
        Err(_) => panic!("overflow"),
    }
    (String::from_utf8(out).unwrap(), f.kept())
}

#[test]
fn opening_finds_positions_within_limit() {
    let mut t = HashSet::new();
    t.insert(moves_key(&[b"e4", b"c5", b"Nf3", b"d6", b"d4", b"cxd4"]).unwrap());
    let (out, kept) = run_opening(t.clone(), usize::MAX, 0, true);
    assert_eq!(kept, 2);
    assert_eq!(out, game(0) + &game(2));
    let (_, kept) = run_opening(t.clone(), 5, 0, true);
    assert_eq!(kept, 0);
    let (out, kept) = run_opening(t.clone(), 6, 0, false);
    assert_eq!(kept, 1);
    assert_eq!(out, game(0));
    let (_, kept) = run_opening(t, 6, 480, true);
    assert_eq!(kept, 1);
}

#[test]
fn opening_with_no_targets_keeps_nothing() {
    let (out, kept) = run_opening(HashSet::new(), usize::MAX, 0, true);
    assert_eq!(kept, 0);
    assert!(out.is_empty());
}
