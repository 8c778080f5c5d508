use chess_extract::{str_eq, take_flag, take_min_tc, MinTcWarning, DEFAULT_MIN_TC};

fn args(v: &[&str]) -> Vec<String> {
    v.iter().map(|s| s.to_string()).collect()
}

#[test]
fn take_flag_removes_every_occurrence() {
    let mut a = args(&["prog", "--no-correspondence", "in", "--no-correspondence", "out"]);
    assert!(take_flag(&mut a, "--no-correspondence"));
    assert_eq!(a, args(&["prog", "in", "out"]));
}

#[test]
fn take_flag_absent_leaves_args() {
    let mut a = args(&["prog", "in", "out"]);
    assert!(!take_flag(&mut a, "--no-correspondence"));
    assert_eq!(a, args(&["prog", "in", "out"]));
}

#[test]
fn take_flag_twice_finds_nothing_the_second_time() {
    let mut a = args(&["--x", "a", "--x"]);
    assert!(take_flag(&mut a, "--x"));
    let after = a.clone();
    assert!(!take_flag(&mut a, "--x"));
    assert_eq!(a, after);
}

#[test]
fn take_flag_matches_whole_arguments_only() {
    let mut a = args(&["--xy", "--x=1", "-x", "é"]);
    assert!(!take_flag(&mut a, "--x"));
    assert_eq!(a.len(), 4);
    assert!(take_flag(&mut a, "é"));
    assert_eq!(a, args(&["--xy", "--x=1", "-x"]));
}

#[test]
fn str_eq_compares_characters() {
    assert!(str_eq("abc", "abc"));
    assert!(!str_eq("abc", "abd"));
    assert!(!str_eq("abc", "ab"));
    assert!(str_eq("", ""));
    assert!(str_eq("é", "é"));
}

#[test]
fn min_tc_two_argument_form_anywhere() {
    let mut a = args(&["prog", "--min-tc", "480", "in.zst", "out.pgn"]);
    let (v, w) = take_min_tc(&mut a, DEFAULT_MIN_TC);
    assert_eq!(v, 480);
    assert!(w.is_empty());
    assert_eq!(a, args(&["prog", "in.zst", "out.pgn"]));
    let mut b = args(&["prog", "in.zst", "out.pgn", "2400", "--min-tc", "0"]);
    let (v, w) = take_min_tc(&mut b, DEFAULT_MIN_TC);
    assert_eq!(v, 0);
    assert!(w.is_empty());
    assert_eq!(b, args(&["prog", "in.zst", "out.pgn", "2400"]));
}

#[test]
fn min_tc_equals_form() {
    let mut a = args(&["prog", "--min-tc=300", "x"]);
    let (v, w) = take_min_tc(&mut a, DEFAULT_MIN_TC);
    assert_eq!(v, 300);
    assert!(w.is_empty());
    assert_eq!(a, args(&["prog", "x"]));
}

#[test]
fn min_tc_absent_gives_default() {
    let mut a = args(&["prog", "x", "--min", "tc"]);
    let (v, w) = take_min_tc(&mut a, DEFAULT_MIN_TC);
    assert_eq!(v, 180);
    assert!(w.is_empty());
    assert_eq!(a, args(&["prog", "x", "--min", "tc"]));
}

#[test]
fn min_tc_invalid_value_keeps_default_and_warns() {
    let mut a = args(&["prog", "--min-tc=fast", "x"]);
    let (v, w) = take_min_tc(&mut a, DEFAULT_MIN_TC);
    assert_eq!(v, 180);
    assert_eq!(w.len(), 1);
    match &w[0] {
        MinTcWarning::InvalidValue(s) => assert_eq!(s, "fast"),
        MinTcWarning::MissingValue => panic!("wrong warning"),
    }
    assert_eq!(a, args(&["prog", "x"]));

    let mut b = args(&["--min-tc", " 10"]);
    let (v, w) = take_min_tc(&mut b, 7);
    assert_eq!(v, 7);
    match &w[0] {
        MinTcWarning::InvalidValue(s) => assert_eq!(s, " 10"),
        MinTcWarning::MissingValue => panic!("wrong warning"),
    }
    assert!(b.is_empty());
}

#[test]
fn min_tc_missing_value_warns() {
    let mut a = args(&["prog", "x", "--min-tc"]);
    let (v, w) = take_min_tc(&mut a, 90);
    assert_eq!(v, 90);
    assert_eq!(w.len(), 1);
    assert!(matches!(w[0], MinTcWarning::MissingValue));
    assert_eq!(a, args(&["prog", "x"]));
}

#[test]
fn min_tc_last_valid_value_wins() {
    let mut a = args(&["--min-tc=100", "a", "--min-tc", "200"]);
    assert_eq!(take_min_tc(&mut a, 1).0, 200);
    assert_eq!(a, args(&["a"]));
    let mut b = args(&["--min-tc=100", "--min-tc=bad"]);
    let (v, w) = take_min_tc(&mut b, 1);
    assert_eq!(v, 100);
    assert_eq!(w.len(), 1);
    assert!(b.is_empty());
}

#[test]
fn min_tc_consumes_its_value_whatever_it_is() {
    let mut a = args(&["--min-tc", "--min-tc", "5"]);
    let (v, w) = take_min_tc(&mut a, 180);
    assert_eq!(v, 180);
    match &w[0] {
        MinTcWarning::InvalidValue(s) => assert_eq!(s, "--min-tc"),
        MinTcWarning::MissingValue => panic!("wrong warning"),
    }
    assert_eq!(a, args(&["5"]));
}
