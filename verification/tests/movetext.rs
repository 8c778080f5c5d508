use chess_extract::{extract_moves, is_move_number, is_result};

fn toks(text: &str, limit: usize) -> Vec<String> {
    extract_moves(text.as_bytes(), limit)
        .iter()
        .map(|t| String::from_utf8(t.to_vec()).unwrap())
        .collect()
}

#[test]
fn moves_without_numbers_comments_variations_and_marks() {
    let text = "1. e4 e5 2. Nf3 {[%clk 0:03:00] good} Nc6 (2... d6 3. d4) 3. Bb5+ a6!? $1 4. Ba4 1-0";
    assert_eq!(toks(text, usize::MAX), vec!["e4", "e5", "Nf3", "Nc6", "Bb5", "a6", "Ba4"]);
}

#[test]
fn limit_takes_the_first_plies() {
    let text = "1. e4 e5 2. Nf3 Nc6 3. Bb5 a6";
    assert_eq!(toks(text, 3), vec!["e4", "e5", "Nf3"]);
    assert_eq!(toks(text, 0), Vec::<String>::new());
    assert_eq!(toks(text, 100).len(), 6);
}

#[test]
fn result_ends_the_movetext() {
    assert_eq!(toks("1. d4 d5 1/2-1/2 2. c4", usize::MAX), vec!["d4", "d5"]);
    assert_eq!(toks("1. d4 * d5", usize::MAX), vec!["d4"]);
    assert_eq!(toks("1. d4 0-1", usize::MAX), vec!["d4"]);
}

#[test]
fn nested_variations_and_line_comments() {
    let text = "1. e4 (1. d4 (1. c4 c5) d5) e5 ; rest of line Nf3\n2. Qh5# ";
    assert_eq!(toks(text, usize::MAX), vec!["e4", "e5", "Qh5"]);
}

#[test]
fn unterminated_comment_swallows_the_rest() {
    assert_eq!(toks("1. e4 {never closed e5 2. Nf3", usize::MAX), vec!["e4"]);
    assert_eq!(toks("1. e4 (e5 Nf3", usize::MAX), vec!["e4"]);
}

#[test]
fn stray_closers_and_bare_marks_are_skipped() {
    assert_eq!(toks(") } e4 ?? !! e5", usize::MAX), vec!["e4", "e5"]);
    assert_eq!(toks("", usize::MAX), Vec::<String>::new());
    assert_eq!(toks("   \n\t ", usize::MAX), Vec::<String>::new());
}

#[test]
fn move_numbers_and_glyphs_are_dropped() {
    assert_eq!(toks("12. e4 12... e5 $14 O-O-O", usize::MAX), vec!["e4", "e5", "O-O-O"]);
    assert_eq!(toks("12!", usize::MAX), vec!["12"]);
}

#[test]
fn result_tokens() {
    assert!(is_result(b"1-0"));
    assert!(is_result(b"0-1"));
    assert!(is_result(b"1/2-1/2"));
    assert!(is_result(b"*"));
    assert!(!is_result(b"1-0+"));
    assert!(!is_result(b"**"));
    assert!(!is_result(b""));
}

#[test]
fn move_number_tokens() {
    assert!(is_move_number(b"12."));
    assert!(is_move_number(b"3..."));
    assert!(is_move_number(b"7"));
    assert!(!is_move_number(b"e4"));
    assert!(!is_move_number(b"1-0"));
}

#[test]
fn tokens_are_clean_on_sample() {
    let text = "1. e4+ {x} e5# 2. Nf3!! $3 Nc6?! 3... d6";
    for t in extract_moves(text.as_bytes(), usize::MAX) {
        assert!(!t.is_empty());
        assert!(t[0] != b'$');
        assert!(!t.iter().any(|b| b.is_ascii_whitespace()));
        assert!(!matches!(t[t.len() - 1], b'+' | b'#' | b'!' | b'?'));
    }
}
