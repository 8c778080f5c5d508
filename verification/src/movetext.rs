//! Tokenizing PGN movetext into SAN move tokens.

use vstd::prelude::*;

verus! {

/// An ASCII byte of the PGN syntax.
pub const DIGIT_1: u8 = 49;
/// An ASCII byte of the PGN syntax.
pub const DASH: u8 = 45;
/// An ASCII byte of the PGN syntax.
pub const DIGIT_0: u8 = 48;
/// An ASCII byte of the PGN syntax.
pub const SLASH: u8 = 47;
/// An ASCII byte of the PGN syntax.
pub const DIGIT_2: u8 = 50;
/// An ASCII byte of the PGN syntax.
pub const STAR: u8 = 42;
/// An ASCII byte of the PGN syntax.
pub const DIGIT_9: u8 = 57;
/// An ASCII byte of the PGN syntax.
pub const DOT: u8 = 46;
/// An ASCII byte of the PGN syntax.
pub const PLUS: u8 = 43;
/// An ASCII byte of the PGN syntax.
pub const HASH: u8 = 35;
/// An ASCII byte of the PGN syntax.
pub const BANG: u8 = 33;
/// An ASCII byte of the PGN syntax.
pub const QUERY: u8 = 63;
/// An ASCII byte of the PGN syntax.
pub const OPEN_PAREN: u8 = 40;
/// An ASCII byte of the PGN syntax.
pub const CLOSE_PAREN: u8 = 41;
/// An ASCII byte of the PGN syntax.
pub const OPEN_BRACE: u8 = 123;
/// An ASCII byte of the PGN syntax.
pub const CLOSE_BRACE: u8 = 125;
/// An ASCII byte of the PGN syntax.
pub const SEMICOLON: u8 = 59;
/// An ASCII byte of the PGN syntax.
pub const NEWLINE: u8 = 10;
/// An ASCII byte of the PGN syntax.
pub const DOLLAR: u8 = 36;

/// ASCII white space as `u8::is_ascii_whitespace` sees it: space, TAB, LF,
/// FF and CR (not VT).
pub open spec fn is_pgn_space(b: u8) -> bool {
    b == 0x20 || b == 0x09 || b == 0x0a || b == 0x0c || b == 0x0d
}

/// A game-result token: `1-0`, `0-1`, `1/2-1/2` or `*`.
pub open spec fn is_result_token(tok: Seq<u8>) -> bool {
    ||| tok == seq![DIGIT_1, DASH, DIGIT_0]
    ||| tok == seq![DIGIT_0, DASH, DIGIT_1]
    ||| tok == seq![DIGIT_1, SLASH, DIGIT_2, DASH, DIGIT_1, SLASH, DIGIT_2]
    ||| tok == seq![STAR]
}

/// A move-number token such as `12.` or `12...`: digits and dots only.
pub open spec fn is_move_number_token(tok: Seq<u8>) -> bool {
    forall|k: int| 0 <= k < tok.len() ==> (DIGIT_0 <= #[trigger] tok[k] <= DIGIT_9 || tok[k] == DOT)
}

/// A check, mate or annotation mark that may trail a SAN move.
pub open spec fn is_move_mark(b: u8) -> bool {
    b == PLUS || b == HASH || b == BANG || b == QUERY
}

/// `tok` without its trailing `+`, `#`, `!` and `?` marks.
pub open spec fn strip_marks(tok: Seq<u8>) -> Seq<u8>
    decreases tok.len(),
{
    if tok.len() > 0 && is_move_mark(tok.last()) {
        strip_marks(tok.drop_last())
    } else {
        tok
    }
}

/// The first position at or after `i` that holds `b`, or the end of `t`.
pub open spec fn scan_to(t: Seq<u8>, i: int, b: u8) -> int
    decreases t.len() - i,
{
    if i < 0 || i >= t.len() || t[i] == b {
        i
    } else {
        scan_to(t, i + 1, b)
    }
}

/// The end of the token that starts at `i`: the next white space, or the
/// end of `t`.
pub open spec fn word_end(t: Seq<u8>, i: int) -> int
    decreases t.len() - i,
{
    if i < 0 || i >= t.len() || is_pgn_space(t[i]) {
        i
    } else {
        word_end(t, i + 1)
    }
}

/// Where a variation ends: scanning from `i` with `depth` parentheses
/// open, the position just after the one that closes them all (or the end
/// of `t`).
pub open spec fn variation_end(t: Seq<u8>, i: int, depth: nat) -> int
    decreases t.len() - i,
{
    if i < 0 || i >= t.len() || depth == 0 {
        i
    } else {
        let next_depth: nat = if t[i] == OPEN_PAREN {
            depth + 1
        } else if t[i] == CLOSE_PAREN {
            (depth - 1) as nat
        } else {
            depth
        };
        variation_end(t, i + 1, next_depth)
    }
}

pub proof fn lemma_scan_to(t: Seq<u8>, i: int, b: u8)
    requires
        0 <= i <= t.len(),
    ensures
        i <= scan_to(t, i, b) <= t.len(),
        forall|k: int| i <= k < scan_to(t, i, b) ==> t[k] != b,
        scan_to(t, i, b) < t.len() ==> t[scan_to(t, i, b)] == b,
    decreases t.len() - i,
{
    if i < t.len() && t[i] != b {
        lemma_scan_to(t, i + 1, b);
    }
}

pub proof fn lemma_word_end(t: Seq<u8>, i: int)
    requires
        0 <= i <= t.len(),
    ensures
        i <= word_end(t, i) <= t.len(),
        forall|k: int| i <= k < word_end(t, i) ==> !is_pgn_space(#[trigger] t[k]),
        word_end(t, i) < t.len() ==> is_pgn_space(t[word_end(t, i)]),
    decreases t.len() - i,
{
    if i < t.len() && !is_pgn_space(t[i]) {
        lemma_word_end(t, i + 1);
    }
}

pub proof fn lemma_variation_end(t: Seq<u8>, i: int, depth: nat)
    requires
        0 <= i <= t.len(),
    ensures
        i <= variation_end(t, i, depth) <= t.len(),
    decreases t.len() - i,
{
    if i < t.len() && depth != 0 {
        let next_depth: nat = if t[i] == OPEN_PAREN {
            depth + 1
        } else if t[i] == CLOSE_PAREN {
            (depth - 1) as nat
        } else {
            depth
        };
        lemma_variation_end(t, i + 1, next_depth);
    }
}

/// The move tokens of the movetext `t` from position `i` on, in order:
/// white space is skipped, `{...}` comments, `;` comments to the end of the
/// line and `(...)` variations (nested) are dropped, stray `)` and `}` are
/// skipped, `$n` glyphs and move numbers are dropped, trailing `+#!?` marks
/// are stripped from each move, and the text ends at a result token.
pub open spec fn tokens_from(t: Seq<u8>, i: int) -> Seq<Seq<u8>>
    decreases t.len() - i,
{
    if i < 0 || i >= t.len() {
        seq![]
    } else {
        let c = t[i];
        if is_pgn_space(c) {
            tokens_from(t, i + 1)
        } else if c == OPEN_BRACE {
            proof {
                lemma_scan_to(t, i, CLOSE_BRACE);
            }
            let j = scan_to(t, i, CLOSE_BRACE);
            if j < t.len() {
                tokens_from(t, j + 1)
            } else {
                seq![]
            }
        } else if c == SEMICOLON {
            proof {
                lemma_scan_to(t, i, NEWLINE);
            }
            tokens_from(t, scan_to(t, i, NEWLINE))
        } else if c == OPEN_PAREN {
            proof {
                lemma_variation_end(t, i + 1, 1);
            }
            tokens_from(t, variation_end(t, i + 1, 1))
        } else if c == CLOSE_PAREN || c == CLOSE_BRACE {
            tokens_from(t, i + 1)
        } else {
            proof {
                lemma_word_end(t, i);
            }
            let e = word_end(t, i);
            let tok = t.subrange(i, e);
            if is_result_token(tok) {
                seq![]
            } else if tok[0] == DOLLAR || is_move_number_token(tok) {
                tokens_from(t, e)
            } else if strip_marks(tok).len() > 0 {
                seq![strip_marks(tok)] + tokens_from(t, e)
            } else {
                tokens_from(t, e)
            }
        }
    }
}

/// All move tokens of the movetext `t`.
pub open spec fn movetext_tokens(t: Seq<u8>) -> Seq<Seq<u8>> {
    tokens_from(t, 0)
}

/// The first `limit` move tokens of `t` (all of them where there are fewer).
pub open spec fn extracted(t: Seq<u8>, limit: int) -> Seq<Seq<u8>> {
    let all = movetext_tokens(t);
    all.take(if limit < all.len() { limit } else { all.len() as int })
}

/// The contents of a list of byte slices.
pub open spec fn slices_view(v: Seq<&[u8]>) -> Seq<Seq<u8>> {
    v.map_values(|s: &[u8]| s@)
}

/// Whether `tok` is a game result: `1-0`, `0-1`, `1/2-1/2` or `*`.
pub fn is_result(tok: &[u8]) -> (r: bool)
    ensures
        r == is_result_token(tok@),
{
    let n = tok.len();
    let r = (n == 3 && tok[0] == DIGIT_1 && tok[1] == DASH && tok[2] == DIGIT_0) || (n == 3 && tok[0]
        == DIGIT_0 && tok[1] == DASH && tok[2] == DIGIT_1) || (n == 7 && tok[0] == DIGIT_1 && tok[1]
        == SLASH && tok[2] == DIGIT_2 && tok[3] == DASH && tok[4] == DIGIT_1 && tok[5] == SLASH && tok[6]
        == DIGIT_2) || (n == 1 && tok[0] == STAR);
    proof {
        if n == 3 {
            assert(r == (tok@ =~= seq![DIGIT_1, DASH, DIGIT_0] || tok@ =~= seq![DIGIT_0, DASH, DIGIT_1]));
        } else if n == 7 {
            assert(r == (tok@ =~= seq![DIGIT_1, SLASH, DIGIT_2, DASH, DIGIT_1, SLASH, DIGIT_2]));
        } else if n == 1 {
            assert(r == (tok@ =~= seq![STAR]));
        }
    }
    r
}

/// Whether `tok` is made of digits and dots only, as a move number is.
pub fn is_move_number(tok: &[u8]) -> (r: bool)
    ensures
        r == is_move_number_token(tok@),
{
    let mut k: usize = 0;
    while k < tok.len()
        invariant
            k <= tok@.len(),
            forall|m: int| 0 <= m < k ==> (DIGIT_0 <= #[trigger] tok@[m] <= DIGIT_9 || tok@[m] == DOT),
        decreases tok@.len() - k,
    {
        let b = tok[k];
        if !((DIGIT_0 <= b && b <= DIGIT_9) || b == DOT) {
            return false;
        }
        k = k + 1;
    }
    true
}

fn pgn_space(b: u8) -> (r: bool)
    ensures
        r == is_pgn_space(b),
{
    b == 0x20 || b == 0x09 || b == 0x0a || b == 0x0c || b == 0x0d
}

/// The move tokens of `text`, at most `limit` of them: the first
/// `limit` of `movetext_tokens`, each a piece of `text`.
pub fn extract_moves(text: &[u8], limit: usize) -> (out: Vec<&[u8]>)
    ensures
        slices_view(out@) == extracted(text@, limit as int),
{
    let ghost t = text@;
    let ghost full = tokens_from(t, 0);
    let mut out: Vec<&[u8]> = Vec::new();
    let n = text.len();
    let mut i: usize = 0;
    while i < n && out.len() < limit
        invariant_except_break
            n == t.len(),
            t == text@,
            full == tokens_from(t, 0),
            i <= n,
            out.len() <= limit,
            full == slices_view(out@) + tokens_from(t, i as int),
        ensures
            n == t.len(),
            t == text@,
            out.len() <= limit,
            full.take(
                if limit < full.len() {
                    limit as int
                } else {
                    full.len() as int
                },
            ) == slices_view(out@),
        decreases n - i,
    {
        let c = text[i];
        if pgn_space(c) {
            i = i + 1;
            continue;
        }
        if c == OPEN_BRACE {
            let ghost i0 = i as int;
            proof {
                lemma_scan_to(t, i0, CLOSE_BRACE);
            }
            while i < n && text[i] != CLOSE_BRACE
                invariant
                    n == t.len(),
                    t == text@,
                    i0 <= i <= n,
                    scan_to(t, i as int, CLOSE_BRACE) == scan_to(t, i0, CLOSE_BRACE),
                decreases n - i,
            {
                i = i + 1;
            }
            if i < n {
                i = i + 1;
            }
            continue;
        }
        if c == SEMICOLON {
            let ghost i0 = i as int;
            proof {
                lemma_scan_to(t, i0, NEWLINE);
            }
            while i < n && text[i] != NEWLINE
                invariant
                    n == t.len(),
                    t == text@,
                    i0 <= i <= n,
                    scan_to(t, i as int, NEWLINE) == scan_to(t, i0, NEWLINE),
                decreases n - i,
            {
                i = i + 1;
            }
            continue;
        }
        if c == OPEN_PAREN {
            let ghost i0 = i as int;
            proof {
                lemma_variation_end(t, i0 + 1, 1);
            }
            let mut depth: usize = 1;
            i = i + 1;
            while i < n && depth > 0
                invariant
                    n == t.len(),
                    t == text@,
                    i0 < i <= n,
                    depth <= i,
                    variation_end(t, i as int, depth as nat) == variation_end(t, i0 + 1, 1),
                decreases n - i,
            {
                let d = text[i];
                if d == OPEN_PAREN {
                    depth = depth + 1;
                } else if d == CLOSE_PAREN {
                    depth = depth - 1;
                }
                i = i + 1;
            }
            continue;
        }
        if c == CLOSE_PAREN || c == CLOSE_BRACE {
            i = i + 1;
            continue;
        }
        let start = i;
        proof {
            lemma_word_end(t, start as int);
        }
        while i < n && !pgn_space(text[i])
            invariant
                n == t.len(),
                t == text@,
                start <= i <= n,
                word_end(t, i as int) == word_end(t, start as int),
            decreases n - i,
        {
            i = i + 1;
        }
        let tok = &text[start..i];
        assert(tok@ == t.subrange(start as int, i as int));
        if is_result(tok) {
            assert(full =~= slices_view(out@)) by {
                assert(tokens_from(t, start as int) == Seq::<Seq<u8>>::empty());
            }
            break;
        }
        if tok[0] == DOLLAR || is_move_number(tok) {
            continue;
        }
        let mut end = tok.len();
        assert(tok@.take(end as int) =~= tok@);
        while end > 0 && (tok[end - 1] == PLUS || tok[end - 1] == HASH || tok[end - 1] == BANG
            || tok[end - 1] == QUERY)
            invariant
                end <= tok@.len(),
                strip_marks(tok@.take(end as int)) == strip_marks(tok@),
            decreases end,
        {
            assert(tok@.take(end as int).drop_last() =~= tok@.take(end - 1));
            end = end - 1;
        }
        assert(tok@.take(end as int) == strip_marks(tok@)) by {
            assert(end > 0 ==> tok@.take(end as int).last() == tok@[end - 1]);
        }
        let stripped = &text[start..start + end];
        assert(stripped@ =~= tok@.take(end as int));
        if end > 0 {
            let ghost before = out@;
            out.push(stripped);
            assert(slices_view(out@) =~= slices_view(before).push(stripped@));
            assert(full =~= slices_view(out@) + tokens_from(t, i as int)) by {
                assert(tokens_from(t, start as int) == seq![stripped@] + tokens_from(t, i as int));
            }
        }
    }
    out
}

} // verus!

verus! {

proof fn lemma_strip_marks(tok: Seq<u8>)
    ensures
        strip_marks(tok).len() <= tok.len(),
        strip_marks(tok) == tok.take(strip_marks(tok).len() as int),
        strip_marks(tok).len() > 0 ==> !is_move_mark(strip_marks(tok).last()),
    decreases tok.len(),
{
    if tok.len() > 0 && is_move_mark(tok.last()) {
        lemma_strip_marks(tok.drop_last());
        let k = strip_marks(tok).len() as int;
        assert(tok.drop_last().take(k) =~= tok.take(k));
    } else {
        assert(tok.take(tok.len() as int) =~= tok);
    }
}

/// Every move token is non-empty, holds no white space, does not start
/// with `$`, and carries no trailing `+#!?` mark.
pub open spec fn is_clean_move(tok: Seq<u8>) -> bool {
    &&& tok.len() > 0
    &&& forall|k: int| 0 <= k < tok.len() ==> !is_pgn_space(#[trigger] tok[k])
    &&& tok[0] != DOLLAR
    &&& !is_move_mark(tok.last())
}

/// What the tokenizer yields are clean moves: no empty token, no white
/// space, no glyph, no check or annotation mark.
pub proof fn law_tokens_are_clean(t: Seq<u8>, i: int)
    ensures
        forall|k: int|
            0 <= k < tokens_from(t, i).len() ==> is_clean_move(#[trigger] tokens_from(t, i)[k]),
    decreases t.len() - i,
{
    if 0 <= i < t.len() {
        let c = t[i];
        if is_pgn_space(c) {
            law_tokens_are_clean(t, i + 1);
            assert(tokens_from(t, i) == tokens_from(t, i + 1));
        } else if c == OPEN_BRACE {
            lemma_scan_to(t, i, CLOSE_BRACE);
            let j = scan_to(t, i, CLOSE_BRACE);
            if j < t.len() {
                law_tokens_are_clean(t, j + 1);
                assert(tokens_from(t, i) == tokens_from(t, j + 1));
            } else {
                assert(tokens_from(t, i).len() == 0);
            }
        } else if c == SEMICOLON {
            lemma_scan_to(t, i, NEWLINE);
            law_tokens_are_clean(t, scan_to(t, i, NEWLINE));
            assert(tokens_from(t, i) == tokens_from(t, scan_to(t, i, NEWLINE)));
        } else if c == OPEN_PAREN {
            lemma_variation_end(t, i + 1, 1);
            law_tokens_are_clean(t, variation_end(t, i + 1, 1));
            assert(tokens_from(t, i) == tokens_from(t, variation_end(t, i + 1, 1)));
        } else if c == CLOSE_PAREN || c == CLOSE_BRACE {
            law_tokens_are_clean(t, i + 1);
            assert(tokens_from(t, i) == tokens_from(t, i + 1));
        } else {
            lemma_word_end(t, i);
            let e = word_end(t, i);
            let tok = t.subrange(i, e);
            law_tokens_are_clean(t, e);
            if is_result_token(tok) {
                assert(tokens_from(t, i).len() == 0);
            } else if tok[0] == DOLLAR || is_move_number_token(tok) || strip_marks(tok).len() == 0 {
                assert(tokens_from(t, i) == tokens_from(t, e));
            } else {
                let m = strip_marks(tok);
                lemma_strip_marks(tok);
                assert forall|k: int| 0 <= k < m.len() implies !is_pgn_space(#[trigger] m[k]) by {
                    assert(m[k] == tok[k]);
                    assert(tok[k] == t[i + k]);
                }
                assert(m[0] == tok[0]);
                let all = seq![m] + tokens_from(t, e);
                assert forall|k: int| 0 <= k < all.len() implies is_clean_move(#[trigger] all[k]) by {
                    if k > 0 {
                        assert(all[k] == tokens_from(t, e)[k - 1]);
                    }
                }
                assert(tokens_from(t, i) == all);
            }
        }
    }
}

/// A limit only cuts the list short: with a smaller limit one gets a
/// prefix of what a larger limit gives, and never more than the limit.
pub proof fn law_limit_truncates(t: Seq<u8>, small: int, large: int)
    requires
        0 <= small <= large,
    ensures
        extracted(t, small).len() <= small,
        extracted(t, small) == extracted(t, large).take(extracted(t, small).len() as int),
{
    let all = movetext_tokens(t);
    assert(extracted(t, small) =~= extracted(t, large).take(extracted(t, small).len() as int));
}

/// A SAN move written plainly: non-empty, without white space, not
/// opening a comment, variation or glyph, not a result or move number, and
/// without a trailing `+#!?` mark.
pub open spec fn plain_move(t: Seq<u8>) -> bool {
    &&& t.len() > 0
    &&& forall|k: int| 0 <= k < t.len() ==> !is_pgn_space(#[trigger] t[k])
    &&& t[0] != OPEN_BRACE && t[0] != SEMICOLON && t[0] != OPEN_PAREN && t[0] != CLOSE_PAREN
        && t[0] != CLOSE_BRACE && t[0] != DOLLAR
    &&& !is_result_token(t)
    &&& !is_move_number_token(t)
    &&& !is_move_mark(t.last())
}

/// The moves written one after the other, each followed by a space.
pub open spec fn spaced_moves(moves: Seq<Seq<u8>>) -> Seq<u8>
    decreases moves.len(),
{
    if moves.len() == 0 {
        seq![]
    } else {
        moves[0] + seq![32u8] + spaced_moves(moves.drop_first())
    }
}

proof fn lemma_scan_to_shift(a: Seq<u8>, b: Seq<u8>, j: int, c: u8)
    requires
        0 <= j <= b.len(),
    ensures
        scan_to(a + b, a.len() + j, c) == a.len() + scan_to(b, j, c),
    decreases b.len() - j,
{
    if j < b.len() {
        assert((a + b)[a.len() + j] == b[j]);
        if b[j] != c {
            lemma_scan_to_shift(a, b, j + 1, c);
        }
    }
}

proof fn lemma_word_end_shift(a: Seq<u8>, b: Seq<u8>, j: int)
    requires
        0 <= j <= b.len(),
    ensures
        word_end(a + b, a.len() + j) == a.len() + word_end(b, j),
    decreases b.len() - j,
{
    if j < b.len() {
        assert((a + b)[a.len() + j] == b[j]);
        if !is_pgn_space(b[j]) {
            lemma_word_end_shift(a, b, j + 1);
        }
    }
}

proof fn lemma_variation_end_shift(a: Seq<u8>, b: Seq<u8>, j: int, depth: nat)
    requires
        0 <= j <= b.len(),
    ensures
        variation_end(a + b, a.len() + j, depth) == a.len() + variation_end(b, j, depth),
    decreases b.len() - j,
{
    if j < b.len() && depth != 0 {
        assert((a + b)[a.len() + j] == b[j]);
        let next_depth: nat = if b[j] == OPEN_PAREN {
            depth + 1
        } else if b[j] == CLOSE_PAREN {
            (depth - 1) as nat
        } else {
            depth
        };
        lemma_variation_end_shift(a, b, j + 1, next_depth);
    }
}

/// What is read from position `j` of `b` does not depend on what stands
/// before `b`.
proof fn lemma_tokens_shift(a: Seq<u8>, b: Seq<u8>, j: int)
    requires
        0 <= j <= b.len(),
    ensures
        tokens_from(a + b, a.len() + j) == tokens_from(b, j),
    decreases b.len() - j,
{
    let t = a + b;
    let i = a.len() + j;
    if j < b.len() {
        assert(t[i] == b[j]);
        let c = b[j];
        if is_pgn_space(c) {
            lemma_tokens_shift(a, b, j + 1);
        } else if c == OPEN_BRACE {
            lemma_scan_to(b, j, CLOSE_BRACE);
            lemma_scan_to_shift(a, b, j, CLOSE_BRACE);
            let k = scan_to(b, j, CLOSE_BRACE);
            if k < b.len() {
                lemma_tokens_shift(a, b, k + 1);
            }
        } else if c == SEMICOLON {
            lemma_scan_to(b, j, NEWLINE);
            lemma_scan_to_shift(a, b, j, NEWLINE);
            lemma_tokens_shift(a, b, scan_to(b, j, NEWLINE));
        } else if c == OPEN_PAREN {
            lemma_variation_end(b, j + 1, 1);
            lemma_variation_end_shift(a, b, j + 1, 1);
            lemma_tokens_shift(a, b, variation_end(b, j + 1, 1));
        } else if c == CLOSE_PAREN || c == CLOSE_BRACE {
            lemma_tokens_shift(a, b, j + 1);
        } else {
            lemma_word_end(b, j);
            lemma_word_end_shift(a, b, j);
            let e = word_end(b, j);
            assert(t.subrange(i, a.len() + e) =~= b.subrange(j, e));
            lemma_tokens_shift(a, b, e);
        }
    } else {
        assert(tokens_from(t, i).len() == 0);
    }
}

/// Plain moves separated by spaces are read back one for one, in order:
/// the tokenizer neither drops, splits, merges nor alters a move.
pub proof fn law_plain_moves_read_back(moves: Seq<Seq<u8>>)
    requires
        forall|k: int| 0 <= k < moves.len() ==> plain_move(#[trigger] moves[k]),
    ensures
        movetext_tokens(spaced_moves(moves)) == moves,
    decreases moves.len(),
{
    if moves.len() > 0 {
        let x = moves[0];
        let rest = moves.drop_first();
        assert forall|k: int| 0 <= k < rest.len() implies plain_move(#[trigger] rest[k]) by {
            assert(rest[k] == moves[k + 1]);
        }
        law_plain_moves_read_back(rest);
        let head = x + seq![32u8];
        let t = spaced_moves(moves);
        assert(t == head + spaced_moves(rest));
        assert(plain_move(moves[0]));
        assert(t[0] == x[0]);
        // the first word is `x`
        lemma_word_end(t, 0);
        let e = word_end(t, 0);
        assert(t[x.len() as int] == 32u8);
        if e < x.len() {
            assert(t[e] == x[e]);
        } else if e > x.len() {
            assert(!is_pgn_space(t[x.len() as int]));
        }
        assert(e == x.len());
        assert(t.subrange(0, e) =~= x);
        assert(strip_marks(x) == x);
        assert(tokens_from(t, 0) == seq![x] + tokens_from(t, x.len() as int));
        assert(tokens_from(t, x.len() as int) == tokens_from(t, x.len() as int + 1));
        lemma_tokens_shift(head, spaced_moves(rest), 0);
        assert(seq![x] + rest =~= moves);
    }
}

} // verus!
