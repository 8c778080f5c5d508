//! Reading a targets file: each non-comment line is a move sequence or a
//! FEN, turned into the Zobrist key of the position it names.

use vstd::prelude::*;
use vstd::string::{StrSliceExecFns, StringSliceAdditionalSpecFns};
use vstd::utf8::encode_utf8;
use std::collections::HashSet;
use crate::movetext::{extract_moves, extracted, movetext_tokens};
use crate::position::{
    fen_key_in, line_key, moves_key_from, spec_fen_key, start_position, GamePosition,
};
use crate::text::{chars_of, find_char, find_in, trim, trim_bounds};

verus! {

broadcast use vstd::std_specs::hash::group_hash_axioms, vstd::string::group_string_axioms;

/// The lines of `s` as `str::lines` gives them: split at `\n`, a `\r`
/// right before the `\n` dropped, no empty line after a final `\n`.
pub open spec fn text_lines(s: Seq<char>) -> Seq<Seq<char>>
    decreases s.len(),
{
    if s.len() == 0 {
        seq![]
    } else {
        let p = find_char(s, '\n');
        if p < s.len() {
            let line = s.take(p);
            let line = if line.len() > 0 && line.last() == '\r' {
                line.drop_last()
            } else {
                line
            };
            proof {
                crate::text::lemma_find_char(s, '\n');
            }
            seq![line] + text_lines(s.skip(p + 1))
        } else {
            seq![s]
        }
    }
}

/// What has been read of a targets file so far: the keys of the target
/// positions, the length of the longest move line (in plies), whether a
/// FEN was seen, and the lines that could not be turned into a position.
#[verifier::ext_equal]
pub struct TargetsView {
    pub keys: Set<u64>,
    pub move_depth: nat,
    pub has_fen: bool,
    pub rejected: Seq<Seq<char>>,
}

/// Whether a line (already trimmed) is skipped: empty, or a `#` comment.
pub open spec fn is_skipped_line(line: Seq<char>) -> bool {
    line.len() == 0 || line[0] == '#'
}

/// Whether a line is a FEN: it holds a `/` rank separator, which a move
/// line never does.
pub open spec fn is_fen_line(line: Seq<char>) -> bool {
    find_char(line, '/') < line.len()
}

/// The moves of a move line, as the movetext tokenizer reads its bytes.
pub open spec fn line_moves(line: Seq<char>) -> Seq<Seq<u8>> {
    extracted(encode_utf8(line), usize::MAX as int)
}

/// The key of the position a (trimmed, not skipped) line names: a FEN's,
/// or that of the position its moves reach from `start`.
pub open spec fn target_key(start: GamePosition, line: Seq<char>) -> Option<u64> {
    if is_fen_line(line) {
        spec_fen_key(line)
    } else {
        line_key(start, line_moves(line))
    }
}

/// `state` after reading the raw line `raw`, moves replayed from `start`:
/// a FEN line sets the FEN flag, a move line may raise the move depth, and
/// the line's key is added, or the line is rejected when it has none.
pub open spec fn add_target_line(start: GamePosition, state: TargetsView, raw: Seq<char>) -> TargetsView {
    let line = trim(raw);
    if is_skipped_line(line) {
        state
    } else {
        let depth = if !is_fen_line(line) && line_moves(line).len() > state.move_depth {
            line_moves(line).len()
        } else {
            state.move_depth
        };
        let has_fen = state.has_fen || is_fen_line(line);
        match target_key(start, line) {
            Some(k) => TargetsView {
                keys: state.keys.insert(k),
                move_depth: depth,
                has_fen,
                rejected: state.rejected,
            },
            None => TargetsView {
                keys: state.keys,
                move_depth: depth,
                has_fen,
                rejected: state.rejected.push(line),
            },
        }
    }
}

/// `state` after reading `lines` in order.
pub open spec fn add_target_lines(
    start: GamePosition,
    state: TargetsView,
    lines: Seq<Seq<char>>,
) -> TargetsView
    decreases lines.len(),
{
    if lines.len() == 0 {
        state
    } else {
        add_target_lines(start, add_target_line(start, state, lines[0]), lines.drop_first())
    }
}

/// Nothing read yet.
pub open spec fn no_targets() -> TargetsView {
    TargetsView { keys: Set::empty(), move_depth: 0, has_fen: false, rejected: seq![] }
}

/// What a targets file with the text `s` yields, moves replayed from `start`.
pub open spec fn targets_of_text(start: GamePosition, s: Seq<char>) -> TargetsView {
    add_target_lines(start, no_targets(), text_lines(s))
}

/// The target positions of a targets file.
pub struct Targets {
    /// Zobrist keys of the target positions.
    pub keys: HashSet<u64>,
    /// Longest move line, in plies.
    pub move_depth: usize,
    /// Whether some line was a FEN.
    pub has_fen: bool,
}

/// The view of what has been read, with the lines rejected so far.
pub open spec fn targets_view(t: &Targets, rejected: Seq<String>) -> TargetsView {
    TargetsView {
        keys: t.keys@,
        move_depth: t.move_depth as nat,
        has_fen: t.has_fen,
        rejected: rejected.map_values(|r: String| r@),
    }
}

/// Reads the text of a targets file, replaying move lines from `start`.
/// Returns the targets and the lines that could not be read, in order.
pub fn targets_from_text_at(content: &str, start: &GamePosition) -> (r: (Targets, Vec<String>))
    ensures
        targets_view(&r.0, r.1@) == targets_of_text(*start, content@),
{
    let s = chars_of(content);
    let n = s.len();
    let mut t = Targets { keys: HashSet::new(), move_depth: 0, has_fen: false };
    let mut rejected: Vec<String> = Vec::new();
    let mut i: usize = 0;
    assert(s@.skip(0) =~= s@);
    assert(targets_view(&t, rejected@) =~= no_targets());
    while i < n
        invariant
            i <= n == s@.len(),
            s@ == content@,
            targets_of_text(*start, content@) == add_target_lines(
                *start,
                targets_view(&t, rejected@),
                text_lines(s@.skip(i as int)),
            ),
        decreases n - i,
    {
        let ghost rest = s@.skip(i as int);
        let p = find_in(s.as_slice(), i, n, '\n');
        assert(rest =~= s@.subrange(i as int, n as int));
        let mut e = p;
        if p < n && e > i && s[e - 1] == '\r' {
            e = e - 1;
        }
        let ghost raw = if p < n {
            let l = rest.take(p - i);
            if l.len() > 0 && l.last() == '\r' {
                l.drop_last()
            } else {
                l
            }
        } else {
            rest
        };
        assert(raw =~= s@.subrange(i as int, e as int));
        let (a, b) = trim_bounds(s.as_slice(), i, e);
        let ghost line = trim(raw);
        assert(line == s@.subrange(a as int, b as int));
        let ghost before = targets_view(&t, rejected@);
        if a == b || s[a] == '#' {
        } else if find_in(s.as_slice(), a, b, '/') < b {
            t.has_fen = true;
            match fen_key_in(s.as_slice(), a, b) {
                Some(k) => {
                    t.keys.insert(k);
                },
                None => {
                    let text = content.substring_char(a, b).to_owned();
                    let ghost r0 = rejected@;
                    rejected.push(text);
                    assert(rejected@.map_values(|r: String| r@) =~= r0.map_values(|r: String| r@).push(line));
                },
            }
        } else {
            let line_str = content.substring_char(a, b);
            let moves = extract_moves(line_str.as_bytes(), usize::MAX);
            if moves.len() > t.move_depth {
                t.move_depth = moves.len();
            }
            match moves_key_from(start, moves.as_slice()) {
                Some(k) => {
                    t.keys.insert(k);
                },
                None => {
                    let text = line_str.to_owned();
                    let ghost r0 = rejected@;
                    rejected.push(text);
                    assert(rejected@.map_values(|r: String| r@) =~= r0.map_values(|r: String| r@).push(line));
                },
            }
        }
        proof {
            assert(targets_view(&t, rejected@) =~= add_target_line(*start, before, raw));
            if p < n {
                assert(rest.skip(p - i + 1) =~= s@.skip(p + 1));
                assert(text_lines(rest) == seq![raw] + text_lines(s@.skip(p + 1)));
                assert((seq![raw] + text_lines(s@.skip(p + 1))).drop_first() =~= text_lines(
                    s@.skip(p + 1),
                ));
            } else {
                assert(text_lines(rest) == seq![raw]);
                assert(s@.skip(n as int) =~= Seq::<char>::empty());
                assert(seq![raw].drop_first() =~= text_lines(s@.skip(n as int)));
            }
        }
        i = if p < n {
            p + 1
        } else {
            n
        };
    }
    (t, rejected)
}

} // verus!

verus! {

/// Reads the text of a targets file, replaying move lines from the initial
/// position of a game. Returns the targets and the lines that could not be
/// read, in order.
pub fn targets_from_text(content: &str) -> (r: (Targets, Vec<String>))
    ensures
        targets_view(&r.0, r.1@) == targets_of_text(start_position()->0, content@),
{
    let start = crate::position::standard_start();
    targets_from_text_at(content, &start)
}

/// How many plies of each game to search: with FEN targets, the whole game
/// unless `max_ply` caps it (never below the longest move line); with move
/// lines only, `max_ply` or else the longest move line.
pub open spec fn spec_search_limit(has_fen: bool, move_depth: usize, max_ply: Option<usize>) -> usize {
    if has_fen {
        match max_ply {
            Some(p) => if p >= move_depth {
                p
            } else {
                move_depth
            },
            None => usize::MAX,
        }
    } else {
        match max_ply {
            Some(p) => p,
            None => move_depth,
        }
    }
}

/// How far into each game the search replays.
pub fn search_limit(has_fen: bool, move_depth: usize, max_ply: Option<usize>) -> (r: usize)
    ensures
        r == spec_search_limit(has_fen, move_depth, max_ply),
{
    if has_fen {
        match max_ply {
            Some(p) => if p >= move_depth {
                p
            } else {
                move_depth
            },
            None => usize::MAX,
        }
    } else {
        match max_ply {
            Some(p) => p,
            None => move_depth,
        }
    }
}

/// Without a cap, FEN targets are searched through the whole game and move
/// lines only as deep as the longest one; a cap never cuts a move line
/// short when FENs are present.
pub proof fn law_search_depth(has_fen: bool, move_depth: usize, max_ply: Option<usize>)
    ensures
        max_ply is None ==> spec_search_limit(has_fen, move_depth, max_ply) == if has_fen {
            usize::MAX
        } else {
            move_depth
        },
        has_fen ==> spec_search_limit(has_fen, move_depth, max_ply) >= move_depth,
{
}

/// Blank lines and `#` comments are ignored.
pub proof fn law_comment_lines_ignored(start: GamePosition, state: TargetsView, raw: Seq<char>)
    requires
        is_skipped_line(trim(raw)),
    ensures
        add_target_line(start, state, raw) == state,
{
}

/// A line that is read adds exactly its own key, or is rejected when it
/// names no position; a FEN line leaves the move depth alone, a move line
/// leaves the FEN flag alone, and the depth never shrinks.
pub proof fn law_target_line_effect(start: GamePosition, state: TargetsView, raw: Seq<char>)
    requires
        !is_skipped_line(trim(raw)),
    ensures
        ({
            let after = add_target_line(start, state, raw);
            let line = trim(raw);
            &&& match target_key(start, line) {
                Some(k) => after.keys == state.keys.insert(k) && after.rejected == state.rejected,
                None => after.keys == state.keys && after.rejected == state.rejected.push(line),
            }
            &&& after.move_depth >= state.move_depth
            &&& (is_fen_line(line) ==> after.move_depth == state.move_depth && after.has_fen)
            &&& (!is_fen_line(line) ==> after.has_fen == state.has_fen)
        }),
{
}

/// After a move line the move depth is the larger of the depth before and
/// the number of moves on that line, however long the line is; a FEN line
/// or a skipped line leaves it as it was.
pub proof fn law_move_depth_is_longest_line(start: GamePosition, state: TargetsView, raw: Seq<char>)
    ensures
        ({
            let line = trim(raw);
            let after = add_target_line(start, state, raw);
            &&& (!is_skipped_line(line) && !is_fen_line(line)) ==> after.move_depth == if line_moves(
                line,
            ).len() > state.move_depth {
                line_moves(line).len()
            } else {
                state.move_depth
            }
            &&& (!is_skipped_line(line) && !is_fen_line(line)) ==> after.move_depth >= line_moves(
                line,
            ).len()
            &&& (is_skipped_line(line) || is_fen_line(line)) ==> after.move_depth
                == state.move_depth
        }),
{
}

/// The moves of a move line are the first `usize::MAX` tokens of its UTF-8
/// bytes (all of them, on any line that fits in memory).
pub proof fn law_line_moves(line: Seq<char>)
    ensures
        line_moves(line) == movetext_tokens(encode_utf8(line)).take(
            if movetext_tokens(encode_utf8(line)).len() > usize::MAX {
                usize::MAX as int
            } else {
                movetext_tokens(encode_utf8(line)).len() as int
            },
        ),
{
}

} // verus!
