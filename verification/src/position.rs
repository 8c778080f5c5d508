//! Chess positions reached by replaying SAN moves or read from FEN, and
//! their Zobrist keys, through the `shakmaty` crate.

use vstd::prelude::*;
use std::collections::HashSet;
use crate::movetext::slices_view;
use crate::text::{all_ascii_digits, chars_of, is_white_space, trim_start};

verus! {

broadcast use vstd::std_specs::hash::group_hash_axioms;

#[verifier::external_type_specification]
#[verifier::external_body]
pub struct ExChess(shakmaty::Chess);

/// A standard chess position, as `shakmaty` keeps it.
pub struct GamePosition {
    chess: shakmaty::Chess,
}

/// The position after playing the SAN move `san` in `pos`, or `None` when
/// `san` does not parse or is not a unique legal move there.
pub uninterp spec fn san_played(pos: GamePosition, san: Seq<u8>) -> Option<GamePosition>;

/// The 64-bit Zobrist key of `pos` (en passant counted only when a legal
/// capture exists), as `shakmaty` computes it.
pub uninterp spec fn zobrist_key(pos: GamePosition) -> u64;

/// The standard-chess position that the FEN text `fen` describes, or
/// `None` when it does not parse or does not describe a valid position.
pub uninterp spec fn fen_setup(fen: Seq<char>) -> Option<GamePosition>;

/// Calls `San::from_ascii`, `San::to_move` and `Position::play`: plays the
/// SAN move `san` in `pos`. The contract claims only that the outcome is a
/// function of the position and the bytes (`san_played`).
#[verifier::external_body]
fn play_san(pos: &GamePosition, san: &[u8]) -> (r: Option<GamePosition>)
    ensures
        r == san_played(*pos, san@),
{
    let san = shakmaty::san::San::from_ascii(san).ok()?;
    let m = san.to_move(&pos.chess).ok()?;
    shakmaty::Position::play(pos.chess.clone(), &m).ok().map(|chess| GamePosition { chess })
}

/// Calls `ZobristHash::zobrist_hash::<Zobrist64>` with `EnPassantMode::Legal`.
/// The contract claims only that the key is a function of the position
/// (`zobrist_key`).
#[verifier::external_body]
fn position_key(pos: &GamePosition) -> (r: u64)
    ensures
        r == zobrist_key(*pos),
{
    let z: shakmaty::zobrist::Zobrist64 = shakmaty::zobrist::ZobristHash::zobrist_hash(
        &pos.chess,
        shakmaty::EnPassantMode::Legal,
    );
    z.0
}

/// The FEN of the initial position of a game of chess.
pub open spec fn standard_fen() -> Seq<char> {
    seq!['r', 'n', 'b', 'q', 'k', 'b', 'n', 'r', '/', 'p', 'p', 'p', 'p', 'p', 'p', 'p', 'p', '/', '8', '/', '8', '/', '8', '/', '8', '/', 'P', 'P', 'P', 'P', 'P', 'P', 'P', 'P', '/', 'R', 'N', 'B', 'Q', 'K', 'B', 'N', 'R', ' ', 'w', ' ', 'K', 'Q', 'k', 'q', ' ', '-', ' ', '0', ' ', '1']
}

/// The initial position of a game: the one the standard FEN describes.
pub open spec fn start_position() -> Option<GamePosition> {
    fen_setup(standard_fen())
}

/// A FEN field that the FEN parser reads as one part: non-empty, with no
/// space or `_` (both separate parts).
pub open spec fn plain_fen_field(f: Seq<char>) -> bool {
    f.len() > 0 && forall|k: int| 0 <= k < f.len() ==> #[trigger] f[k] != ' ' && f[k] != '_'
}

/// A halfmove clock or fullmove number field: one or more ASCII digits.
pub open spec fn counter_field(f: Seq<char>) -> bool {
    f.len() > 0 && all_ascii_digits(f)
}

/// Four plain fields (board, side to move, castling, en passant) followed
/// by two counter fields.
pub open spec fn fen_fields_with_counters(first: Seq<Seq<char>>, a: Seq<char>, b: Seq<char>) -> bool {
    &&& first.len() == 4
    &&& forall|k: int| 0 <= k < 4 ==> plain_fen_field(#[trigger] first[k])
    &&& counter_field(a)
    &&& counter_field(b)
}

/// The FEN text of the fields `first` followed by the counters `a` and `b`.
pub open spec fn fen_text(first: Seq<Seq<char>>, a: Seq<char>, b: Seq<char>) -> Seq<char> {
    join_with_spaces(first + seq![a, b])
}

/// Calls `Fen::from_ascii` on the UTF-8 bytes of `fen` and then
/// `Fen::into_position` with `CastlingMode::Standard`. The contract claims
/// that the outcome is a function of the text (`fen_setup`), that the
/// standard FEN describes a position (`Fen::from_ascii` reads it as
/// `Fen::default()`, the initial setup, which `Chess::from_setup` accepts),
/// and that the two counter fields change neither whether a FEN describes
/// a position nor its Zobrist key: the parser reads digit counters with
/// `btou_saturating`, which fails only on an empty or non-digit field,
/// `Chess::from_setup` only stores them, and `zobrist_hash` leaves out the
/// halfmove clock and the fullmove number.
#[verifier::external_body]
fn position_from_fen(fen: &Vec<char>) -> (r: Option<GamePosition>)
    ensures
        r == fen_setup(fen@),
        fen@ == standard_fen() ==> r is Some,
        forall|first: Seq<Seq<char>>, a: Seq<char>, b: Seq<char>, c: Seq<char>, d: Seq<char>|
            #![trigger fen_text(first, a, b), fen_text(first, c, d)]
            fen_fields_with_counters(first, a, b) && counter_field(c) && counter_field(d) && fen@
                == fen_text(first, a, b) ==> {
                &&& (fen_setup(fen_text(first, c, d)) is Some <==> r is Some)
                &&& (r matches Some(p) ==> zobrist_key(fen_setup(fen_text(first, c, d))->0)
                    == zobrist_key(p))
            },
{
    let text: String = fen.iter().collect();
    let setup = shakmaty::fen::Fen::from_ascii(text.as_bytes()).ok()?;
    setup.into_position(shakmaty::CastlingMode::Standard).ok().map(|chess| GamePosition { chess })
}

/// The initial position of a game.
pub(crate) fn standard_start() -> (r: GamePosition)
    ensures
        start_position() == Some(r),
{
    let fen: Vec<char> = vec!['r', 'n', 'b', 'q', 'k', 'b', 'n', 'r', '/', 'p', 'p', 'p', 'p', 'p', 'p', 'p', 'p', '/', '8', '/', '8', '/', '8', '/', '8', '/', 'P', 'P', 'P', 'P', 'P', 'P', 'P', 'P', '/', 'R', 'N', 'B', 'Q', 'K', 'B', 'N', 'R', ' ', 'w', ' ', 'K', 'Q', 'k', 'q', ' ', '-', ' ', '0', ' ', '1'];
    assert(fen@ =~= standard_fen());
    loop
        invariant
            fen@ == standard_fen(),
        decreases 1nat,
    {
        if let Some(p) = position_from_fen(&fen) {
            return p;
        }
    }
}

/// The position reached from `start` by playing `moves` in order, or
/// `None` when one of them cannot be played.
pub open spec fn replay(start: GamePosition, moves: Seq<Seq<u8>>) -> Option<GamePosition>
    decreases moves.len(),
{
    if moves.len() == 0 {
        Some(start)
    } else {
        match replay(start, moves.drop_last()) {
            Some(p) => san_played(p, moves.last()),
            None => None,
        }
    }
}

/// The Zobrist key of the position that `moves` reach from `start`.
pub open spec fn line_key(start: GamePosition, moves: Seq<Seq<u8>>) -> Option<u64> {
    match replay(start, moves) {
        Some(p) => Some(zobrist_key(p)),
        None => None,
    }
}

/// Whether the game `moves`, replayed from `start`, passes through one of
/// the `targets` after some ply (the positions before the first move that
/// cannot be played count; the start itself does not).
pub open spec fn reaches_target(start: GamePosition, moves: Seq<Seq<u8>>, targets: Set<u64>) -> bool {
    exists|k: int|
        1 <= k <= moves.len() && (#[trigger] replay(start, moves.take(k)) matches Some(p)
            && targets.contains(zobrist_key(p)))
}

proof fn lemma_replay_stuck(start: GamePosition, moves: Seq<Seq<u8>>, j: int, k: int)
    requires
        0 <= j <= k <= moves.len(),
        replay(start, moves.take(j)) is None,
    ensures
        replay(start, moves.take(k)) is None,
    decreases k - j,
{
    if j < k {
        lemma_replay_stuck(start, moves, j, k - 1);
        assert(moves.take(k).drop_last() =~= moves.take(k - 1));
    }
}

/// Zobrist key of the position reached by playing a SAN move sequence from
/// `start`.
pub fn moves_key_from(start: &GamePosition, moves: &[&[u8]]) -> (r: Option<u64>)
    ensures
        r == line_key(*start, slices_view(moves@)),
{
    let ghost ms = slices_view(moves@);
    let mut cur: Option<GamePosition> = None;
    let mut i: usize = 0;
    assert(ms.take(0) =~= Seq::<Seq<u8>>::empty());
    while i < moves.len()
        invariant
            i <= moves@.len() == ms.len(),
            ms == slices_view(moves@),
            match cur {
                None => i == 0,
                Some(p) => replay(*start, ms.take(i as int)) == Some(p),
            },
        decreases moves@.len() - i,
    {
        assert(ms.take(i + 1).drop_last() =~= ms.take(i as int));
        assert(ms.take(i + 1).last() == moves@[i as int]@);
        let next = match &cur {
            None => play_san(start, moves[i]),
            Some(p) => play_san(p, moves[i]),
        };
        match next {
            None => {
                proof {
                    lemma_replay_stuck(*start, ms, i + 1, ms.len() as int);
                    assert(ms.take(ms.len() as int) =~= ms);
                }
                return None;
            },
            Some(p) => {
                cur = Some(p);
            },
        }
        i = i + 1;
    }
    assert(ms.take(i as int) =~= ms);
    match &cur {
        None => Some(position_key(start)),
        Some(p) => Some(position_key(p)),
    }
}

/// Zobrist key of the position reached by playing a SAN move sequence from
/// the initial position of a game.
pub fn moves_key(moves: &[&[u8]]) -> (r: Option<u64>)
    ensures
        r == line_key(start_position()->0, slices_view(moves@)),
        moves@.len() == 0 ==> r is Some,
{
    let start = standard_start();
    proof {
        assert(slices_view(moves@).len() == 0 ==> replay(start, slices_view(moves@)) == Some(start));
    }
    moves_key_from(&start, moves)
}

/// Does this game pass through any target position within the replayed
/// plies, starting from `start`?
pub fn matches_target_from(start: &GamePosition, moves: &[&[u8]], targets: &HashSet<u64>) -> (r:
    bool)
    ensures
        r == reaches_target(*start, slices_view(moves@), targets@),
{
    let ghost ms = slices_view(moves@);
    let mut cur: Option<GamePosition> = None;
    let mut i: usize = 0;
    while i < moves.len()
        invariant
            i <= moves@.len() == ms.len(),
            ms == slices_view(moves@),
            match cur {
                None => i == 0,
                Some(p) => replay(*start, ms.take(i as int)) == Some(p),
            },
            forall|k: int|
                1 <= k <= i ==> !(#[trigger] replay(*start, ms.take(k)) matches Some(p)
                    && targets@.contains(zobrist_key(p))),
        decreases moves@.len() - i,
    {
        assert(ms.take(i + 1).drop_last() =~= ms.take(i as int));
        assert(ms.take(i + 1).last() == moves@[i as int]@);
        assert(ms.take(0) =~= Seq::<Seq<u8>>::empty());
        let next = match &cur {
            None => play_san(start, moves[i]),
            Some(p) => play_san(p, moves[i]),
        };
        match next {
            None => {
                assert forall|k: int| 1 <= k <= ms.len() implies !(#[trigger] replay(
                    *start,
                    ms.take(k),
                ) matches Some(p) && targets@.contains(zobrist_key(p))) by {
                    if k > i {
                        lemma_replay_stuck(*start, ms, i + 1, k);
                    }
                }
                return false;
            },
            Some(p) => {
                let key = position_key(&p);
                if targets.contains(&key) {
                    assert(replay(*start, ms.take(i + 1)) == Some(p));
                    return true;
                }
                cur = Some(p);
            },
        }
        i = i + 1;
    }
    false
}

/// Does this game pass through any target position within the replayed
/// plies, starting from the initial position? Never, for a game without
/// moves or an empty target set.
pub fn matches_target(moves: &[&[u8]], targets: &HashSet<u64>) -> (r: bool)
    ensures
        r == reaches_target(start_position()->0, slices_view(moves@), targets@),
        moves@.len() == 0 ==> !r,
        targets@ == Set::<u64>::empty() ==> !r,
{
    let start = standard_start();
    matches_target_from(&start, moves, targets)
}

} // verus!

verus! {

/// Index of the first white-space character of `s`, or `s.len()`.
pub open spec fn space_end(s: Seq<char>) -> int
    decreases s.len(),
{
    if s.len() == 0 {
        0
    } else if is_white_space(s[0]) {
        0
    } else {
        1 + space_end(s.drop_first())
    }
}

pub proof fn lemma_space_end(s: Seq<char>)
    ensures
        0 <= space_end(s) <= s.len(),
        forall|k: int| 0 <= k < space_end(s) ==> !is_white_space(#[trigger] s[k]),
        space_end(s) < s.len() ==> is_white_space(s[space_end(s)]),
    decreases s.len(),
{
    if s.len() > 0 && !is_white_space(s[0]) {
        lemma_space_end(s.drop_first());
        assert forall|k: int| 0 <= k < space_end(s) implies !is_white_space(#[trigger] s[k]) by {
            if k > 0 {
                assert(s[k] == s.drop_first()[k - 1]);
            }
        }
    }
}

pub proof fn lemma_trim_start(s: Seq<char>)
    ensures
        trim_start(s).len() <= s.len(),
        trim_start(s) == s.skip(s.len() - trim_start(s).len()),
        trim_start(s).len() > 0 ==> !is_white_space(trim_start(s)[0]),
        forall|k: int|
            0 <= k < s.len() - trim_start(s).len() ==> is_white_space(#[trigger] s[k]),
    decreases s.len(),
{
    if s.len() > 0 && is_white_space(s[0]) {
        lemma_trim_start(s.drop_first());
        assert(s.drop_first().skip(s.drop_first().len() - trim_start(s).len()) =~= s.skip(
            s.len() - trim_start(s).len(),
        ));
        assert forall|k: int| 0 <= k < s.len() - trim_start(s).len() implies is_white_space(
            #[trigger] s[k],
        ) by {
            if k > 0 {
                assert(s[k] == s.drop_first()[k - 1]);
            }
        }
    } else {
        assert(s.skip(0) =~= s);
    }
}

/// The white-space separated fields of `s`, in order (what
/// `str::split_whitespace` yields).
pub open spec fn ws_fields(s: Seq<char>) -> Seq<Seq<char>>
    decreases s.len(),
{
    let t = trim_start(s);
    if t.len() == 0 {
        seq![]
    } else {
        proof {
            lemma_trim_start(s);
            lemma_space_end(t);
        }
        let e = space_end(t);
        seq![t.take(e)] + ws_fields(t.skip(e))
    }
}

/// The fields of a FEN with the missing ones filled in: a halfmove clock of
/// `0` as the fifth field, `1` everywhere else, up to six fields.
pub open spec fn padded_fen_fields(f: Seq<Seq<char>>) -> Seq<Seq<char>> {
    if f.len() >= 6 {
        f
    } else {
        Seq::new(
            6,
            |k: int|
                if k < f.len() {
                    f[k]
                } else if k == 4 {
                    seq!['0']
                } else {
                    seq!['1']
                },
        )
    }
}

/// The fields joined with single spaces.
pub open spec fn join_with_spaces(f: Seq<Seq<char>>) -> Seq<char>
    decreases f.len(),
{
    if f.len() == 0 {
        seq![]
    } else if f.len() == 1 {
        f[0]
    } else {
        join_with_spaces(f.drop_last()) + seq![' '] + f.last()
    }
}

/// A target FEN line as it is handed to the FEN parser: its fields,
/// padded to six, joined with single spaces.
pub open spec fn normalized_fen(line: Seq<char>) -> Seq<char> {
    join_with_spaces(padded_fen_fields(ws_fields(line)))
}

/// The Zobrist key of the position that a target FEN line describes.
pub open spec fn spec_fen_key(line: Seq<char>) -> Option<u64> {
    match fen_setup(normalized_fen(line)) {
        Some(p) => Some(zobrist_key(p)),
        None => None,
    }
}

/// The pieces `s[lo..hi]` that `ranges` mark.
pub open spec fn range_texts(s: Seq<char>, ranges: Seq<(usize, usize)>) -> Seq<Seq<char>> {
    ranges.map_values(|r: (usize, usize)| s.subrange(r.0 as int, r.1 as int))
}

/// Bounds of the white-space separated fields of `s[lo..hi]`.
fn field_ranges(s: &[char], lo: usize, hi: usize) -> (r: Vec<(usize, usize)>)
    requires
        lo <= hi <= s@.len(),
    ensures
        range_texts(s@, r@) == ws_fields(s@.subrange(lo as int, hi as int)),
        forall|k: int| 0 <= k < r@.len() ==> (#[trigger] r@[k]).0 <= r@[k].1 <= hi,
{
    let mut out: Vec<(usize, usize)> = Vec::new();
    let mut i = lo;
    while i < hi
        invariant
            lo <= i <= hi <= s@.len(),
            ws_fields(s@.subrange(lo as int, hi as int)) == range_texts(s@, out@) + ws_fields(
                s@.subrange(i as int, hi as int),
            ),
            forall|k: int| 0 <= k < out@.len() ==> (#[trigger] out@[k]).0 <= out@[k].1 <= hi,
        decreases hi - i,
    {
        let ghost u = s@.subrange(i as int, hi as int);
        if crate::text::white_space(s[i]) {
            assert(u.drop_first() =~= s@.subrange(i + 1, hi as int));
            assert(trim_start(u) == trim_start(u.drop_first()));
            assert(ws_fields(u) == ws_fields(u.drop_first()));
            i = i + 1;
        } else {
            let start = i;
            while i < hi && !crate::text::white_space(s[i])
                invariant
                    start <= i <= hi <= s@.len(),
                    forall|k: int| start <= k < i ==> !is_white_space(#[trigger] s@[k]),
                decreases hi - i,
            {
                i = i + 1;
            }
            proof {
                assert(trim_start(u) == u);
                lemma_space_end(u);
                let e = space_end(u);
                if e < i - start {
                    assert(u[e] == s@[start + e]);
                } else if e > i - start {
                    assert(u[i - start] == s@[i as int]);
                }
                assert(e == i - start);
                assert(u.take(e) =~= s@.subrange(start as int, i as int));
                assert(u.skip(e) =~= s@.subrange(i as int, hi as int));
            }
            let ghost before = out@;
            out.push((start, i));
            assert(range_texts(s@, out@) =~= range_texts(s@, before) + seq![
                s@.subrange(start as int, i as int),
            ]);
        }
    }
    assert(ws_fields(s@.subrange(i as int, hi as int)) =~= Seq::<Seq<char>>::empty()) by {
        assert(s@.subrange(i as int, hi as int).len() == 0);
    }
    assert(range_texts(s@, out@) + Seq::<Seq<char>>::empty() =~= range_texts(s@, out@));
    out
}

/// The text of a target FEN line (`s[lo..hi]`) as the FEN parser gets it.
fn normalize_fen(s: &[char], lo: usize, hi: usize) -> (r: Vec<char>)
    requires
        lo <= hi <= s@.len(),
    ensures
        r@ == normalized_fen(s@.subrange(lo as int, hi as int)),
{
    let fields = field_ranges(s, lo, hi);
    let ghost f = range_texts(s@, fields@);
    let ghost p = padded_fen_fields(f);
    let nf = fields.len();
    let total = if nf < 6 {
        6
    } else {
        nf
    };
    let mut out: Vec<char> = Vec::new();
    let mut k: usize = 0;
    assert(p.len() == total);
    assert(p.take(0) =~= Seq::<Seq<char>>::empty());
    while k < total
        invariant
            k <= total == p.len(),
            nf == fields@.len() == f.len(),
            f == range_texts(s@, fields@),
            p == padded_fen_fields(f),
            forall|m: int| 0 <= m < fields@.len() ==> (#[trigger] fields@[m]).0 <= fields@[m].1 <= hi,
            hi <= s@.len(),
            out@ == join_with_spaces(p.take(k as int)),
        decreases total - k,
    {
        let ghost before = out@;
        if k > 0 {
            out.push(' ');
        }
        let ghost mid = out@;
        let ghost piece: Seq<char> = p[k as int];
        if k < nf {
            let (a, b) = fields[k];
            assert(piece == s@.subrange(a as int, b as int));
            let mut j = a;
            while j < b
                invariant
                    a <= j <= b <= s@.len(),
                    out@ == mid + s@.subrange(a as int, j as int),
                decreases b - j,
            {
                out.push(s[j]);
                assert(s@.subrange(a as int, j + 1) =~= s@.subrange(a as int, j as int) + seq![
                    s@[j as int],
                ]);
                j = j + 1;
            }
        } else if k == 4 {
            out.push('0');
            assert(out@ =~= mid + piece);
        } else {
            out.push('1');
            assert(out@ =~= mid + piece);
        }
        assert(out@ =~= mid + piece);
        proof {
            let t1 = p.take(k + 1);
            assert(t1.last() == piece);
            if k > 0 {
                assert(t1.drop_last() =~= p.take(k as int));
                assert(out@ =~= before + seq![' '] + piece);
            } else {
                assert(out@ =~= piece);
            }
        }
        k = k + 1;
    }
    assert(p.take(total as int) =~= p);
    out
}

/// Zobrist key of a position given as a FEN. Move counters are optional and
/// ignored.
pub fn fen_key(line: &str) -> (r: Option<u64>)
    ensures
        r == spec_fen_key(line@),
        forall|other: Seq<char>| same_but_counters(line@, other) ==> #[trigger] spec_fen_key(other)
            == r,
{
    let chars = chars_of(line);
    let n = chars.len();
    assert(chars@.subrange(0, n as int) =~= chars@);
    fen_key_in(chars.as_slice(), 0, n)
}

impl GamePosition {
    /// The position a FEN line describes (counters optional), or `None`
    /// when it describes none.
    pub fn from_fen(line: &str) -> (r: Option<GamePosition>)
        ensures
            r == fen_setup(normalized_fen(line@)),
    {
        let chars = chars_of(line);
        let n = chars.len();
        assert(chars@.subrange(0, n as int) =~= chars@);
        let normalized = normalize_fen(chars.as_slice(), 0, n);
        position_from_fen(&normalized)
    }
}

/// The fields of a target FEN line with four plain fields and either no
/// counters or two.
pub open spec fn counter_variant_fields(f: Seq<Seq<char>>) -> bool {
    &&& (f.len() == 4 || (f.len() == 6 && counter_field(f[4]) && counter_field(f[5])))
    &&& forall|k: int| 0 <= k < 4 ==> plain_fen_field(#[trigger] f[k])
}

/// Two target FEN lines that differ at most in their move counters
/// (present or not, with any digits).
pub open spec fn same_but_counters(x: Seq<char>, y: Seq<char>) -> bool {
    &&& counter_variant_fields(ws_fields(x))
    &&& counter_variant_fields(ws_fields(y))
    &&& ws_fields(x).take(4) == ws_fields(y).take(4)
}

proof fn lemma_padded_counters(f: Seq<Seq<char>>)
    requires
        counter_variant_fields(f),
    ensures
        ({
            let p = padded_fen_fields(f);
            &&& p == f.take(4) + seq![p[4], p[5]]
            &&& fen_fields_with_counters(f.take(4), p[4], p[5])
        }),
{
    let p = padded_fen_fields(f);
    assert(p =~= f.take(4) + seq![p[4], p[5]]);
    if f.len() == 4 {
        assert(p[4] == seq!['0']);
        assert(p[5] == seq!['1']);
        assert(all_ascii_digits(seq!['0']));
        assert(all_ascii_digits(seq!['1']));
    }
    assert forall|k: int| 0 <= k < 4 implies plain_fen_field(#[trigger] f.take(4)[k]) by {
        assert(f.take(4)[k] == f[k]);
    }
}

/// `fen_key` of the line `s[lo..hi]`. Lines that differ only in their move
/// counters get the same answer.
pub fn fen_key_in(s: &[char], lo: usize, hi: usize) -> (r: Option<u64>)
    requires
        lo <= hi <= s@.len(),
    ensures
        r == spec_fen_key(s@.subrange(lo as int, hi as int)),
        forall|other: Seq<char>|
            same_but_counters(s@.subrange(lo as int, hi as int), other) ==> #[trigger] spec_fen_key(
                other,
            ) == r,
{
    let ghost line = s@.subrange(lo as int, hi as int);
    let normalized = normalize_fen(s, lo, hi);
    let found = position_from_fen(&normalized);
    let r = match &found {
        Some(p) => Some(position_key(p)),
        None => None,
    };
    assert forall|other: Seq<char>| same_but_counters(line, other) implies #[trigger] spec_fen_key(
        other,
    ) == r by {
        let fx = ws_fields(line);
        let fy = ws_fields(other);
        lemma_padded_counters(fx);
        lemma_padded_counters(fy);
        let first = fx.take(4);
        let px = padded_fen_fields(fx);
        let py = padded_fen_fields(fy);
        assert(normalized@ == fen_text(first, px[4], px[5]));
        assert(normalized_fen(other) == fen_text(first, py[4], py[5]));
    }
    r
}

proof fn lemma_trim_start_concat(s: Seq<char>, t: Seq<char>)
    ensures
        trim_start(s).len() > 0 ==> trim_start(s + t) == trim_start(s) + t,
        trim_start(s).len() == 0 ==> trim_start(s + t) == trim_start(t),
    decreases s.len(),
{
    if s.len() == 0 {
        assert(s + t =~= t);
    } else {
        assert((s + t)[0] == s[0]);
        if is_white_space(s[0]) {
            assert((s + t).drop_first() =~= s.drop_first() + t);
            lemma_trim_start_concat(s.drop_first(), t);
        }
    }
}

proof fn lemma_space_end_concat(u: Seq<char>, t: Seq<char>)
    requires
        t.len() == 0 || is_white_space(t[0]),
    ensures
        space_end(u + t) == space_end(u),
    decreases u.len(),
{
    if u.len() == 0 {
        assert(u + t =~= t);
    } else {
        assert((u + t)[0] == u[0]);
        if !is_white_space(u[0]) {
            assert((u + t).drop_first() =~= u.drop_first() + t);
            lemma_space_end_concat(u.drop_first(), t);
        }
    }
}

/// Fields do not run across a white-space boundary: the fields of `s`
/// followed by `t` are those of `s` and then those of `t`, when `t` starts
/// with white space (or is empty).
pub proof fn lemma_ws_fields_concat(s: Seq<char>, t: Seq<char>)
    requires
        t.len() == 0 || is_white_space(t[0]),
    ensures
        ws_fields(s + t) == ws_fields(s) + ws_fields(t),
    decreases s.len(),
{
    lemma_trim_start(s);
    lemma_trim_start_concat(s, t);
    let ts = trim_start(s);
    if ts.len() == 0 {
        assert(ws_fields(s) =~= Seq::<Seq<char>>::empty());
        assert(ws_fields(s + t) == ws_fields(t));
        assert(ws_fields(s) + ws_fields(t) =~= ws_fields(t));
    } else {
        lemma_space_end(ts);
        lemma_space_end_concat(ts, t);
        let e = space_end(ts);
        assert((ts + t).take(e) =~= ts.take(e));
        assert((ts + t).skip(e) =~= ts.skip(e) + t);
        lemma_ws_fields_concat(ts.skip(e), t);
        assert(ws_fields(s) == seq![ts.take(e)] + ws_fields(ts.skip(e)));
        assert(ws_fields(s + t) == seq![ts.take(e)] + ws_fields(ts.skip(e) + t));
        assert(ws_fields(s + t) =~= ws_fields(s) + ws_fields(t));
    }
}

/// The counters of a FEN are optional: a line of four fields is read as if
/// `0 1` were written after it.
pub proof fn law_fen_counters_optional(line: Seq<char>)
    requires
        ws_fields(line).len() == 4,
    ensures
        normalized_fen(line) == normalized_fen(line + seq![' ', '0', ' ', '1']),
{
    let tail = seq![' ', '0', ' ', '1'];
    lemma_ws_fields_concat(line, tail);
    let t1 = seq!['0', ' ', '1'];
    let t2 = seq![' ', '1'];
    let t3 = seq!['1'];
    assert(tail.drop_first() =~= t1);
    assert(trim_start(t1) == t1);
    assert(trim_start(tail) == t1);
    assert(t1.drop_first() =~= t2);
    assert(space_end(t2) == 0);
    assert(space_end(t1) == 1);
    assert(t1.take(1) =~= seq!['0']);
    assert(t1.skip(1) =~= t2);
    assert(t2.drop_first() =~= t3);
    assert(trim_start(t3) == t3);
    assert(trim_start(t2) == t3);
    assert(t3.drop_first() =~= Seq::<char>::empty());
    assert(space_end(t3.drop_first()) == 0);
    assert(space_end(t3) == 1);
    assert(t3.take(1) =~= t3);
    assert(t3.skip(1) =~= Seq::<char>::empty());
    assert(trim_start(Seq::<char>::empty()) == Seq::<char>::empty());
    assert(ws_fields(Seq::<char>::empty()) =~= Seq::<Seq<char>>::empty());
    assert(ws_fields(t3) =~= seq![t3]);
    assert(ws_fields(t2) == ws_fields(t3));
    assert(ws_fields(t1) =~= seq![seq!['0']] + seq![t3]);
    assert(ws_fields(tail) == ws_fields(t1));
    let f = ws_fields(line);
    assert(padded_fen_fields(f) =~= f + seq![seq!['0'], seq!['1']]);
    assert(ws_fields(line + tail) =~= f + seq![seq!['0'], seq!['1']]);
}

/// Whether `f` is a non-empty field without white space.
pub open spec fn solid_field(f: Seq<char>) -> bool {
    f.len() > 0 && forall|k: int| 0 <= k < f.len() ==> !is_white_space(#[trigger] f[k])
}

proof fn lemma_ws_fields_solid(f: Seq<char>)
    requires
        solid_field(f),
    ensures
        ws_fields(f) == seq![f],
{
    assert(trim_start(f) == f);
    lemma_space_end(f);
    let e = space_end(f);
    if e < f.len() {
        assert(is_white_space(f[e]));
    }
    assert(f.take(e) =~= f);
    assert(f.skip(e) =~= Seq::<char>::empty());
    assert(trim_start(Seq::<char>::empty()) == Seq::<char>::empty());
    assert(ws_fields(Seq::<char>::empty()) =~= Seq::<Seq<char>>::empty());
    assert(ws_fields(f) =~= seq![f]);
}

/// Fields joined with single spaces split back into the same fields.
pub proof fn lemma_ws_fields_join(f: Seq<Seq<char>>)
    requires
        forall|k: int| 0 <= k < f.len() ==> solid_field(#[trigger] f[k]),
    ensures
        ws_fields(join_with_spaces(f)) == f,
    decreases f.len(),
{
    if f.len() == 0 {
        assert(trim_start(Seq::<char>::empty()) == Seq::<char>::empty());
        assert(ws_fields(Seq::<char>::empty()) =~= Seq::<Seq<char>>::empty());
    } else if f.len() == 1 {
        lemma_ws_fields_solid(f[0]);
        assert(seq![f[0]] =~= f);
    } else {
        let d = f.drop_last();
        assert forall|k: int| 0 <= k < d.len() implies solid_field(#[trigger] d[k]) by {
            assert(d[k] == f[k]);
        }
        lemma_ws_fields_join(d);
        let last = f.last();
        let tail = seq![' '] + last;
        assert(join_with_spaces(f) =~= join_with_spaces(d) + tail);
        assert(tail[0] == ' ');
        lemma_ws_fields_concat(join_with_spaces(d), tail);
        assert(tail.drop_first() =~= last);
        assert(trim_start(tail) == trim_start(last));
        lemma_ws_fields_solid(last);
        assert(ws_fields(tail) == ws_fields(last));
        assert(d + seq![last] =~= f);
    }
}

/// A FEN written in full, six fields with single spaces, is handed to the
/// parser exactly as written: its key is that of the position the text
/// itself describes (side to move, castling and en passant included).
pub proof fn law_full_fen_handed_over(f: Seq<Seq<char>>)
    requires
        f.len() == 6,
        forall|k: int| 0 <= k < f.len() ==> solid_field(#[trigger] f[k]),
    ensures
        spec_fen_key(join_with_spaces(f)) == match fen_setup(join_with_spaces(f)) {
            Some(p) => Some(zobrist_key(p)),
            None => None,
        },
{
    lemma_ws_fields_join(f);
}

/// A FEN of four fields is handed to the parser as written, followed by
/// the counters `0 1`.
pub proof fn law_short_fen_handed_over(f: Seq<Seq<char>>)
    requires
        f.len() == 4,
        forall|k: int| 0 <= k < f.len() ==> solid_field(#[trigger] f[k]),
    ensures
        spec_fen_key(join_with_spaces(f)) == match fen_setup(
            join_with_spaces(f) + seq![' ', '0', ' ', '1'],
        ) {
            Some(p) => Some(zobrist_key(p)),
            None => None,
        },
{
    lemma_ws_fields_join(f);
    let g = f + seq![seq!['0'], seq!['1']];
    assert(padded_fen_fields(f) =~= g);
    assert(g.drop_last() =~= f + seq![seq!['0']]);
    let h = f + seq![seq!['0']];
    assert(h.drop_last() =~= f);
    assert(h.last() == seq!['0']);
    assert(g.last() == seq!['1']);
    assert(join_with_spaces(h) == join_with_spaces(f) + seq![' '] + seq!['0']);
    assert(join_with_spaces(g) == join_with_spaces(h) + seq![' '] + seq!['1']);
    assert(join_with_spaces(g) =~= join_with_spaces(f) + seq![' ', '0', ' ', '1']);
}

} // verus!
