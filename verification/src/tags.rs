//! PGN tag values and the time-control floor shared by all three filters.

use vstd::prelude::*;
use vstd::utf8::{
    decode_utf8, encode_utf8, encode_utf8_decode_utf8, encode_utf8_valid_utf8, valid_utf8,
};
use crate::movetext::{scan_to, lemma_scan_to};
use crate::text::{
    all_ascii_digits, decode_chars, digits_value, find_char, find_in, is_ascii_digit,
    is_white_space, lemma_find_char_unique, parse_decimal, parse_decimal_u32, trim, trim_bounds,
    trim_end, trim_start, unsigned_digits,
};

verus! {

/// The double quote that delimits a PGN tag value.
pub const QUOTE: u8 = 34;

/// The quoted value of a tag line: the bytes between the first and the
/// second `"` of `line`, or `None` when `line` holds fewer than two.
pub open spec fn spec_tag_value(line: Seq<u8>) -> Option<Seq<u8>> {
    let q = scan_to(line, 0, QUOTE);
    if q >= line.len() {
        None
    } else {
        let e = scan_to(line, q + 1, QUOTE);
        if e >= line.len() {
            None
        } else {
            Some(line.subrange(q + 1, e))
        }
    }
}

/// The number that `bytes` hold, read as `str::from_utf8`, then
/// `str::trim`, then `u32::from_str` read it: `None` for bytes that are not
/// UTF-8 or do not hold a `u32` between optional white space.
pub open spec fn spec_parse_u32(bytes: Seq<u8>) -> Option<u32> {
    if valid_utf8(bytes) {
        parse_decimal_u32(trim(decode_utf8(bytes)))
    } else {
        None
    }
}

/// The text of the base field of a time control: everything before the
/// first `+`.
pub open spec fn base_field(s: Seq<char>) -> Seq<char> {
    s.take(find_char(s, '+'))
}

/// The text of the increment field of a time control: everything after the
/// `+`, or `"0"` when there is no `+`; `None` when a second `+` follows, as
/// the value is then not of the form `base+increment`.
pub open spec fn increment_field(s: Seq<char>) -> Option<Seq<char>> {
    let p = find_char(s, '+');
    if p < s.len() {
        let rest = s.skip(p + 1);
        if find_char(rest, '+') < rest.len() {
            None
        } else {
            Some(rest)
        }
    } else {
        Some(seq!['0'])
    }
}

/// Base seconds and increment seconds of a `TimeControl` value such as
/// `180+2` (or `300`, with no increment), each field trimmed and read as a
/// `u32`.
pub open spec fn clock_fields(tc: Seq<u8>) -> Option<(u32, u32)> {
    if !valid_utf8(tc) {
        None
    } else {
        let s = decode_utf8(tc);
        match increment_field(s) {
            None => None,
            Some(inc) => match (parse_decimal_u32(trim(base_field(s))), parse_decimal_u32(trim(inc))) {
                (Some(b), Some(i)) => Some((b, i)),
                _ => None,
            },
        }
    }
}

/// The `TimeControl` value of a correspondence game: `-`.
pub open spec fn is_correspondence(tc: Seq<u8>) -> bool {
    tc == seq![45u8]
}

/// Lichess's estimated game duration, `base + 40 * increment` seconds;
/// `None` for correspondence, for values that do not parse, and for a
/// duration that is no `u32`.
pub open spec fn estimated_seconds(tc: Seq<u8>) -> Option<u32> {
    if is_correspondence(tc) {
        None
    } else {
        match clock_fields(tc) {
            Some((b, i)) => if b + 40 * i <= u32::MAX {
                Some((b + 40 * i) as u32)
            } else {
                None
            },
            None => None,
        }
    }
}

/// Whether a `TimeControl` value clears the floor `min_tc`: correspondence
/// iff `allow_correspondence`, a clock iff its estimate is at least
/// `min_tc`, and anything unparseable passes.
pub open spec fn spec_tc_passes(tc: Seq<u8>, min_tc: u32, allow_correspondence: bool) -> bool {
    if is_correspondence(tc) {
        allow_correspondence
    } else {
        match estimated_seconds(tc) {
            Some(v) => v >= min_tc,
            None => true,
        }
    }
}

/// Extract the quoted value from a PGN tag line, e.g. `[ECO "B90"]` -> `B90`.
pub fn tag_value(line: &[u8]) -> (r: Option<&[u8]>)
    ensures
        match r {
            Some(v) => spec_tag_value(line@) == Some(v@),
            None => spec_tag_value(line@) is None,
        },
{
    let n = line.len();
    let mut q: usize = 0;
    while q < n && line[q] != QUOTE
        invariant
            q <= n == line@.len(),
            scan_to(line@, q as int, QUOTE) == scan_to(line@, 0, QUOTE),
        decreases n - q,
    {
        q = q + 1;
    }
    if q >= n {
        return None;
    }
    let start = q + 1;
    let mut e = start;
    while e < n && line[e] != QUOTE
        invariant
            start <= e <= n == line@.len(),
            scan_to(line@, e as int, QUOTE) == scan_to(line@, start as int, QUOTE),
        decreases n - e,
    {
        e = e + 1;
    }
    if e >= n {
        return None;
    }
    Some(&line[start..e])
}

/// The `u32` that `bytes` spell, white space around it allowed; `None` for
/// anything else (including bytes that are not UTF-8).
pub fn parse_u32(bytes: &[u8]) -> (r: Option<u32>)
    ensures
        r == spec_parse_u32(bytes@),
{
    match decode_chars(bytes) {
        None => None,
        Some(chars) => {
            let n = chars.len();
            let (a, b) = trim_bounds(chars.as_slice(), 0, n);
            assert(chars@.subrange(0, n as int) =~= chars@);
            parse_decimal(chars.as_slice(), a, b)
        },
    }
}

/// Base and increment of a `TimeControl` value.
fn tc_fields(tc: &[u8]) -> (r: Option<(u32, u32)>)
    ensures
        r == clock_fields(tc@),
{
    let chars = match decode_chars(tc) {
        None => return None,
        Some(c) => c,
    };
    let ghost s = chars@;
    let n = chars.len();
    let p = find_in(chars.as_slice(), 0, n, '+');
    assert(s.subrange(0, n as int) =~= s);
    assert(base_field(s) =~= s.subrange(0, p as int));
    let (a, b) = trim_bounds(chars.as_slice(), 0, p);
    let base = match parse_decimal(chars.as_slice(), a, b) {
        None => return None,
        Some(v) => v,
    };
    let inc = if p < n {
        let q = find_in(chars.as_slice(), p + 1, n, '+');
        proof {
            let rest = s.skip(p + 1);
            assert(rest =~= s.subrange(p + 1, n as int));
        }
        if q < n {
            return None;
        }
        assert(increment_field(s) == Some(s.subrange(p + 1, n as int)));
        let (a2, b2) = trim_bounds(chars.as_slice(), p + 1, n);
        match parse_decimal(chars.as_slice(), a2, b2) {
            None => return None,
            Some(v) => v,
        }
    } else {
        proof {
            let z = seq!['0'];
            assert(increment_field(s) == Some(z));
            assert(z.drop_first() =~= Seq::<char>::empty());
            assert(z.drop_last() =~= Seq::<char>::empty());
            assert(trim(z) == z);
            assert(z.last() == '0');
            assert(crate::text::digits_value(z.drop_last()) == 0);
            assert(crate::text::digits_value(z) == 0);
            assert(parse_decimal_u32(trim(z)) == Some(0u32));
        }
        0
    };
    Some((base, inc))
}

fn is_dash(tc: &[u8]) -> (r: bool)
    ensures
        r == is_correspondence(tc@),
{
    let r = tc.len() == 1 && tc[0] == 45;
    assert(r ==> tc@ =~= seq![45u8]);
    r
}

/// Lichess estimated game duration: base + 40 * increment, in seconds.
/// None for correspondence ("-") or anything unparseable, including a
/// duration too long for a `u32`.
pub fn tc_estimated_seconds(tc: &[u8]) -> (r: Option<u32>)
    ensures
        r == estimated_seconds(tc@),
{
    if is_dash(tc) {
        return None;
    }
    match tc_fields(tc) {
        Some((base, inc)) => {
            let total = (base as u64) + 40 * (inc as u64);
            if total <= u32::MAX as u64 {
                Some(total as u32)
            } else {
                None
            }
        },
        None => None,
    }
}

/// Does a TimeControl tag value clear the floor?
///
/// - Correspondence games (`"-"`) are kept iff `allow_correspondence` is true.
/// - Real clock controls are kept iff their estimated duration is >= `min_tc`.
/// - Anything else unparseable is treated as passing.
pub fn tc_passes(tc: &[u8], min_tc: u32, allow_correspondence: bool) -> (r: bool)
    ensures
        r == spec_tc_passes(tc@, min_tc, allow_correspondence),
{
    if is_dash(tc) {
        return allow_correspondence;
    }
    match tc_estimated_seconds(tc) {
        Some(secs) => secs >= min_tc,
        None => true,
    }
}

/// A floor of zero keeps every clock game, and with correspondence allowed
/// it keeps every game.
pub proof fn law_zero_floor_keeps_all(tc: Seq<u8>, allow_correspondence: bool)
    ensures
        !is_correspondence(tc) ==> spec_tc_passes(tc, 0, allow_correspondence),
        spec_tc_passes(tc, 0, true),
{
}

/// Lowering the floor never drops a game that passed.
pub proof fn law_floor_monotone(tc: Seq<u8>, high: u32, low: u32, allow_correspondence: bool)
    requires
        low <= high,
        spec_tc_passes(tc, high, allow_correspondence),
    ensures
        spec_tc_passes(tc, low, allow_correspondence),
{
}

/// Correspondence games pass exactly when they are allowed, whatever the
/// floor; a value that cannot be measured always passes.
pub proof fn law_unmeasured_games(tc: Seq<u8>, min_tc: u32, allow_correspondence: bool)
    ensures
        is_correspondence(tc) ==> spec_tc_passes(tc, min_tc, allow_correspondence)
            == allow_correspondence,
        (!is_correspondence(tc) && estimated_seconds(tc) is None) ==> spec_tc_passes(
            tc,
            min_tc,
            allow_correspondence,
        ),
{
}

/// A tag value holds no `"`, and sits between two of them in the line.
pub proof fn law_tag_value_is_quoted(line: Seq<u8>)
    ensures
        spec_tag_value(line) matches Some(v) ==> {
            &&& forall|k: int| 0 <= k < v.len() ==> v[k] != QUOTE
            &&& exists|q: int|
                0 <= q && q + v.len() + 1 < line.len() && #[trigger] line[q] == QUOTE && line.subrange(
                    q + 1,
                    q + 1 + v.len(),
                ) == v && line[q + 1 + v.len()] == QUOTE
        },
{
    lemma_scan_to(line, 0, QUOTE);
    let q = scan_to(line, 0, QUOTE);
    if q < line.len() {
        lemma_scan_to(line, q + 1, QUOTE);
        let e = scan_to(line, q + 1, QUOTE);
        if e < line.len() {
            let v = line.subrange(q + 1, e);
            assert forall|k: int| 0 <= k < v.len() implies v[k] != QUOTE by {
                assert(v[k] == line[q + 1 + k]);
            }
            assert(line.subrange(q + 1, q + 1 + v.len()) == v);
            assert(line[q] == QUOTE);
        }
    }
}

/// The verdict on a measured clock is exactly the comparison of its
/// estimate with the floor, for every floor: `estimate >= min_tc`.
pub proof fn law_clock_verdict(tc: Seq<u8>, min_tc: u32, allow_correspondence: bool)
    ensures
        !is_correspondence(tc) ==> (estimated_seconds(tc) matches Some(v) ==> spec_tc_passes(
            tc,
            min_tc,
            allow_correspondence,
        ) == (v >= min_tc)),
{
}

/// The estimate is `base + 40 * increment` of the two clock fields, and
/// there is none when that sum is no `u32`.
pub proof fn law_estimate_formula(tc: Seq<u8>)
    ensures
        !is_correspondence(tc) ==> match clock_fields(tc) {
            Some((b, i)) => if b + 40 * i <= 0xffff_ffff {
                estimated_seconds(tc) == Some((b + 40 * i) as u32)
            } else {
                estimated_seconds(tc) is None
            },
            None => estimated_seconds(tc) is None,
        },
        is_correspondence(tc) ==> estimated_seconds(tc) is None,
{
}

/// A tag value starts after the first `"` of the line and runs to the next
/// one; there is none exactly when the line holds fewer than two `"`.
pub proof fn law_tag_value_first_quotes(line: Seq<u8>)
    ensures
        spec_tag_value(line) matches Some(v) ==> exists|q: int|
            0 <= q < line.len() && #[trigger] line[q] == QUOTE && (forall|k: int|
                0 <= k < q ==> line[k] != QUOTE) && q + v.len() + 1 < line.len() && line.subrange(
                q + 1,
                q + 1 + v.len(),
            ) == v && line[q + 1 + v.len()] == QUOTE,
        spec_tag_value(line) is None <==> !exists|i: int, j: int|
            0 <= i < j < line.len() && #[trigger] line[i] == QUOTE && #[trigger] line[j] == QUOTE,
{
    lemma_scan_to(line, 0, QUOTE);
    let q = scan_to(line, 0, QUOTE);
    if q < line.len() {
        lemma_scan_to(line, q + 1, QUOTE);
        let e = scan_to(line, q + 1, QUOTE);
        if e < line.len() {
            let v = line.subrange(q + 1, e);
            assert(line.subrange(q + 1, q + 1 + v.len()) == v);
            assert(line[q] == QUOTE);
            assert(line[e] == QUOTE);
        } else {
            assert forall|i: int, j: int|
                0 <= i < j < line.len() && #[trigger] line[i] == QUOTE implies !(#[trigger] line[j]
                == QUOTE) by {
                if i < q {
                } else if j > q {
                }
            }
        }
    } else {
        assert forall|i: int, j: int|
            0 <= i < j < line.len() && #[trigger] line[i] == QUOTE implies !(#[trigger] line[j]
            == QUOTE) by {
        }
    }
}

/// Decimal digits are read most significant first, in base ten: the value
/// of digits followed by one more digit `c` is ten times their value plus
/// the value of `c`.
pub proof fn law_decimal_value(digits: Seq<char>, c: char)
    ensures
        digits_value(Seq::<char>::empty()) == 0,
        digits_value(digits.push(c)) == 10 * digits_value(digits) + (c as int - '0' as int),
{
    assert(digits.push(c).drop_last() =~= digits);
}

proof fn lemma_plain_number(d: Seq<char>)
    requires
        d.len() > 0,
        all_ascii_digits(d),
        digits_value(d) <= u32::MAX,
    ensures
        trim(d) == d,
        parse_decimal_u32(d) == Some(digits_value(d) as u32),
        find_char(d, '+') == d.len(),
{
    assert(is_ascii_digit(d[0]));
    assert(is_ascii_digit(d[d.len() - 1]));
    assert(!is_white_space(d[0]));
    assert(trim_start(d) == d);
    assert(!is_white_space(d.last()));
    assert(trim_end(d) == d);
    assert(unsigned_digits(d) == d);
    lemma_find_char_unique(d, '+', d.len() as int);
}

/// A time control written `<base>+<increment>` in decimal digits has those
/// two numbers as its clock fields, and one written `<base>` alone has an
/// increment of 0.
pub proof fn law_clock_text(base: Seq<char>, inc: Seq<char>)
    requires
        base.len() > 0,
        inc.len() > 0,
        all_ascii_digits(base),
        all_ascii_digits(inc),
        digits_value(base) <= u32::MAX,
        digits_value(inc) <= u32::MAX,
    ensures
        clock_fields(encode_utf8(base + seq!['+'] + inc)) == Some(
            (digits_value(base) as u32, digits_value(inc) as u32),
        ),
        clock_fields(encode_utf8(base)) == Some((digits_value(base) as u32, 0u32)),
{
    let s = base + seq!['+'] + inc;
    encode_utf8_valid_utf8(s);
    encode_utf8_decode_utf8(s);
    encode_utf8_valid_utf8(base);
    encode_utf8_decode_utf8(base);
    lemma_plain_number(base);
    lemma_plain_number(inc);
    assert forall|k: int| 0 <= k < base.len() implies s[k] != '+' by {
        assert(s[k] == base[k]);
        assert(is_ascii_digit(base[k]));
    }
    assert(s[base.len() as int] == '+');
    lemma_find_char_unique(s, '+', base.len() as int);
    assert(base_field(s) =~= base);
    assert(s.skip(base.len() as int + 1) =~= inc);
    assert(increment_field(s) == Some(inc));
    assert(base_field(base) =~= base);
    let z = seq!['0'];
    assert(all_ascii_digits(z));
    assert(z.drop_last() =~= Seq::<char>::empty());
    assert(z.last() == '0');
    assert(digits_value(z.drop_last()) == 0);
    assert(digits_value(z) == 0);
    lemma_plain_number(z);
    assert(increment_field(base) == Some(z));
}

} // verus!
