//! Command-line flags that may appear anywhere among the arguments.

use vstd::prelude::*;
use vstd::string::{StrSliceExecFns, StringSliceAdditionalSpecFns};
use vstd::utf8::encode_utf8_decode_utf8;
use crate::text::{chars_of, parse_decimal, parse_decimal_u32};

verus! {

broadcast use vstd::string::group_string_axioms;

/// `args` without the arguments equal to `name`, the others kept in order.
pub open spec fn without_arg(args: Seq<String>, name: Seq<char>) -> Seq<String>
    decreases args.len(),
{
    if args.len() == 0 {
        args
    } else if args[0]@ == name {
        without_arg(args.drop_first(), name)
    } else {
        seq![args[0]] + without_arg(args.drop_first(), name)
    }
}

/// Whether some argument equals `name`.
pub open spec fn has_arg(args: Seq<String>, name: Seq<char>) -> bool
    decreases args.len(),
{
    args.len() > 0 && (args[0]@ == name || has_arg(args.drop_first(), name))
}

/// Whether two strings hold the same characters.
pub fn str_eq(a: &str, b: &str) -> (r: bool)
    ensures
        r == (a@ == b@),
{
    let x = a.as_bytes();
    let y = b.as_bytes();
    proof {
        encode_utf8_decode_utf8(a@);
        encode_utf8_decode_utf8(b@);
    }
    if x.len() != y.len() {
        return false;
    }
    let mut k: usize = 0;
    while k < x.len()
        invariant
            k <= x@.len() == y@.len(),
            x@ == a.spec_bytes(),
            y@ == b.spec_bytes(),
            forall|m: int| 0 <= m < k ==> x@[m] == y@[m],
        decreases x@.len() - k,
    {
        if x[k] != y[k] {
            return false;
        }
        k = k + 1;
    }
    assert(x@ =~= y@);
    true
}

/// Pull an optional boolean flag (e.g. `--no-correspondence`) out of `args`,
/// removing every occurrence in place. Returns true if the flag was present.
pub fn take_flag(args: &mut Vec<String>, name: &str) -> (found: bool)
    ensures
        found == has_arg(old(args)@, name@),
        final(args)@ == without_arg(old(args)@, name@),
{
    let ghost given = args@;
    let mut found = false;
    let mut i: usize = 0;
    assert(args@.take(0) + args@.skip(0) =~= args@);
    while i < args.len()
        invariant
            i <= args@.len(),
            without_arg(given, name@) == args@.take(i as int) + without_arg(
                args@.skip(i as int),
                name@,
            ),
            has_arg(given, name@) == (found || has_arg(args@.skip(i as int), name@)),
        decreases args@.len() - i,
    {
        let ghost before = args@;
        assert(before.skip(i as int).drop_first() =~= before.skip(i + 1));
        if str_eq(args[i].as_str(), name) {
            args.remove(i);
            assert(args@.take(i as int) =~= before.take(i as int));
            assert(args@.skip(i as int) =~= before.skip(i + 1));
            found = true;
        } else {
            assert(before.take(i + 1) =~= before.take(i as int) + seq![before[i as int]]);
            i = i + 1;
        }
    }
    assert(args@.skip(i as int) =~= Seq::<String>::empty());
    assert(args@.take(i as int) =~= args@);
    found
}

/// A flag, once taken, is gone: no argument equals it any more, and taking
/// it again finds nothing and changes nothing.
pub proof fn law_take_flag_removes_all(args: Seq<String>, name: Seq<char>)
    ensures
        !has_arg(without_arg(args, name), name),
        without_arg(without_arg(args, name), name) == without_arg(args, name),
        forall|k: int|
            0 <= k < without_arg(args, name).len() ==> (#[trigger] without_arg(args, name)[k])@
                != name,
    decreases args.len(),
{
    if args.len() > 0 {
        law_take_flag_removes_all(args.drop_first(), name);
        let rest = without_arg(args.drop_first(), name);
        if args[0]@ != name {
            let w = seq![args[0]] + rest;
            assert(w.drop_first() =~= rest);
            assert forall|k: int| 0 <= k < w.len() implies (#[trigger] w[k])@ != name by {
                if k > 0 {
                    assert(w[k] == rest[k - 1]);
                }
            }
        }
    }
}

/// Arguments other than the flag keep their order; the flag's presence
/// is all that the result reports.
pub proof fn law_take_flag_absent(args: Seq<String>, name: Seq<char>)
    requires
        !has_arg(args, name),
    ensures
        without_arg(args, name) == args,
    decreases args.len(),
{
    if args.len() > 0 {
        law_take_flag_absent(args.drop_first(), name);
        assert(seq![args[0]] + args.drop_first() =~= args);
    }
}

} // verus!

verus! {

/// The `--min-tc=` prefix of the one-argument form of the floor flag.
pub open spec fn min_tc_eq_prefix() -> Seq<char> {
    seq!['-', '-', 'm', 'i', 'n', '-', 't', 'c', '=']
}

/// The two-argument form of the floor flag, `--min-tc`.
pub open spec fn min_tc_flag() -> Seq<char> {
    seq!['-', '-', 'm', 'i', 'n', '-', 't', 'c']
}

/// Whether `a` is `--min-tc=<value>`.
pub open spec fn is_min_tc_eq_form(a: Seq<char>) -> bool {
    a.len() >= 9 && a.take(9) == min_tc_eq_prefix()
}

/// A problem met while reading the floor flag, reported to the user.
pub enum MinTcWarning {
    /// The value given to the flag is not a `u32`; it holds that text.
    InvalidValue(String),
    /// `--min-tc` was the last argument, with no value after it.
    MissingValue,
}

/// What a `MinTcWarning` says, as characters.
pub enum MinTcNote {
    InvalidValue(Seq<char>),
    MissingValue,
}

impl View for MinTcWarning {
    type V = MinTcNote;

    open spec fn view(&self) -> MinTcNote {
        match self {
            MinTcWarning::InvalidValue(s) => MinTcNote::InvalidValue(s@),
            MinTcWarning::MissingValue => MinTcNote::MissingValue,
        }
    }
}

/// The outcome of reading the floor flag: the arguments that remain, the
/// last value that parsed (if any), and the warnings, in order.
#[verifier::ext_equal]
pub struct MinTcScan {
    pub kept: Seq<String>,
    pub value: Option<u32>,
    pub warnings: Seq<MinTcNote>,
}

/// `later` where it holds a value, else `earlier`: a value given later on
/// the command line wins.
pub open spec fn latest(later: Option<u32>, earlier: Option<u32>) -> Option<u32> {
    if later is Some {
        later
    } else {
        earlier
    }
}

/// Reading `--min-tc <v>` and `--min-tc=<v>` out of `args` from left to
/// right: each occurrence is removed (with its value, in the two-argument
/// form), a value that parses as a `u32` is taken, one that does not is
/// reported, and a trailing `--min-tc` with no value is reported.
pub open spec fn scan_min_tc(args: Seq<String>) -> MinTcScan
    decreases args.len(),
{
    if args.len() == 0 {
        MinTcScan { kept: seq![], value: None, warnings: seq![] }
    } else {
        let a = args[0]@;
        if is_min_tc_eq_form(a) {
            let rest = a.skip(9);
            let tail = scan_min_tc(args.drop_first());
            match parse_decimal_u32(rest) {
                Some(v) => MinTcScan {
                    kept: tail.kept,
                    value: latest(tail.value, Some(v)),
                    warnings: tail.warnings,
                },
                None => MinTcScan {
                    kept: tail.kept,
                    value: tail.value,
                    warnings: seq![MinTcNote::InvalidValue(rest)] + tail.warnings,
                },
            }
        } else if a == min_tc_flag() {
            if args.len() == 1 {
                MinTcScan { kept: seq![], value: None, warnings: seq![MinTcNote::MissingValue] }
            } else {
                let v = args[1]@;
                let tail = scan_min_tc(args.skip(2));
                match parse_decimal_u32(v) {
                    Some(x) => MinTcScan {
                        kept: tail.kept,
                        value: latest(tail.value, Some(x)),
                        warnings: tail.warnings,
                    },
                    None => MinTcScan {
                        kept: tail.kept,
                        value: tail.value,
                        warnings: seq![MinTcNote::InvalidValue(v)] + tail.warnings,
                    },
                }
            }
        } else {
            let tail = scan_min_tc(args.drop_first());
            MinTcScan { kept: seq![args[0]] + tail.kept, value: tail.value, warnings: tail.warnings }
        }
    }
}

/// The state after reading a prefix of the arguments (`kept`, `value`,
/// `warnings`) followed by the reading of the rest.
pub open spec fn then_scan(
    kept: Seq<String>,
    value: Option<u32>,
    warnings: Seq<MinTcNote>,
    rest: MinTcScan,
) -> MinTcScan {
    MinTcScan {
        kept: kept + rest.kept,
        value: latest(rest.value, value),
        warnings: warnings + rest.warnings,
    }
}

/// The notes that a list of warnings carries.
pub open spec fn notes(w: Seq<MinTcWarning>) -> Seq<MinTcNote> {
    w.map_values(|x: MinTcWarning| x@)
}

fn is_eq_form(c: &Vec<char>) -> (r: bool)
    ensures
        r == is_min_tc_eq_form(c@),
{
    let r = c.len() >= 9 && c[0] == '-' && c[1] == '-' && c[2] == 'm' && c[3] == 'i' && c[4]
        == 'n' && c[5] == '-' && c[6] == 't' && c[7] == 'c' && c[8] == '=';
    proof {
        if c@.len() >= 9 {
            assert(r == (c@.take(9) =~= min_tc_eq_prefix()));
        }
    }
    r
}

fn is_flag(c: &Vec<char>) -> (r: bool)
    ensures
        r == (c@ == min_tc_flag()),
{
    let r = c.len() == 8 && c[0] == '-' && c[1] == '-' && c[2] == 'm' && c[3] == 'i' && c[4]
        == 'n' && c[5] == '-' && c[6] == 't' && c[7] == 'c';
    proof {
        if c@.len() == 8 {
            assert(r == (c@ =~= min_tc_flag()));
        }
    }
    r
}

/// Pull an optional `--min-tc <seconds>` / `--min-tc=<seconds>` flag out of
/// `args`, removing it in place so the remaining positional arguments are
/// unaffected. Returns the chosen floor (`default` when the flag is absent
/// or no value of it parses, the safe direction) and the warnings to show.
pub fn take_min_tc(args: &mut Vec<String>, default: u32) -> (r: (u32, Vec<MinTcWarning>))
    ensures
        final(args)@ == scan_min_tc(old(args)@).kept,
        r.0 == match scan_min_tc(old(args)@).value {
            Some(v) => v,
            None => default,
        },
        notes(r.1@) == scan_min_tc(old(args)@).warnings,
{
    let ghost given = args@;
    let mut value: Option<u32> = None;
    let mut warnings: Vec<MinTcWarning> = Vec::new();
    let mut i: usize = 0;
    assert(args@.skip(0) =~= args@);
    assert(args@.take(0) =~= Seq::<String>::empty());
    assert(notes(warnings@) =~= Seq::<MinTcNote>::empty());
    while i < args.len()
        invariant
            i <= args@.len(),
            scan_min_tc(given) == then_scan(
                args@.take(i as int),
                value,
                notes(warnings@),
                scan_min_tc(args@.skip(i as int)),
            ),
        decreases args@.len() - i,
    {
        let ghost before = args@;
        let ghost w0 = warnings@;
        let ghost s = before.skip(i as int);
        assert(s.drop_first() =~= before.skip(i + 1));
        let c = chars_of(args[i].as_str());
        assert(s[0]@ == c@);
        if is_eq_form(&c) {
            let n = c.len();
            assert(c@.subrange(9, n as int) =~= c@.skip(9));
            match parse_decimal(c.as_slice(), 9, n) {
                Some(v) => {
                    value = Some(v);
                },
                None => {
                    let rest = args[i].as_str().substring_char(9, n).to_owned();
                    warnings.push(MinTcWarning::InvalidValue(rest));
                    assert(notes(warnings@) =~= notes(w0) + seq![MinTcNote::InvalidValue(c@.skip(9))]);
                },
            }
            args.remove(i);
            assert(args@.take(i as int) =~= before.take(i as int));
            assert(args@.skip(i as int) =~= before.skip(i + 1));
            assert(scan_min_tc(given) =~= then_scan(
                args@.take(i as int),
                value,
                notes(warnings@),
                scan_min_tc(args@.skip(i as int)),
            ));
        } else if is_flag(&c) {
            args.remove(i);
            assert(args@.take(i as int) =~= before.take(i as int));
            if i < args.len() {
                let ghost mid = args@;
                let v = args.remove(i);
                assert(args@.take(i as int) =~= before.take(i as int));
                assert(args@.skip(i as int) =~= s.skip(2));
                assert(v == s[1]);
                let vc = chars_of(v.as_str());
                let m = vc.len();
                assert(vc@.subrange(0, m as int) =~= vc@);
                match parse_decimal(vc.as_slice(), 0, m) {
                    Some(x) => {
                        value = Some(x);
                    },
                    None => {
                        warnings.push(MinTcWarning::InvalidValue(v));
                        assert(notes(warnings@) =~= notes(w0) + seq![MinTcNote::InvalidValue(vc@)]);
                    },
                }
            } else {
                warnings.push(MinTcWarning::MissingValue);
                assert(notes(warnings@) =~= notes(w0) + seq![MinTcNote::MissingValue]);
                assert(s.len() == 1);
                assert(args@.skip(i as int) =~= Seq::<String>::empty());
            }
            assert(scan_min_tc(given) =~= then_scan(
                args@.take(i as int),
                value,
                notes(warnings@),
                scan_min_tc(args@.skip(i as int)),
            ));
        } else {
            assert(before.take(i + 1) =~= before.take(i as int) + seq![before[i as int]]);
            i = i + 1;
            assert(scan_min_tc(given) =~= then_scan(
                args@.take(i as int),
                value,
                notes(warnings@),
                scan_min_tc(args@.skip(i as int)),
            ));
        }
    }
    assert(args@.skip(i as int) =~= Seq::<String>::empty());
    assert(args@.take(i as int) =~= args@);
    let chosen = match value {
        Some(v) => v,
        None => default,
    };
    (chosen, warnings)
}

} // verus!

verus! {

/// Whether `a` is one of the two forms of the floor flag.
pub open spec fn is_min_tc_arg(a: Seq<char>) -> bool {
    is_min_tc_eq_form(a) || a == min_tc_flag()
}

/// The floor flag can stand anywhere: after reading it, no argument that
/// remains is the flag in either form.
pub proof fn law_min_tc_leaves_no_flag(args: Seq<String>)
    ensures
        forall|k: int|
            0 <= k < scan_min_tc(args).kept.len() ==> !is_min_tc_arg(
                (#[trigger] scan_min_tc(args).kept[k])@,
            ),
    decreases args.len(),
{
    if args.len() > 0 {
        let a = args[0]@;
        if is_min_tc_eq_form(a) {
            law_min_tc_leaves_no_flag(args.drop_first());
        } else if a == min_tc_flag() {
            if args.len() > 1 {
                law_min_tc_leaves_no_flag(args.skip(2));
            }
        } else {
            law_min_tc_leaves_no_flag(args.drop_first());
            let tail = scan_min_tc(args.drop_first()).kept;
            let kept = seq![args[0]] + tail;
            assert forall|k: int| 0 <= k < kept.len() implies !is_min_tc_arg(
                (#[trigger] kept[k])@,
            ) by {
                if k > 0 {
                    assert(kept[k] == tail[k - 1]);
                }
            }
        }
    }
}

/// Without the flag the arguments are left as they are, nothing is
/// reported, and the default floor applies.
pub proof fn law_min_tc_absent(args: Seq<String>)
    requires
        forall|k: int| 0 <= k < args.len() ==> !is_min_tc_arg(#[trigger] args[k]@),
    ensures
        scan_min_tc(args).kept == args,
        scan_min_tc(args).value is None,
        scan_min_tc(args).warnings.len() == 0,
    decreases args.len(),
{
    if args.len() > 0 {
        assert(!is_min_tc_arg(args[0]@));
        let rest = args.drop_first();
        assert forall|k: int| 0 <= k < rest.len() implies !is_min_tc_arg(#[trigger] rest[k]@) by {
            assert(rest[k] == args[k + 1]);
        }
        law_min_tc_absent(rest);
        assert(seq![args[0]] + rest =~= args);
    }
}

} // verus!
