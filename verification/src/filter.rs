//! Splitting a PGN stream into games and deciding, game by game, which
//! ones a filter keeps. The stream is read line by line by the caller; the
//! decisions, and the bytes of each kept game, come from here.

use vstd::prelude::*;
use std::collections::HashSet;
use crate::movetext::{extract_moves, extracted};
use crate::position::{
    matches_target_from, reaches_target, standard_start, start_position, GamePosition,
};
use crate::tags::{
    parse_u32, spec_parse_u32, spec_tag_value, spec_tc_passes, tag_value, tc_passes,
};

verus! {

/// Whether `s` begins with `prefix`.
pub open spec fn starts_with(s: Seq<u8>, prefix: Seq<u8>) -> bool {
    prefix.len() <= s.len() && s.take(prefix.len() as int) == prefix
}

/// Whether `s` begins with `prefix`.
pub fn bytes_start_with(s: &[u8], prefix: &[u8]) -> (r: bool)
    ensures
        r == starts_with(s@, prefix@),
{
    if prefix.len() > s.len() {
        return false;
    }
    let mut k: usize = 0;
    while k < prefix.len()
        invariant
            k <= prefix@.len() <= s@.len(),
            forall|m: int| 0 <= m < k ==> s@[m] == prefix@[m],
        decreases prefix@.len() - k,
    {
        if s[k] != prefix[k] {
            return false;
        }
        k = k + 1;
    }
    assert(s@.take(prefix@.len() as int) =~= prefix@);
    true
}

/// Appends `line` to `v`.
pub fn append_bytes(v: &mut Vec<u8>, line: &[u8])
    ensures
        final(v)@ == old(v)@ + line@,
{
    let mut k: usize = 0;
    let ghost start = v@;
    while k < line.len()
        invariant
            k <= line@.len(),
            v@ == start + line@.take(k as int),
        decreases line@.len() - k,
    {
        v.push(line[k]);
        assert(line@.take(k + 1) =~= line@.take(k as int).push(line@[k as int]));
        k = k + 1;
    }
    assert(line@.take(k as int) =~= line@);
}

/// `[Event `, the tag that opens every game.
pub open spec fn event_tag() -> Seq<u8> {
    seq![91u8, 69, 118, 101, 110, 116, 32]
}

/// `[ECO `.
pub open spec fn eco_tag() -> Seq<u8> {
    seq![91u8, 69, 67, 79, 32]
}

/// `[WhiteElo `.
pub open spec fn white_elo_tag() -> Seq<u8> {
    seq![91u8, 87, 104, 105, 116, 101, 69, 108, 111, 32]
}

/// `[BlackElo `.
pub open spec fn black_elo_tag() -> Seq<u8> {
    seq![91u8, 66, 108, 97, 99, 107, 69, 108, 111, 32]
}

/// `[TimeControl `.
pub open spec fn time_control_tag() -> Seq<u8> {
    seq![91u8, 84, 105, 109, 101, 67, 111, 110, 116, 114, 111, 108, 32]
}

/// Whether `line` opens a new game.
pub fn is_event_line(line: &[u8]) -> (r: bool)
    ensures
        r == starts_with(line@, event_tag()),
{
    let p: [u8; 7] = [91, 69, 118, 101, 110, 116, 32];
    assert(p@ =~= event_tag());
    bytes_start_with(line, &p)
}

/// Whether `line` is an `ECO` tag.
pub fn is_eco_line(line: &[u8]) -> (r: bool)
    ensures
        r == starts_with(line@, eco_tag()),
{
    let p: [u8; 5] = [91, 69, 67, 79, 32];
    assert(p@ =~= eco_tag());
    bytes_start_with(line, &p)
}

/// Whether `line` is a `WhiteElo` tag.
pub fn is_white_elo_line(line: &[u8]) -> (r: bool)
    ensures
        r == starts_with(line@, white_elo_tag()),
{
    let p: [u8; 10] = [91, 87, 104, 105, 116, 101, 69, 108, 111, 32];
    assert(p@ =~= white_elo_tag());
    bytes_start_with(line, &p)
}

/// Whether `line` is a `BlackElo` tag.
pub fn is_black_elo_line(line: &[u8]) -> (r: bool)
    ensures
        r == starts_with(line@, black_elo_tag()),
{
    let p: [u8; 10] = [91, 66, 108, 97, 99, 107, 69, 108, 111, 32];
    assert(p@ =~= black_elo_tag());
    bytes_start_with(line, &p)
}

/// Whether `line` is a `TimeControl` tag.
pub fn is_time_control_line(line: &[u8]) -> (r: bool)
    ensures
        r == starts_with(line@, time_control_tag()),
{
    let p: [u8; 13] = [91, 84, 105, 109, 101, 67, 111, 110, 116, 114, 111, 108, 32];
    assert(p@ =~= time_control_tag());
    bytes_start_with(line, &p)
}

/// How often progress is reported: every this many games.
pub const PROGRESS_EVERY: u64 = 2000000;

/// What the caller does after handing a line (or the end of input) to a
/// filter: write a finished game that was kept, and report progress.
pub struct Step {
    /// The bytes of a finished game that the filter keeps, exactly as read.
    pub write: Option<Vec<u8>>,
    /// A game count that is a multiple of `PROGRESS_EVERY` was reached.
    pub progress: bool,
}

/// Why a filter cannot go on (where the arithmetic would overflow).
pub enum FilterError {
    /// The game counter would pass `u64::MAX`.
    CountOverflow,
}

/// The current game's bytes and the running counts of games seen and kept.
pub struct GameBuffer {
    game: Vec<u8>,
    total: u64,
    kept: u64,
}

impl GameBuffer {
    /// No more games kept than seen.
    pub closed spec fn wf(self) -> bool {
        self.kept <= self.total
    }

    /// The bytes of the game being read.
    pub closed spec fn bytes(self) -> Seq<u8> {
        self.game@
    }

    /// Games finished so far.
    pub closed spec fn games(self) -> nat {
        self.total as nat
    }

    /// Games kept so far.
    pub closed spec fn kept_games(self) -> nat {
        self.kept as nat
    }

    /// Nothing read yet.
    pub fn new() -> (r: GameBuffer)
        ensures
            r.wf(),
            r.bytes() == Seq::<u8>::empty(),
            r.games() == 0,
            r.kept_games() == 0,
    {
        GameBuffer { game: Vec::new(), total: 0, kept: 0 }
    }

    /// Games finished so far.
    pub fn total(&self) -> (r: u64)
        ensures
            r == self.games(),
    {
        self.total
    }

    /// Games kept so far.
    pub fn kept(&self) -> (r: u64)
        ensures
            r == self.kept_games(),
    {
        self.kept
    }

    /// Whether no byte of a game has been read since the last one ended.
    pub fn is_empty(&self) -> (r: bool)
        ensures
            r == (self.bytes().len() == 0),
    {
        self.game.len() == 0
    }

    /// Appends a line to the current game.
    pub fn append(&mut self, line: &[u8])
        requires
            old(self).wf(),
        ensures
            final(self).wf(),
            final(self).bytes() == old(self).bytes() + line@,
            final(self).games() == old(self).games(),
            final(self).kept_games() == old(self).kept_games(),
    {
        append_bytes(&mut self.game, line);
    }

    /// Ends the current game: counts it, counts it as kept when `keep`,
    /// hands its bytes out when kept, and starts an empty one.
    pub fn close(&mut self, keep: bool) -> (r: Result<Step, FilterError>)
        requires
            old(self).wf(),
        ensures
            final(self).wf(),
            match r {
                Ok(step) => {
                    &&& old(self).games() < u64::MAX
                    &&& final(self).games() == old(self).games() + 1
                    &&& final(self).kept_games() == old(self).kept_games() + if keep {
                        1nat
                    } else {
                        0nat
                    }
                    &&& final(self).bytes() == Seq::<u8>::empty()
                    &&& step.progress == (final(self).games() % (PROGRESS_EVERY as nat) == 0)
                    &&& match step.write {
                        Some(g) => keep && g@ == old(self).bytes(),
                        None => !keep,
                    }
                },
                Err(e) => e is CountOverflow && old(self).games() == u64::MAX && *final(self)
                    == *old(self),
            },
    {
        if self.total == u64::MAX {
            return Err(FilterError::CountOverflow);
        }
        let mut game: Vec<u8> = Vec::new();
        std::mem::swap(&mut game, &mut self.game);
        self.total = self.total + 1;
        let write = if keep {
            self.kept = self.kept + 1;
            Some(game)
        } else {
            None
        };
        Ok(Step { write, progress: self.total % PROGRESS_EVERY == 0 })
    }
}

} // verus!

verus! {

/// The counts and the handed-out bytes after a game ends, kept or not.
pub open spec fn game_ended(before: GameBuffer, after: GameBuffer, keep: bool, step: Step) -> bool {
    &&& before.games() < u64::MAX
    &&& after.games() == before.games() + 1
    &&& after.kept_games() == before.kept_games() + if keep {
        1nat
    } else {
        0nat
    }
    &&& step.progress == (after.games() % (PROGRESS_EVERY as nat) == 0)
    &&& match step.write {
        Some(g) => keep && g@ == before.bytes(),
        None => !keep,
    }
}

/// Nothing ends: the counts stay and nothing is handed out.
pub open spec fn nothing_ended(before: GameBuffer, after: GameBuffer, step: Step) -> bool {
    &&& after.games() == before.games()
    &&& after.kept_games() == before.kept_games()
    &&& step.write is None
    &&& !step.progress
}

/// Whether `line` ends the game being read: it opens a new one, and the
/// current one is not empty.
pub open spec fn ends_game(buf: GameBuffer, line: Seq<u8>) -> bool {
    starts_with(line, event_tag()) && buf.bytes().len() > 0
}

/// A step that hands nothing out.
fn quiet() -> (r: Step)
    ensures
        r.write is None,
        !r.progress,
{
    Step { write: None, progress: false }
}

/// Whether some prefix in `prefixes` begins `code`.
pub open spec fn eco_matches(prefixes: Seq<Seq<u8>>, code: Seq<u8>) -> bool {
    exists|k: int| 0 <= k < prefixes.len() && starts_with(code, #[trigger] prefixes[k])
}

/// The ECO verdict for the game after reading `line`: an `ECO` tag with a
/// value sets it to whether the code starts with one of the prefixes.
pub open spec fn eco_after(prefixes: Seq<Seq<u8>>, matched: bool, line: Seq<u8>) -> bool {
    if starts_with(line, eco_tag()) {
        match spec_tag_value(line) {
            Some(v) => eco_matches(prefixes, v),
            None => matched,
        }
    } else {
        matched
    }
}

/// The contents of a list of byte vectors.
pub open spec fn byte_strings(v: Seq<Vec<u8>>) -> Seq<Seq<u8>> {
    v.map_values(|x: Vec<u8>| x@)
}

/// Whether `code` starts with one of `prefixes`.
pub fn eco_code_matches(prefixes: &Vec<Vec<u8>>, code: &[u8]) -> (r: bool)
    ensures
        r == eco_matches(byte_strings(prefixes@), code@),
{
    let ghost ps = byte_strings(prefixes@);
    let mut k: usize = 0;
    while k < prefixes.len()
        invariant
            k <= prefixes@.len() == ps.len(),
            ps == byte_strings(prefixes@),
            forall|m: int| 0 <= m < k ==> !starts_with(code@, #[trigger] ps[m]),
        decreases prefixes@.len() - k,
    {
        if bytes_start_with(code, prefixes[k].as_slice()) {
            assert(ps[k as int] == prefixes@[k as int]@);
            return true;
        }
        k = k + 1;
    }
    false
}

/// The `eco` filter: keeps a game whose `ECO` tag starts with any of the
/// given prefixes and whose time control clears the floor (correspondence
/// games pass).
pub struct EcoFilter {
    prefixes: Vec<Vec<u8>>,
    min_tc: u32,
    buf: GameBuffer,
    matched: bool,
    tc_ok: bool,
}

impl EcoFilter {
    pub closed spec fn wf(self) -> bool {
        self.buf.wf()
    }

    /// The ECO prefixes a game may match.
    pub closed spec fn prefixes(self) -> Seq<Seq<u8>> {
        byte_strings(self.prefixes@)
    }

    /// The time-control floor.
    pub closed spec fn min_tc(self) -> u32 {
        self.min_tc
    }

    /// The game being read and the counts.
    pub closed spec fn buffer(self) -> GameBuffer {
        self.buf
    }

    /// Whether the game being read has matched so far.
    pub closed spec fn matched(self) -> bool {
        self.matched
    }

    /// Whether the game being read has cleared the floor so far.
    pub closed spec fn tc_ok(self) -> bool {
        self.tc_ok
    }

    /// A filter for the ECO `prefixes` and the floor `min_tc`, before any
    /// input.
    pub fn new(prefixes: Vec<Vec<u8>>, min_tc: u32) -> (r: EcoFilter)
        ensures
            r.wf(),
            r.prefixes() == byte_strings(prefixes@),
            r.min_tc() == min_tc,
            r.buffer().bytes().len() == 0,
            r.buffer().games() == 0,
            r.buffer().kept_games() == 0,
            !r.matched(),
            r.tc_ok(),
    {
        EcoFilter { prefixes, min_tc, buf: GameBuffer::new(), matched: false, tc_ok: true }
    }

    /// Games read so far.
    pub fn total(&self) -> (r: u64)
        ensures
            r == self.buffer().games(),
    {
        self.buf.total()
    }

    /// Games kept so far.
    pub fn kept(&self) -> (r: u64)
        ensures
            r == self.buffer().kept_games(),
    {
        self.buf.kept()
    }

    /// Reads one line of the PGN stream (with its line ending).
    pub fn on_line(&mut self, line: &[u8]) -> (r: Result<Step, FilterError>)
        requires
            old(self).wf(),
        ensures
            final(self).wf(),
            final(self).prefixes() == old(self).prefixes(),
            final(self).min_tc() == old(self).min_tc(),
            match r {
                Ok(step) => {
                    &&& if ends_game(old(self).buffer(), line@) {
                        &&& game_ended(
                            old(self).buffer(),
                            final(self).buffer(),
                            old(self).matched() && old(self).tc_ok(),
                            step,
                        )
                        &&& final(self).buffer().bytes() == line@
                        &&& final(self).matched() == eco_after(old(self).prefixes(), false, line@)
                        &&& final(self).tc_ok() == tc_after(true, line@, old(self).min_tc(), true)
                    } else {
                        &&& nothing_ended(old(self).buffer(), final(self).buffer(), step)
                        &&& final(self).buffer().bytes() == old(self).buffer().bytes() + line@
                        &&& final(self).matched() == eco_after(
                            old(self).prefixes(),
                            old(self).matched(),
                            line@,
                        )
                        &&& final(self).tc_ok() == tc_after(
                            old(self).tc_ok(),
                            line@,
                            old(self).min_tc(),
                            true,
                        )
                    }
                },
                Err(e) => ends_game(old(self).buffer(), line@) && old(self).buffer().games()
                    == u64::MAX,
            },
    {
        let mut step = quiet();
        if is_event_line(line) && !self.buf.is_empty() {
            step = self.buf.close(self.matched && self.tc_ok)?;
            self.matched = false;
            self.tc_ok = true;
        }
        if is_eco_line(line) {
            if let Some(v) = tag_value(line) {
                self.matched = eco_code_matches(&self.prefixes, v);
            }
        } else if is_time_control_line(line) {
            if let Some(v) = tag_value(line) {
                self.tc_ok = tc_passes(v, self.min_tc, true);
            }
        }
        proof {
            if starts_with(line@, time_control_tag()) {
                assert(line@.take(13)[1] == line@[1]);
                if starts_with(line@, eco_tag()) {
                    assert(line@.take(5)[1] == line@[1]);
                }
            }
        }
        self.buf.append(line);
        Ok(step)
    }

    /// The end of the stream: the last game, if any, ends.
    pub fn finish(&mut self) -> (r: Result<Step, FilterError>)
        requires
            old(self).wf(),
        ensures
            final(self).wf(),
            match r {
                Ok(step) => if old(self).buffer().bytes().len() > 0 {
                    game_ended(
                        old(self).buffer(),
                        final(self).buffer(),
                        old(self).matched() && old(self).tc_ok(),
                        step,
                    )
                } else {
                    nothing_ended(old(self).buffer(), final(self).buffer(), step)
                },
                Err(e) => e is CountOverflow && old(self).buffer().bytes().len() > 0
                    && old(self).buffer().games() == u64::MAX,
            },
    {
        if self.buf.is_empty() {
            return Ok(quiet());
        }
        self.buf.close(self.matched && self.tc_ok)
    }
}

} // verus!

verus! {

/// The rating a `WhiteElo`/`BlackElo` line gives: its tag value read as a
/// `u32`, or 0 when it has none or it does not parse.
pub open spec fn elo_of(line: Seq<u8>) -> u32 {
    match spec_tag_value(line) {
        Some(v) => match spec_parse_u32(v) {
            Some(x) => x,
            None => 0,
        },
        None => 0,
    }
}

/// The `elite` rule: the lower rating is at least `min_low`, the higher at
/// least `min_high`, and the time control passed.
pub open spec fn spec_elite_keeps(white: u32, black: u32, min_low: u32, min_high: u32, tc_ok: bool) -> bool {
    let lo = if white <= black {
        white
    } else {
        black
    };
    let hi = if white <= black {
        black
    } else {
        white
    };
    lo >= min_low && hi >= min_high && tc_ok
}

/// The `elite` rule on the two ratings of a game and its time-control
/// verdict.
pub fn elite_keeps(white: u32, black: u32, min_low: u32, min_high: u32, tc_ok: bool) -> (r: bool)
    ensures
        r == spec_elite_keeps(white, black, min_low, min_high, tc_ok),
{
    let lo = if white <= black {
        white
    } else {
        black
    };
    let hi = if white <= black {
        black
    } else {
        white
    };
    lo >= min_low && hi >= min_high && tc_ok
}

/// The rating on a `WhiteElo`/`BlackElo` line.
pub fn elo_from_line(line: &[u8]) -> (r: u32)
    ensures
        r == elo_of(line@),
{
    match tag_value(line) {
        Some(v) => match parse_u32(v) {
            Some(x) => x,
            None => 0,
        },
        None => 0,
    }
}

/// The time-control verdict after reading `line`.
pub open spec fn tc_after(tc_ok: bool, line: Seq<u8>, min_tc: u32, allow_correspondence: bool) -> bool {
    if starts_with(line, time_control_tag()) {
        match spec_tag_value(line) {
            Some(v) => spec_tc_passes(v, min_tc, allow_correspondence),
            None => tc_ok,
        }
    } else {
        tc_ok
    }
}

/// The header fields `elite` keeps for a game: white's and black's ratings
/// and the time-control verdict.
pub struct EliteHeader {
    pub white: u32,
    pub black: u32,
    pub tc_ok: bool,
}

/// A game's header before any line of it.
pub open spec fn fresh_elite_header() -> EliteHeader {
    EliteHeader { white: 0, black: 0, tc_ok: true }
}

/// The header after reading `line`.
pub open spec fn elite_after(h: EliteHeader, line: Seq<u8>, min_tc: u32) -> EliteHeader {
    if starts_with(line, white_elo_tag()) {
        EliteHeader { white: elo_of(line), ..h }
    } else if starts_with(line, black_elo_tag()) {
        EliteHeader { black: elo_of(line), ..h }
    } else {
        EliteHeader { tc_ok: tc_after(h.tc_ok, line, min_tc, true), ..h }
    }
}

/// The `elite` filter: ratings and time control.
pub struct EliteFilter {
    min_low: u32,
    min_high: u32,
    min_tc: u32,
    buf: GameBuffer,
    white: u32,
    black: u32,
    tc_ok: bool,
}

impl EliteFilter {
    pub closed spec fn wf(self) -> bool {
        self.buf.wf()
    }

    /// The floors: lower rating, higher rating, time control.
    pub closed spec fn floors(self) -> (u32, u32, u32) {
        (self.min_low, self.min_high, self.min_tc)
    }

    /// The game being read and the counts.
    pub closed spec fn buffer(self) -> GameBuffer {
        self.buf
    }

    /// What the header of the game being read has said so far.
    pub closed spec fn header(self) -> EliteHeader {
        EliteHeader { white: self.white, black: self.black, tc_ok: self.tc_ok }
    }

    /// Whether the game being read would be kept.
    pub open spec fn keeps(self) -> bool {
        spec_elite_keeps(
            self.header().white,
            self.header().black,
            self.floors().0,
            self.floors().1,
            self.header().tc_ok,
        )
    }

    /// A filter with the given floors, before any input.
    pub fn new(min_low: u32, min_high: u32, min_tc: u32) -> (r: EliteFilter)
        ensures
            r.wf(),
            r.floors() == (min_low, min_high, min_tc),
            r.buffer().bytes().len() == 0,
            r.buffer().games() == 0,
            r.buffer().kept_games() == 0,
            r.header() == fresh_elite_header(),
    {
        EliteFilter {
            min_low,
            min_high,
            min_tc,
            buf: GameBuffer::new(),
            white: 0,
            black: 0,
            tc_ok: true,
        }
    }

    /// Games read so far.
    pub fn total(&self) -> (r: u64)
        ensures
            r == self.buffer().games(),
    {
        self.buf.total()
    }

    /// Games kept so far.
    pub fn kept(&self) -> (r: u64)
        ensures
            r == self.buffer().kept_games(),
    {
        self.buf.kept()
    }

    /// Reads one line of the PGN stream (with its line ending).
    pub fn on_line(&mut self, line: &[u8]) -> (r: Result<Step, FilterError>)
        requires
            old(self).wf(),
        ensures
            final(self).wf(),
            final(self).floors() == old(self).floors(),
            match r {
                Ok(step) => {
                    &&& if ends_game(old(self).buffer(), line@) {
                        &&& game_ended(old(self).buffer(), final(self).buffer(), old(self).keeps(), step)
                        &&& final(self).buffer().bytes() == line@
                        &&& final(self).header() == elite_after(
                            fresh_elite_header(),
                            line@,
                            old(self).floors().2,
                        )
                    } else {
                        &&& nothing_ended(old(self).buffer(), final(self).buffer(), step)
                        &&& final(self).buffer().bytes() == old(self).buffer().bytes() + line@
                        &&& final(self).header() == elite_after(
                            old(self).header(),
                            line@,
                            old(self).floors().2,
                        )
                    }
                },
                Err(e) => ends_game(old(self).buffer(), line@) && old(self).buffer().games()
                    == u64::MAX,
            },
    {
        let mut step = quiet();
        if is_event_line(line) && !self.buf.is_empty() {
            let keep = elite_keeps(self.white, self.black, self.min_low, self.min_high, self.tc_ok);
            step = self.buf.close(keep)?;
            self.white = 0;
            self.black = 0;
            self.tc_ok = true;
        }
        if is_white_elo_line(line) {
            self.white = elo_from_line(line);
        } else if is_black_elo_line(line) {
            self.black = elo_from_line(line);
        } else if is_time_control_line(line) {
            if let Some(v) = tag_value(line) {
                self.tc_ok = tc_passes(v, self.min_tc, true);
            }
        }
        proof {
            if starts_with(line@, time_control_tag()) {
                assert(line@.take(13)[1] == line@[1]);
                if starts_with(line@, white_elo_tag()) {
                    assert(line@.take(10)[1] == line@[1]);
                }
                if starts_with(line@, black_elo_tag()) {
                    assert(line@.take(10)[1] == line@[1]);
                }
            }
        }
        self.buf.append(line);
        Ok(step)
    }

    /// The end of the stream: the last game, if any, ends.
    pub fn finish(&mut self) -> (r: Result<Step, FilterError>)
        requires
            old(self).wf(),
        ensures
            final(self).wf(),
            match r {
                Ok(step) => if old(self).buffer().bytes().len() > 0 {
                    game_ended(old(self).buffer(), final(self).buffer(), old(self).keeps(), step)
                } else {
                    nothing_ended(old(self).buffer(), final(self).buffer(), step)
                },
                Err(e) => e is CountOverflow && old(self).buffer().bytes().len() > 0
                    && old(self).buffer().games() == u64::MAX,
            },
    {
        if self.buf.is_empty() {
            return Ok(quiet());
        }
        let keep = elite_keeps(self.white, self.black, self.min_low, self.min_high, self.tc_ok);
        self.buf.close(keep)
    }
}

/// Colour is irrelevant: swapping the two ratings does not change whether a
/// game is kept.
pub proof fn law_elite_colour_blind(white: u32, black: u32, min_low: u32, min_high: u32, tc_ok: bool)
    ensures
        spec_elite_keeps(white, black, min_low, min_high, tc_ok) == spec_elite_keeps(
            black,
            white,
            min_low,
            min_high,
            tc_ok,
        ),
{
}

/// With the higher floor equal to the lower one (the default), a game is
/// kept exactly when both players reach it and the time control passed.
pub proof fn law_elite_both_players(white: u32, black: u32, floor: u32, tc_ok: bool)
    ensures
        spec_elite_keeps(white, black, floor, floor, tc_ok) == (white >= floor && black >= floor
            && tc_ok),
{
}

} // verus!

verus! {

/// Whether a line is the blank line between the tags and the movetext.
pub open spec fn is_blank_line(line: Seq<u8>) -> bool {
    line == seq![10u8] || line == seq![13u8, 10]
}

/// What `opening` keeps of a game while reading it: the movetext so far,
/// whether the movetext has begun, and the time-control verdict.
pub struct OpeningHeader {
    pub movetext: Seq<u8>,
    pub in_movetext: bool,
    pub tc_ok: bool,
}

/// A game before any line of it.
pub open spec fn fresh_opening_header() -> OpeningHeader {
    OpeningHeader { movetext: seq![], in_movetext: false, tc_ok: true }
}

/// The state after reading `line`: a `TimeControl` tag before the movetext
/// sets the verdict; the first blank line starts the movetext; every line
/// after it is movetext.
pub open spec fn opening_after(
    h: OpeningHeader,
    line: Seq<u8>,
    min_tc: u32,
    allow_correspondence: bool,
) -> OpeningHeader {
    let tc_ok = if h.in_movetext {
        h.tc_ok
    } else {
        tc_after(h.tc_ok, line, min_tc, allow_correspondence)
    };
    if !h.in_movetext && is_blank_line(line) {
        OpeningHeader { movetext: h.movetext, in_movetext: true, tc_ok }
    } else if h.in_movetext {
        OpeningHeader { movetext: h.movetext + line, in_movetext: true, tc_ok }
    } else {
        OpeningHeader { movetext: h.movetext, in_movetext: false, tc_ok }
    }
}

fn is_blank(line: &[u8]) -> (r: bool)
    ensures
        r == is_blank_line(line@),
{
    let r = (line.len() == 1 && line[0] == 10) || (line.len() == 2 && line[0] == 13 && line[1]
        == 10);
    proof {
        if line@.len() == 1 {
            assert(r == (line@ =~= seq![10u8]));
        } else if line@.len() == 2 {
            assert(r == (line@ =~= seq![13u8, 10]));
        }
    }
    r
}

/// The `opening` filter: keeps a game that passes through a target
/// position within its first `limit` plies (and clears the time-control
/// floor).
pub struct OpeningFilter {
    start: GamePosition,
    targets: HashSet<u64>,
    limit: usize,
    min_tc: u32,
    allow_correspondence: bool,
    buf: GameBuffer,
    movetext: Vec<u8>,
    in_movetext: bool,
    tc_ok: bool,
}

impl OpeningFilter {
    pub closed spec fn wf(self) -> bool {
        self.buf.wf()
    }

    /// The position games start from.
    pub closed spec fn start(self) -> GamePosition {
        self.start
    }

    /// The target keys.
    pub closed spec fn targets(self) -> Set<u64> {
        self.targets@
    }

    /// Plies searched, floor, and whether correspondence games pass it.
    pub closed spec fn settings(self) -> (usize, u32, bool) {
        (self.limit, self.min_tc, self.allow_correspondence)
    }

    /// The game being read and the counts.
    pub closed spec fn buffer(self) -> GameBuffer {
        self.buf
    }

    /// What has been read of the current game.
    pub closed spec fn header(self) -> OpeningHeader {
        OpeningHeader { movetext: self.movetext@, in_movetext: self.in_movetext, tc_ok: self.tc_ok }
    }

    /// Whether the game being read would be kept.
    pub open spec fn keeps(self) -> bool {
        self.header().tc_ok && reaches_target(
            self.start(),
            extracted(self.header().movetext, self.settings().0 as int),
            self.targets(),
        )
    }

    /// A filter for `targets`, searching `limit` plies of each game, before
    /// any input.
    pub fn new(targets: HashSet<u64>, limit: usize, min_tc: u32, allow_correspondence: bool) -> (r:
        OpeningFilter)
        ensures
            r.wf(),
            Some(r.start()) == start_position(),
            r.targets() == targets@,
            r.settings() == (limit, min_tc, allow_correspondence),
            r.buffer().bytes().len() == 0,
            r.buffer().games() == 0,
            r.buffer().kept_games() == 0,
            r.header() == fresh_opening_header(),
    {
        let r = OpeningFilter {
            start: standard_start(),
            targets,
            limit,
            min_tc,
            allow_correspondence,
            buf: GameBuffer::new(),
            movetext: Vec::new(),
            in_movetext: false,
            tc_ok: true,
        };
        assert(r.header() =~= fresh_opening_header());
        r
    }

    /// Games read so far.
    pub fn total(&self) -> (r: u64)
        ensures
            r == self.buffer().games(),
    {
        self.buf.total()
    }

    /// Games kept so far.
    pub fn kept(&self) -> (r: u64)
        ensures
            r == self.buffer().kept_games(),
    {
        self.buf.kept()
    }

    fn decide(&self) -> (r: bool)
        ensures
            r == self.keeps(),
    {
        let moves = extract_moves(self.movetext.as_slice(), self.limit);
        self.tc_ok && matches_target_from(&self.start, moves.as_slice(), &self.targets)
    }

    /// Reads one line of the PGN stream (with its line ending).
    pub fn on_line(&mut self, line: &[u8]) -> (r: Result<Step, FilterError>)
        requires
            old(self).wf(),
        ensures
            final(self).wf(),
            final(self).start() == old(self).start(),
            final(self).targets() == old(self).targets(),
            final(self).settings() == old(self).settings(),
            match r {
                Ok(step) => if ends_game(old(self).buffer(), line@) {
                    &&& game_ended(old(self).buffer(), final(self).buffer(), old(self).keeps(), step)
                    &&& final(self).buffer().bytes() == line@
                    &&& final(self).header() == opening_after(
                        fresh_opening_header(),
                        line@,
                        old(self).settings().1,
                        old(self).settings().2,
                    )
                } else {
                    &&& nothing_ended(old(self).buffer(), final(self).buffer(), step)
                    &&& final(self).buffer().bytes() == old(self).buffer().bytes() + line@
                    &&& final(self).header() == opening_after(
                        old(self).header(),
                        line@,
                        old(self).settings().1,
                        old(self).settings().2,
                    )
                },
                Err(e) => ends_game(old(self).buffer(), line@) && old(self).buffer().games()
                    == u64::MAX,
            },
    {
        let mut step = quiet();
        if is_event_line(line) && !self.buf.is_empty() {
            let keep = self.decide();
            step = self.buf.close(keep)?;
            self.movetext = Vec::new();
            self.in_movetext = false;
            self.tc_ok = true;
        }
        if !self.in_movetext && is_time_control_line(line) {
            if let Some(v) = tag_value(line) {
                self.tc_ok = tc_passes(v, self.min_tc, self.allow_correspondence);
            }
        }
        if !self.in_movetext && is_blank(line) {
            self.in_movetext = true;
        } else if self.in_movetext {
            append_bytes(&mut self.movetext, line);
        }
        self.buf.append(line);
        Ok(step)
    }

    /// The end of the stream: the last game, if any, ends.
    pub fn finish(&mut self) -> (r: Result<Step, FilterError>)
        requires
            old(self).wf(),
        ensures
            final(self).wf(),
            match r {
                Ok(step) => if old(self).buffer().bytes().len() > 0 {
                    game_ended(old(self).buffer(), final(self).buffer(), old(self).keeps(), step)
                } else {
                    nothing_ended(old(self).buffer(), final(self).buffer(), step)
                },
                Err(e) => e is CountOverflow && old(self).buffer().bytes().len() > 0
                    && old(self).buffer().games() == u64::MAX,
            },
    {
        if self.buf.is_empty() {
            return Ok(quiet());
        }
        let keep = self.decide();
        self.buf.close(keep)
    }
}

} // verus!

verus! {

/// The bytes of `parts`, one after the other.
pub open spec fn concat(parts: Seq<Seq<u8>>) -> Seq<u8>
    decreases parts.len(),
{
    if parts.len() == 0 {
        seq![]
    } else {
        concat(parts.drop_last()) + parts.last()
    }
}

/// How the filters cut a stream of lines into games: the games finished so
/// far and the one being read. A line that opens a game (`[Event `) ends
/// the current game unless that one is still empty.
pub open spec fn split_stream(lines: Seq<Seq<u8>>) -> (Seq<Seq<u8>>, Seq<u8>)
    decreases lines.len(),
{
    if lines.len() == 0 {
        (seq![], seq![])
    } else {
        let (done, cur) = split_stream(lines.drop_last());
        let line = lines.last();
        if starts_with(line, event_tag()) && cur.len() > 0 {
            (done.push(cur), line)
        } else {
            (done, cur + line)
        }
    }
}

/// Games are copied verbatim: the finished games followed by the one being
/// read are exactly the bytes of the stream, in order, and every game but
/// the first begins with its `[Event ` line.
pub proof fn law_games_partition_stream(lines: Seq<Seq<u8>>)
    ensures
        concat(split_stream(lines).0) + split_stream(lines).1 == concat(lines),
        forall|k: int|
            1 <= k < split_stream(lines).0.len() ==> starts_with(
                #[trigger] split_stream(lines).0[k],
                event_tag(),
            ),
        split_stream(lines).0.len() > 0 ==> starts_with(split_stream(lines).1, event_tag()),
    decreases lines.len(),
{
    if lines.len() > 0 {
        let prev = lines.drop_last();
        law_games_partition_stream(prev);
        let (done, cur) = split_stream(prev);
        let line = lines.last();
        if starts_with(line, event_tag()) && cur.len() > 0 {
            let d2 = done.push(cur);
            assert(d2.drop_last() =~= done);
            assert(concat(d2) + line =~= concat(lines));
            assert forall|k: int| 1 <= k < d2.len() implies starts_with(#[trigger] d2[k], event_tag()) by {
                if k < done.len() {
                    assert(d2[k] == done[k]);
                }
            }
        } else {
            assert(concat(done) + (cur + line) =~= concat(lines));
            if done.len() > 0 {
                assert((cur + line).take(event_tag().len() as int) =~= cur.take(
                    event_tag().len() as int,
                ));
            }
        }
    }
}

/// One line read by any of the filters moves its game buffer exactly as
/// `split_stream` does: ending the game that `line` closes, or growing it.
pub proof fn law_buffer_follows_split(lines: Seq<Seq<u8>>, line: Seq<u8>, before: GameBuffer, after: GameBuffer)
    requires
        before.bytes() == split_stream(lines).1,
        if ends_game(before, line) {
            after.bytes() == line
        } else {
            after.bytes() == before.bytes() + line
        },
    ensures
        after.bytes() == split_stream(lines.push(line)).1,
        ends_game(before, line) ==> split_stream(lines.push(line)).0 == split_stream(lines).0.push(
            before.bytes(),
        ),
        !ends_game(before, line) ==> split_stream(lines.push(line)).0 == split_stream(lines).0,
{
    assert(lines.push(line).drop_last() =~= lines);
}

} // verus!

verus! {

/// Searching deeper never loses a match: a game that reaches a target
/// within `small` plies reaches it within any `large >= small`.
pub proof fn law_deeper_search_keeps_matches(
    start: GamePosition,
    movetext: Seq<u8>,
    targets: Set<u64>,
    small: int,
    large: int,
)
    requires
        0 <= small <= large,
        reaches_target(start, extracted(movetext, small), targets),
    ensures
        reaches_target(start, extracted(movetext, large), targets),
{
    crate::movetext::law_limit_truncates(movetext, small, large);
    let a = extracted(movetext, small);
    let b = extracted(movetext, large);
    let k = choose|k: int|
        1 <= k <= a.len() && (#[trigger] crate::position::replay(start, a.take(k)) matches Some(p)
            && targets.contains(crate::position::zobrist_key(p)));
    assert(a.take(k) =~= b.take(k));
    assert(1 <= k <= b.len() && (crate::position::replay(start, b.take(k)) matches Some(p)
        && targets.contains(crate::position::zobrist_key(p))));
}

} // verus!

verus! {

/// Whether `line` begins with the bytes `prefix` (written out, so that the
/// laws below name the tags by their bytes).
pub open spec fn begins(line: Seq<u8>, prefix: Seq<u8>) -> bool {
    line.len() >= prefix.len() && forall|k: int| 0 <= k < prefix.len() ==> line[k] == prefix[k]
}

proof fn lemma_begins(line: Seq<u8>, prefix: Seq<u8>)
    ensures
        begins(line, prefix) == starts_with(line, prefix),
{
    if begins(line, prefix) {
        assert(line.take(prefix.len() as int) =~= prefix);
    }
    if starts_with(line, prefix) {
        assert forall|k: int| 0 <= k < prefix.len() implies line[k] == prefix[k] by {
            assert(line.take(prefix.len() as int)[k] == line[k]);
        }
    }
}

/// A game ends exactly at a line beginning with the seven bytes `[Event `
/// when the current game holds some bytes.
pub proof fn law_game_boundary(buf: GameBuffer, line: Seq<u8>)
    ensures
        ends_game(buf, line) == (begins(line, seq![91u8, 69, 118, 101, 110, 116, 32])
            && buf.bytes().len() > 0),
{
    lemma_begins(line, event_tag());
    assert(event_tag() =~= seq![91u8, 69, 118, 101, 110, 116, 32]);
}

/// White's rating is set only by a line beginning with the ten bytes
/// `[WhiteElo `, black's only by one beginning with `[BlackElo `, and the
/// time-control verdict only by one beginning with `[TimeControl `; every
/// other line (`[White "name"]`, `[WhiteRatingDiff "+5"]`, ...) leaves
/// them as they were.
pub proof fn law_elite_header_tags(h: EliteHeader, line: Seq<u8>, min_tc: u32)
    ensures
        ({
            let after = elite_after(h, line, min_tc);
            let white = begins(line, seq![91u8, 87, 104, 105, 116, 101, 69, 108, 111, 32]);
            let black = begins(line, seq![91u8, 66, 108, 97, 99, 107, 69, 108, 111, 32]);
            let clock = begins(
                line,
                seq![91u8, 84, 105, 109, 101, 67, 111, 110, 116, 114, 111, 108, 32],
            );
            &&& white ==> after.white == elo_of(line)
            &&& !white ==> after.white == h.white
            &&& black ==> after.black == elo_of(line)
            &&& !black ==> after.black == h.black
            &&& clock ==> after.tc_ok == match spec_tag_value(line) {
                Some(v) => spec_tc_passes(v, min_tc, true),
                None => h.tc_ok,
            }
            &&& !clock ==> after.tc_ok == h.tc_ok
        }),
{
    lemma_begins(line, white_elo_tag());
    lemma_begins(line, black_elo_tag());
    lemma_begins(line, time_control_tag());
    assert(white_elo_tag() =~= seq![91u8, 87, 104, 105, 116, 101, 69, 108, 111, 32]);
    assert(black_elo_tag() =~= seq![91u8, 66, 108, 97, 99, 107, 69, 108, 111, 32]);
    assert(time_control_tag() =~= seq![
        91u8,
        84,
        105,
        109,
        101,
        67,
        111,
        110,
        116,
        114,
        111,
        108,
        32,
    ]);
    if begins(line, white_elo_tag()) || begins(line, black_elo_tag()) {
        assert(line[1] == 87 || line[1] == 66);
    }
    if begins(line, white_elo_tag()) {
        assert(line[1] == 87);
    }
}

/// The rating read from a `WhiteElo`/`BlackElo` line is the number in its
/// quotes, and 0 when there is none.
pub proof fn law_elo_value(line: Seq<u8>)
    ensures
        elo_of(line) == match spec_tag_value(line) {
            Some(v) => match spec_parse_u32(v) {
                Some(x) => x,
                None => 0u32,
            },
            None => 0u32,
        },
{
}

/// The elite rule in terms of the two ratings: both reach the lower floor,
/// at least one reaches the higher floor, and the time control passed.
pub proof fn law_elite_rule(white: u32, black: u32, min_low: u32, min_high: u32, tc_ok: bool)
    ensures
        spec_elite_keeps(white, black, min_low, min_high, tc_ok) == (white >= min_low && black
            >= min_low && (white >= min_high || black >= min_high) && tc_ok),
{
}

/// An ECO code matches when any given prefix, at any position in the list,
/// begins it, and only then; matching against two lists of prefixes put
/// together is matching against either.
pub proof fn law_eco_prefixes(prefixes: Seq<Seq<u8>>, more: Seq<Seq<u8>>, code: Seq<u8>)
    ensures
        forall|k: int|
            0 <= k < prefixes.len() && begins(code, #[trigger] prefixes[k]) ==> eco_matches(
                prefixes,
                code,
            ),
        eco_matches(prefixes, code) ==> exists|k: int|
            0 <= k < prefixes.len() && begins(code, #[trigger] prefixes[k]),
        eco_matches(prefixes + more, code) == (eco_matches(prefixes, code) || eco_matches(
            more,
            code,
        )),
{
    assert forall|k: int| 0 <= k < prefixes.len() && begins(code, #[trigger] prefixes[k]) implies eco_matches(
        prefixes,
        code,
    ) by {
        lemma_begins(code, prefixes[k]);
    }
    if eco_matches(prefixes, code) {
        let k = choose|k: int| 0 <= k < prefixes.len() && starts_with(code, #[trigger] prefixes[k]);
        lemma_begins(code, prefixes[k]);
    }
    let all = prefixes + more;
    if eco_matches(all, code) {
        let k = choose|k: int| 0 <= k < all.len() && starts_with(code, #[trigger] all[k]);
        if k < prefixes.len() {
            assert(all[k] == prefixes[k]);
        } else {
            assert(all[k] == more[k - prefixes.len()]);
        }
    }
    if eco_matches(prefixes, code) {
        let k = choose|k: int| 0 <= k < prefixes.len() && starts_with(code, #[trigger] prefixes[k]);
        assert(all[k] == prefixes[k]);
    }
    if eco_matches(more, code) {
        let k = choose|k: int| 0 <= k < more.len() && starts_with(code, #[trigger] more[k]);
        assert(all[k + prefixes.len()] == more[k]);
    }
}

/// The ECO verdict is set only by a line beginning with the five bytes
/// `[ECO ` that has a quoted value, to whether a prefix begins that value.
pub proof fn law_eco_header(prefixes: Seq<Seq<u8>>, matched: bool, line: Seq<u8>)
    ensures
        begins(line, seq![91u8, 69, 67, 79, 32]) ==> eco_after(prefixes, matched, line) == match spec_tag_value(line) {
            Some(v) => eco_matches(prefixes, v),
            None => matched,
        },
        !begins(line, seq![91u8, 69, 67, 79, 32]) ==> eco_after(prefixes, matched, line) == matched,
{
    lemma_begins(line, eco_tag());
    assert(eco_tag() =~= seq![91u8, 69, 67, 79, 32]);
}

/// The time-control verdict is set only by a line beginning with the
/// thirteen bytes `[TimeControl ` that has a quoted value, to whether that
/// value clears the floor.
pub proof fn law_clock_header(tc_ok: bool, line: Seq<u8>, min_tc: u32, allow_correspondence: bool)
    ensures
        begins(line, seq![91u8, 84, 105, 109, 101, 67, 111, 110, 116, 114, 111, 108, 32]) ==> tc_after(
            tc_ok,
            line,
            min_tc,
            allow_correspondence,
        ) == match spec_tag_value(line) {
            Some(v) => spec_tc_passes(v, min_tc, allow_correspondence),
            None => tc_ok,
        },
        !begins(line, seq![91u8, 84, 105, 109, 101, 67, 111, 110, 116, 114, 111, 108, 32]) ==> tc_after(
            tc_ok,
            line,
            min_tc,
            allow_correspondence,
        ) == tc_ok,
{
    lemma_begins(line, time_control_tag());
    assert(time_control_tag() =~= seq![
        91u8,
        84,
        105,
        109,
        101,
        67,
        111,
        110,
        116,
        114,
        111,
        108,
        32,
    ]);
}

} // verus!
