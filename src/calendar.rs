//! Reading and writing whole calendars: events between `BEGIN:VEVENT` and
//! `END:VEVENT`, one property per line.

use vstd::prelude::*;
use crate::model::{block_wf, blocks_wf, in_time_range, timing_wf, Frequency, RecurrenceRule, TimeBlock};
use crate::text::{chars_of, string_of};
use crate::wire::{
    duration_chars, lemma_duration_round_trip, lemma_rest_drop, lemma_stamp_round_trip, opt_i64,
    instant_of, parse_duration, parse_stamp, push_duration, read_instant, push_stamp, read_duration, read_stamp, stamp_known,
    stamp_of,
};

verus! {

/// A block as the format sees it: its text fields as characters.
pub ghost struct BlockView {
    pub rrule: Option<RecurrenceRule>,
    pub dtstart: i64,
    pub duration: Option<i64>,
    pub dtend: Option<i64>,
    pub uid: Seq<char>,
    pub summary: Seq<char>,
    pub dtstamp: i64,
}

pub open spec fn block_view(b: TimeBlock) -> BlockView {
    BlockView {
        rrule: b.rrule,
        dtstart: b.dtstart,
        duration: b.duration,
        dtend: b.dtend,
        uid: b.uid@,
        summary: b.summary@,
        dtstamp: b.dtstamp,
    }
}

pub open spec fn block_views(bs: Seq<TimeBlock>) -> Seq<BlockView> {
    bs.map_values(|b: TimeBlock| block_view(b))
}

/// Why a calendar text could not be read.
#[derive(PartialEq, Eq, Structural, Clone, Copy, Debug)]
pub enum WireError {
    /// An instant that is not `YYYYMMDD[THHMMSS[Z]]` or does not exist.
    BadTimestamp,
    /// A duration that is not `P[nW][nD][T[nH][nM][nS]]`.
    BadDuration,
    /// A repeat rule without a frequency, or with an unreadable `UNTIL`.
    BadRecurrence,
    /// A repeat frequency other than DAILY, WEEKLY, MONTHLY and YEARLY.
    UnknownFrequency,
    /// An event without `UID`.
    MissingUid,
    /// An event without `DTSTART`.
    MissingStart,
    /// An event whose timing is malformed (a negative length, an end before
    /// its start, an instant out of range).
    InvalidBlock,
    /// An event that is not closed by `END:VEVENT`.
    Unterminated,
    /// An event without `SUMMARY`.
    MissingSummary,
    /// A text that is not framed by `BEGIN:VCALENDAR` and `END:VCALENDAR`,
    /// or an event outside that frame.
    NotACalendar,
}

/// Splits `s` at each `sep`; `cur` is the part read so far.
pub open spec fn split_acc(s: Seq<char>, sep: char, cur: Seq<char>) -> Seq<Seq<char>>
    decreases s.len(),
{
    if s.len() == 0 {
        seq![cur]
    } else if s[0] == sep {
        seq![cur] + split_acc(s.drop_first(), sep, Seq::empty())
    } else {
        split_acc(s.drop_first(), sep, cur.push(s[0]))
    }
}

pub open spec fn strip_cr(l: Seq<char>) -> Seq<char> {
    if l.len() > 0 && l.last() == '\r' {
        l.drop_last()
    } else {
        l
    }
}

/// The index of the first `a` or `b` in `l` from `i` on, or its length.
pub open spec fn index_of(l: Seq<char>, a: char, b: char, i: int) -> int
    decreases l.len() - i,
{
    if i >= l.len() || i < 0 {
        l.len() as int
    } else if l[i] == a || l[i] == b {
        i
    } else {
        index_of(l, a, b, i + 1)
    }
}

/// The name of a property line: what comes before the first `:` or `;`.
pub open spec fn prop_name(l: Seq<char>) -> Seq<char> {
    l.subrange(0, index_of(l, ':', ';', 0))
}

/// The value of a property line: what comes after the first `:`.
pub open spec fn prop_value(l: Seq<char>) -> Seq<char> {
    let c = index_of(l, ':', ':', 0);
    if c < l.len() {
        l.subrange(c + 1, l.len() as int)
    } else {
        Seq::empty()
    }
}

/// The key of a `KEY=VALUE` part.
pub open spec fn part_key(p: Seq<char>) -> Seq<char> {
    p.subrange(0, index_of(p, '=', '=', 0))
}

pub open spec fn part_value(p: Seq<char>) -> Seq<char> {
    let e = index_of(p, '=', '=', 0);
    if e < p.len() {
        p.subrange(e + 1, p.len() as int)
    } else {
        Seq::empty()
    }
}

pub open spec fn kw_begin() -> Seq<char> { seq!['B', 'E', 'G', 'I', 'N'] }
pub open spec fn kw_end() -> Seq<char> { seq!['E', 'N', 'D'] }
pub open spec fn kw_vevent() -> Seq<char> { seq!['V', 'E', 'V', 'E', 'N', 'T'] }
pub open spec fn kw_uid() -> Seq<char> { seq!['U', 'I', 'D'] }
pub open spec fn kw_summary() -> Seq<char> { seq!['S', 'U', 'M', 'M', 'A', 'R', 'Y'] }
pub open spec fn kw_dtstart() -> Seq<char> { seq!['D', 'T', 'S', 'T', 'A', 'R', 'T'] }
pub open spec fn kw_dtend() -> Seq<char> { seq!['D', 'T', 'E', 'N', 'D'] }
pub open spec fn kw_dtstamp() -> Seq<char> { seq!['D', 'T', 'S', 'T', 'A', 'M', 'P'] }
pub open spec fn kw_duration() -> Seq<char> { seq!['D', 'U', 'R', 'A', 'T', 'I', 'O', 'N'] }
pub open spec fn kw_rrule() -> Seq<char> { seq!['R', 'R', 'U', 'L', 'E'] }
pub open spec fn kw_freq() -> Seq<char> { seq!['F', 'R', 'E', 'Q'] }
pub open spec fn kw_until() -> Seq<char> { seq!['U', 'N', 'T', 'I', 'L'] }
pub open spec fn kw_daily() -> Seq<char> { seq!['D', 'A', 'I', 'L', 'Y'] }
pub open spec fn kw_weekly() -> Seq<char> { seq!['W', 'E', 'E', 'K', 'L', 'Y'] }
pub open spec fn kw_monthly() -> Seq<char> { seq!['M', 'O', 'N', 'T', 'H', 'L', 'Y'] }
pub open spec fn kw_yearly() -> Seq<char> { seq!['Y', 'E', 'A', 'R', 'L', 'Y'] }

pub open spec fn frequency_named(v: Seq<char>) -> Option<Frequency> {
    if v == kw_daily() {
        Some(Frequency::Daily)
    } else if v == kw_weekly() {
        Some(Frequency::Weekly)
    } else if v == kw_monthly() {
        Some(Frequency::Monthly)
    } else if v == kw_yearly() {
        Some(Frequency::Yearly)
    } else {
        None
    }
}

/// What the parts of a repeat rule read so far say.
pub ghost struct RuleAcc {
    pub freq: Option<Frequency>,
    pub until: Option<int>,
}

/// Reads one `KEY=VALUE` part of a repeat rule; other keys are ignored.
pub open spec fn rule_step(acc: RuleAcc, part: Seq<char>, offset: int) -> Result<RuleAcc, WireError> {
    let k = part_key(part);
    let v = part_value(part);
    if k == kw_freq() {
        match frequency_named(v) {
            Some(f) => Ok(RuleAcc { freq: Some(f), ..acc }),
            None => Err(WireError::UnknownFrequency),
        }
    } else if k == kw_until() {
        match instant_of(v, offset) {
            Some(t) => Ok(RuleAcc { until: Some(t), ..acc }),
            None => Err(WireError::BadRecurrence),
        }
    } else {
        Ok(acc)
    }
}

pub open spec fn rule_run(acc: RuleAcc, parts: Seq<Seq<char>>, offset: int) -> Result<RuleAcc, WireError>
    decreases parts.len(),
{
    if parts.len() == 0 {
        Ok(acc)
    } else {
        match rule_step(acc, parts[0], offset) {
            Ok(a) => rule_run(a, parts.drop_first(), offset),
            Err(e) => Err(e),
        }
    }
}

/// A repeat rule `FREQ=...;UNTIL=...`, parts separated by `;`.
pub open spec fn parse_rule(v: Seq<char>, offset: int) -> Result<RecurrenceRule, WireError> {
    match rule_run(RuleAcc { freq: None, until: None }, split_acc(v, ';', Seq::empty()), offset) {
        Ok(acc) => match acc.freq {
            Some(f) => Ok(
                RecurrenceRule {
                    frequency: f,
                    until: match acc.until {
                        Some(t) => Some(t as i64),
                        None => None,
                    },
                },
            ),
            None => Err(WireError::BadRecurrence),
        },
        Err(e) => Err(e),
    }
}

fn chars_eq(a: &Vec<char>, b: &Vec<char>) -> (r: bool)
    ensures
        r == (a@ == b@),
{
    if a.len() != b.len() {
        return false;
    }
    let mut i: usize = 0;
    while i < a.len()
        invariant
            i <= a@.len(),
            a@.len() == b@.len(),
            forall|k: int| 0 <= k < i ==> a@[k] == b@[k],
        decreases a@.len() - i,
    {
        if a[i] != b[i] {
            return false;
        }
        i = i + 1;
    }
    assert(a@ =~= b@);
    true
}

fn sub_chars(s: &Vec<char>, a: usize, b: usize) -> (r: Vec<char>)
    requires
        a <= b <= s@.len(),
    ensures
        r@ == s@.subrange(a as int, b as int),
{
    let mut out: Vec<char> = Vec::new();
    let mut i: usize = a;
    while i < b
        invariant
            a <= i <= b <= s@.len(),
            out@ =~= s@.subrange(a as int, i as int),
        decreases b - i,
    {
        out.push(s[i]);
        i = i + 1;
    }
    out
}

fn index_of_exec(l: &Vec<char>, a: char, b: char) -> (r: usize)
    ensures
        r as int == index_of(l@, a, b, 0),
        r <= l@.len(),
{
    let mut i: usize = 0;
    while i < l.len()
        invariant
            i <= l@.len(),
            index_of(l@, a, b, i as int) == index_of(l@, a, b, 0),
        decreases l@.len() - i,
    {
        if l[i] == a || l[i] == b {
            return i;
        }
        i = i + 1;
    }
    i
}

fn frequency_of(v: &Vec<char>) -> (r: Option<Frequency>)
    ensures
        r == frequency_named(v@),
{
    let daily = vec!['D', 'A', 'I', 'L', 'Y'];
    let weekly = vec!['W', 'E', 'E', 'K', 'L', 'Y'];
    let monthly = vec!['M', 'O', 'N', 'T', 'H', 'L', 'Y'];
    let yearly = vec!['Y', 'E', 'A', 'R', 'L', 'Y'];
    assert(daily@ =~= kw_daily());
    assert(weekly@ =~= kw_weekly());
    assert(monthly@ =~= kw_monthly());
    assert(yearly@ =~= kw_yearly());
    if chars_eq(v, &daily) {
        Some(Frequency::Daily)
    } else if chars_eq(v, &weekly) {
        Some(Frequency::Weekly)
    } else if chars_eq(v, &monthly) {
        Some(Frequency::Monthly)
    } else if chars_eq(v, &yearly) {
        Some(Frequency::Yearly)
    } else {
        None
    }
}

pub open spec fn rule_acc(freq: Option<Frequency>, until: Option<i64>) -> RuleAcc {
    RuleAcc { freq, until: opt_i64(until) }
}

fn rule_part(freq: &mut Option<Frequency>, until: &mut Option<i64>, part: &Vec<char>, offset: i64) -> (r: Result<(), WireError>)
    requires
        -86400 < offset < 86400,
    ensures
        match rule_step(rule_acc(*old(freq), *old(until)), part@, offset as int) {
            Ok(a) => r is Ok && rule_acc(*final(freq), *final(until)) == a,
            Err(e) => r == Err::<(), WireError>(e),
        },
{
    let e = index_of_exec(part, '=', '=');
    let key = sub_chars(part, 0, e);
    let value = if e < part.len() {
        sub_chars(part, e + 1, part.len())
    } else {
        Vec::new()
    };
    assert(value@ =~= part_value(part@));
    let kf = vec!['F', 'R', 'E', 'Q'];
    let ku = vec!['U', 'N', 'T', 'I', 'L'];
    assert(kf@ =~= kw_freq());
    assert(ku@ =~= kw_until());
    if chars_eq(&key, &kf) {
        match frequency_of(&value) {
            Some(f) => {
                *freq = Some(f);
                Ok(())
            },
            None => Err(WireError::UnknownFrequency),
        }
    } else if chars_eq(&key, &ku) {
        match read_instant(&value, offset) {
            Some(t) => {
                *until = Some(t);
                Ok(())
            },
            None => Err(WireError::BadRecurrence),
        }
    } else {
        Ok(())
    }
}

proof fn lemma_split_sep(cur: Seq<char>, rest: Seq<Seq<char>>, run_first: Seq<Seq<char>>)
    requires
        run_first == seq![cur] + rest,
    ensures
        run_first[0] == cur,
        run_first.drop_first() == rest,
{
    assert(run_first.drop_first() =~= rest);
}

/// Reads a repeat rule (see `parse_rule`).
pub fn read_rule(v: &Vec<char>, offset: i64) -> (r: Result<RecurrenceRule, WireError>)
    requires
        -86400 < offset < 86400,
    ensures
        r == parse_rule(v@, offset as int),
{
    let ghost target = rule_run(RuleAcc { freq: None, until: None }, split_acc(v@, ';', Seq::empty()), offset as int);
    let mut freq: Option<Frequency> = None;
    let mut until: Option<i64> = None;
    let mut cur: Vec<char> = Vec::new();
    let mut i: usize = 0;
    let n = v.len();
    assert(v@.subrange(0, n as int) =~= v@);
    while i < n
        invariant
            i <= n,
            n == v@.len(),
            -86400 < offset < 86400,
            target == rule_run(RuleAcc { freq: None, until: None }, split_acc(v@, ';', Seq::empty()), offset as int),
            rule_run(rule_acc(freq, until), split_acc(v@.subrange(i as int, n as int), ';', cur@), offset as int) == target,
        decreases n - i,
    {
        proof {
            lemma_rest_drop(v@, i as int);
        }
        if v[i] == ';' {
            let ghost rest = split_acc(v@.subrange(i as int + 1, n as int), ';', Seq::empty());
            proof {
                lemma_split_sep(cur@, rest, seq![cur@] + rest);
            }
            match rule_part(&mut freq, &mut until, &cur, offset) {
                Ok(()) => {},
                Err(e) => {
                    return Err(e);
                },
            }
            cur = Vec::new();
        } else {
            cur.push(v[i]);
        }
        i = i + 1;
    }
    proof {
        assert(v@.subrange(n as int, n as int) =~= Seq::<char>::empty());
        assert(seq![cur@] =~= seq![cur@] + Seq::<Seq<char>>::empty());
        lemma_split_sep(cur@, Seq::empty(), seq![cur@]);
    }
    let ghost acc0 = rule_acc(freq, until);
    assert(target == rule_run(acc0, seq![cur@], offset as int));
    match rule_part(&mut freq, &mut until, &cur, offset) {
        Ok(()) => {},
        Err(e) => {
            return Err(e);
        },
    }
    assert(rule_run(rule_acc(freq, until), Seq::empty(), offset as int) == Ok::<RuleAcc, WireError>(rule_acc(freq, until)));
    assert(target == Ok::<RuleAcc, WireError>(rule_acc(freq, until)));
    let r = match freq {
        Some(f) => Ok(RecurrenceRule { frequency: f, until }),
        None => Err(WireError::BadRecurrence),
    };
    proof {
        let spec_until = match opt_i64(until) {
            Some(t) => Some(t as i64),
            None => None,
        };
        assert(spec_until == until);
    }
    r
}

/// The properties of the event being read.
pub ghost struct Partial {
    pub uid: Option<Seq<char>>,
    pub summary: Option<Seq<char>>,
    pub dtstart: Option<i64>,
    pub duration: Option<i64>,
    pub dtend: Option<i64>,
    pub dtstamp: Option<i64>,
    pub rrule: Option<RecurrenceRule>,
}

pub open spec fn no_props() -> Partial {
    Partial {
        uid: None,
        summary: None,
        dtstart: None,
        duration: None,
        dtend: None,
        dtstamp: None,
        rrule: None,
    }
}

/// Reads one property of an event; unknown properties are ignored.
#[verifier::opaque]
pub open spec fn prop_step(p: Partial, name: Seq<char>, value: Seq<char>, offset: int) -> Result<
    Partial,
    WireError,
> {
    if name == kw_uid() {
        Ok(Partial { uid: Some(value), ..p })
    } else if name == kw_summary() {
        Ok(Partial { summary: Some(value), ..p })
    } else if name == kw_dtstart() || name == kw_dtend() || name == kw_dtstamp() {
        match instant_of(value, offset) {
            Some(t) => if name == kw_dtstart() {
                Ok(Partial { dtstart: Some(t as i64), ..p })
            } else if name == kw_dtend() {
                Ok(Partial { dtend: Some(t as i64), ..p })
            } else {
                Ok(Partial { dtstamp: Some(t as i64), ..p })
            },
            None => Err(WireError::BadTimestamp),
        }
    } else if name == kw_duration() {
        match parse_duration(value) {
            Some(d) => Ok(Partial { duration: Some(d as i64), ..p }),
            None => Err(WireError::BadDuration),
        }
    } else if name == kw_rrule() {
        match parse_rule(value, offset) {
            Ok(r) => Ok(Partial { rrule: Some(r), ..p }),
            Err(e) => Err(e),
        }
    } else {
        Ok(p)
    }
}

/// The block an event describes: it needs a `UID`, a `DTSTART` and a
/// `SUMMARY`; the stamp defaults to the start.
pub open spec fn finish(p: Partial) -> Result<BlockView, WireError> {
    match p.uid {
        None => Err(WireError::MissingUid),
        Some(uid) => match p.dtstart {
            None => Err(WireError::MissingStart),
            Some(start) => {
                let stamp = match p.dtstamp {
                    Some(t) => t,
                    None => start,
                };
                if p.summary is None {
                    Err(WireError::MissingSummary)
                } else if timing_wf(p.rrule, start, p.duration, p.dtend, stamp) {
                    Ok(
                        BlockView {
                            rrule: p.rrule,
                            dtstart: start,
                            duration: p.duration,
                            dtend: p.dtend,
                            uid,
                            summary: p.summary->0,
                            dtstamp: stamp,
                        },
                    )
                } else {
                    Err(WireError::InvalidBlock)
                }
            },
        },
    }
}

/// Where the reader stands: the blocks read, whether it is inside an event,
/// the component nested in that event that it is skipping, the event's
/// properties so far, and whether the calendar has been opened and closed.
pub ghost struct ReadState {
    pub blocks: Seq<BlockView>,
    pub inside: bool,
    pub skip: Option<Seq<char>>,
    pub part: Partial,
    pub opened: bool,
    pub closed: bool,
}

pub open spec fn start_state() -> ReadState {
    ReadState {
        blocks: Seq::empty(),
        inside: false,
        skip: None,
        part: no_props(),
        opened: false,
        closed: false,
    }
}

/// Reads one line (a trailing carriage return is dropped). Outside events
/// only `BEGIN:VCALENDAR`, `END:VCALENDAR` and `BEGIN:VEVENT` count, and an
/// event must stand between the first two; inside, components nested in the
/// event are skipped, `END:VEVENT` ends the event and other lines are
/// properties, whose instants without `Z` are local time `offset` seconds
/// east of UTC.
#[verifier::opaque]
pub open spec fn line_step(st: ReadState, raw: Seq<char>, offset: int) -> Result<ReadState, WireError> {
    let l = strip_cr(raw);
    let name = prop_name(l);
    let value = prop_value(l);
    if !st.inside {
        if name == kw_begin() && value == kw_vevent() {
            if st.opened && !st.closed {
                Ok(ReadState { inside: true, skip: None, part: no_props(), ..st })
            } else {
                Err(WireError::NotACalendar)
            }
        } else if name == kw_begin() && value == kw_vcalendar() && !st.opened {
            Ok(ReadState { opened: true, ..st })
        } else if name == kw_end() && value == kw_vcalendar() && st.opened && !st.closed {
            Ok(ReadState { closed: true, ..st })
        } else {
            Ok(st)
        }
    } else if st.skip is Some {
        if name == kw_end() && value == st.skip->0 {
            Ok(ReadState { skip: None, ..st })
        } else {
            Ok(st)
        }
    } else if name == kw_begin() {
        Ok(ReadState { skip: Some(value), ..st })
    } else if name == kw_end() {
        if value == kw_vevent() {
            match finish(st.part) {
                Ok(b) => Ok(
                    ReadState {
                        blocks: st.blocks.push(b),
                        inside: false,
                        skip: None,
                        part: no_props(),
                        ..st
                    },
                ),
                Err(e) => Err(e),
            }
        } else {
            Err(WireError::Unterminated)
        }
    } else {
        match prop_step(st.part, name, value, offset) {
            Ok(p) => Ok(ReadState { part: p, ..st }),
            Err(e) => Err(e),
        }
    }
}

pub open spec fn read_run(st: ReadState, lines: Seq<Seq<char>>, offset: int) -> Result<ReadState, WireError>
    decreases lines.len(),
{
    if lines.len() == 0 {
        Ok(st)
    } else {
        match line_step(st, lines[0], offset) {
            Ok(s) => read_run(s, lines.drop_first(), offset),
            Err(e) => Err(e),
        }
    }
}

/// The blocks of a calendar text, lines separated by line feeds; instants
/// without `Z` are local time `offset` seconds east of UTC.
pub open spec fn parse_calendar(text: Seq<char>, offset: int) -> Result<Seq<BlockView>, WireError> {
    match read_run(start_state(), split_acc(text, '\n', Seq::empty()), offset) {
        Ok(st) => if st.inside {
            Err(WireError::Unterminated)
        } else if !(st.opened && st.closed) {
            Err(WireError::NotACalendar)
        } else {
            Ok(st.blocks)
        },
        Err(e) => Err(e),
    }
}

struct PartialBlock {
    uid: Option<Vec<char>>,
    summary: Option<Vec<char>>,
    dtstart: Option<i64>,
    duration: Option<i64>,
    dtend: Option<i64>,
    dtstamp: Option<i64>,
    rrule: Option<RecurrenceRule>,
}

spec fn opt_chars(o: Option<Vec<char>>) -> Option<Seq<char>> {
    match o {
        Some(v) => Some(v@),
        None => None,
    }
}

spec fn partial_view(p: PartialBlock) -> Partial {
    Partial {
        uid: opt_chars(p.uid),
        summary: opt_chars(p.summary),
        dtstart: p.dtstart,
        duration: p.duration,
        dtend: p.dtend,
        dtstamp: p.dtstamp,
        rrule: p.rrule,
    }
}

fn empty_part() -> (r: PartialBlock)
    ensures
        partial_view(r) == no_props(),
{
    PartialBlock {
        uid: None,
        summary: None,
        dtstart: None,
        duration: None,
        dtend: None,
        dtstamp: None,
        rrule: None,
    }
}

struct Reader {
    blocks: Vec<TimeBlock>,
    inside: bool,
    skip: Option<Vec<char>>,
    part: PartialBlock,
    opened: bool,
    closed: bool,
}

spec fn reader_view(r: Reader) -> ReadState {
    ReadState {
        blocks: block_views(r.blocks@),
        inside: r.inside,
        skip: opt_chars(r.skip),
        part: partial_view(r.part),
        opened: r.opened,
        closed: r.closed,
    }
}

fn read_prop(part: &mut PartialBlock, name: &Vec<char>, value: Vec<char>, offset: i64) -> (r: Result<(), WireError>)
    requires
        -86400 < offset < 86400,
    ensures
        match prop_step(partial_view(*old(part)), name@, value@, offset as int) {
            Ok(p) => r is Ok && partial_view(*final(part)) == p,
            Err(e) => r == Err::<(), WireError>(e),
        },
{
    reveal(prop_step);
    let k_uid = vec!['U', 'I', 'D'];
    let k_summary = vec!['S', 'U', 'M', 'M', 'A', 'R', 'Y'];
    let k_dtstart = vec!['D', 'T', 'S', 'T', 'A', 'R', 'T'];
    let k_dtend = vec!['D', 'T', 'E', 'N', 'D'];
    let k_dtstamp = vec!['D', 'T', 'S', 'T', 'A', 'M', 'P'];
    let k_duration = vec!['D', 'U', 'R', 'A', 'T', 'I', 'O', 'N'];
    let k_rrule = vec!['R', 'R', 'U', 'L', 'E'];
    assert(k_uid@ =~= kw_uid());
    assert(k_summary@ =~= kw_summary());
    assert(k_dtstart@ =~= kw_dtstart());
    assert(k_dtend@ =~= kw_dtend());
    assert(k_dtstamp@ =~= kw_dtstamp());
    assert(k_duration@ =~= kw_duration());
    assert(k_rrule@ =~= kw_rrule());
    if chars_eq(name, &k_uid) {
        part.uid = Some(value);
        Ok(())
    } else if chars_eq(name, &k_summary) {
        part.summary = Some(value);
        Ok(())
    } else if chars_eq(name, &k_dtstart) || chars_eq(name, &k_dtend) || chars_eq(name, &k_dtstamp) {
        match read_instant(&value, offset) {
            Some(t) => {
                if chars_eq(name, &k_dtstart) {
                    part.dtstart = Some(t);
                } else if chars_eq(name, &k_dtend) {
                    part.dtend = Some(t);
                } else {
                    part.dtstamp = Some(t);
                }
                Ok(())
            },
            None => Err(WireError::BadTimestamp),
        }
    } else if chars_eq(name, &k_duration) {
        match read_duration(&value) {
            Some(d) => {
                part.duration = Some(d);
                Ok(())
            },
            None => Err(WireError::BadDuration),
        }
    } else if chars_eq(name, &k_rrule) {
        match read_rule(&value, offset) {
            Ok(rule) => {
                part.rrule = Some(rule);
                Ok(())
            },
            Err(e) => Err(e),
        }
    } else {
        Ok(())
    }
}

fn finish_block(part: &PartialBlock) -> (r: Result<TimeBlock, WireError>)
    ensures
        match finish(partial_view(*part)) {
            Ok(b) => r matches Ok(x) && block_view(x) == b,
            Err(e) => r == Err::<TimeBlock, WireError>(e),
        },
{
    let uid = match &part.uid {
        None => {
            return Err(WireError::MissingUid);
        },
        Some(u) => string_of(u),
    };
    let start = match part.dtstart {
        None => {
            return Err(WireError::MissingStart);
        },
        Some(s) => s,
    };
    let stamp = match part.dtstamp {
        Some(t) => t,
        None => start,
    };
    let summary = match &part.summary {
        Some(s) => string_of(s),
        None => {
            return Err(WireError::MissingSummary);
        },
    };
    match TimeBlock::new(uid, summary, start, part.duration, part.dtend, part.rrule, stamp) {
        Ok(b) => Ok(b),
        Err(_) => Err(WireError::InvalidBlock),
    }
}

fn strip_line(raw: &Vec<char>) -> (r: Vec<char>)
    ensures
        r@ == strip_cr(raw@),
{
    let n = raw.len();
    if n > 0 && raw[n - 1] == '\r' {
        sub_chars(raw, 0, n - 1)
    } else {
        sub_chars(raw, 0, n)
    }
}

fn read_line(rd: &mut Reader, raw: &Vec<char>, offset: i64) -> (r: Result<(), WireError>)
    requires
        -86400 < offset < 86400,
    ensures
        match line_step(reader_view(*old(rd)), raw@, offset as int) {
            Ok(st) => r is Ok && reader_view(*final(rd)) == st,
            Err(e) => r == Err::<(), WireError>(e),
        },
{
    reveal(line_step);
    let l = strip_line(raw);
    let e = index_of_exec(&l, ':', ';');
    let name = sub_chars(&l, 0, e);
    let c = index_of_exec(&l, ':', ':');
    let value = if c < l.len() {
        sub_chars(&l, c + 1, l.len())
    } else {
        Vec::new()
    };
    assert(value@ =~= prop_value(l@));
    let k_begin = vec!['B', 'E', 'G', 'I', 'N'];
    let k_end = vec!['E', 'N', 'D'];
    let k_vevent = vec!['V', 'E', 'V', 'E', 'N', 'T'];
    assert(k_begin@ =~= kw_begin());
    assert(k_end@ =~= kw_end());
    assert(k_vevent@ =~= kw_vevent());
    let k_vcalendar = key_vcalendar();
    if !rd.inside {
        if chars_eq(&name, &k_begin) && chars_eq(&value, &k_vevent) {
            if rd.opened && !rd.closed {
                rd.inside = true;
                rd.skip = None;
                rd.part = empty_part();
            } else {
                return Err(WireError::NotACalendar);
            }
        } else if chars_eq(&name, &k_begin) && chars_eq(&value, &k_vcalendar) && !rd.opened {
            rd.opened = true;
        } else if chars_eq(&name, &k_end) && chars_eq(&value, &k_vcalendar) && rd.opened && !rd.closed {
            rd.closed = true;
        }
        return Ok(());
    }
    let skipping = match &rd.skip {
        Some(sk) => Some(chars_eq(&name, &k_end) && chars_eq(&value, sk)),
        None => None,
    };
    match skipping {
        Some(closes) => {
            if closes {
                rd.skip = None;
            }
            return Ok(());
        },
        None => {},
    }
    if chars_eq(&name, &k_begin) {
        rd.skip = Some(value);
        Ok(())
    } else if chars_eq(&name, &k_end) {
        if chars_eq(&value, &k_vevent) {
            match finish_block(&rd.part) {
                Ok(b) => {
                    let ghost before = rd.blocks@;
                    rd.blocks.push(b);
                    assert(block_views(rd.blocks@) =~= block_views(before).push(block_view(b)));
                    rd.inside = false;
                    rd.skip = None;
                    rd.part = empty_part();
                    Ok(())
                },
                Err(e) => Err(e),
            }
        } else {
            Err(WireError::Unterminated)
        }
    } else {
        read_prop(&mut rd.part, &name, value, offset)
    }
}

/// Reads the blocks of a calendar text (see `parse_calendar`).
pub fn parse_ical_blocks(text: &str, offset: i64) -> (r: Result<Vec<TimeBlock>, WireError>)
    requires
        -86400 < offset < 86400,
    ensures
        match parse_calendar(text@, offset as int) {
            Ok(bs) => r matches Ok(v) && block_views(v@) == bs,
            Err(e) => r == Err::<Vec<TimeBlock>, WireError>(e),
        },
{
    let v = chars_of(text);
    let n = v.len();
    let ghost target = read_run(start_state(), split_acc(v@, '\n', Seq::empty()), offset as int);
    let mut rd = Reader {
        blocks: Vec::new(),
        inside: false,
        skip: None,
        part: empty_part(),
        opened: false,
        closed: false,
    };
    assert(block_views(rd.blocks@) =~= Seq::<BlockView>::empty());
    let mut cur: Vec<char> = Vec::new();
    let mut i: usize = 0;
    assert(v@.subrange(0, n as int) =~= v@);
    while i < n
        invariant
            i <= n,
            n == v@.len(),
            v@ == text@,
            -86400 < offset < 86400,
            target == read_run(start_state(), split_acc(v@, '\n', Seq::empty()), offset as int),
            read_run(reader_view(rd), split_acc(v@.subrange(i as int, n as int), '\n', cur@), offset as int) == target,
        decreases n - i,
    {
        proof {
            lemma_rest_drop(v@, i as int);
        }
        if v[i] == '\n' {
            let ghost rest = split_acc(v@.subrange(i as int + 1, n as int), '\n', Seq::empty());
            proof {
                lemma_split_sep(cur@, rest, seq![cur@] + rest);
            }
            match read_line(&mut rd, &cur, offset) {
                Ok(()) => {},
                Err(e) => {
                    return Err(e);
                },
            }
            cur = Vec::new();
        } else {
            cur.push(v[i]);
        }
        i = i + 1;
    }
    proof {
        assert(v@.subrange(n as int, n as int) =~= Seq::<char>::empty());
        assert(seq![cur@] =~= seq![cur@] + Seq::<Seq<char>>::empty());
        lemma_split_sep(cur@, Seq::empty(), seq![cur@]);
    }
    match read_line(&mut rd, &cur, offset) {
        Ok(()) => {},
        Err(e) => {
            return Err(e);
        },
    }
    assert(read_run(reader_view(rd), Seq::empty(), offset as int) == Ok::<ReadState, WireError>(reader_view(rd)));
    if rd.inside {
        Err(WireError::Unterminated)
    } else if !(rd.opened && rd.closed) {
        Err(WireError::NotACalendar)
    } else {
        Ok(rd.blocks)
    }
}

pub open spec fn prop_line(key: Seq<char>, value: Seq<char>) -> Seq<char> {
    key + seq![':'] + value
}

pub open spec fn frequency_name(f: Frequency) -> Seq<char> {
    match f {
        Frequency::Daily => kw_daily(),
        Frequency::Weekly => kw_weekly(),
        Frequency::Monthly => kw_monthly(),
        Frequency::Yearly => kw_yearly(),
    }
}

/// A repeat rule as `FREQ=...[;UNTIL=...]`.
#[verifier::opaque]
pub open spec fn rule_chars(r: RecurrenceRule) -> Seq<char> {
    kw_freq() + seq!['='] + frequency_name(r.frequency) + match r.until {
        Some(u) => seq![';'] + kw_until() + seq!['='] + stamp_of(u as int),
        None => Seq::empty(),
    }
}

/// The lines of one event: begin, uid, stamp, start, then the duration and
/// the end when given, the summary, the repeat rule when given, and end.
pub open spec fn event_lines(b: TimeBlock) -> Seq<Seq<char>> {
    let a = seq![
        prop_line(kw_begin(), kw_vevent()),
        prop_line(kw_uid(), b.uid@),
        prop_line(kw_dtstamp(), stamp_of(b.dtstamp as int)),
        prop_line(kw_dtstart(), stamp_of(b.dtstart as int)),
    ];
    let a = match b.duration {
        Some(d) => a.push(prop_line(kw_duration(), duration_chars(d as nat))),
        None => a,
    };
    let a = match b.dtend {
        Some(e) => a.push(prop_line(kw_dtend(), stamp_of(e as int))),
        None => a,
    };
    let a = a.push(prop_line(kw_summary(), b.summary@));
    let a = match b.rrule {
        Some(r) => a.push(prop_line(kw_rrule(), rule_chars(r))),
        None => a,
    };
    a.push(prop_line(kw_end(), kw_vevent()))
}

pub open spec fn events_lines(bs: Seq<TimeBlock>) -> Seq<Seq<char>>
    decreases bs.len(),
{
    if bs.len() == 0 {
        Seq::empty()
    } else {
        events_lines(bs.drop_last()) + event_lines(bs.last())
    }
}

pub open spec fn kw_vcalendar() -> Seq<char> {
    seq!['V', 'C', 'A', 'L', 'E', 'N', 'D', 'A', 'R']
}

pub open spec fn kw_version() -> Seq<char> {
    seq!['V', 'E', 'R', 'S', 'I', 'O', 'N']
}

/// The lines of a calendar of the blocks `bs`.
pub open spec fn calendar_lines(bs: Seq<TimeBlock>) -> Seq<Seq<char>> {
    seq![prop_line(kw_begin(), kw_vcalendar()), prop_line(kw_version(), seq!['2', '.', '0'])]
        + events_lines(bs) + seq![prop_line(kw_end(), kw_vcalendar())]
}

/// Lines, each ended by a carriage return and a line feed.
#[verifier::opaque]
pub open spec fn join_crlf(lines: Seq<Seq<char>>) -> Seq<char>
    decreases lines.len(),
{
    if lines.len() == 0 {
        Seq::empty()
    } else {
        join_crlf(lines.drop_last()) + lines.last() + seq!['\r', '\n']
    }
}

/// The text of a calendar of the blocks `bs`.
pub open spec fn calendar_text(bs: Seq<TimeBlock>) -> Seq<char> {
    join_crlf(calendar_lines(bs))
}

/// Every instant of a block has been converted to its date and time.
pub open spec fn stamps_known(b: TimeBlock) -> bool {
    &&& stamp_known(b.dtstart as int)
    &&& stamp_known(b.dtstamp as int)
    &&& (b.dtend matches Some(e) ==> stamp_known(e as int))
    &&& (b.rrule matches Some(r) ==> (r.until matches Some(u) ==> stamp_known(u as int)))
}

/// No line feed in a block's text fields, so that each stays on its line.
pub open spec fn one_line_fields(b: TimeBlock) -> bool {
    &&& forall|i: int| 0 <= i < b.uid@.len() ==> b.uid@[i] != '\n'
    &&& forall|i: int| 0 <= i < b.summary@.len() ==> b.summary@[i] != '\n'
}

fn push_chars(out: &mut Vec<char>, s: &Vec<char>)
    ensures
        final(out)@ == old(out)@ + s@,
{
    let mut i: usize = 0;
    let ghost start = out@;
    while i < s.len()
        invariant
            i <= s@.len(),
            out@ =~= start + s@.subrange(0, i as int),
        decreases s@.len() - i,
    {
        out.push(s[i]);
        i = i + 1;
    }
}

fn push_line_end(out: &mut Vec<char>)
    ensures
        final(out)@ == old(out)@ + seq!['\r', '\n'],
{
    out.push('\r');
    out.push('\n');
    assert(out@ =~= old(out)@ + seq!['\r', '\n']);
}

/// Appends `key:` to the text.
fn push_key(out: &mut Vec<char>, key: Vec<char>)
    ensures
        final(out)@ == old(out)@ + key@ + seq![':'],
{
    push_chars(out, &key);
    out.push(':');
    assert(out@ =~= old(out)@ + key@ + seq![':']);
}

proof fn lemma_join_push(lines: Seq<Seq<char>>, l: Seq<char>)
    ensures
        join_crlf(lines.push(l)) == join_crlf(lines) + l + seq!['\r', '\n'],
{
    reveal(join_crlf);
    assert(lines.push(l).drop_last() =~= lines);
}

proof fn lemma_join_empty()
    ensures
        join_crlf(Seq::empty()) == Seq::<char>::empty(),
{
    reveal(join_crlf);
}

/// Writing one more line extends the text of the lines written so far.
proof fn lemma_extend(start: Seq<char>, lines: Seq<Seq<char>>, before: Seq<char>, l: Seq<char>, after: Seq<char>)
    requires
        before == start + join_crlf(lines),
        after == before + l + seq!['\r', '\n'],
    ensures
        after == start + join_crlf(lines.push(l)),
{
    lemma_join_push(lines, l);
    assert(after =~= start + join_crlf(lines.push(l)));
}

proof fn lemma_join_concat(a: Seq<Seq<char>>, b: Seq<Seq<char>>)
    ensures
        join_crlf(a + b) == join_crlf(a) + join_crlf(b),
    decreases b.len(),
{
    reveal(join_crlf);
    if b.len() == 0 {
        assert(a + b =~= a);
        assert(join_crlf(a) + join_crlf(b) =~= join_crlf(a));
    } else {
        lemma_join_concat(a, b.drop_last());
        assert((a + b).drop_last() =~= a + b.drop_last());
        assert(join_crlf(a) + join_crlf(b) =~= join_crlf(a) + join_crlf(b.drop_last()) + b.last() + seq!['\r', '\n']);
    }
}

fn push_text_line(out: &mut Vec<char>, key: Vec<char>, value: &Vec<char>)
    ensures
        final(out)@ == old(out)@ + prop_line(key@, value@) + seq!['\r', '\n'],
{
    push_key(out, key);
    push_chars(out, value);
    push_line_end(out);
    assert(out@ =~= old(out)@ + prop_line(key@, value@) + seq!['\r', '\n']);
}

fn push_stamp_line(out: &mut Vec<char>, key: Vec<char>, ts: i64)
    requires
        in_time_range(ts as int),
    ensures
        final(out)@ == old(out)@ + prop_line(key@, stamp_of(ts as int)) + seq!['\r', '\n'],
        stamp_known(ts as int),
{
    push_key(out, key);
    push_stamp(out, ts);
    push_line_end(out);
    assert(out@ =~= old(out)@ + prop_line(key@, stamp_of(ts as int)) + seq!['\r', '\n']);
}

fn push_duration_line(out: &mut Vec<char>, d: i64)
    requires
        d >= 0,
    ensures
        final(out)@ == old(out)@ + prop_line(kw_duration(), duration_chars(d as nat)) + seq!['\r', '\n'],
{
    let key = vec!['D', 'U', 'R', 'A', 'T', 'I', 'O', 'N'];
    assert(key@ =~= kw_duration());
    push_key(out, key);
    push_duration(out, d);
    push_line_end(out);
    assert(out@ =~= old(out)@ + prop_line(kw_duration(), duration_chars(d as nat)) + seq!['\r', '\n']);
}

fn push_rule_line(out: &mut Vec<char>, rule: RecurrenceRule)
    requires
        rule.until matches Some(u) ==> in_time_range(u as int),
    ensures
        final(out)@ == old(out)@ + prop_line(kw_rrule(), rule_chars(rule)) + seq!['\r', '\n'],
        rule.until matches Some(u) ==> stamp_known(u as int),
{
    let ghost before = out@;
    let key = vec!['R', 'R', 'U', 'L', 'E'];
    assert(key@ =~= kw_rrule());
    push_key(out, key);
    let kf = vec!['F', 'R', 'E', 'Q'];
    assert(kf@ =~= kw_freq());
    push_chars(out, &kf);
    out.push('=');
    let name = match rule.frequency {
        Frequency::Daily => vec!['D', 'A', 'I', 'L', 'Y'],
        Frequency::Weekly => vec!['W', 'E', 'E', 'K', 'L', 'Y'],
        Frequency::Monthly => vec!['M', 'O', 'N', 'T', 'H', 'L', 'Y'],
        Frequency::Yearly => vec!['Y', 'E', 'A', 'R', 'L', 'Y'],
    };
    assert(name@ =~= frequency_name(rule.frequency));
    push_chars(out, &name);
    let ghost mid = out@;
    assert(mid =~= before + kw_rrule() + seq![':'] + kw_freq() + seq!['='] + frequency_name(rule.frequency));
    if let Some(u) = rule.until {
        out.push(';');
        let ku = vec!['U', 'N', 'T', 'I', 'L'];
        assert(ku@ =~= kw_until());
        push_chars(out, &ku);
        out.push('=');
        push_stamp(out, u);
        assert(out@ =~= mid + (seq![';'] + kw_until() + seq!['='] + stamp_of(u as int)));
    } else {
        assert(out@ =~= mid + Seq::<char>::empty());
    }
    assert(out@ =~= before + prop_line(kw_rrule(), rule_chars(rule))) by {
        reveal(rule_chars);
    }
    push_line_end(out);
}

fn key_begin() -> (r: Vec<char>)
    ensures
        r@ == kw_begin(),
{
    let r = vec!['B', 'E', 'G', 'I', 'N'];
    assert(r@ =~= kw_begin());
    r
}

fn key_uid() -> (r: Vec<char>)
    ensures
        r@ == kw_uid(),
{
    let r = vec!['U', 'I', 'D'];
    assert(r@ =~= kw_uid());
    r
}

fn key_dtstamp() -> (r: Vec<char>)
    ensures
        r@ == kw_dtstamp(),
{
    let r = vec!['D', 'T', 'S', 'T', 'A', 'M', 'P'];
    assert(r@ =~= kw_dtstamp());
    r
}

fn key_dtstart() -> (r: Vec<char>)
    ensures
        r@ == kw_dtstart(),
{
    let r = vec!['D', 'T', 'S', 'T', 'A', 'R', 'T'];
    assert(r@ =~= kw_dtstart());
    r
}

fn key_dtend() -> (r: Vec<char>)
    ensures
        r@ == kw_dtend(),
{
    let r = vec!['D', 'T', 'E', 'N', 'D'];
    assert(r@ =~= kw_dtend());
    r
}

fn key_summary() -> (r: Vec<char>)
    ensures
        r@ == kw_summary(),
{
    let r = vec!['S', 'U', 'M', 'M', 'A', 'R', 'Y'];
    assert(r@ =~= kw_summary());
    r
}

fn key_end() -> (r: Vec<char>)
    ensures
        r@ == kw_end(),
{
    let r = vec!['E', 'N', 'D'];
    assert(r@ =~= kw_end());
    r
}

fn key_vevent() -> (r: Vec<char>)
    ensures
        r@ == kw_vevent(),
{
    let r = vec!['V', 'E', 'V', 'E', 'N', 'T'];
    assert(r@ =~= kw_vevent());
    r
}

fn push_event(out: &mut Vec<char>, b: &TimeBlock)
    requires
        block_wf(*b),
    ensures
        final(out)@ == old(out)@ + join_crlf(event_lines(*b)),
        stamps_known(*b),
{
    let ghost start = out@;
    let ghost mut lines: Seq<Seq<char>> = Seq::empty();
    let uid = chars_of(b.uid.as_str());
    let summary = chars_of(b.summary.as_str());
    let vevent = key_vevent();
    proof {
        lemma_join_empty();
        assert(out@ =~= start + join_crlf(lines));
    }
    let k = key_begin();
    let ghost before = out@;
    push_text_line(out, k, &vevent);
    proof {
        let l = prop_line(kw_begin(), kw_vevent());
        lemma_extend(start, lines, before, l, out@);
        lines = lines.push(l);
    }
    let k = key_uid();
    let ghost before = out@;
    push_text_line(out, k, &uid);
    proof {
        let l = prop_line(kw_uid(), b.uid@);
        lemma_extend(start, lines, before, l, out@);
        lines = lines.push(l);
    }
    let k = key_dtstamp();
    let ghost before = out@;
    push_stamp_line(out, k, b.dtstamp);
    proof {
        let l = prop_line(kw_dtstamp(), stamp_of(b.dtstamp as int));
        lemma_extend(start, lines, before, l, out@);
        lines = lines.push(l);
    }
    let k = key_dtstart();
    let ghost before = out@;
    push_stamp_line(out, k, b.dtstart);
    proof {
        let l = prop_line(kw_dtstart(), stamp_of(b.dtstart as int));
        lemma_extend(start, lines, before, l, out@);
        lines = lines.push(l);
    }
    if let Some(d) = b.duration {
        let ghost before = out@;
        push_duration_line(out, d);
        proof {
            let l = prop_line(kw_duration(), duration_chars(d as nat));
            lemma_extend(start, lines, before, l, out@);
            lines = lines.push(l);
        }
    }
    if let Some(e) = b.dtend {
        let k = key_dtend();
        let ghost before = out@;
        push_stamp_line(out, k, e);
        proof {
            let l = prop_line(kw_dtend(), stamp_of(e as int));
            lemma_extend(start, lines, before, l, out@);
            lines = lines.push(l);
        }
    }
    let k = key_summary();
    let ghost before = out@;
    push_text_line(out, k, &summary);
    proof {
        let l = prop_line(kw_summary(), b.summary@);
        lemma_extend(start, lines, before, l, out@);
        lines = lines.push(l);
    }
    if let Some(rule) = b.rrule {
        let ghost before = out@;
        push_rule_line(out, rule);
        proof {
            let l = prop_line(kw_rrule(), rule_chars(rule));
            lemma_extend(start, lines, before, l, out@);
            lines = lines.push(l);
        }
    }
    let k = key_end();
    let ghost before = out@;
    push_text_line(out, k, &vevent);
    proof {
        let l = prop_line(kw_end(), kw_vevent());
        lemma_join_push(lines, l);
        lines = lines.push(l);
        assert(lines =~= event_lines(*b));
    }
}

fn key_vcalendar() -> (r: Vec<char>)
    ensures
        r@ == kw_vcalendar(),
{
    let r = vec!['V', 'C', 'A', 'L', 'E', 'N', 'D', 'A', 'R'];
    assert(r@ =~= kw_vcalendar());
    r
}

fn key_version() -> (r: Vec<char>)
    ensures
        r@ == kw_version(),
{
    let r = vec!['V', 'E', 'R', 'S', 'I', 'O', 'N'];
    assert(r@ =~= kw_version());
    r
}

/// Writes the calendar text of the blocks (see `calendar_text`).
pub fn write_calendar(blocks: &Vec<TimeBlock>) -> (r: String)
    requires
        blocks_wf(blocks@),
    ensures
        r@ == calendar_text(blocks@),
        (forall|k: int| 0 <= k < blocks@.len() ==> one_line_fields(#[trigger] blocks@[k]))
            ==> forall|offset: int|
            #[trigger] parse_calendar(r@, offset) == Ok::<Seq<BlockView>, WireError>(block_views(blocks@)),
{
    let mut out: Vec<char> = Vec::new();
    let head = key_vcalendar();
    push_text_line(&mut out, key_begin(), &head);
    let version = vec!['2', '.', '0'];
    assert(version@ =~= seq!['2', '.', '0']);
    push_text_line(&mut out, key_version(), &version);
    let ghost header = out@;
    proof {
        lemma_join_empty();
        let l1 = prop_line(kw_begin(), kw_vcalendar());
        let l2 = prop_line(kw_version(), seq!['2', '.', '0']);
        lemma_extend(Seq::empty(), Seq::empty(), Seq::empty(), l1, Seq::empty() + l1 + seq!['\r', '\n']);
        assert(seq![l1] =~= Seq::<Seq<char>>::empty().push(l1));
        lemma_extend(Seq::empty(), seq![l1], Seq::empty() + l1 + seq!['\r', '\n'], l2, out@);
        assert(seq![l1, l2] =~= seq![l1].push(l2));
        assert(out@ =~= join_crlf(seq![l1, l2]));
    }
    let mut i: usize = 0;
    while i < blocks.len()
        invariant
            i <= blocks@.len(),
            blocks_wf(blocks@),
            out@ == header + join_crlf(events_lines(blocks@.subrange(0, i as int))),
            forall|k: int| 0 <= k < i ==> stamps_known(#[trigger] blocks@[k]),
        decreases blocks@.len() - i,
    {
        let ghost pre = blocks@.subrange(0, i as int + 1);
        assert(pre.drop_last() =~= blocks@.subrange(0, i as int));
        assert(block_wf(blocks@[i as int]));
        push_event(&mut out, &blocks[i]);
        proof {
            lemma_join_concat(events_lines(blocks@.subrange(0, i as int)), event_lines(blocks@[i as int]));
            assert(out@ =~= header + join_crlf(events_lines(pre)));
        }
        i = i + 1;
    }
    assert(blocks@.subrange(0, blocks@.len() as int) =~= blocks@);
    let ghost body = out@;
    push_text_line(&mut out, key_end(), &head);
    proof {
        let l1 = prop_line(kw_begin(), kw_vcalendar());
        let l2 = prop_line(kw_version(), seq!['2', '.', '0']);
        let l3 = prop_line(kw_end(), kw_vcalendar());
        let ev = events_lines(blocks@);
        lemma_join_concat(seq![l1, l2], ev);
        lemma_extend(Seq::empty(), seq![l1, l2] + ev, body, l3, out@);
        assert(calendar_lines(blocks@) =~= (seq![l1, l2] + ev).push(l3));
    }
    proof {
        if forall|k: int| 0 <= k < blocks@.len() ==> one_line_fields(#[trigger] blocks@[k]) {
            assert forall|offset: int|
                #[trigger] parse_calendar(out@, offset) == Ok::<Seq<BlockView>, WireError>(block_views(blocks@)) by {
                lemma_calendar_round_trip(blocks@, offset);
            }
        }
    }
    string_of(&out)
}

pub open spec fn no_char(s: Seq<char>, c: char) -> bool {
    forall|i: int| 0 <= i < s.len() ==> s[i] != c
}

proof fn lemma_split_chunk(a: Seq<char>, sep: char, rest: Seq<char>, cur: Seq<char>)
    requires
        no_char(a, sep),
    ensures
        split_acc(a + seq![sep] + rest, sep, cur) == seq![cur + a] + split_acc(rest, sep, Seq::empty()),
    decreases a.len(),
{
    let x = a + seq![sep] + rest;
    if a.len() == 0 {
        assert(x.drop_first() =~= rest);
        assert(cur + a =~= cur);
    } else {
        assert(x.drop_first() =~= a.drop_first() + seq![sep] + rest);
        lemma_split_chunk(a.drop_first(), sep, rest, cur.push(a[0]));
        assert(cur.push(a[0]) + a.drop_first() =~= cur + a);
    }
}

proof fn lemma_split_last(a: Seq<char>, sep: char, cur: Seq<char>)
    requires
        no_char(a, sep),
    ensures
        split_acc(a, sep, cur) == seq![cur + a],
    decreases a.len(),
{
    if a.len() == 0 {
        assert(cur + a =~= cur);
    } else {
        lemma_split_last(a.drop_first(), sep, cur.push(a[0]));
        assert(cur.push(a[0]) + a.drop_first() =~= cur + a);
    }
}

pub open spec fn with_cr(lines: Seq<Seq<char>>) -> Seq<Seq<char>> {
    lines.map_values(|l: Seq<char>| l.push('\r'))
}

pub open spec fn lines_one_line(lines: Seq<Seq<char>>) -> bool {
    forall|k: int| 0 <= k < lines.len() ==> no_char(#[trigger] lines[k], '\n')
}

proof fn lemma_split_join(lines: Seq<Seq<char>>)
    requires
        lines_one_line(lines),
    ensures
        split_acc(join_crlf(lines), '\n', Seq::empty()) == with_cr(lines) + seq![Seq::<char>::empty()],
    decreases lines.len(),
{
    if lines.len() == 0 {
        lemma_join_empty();
        assert(lines =~= Seq::<Seq<char>>::empty());
        assert(with_cr(lines) + seq![Seq::<char>::empty()] =~= seq![Seq::<char>::empty()]);
    } else {
        let l0 = lines[0];
        let rest = lines.drop_first();
        assert(lines =~= seq![l0] + rest);
        lemma_join_concat(seq![l0], rest);
        lemma_join_empty();
        lemma_join_push(Seq::empty(), l0);
        assert(Seq::<Seq<char>>::empty().push(l0) =~= seq![l0]);
        let a = l0.push('\r');
        assert(no_char(a, '\n')) by {
            assert(no_char(lines[0], '\n'));
        }
        assert(join_crlf(lines) =~= a + seq!['\n'] + join_crlf(rest));
        lemma_split_chunk(a, '\n', join_crlf(rest), Seq::empty());
        assert(lines_one_line(rest)) by {
            assert forall|k: int| 0 <= k < rest.len() implies no_char(#[trigger] rest[k], '\n') by {
                assert(rest[k] == lines[k + 1]);
            }
        }
        lemma_split_join(rest);
        assert(Seq::<char>::empty() + a =~= a);
        assert(with_cr(lines) + seq![Seq::<char>::empty()] =~= seq![a] + (with_cr(rest) + seq![Seq::<char>::empty()]));
    }
}

proof fn lemma_run_concat(st: ReadState, a: Seq<Seq<char>>, b: Seq<Seq<char>>, offset: int)
    ensures
        read_run(st, a + b, offset) == match read_run(st, a, offset) {
            Ok(s) => read_run(s, b, offset),
            Err(e) => Err(e),
        },
    decreases a.len(),
{
    if a.len() == 0 {
        assert(a + b =~= b);
    } else {
        assert((a + b).drop_first() =~= a.drop_first() + b);
        assert((a + b)[0] == a[0]);
        match line_step(st, a[0], offset) {
            Ok(s) => lemma_run_concat(s, a.drop_first(), b, offset),
            Err(_) => {},
        }
    }
}

proof fn lemma_run_one(st: ReadState, l: Seq<char>, offset: int)
    ensures
        read_run(st, seq![l], offset) == line_step(st, l, offset),
{
    assert(seq![l].drop_first() =~= Seq::<Seq<char>>::empty());
    assert(seq![l][0] == l);
    match line_step(st, l, offset) {
        Ok(s) => {
            assert(read_run(s, Seq::empty(), offset) == Ok::<ReadState, WireError>(s));
        },
        Err(_) => {},
    }
}

proof fn lemma_index_of(l: Seq<char>, a: char, b: char, i: int, k: int)
    requires
        0 <= i <= k < l.len(),
        forall|j: int| i <= j < k ==> l[j] != a && l[j] != b,
        l[k] == a || l[k] == b,
    ensures
        index_of(l, a, b, i) == k,
    decreases k - i,
{
    if i < k {
        lemma_index_of(l, a, b, i + 1, k);
    }
}

/// A property line written by the writer reads back as its key and value.
proof fn lemma_prop_line(key: Seq<char>, value: Seq<char>)
    requires
        no_char(key, ':'),
        no_char(key, ';'),
    ensures
        strip_cr(prop_line(key, value).push('\r')) == prop_line(key, value),
        prop_name(prop_line(key, value)) == key,
        prop_value(prop_line(key, value)) == value,
{
    let l = prop_line(key, value);
    assert(l.push('\r').drop_last() =~= l);
    lemma_index_of(l, ':', ';', 0, key.len() as int);
    lemma_index_of(l, ':', ':', 0, key.len() as int);
    assert(l.subrange(0, key.len() as int) =~= key);
    assert(l.subrange(key.len() as int + 1, l.len() as int) =~= value);
}

/// A `KEY=VALUE` part reads back as its key and value.
proof fn lemma_part(key: Seq<char>, value: Seq<char>)
    requires
        no_char(key, '='),
    ensures
        part_key(key + seq!['='] + value) == key,
        part_value(key + seq!['='] + value) == value,
{
    let p = key + seq!['='] + value;
    lemma_index_of(p, '=', '=', 0, key.len() as int);
    assert(p.subrange(0, key.len() as int) =~= key);
    assert(p.subrange(key.len() as int + 1, p.len() as int) =~= value);
}

proof fn lemma_rule_round_trip(r: RecurrenceRule, offset: int)
    requires
        r.until matches Some(u) ==> stamp_known(u as int),
    ensures
        parse_rule(rule_chars(r), offset) == Ok::<RecurrenceRule, WireError>(r),
{
    reveal(rule_chars);
    let name = frequency_name(r.frequency);
    let freq_part = kw_freq() + seq!['='] + name;
    lemma_part(kw_freq(), name);
    assert(frequency_named(name) == Some(r.frequency));
    assert(no_char(freq_part, ';'));
    let acc0 = RuleAcc { freq: None, until: None };
    let acc1 = RuleAcc { freq: Some(r.frequency), until: None };
    assert(kw_freq() != kw_until());
    assert(rule_step(acc0, freq_part, offset) == Ok::<RuleAcc, WireError>(acc1));
    match r.until {
        None => {
            assert(rule_chars(r) =~= freq_part);
            lemma_split_last(freq_part, ';', Seq::empty());
            assert(Seq::<char>::empty() + freq_part =~= freq_part);
            assert(seq![freq_part].drop_first() =~= Seq::<Seq<char>>::empty());
            assert(seq![freq_part][0] == freq_part);
            assert(split_acc(rule_chars(r), ';', Seq::empty()) == seq![freq_part]);
            assert(rule_run(acc1, Seq::empty(), offset) == Ok::<RuleAcc, WireError>(acc1));
            assert(rule_run(acc0, seq![freq_part], offset) == Ok::<RuleAcc, WireError>(acc1));
        },
        Some(u) => {
            let st = stamp_of(u as int);
            crate::wire::lemma_stamp_round_trip(u as int);
            let until_part = kw_until() + seq!['='] + st;
            assert(rule_chars(r) =~= freq_part + seq![';'] + until_part);
            assert(no_char(until_part, ';')) by {
                assert forall|i: int| 0 <= i < until_part.len() implies until_part[i] != ';' by {
                    if i >= 6 {
                        assert(until_part[i] == st[i - 6]);
                    }
                }
            }
            lemma_split_chunk(freq_part, ';', until_part, Seq::empty());
            lemma_split_last(until_part, ';', Seq::empty());
            assert(Seq::<char>::empty() + freq_part =~= freq_part);
            assert(Seq::<char>::empty() + until_part =~= until_part);
            lemma_part(kw_until(), st);
            let parts = seq![freq_part] + seq![until_part];
            assert(parts.drop_first() =~= seq![until_part]);
            assert(seq![until_part].drop_first() =~= Seq::<Seq<char>>::empty());
            let acc2 = RuleAcc { freq: Some(r.frequency), until: Some(u as int) };
            assert(rule_step(acc1, until_part, offset) == Ok::<RuleAcc, WireError>(acc2));
            assert(split_acc(rule_chars(r), ';', Seq::empty()) == parts);
            assert(parts[0] == freq_part);
            assert(seq![until_part][0] == until_part);
            assert(rule_run(acc2, Seq::empty(), offset) == Ok::<RuleAcc, WireError>(acc2));
            assert(rule_run(acc1, seq![until_part], offset) == Ok::<RuleAcc, WireError>(acc2));
            assert(rule_run(acc0, parts, offset) == Ok::<RuleAcc, WireError>(acc2));
        },
    }
}

pub open spec fn outside(blocks: Seq<BlockView>) -> ReadState {
    ReadState { blocks, inside: false, skip: None, part: no_props(), opened: true, closed: false }
}

proof fn lemma_run_push(st: ReadState, xs: Seq<Seq<char>>, y: Seq<char>, offset: int)
    ensures
        read_run(st, xs.push(y), offset) == match read_run(st, xs, offset) {
            Ok(s) => line_step(s, y, offset),
            Err(e) => Err(e),
        },
{
    assert(xs.push(y) =~= xs + seq![y]);
    lemma_run_concat(st, xs, seq![y], offset);
    match read_run(st, xs, offset) {
        Ok(s) => lemma_run_one(s, y, offset),
        Err(_) => {},
    }
}

proof fn lemma_with_cr_push(xs: Seq<Seq<char>>, l: Seq<char>)
    ensures
        with_cr(xs.push(l)) == with_cr(xs).push(l.push('\r')),
{
    assert(with_cr(xs.push(l)) =~= with_cr(xs).push(l.push('\r')));
}

/// Reading one more written line from a state reached so far.
proof fn lemma_read_next(st0: ReadState, xs: Seq<Seq<char>>, st: ReadState, key: Seq<char>, value: Seq<char>, offset: int)
    requires
        read_run(st0, with_cr(xs), offset) == Ok::<ReadState, WireError>(st),
        no_char(key, ':'),
        no_char(key, ';'),
    ensures
        read_run(st0, with_cr(xs.push(prop_line(key, value))), offset) == line_step(
            st,
            prop_line(key, value).push('\r'), offset),
        strip_cr(prop_line(key, value).push('\r')) == prop_line(key, value),
        prop_name(prop_line(key, value)) == key,
        prop_value(prop_line(key, value)) == value,
{
    lemma_with_cr_push(xs, prop_line(key, value));
    lemma_run_push(st0, with_cr(xs), prop_line(key, value).push('\r'), offset);
    lemma_prop_line(key, value);
}

proof fn lemma_begin_step(blocks: Seq<BlockView>, offset: int)
    ensures
        line_step(outside(blocks), prop_line(kw_begin(), kw_vevent()).push('\r'), offset) == Ok::<ReadState, WireError>(
            ReadState { blocks, inside: true, skip: None, part: no_props(), opened: true, closed: false },
        ),
{
    reveal(line_step);
    lemma_prop_line(kw_begin(), kw_vevent());
}

proof fn lemma_end_step(st: ReadState, b: TimeBlock, offset: int)
    requires
        st.inside,
        st.opened,
        !st.closed,
        st.skip is None,
        st.part == partial_of(b),
        block_wf(b),
    ensures
        line_step(st, prop_line(kw_end(), kw_vevent()).push('\r'), offset) == Ok::<ReadState, WireError>(
            outside(st.blocks.push(block_view(b))),
        ),
{
    reveal(line_step);
    lemma_prop_line(kw_end(), kw_vevent());
    assert(kw_end() != kw_begin());
}

/// A property line inside an event updates the event's properties.
proof fn lemma_prop_step(st: ReadState, key: Seq<char>, value: Seq<char>, p: Partial, offset: int)
    requires
        st.inside,
        st.skip is None,
        no_char(key, ':'),
        no_char(key, ';'),
        key != kw_begin(),
        key != kw_end(),
        prop_step(st.part, key, value, offset) == Ok::<Partial, WireError>(p),
    ensures
        line_step(st, prop_line(key, value).push('\r'), offset) == Ok::<ReadState, WireError>(ReadState { part: p, ..st }),
{
    reveal(line_step);
    lemma_prop_line(key, value);
}

proof fn lemma_uid_prop(p: Partial, v: Seq<char>, offset: int)
    ensures
        prop_step(p, kw_uid(), v, offset) == Ok::<Partial, WireError>(Partial { uid: Some(v), ..p }),
{
    reveal(prop_step);
}

proof fn lemma_summary_prop(p: Partial, v: Seq<char>, offset: int)
    ensures
        prop_step(p, kw_summary(), v, offset) == Ok::<Partial, WireError>(Partial { summary: Some(v), ..p }),
{
    reveal(prop_step);
    assert(kw_summary() != kw_uid());
}

proof fn lemma_stamp_props(p: Partial, t: i64, offset: int)
    requires
        stamp_known(t as int),
    ensures
        prop_step(p, kw_dtstart(), stamp_of(t as int), offset) == Ok::<Partial, WireError>(Partial { dtstart: Some(t), ..p }),
        prop_step(p, kw_dtend(), stamp_of(t as int), offset) == Ok::<Partial, WireError>(Partial { dtend: Some(t), ..p }),
        prop_step(p, kw_dtstamp(), stamp_of(t as int), offset) == Ok::<Partial, WireError>(Partial { dtstamp: Some(t), ..p }),
{
    reveal(prop_step);
    crate::wire::lemma_stamp_round_trip(t as int);
    assert(kw_dtstart()[0] != kw_uid()[0]);
    assert(kw_dtstart()[0] != kw_summary()[0]);
    assert(kw_dtend()[0] != kw_uid()[0]);
    assert(kw_dtend() != kw_summary());
    assert(kw_dtend() != kw_dtstart());
    assert(kw_dtstamp()[0] != kw_uid()[0]);
    assert(kw_dtstamp()[0] != kw_summary()[0]);
    assert(kw_dtstamp()[5] != kw_dtstart()[5]);
    assert(kw_dtstamp() != kw_dtend());
}

proof fn lemma_duration_prop(p: Partial, d: i64, offset: int)
    requires
        0 <= d <= crate::wire::duration_limit(),
    ensures
        prop_step(p, kw_duration(), duration_chars(d as nat), offset) == Ok::<Partial, WireError>(
            Partial { duration: Some(d), ..p },
        ),
{
    reveal(prop_step);
    crate::wire::lemma_duration_round_trip(d as nat);
    assert(kw_duration() != kw_uid());
    assert(kw_duration()[0] != kw_summary()[0]);
    assert(kw_duration()[1] != kw_dtstart()[1]);
    assert(kw_duration() != kw_dtend());
    assert(kw_duration()[1] != kw_dtstamp()[1]);
}

proof fn lemma_rule_prop(p: Partial, r: RecurrenceRule, offset: int)
    requires
        r.until matches Some(u) ==> stamp_known(u as int),
    ensures
        prop_step(p, kw_rrule(), rule_chars(r), offset) == Ok::<Partial, WireError>(Partial { rrule: Some(r), ..p }),
{
    reveal(prop_step);
    lemma_rule_round_trip(r, offset);
    assert(kw_rrule() != kw_uid());
    assert(kw_rrule() != kw_summary());
    assert(kw_rrule() != kw_dtstart());
    assert(kw_rrule()[0] != kw_dtend()[0]);
    assert(kw_rrule() != kw_dtstamp());
    assert(kw_rrule() != kw_duration());
}

proof fn lemma_keys_plain()
    ensures
        no_char(kw_uid(), ':') && no_char(kw_uid(), ';'),
        no_char(kw_summary(), ':') && no_char(kw_summary(), ';'),
        no_char(kw_dtstart(), ':') && no_char(kw_dtstart(), ';'),
        no_char(kw_dtend(), ':') && no_char(kw_dtend(), ';'),
        no_char(kw_dtstamp(), ':') && no_char(kw_dtstamp(), ';'),
        no_char(kw_duration(), ':') && no_char(kw_duration(), ';'),
        no_char(kw_rrule(), ':') && no_char(kw_rrule(), ';'),
        no_char(kw_begin(), ':') && no_char(kw_begin(), ';'),
        no_char(kw_end(), ':') && no_char(kw_end(), ';'),
        kw_uid() != kw_begin() && kw_uid() != kw_end(),
        kw_summary() != kw_begin() && kw_summary() != kw_end(),
        kw_dtstart() != kw_begin() && kw_dtstart() != kw_end(),
        kw_dtend() != kw_begin() && kw_dtend()[0] != kw_end()[0],
        kw_dtstamp() != kw_begin() && kw_dtstamp() != kw_end(),
        kw_duration() != kw_begin() && kw_duration() != kw_end(),
        kw_rrule() != kw_begin() && kw_rrule() != kw_end(),
{
}

/// The lines of an event read back as its block.
proof fn lemma_event_round_trip(blocks: Seq<BlockView>, b: TimeBlock, offset: int)
    requires
        block_wf(b),
        stamps_known(b),
    ensures
        read_run(outside(blocks), with_cr(event_lines(b)), offset) == Ok::<ReadState, WireError>(
            outside(blocks.push(block_view(b))),
        ),
{
    lemma_keys_plain();
    let st0 = outside(blocks);
    let e: Seq<Seq<char>> = Seq::empty();
    assert(with_cr(e) =~= Seq::<Seq<char>>::empty());
    assert(read_run(st0, with_cr(e), offset) == Ok::<ReadState, WireError>(st0));

    let x1 = e.push(prop_line(kw_begin(), kw_vevent()));
    lemma_read_next(st0, e, st0, kw_begin(), kw_vevent(), offset);
    lemma_begin_step(blocks, offset);
    let props0 = no_props();
    let s1 = ReadState { blocks, inside: true, skip: None, part: props0, opened: true, closed: false };

    let x2 = x1.push(prop_line(kw_uid(), b.uid@));
    lemma_read_next(st0, x1, s1, kw_uid(), b.uid@, offset);
    let props1 = Partial { uid: Some(b.uid@), ..props0 };
    lemma_uid_prop(props0, b.uid@, offset);
    lemma_prop_step(s1, kw_uid(), b.uid@, props1, offset);
    let s2 = ReadState { part: props1, ..s1 };

    let x3 = x2.push(prop_line(kw_dtstamp(), stamp_of(b.dtstamp as int)));
    lemma_read_next(st0, x2, s2, kw_dtstamp(), stamp_of(b.dtstamp as int), offset);
    let props2 = Partial { dtstamp: Some(b.dtstamp), ..props1 };
    lemma_stamp_props(props1, b.dtstamp, offset);
    lemma_prop_step(s2, kw_dtstamp(), stamp_of(b.dtstamp as int), props2, offset);
    let s3 = ReadState { part: props2, ..s1 };

    let x4 = x3.push(prop_line(kw_dtstart(), stamp_of(b.dtstart as int)));
    lemma_read_next(st0, x3, s3, kw_dtstart(), stamp_of(b.dtstart as int), offset);
    let props3 = Partial { dtstart: Some(b.dtstart), ..props2 };
    lemma_stamp_props(props2, b.dtstart, offset);
    lemma_prop_step(s3, kw_dtstart(), stamp_of(b.dtstart as int), props3, offset);
    let s4 = ReadState { part: props3, ..s1 };

    let (x5, props4) = match b.duration {
        Some(d) => {
            let x5 = x4.push(prop_line(kw_duration(), duration_chars(d as nat)));
            lemma_read_next(st0, x4, s4, kw_duration(), duration_chars(d as nat), offset);
            lemma_duration_prop(props3, d, offset);
            lemma_prop_step(s4, kw_duration(), duration_chars(d as nat), Partial { duration: Some(d), ..props3 }, offset);
            (x5, Partial { duration: Some(d), ..props3 })
        },
        None => (x4, props3),
    };
    let s5 = ReadState { part: props4, ..s1 };
    assert(read_run(st0, with_cr(x5), offset) == Ok::<ReadState, WireError>(s5));

    let (x6, props5) = match b.dtend {
        Some(t) => {
            let x6 = x5.push(prop_line(kw_dtend(), stamp_of(t as int)));
            lemma_read_next(st0, x5, s5, kw_dtend(), stamp_of(t as int), offset);
            lemma_stamp_props(props4, t, offset);
            lemma_prop_step(s5, kw_dtend(), stamp_of(t as int), Partial { dtend: Some(t), ..props4 }, offset);
            (x6, Partial { dtend: Some(t), ..props4 })
        },
        None => (x5, props4),
    };
    let s6 = ReadState { part: props5, ..s1 };
    assert(read_run(st0, with_cr(x6), offset) == Ok::<ReadState, WireError>(s6));

    let x7 = x6.push(prop_line(kw_summary(), b.summary@));
    lemma_read_next(st0, x6, s6, kw_summary(), b.summary@, offset);
    let props6 = Partial { summary: Some(b.summary@), ..props5 };
    lemma_summary_prop(props5, b.summary@, offset);
    lemma_prop_step(s6, kw_summary(), b.summary@, props6, offset);
    let s7 = ReadState { part: props6, ..s1 };

    let (x8, props7) = match b.rrule {
        Some(r) => {
            let x8 = x7.push(prop_line(kw_rrule(), rule_chars(r)));
            lemma_read_next(st0, x7, s7, kw_rrule(), rule_chars(r), offset);
            lemma_rule_prop(props6, r, offset);
            lemma_prop_step(s7, kw_rrule(), rule_chars(r), Partial { rrule: Some(r), ..props6 }, offset);
            (x8, Partial { rrule: Some(r), ..props6 })
        },
        None => (x7, props6),
    };
    let s8 = ReadState { part: props7, ..s1 };
    assert(read_run(st0, with_cr(x8), offset) == Ok::<ReadState, WireError>(s8));

    let x9 = x8.push(prop_line(kw_end(), kw_vevent()));
    lemma_read_next(st0, x8, s8, kw_end(), kw_vevent(), offset);
    assert(props7 == partial_of(b));
    lemma_end_step(s8, b, offset);
    assert(x9 == event_lines(b));
}

pub open spec fn partial_of(b: TimeBlock) -> Partial {
    Partial {
        uid: Some(b.uid@),
        summary: Some(b.summary@),
        dtstart: Some(b.dtstart),
        duration: b.duration,
        dtend: b.dtend,
        dtstamp: Some(b.dtstamp),
        rrule: b.rrule,
    }
}

proof fn lemma_events_round_trip(bs: Seq<TimeBlock>, offset: int)
    requires
        blocks_wf(bs),
        forall|k: int| 0 <= k < bs.len() ==> stamps_known(#[trigger] bs[k]),
    ensures
        read_run(outside(Seq::empty()), with_cr(events_lines(bs)), offset) == Ok::<ReadState, WireError>(
            outside(block_views(bs)),
        ),
    decreases bs.len(),
{
    if bs.len() == 0 {
        assert(with_cr(events_lines(bs)) =~= Seq::<Seq<char>>::empty());
        assert(block_views(bs) =~= Seq::<BlockView>::empty());
    } else {
        let pre = bs.drop_last();
        assert forall|k: int| 0 <= k < pre.len() implies stamps_known(#[trigger] pre[k]) && crate::model::block_wf(pre[k]) by {
            assert(pre[k] == bs[k]);
        }
        lemma_events_round_trip(pre, offset);
        assert(with_cr(events_lines(bs)) =~= with_cr(events_lines(pre)) + with_cr(event_lines(bs.last())));
        lemma_run_concat(outside(Seq::empty()), with_cr(events_lines(pre)), with_cr(event_lines(bs.last())), offset);
        assert(block_wf(bs[bs.len() - 1]));
        assert(stamps_known(bs[bs.len() - 1]));
        lemma_event_round_trip(block_views(pre), bs.last(), offset);
        assert(block_views(pre).push(block_view(bs.last())) =~= block_views(bs));
    }
}

/// Outside events, a property line leaves the reader where it stands.
proof fn lemma_outside_line(st: ReadState, key: Seq<char>, value: Seq<char>, offset: int)
    requires
        !st.inside,
        no_char(key, ':'),
        no_char(key, ';'),
        key != kw_begin(),
        key != kw_end(),
    ensures
        line_step(st, prop_line(key, value).push('\r'), offset) == Ok::<ReadState, WireError>(st),
{
    reveal(line_step);
    lemma_prop_line(key, value);
}

/// The lines that open and close a calendar.
proof fn lemma_frame_lines(blocks: Seq<BlockView>, offset: int)
    ensures
        line_step(start_state(), prop_line(kw_begin(), kw_vcalendar()).push('\r'), offset)
            == Ok::<ReadState, WireError>(outside(Seq::empty())),
        line_step(outside(blocks), prop_line(kw_end(), kw_vcalendar()).push('\r'), offset)
            == Ok::<ReadState, WireError>(ReadState { closed: true, ..outside(blocks) }),
{
    reveal(line_step);
    lemma_keys_plain();
    lemma_prop_line(kw_begin(), kw_vcalendar());
    lemma_prop_line(kw_end(), kw_vcalendar());
    assert(kw_vcalendar() != kw_vevent());
    assert(kw_end() != kw_begin());
}

proof fn lemma_decimal_digits(n: nat)
    ensures
        forall|i: int| 0 <= i < crate::wire::decimal(n).len() ==> crate::wire::digit_value(
            #[trigger] crate::wire::decimal(n)[i],
        ) is Some,
    decreases n,
{
    crate::wire::lemma_digit_round_trip((n % 10) as int);
    if n >= 10 {
        lemma_decimal_digits(n / 10);
        let d = crate::wire::decimal(n);
        assert forall|i: int| 0 <= i < d.len() implies crate::wire::digit_value(#[trigger] d[i]) is Some by {
            if i < d.len() - 1 {
                assert(d[i] == crate::wire::decimal(n / 10)[i]);
            }
        }
    } else {
        crate::wire::lemma_digit_round_trip(n as int);
    }
}

proof fn lemma_unit_part_plain(n: nat, unit: char, shown: bool)
    requires
        unit != '\n',
    ensures
        no_char(crate::wire::unit_part(n, unit, shown), '\n'),
{
    lemma_decimal_digits(n);
    let p = crate::wire::unit_part(n, unit, shown);
    if shown {
        assert forall|i: int| 0 <= i < p.len() implies p[i] != '\n' by {
            if i < p.len() - 1 {
                assert(p[i] == crate::wire::decimal(n)[i]);
                assert(crate::wire::digit_value(crate::wire::decimal(n)[i]) is Some);
            }
        }
    }
}

proof fn lemma_duration_plain(n: nat)
    ensures
        no_char(duration_chars(n), '\n'),
{
    reveal(crate::wire::duration_chars);
    let h = n / 3600;
    let m = (n % 3600) / 60;
    let s = n % 60;
    lemma_unit_part_plain(h, 'H', h > 0);
    lemma_unit_part_plain(m, 'M', m > 0 || n == 0);
    lemma_unit_part_plain(s, 'S', s > 0);
    let a = crate::wire::unit_part(h, 'H', h > 0);
    let bb = crate::wire::unit_part(m, 'M', m > 0 || n == 0);
    let c = crate::wire::unit_part(s, 'S', s > 0);
    let full = duration_chars(n);
    assert(full =~= seq!['P', 'T'] + a + bb + c);
    assert forall|i: int| 0 <= i < full.len() implies full[i] != '\n' by {
        if i >= 2 && i < 2 + a.len() {
            assert(full[i] == a[i - 2]);
        } else if i >= 2 + a.len() && i < 2 + a.len() + bb.len() {
            assert(full[i] == bb[i - 2 - a.len()]);
        } else if i >= 2 + a.len() + bb.len() {
            assert(full[i] == c[i - 2 - a.len() - bb.len()]);
        }
    }
}

proof fn lemma_rule_plain(r: RecurrenceRule)
    requires
        r.until matches Some(u) ==> stamp_known(u as int),
    ensures
        no_char(rule_chars(r), '\n'),
{
    reveal(rule_chars);
    let name = frequency_name(r.frequency);
    let freq_part = kw_freq() + seq!['='] + name;
    assert(no_char(freq_part, '\n'));
    match r.until {
        None => {
            assert(rule_chars(r) =~= freq_part);
        },
        Some(u) => {
            crate::wire::lemma_stamp_round_trip(u as int);
            let st = stamp_of(u as int);
            let full = rule_chars(r);
            assert(full =~= freq_part + seq![';'] + kw_until() + seq!['='] + st);
            assert forall|i: int| 0 <= i < full.len() implies full[i] != '\n' by {
                if i >= freq_part.len() + 7 {
                    assert(full[i] == st[i - freq_part.len() - 7]);
                }
            }
        },
    }
}

proof fn lemma_values_plain(b: TimeBlock)
    requires
        stamps_known(b),
        block_wf(b),
    ensures
        no_char(stamp_of(b.dtstart as int), '\n'),
        no_char(stamp_of(b.dtstamp as int), '\n'),
        b.dtend matches Some(e) ==> no_char(stamp_of(e as int), '\n'),
        b.duration matches Some(d) ==> no_char(duration_chars(d as nat), '\n'),
        b.rrule matches Some(r) ==> no_char(rule_chars(r), '\n'),
{
    crate::wire::lemma_stamp_round_trip(b.dtstart as int);
    crate::wire::lemma_stamp_round_trip(b.dtstamp as int);
    if let Some(e) = b.dtend {
        crate::wire::lemma_stamp_round_trip(e as int);
    }
    if let Some(d) = b.duration {
        lemma_duration_plain(d as nat);
    }
    if let Some(r) = b.rrule {
        lemma_rule_plain(r);
    }
}

proof fn lemma_event_lines_plain(b: TimeBlock)
    requires
        stamps_known(b),
        block_wf(b),
        one_line_fields(b),
    ensures
        lines_one_line(event_lines(b)),
{
    lemma_values_plain(b);
}

proof fn lemma_lines_concat(a: Seq<Seq<char>>, b: Seq<Seq<char>>)
    requires
        lines_one_line(a),
        lines_one_line(b),
    ensures
        lines_one_line(a + b),
{
    assert forall|k: int| 0 <= k < (a + b).len() implies no_char(#[trigger] (a + b)[k], '\n') by {
        if k < a.len() {
            assert((a + b)[k] == a[k]);
        } else {
            assert((a + b)[k] == b[k - a.len()]);
        }
    }
}

proof fn lemma_events_plain(bs: Seq<TimeBlock>)
    requires
        blocks_wf(bs),
        forall|k: int| 0 <= k < bs.len() ==> stamps_known(#[trigger] bs[k]),
        forall|k: int| 0 <= k < bs.len() ==> one_line_fields(#[trigger] bs[k]),
    ensures
        lines_one_line(events_lines(bs)),
    decreases bs.len(),
{
    if bs.len() > 0 {
        let pre = bs.drop_last();
        assert forall|k: int| 0 <= k < pre.len() implies stamps_known(#[trigger] pre[k]) && block_wf(pre[k])
            && one_line_fields(pre[k]) by {
            assert(pre[k] == bs[k]);
        }
        lemma_events_plain(pre);
        assert(block_wf(bs[bs.len() - 1]));
        assert(stamps_known(bs[bs.len() - 1]));
        assert(one_line_fields(bs[bs.len() - 1]));
        lemma_event_lines_plain(bs.last());
        lemma_lines_concat(events_lines(pre), event_lines(bs.last()));
    }
}

/// Reading the text of a calendar gives back its blocks, when their text
/// fields hold no line feed.
proof fn lemma_calendar_round_trip(bs: Seq<TimeBlock>, offset: int)
    requires
        blocks_wf(bs),
        forall|k: int| 0 <= k < bs.len() ==> stamps_known(#[trigger] bs[k]),
        forall|k: int| 0 <= k < bs.len() ==> one_line_fields(#[trigger] bs[k]),
    ensures
        parse_calendar(calendar_text(bs), offset) == Ok::<Seq<BlockView>, WireError>(block_views(bs)),
{
    lemma_keys_plain();
    let l1 = prop_line(kw_begin(), kw_vcalendar());
    let l2 = prop_line(kw_version(), seq!['2', '.', '0']);
    let l3 = prop_line(kw_end(), kw_vcalendar());
    let ev = events_lines(bs);
    let head = seq![l1, l2];
    let lines = calendar_lines(bs);
    assert(lines == head + ev + seq![l3]);
    lemma_events_plain(bs);
    assert(lines_one_line(head));
    assert(lines_one_line(seq![l3]));
    lemma_lines_concat(head, ev);
    lemma_lines_concat(head + ev, seq![l3]);
    lemma_split_join(lines);
    let e: Seq<char> = Seq::empty();
    let all = with_cr(lines) + seq![e];
    assert(all =~= with_cr(head) + with_cr(ev) + seq![l3.push('\r'), e]);
    let st_start = start_state();
    let st0 = outside(Seq::empty());
    assert(no_char(kw_version(), ':') && no_char(kw_version(), ';'));
    assert(kw_version() != kw_begin() && kw_version() != kw_end());
    lemma_frame_lines(block_views(bs), offset);
    lemma_outside_line(st0, kw_version(), seq!['2', '.', '0'], offset);
    assert(with_cr(head) =~= seq![l1.push('\r')].push(l2.push('\r')));
    lemma_run_one(st_start, l1.push('\r'), offset);
    lemma_run_push(st_start, seq![l1.push('\r')], l2.push('\r'), offset);
    lemma_run_concat(st_start, with_cr(head), with_cr(ev), offset);
    lemma_events_round_trip(bs, offset);
    let st1 = outside(block_views(bs));
    let st2 = ReadState { closed: true, ..st1 };
    lemma_run_concat(st_start, with_cr(head) + with_cr(ev), seq![l3.push('\r'), e], offset);
    assert(seq![l3.push('\r'), e] =~= seq![l3.push('\r')].push(e));
    lemma_run_one(st1, l3.push('\r'), offset);
    lemma_run_push(st1, seq![l3.push('\r')], e, offset);
    assert(line_step(st2, e, offset) == Ok::<ReadState, WireError>(st2)) by {
        reveal(line_step);
        assert(index_of(e, ':', ';', 0) == 0);
        assert(e.subrange(0, 0) =~= e);
    }
}

/// `r` is what reading `text` gives when instants without `Z` are local
/// time `offset` seconds east of UTC.
pub open spec fn read_as(r: Result<Vec<TimeBlock>, WireError>, text: Seq<char>, offset: int) -> bool {
    match parse_calendar(text, offset) {
        Ok(bs) => r matches Ok(v) && block_views(v@) == bs,
        Err(e) => r == Err::<Vec<TimeBlock>, WireError>(e),
    }
}

/// Reads a calendar as this machine sees it: instants without `Z` (floating,
/// `TZID` and all-day ones) are local time, at the machine's offset from UTC
/// at `now` (UTC when the machine gives none).
pub fn parse_local_ical_blocks(text: &str, now: i64) -> (r: Result<Vec<TimeBlock>, WireError>)
    ensures
        exists|offset: int| -86400 < offset < 86400 && #[trigger] read_as(r, text@, offset),
{
    let offset = match crate::civil::local_offset_at(now) {
        Some(o) => o,
        None => 0,
    };
    let r = parse_ical_blocks(text, offset);
    assert(read_as(r, text@, offset as int));
    r
}

} // verus!
