//! The calendar wire format: lines of `NAME[;PARAMS]:VALUE`, events between
//! `BEGIN:VEVENT` and `END:VEVENT`, instants as `YYYYMMDDTHHMMSSZ` and
//! durations as `PT#H#M#S`.

use vstd::prelude::*;
use crate::civil::{
    civil_seconds, civil_valid, lemma_year_in_range, utc_civil, utc_civil_of, utc_seconds, Civil,
};
use crate::model::in_time_range;

verus! {

pub open spec fn digit_char(d: int) -> char {
    if d == 0 {
        '0'
    } else if d == 1 {
        '1'
    } else if d == 2 {
        '2'
    } else if d == 3 {
        '3'
    } else if d == 4 {
        '4'
    } else if d == 5 {
        '5'
    } else if d == 6 {
        '6'
    } else if d == 7 {
        '7'
    } else if d == 8 {
        '8'
    } else {
        '9'
    }
}

pub open spec fn digit_value(c: char) -> Option<int> {
    if c == '0' {
        Some(0)
    } else if c == '1' {
        Some(1)
    } else if c == '2' {
        Some(2)
    } else if c == '3' {
        Some(3)
    } else if c == '4' {
        Some(4)
    } else if c == '5' {
        Some(5)
    } else if c == '6' {
        Some(6)
    } else if c == '7' {
        Some(7)
    } else if c == '8' {
        Some(8)
    } else if c == '9' {
        Some(9)
    } else {
        None
    }
}

fn digit_char_of(d: u64) -> (r: char)
    requires
        d < 10,
    ensures
        r == digit_char(d as int),
        digit_value(r) == Some(d as int),
{
    match d {
        0 => '0',
        1 => '1',
        2 => '2',
        3 => '3',
        4 => '4',
        5 => '5',
        6 => '6',
        7 => '7',
        8 => '8',
        _ => '9',
    }
}

fn digit_value_of(c: char) -> (r: Option<u64>)
    ensures
        match r {
            Some(v) => digit_value(c) == Some(v as int) && v < 10,
            None => digit_value(c) is None,
        },
{
    match c {
        '0' => Some(0),
        '1' => Some(1),
        '2' => Some(2),
        '3' => Some(3),
        '4' => Some(4),
        '5' => Some(5),
        '6' => Some(6),
        '7' => Some(7),
        '8' => Some(8),
        '9' => Some(9),
        _ => None,
    }
}

pub open spec fn pow10(n: nat) -> nat
    decreases n,
{
    if n == 0 { 1 } else { 10 * pow10((n - 1) as nat) }
}

/// `n` written with exactly `w` digits, zero-padded.
pub open spec fn fixed_digits(n: nat, w: nat) -> Seq<char>
    decreases w,
{
    if w == 0 {
        Seq::empty()
    } else {
        fixed_digits(n / 10, (w - 1) as nat).push(digit_char((n % 10) as int))
    }
}

/// The value of a non-empty run of decimal digits.
pub open spec fn read_number(s: Seq<char>) -> Option<nat>
    decreases s.len(),
{
    if s.len() == 0 {
        None
    } else if s.len() == 1 {
        match digit_value(s[0]) {
            Some(d) => Some(d as nat),
            None => None,
        }
    } else {
        match (read_number(s.drop_last()), digit_value(s.last())) {
            (Some(v), Some(d)) => Some((v * 10 + d) as nat),
            _ => None,
        }
    }
}

pub(crate) proof fn lemma_digit_round_trip(d: int)
    requires
        0 <= d < 10,
    ensures
        digit_value(digit_char(d)) == Some(d),
{
}

proof fn lemma_read_fixed(n: nat, w: nat)
    requires
        w >= 1,
        n < pow10(w),
    ensures
        read_number(fixed_digits(n, w)) == Some(n),
        fixed_digits(n, w).len() == w,
    decreases w,
{
    lemma_digit_round_trip((n % 10) as int);
    if w == 1 {
        assert(fixed_digits(n / 10, 0) =~= Seq::<char>::empty());
        assert(fixed_digits(n, w) =~= seq![digit_char((n % 10) as int)]);
    } else {
        lemma_read_fixed(n / 10, (w - 1) as nat);
        let s = fixed_digits(n, w);
        assert(s.drop_last() =~= fixed_digits(n / 10, (w - 1) as nat));
    }
}

/// Appends `n` with exactly `w` digits.
fn push_fixed(out: &mut Vec<char>, n: u64, w: u64)
    requires
        w <= 4,
    ensures
        final(out)@ == old(out)@ + fixed_digits(n as nat, w as nat),
    decreases w,
{
    if w > 0 {
        push_fixed(out, n / 10, w - 1);
        out.push(digit_char_of(n % 10));
    }
}

/// Reads the digits `s[a..b]` (at most four).
fn read_digits(s: &Vec<char>, a: usize, b: usize) -> (r: Option<u64>)
    requires
        a < b <= s@.len(),
        b - a <= 4,
    ensures
        match r {
            Some(v) => read_number(s@.subrange(a as int, b as int)) == Some(v as nat) && v < 10000,
            None => read_number(s@.subrange(a as int, b as int)) is None,
        },
{
    let mut v: u64 = match digit_value_of(s[a]) {
        Some(d) => d,
        None => {
            assert(s@.subrange(a as int, a as int + 1) =~= seq![s@[a as int]]);
            proof {
                lemma_read_prefix_fails(s@, a as int, a as int + 1, b as int);
            }
            return None;
        },
    };
    assert(s@.subrange(a as int, a as int + 1) =~= seq![s@[a as int]]);
    proof {
        reveal_with_fuel(pow10, 2);
    }
    let mut i: usize = a + 1;
    while i < b
        invariant
            a < i <= b <= s@.len(),
            b - a <= 4,
            read_number(s@.subrange(a as int, i as int)) == Some(v as nat),
            v < pow10((i - a) as nat),
        decreases b - i,
    {
        assert(s@.subrange(a as int, i as int + 1).drop_last() =~= s@.subrange(a as int, i as int));
        proof {
            lemma_pow10_mono((i - a) as nat, 3);
            reveal_with_fuel(pow10, 4);
            assert(pow10(3) == 1000);
            assert(pow10((i + 1 - a) as nat) == 10 * pow10((i - a) as nat));
        }
        match digit_value_of(s[i]) {
            Some(d) => {
                v = v * 10 + d;
            },
            None => {
                proof {
                    lemma_read_prefix_fails(s@, a as int, i as int + 1, b as int);
                }
                return None;
            },
        }
        i = i + 1;
    }
    proof {
        reveal_with_fuel(pow10, 5);
        assert(pow10(4) == 10000);
        lemma_pow10_mono((b - a) as nat, 4);
    }
    Some(v)
}

proof fn lemma_pow10_mono(a: nat, b: nat)
    requires
        a <= b,
    ensures
        pow10(a) <= pow10(b),
    decreases b,
{
    if a < b {
        lemma_pow10_mono(a, (b - 1) as nat);
    }
}

/// A run of digits with a non-digit in it has no value.
proof fn lemma_read_prefix_fails(s: Seq<char>, a: int, i: int, b: int)
    requires
        0 <= a < i <= b <= s.len(),
        read_number(s.subrange(a, i)) is None,
    ensures
        read_number(s.subrange(a, b)) is None,
    decreases b - i,
{
    if i < b {
        assert(s.subrange(a, i + 1).drop_last() =~= s.subrange(a, i));
        lemma_read_prefix_fails(s, a, i + 1, b);
    }
}

/// A UTC date and time as `YYYYMMDDTHHMMSSZ`.
pub open spec fn stamp_chars(c: Civil) -> Seq<char> {
    fixed_digits(c.year as nat, 4) + fixed_digits(c.month as nat, 2) + fixed_digits(c.day as nat, 2)
        + seq!['T'] + fixed_digits(c.hour as nat, 2) + fixed_digits(c.minute as nat, 2)
        + fixed_digits(c.second as nat, 2) + seq!['Z']
}

/// The text of the instant `ts`.
#[verifier::opaque]
pub open spec fn stamp_of(ts: int) -> Seq<char> {
    stamp_chars(utc_civil_of(ts))
}

/// What the conversion of `ts` to a UTC date and time has shown: a real date
/// and time of years 0 to 9999 that converts back to `ts`.
pub open spec fn stamp_known(ts: int) -> bool {
    let c = utc_civil_of(ts);
    civil_valid(c) && civil_seconds(c) == ts && 0 <= c.year <= 9999
}

pub open spec fn civil_from_fields(y: nat, mo: nat, d: nat, h: nat, mi: nat, s: nat) -> Civil {
    Civil {
        year: y as i32,
        month: mo as u32,
        day: d as u32,
        hour: h as u32,
        minute: mi as u32,
        second: s as u32,
    }
}

/// The shape of an instant: `YYYYMMDD`, or `YYYYMMDDTHHMMSS` with an
/// optional trailing `Z`.
pub open spec fn stamp_shape(s: Seq<char>) -> bool {
    s.len() == 8 || ((s.len() == 15 || (s.len() == 16 && s[15] == 'Z')) && s[8] == 'T')
}

/// The instant written `s`, read as UTC; a date alone stands for its
/// midnight. `None` when `s` is not a real date and time so written.
pub open spec fn parse_stamp(s: Seq<char>) -> Option<int> {
    if !stamp_shape(s) {
        None
    } else {
        let y = read_number(s.subrange(0, 4));
        let mo = read_number(s.subrange(4, 6));
        let d = read_number(s.subrange(6, 8));
        let h = if s.len() == 8 { Some(0nat) } else { read_number(s.subrange(9, 11)) };
        let mi = if s.len() == 8 { Some(0nat) } else { read_number(s.subrange(11, 13)) };
        let se = if s.len() == 8 { Some(0nat) } else { read_number(s.subrange(13, 15)) };
        if y is Some && mo is Some && d is Some && h is Some && mi is Some && se is Some {
            let c = civil_from_fields(y->0, mo->0, d->0, h->0, mi->0, se->0);
            if civil_valid(c) {
                Some(civil_seconds(c))
            } else {
                None
            }
        } else {
            None
        }
    }
}

pub open spec fn opt_i64(o: Option<i64>) -> Option<int> {
    match o {
        Some(v) => Some(v as int),
        None => None,
    }
}

/// Reads an instant (see `parse_stamp`).
pub fn read_stamp(s: &Vec<char>) -> (r: Option<i64>)
    ensures
        opt_i64(r) == parse_stamp(s@),
        r matches Some(t) ==> in_time_range(t as int),
{
    let n = s.len();
    if !(n == 8 || ((n == 15 || (n == 16 && s[15] == 'Z')) && s[8] == 'T')) {
        return None;
    }
    let y = read_digits(s, 0, 4);
    let mo = read_digits(s, 4, 6);
    let d = read_digits(s, 6, 8);
    let (h, mi, se) = if n == 8 {
        (Some(0u64), Some(0u64), Some(0u64))
    } else {
        (read_digits(s, 9, 11), read_digits(s, 11, 13), read_digits(s, 13, 15))
    };
    match (y, mo, d, h, mi, se) {
        (Some(y), Some(mo), Some(d), Some(h), Some(mi), Some(se)) => {
            let c = Civil {
                year: y as i32,
                month: mo as u32,
                day: d as u32,
                hour: h as u32,
                minute: mi as u32,
                second: se as u32,
            };
            assert(c == civil_from_fields(y as nat, mo as nat, d as nat, h as nat, mi as nat, se as nat));
            let r = utc_seconds(&c);
            proof {
                if r is Some {
                    lemma_year_in_range(c);
                }
            }
            r
        },
        _ => None,
    }
}

/// The instant written `s`: with a trailing `Z` it is UTC; otherwise it is
/// local time, `offset` seconds east of UTC.
pub open spec fn instant_of(s: Seq<char>, offset: int) -> Option<int> {
    match parse_stamp(s) {
        Some(t) => Some(
            if s.len() == 16 {
                t
            } else {
                t - offset
            },
        ),
        None => None,
    }
}

/// Reads an instant (see `instant_of`).
pub fn read_instant(s: &Vec<char>, offset: i64) -> (r: Option<i64>)
    requires
        -86400 < offset < 86400,
    ensures
        opt_i64(r) == instant_of(s@, offset as int),
{
    match read_stamp(s) {
        Some(t) => {
            if s.len() == 16 {
                Some(t)
            } else {
                Some(t - offset)
            }
        },
        None => None,
    }
}

/// Appends the text of the instant `ts`.
pub(crate) fn push_stamp(out: &mut Vec<char>, ts: i64)
    requires
        in_time_range(ts as int),
    ensures
        final(out)@ == old(out)@ + stamp_of(ts as int),
        stamp_known(ts as int),
{
    let c = match utc_civil(ts) {
        Some(c) => c,
        None => {
            return;
        },
    };
    proof {
        lemma_year_in_range(c);
    }
    reveal(stamp_of);
    let ghost start = out@;
    push_fixed(out, c.year as u64, 4);
    push_fixed(out, c.month as u64, 2);
    push_fixed(out, c.day as u64, 2);
    out.push('T');
    push_fixed(out, c.hour as u64, 2);
    push_fixed(out, c.minute as u64, 2);
    push_fixed(out, c.second as u64, 2);
    out.push('Z');
    assert(out@ =~= start + stamp_chars(c));
}

pub open spec fn digits_only(s: Seq<char>) -> bool {
    forall|i: int| 0 <= i < s.len() ==> digit_value(#[trigger] s[i]) is Some
}

proof fn lemma_fixed_digits_only(n: nat, w: nat)
    ensures
        digits_only(fixed_digits(n, w)),
        fixed_digits(n, w).len() == w,
    decreases w,
{
    if w > 0 {
        lemma_fixed_digits_only(n / 10, (w - 1) as nat);
        lemma_digit_round_trip((n % 10) as int);
        let s = fixed_digits(n, w);
        assert forall|i: int| 0 <= i < s.len() implies digit_value(#[trigger] s[i]) is Some by {
            if i < w - 1 {
                assert(s[i] == fixed_digits(n / 10, (w - 1) as nat)[i]);
            }
        }
    }
}

/// An instant's text reads back as the instant; it is made of digits, `T`
/// and `Z` only.
pub proof fn lemma_stamp_round_trip(ts: int)
    requires
        stamp_known(ts),
    ensures
        parse_stamp(stamp_of(ts)) == Some(ts),
        forall|offset: int| #[trigger] instant_of(stamp_of(ts), offset) == Some(ts),
        stamp_of(ts).len() == 16,
        forall|i: int|
            0 <= i < 16 ==> digit_value(#[trigger] stamp_of(ts)[i]) is Some || stamp_of(ts)[i] == 'T'
                || stamp_of(ts)[i] == 'Z',
{
    reveal(stamp_of);
    let c = utc_civil_of(ts);
    let s = stamp_of(ts);
    reveal_with_fuel(pow10, 5);
    assert(pow10(4) == 10000 && pow10(2) == 100);
    lemma_read_fixed(c.year as nat, 4);
    lemma_read_fixed(c.month as nat, 2);
    lemma_read_fixed(c.day as nat, 2);
    lemma_read_fixed(c.hour as nat, 2);
    lemma_read_fixed(c.minute as nat, 2);
    lemma_read_fixed(c.second as nat, 2);
    lemma_fixed_digits_only(c.year as nat, 4);
    lemma_fixed_digits_only(c.month as nat, 2);
    lemma_fixed_digits_only(c.day as nat, 2);
    lemma_fixed_digits_only(c.hour as nat, 2);
    lemma_fixed_digits_only(c.minute as nat, 2);
    lemma_fixed_digits_only(c.second as nat, 2);
    assert(s.subrange(0, 4) =~= fixed_digits(c.year as nat, 4));
    assert(s.subrange(4, 6) =~= fixed_digits(c.month as nat, 2));
    assert(s.subrange(6, 8) =~= fixed_digits(c.day as nat, 2));
    assert(s.subrange(9, 11) =~= fixed_digits(c.hour as nat, 2));
    assert(s.subrange(11, 13) =~= fixed_digits(c.minute as nat, 2));
    assert(s.subrange(13, 15) =~= fixed_digits(c.second as nat, 2));
    assert(civil_from_fields(c.year as nat, c.month as nat, c.day as nat, c.hour as nat, c.minute as nat, c.second as nat) == c);
    assert forall|i: int|
        0 <= i < 16 implies digit_value(#[trigger] s[i]) is Some || s[i] == 'T' || s[i] == 'Z' by {
        if i < 4 {
            assert(s[i] == s.subrange(0, 4)[i]);
        } else if i < 6 {
            assert(s[i] == s.subrange(4, 6)[i - 4]);
        } else if i < 8 {
            assert(s[i] == s.subrange(6, 8)[i - 6]);
        } else if 9 <= i < 11 {
            assert(s[i] == s.subrange(9, 11)[i - 9]);
        } else if 11 <= i < 13 {
            assert(s[i] == s.subrange(11, 13)[i - 11]);
        } else if 13 <= i < 15 {
            assert(s[i] == s.subrange(13, 15)[i - 13]);
        }
    }
}

/// The longest duration the format reads: the whole handled range.
pub open spec fn duration_limit() -> int {
    crate::model::max_estimate()
}

/// Seconds per unit of a duration: weeks and days before the `T`, hours,
/// minutes and seconds after it (months and years have no fixed length and
/// are refused).
pub open spec fn unit_seconds(c: char, in_time: bool) -> Option<int> {
    if !in_time {
        if c == 'W' {
            Some(604800)
        } else if c == 'D' {
            Some(86400)
        } else {
            None
        }
    } else if c == 'H' {
        Some(3600)
    } else if c == 'M' {
        Some(60)
    } else if c == 'S' {
        Some(1)
    } else {
        None
    }
}

/// Reads the part of a duration after `P`: numbers each followed by a unit,
/// with one `T` between the date units and the time units; `total` holds the
/// seconds read so far, `num` the number being read and `in_time` whether
/// the `T` has been read.
pub open spec fn dur_scan(s: Seq<char>, total: int, num: Option<int>, in_time: bool) -> Option<int>
    decreases s.len(),
{
    if s.len() == 0 {
        if num is None {
            Some(total)
        } else {
            None
        }
    } else {
        let c = s[0];
        match digit_value(c) {
            Some(d) => {
                let n = match num {
                    Some(v) => v * 10 + d,
                    None => d,
                };
                if n > duration_limit() {
                    None
                } else {
                    dur_scan(s.drop_first(), total, Some(n), in_time)
                }
            },
            None => {
                if c == 'T' && num is None && !in_time {
                    dur_scan(s.drop_first(), total, None, true)
                } else if unit_seconds(c, in_time) is Some && num is Some {
                    let t = total + num->0 * unit_seconds(c, in_time)->0;
                    if t > duration_limit() {
                        None
                    } else {
                        dur_scan(s.drop_first(), t, None, in_time)
                    }
                } else {
                    None
                }
            },
        }
    }
}

/// The seconds of a duration written `P[nW][nD][T[nH][nM][nS]]`, with an
/// optional leading `+`.
pub open spec fn parse_duration(s: Seq<char>) -> Option<int> {
    if s.len() >= 1 && s[0] == 'P' {
        dur_scan(s.drop_first(), 0, None, false)
    } else if s.len() >= 2 && s[0] == '+' && s[1] == 'P' {
        dur_scan(s.subrange(2, s.len() as int), 0, None, false)
    } else {
        None
    }
}

fn unit_seconds_of(c: char, in_time: bool) -> (r: Option<i64>)
    ensures
        opt_i64(r) == unit_seconds(c, in_time),
{
    if !in_time {
        match c {
            'W' => Some(604800),
            'D' => Some(86400),
            _ => None,
        }
    } else {
        match c {
            'H' => Some(3600),
            'M' => Some(60),
            'S' => Some(1),
            _ => None,
        }
    }
}

pub proof fn lemma_rest_drop<A>(s: Seq<A>, i: int)
    requires
        0 <= i < s.len(),
    ensures
        s.subrange(i, s.len() as int).drop_first() == s.subrange(i + 1, s.len() as int),
        s.subrange(i, s.len() as int)[0] == s[i],
{
    assert(s.subrange(i, s.len() as int).drop_first() =~= s.subrange(i + 1, s.len() as int));
}

/// Reads a duration (see `parse_duration`).
pub fn read_duration(s: &Vec<char>) -> (r: Option<i64>)
    ensures
        opt_i64(r) == parse_duration(s@),
{
    let n = s.len();
    let mut i: usize = 0;
    if n >= 1 && s[0] == 'P' {
        i = 1;
        assert(s@.drop_first() =~= s@.subrange(1, n as int));
    } else if n >= 2 && s[0] == '+' && s[1] == 'P' {
        i = 2;
    } else {
        return None;
    }
    let limit: i64 = crate::model::MAX_TIMESTAMP - crate::model::MIN_TIMESTAMP;
    let ghost target = parse_duration(s@);
    let mut total: i64 = 0;
    let mut num: Option<i64> = None;
    let mut in_time = false;
    while i < n
        invariant
            i <= n,
            n == s@.len(),
            limit == duration_limit(),
            0 <= total <= limit,
            num matches Some(v) ==> 0 <= v <= limit,
            dur_scan(s@.subrange(i as int, n as int), total as int, opt_i64(num), in_time) == target,
            target == parse_duration(s@),
        decreases n - i,
    {
        proof {
            lemma_rest_drop(s@, i as int);
        }
        let c = s[i];
        match digit_value_of(c) {
            Some(d) => {
                let v: i64 = match num {
                    Some(v) => {
                        if v > (limit - d as i64) / 10 {
                            return None;
                        }
                        v * 10 + d as i64
                    },
                    None => d as i64,
                };
                num = Some(v);
            },
            None => {
                if c == 'T' && num.is_none() && !in_time {
                    in_time = true;
                } else {
                    match (unit_seconds_of(c, in_time), num) {
                        (Some(f), Some(v)) => {
                            assert(v * f <= 604800 * limit) by (nonlinear_arith)
                                requires
                                    0 <= v <= limit,
                                    1 <= f <= 604800,
                            ;
                            if v * f > limit - total {
                                return None;
                            }
                            total = total + v * f;
                            num = None;
                        },
                        _ => {
                            return None;
                        },
                    }
                }
            },
        }
        i = i + 1;
    }
    match num {
        Some(_) => None,
        None => Some(total),
    }
}

/// `n` in decimal, without leading zeros.
pub open spec fn decimal(n: nat) -> Seq<char>
    decreases n,
{
    if n < 10 {
        seq![digit_char(n as int)]
    } else {
        decimal(n / 10).push(digit_char((n % 10) as int))
    }
}

fn push_decimal(out: &mut Vec<char>, n: u64)
    ensures
        final(out)@ == old(out)@ + decimal(n as nat),
    decreases n,
{
    if n >= 10 {
        push_decimal(out, n / 10);
    }
    out.push(digit_char_of(n % 10));
    assert(out@ =~= old(out)@ + decimal(n as nat));
}

pub open spec fn unit_part(n: nat, unit: char, shown: bool) -> Seq<char> {
    if shown {
        decimal(n).push(unit)
    } else {
        Seq::empty()
    }
}

/// A duration of `d` seconds as `PT[hH][mM][sS]`; zero is `PT0M`.
#[verifier::opaque]
pub open spec fn duration_chars(d: nat) -> Seq<char> {
    let h = d / 3600;
    let m = (d % 3600) / 60;
    let s = d % 60;
    seq!['P', 'T'] + unit_part(h, 'H', h > 0) + unit_part(m, 'M', m > 0 || d == 0) + unit_part(
        s,
        'S',
        s > 0,
    )
}

pub(crate) fn push_duration(out: &mut Vec<char>, d: i64)
    requires
        d >= 0,
    ensures
        final(out)@ == old(out)@ + duration_chars(d as nat),
{
    reveal(duration_chars);
    let h = (d / 3600) as u64;
    let m = ((d % 3600) / 60) as u64;
    let s = (d % 60) as u64;
    out.push('P');
    out.push('T');
    let ghost a = out@;
    if h > 0 {
        push_decimal(out, h);
        out.push('H');
    }
    let ghost b = out@;
    if m > 0 || d == 0 {
        push_decimal(out, m);
        out.push('M');
    }
    let ghost c = out@;
    if s > 0 {
        push_decimal(out, s);
        out.push('S');
    }
    assert(b =~= a + unit_part(h as nat, 'H', h > 0));
    assert(c =~= b + unit_part(m as nat, 'M', m > 0 || d == 0));
    assert(out@ =~= c + unit_part(s as nat, 'S', s > 0));
    assert(out@ =~= old(out)@ + duration_chars(d as nat));
}

proof fn lemma_scan_decimal(n: nat, tail: Seq<char>, total: int, in_time: bool)
    requires
        n <= duration_limit(),
    ensures
        dur_scan(decimal(n) + tail, total, None, in_time) == dur_scan(tail, total, Some(n as int), in_time),
    decreases n,
{
    if n < 10 {
        lemma_digit_round_trip(n as int);
        assert((decimal(n) + tail).drop_first() =~= tail);
    } else {
        let x = seq![digit_char((n % 10) as int)] + tail;
        assert(decimal(n) + tail =~= decimal(n / 10) + x);
        lemma_scan_decimal(n / 10, x, total, in_time);
        lemma_digit_round_trip((n % 10) as int);
        assert(x.drop_first() =~= tail);
    }
}

proof fn lemma_scan_unit(n: nat, unit: char, tail: Seq<char>, total: int)
    requires
        n <= duration_limit(),
        unit_seconds(unit, true) is Some,
        digit_value(unit) is None,
        unit != 'T',
        total + n * unit_seconds(unit, true)->0 <= duration_limit(),
    ensures
        dur_scan(decimal(n).push(unit) + tail, total, None, true) == dur_scan(
            tail,
            total + n * unit_seconds(unit, true)->0,
            None,
            true,
        ),
{
    let x = seq![unit] + tail;
    assert(decimal(n).push(unit) + tail =~= decimal(n) + x);
    lemma_scan_decimal(n, x, total, true);
    assert(x.drop_first() =~= tail);
}

/// A duration's text reads back as the duration.
pub proof fn lemma_duration_round_trip(d: nat)
    requires
        d <= duration_limit(),
    ensures
        parse_duration(duration_chars(d)) == Some(d as int),
{
    reveal(duration_chars);
    let h = d / 3600;
    let m = (d % 3600) / 60;
    let s = d % 60;
    assert(h * 3600 + m * 60 + s == d) by (nonlinear_arith)
        requires
            h == d / 3600,
            m == (d % 3600) / 60,
            s == d % 60,
    {
        vstd::arithmetic::div_mod::lemma_fundamental_div_mod(d as int, 3600);
        vstd::arithmetic::div_mod::lemma_fundamental_div_mod((d % 3600) as int, 60);
        vstd::arithmetic::div_mod::lemma_mod_mod(d as int, 60, 60);
        vstd::arithmetic::div_mod::lemma_mod_breakdown(d as int, 60, 60);
    }
    assert(0 <= h * 3600 <= d && 0 <= m * 60) by (nonlinear_arith)
        requires
            h >= 0,
            m >= 0,
            h * 3600 + m * 60 + s == d,
            s >= 0,
    ;
    let full = duration_chars(d);
    let p_h = unit_part(h, 'H', h > 0);
    let p_m = unit_part(m, 'M', m > 0 || d == 0);
    let p_s = unit_part(s, 'S', s > 0);
    assert(full.drop_first() =~= seq!['T'] + (p_h + (p_m + p_s)));
    assert((seq!['T'] + (p_h + (p_m + p_s))).drop_first() =~= p_h + (p_m + p_s));
    let t1: int = (h * 3600) as int;
    if h > 0 {
        assert(unit_seconds('H', true)->0 == 3600);
        lemma_scan_unit(h, 'H', p_m + p_s, 0);
    } else {
        assert(p_h + (p_m + p_s) =~= p_m + p_s);
    }
    if m > 0 || d == 0 {
        assert(unit_seconds('M', true)->0 == 60);
        lemma_scan_unit(m, 'M', p_s, t1);
    } else {
        assert(p_m + p_s =~= p_s);
    }
    if s > 0 {
        assert(unit_seconds('S', true)->0 == 1);
        assert(t1 + m * 60 + s * 1 == d);
        lemma_scan_unit(s, 'S', Seq::empty(), t1 + m * 60 as int);
        assert(p_s + Seq::<char>::empty() =~= p_s);
    } else {
        assert(p_s =~= Seq::<char>::empty());
    }
}

} // verus!
