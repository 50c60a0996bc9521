//! The record codec: one journal entry to and from its exact 22-byte form.
//!
//! The layout is `YYYY-MM-DDTHH:MM:SS` (19 ASCII bytes, zero-padded, UTC),
//! then `_`, then one action byte (`I` or `O`), then `\n`.

use vstd::prelude::*;
use vstd::arithmetic::div_mod::lemma_fundamental_div_mod;
use vstd::arithmetic::div_mod::lemma_div_denominator;
use crate::calendar::Timestamp;
use crate::calendar::days_in_month_of;

verus! {

/// Width in bytes of one encoded record.
pub const RECORD_WIDTH: usize = 22;

/// A punch action. `Unset` stands for "no record available" and is never
/// persisted.
#[derive(Clone, Copy, Debug, PartialEq, Eq, Structural)]
pub enum Action {
    PunchIn,
    PunchOut,
    Unset,
}

/// One journal entry: an instant and the action taken at it.
#[derive(Clone, Copy, Debug, PartialEq, Eq, Structural)]
pub struct Record {
    pub timestamp: Timestamp,
    pub action: Action,
}

impl Record {
    /// A record that may be persisted: a valid instant and a real action.
    pub open spec fn valid(self) -> bool {
        self.timestamp.valid() && self.action != Action::Unset
    }
}

/// Why a 22-byte chunk failed to decode.
#[derive(Clone, Copy, Debug, PartialEq, Eq, Structural)]
pub enum DecodeError {
    /// The 19-byte timestamp field does not parse as a valid instant.
    MalformedTimestamp,
    /// The trailing three bytes are not exactly `_I\n` or `_O\n`.
    UnknownAction,
}

pub open spec fn is_digit(b: u8) -> bool {
    48 <= b <= 57
}

pub open spec fn digit_value(b: u8) -> int {
    b - 48
}

pub open spec fn digit(v: int) -> u8 {
    (48 + v) as u8
}

pub open spec fn action_byte(a: Action) -> u8 {
    match a {
        Action::PunchIn => 73,  // 'I'
        Action::PunchOut => 79,  // 'O'
        Action::Unset => 85,  // 'U'
    }
}

/// The exact 22 bytes that encode a record.
pub open spec fn spec_encode(r: Record) -> Seq<u8> {
    let y = r.timestamp.year as int;
    let mo = r.timestamp.month as int;
    let d = r.timestamp.day as int;
    let h = r.timestamp.hour as int;
    let mi = r.timestamp.minute as int;
    let s = r.timestamp.second as int;
    seq![
        digit(y / 1000),
        digit((y / 100) % 10),
        digit((y / 10) % 10),
        digit(y % 10),
        45,  // '-'
        digit(mo / 10),
        digit(mo % 10),
        45,  // '-'
        digit(d / 10),
        digit(d % 10),
        84,  // 'T'
        digit(h / 10),
        digit(h % 10),
        58,  // ':'
        digit(mi / 10),
        digit(mi % 10),
        58,  // ':'
        digit(s / 10),
        digit(s % 10),
        95,  // '_'
        action_byte(r.action),
        10,  // '\n'
    ]
}

/// The value of the two decimal digits at position `i`.
pub open spec fn two_digits(s: Seq<u8>, i: int) -> int {
    10 * digit_value(s[i]) + digit_value(s[i + 1])
}

/// The value of the four decimal digits at position `i`.
pub open spec fn four_digits(s: Seq<u8>, i: int) -> int {
    1000 * digit_value(s[i]) + 100 * digit_value(s[i + 1]) + 10 * digit_value(s[i + 2])
        + digit_value(s[i + 3])
}

/// The digits and separators of the timestamp field stand where the
/// layout puts them.
pub open spec fn timestamp_shape_ok(s: Seq<u8>) -> bool {
    &&& is_digit(s[0]) && is_digit(s[1]) && is_digit(s[2]) && is_digit(s[3])
    &&& s[4] == 45
    &&& is_digit(s[5]) && is_digit(s[6])
    &&& s[7] == 45
    &&& is_digit(s[8]) && is_digit(s[9])
    &&& s[10] == 84
    &&& is_digit(s[11]) && is_digit(s[12])
    &&& s[13] == 58
    &&& is_digit(s[14]) && is_digit(s[15])
    &&& s[16] == 58
    &&& is_digit(s[17]) && is_digit(s[18])
}

/// The instant the timestamp field spells out, assuming the shape holds.
pub open spec fn spec_timestamp_of(s: Seq<u8>) -> Timestamp {
    Timestamp {
        year: four_digits(s, 0) as u16,
        month: two_digits(s, 5) as u8,
        day: two_digits(s, 8) as u8,
        hour: two_digits(s, 11) as u8,
        minute: two_digits(s, 14) as u8,
        second: two_digits(s, 17) as u8,
    }
}

/// The timestamp field parses: right shape, and a valid calendar instant.
pub open spec fn timestamp_ok(s: Seq<u8>) -> bool {
    timestamp_shape_ok(s) && spec_timestamp_of(s).valid()
}

/// The trailing three bytes are exactly `_I\n` or `_O\n`.
pub open spec fn action_ok(s: Seq<u8>) -> bool {
    s[19] == 95 && (s[20] == 73 || s[20] == 79) && s[21] == 10
}

pub open spec fn spec_action_of(s: Seq<u8>) -> Action {
    if s[20] == 73 {
        Action::PunchIn
    } else {
        Action::PunchOut
    }
}

/// What decoding a 22-byte chunk yields: the record it spells, or the
/// first of the two errors whose condition holds.
pub open spec fn spec_decode(s: Seq<u8>) -> Result<Record, DecodeError> {
    if !timestamp_ok(s) {
        Err(DecodeError::MalformedTimestamp)
    } else if !action_ok(s) {
        Err(DecodeError::UnknownAction)
    } else {
        Ok(Record { timestamp: spec_timestamp_of(s), action: spec_action_of(s) })
    }
}

/// A two-digit value is recovered from its digits.
proof fn lemma_two_digit_split(v: int)
    requires
        0 <= v <= 99,
    ensures
        10 * (v / 10) + v % 10 == v,
        0 <= v / 10 <= 9,
        0 <= v % 10 <= 9,
{
    lemma_fundamental_div_mod(v, 10);
    assert(0 <= v / 10 <= 9 && 0 <= v % 10 <= 9) by (nonlinear_arith)
        requires 0 <= v <= 99;
}

/// A four-digit value is recovered from its digits.
proof fn lemma_four_digit_split(v: int)
    requires
        0 <= v <= 9999,
    ensures
        1000 * (v / 1000) + 100 * ((v / 100) % 10) + 10 * ((v / 10) % 10) + v % 10 == v,
        0 <= v / 1000 <= 9,
        0 <= (v / 100) % 10 <= 9,
        0 <= (v / 10) % 10 <= 9,
        0 <= v % 10 <= 9,
{
    lemma_fundamental_div_mod(v, 10);
    lemma_div_denominator(v, 10, 10);
    lemma_fundamental_div_mod(v / 10, 10);
    lemma_div_denominator(v / 10, 10, 10);
    lemma_fundamental_div_mod(v / 100, 10);
    assert(0 <= v / 10 <= 999 && 0 <= v / 100 <= 99 && 0 <= v / 1000 <= 9) by (nonlinear_arith)
        requires 0 <= v <= 9999;
    assert(0 <= (v / 100) % 10 <= 9 && 0 <= (v / 10) % 10 <= 9 && 0 <= v % 10 <= 9)
        by (nonlinear_arith);
}

/// Round trip: decoding what `spec_encode` produced gives the record back.
///
/// This is the law behind `decode(encode(r)) == Ok(r)` for every valid
/// record.
pub proof fn lemma_encode_decode_roundtrip(r: Record)
    requires
        r.valid(),
    ensures
        spec_decode(spec_encode(r)) == Ok::<Record, DecodeError>(r),
{
    let s = spec_encode(r);
    lemma_four_digit_split(r.timestamp.year as int);
    lemma_two_digit_split(r.timestamp.month as int);
    lemma_two_digit_split(r.timestamp.day as int);
    lemma_two_digit_split(r.timestamp.hour as int);
    lemma_two_digit_split(r.timestamp.minute as int);
    lemma_two_digit_split(r.timestamp.second as int);
    assert(timestamp_shape_ok(s));
    assert(four_digits(s, 0) == r.timestamp.year);
    assert(two_digits(s, 5) == r.timestamp.month);
    assert(two_digits(s, 8) == r.timestamp.day);
    assert(two_digits(s, 11) == r.timestamp.hour);
    assert(two_digits(s, 14) == r.timestamp.minute);
    assert(two_digits(s, 17) == r.timestamp.second);
    assert(spec_timestamp_of(s) == r.timestamp);
    assert(spec_action_of(s) == r.action);
}

/// Encode a record into its exact 22-byte form.
pub fn encode(r: &Record) -> (out: Vec<u8>)
    requires
        r.valid(),
    ensures
        out@ == spec_encode(*r),
        out@.len() == RECORD_WIDTH,
{
    proof {
        lemma_four_digit_split(r.timestamp.year as int);
        lemma_two_digit_split(r.timestamp.month as int);
        lemma_two_digit_split(r.timestamp.day as int);
        lemma_two_digit_split(r.timestamp.hour as int);
        lemma_two_digit_split(r.timestamp.minute as int);
        lemma_two_digit_split(r.timestamp.second as int);
    }
    let mut out: Vec<u8> = Vec::new();
    let y = r.timestamp.year;
    out.push(48 + (y / 1000) as u8);
    out.push(48 + ((y / 100) % 10) as u8);
    out.push(48 + ((y / 10) % 10) as u8);
    out.push(48 + (y % 10) as u8);
    out.push(45);
    out.push(48 + r.timestamp.month / 10);
    out.push(48 + r.timestamp.month % 10);
    out.push(45);
    out.push(48 + r.timestamp.day / 10);
    out.push(48 + r.timestamp.day % 10);
    out.push(84);
    out.push(48 + r.timestamp.hour / 10);
    out.push(48 + r.timestamp.hour % 10);
    out.push(58);
    out.push(48 + r.timestamp.minute / 10);
    out.push(48 + r.timestamp.minute % 10);
    out.push(58);
    out.push(48 + r.timestamp.second / 10);
    out.push(48 + r.timestamp.second % 10);
    out.push(95);
    out.push(match r.action {
        Action::PunchIn => 73,
        Action::PunchOut => 79,
        Action::Unset => 85,
    });
    out.push(10);
    proof {
        assert(out@ =~= spec_encode(*r));
    }
    out
}

/// Decode one 22-byte chunk into a record, or say exactly why it fails.
pub fn decode(bytes: &[u8]) -> (r: Result<Record, DecodeError>)
    requires
        bytes@.len() == RECORD_WIDTH,
    ensures
        r == spec_decode(bytes@),
{
    let shape_ok = is_digit_byte(bytes[0]) && is_digit_byte(bytes[1]) && is_digit_byte(bytes[2])
        && is_digit_byte(bytes[3]) && bytes[4] == 45 && is_digit_byte(bytes[5]) && is_digit_byte(
        bytes[6],
    ) && bytes[7] == 45 && is_digit_byte(bytes[8]) && is_digit_byte(bytes[9]) && bytes[10] == 84
        && is_digit_byte(bytes[11]) && is_digit_byte(bytes[12]) && bytes[13] == 58 && is_digit_byte(
        bytes[14],
    ) && is_digit_byte(bytes[15]) && bytes[16] == 58 && is_digit_byte(bytes[17]) && is_digit_byte(
        bytes[18],
    );
    if !shape_ok {
        return Err(DecodeError::MalformedTimestamp);
    }
    let year: u16 = 1000 * ((bytes[0] - 48) as u16) + 100 * ((bytes[1] - 48) as u16) + 10 * ((
    bytes[2] - 48) as u16) + (bytes[3] - 48) as u16;
    let month: u8 = 10 * (bytes[5] - 48) + (bytes[6] - 48);
    let day: u8 = 10 * (bytes[8] - 48) + (bytes[9] - 48);
    let hour: u8 = 10 * (bytes[11] - 48) + (bytes[12] - 48);
    let minute: u8 = 10 * (bytes[14] - 48) + (bytes[15] - 48);
    let second: u8 = 10 * (bytes[17] - 48) + (bytes[18] - 48);
    let ts = Timestamp { year, month, day, hour, minute, second };
    let range_ok = 1 <= year && 1 <= month && month <= 12 && 1 <= day && hour <= 23 && minute <= 59
        && second <= 59 && day <= days_in_month_of_checked(year, month);
    if !range_ok {
        return Err(DecodeError::MalformedTimestamp);
    }
    assert(ts == spec_timestamp_of(bytes@));
    assert(ts.valid());
    if !(bytes[19] == 95 && (bytes[20] == 73 || bytes[20] == 79) && bytes[21] == 10) {
        return Err(DecodeError::UnknownAction);
    }
    let action = if bytes[20] == 73 {
        Action::PunchIn
    } else {
        Action::PunchOut
    };
    Ok(Record { timestamp: ts, action })
}

/// Whether a byte is an ASCII decimal digit.
fn is_digit_byte(b: u8) -> (r: bool)
    ensures
        r == is_digit(b),
{
    48 <= b && b <= 57
}

/// Days in the month, or 0 when the month is out of range, so that the
/// day check below fails exactly when the instant is invalid.
fn days_in_month_of_checked(y: u16, m: u8) -> (n: u8)
    ensures
        1 <= m <= 12 ==> n == crate::calendar::days_in_month(y as int, m as int),
        !(1 <= m <= 12) ==> n == 0,
{
    if 1 <= m && m <= 12 {
        days_in_month_of(y, m)
    } else {
        0
    }
}

} // verus!
