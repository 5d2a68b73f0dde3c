//! Decoding of a single `name;temperature` record.
use vstd::prelude::*;

verus! {

/// Byte between a station name and its temperature.
pub const SEPARATOR: u8 = 59;

/// Byte that ends a record.
pub const TERMINATOR: u8 = 10;

/// Sign of a negative temperature.
pub const MINUS: u8 = 45;

/// Decimal point of a temperature.
pub const DOT: u8 = 46;

pub open spec fn is_digit(b: u8) -> bool {
    48 <= b <= 57
}

pub open spec fn digit_value(b: u8) -> int {
    b - 48
}

/// The unsigned form `D.D` or `DD.D`, in tenths.
pub open spec fn magnitude_of(t: Seq<u8>) -> Option<int> {
    if t.len() == 3 && is_digit(t[0]) && t[1] == DOT && is_digit(t[2]) {
        Some(digit_value(t[0]) * 10 + digit_value(t[2]))
    } else if t.len() == 4 && is_digit(t[0]) && is_digit(t[1]) && t[2] == DOT && is_digit(t[3]) {
        Some(digit_value(t[0]) * 100 + digit_value(t[1]) * 10 + digit_value(t[3]))
    } else {
        None
    }
}

/// The temperature text `-?D{1,2}.D`, in tenths of a degree.
pub open spec fn temperature_of(t: Seq<u8>) -> Option<int> {
    if t.len() > 0 && t[0] == MINUS {
        match magnitude_of(t.drop_first()) {
            Some(m) => Some(-m),
            None => None,
        }
    } else {
        magnitude_of(t)
    }
}

/// `k` is the position of the first separator of `r`.
pub open spec fn first_separator(r: Seq<u8>, k: int) -> bool {
    &&& 0 <= k < r.len()
    &&& r[k] == SEPARATOR
    &&& forall|j: int| 0 <= j < k ==> r[j] != SEPARATOR
}

/// The station name and temperature (in tenths) of one record, without its
/// terminator; `None` when the record is malformed.
pub open spec fn record_of(r: Seq<u8>) -> Option<(Seq<u8>, int)> {
    if exists|k: int| first_separator(r, k) {
        let k = choose|k: int| first_separator(r, k);
        match temperature_of(r.subrange(k + 1, r.len() as int)) {
            Some(v) => Some((r.subrange(0, k), v)),
            None => None,
        }
    } else {
        None
    }
}

pub proof fn lemma_temperature_bounds(t: Seq<u8>)
    ensures
        temperature_of(t) matches Some(v) ==> -999 <= v <= 999,
{
}

fn digit(b: u8) -> (r: Option<i32>)
    ensures
        r matches Some(d) ==> is_digit(b) && d == digit_value(b),
        r is None ==> !is_digit(b),
{
    if 48 <= b && b <= 57 {
        Some((b - 48) as i32)
    } else {
        None
    }
}

fn parse_magnitude(t: &[u8]) -> (r: Option<i32>)
    ensures
        r matches Some(v) ==> magnitude_of(t@) == Some(v as int),
        r is None ==> magnitude_of(t@) is None,
{
    if t.len() == 3 {
        match (digit(t[0]), digit(t[2])) {
            (Some(a), Some(c)) if t[1] == DOT => Some(a * 10 + c),
            _ => None,
        }
    } else if t.len() == 4 {
        match (digit(t[0]), digit(t[1]), digit(t[3])) {
            (Some(a), Some(b), Some(c)) if t[2] == DOT => Some(a * 100 + b * 10 + c),
            _ => None,
        }
    } else {
        None
    }
}

/// Decodes the temperature text of a record into tenths of a degree,
/// digit by digit.
pub fn parse_temperature(t: &[u8]) -> (r: Option<i32>)
    ensures
        r matches Some(v) ==> temperature_of(t@) == Some(v as int),
        r is None ==> temperature_of(t@) is None,
{
    if t.len() > 0 && t[0] == MINUS {
        let rest = &t[1..t.len()];
        assert(rest@ =~= t@.drop_first());
        match parse_magnitude(rest) {
            Some(m) => Some(-m),
            None => None,
        }
    } else {
        parse_magnitude(t)
    }
}

/// Splits one record (terminator excluded) into the station name, borrowed
/// from the record, and its temperature in tenths of a degree.
pub fn parse_record(record: &[u8]) -> (r: Option<(&[u8], i32)>)
    ensures
        r matches Some((name, v)) ==> record_of(record@) == Some((name@, v as int)),
        r is None ==> record_of(record@) is None,
{
    let mut k: usize = 0;
    while k < record.len() && record[k] != SEPARATOR
        invariant
            k <= record@.len(),
            forall|j: int| 0 <= j < k ==> record@[j] != SEPARATOR,
        decreases record.len() - k,
    {
        k += 1;
    }
    if k == record.len() {
        return None;
    }
    assert(first_separator(record@, k as int));
    let name = &record[0..k];
    let text = &record[k + 1..record.len()];
    match parse_temperature(text) {
        Some(v) => Some((name, v)),
        None => None,
    }
}

} // verus!
