//! Validity periods given in days on the command line (`30`, `30d`, ` 30 d `).
use vstd::prelude::*;

use crate::number::{decimal, lemma_decimal_digits, lemma_parse_decimal, parse_u64, parse_unsigned, NumberError};
use crate::text::{chars_of, lemma_trimmed_unchanged, substring, trim, trim_end, trim_start, trimmed};

verus! {

/// Seconds in a day.
pub const SECONDS_PER_DAY: u64 = 86400;

/// Why a validity period was refused.
#[derive(Debug, Clone, Copy, PartialEq, Eq, Structural)]
pub enum DaysError {
    /// The number of days is not an unsigned integer.
    Number(NumberError),
    /// The number of days is valid, but in seconds it does not fit in a `u64`.
    TooLarge,
}

/// The text that holds the number: trimmed, then a trailing `d` and the
/// whitespace before it removed.
pub open spec fn days_text(s: Seq<char>) -> Seq<char> {
    let t = trimmed(s);
    if t.len() > 0 && t.last() == 'd' {
        trimmed(t.drop_last())
    } else {
        t
    }
}

/// The period in seconds that a text denotes, or why it denotes none.
pub open spec fn period_seconds(s: Seq<char>) -> Result<nat, DaysError> {
    match parse_unsigned(days_text(s), u64::MAX as nat) {
        Ok(days) => if days * 86400 <= u64::MAX {
            Ok(days * 86400)
        } else {
            Err(DaysError::TooLarge)
        },
        Err(e) => Err(DaysError::Number(e)),
    }
}

/// A number of days, optionally followed by `d`, as a number of seconds.
pub fn parse_days(s: &str) -> (r: Result<u64, DaysError>)
    ensures
        match r {
            Ok(secs) => period_seconds(s@) == Ok::<nat, DaysError>(secs as nat),
            Err(e) => period_seconds(s@) == Err::<nat, DaysError>(e),
        },
{
    let t = trim(s);
    let v = chars_of(t.as_str());
    let n = v.len();
    let number = if n > 0 && v[n - 1] == 'd' {
        let head = substring(t.as_str(), 0, n - 1);
        assert(head@ == t@.drop_last());
        trim(head.as_str())
    } else {
        t
    };
    assert(number@ == days_text(s@));
    match parse_u64(number.as_str()) {
        Ok(days) => match days.checked_mul(SECONDS_PER_DAY) {
            Some(secs) => Ok(secs),
            None => Err(DaysError::TooLarge),
        },
        Err(e) => Err(DaysError::Number(e)),
    }
}

/// A period written as its number of days, with or without the `d` suffix
/// and with surrounding spaces, reads back as that many days in seconds;
/// a number of days too large for seconds in a `u64` is refused as such.
pub proof fn lemma_days_round_trip(days: u64)
    ensures
        days * 86400 <= u64::MAX ==> period_seconds(decimal(days as nat)) == Ok::<nat, DaysError>(
            (days * 86400) as nat,
        ),
        days * 86400 <= u64::MAX ==> period_seconds(decimal(days as nat).push('d'))
            == Ok::<nat, DaysError>((days * 86400) as nat),
        days * 86400 <= u64::MAX ==> period_seconds(
            seq![' '] + decimal(days as nat).push(' ').push('d') + seq![' '],
        ) == Ok::<nat, DaysError>((days * 86400) as nat),
        days * 86400 > u64::MAX ==> period_seconds(decimal(days as nat)) == Err::<nat, DaysError>(
            DaysError::TooLarge,
        ),
{
    let d = decimal(days as nat);
    lemma_decimal_digits(days as nat);
    lemma_parse_decimal(days as nat, u64::MAX as nat);
    assert(crate::number::is_digit(d[0]));
    assert(crate::number::is_digit(d[d.len() - 1]));
    lemma_trimmed_unchanged(d);
    assert(days_text(d) == d);
    let ds = d.push('d');
    assert(ds[0] == d[0]);
    lemma_trimmed_unchanged(ds);
    assert(ds.drop_last() =~= d);
    assert(days_text(ds) == d);
    let padded = seq![' '] + d.push(' ').push('d') + seq![' '];
    assert(padded.drop_first() =~= d.push(' ').push('d') + seq![' ']);
    assert(trim_start(padded) == trim_start(padded.drop_first()));
    assert((d.push(' ').push('d') + seq![' '])[0] == d[0]);
    assert(trim_start(padded) == d.push(' ').push('d') + seq![' ']);
    let q = d.push(' ').push('d') + seq![' '];
    assert(q.drop_last() =~= d.push(' ').push('d'));
    assert(trim_end(q) == trim_end(d.push(' ').push('d')));
    assert(trim_end(d.push(' ').push('d')) == d.push(' ').push('d'));
    assert(trimmed(padded) == d.push(' ').push('d'));
    assert(d.push(' ').push('d').drop_last() =~= d.push(' '));
    assert(d.push(' ')[0] == d[0]);
    assert(trim_start(d.push(' ')) == d.push(' '));
    assert(d.push(' ').drop_last() =~= d);
    assert(trim_end(d.push(' ')) == trim_end(d));
    assert(trim_end(d) == d);
    assert(days_text(padded) == d);
}

} // verus!
