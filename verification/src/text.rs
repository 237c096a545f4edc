//! Decimal rendering of numbers and the text forms built from it.

use vstd::prelude::*;

verus! {

/// The decimal digit character for `d` (0 to 9).
pub open spec fn digit_char(d: nat) -> char {
    ((48 + d) as u8) as char
}

/// The decimal representation of `n`, without leading zeros.
pub open spec fn decimal(n: nat) -> Seq<char>
    decreases n,
{
    if n < 10 {
        seq![digit_char(n)]
    } else {
        decimal(n / 10).push(digit_char(n % 10))
    }
}

/// The decimal representation of `n`, padded with leading zeros to at least
/// `width` characters.
pub open spec fn padded(n: nat, width: nat) -> Seq<char> {
    let d = decimal(n);
    if d.len() >= width {
        d
    } else {
        Seq::new((width - d.len()) as nat, |i: int| '0') + d
    }
}

/// An ISO 8601 style timestamp `YYYY-MM-DDTHH:MM:SSZ` of the given fields.
pub open spec fn timestamp_text(y: nat, mo: nat, d: nat, h: nat, mi: nat, s: nat) -> Seq<char> {
    padded(y, 4) + seq!['-'] + padded(mo, 2) + seq!['-'] + padded(d, 2) + seq!['T'] + padded(h, 2) + seq![':']
        + padded(mi, 2) + seq![':'] + padded(s, 2) + seq!['Z']
}

/// The fields rendered by `std::format!` as `{:04}-{:02}-{:02}T{:02}:{:02}:{:02}Z`:
/// each number in decimal, zero-padded to the given width.
#[verifier::external_body]
fn render_timestamp(y: u64, mo: u64, d: u64, h: u64, mi: u64, s: u64) -> (r: String)
    ensures
        r@ == timestamp_text(y as nat, mo as nat, d as nat, h as nat, mi as nat, s as nat),
{
    format!("{:04}-{:02}-{:02}T{:02}:{:02}:{:02}Z", y, mo, d, h, mi, s)
}

/// `n` rendered by `std::format!` as `{}`: its decimal digits.
#[verifier::external_body]
pub(crate) fn decimal_text(n: u32) -> (r: String)
    ensures
        r@ == decimal(n as nat),
{
    format!("{}", n)
}

/// The creation timestamp for `secs` seconds since the Unix epoch, on a
/// simple calendar of 365-day years and 30-day months.
pub open spec fn timestamp_of(secs: nat) -> Seq<char> {
    let days = secs / 86400;
    timestamp_text(
        1970 + days / 365,
        (days % 365) / 30 + 1,
        (days % 365) % 30 + 1,
        (secs % 86400) / 3600,
        (secs % 3600) / 60,
        secs % 60,
    )
}

/// The creation timestamp for `secs` seconds since the Unix epoch, on a
/// simple calendar of 365-day years and 30-day months (not accounting for
/// leap years).
pub fn format_timestamp(secs: u64) -> (r: String)
    ensures
        r@ == timestamp_of(secs as nat),
{
    let days = secs / 86400;
    let years = 1970 + days / 365;
    let remaining_days = days % 365;
    let month = remaining_days / 30 + 1;
    let day = remaining_days % 30 + 1;
    let hours = (secs % 86400) / 3600;
    let minutes = (secs % 3600) / 60;
    let seconds = secs % 60;
    render_timestamp(years, month, day, hours, minutes, seconds)
}

} // verus!
