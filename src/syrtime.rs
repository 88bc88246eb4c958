use vstd::prelude::*;
use crate::text::{padded, push_padded, string_from_chars};

verus! {

/// `h:mm:ss`-style text: hours, minutes and seconds, each at least two digits.
pub open spec fn clock_text(h: nat, m: nat, s: nat) -> Seq<char> {
    padded(h, 2) + seq![':'] + padded(m, 2) + seq![':'] + padded(s, 2)
}

/// `clock_text` followed by a dot and milliseconds on at least three digits.
pub open spec fn clock_ms_text(h: nat, m: nat, s: nat, ms: nat) -> Seq<char> {
    clock_text(h, m, s) + seq!['.'] + padded(ms, 3)
}

fn clock_chars(h: u128, m: u128, s: u128) -> (v: Vec<char>)
    ensures
        v@ == clock_text(h as nat, m as nat, s as nat),
{
    let mut v: Vec<char> = Vec::new();
    push_padded(&mut v, h, 2);
    v.push(':');
    push_padded(&mut v, m, 2);
    v.push(':');
    push_padded(&mut v, s, 2);
    assert(v@ =~= clock_text(h as nat, m as nat, s as nat));
    v
}

/// Writes a duration in nanoseconds as hours, minutes, seconds and
/// milliseconds: `"01:02:03.004"`.
pub fn ns_to_pretty_string(nanoseconds: u128) -> (r: String)
    ensures
        r@ == clock_ms_text(
            nanoseconds as nat / 3_600_000_000_000,
            nanoseconds as nat % 3_600_000_000_000 / 60_000_000_000,
            nanoseconds as nat % 60_000_000_000 / 1_000_000_000,
            nanoseconds as nat % 1_000_000_000 / 1_000_000,
        ),
{
    let hours = nanoseconds / 3_600_000_000_000;
    let rest = nanoseconds % 3_600_000_000_000;
    let minutes = rest / 60_000_000_000;
    let rest = rest % 60_000_000_000;
    let seconds = rest / 1_000_000_000;
    let rest = rest % 1_000_000_000;
    let milliseconds = rest / 1_000_000;
    assert(nanoseconds % 3_600_000_000_000 % 60_000_000_000 == nanoseconds % 60_000_000_000) by {
        vstd::arithmetic::div_mod::lemma_mod_mod(nanoseconds as int, 60_000_000_000, 60);
    }
    assert(nanoseconds % 60_000_000_000 % 1_000_000_000 == nanoseconds % 1_000_000_000) by {
        vstd::arithmetic::div_mod::lemma_mod_mod(nanoseconds as int, 1_000_000_000, 60);
    }
    let mut v = clock_chars(hours, minutes, seconds);
    v.push('.');
    push_padded(&mut v, milliseconds, 3);
    string_from_chars(v)
}

/// Writes a duration as a clock. The duration is counted in whole milliseconds.
pub trait TimeFormatting: Sized {
    /// The duration, in milliseconds.
    spec fn millis(&self) -> nat;

    /// Hours, minutes and seconds: `"01:02:03"`.
    fn s_str(self) -> (r: String)
        ensures
            r@ == clock_text(
                self.millis() / 1000 / 3_600,
                self.millis() / 1000 % 3_600 / 60,
                self.millis() / 1000 % 60,
            ),
    ;

    /// Hours, minutes, seconds and milliseconds: `"01:02:03.004"`.
    fn ms_str(self) -> (r: String)
        ensures
            r@ == clock_ms_text(
                self.millis() / 3_600_000,
                self.millis() % 3_600_000 / 60_000,
                self.millis() % 60_000 / 1000,
                self.millis() % 1000,
            ),
    ;
}

impl TimeFormatting for u64 {
    open spec fn millis(&self) -> nat {
        *self as nat
    }

    fn s_str(self) -> (r: String) {
        let total_s = self / 1000;
        let v = clock_chars((total_s / 3_600) as u128, (total_s % 3_600 / 60) as u128, (total_s % 60) as u128);
        string_from_chars(v)
    }

    fn ms_str(self) -> (r: String) {
        let mut v = clock_chars(
            (self / 3_600_000) as u128,
            (self % 3_600_000 / 60_000) as u128,
            (self % 60_000 / 1000) as u128,
        );
        v.push('.');
        push_padded(&mut v, (self % 1000) as u128, 3);
        string_from_chars(v)
    }
}


/// A day of the week.
#[derive(Clone, Copy, Debug, PartialEq, Eq, Structural)]
pub enum Weekday {
    Monday,
    Tuesday,
    Wednesday,
    Thursday,
    Friday,
    Saturday,
    Sunday,
}

/// Writes a day of the week out in full.
pub trait WeekdayFormatting {
    /// The full English name.
    spec fn full_name(&self) -> Seq<char>;

    /// The full English name, as a `String`.
    fn to_string(&self) -> (r: String)
        ensures
            r@ == self.full_name(),
    ;
}

impl WeekdayFormatting for Weekday {
    open spec fn full_name(&self) -> Seq<char> {
        match self {
            Weekday::Monday => "Monday"@,
            Weekday::Tuesday => "Tuesday"@,
            Weekday::Wednesday => "Wednesday"@,
            Weekday::Thursday => "Thursday"@,
            Weekday::Friday => "Friday"@,
            Weekday::Saturday => "Saturday"@,
            Weekday::Sunday => "Sunday"@,
        }
    }

    fn to_string(&self) -> (r: String) {
        match self {
            Weekday::Monday => "Monday",
            Weekday::Tuesday => "Tuesday",
            Weekday::Wednesday => "Wednesday",
            Weekday::Thursday => "Thursday",
            Weekday::Friday => "Friday",
            Weekday::Saturday => "Saturday",
            Weekday::Sunday => "Sunday",
        }.to_owned()
    }
}

} // verus!
