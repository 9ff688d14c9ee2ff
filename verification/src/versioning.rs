//! Whether persisted data may be opened: data in a newer format than the
//! program reads is refused. Also the text form of the version record.

use vstd::prelude::*;
use crate::error::{Damaged, Error};

verus! {

/// The data-format versions that the program can open.
#[derive(Debug, Clone, Copy, PartialEq, Eq, Structural)]
pub struct VersionRange {
    /// Oldest format that is still upgraded on load.
    pub oldest: u32,
    /// Newest format that the program understands.
    pub newest: u32,
}

/// Whether data of version `current` may be opened by a program that
/// supports `supported`. Only data newer than the program is refused:
/// older data is upgraded when it is loaded.
pub open spec fn admitted(current: u32, supported: VersionRange) -> bool {
    current <= supported.newest
}

/// Decides whether startup may proceed.
pub fn check(current_data_version: u32, app_supported_range: &VersionRange) -> (result: Result<
    (),
    Error,
>)
    ensures
        admitted(current_data_version, *app_supported_range) ==> result == Ok::<(), Error>(()),
        !admitted(current_data_version, *app_supported_range) ==> result == Err::<(), Error>(
            Error::OutdatedVersion {
                found: current_data_version,
                newest_supported: app_supported_range.newest,
            },
        ),
{
    if current_data_version > app_supported_range.newest {
        Err(
            Error::OutdatedVersion {
                found: current_data_version,
                newest_supported: app_supported_range.newest,
            },
        )
    } else {
        Ok(())
    }
}

/// Whether a byte is an ASCII decimal digit.
pub open spec fn is_digit(b: u8) -> bool {
    0x30 <= b <= 0x39
}

/// The number that a string of decimal digits denotes; 0 for the empty string.
pub open spec fn decimal_value(digits: Seq<u8>) -> nat
    decreases digits.len(),
{
    if digits.len() == 0 {
        0
    } else {
        (decimal_value(digits.drop_last()) * 10 + (digits.last() - 0x30)) as nat
    }
}

/// The decimal digits of `n`, without leading zeros.
pub open spec fn decimal_digits(n: nat) -> Seq<u8>
    decreases n,
{
    if n < 10 {
        seq![(0x30 + n) as u8]
    } else {
        decimal_digits(n / 10).push((0x30 + n % 10) as u8)
    }
}

/// The version that a record holds: the record is one or more decimal
/// digits and nothing else, and their value fits 32 bits.
pub open spec fn record_version(bytes: Seq<u8>) -> Option<u32> {
    if bytes.len() > 0 && (forall|i: int| 0 <= i < bytes.len() ==> is_digit(#[trigger] bytes[i]))
        && decimal_value(bytes) <= u32::MAX {
        Some(decimal_value(bytes) as u32)
    } else {
        None
    }
}

/// A longer digit string denotes at least as much as any of its prefixes.
proof fn lemma_prefix_value(digits: Seq<u8>, k: int)
    requires
        0 <= k <= digits.len(),
        forall|i: int| 0 <= i < digits.len() ==> is_digit(#[trigger] digits[i]),
    ensures
        decimal_value(digits.take(k)) <= decimal_value(digits),
    decreases digits.len() - k,
{
    if k == digits.len() {
        assert(digits.take(k) =~= digits);
    } else {
        lemma_prefix_value(digits, k + 1);
        assert(digits.take(k + 1).drop_last() =~= digits.take(k));
        assert(is_digit(digits[k]));
    }
}

/// Reads the version out of a version record.
pub fn parse_version_record(bytes: &[u8]) -> (result: Result<u32, Error>)
    ensures
        match record_version(bytes@) {
            Some(v) => result == Ok::<u32, Error>(v),
            None => result == Err::<u32, Error>(Error::Corrupt(Damaged::VersionRecord)),
        },
{
    if bytes.len() == 0 {
        return Err(Error::Corrupt(Damaged::VersionRecord));
    }
    let mut value: u64 = 0;
    let mut i: usize = 0;
    while i < bytes.len()
        invariant
            i <= bytes.len(),
            bytes.len() > 0,
            value == decimal_value(bytes@.take(i as int)),
            value <= u32::MAX,
            forall|j: int| 0 <= j < i ==> is_digit(#[trigger] bytes@[j]),
        decreases bytes.len() - i,
    {
        let b: u8 = bytes[i];
        if b < 0x30 || b > 0x39 {
            assert(!is_digit(bytes@[i as int]));
            return Err(Error::Corrupt(Damaged::VersionRecord));
        }
        assert(bytes@.take(i + 1).drop_last() =~= bytes@.take(i as int));
        let next: u64 = value * 10 + (b - 0x30) as u64;
        if next > u32::MAX as u64 {
            proof {
                if forall|j: int| 0 <= j < bytes.len() ==> is_digit(#[trigger] bytes@[j]) {
                    lemma_prefix_value(bytes@, i + 1);
                }
            }
            return Err(Error::Corrupt(Damaged::VersionRecord));
        }
        value = next;
        i += 1;
    }
    assert(bytes@.take(i as int) =~= bytes@);
    Ok(value as u32)
}

/// The digits of a number are digits, and denote it.
pub proof fn lemma_digits_denote(n: nat)
    ensures
        decimal_digits(n).len() > 0,
        forall|i: int| 0 <= i < decimal_digits(n).len() ==> is_digit(#[trigger] decimal_digits(n)[i]),
        decimal_value(decimal_digits(n)) == n,
    decreases n,
{
    if n < 10 {
        let s = decimal_digits(n);
        assert(s.drop_last() =~= Seq::<u8>::empty());
        assert(decimal_value(s.drop_last()) == 0);
    } else {
        lemma_digits_denote(n / 10);
        let s = decimal_digits(n);
        assert(s.drop_last() =~= decimal_digits(n / 10));
    }
}

fn push_digits(out: &mut Vec<u8>, n: u32)
    ensures
        final(out)@ == old(out)@ + decimal_digits(n as nat),
    decreases n,
{
    if n >= 10 {
        push_digits(out, n / 10);
    }
    out.push(0x30 + (n % 10) as u8);
    assert(final(out)@ =~= old(out)@ + decimal_digits(n as nat)) by {
        if n < 10 {
            assert(decimal_digits(n as nat) =~= seq![(0x30 + n) as u8]);
        }
    }
}

/// Writes a version as a version record.
pub fn render_version_record(version: u32) -> (bytes: Vec<u8>)
    ensures
        bytes@ == decimal_digits(version as nat),
        record_version(bytes@) == Some(version),
{
    let mut out: Vec<u8> = Vec::new();
    push_digits(&mut out, version);
    proof {
        lemma_digits_denote(version as nat);
        assert(out@ =~= decimal_digits(version as nat));
    }
    out
}

} // verus!
