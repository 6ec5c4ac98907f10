//! Helpers shared by the tools around the file system: quote stripping and
//! the unit rules of size and time conversions.
use vstd::prelude::*;
use vstd::string::StrSliceExecFns;
use crate::ops::str_eq;

verus! {

/// `s` without its first and last characters, as when stripping the quotes
/// around a quoted value. The last character must be a single byte.
pub fn strip(s: String) -> (t: String)
    requires
        s@.len() >= 2,
        (s@.last() as u32) < 128,
    ensures
        t@ == s@.subrange(1, s@.len() - 1),
{
    let n = s.as_str().unicode_len();
    let inner = s.as_str().substring_char(1, n - 1);
    inner.to_owned()
}

/// Why a size conversion cannot be made.
#[derive(PartialEq, Eq, Structural, Debug, Clone, Copy)]
pub enum ConvertError {
    /// A unit is the empty string.
    EmptyUnit,
    /// The pair of units is not one of the supported conversions.
    Unsupported,
}

/// The power of 1024 that a size unit stands for: bytes `B`, kilobytes
/// `KB`, megabytes `MB`, gigabytes `G`.
pub open spec fn unit_power(unit: Seq<char>) -> Option<int> {
    if unit == "B"@ {
        Some(0)
    } else if unit == "KB"@ {
        Some(1)
    } else if unit == "MB"@ {
        Some(2)
    } else if unit == "G"@ {
        Some(3)
    } else {
        None
    }
}

/// The power of 1024 that a size unit stands for.
fn power_of(unit: &str) -> (p: Option<i32>)
    ensures
        p matches Some(v) ==> unit_power(unit@) == Some(v as int),
        p is None ==> unit_power(unit@) is None,
{
    if str_eq(unit, "B") {
        Some(0)
    } else if str_eq(unit, "KB") {
        Some(1)
    } else if str_eq(unit, "MB") {
        Some(2)
    } else if str_eq(unit, "G") {
        Some(3)
    } else {
        None
    }
}

/// The exponent `k` such that a size in `unit1` is `1024^k` times as large
/// in `unit2`. Both units must be among `B`, `KB`, `MB`, `G` and differ;
/// an empty unit is reported first.
pub fn convert_exponent(unit1: &str, unit2: &str) -> (r: Result<i32, ConvertError>)
    ensures
        (unit1@.len() == 0 || unit2@.len() == 0) ==> r == Err::<i32, ConvertError>(ConvertError::EmptyUnit),
        (unit1@.len() > 0 && unit2@.len() > 0) ==> match (unit_power(unit1@), unit_power(unit2@)) {
            (Some(p1), Some(p2)) => if p1 != p2 {
                r matches Ok(k) && k == p1 - p2
            } else {
                r == Err::<i32, ConvertError>(ConvertError::Unsupported)
            },
            _ => r == Err::<i32, ConvertError>(ConvertError::Unsupported),
        },
{
    if unit1.unicode_len() == 0 || unit2.unicode_len() == 0 {
        return Err(ConvertError::EmptyUnit);
    }
    match (power_of(unit1), power_of(unit2)) {
        (Some(p1), Some(p2)) => {
            if p1 != p2 {
                Ok(p1 - p2)
            } else {
                Err(ConvertError::Unsupported)
            }
        },
        _ => Err(ConvertError::Unsupported),
    }
}

/// The number of time units per second for `s`, `ms`, `us` and `ns`; none
/// for any other unit.
pub fn time_scale(unit: &str) -> (scale: Option<u64>)
    ensures
        scale == if unit@ == "s"@ {
            Some(1u64)
        } else if unit@ == "ms"@ {
            Some(1_000u64)
        } else if unit@ == "us"@ {
            Some(1_000_000u64)
        } else if unit@ == "ns"@ {
            Some(1_000_000_000u64)
        } else {
            None
        },
{
    if str_eq(unit, "s") {
        Some(1)
    } else if str_eq(unit, "ms") {
        Some(1_000)
    } else if str_eq(unit, "us") {
        Some(1_000_000)
    } else if str_eq(unit, "ns") {
        Some(1_000_000_000)
    } else {
        None
    }
}


/// Whether `c` is an ASCII letter or decimal digit.
pub open spec fn ascii_alphanumeric(c: char) -> bool {
    ('0' <= c && c <= '9') || ('a' <= c && c <= 'z') || ('A' <= c && c <= 'Z')
}

/// Draws `size` characters from `rand`'s `Alphanumeric` distribution with
/// the thread-local generator, through `DistString::sample_string`.
/// Trusted: the string has `size` characters, each an ASCII letter or digit;
/// which ones is chance and left unsaid. `thread_rng` panics where the
/// operating system cannot seed it, which nothing here rules out.
#[verifier::external_body]
fn alphanumeric_string(size: usize) -> (s: String)
    ensures
        s@.len() == size,
        forall|i: int| 0 <= i < size ==> ascii_alphanumeric(#[trigger] s@[i]),
{
    rand::distributions::DistString::sample_string(
        &rand::distributions::Alphanumeric,
        &mut rand::thread_rng(),
        size,
    )
}

/// The content of a test file of `size` bytes: `size` random ASCII letters
/// and digits, one byte each.
pub fn random_content(size: usize) -> (s: String)
    ensures
        s@.len() == size,
        forall|i: int| 0 <= i < size ==> ascii_alphanumeric(#[trigger] s@[i]),
{
    alphanumeric_string(size)
}

} // verus!
