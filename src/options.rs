use flate2::Compression;
use vstd::prelude::*;
use vstd::string::StringSliceAdditionalSpecFns;

use crate::pairer::bytes_equal;

verus! {

/// Relies on flate2's `Compression::fast`, level 1.
#[verifier::external_body]
fn fast_level() -> (r: u32)
    ensures
        r == 1,
{
    Compression::fast().level()
}

/// Relies on flate2's `Compression::default`, level 6.
#[verifier::external_body]
fn default_level() -> (r: u32)
    ensures
        r == 6,
{
    Compression::default().level()
}

/// Relies on flate2's `Compression::best`, level 9.
#[verifier::external_body]
fn best_level() -> (r: u32)
    ensures
        r == 9,
{
    Compression::best().level()
}

/// Why a compression specifier was refused.
#[derive(Debug, PartialEq, Eq, Structural)]
pub enum CompressionError {
    /// Neither a level name nor a number.
    InvalidSpecifier,
    /// A number above 9.
    LevelTooHigh,
}

/// `fast`, `default` and `best` as bytes.
pub open spec fn fast_word() -> Seq<u8> {
    seq![102u8, 97u8, 115u8, 116u8]
}

pub open spec fn default_word() -> Seq<u8> {
    seq![100u8, 101u8, 102u8, 97u8, 117u8, 108u8, 116u8]
}

pub open spec fn best_word() -> Seq<u8> {
    seq![98u8, 101u8, 115u8, 116u8]
}

pub open spec fn is_digit(b: u8) -> bool {
    48 <= b <= 57
}

/// The number that a string of decimal digits writes.
pub open spec fn decimal_value(digits: Seq<u8>) -> nat
    decreases digits.len(),
{
    if digits.len() == 0 {
        0
    } else {
        decimal_value(digits.drop_last()) * 10 + (digits.last() - 48) as nat
    }
}

/// The digits of a number written with an optional leading `+`.
pub open spec fn unsigned_digits(b: Seq<u8>) -> Seq<u8> {
    if b.len() > 0 && b[0] == 43 {
        b.drop_first()
    } else {
        b
    }
}

pub open spec fn is_unsigned_number(b: Seq<u8>) -> bool {
    let d = unsigned_digits(b);
    d.len() > 0 && forall|i: int| 0 <= i < d.len() ==> is_digit(#[trigger] d[i])
}

/// The gzip level that a compression specifier names.
pub open spec fn compression_level(b: Seq<u8>) -> Result<u32, CompressionError> {
    if b == fast_word() {
        Ok(1)
    } else if b == default_word() {
        Ok(6)
    } else if b == best_word() {
        Ok(9)
    } else if !is_unsigned_number(b) || decimal_value(unsigned_digits(b)) > u32::MAX {
        Err(CompressionError::InvalidSpecifier)
    } else if decimal_value(unsigned_digits(b)) > 9 {
        Err(CompressionError::LevelTooHigh)
    } else {
        Ok(decimal_value(unsigned_digits(b)) as u32)
    }
}

/// The gzip level named by a compression specifier: `fast`, `default`,
/// `best`, or a number from 0 to 9 (an unsigned 32-bit decimal, with an
/// optional `+`).
pub fn make_compression(txt: &str) -> (r: Result<u32, CompressionError>)
    ensures
        r == compression_level(txt.spec_bytes()),
{
    let b = txt.as_bytes();
    let fast: [u8; 4] = [102, 97, 115, 116];
    let default: [u8; 7] = [100, 101, 102, 97, 117, 108, 116];
    let best: [u8; 4] = [98, 101, 115, 116];
    proof {
        assert(fast@ =~= fast_word());
        assert(default@ =~= default_word());
        assert(best@ =~= best_word());
    }
    if bytes_equal(b, fast.as_slice()) {
        return Ok(fast_level());
    }
    if bytes_equal(b, default.as_slice()) {
        return Ok(default_level());
    }
    if bytes_equal(b, best.as_slice()) {
        return Ok(best_level());
    }
    let start: usize = if b.len() > 0 && b[0] == 43 { 1 } else { 0 };
    let ghost digits = unsigned_digits(b@);
    proof {
        assert(digits =~= b@.subrange(start as int, b@.len() as int));
    }
    if start >= b.len() {
        return Err(CompressionError::InvalidSpecifier);
    }
    let mut value: u64 = 0;
    let mut i: usize = start;
    while i < b.len()
        invariant
            start <= i <= b@.len(),
            digits == b@.subrange(start as int, b@.len() as int),
            digits == unsigned_digits(b@),
            b@ == txt.spec_bytes(),
            b@ != fast_word() && b@ != default_word() && b@ != best_word(),
            forall|k: int| start <= k < i ==> is_digit(#[trigger] b@[k]),
            value == decimal_value(b@.subrange(start as int, i as int)),
            value <= u32::MAX,
        decreases b@.len() - i,
    {
        assert(b@.subrange(start as int, i + 1).drop_last() =~= b@.subrange(start as int, i as int));
        if !(48 <= b[i] && b[i] <= 57) {
            proof {
                assert(digits[i - start] == b@[i as int]);
                assert(!is_digit(digits[i - start]));
            }
            return Err(CompressionError::InvalidSpecifier);
        }
        value = value * 10 + (b[i] - 48) as u64;
        i = i + 1;
        if value > 4294967295 {
            proof {
                if is_unsigned_number(b@) {
                    assert(b@.subrange(start as int, i as int) =~= digits.subrange(0, i - start));
                    lemma_decimal_prefix_le(digits, i - start);
                }
            }
            return Err(CompressionError::InvalidSpecifier);
        }
    }
    proof {
        assert(b@.subrange(start as int, i as int) =~= digits);
        assert forall|k: int| 0 <= k < digits.len() implies is_digit(#[trigger] digits[k]) by {
            assert(digits[k] == b@[start + k]);
        }
    }
    if value > 9 {
        Err(CompressionError::LevelTooHigh)
    } else {
        Ok(value as u32)
    }
}

/// A number does not get smaller when digits are written after it.
proof fn lemma_decimal_prefix_le(digits: Seq<u8>, n: int)
    requires
        0 <= n <= digits.len(),
        forall|k: int| 0 <= k < digits.len() ==> is_digit(#[trigger] digits[k]),
    ensures
        decimal_value(digits.subrange(0, n)) <= decimal_value(digits),
    decreases digits.len() - n,
{
    if n < digits.len() {
        let longer = digits.subrange(0, n + 1);
        assert(longer.drop_last() =~= digits.subrange(0, n));
        lemma_decimal_prefix_le(digits, n + 1);
    } else {
        assert(digits.subrange(0, n) =~= digits);
    }
}

} // verus!
