//! Angle tables: a 256-entry sine lookup over a 256-unit angle circle,
//! with values approximating `127 * sin(2*pi*i/256)` stored as signed
//! 8-bit integers, and a cosine lookup defined as the sine table phase
//! shifted by 65 units (a quarter turn, rounded up to an integer step).
//!
//! Every lookup reduces its index modulo 256 first, so any integer angle
//! (negative ones included) selects a table entry.

use vstd::prelude::*;
use vstd::arithmetic::div_mod::lemma_add_mod_noop;
use vstd::arithmetic::div_mod::lemma_mod_twice;
use vstd::arithmetic::div_mod::lemma_mod_division_less_than_divisor;

verus! {

/// The sine table: entry `i` approximates `127 * sin(2*pi*i/256)`.
pub const SIN_TABLE: [i8; 256] = [
    0, 3, 6, 9, 12, 16, 19, 22, 25, 28, 31, 34, 37, 40, 43, 46, 49, 51, 54, 57, 60, 63, 65, 68,
    71, 73, 76, 78, 81, 83, 85, 88, 90, 92, 94, 96, 98, 100, 102, 104, 106, 107, 109, 111, 112,
    113, 115, 116, 117, 118, 120, 121, 122, 122, 123, 124, 125, 125, 126, 126, 126, 127, 127,
    127, 127, 127, 127, 127, 126, 126, 126, 125, 125, 124, 123, 122, 122, 121, 120, 118, 117,
    116, 115, 113, 112, 111, 109, 107, 106, 104, 102, 100, 98, 96, 94, 92, 90, 88, 85, 83, 81,
    78, 76, 73, 71, 68, 65, 63, 60, 57, 54, 51, 49, 46, 43, 40, 37, 34, 31, 28, 25, 22, 19, 16,
    12, 9, 6, 3, 0, -3, -6, -9, -12, -16, -19, -22, -25, -28, -31, -34, -37, -40, -43, -46, -49,
    -51, -54, -57, -60, -63, -65, -68, -71, -73, -76, -78, -81, -83, -85, -88, -90, -92, -94,
    -96, -98, -100, -102, -104, -106, -107, -109, -111, -112, -113, -115, -116, -117, -118, -120,
    -121, -122, -122, -123, -124, -125, -125, -126, -126, -126, -127, -127, -127, -127, -127,
    -127, -127, -126, -126, -126, -125, -125, -124, -123, -122, -122, -121, -120, -118, -117,
    -116, -115, -113, -112, -111, -109, -107, -106, -104, -102, -100, -98, -96, -94, -92, -90,
    -88, -85, -83, -81, -78, -76, -73, -71, -68, -65, -63, -60, -57, -54, -51, -49, -46, -43,
    -40, -37, -34, -31, -28, -25, -22, -19, -16, -12, -9, -6, -3,
];

/// Sine of an angle given in 256ths of a turn: the table entry at the
/// index reduced modulo 256 (two's-complement wraparound of the index).
pub open spec fn sin_at_spec(i: int) -> int {
    SIN_TABLE[i % 256] as int
}

/// Cosine of an angle given in 256ths of a turn: the sine table shifted
/// by 65 units.
pub open spec fn cos_at_spec(i: int) -> int {
    sin_at_spec(i + 65)
}

/// Table values fit a signed byte by construction.
pub proof fn lemma_sin_range(i: int)
    ensures
        -127 <= sin_at_spec(i) <= 127,
{
    lemma_mod_division_less_than_divisor(i, 256);
}

/// The cosine table is exactly the sine table phase shifted by 65 units,
/// with the shifted index wrapped back into the table: for every `i` in
/// `[0, 256)`, `cos[i] == sin[(i + 65) % 256]`.
pub proof fn lemma_cos_is_shifted_sin(i: int)
    requires
        0 <= i < 256,
    ensures
        cos_at_spec(i) == sin_at_spec((i + 65) % 256),
{
    lemma_mod_twice(i + 65, 256);
}

/// Sine lookup with index wraparound: `sin[i & 255]`.
pub fn sin_at(i: i32) -> (r: i8)
    ensures
        r as int == sin_at_spec(i as int),
{
    let idx: i32 = i.checked_rem_euclid(256).unwrap();
    SIN_TABLE[idx as usize]
}

/// Cosine lookup with index wraparound: `sin[(i + 65) & 255]`.
pub fn cos_at(i: i32) -> (r: i8)
    ensures
        r as int == cos_at_spec(i as int),
{
    let idx: i32 = i.checked_rem_euclid(256).unwrap();
    proof {
        lemma_mod_division_less_than_divisor(i as int, 256);
        lemma_add_mod_noop(i as int, 65, 256);
        lemma_mod_twice(i as int, 256);
        assert((idx + 65) % 256 == (i + 65) % 256) by {
            lemma_add_mod_noop(idx as int, 65, 256);
        }
    }
    sin_at(idx + 65)
}

} // verus!
