//! Order keys: single-precision numbers are compared by integers that order as they do.
use vstd::prelude::*;

verus! {

/// A number's bits without the sign.
pub open spec fn magnitude(bits: u32) -> int {
    if bits >= 0x8000_0000 { bits - 0x8000_0000 } else { bits as int }
}

/// Whether the bits stand for no number.
pub open spec fn is_nan(bits: u32) -> bool {
    magnitude(bits) > 0x7f80_0000
}

/// The key of a number given by its bits: sign and magnitude as one integer, so that both zeros have
/// the same key, and of two numbers the smaller has the smaller key.
pub open spec fn key_of_bits(bits: u32) -> int {
    if bits >= 0x8000_0000 { -magnitude(bits) } else { magnitude(bits) }
}

/// The key of minus infinity, below which no number lies.
pub const LEAST: i64 = -0x7f80_0000;

/// The order key of a number; none where the bits stand for no number.
pub fn order_key(bits: u32) -> (k: Option<i64>)
    ensures
        if is_nan(bits) {
            k is None
        } else {
            k matches Some(v) && v == key_of_bits(bits) && LEAST <= v <= -LEAST
        },
{
    let negative: bool = bits >= 0x8000_0000;
    let m: i64 = if negative { (bits - 0x8000_0000) as i64 } else { bits as i64 };
    if m > 0x7f80_0000 {
        None
    } else if negative {
        Some(-m)
    } else {
        Some(m)
    }
}

/// Keys tell numbers apart: two numbers of the same key have the same bits, or both are zero.
pub proof fn law_keys_tell_numbers_apart(a: u32, b: u32)
    requires
        key_of_bits(a) == key_of_bits(b),
    ensures
        a == b || (magnitude(a) == 0 && magnitude(b) == 0),
{
}

} // verus!
