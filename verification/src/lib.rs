//! A small native numeric library: wrapping 32-bit addition, a fixed
//! architecture label with a greeting built around it, and enumeration of
//! the perfect numbers up to a bound. The foreign-boundary glue that hands
//! these results to a host runtime lives outside the library and passes
//! plain values in and out.
use vstd::prelude::*;

verus! {

/// The sum of `a` and `b` under two's-complement 32-bit wrap-around:
/// out-of-range sums are brought back into `[i32::MIN, i32::MAX]` by
/// adding or subtracting 2^32.
pub open spec fn wrapped_sum(a: int, b: int) -> int {
    if a + b > i32::MAX {
        a + b - 0x1_0000_0000
    } else if a + b < i32::MIN {
        a + b + 0x1_0000_0000
    } else {
        a + b
    }
}

/// Adds two signed 32-bit integers, wrapping on overflow.
pub fn add(left: i32, right: i32) -> (r: i32)
    ensures
        r as int == wrapped_sum(left as int, right as int),
{
    left.wrapping_add(right)
}

/// Wrapping addition is commutative.
pub proof fn lemma_add_commutative(a: int, b: int)
    ensures
        wrapped_sum(a, b) == wrapped_sum(b, a),
{
}

/// Zero is an identity for wrapping addition of representable values.
pub proof fn lemma_add_identity(a: int)
    requires
        i32::MIN <= a <= i32::MAX,
    ensures
        wrapped_sum(a, 0) == a,
{
}

} // verus!

pub mod arch;
pub mod perfect;

pub use arch::Arch;
pub use arch::get_arch_name;
pub use arch::print_hello;
pub use perfect::is_perfect;
pub use perfect::perfect_numbers;
