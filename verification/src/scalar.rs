//! The scalar domain of every matrix in this crate: 64-bit machine words
//! combined with wrapping addition and multiplication, that is arithmetic in
//! the ring of integers modulo 2^64. The accelerator mirror narrows a word to
//! 32 bits, which is reduction modulo 2^32.
use vstd::prelude::*;

verus! {

/// Reduction of an integer into `0 .. 2^64`, the value a 64-bit word keeps.
pub open spec fn wrap(x: int) -> int {
    x % 0x1_0000_0000_0000_0000
}

/// Reduction of an integer into `0 .. 2^32`, the value a 32-bit word keeps.
pub open spec fn wrap32(x: int) -> int {
    x % 0x1_0000_0000
}

pub proof fn lemma_wrap_range(x: int)
    ensures
        0 <= wrap(x) < 0x1_0000_0000_0000_0000,
{
    vstd::arithmetic::div_mod::lemma_mod_division_less_than_divisor(x, 0x1_0000_0000_0000_0000);
}

/// A word already in range wraps to itself.
pub proof fn lemma_wrap_small(x: int)
    requires
        0 <= x < 0x1_0000_0000_0000_0000,
    ensures
        wrap(x) == x,
{
    vstd::arithmetic::div_mod::lemma_small_mod(x as nat, 0x1_0000_0000_0000_0000);
}

/// Wrapping a summand first does not change a wrapped sum.
pub proof fn lemma_wrap_add_noop(a: int, b: int)
    ensures
        wrap(wrap(a) + b) == wrap(a + b),
        wrap(a + wrap(b)) == wrap(a + b),
{
    vstd::arithmetic::div_mod::lemma_add_mod_noop(a, b, 0x1_0000_0000_0000_0000);
    vstd::arithmetic::div_mod::lemma_add_mod_noop(wrap(a), b, 0x1_0000_0000_0000_0000);
    vstd::arithmetic::div_mod::lemma_add_mod_noop(a, wrap(b), 0x1_0000_0000_0000_0000);
    vstd::arithmetic::div_mod::lemma_mod_twice(a, 0x1_0000_0000_0000_0000);
    vstd::arithmetic::div_mod::lemma_mod_twice(b, 0x1_0000_0000_0000_0000);
}

/// Wrapping a factor first does not change a wrapped product.
pub proof fn lemma_wrap_mul_noop(a: int, b: int)
    ensures
        wrap(wrap(a) * b) == wrap(a * b),
        wrap(a * wrap(b)) == wrap(a * b),
{
    vstd::arithmetic::div_mod::lemma_mul_mod_noop_general(a, b, 0x1_0000_0000_0000_0000);
}

/// The 32-bit reduction of a 64-bit wrap is the plain 32-bit reduction:
/// narrowing commutes with the 64-bit ring operations.
pub proof fn lemma_wrap32_of_wrap(x: int)
    ensures
        wrap32(wrap(x)) == wrap32(x),
{
    assert(0x1_0000_0000_0000_0000 == 0x1_0000_0000int * 0x1_0000_0000int) by (nonlinear_arith);
    vstd::arithmetic::div_mod::lemma_mod_mod(x, 0x1_0000_0000, 0x1_0000_0000);
}

/// Sums that agree modulo 2^32 agree after `wrap32`.
pub proof fn lemma_wrap32_congruent(a: int, b: int)
    requires
        a % 0x1_0000_0000 == b % 0x1_0000_0000,
    ensures
        wrap32(a) == wrap32(b),
{
}

/// Wrapping 64-bit addition.
pub fn wadd(a: u64, b: u64) -> (r: u64)
    ensures
        r as int == wrap(a + b),
{
    proof {
        if a + b <= u64::MAX {
            lemma_wrap_small(a + b);
        } else {
            vstd::arithmetic::div_mod::lemma_mod_multiples_vanish(
                1,
                a + b - 0x1_0000_0000_0000_0000,
                0x1_0000_0000_0000_0000,
            );
            lemma_wrap_small(a + b - 0x1_0000_0000_0000_0000);
        }
    }
    a.wrapping_add(b)
}

/// Wrapping 64-bit multiplication.
pub fn wmul(a: u64, b: u64) -> (r: u64)
    ensures
        r as int == wrap(a * b),
{
    proof {
        vstd::arithmetic::mul::lemma_mul_nonnegative(a as int, b as int);
    }
    a.wrapping_mul(b)
}

} // verus!
