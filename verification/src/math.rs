//! Base-2 logarithms and powers of two over machine words.

use vstd::arithmetic::div_mod::{
    lemma_fundamental_div_mod, lemma_fundamental_div_mod_converse, lemma_mod_multiples_basic,
};
use vstd::arithmetic::power2::{
    is_pow2, is_pow2_equiv, is_pow2_exists, lemma2_to64, lemma_pow2, lemma_pow2_pos,
    lemma_pow2_strictly_increases, lemma_pow2_unfold, pow2,
};
use vstd::bits::{lemma_usize_pow2_no_overflow, lemma_usize_shl_is_mul, lemma_usize_shr_is_div};
use vstd::layout::unsigned_int_max_values;
use vstd::prelude::*;

verus! {

/// The floor of the base-2 logarithm of `n`, with the convention that the
/// logarithm of zero is zero.
pub open spec fn floor_log2(n: nat) -> nat
    decreases n,
{
    if n <= 1 {
        0
    } else {
        1 + floor_log2(n / 2)
    }
}

/// The largest of three numbers.
pub open spec fn max3(a: nat, b: nat, c: nat) -> nat {
    if a >= b && a >= c {
        a
    } else if b >= c {
        b
    } else {
        c
    }
}

/// The smallest power of two that is not below `n`.
pub open spec fn round_up_pow2(n: nat) -> nat {
    if n <= 1 {
        1
    } else {
        pow2(floor_log2((n - 1) as nat) + 1)
    }
}

/// `floor_log2(n)` is the one exponent `e` with `2^e <= n < 2^(e + 1)`.
pub proof fn lemma_floor_log2_bounds(n: nat)
    requires
        n > 0,
    ensures
        pow2(floor_log2(n)) <= n < pow2(floor_log2(n) + 1),
    decreases n,
{
    if n == 1 {
        lemma2_to64();
    } else {
        lemma_floor_log2_bounds(n / 2);
        lemma_pow2_unfold(floor_log2(n));
        lemma_pow2_unfold(floor_log2(n) + 1);
    }
}

/// Powers of two grow with their exponent.
pub proof fn lemma_pow2_monotone(e1: nat, e2: nat)
    ensures
        e1 <= e2 <==> pow2(e1) <= pow2(e2),
{
    if e1 < e2 {
        lemma_pow2_strictly_increases(e1, e2);
    } else if e2 < e1 {
        lemma_pow2_strictly_increases(e2, e1);
    }
}

/// An exponent is the floor logarithm of every number between its power of
/// two and the next.
pub proof fn lemma_floor_log2_unique(n: nat, e: nat)
    requires
        pow2(e) <= n < pow2(e + 1),
    ensures
        floor_log2(n) == e,
{
    lemma_pow2_pos(e);
    lemma_floor_log2_bounds(n);
    let f = floor_log2(n);
    lemma_pow2_monotone(f + 1, e);
    lemma_pow2_monotone(e + 1, f);
}

/// The floor logarithm undoes the power of two.
pub proof fn lemma_floor_log2_pow2(e: nat)
    ensures
        floor_log2(pow2(e)) == e,
        is_pow2(pow2(e) as int),
{
    lemma_pow2_strictly_increases(e, e + 1);
    lemma_floor_log2_unique(pow2(e), e);
    lemma_pow2(e);
    assert(is_pow2_exists(pow2(e) as int));
    is_pow2_equiv(pow2(e) as int);
}

/// A power of two is two to the power of its floor logarithm.
pub proof fn lemma_pow2_of_floor_log2(n: nat)
    requires
        is_pow2(n as int),
    ensures
        pow2(floor_log2(n)) == n,
{
    is_pow2_equiv(n as int);
    let e = choose|e: nat| vstd::arithmetic::power::pow(2, e) == n as int;
    lemma_pow2(e);
    lemma_floor_log2_pow2(e);
}

/// An exponent whose power of two fits in a machine word is smaller than
/// the width of the word.
pub proof fn lemma_pow2_fits_word(e: nat)
    ensures
        pow2(e) <= usize::MAX <==> e < usize::BITS,
{
    unsigned_int_max_values();
    lemma_pow2_monotone(usize::BITS as nat, e);
    if e < usize::BITS {
        lemma_pow2_strictly_increases(e, usize::BITS as nat);
    }
}

/// `round_up_pow2(n)` is a power of two, is not below `n`, and no power of
/// two lies between `n` and it.
pub proof fn lemma_round_up_pow2(n: nat)
    ensures
        is_pow2(round_up_pow2(n) as int),
        n <= round_up_pow2(n),
        n > 1 ==> round_up_pow2(n) < 2 * n,
        forall|e: nat| n <= #[trigger] pow2(e) ==> round_up_pow2(n) <= pow2(e),
{
    if n <= 1 {
        lemma2_to64();
        lemma_floor_log2_pow2(0);
        assert forall|e: nat| n <= #[trigger] pow2(e) implies round_up_pow2(n) <= pow2(e) by {
            lemma_pow2_pos(e);
        }
    } else {
        let f = floor_log2((n - 1) as nat);
        lemma_floor_log2_bounds((n - 1) as nat);
        lemma_floor_log2_pow2(f + 1);
        lemma_pow2_unfold(f + 1);
        assert forall|e: nat| n <= #[trigger] pow2(e) implies round_up_pow2(n) <= pow2(e) by {
            lemma_pow2_monotone(e, f);
            lemma_pow2_monotone(f + 1, e);
        }
    }
}

/// A multiple of `d` is its quotient by `d` times `d`.
pub proof fn lemma_multiple_quotient(x: int, d: int)
    requires
        d > 0,
        x % d == 0,
    ensures
        x == (x / d) * d,
{
    lemma_fundamental_div_mod(x, d);
    assert(d * (x / d) == (x / d) * d) by (nonlinear_arith);
}

/// Every product with `d` is a multiple of `d`.
pub proof fn lemma_product_is_multiple(q: int, d: int)
    requires
        d > 0,
    ensures
        (q * d) % d == 0,
{
    lemma_mod_multiples_basic(q, d);
}

/// A multiple of `c * d` is a multiple of `d`.
pub proof fn lemma_multiple_of_multiple(x: int, c: int, d: int)
    requires
        c > 0,
        d > 0,
        x % (c * d) == 0,
    ensures
        x % d == 0,
{
    assert(c * d > 0) by (nonlinear_arith)
        requires
            c > 0,
            d > 0,
    ;
    lemma_multiple_quotient(x, c * d);
    let q = x / (c * d);
    assert(q * (c * d) == (q * c) * d) by (nonlinear_arith);
    lemma_product_is_multiple(q * c, d);
}

/// The neighbours of a multiple of `d` at distance `d` are multiples too.
pub proof fn lemma_multiple_neighbours(x: int, d: int)
    requires
        d > 0,
        x % d == 0,
    ensures
        (x + d) % d == 0,
        (x - d) % d == 0,
{
    lemma_multiple_quotient(x, d);
    let q = x / d;
    assert((q + 1) * d == q * d + d) by (nonlinear_arith);
    assert((q - 1) * d == q * d - d) by (nonlinear_arith);
    lemma_product_is_multiple(q + 1, d);
    lemma_product_is_multiple(q - 1, d);
}

/// A multiple of `d` leaves the remainder `0` or `d` when divided by `2 * d`,
/// and the remainder `d` turns into `0` one step of `d` further.
pub proof fn lemma_multiple_parity(x: int, d: int)
    requires
        d > 0,
        x % d == 0,
    ensures
        x % (2 * d) == 0 || x % (2 * d) == d,
        x % (2 * d) == 0 <==> (x / d) % 2 == 0,
        x % (2 * d) == 0 ==> (x + d) % (2 * d) == d,
        x % (2 * d) == d ==> (x - d) % (2 * d) == 0 && (x + d) % (2 * d) == 0,
{
    lemma_multiple_quotient(x, d);
    let q = x / d;
    let h = q / 2;
    if q % 2 == 0 {
        assert((2 * h) * d == h * (2 * d)) by (nonlinear_arith);
        lemma_fundamental_div_mod_converse(x, 2 * d, h, 0);
        lemma_fundamental_div_mod_converse(x + d, 2 * d, h, d);
    } else {
        assert((2 * h + 1) * d == h * (2 * d) + d) by (nonlinear_arith);
        lemma_fundamental_div_mod_converse(x, 2 * d, h, d);
        lemma_fundamental_div_mod_converse(x - d, 2 * d, h, 0);
        assert((h + 1) * (2 * d) == h * (2 * d) + 2 * d) by (nonlinear_arith);
        lemma_fundamental_div_mod_converse(x + d, 2 * d, h + 1, 0);
    }
}

/// Between two multiples of `d`, the smaller one leaves room for `d` more.
pub proof fn lemma_multiple_gap(x: int, y: int, d: int)
    requires
        d > 0,
        x % d == 0,
        y % d == 0,
        x < y,
    ensures
        x + d <= y,
{
    lemma_multiple_quotient(x, d);
    lemma_multiple_quotient(y, d);
    let q = x / d;
    let r = y / d;
    assert(q < r) by (nonlinear_arith)
        requires
            q * d < r * d,
            d > 0,
    ;
    assert((q + 1) * d <= r * d) by (nonlinear_arith)
        requires
            q + 1 <= r,
            d > 0,
    ;
    assert((q + 1) * d == q * d + d) by (nonlinear_arith);
}

/// In a word, flipping the one bit of `2^e` in a multiple of `2^e` adds
/// `2^e` where the multiple is even and takes `2^e` away where it is odd.
pub proof fn lemma_xor_pow2(x: usize, e: nat)
    requires
        e < usize::BITS,
        x as int % pow2(e) as int == 0,
    ensures
        pow2(e) <= usize::MAX,
        x as int % (2 * pow2(e) as int) == 0 ==> x + pow2(e) <= usize::MAX && (x ^ (pow2(
            e,
        ) as usize)) == x + pow2(e),
        x as int % (2 * pow2(e) as int) != 0 ==> x >= pow2(e) && (x ^ (pow2(e) as usize)) == x
            - pow2(e),
{
    let s = pow2(e) as usize;
    let sh = e as usize;
    lemma_usize_pow2_no_overflow(e);
    lemma_multiple_quotient(x as int, pow2(e) as int);
    lemma_multiple_parity(x as int, pow2(e) as int);
    lemma_usize_shr_is_div(x, sh);
    lemma_usize_shl_is_mul(x >> sh, sh);
    lemma_usize_shl_is_mul(1usize, sh);
    assert(s == 1usize << sh);
    assert(x == (x >> sh) << sh);
    lemma_xor_shifted(x, s, sh);
}

proof fn lemma_xor_shifted(x: usize, s: usize, e: usize)
    by (bit_vector)
    requires
        e < usize::BITS,
        s == 1usize << e,
        x == (x >> e) << e,
    ensures
        (x >> e) % 2 == 0 ==> (x ^ s) == x + s,
        (x >> e) % 2 != 0 ==> (x ^ s) == x - s,
{
}

proof fn lemma_xor_below_bit(x: usize, s: usize, e: usize)
    by (bit_vector)
    requires
        e < usize::BITS,
        x < (1usize << e),
        s < (1usize << e),
    ensures
        (x ^ s) < (1usize << e),
{
}

/// The exclusive or of two words below a power of two is below it too.
pub proof fn lemma_xor_below_pow2(x: usize, s: usize, e: nat)
    requires
        pow2(e) <= usize::MAX,
        x < pow2(e),
        s < pow2(e),
    ensures
        (x ^ s) < pow2(e),
{
    lemma_pow2_fits_word(e);
    lemma_usize_shl_is_mul(1usize, e as usize);
    lemma_xor_below_bit(x, s, e as usize);
}

proof fn lemma_halving_keeps_single_bit(n: usize)
    by (bit_vector)
    requires
        n >= 2,
    ensures
        (n & ((n - 1) as usize)) == 0 <==> (n % 2 == 0 && ((n / 2) & ((n / 2 - 1) as usize)) == 0),
{
}

/// A word is a power of two exactly when it is not zero and shares no bit
/// with its predecessor.
pub proof fn lemma_single_bit_is_pow2(n: usize)
    ensures
        is_pow2(n as int) <==> (n != 0 && n & ((n - 1) as usize) == 0),
    decreases n,
{
    reveal(is_pow2);
    if n == 1 {
        assert(1usize & 0usize == 0) by (bit_vector);
    } else if n >= 2 {
        lemma_single_bit_is_pow2(n / 2);
        lemma_halving_keeps_single_bit(n);
    }
}

/// Calculate the base-2 logarithm of `n`, rounded down.  By convention the
/// result for `0` is `0`.
pub fn log2(n: usize) -> (r: u8)
    ensures
        r == floor_log2(n as nat),
        n > 0 ==> pow2(r as nat) <= n < pow2(r as nat + 1),
        r < usize::BITS,
{
    let mut temp: usize = n;
    let mut result: u8 = 0;
    assert(temp >> 1 == temp / 2) by (bit_vector);
    temp = temp >> 1;
    proof {
        lemma2_to64();
        assert(temp * pow2(1) == temp * 2);
    }
    while temp != 0
        invariant
            result < usize::BITS,
            temp * pow2(result as nat + 1) <= n,
            floor_log2(n as nat) == result + (if temp == 0 {
                0
            } else {
                1 + floor_log2(temp as nat)
            }),
        decreases temp,
    {
        proof {
            let p = pow2(result as nat + 1);
            assert(p <= temp * p) by (nonlinear_arith)
                requires
                    temp >= 1,
                    p >= 0,
            ;
            lemma_pow2_fits_word(result as nat + 1);
            lemma_pow2_unfold(result as nat + 2);
            assert((temp / 2) * (2 * p) <= temp * p) by (nonlinear_arith)
                requires
                    p >= 0,
            ;
        }
        assert(temp >> 1 == temp / 2) by (bit_vector);
        result += 1;
        temp = temp >> 1;
    }
    proof {
        if n > 0 {
            lemma_floor_log2_bounds(n as nat);
        }
    }
    result
}

/// Whether `n` is a power of two.
pub fn is_power_of_two(n: usize) -> (r: bool)
    ensures
        r == is_pow2(n as int),
{
    proof {
        lemma_single_bit_is_pow2(n);
    }
    n != 0 && n & (n - 1) == 0
}

/// The smallest power of two that is not below `n`, where a word can hold
/// it.
pub fn next_power_of_two(n: usize) -> (r: usize)
    requires
        round_up_pow2(n as nat) <= usize::MAX,
    ensures
        r == round_up_pow2(n as nat),
{
    if n <= 1 {
        1
    } else {
        let e = log2(n - 1) + 1;
        proof {
            lemma_pow2_fits_word(e as nat);
            lemma_usize_shl_is_mul(1usize, e as usize);
        }
        1usize << (e as usize)
    }
}

} // verus!
