//! Rounding addresses up to a power-of-two alignment.
use vstd::prelude::*;
use vstd::arithmetic::power::{lemma_pow_adds, lemma_pow_positive, lemma_pow_strictly_increases, pow};
use vstd::arithmetic::power2::{is_pow2, is_pow2_equiv, lemma_pow2, lemma_pow2_strictly_increases, lemma2_to64, lemma_pow2_pos, pow2};
use vstd::bits::low_bits_mask;
use vstd::bits::lemma_usize_low_bits_mask_is_mod;

verus! {

/// The smallest multiple of `align` that is not below `addr`.
pub open spec fn round_up(addr: int, align: int) -> int {
    ((addr + align - 1) / align) * align
}

/// Rounding up to a positive `align` gives the multiple of `align` in `[addr, addr + align)`.
pub proof fn lemma_round_up(addr: int, align: int)
    requires
        addr >= 0,
        align > 0,
    ensures
        addr <= round_up(addr, align) < addr + align,
        round_up(addr, align) % align == 0,
{
    let y = addr + align - 1;
    assert(y - align < (y / align) * align <= y) by (nonlinear_arith)
        requires
            align > 0,
            y >= 0,
    ;
    assert(((y / align) * align) % align == 0) by (nonlinear_arith)
        requires
            align > 0,
    ;
}

/// A sum of two multiples of `m` is a multiple of `m`.
pub proof fn lemma_multiple_sum(x: int, y: int, m: int)
    requires
        m > 0,
        x % m == 0,
        y % m == 0,
    ensures
        (x + y) % m == 0,
{
    vstd::arithmetic::div_mod::lemma_mod_adds(x, y, m);
}

/// A multiple of a multiple of `d` is a multiple of `d`.
pub proof fn lemma_multiple_trans(x: int, m: int, d: int)
    requires
        m > 0,
        d > 0,
        x % m == 0,
        m % d == 0,
    ensures
        x % d == 0,
{
    vstd::arithmetic::div_mod::lemma_fundamental_div_mod(x, m);
    vstd::arithmetic::div_mod::lemma_fundamental_div_mod(m, d);
    let q = (m / d) * (x / m);
    assert(x == q * d) by (nonlinear_arith)
        requires
            x == m * (x / m),
            m == d * (m / d),
            q == (m / d) * (x / m),
    ;
    vstd::arithmetic::div_mod::lemma_mod_multiples_basic(q, d);
}

/// `k` steps of `m` from a multiple of `m` land on a multiple of `m`.
pub proof fn lemma_multiple_step(x: int, k: int, m: int)
    requires
        m > 0,
        x % m == 0,
    ensures
        (x + k * m) % m == 0,
{
    vstd::arithmetic::div_mod::lemma_mod_multiples_basic(k, m);
    lemma_multiple_sum(x, k * m, m);
}

/// A power of two that fits in a `usize` has an exponent below `usize::BITS`.
proof fn lemma_pow2_exponent(align: usize) -> (k: nat)
    requires
        is_pow2(align as int),
    ensures
        pow2(k) == align,
        k < usize::BITS,
{
    is_pow2_equiv(align as int);
    let k = choose|i: nat| pow(2, i) == align as int;
    lemma_pow2(k);
    if k >= usize::BITS {
        lemma2_to64();
        if k > usize::BITS {
            lemma_pow2_strictly_increases(usize::BITS as nat, k);
        }
        assert(false);
    }
    k
}

/// Masking off the low bits of `y` below a power of two `align` rounds `y` down.
proof fn lemma_mask_rounds_down(y: usize, align: usize)
    requires
        is_pow2(align as int),
    ensures
        y & !((align - 1) as usize) == (y / align) * align,
{
    let k = lemma_pow2_exponent(align);
    lemma_pow2_pos(k);
    let m: usize = (align - 1) as usize;
    assert(low_bits_mask(k) == m);
    lemma_usize_low_bits_mask_is_mod(y, k);
    assert(y & m == y % align);
    assert(y & !m == y - (y & m)) by (bit_vector);
    assert(y == (y / align) * align + y % align) by (nonlinear_arith)
        requires
            align > 0;
}

/// A power of two is a multiple of every smaller power of two.
pub proof fn lemma_pow2_divides(x: int, y: int)
    requires
        is_pow2(x),
        is_pow2(y),
        x <= y,
    ensures
        y % x == 0,
        x > 0,
{
    is_pow2_equiv(x);
    is_pow2_equiv(y);
    let k1 = choose|k: nat| pow(2, k) == x;
    let k2 = choose|k: nat| pow(2, k) == y;
    if k1 > k2 {
        lemma_pow_strictly_increases(2, k2, k1);
    }
    let d = (k2 - k1) as nat;
    lemma_pow_adds(2, k1, d);
    lemma_pow_positive(2, k1);
    vstd::arithmetic::div_mod::lemma_mod_multiples_basic(pow(2, d), x);
    assert(y == pow(2, d) * x) by (nonlinear_arith)
        requires
            y == pow(2, k1) * pow(2, d),
            x == pow(2, k1),
    ;
}

/// Rounds `addr` up to the next multiple of `align`.
///
/// `align` must be a power of two, and `addr + align - 1` must fit in a `usize`.
pub fn align_up(addr: usize, align: usize) -> (r: usize)
    requires
        is_pow2(align as int),
        addr + align - 1 <= usize::MAX,
    ensures
        r == round_up(addr as int, align as int),
        r % align == 0,
        addr <= r < addr + align,
{
    proof {
        is_pow2_equiv(align as int);
        reveal(is_pow2);
        assert(align > 0);
        let y = (addr + align - 1) as usize;
        lemma_mask_rounds_down(y, align);
        lemma_round_up(addr as int, align as int);
    }
    (addr + (align - 1)) & !(align - 1)
}

} // verus!
