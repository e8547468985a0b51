use vstd::prelude::*;
use vstd::arithmetic::power::pow;
use vstd::arithmetic::power2::{is_pow2, pow2};
use vstd::bits::low_bits_mask;

verus! {

/// The largest multiple of `align` that is at most `y`.
pub open spec fn round_down(y: int, align: int) -> int {
    y - y % align
}

/// The smallest multiple of `align` that is at least `x`.
pub open spec fn align_up(x: int, align: int) -> int {
    round_down(x + align - 1, align)
}

/// A power of two that fits in a `usize` has an exponent below `usize::BITS`.
pub proof fn lemma_pow2_exponent_fits(align: usize) -> (k: nat)
    requires
        is_pow2(align as int),
    ensures
        k < usize::BITS,
        pow2(k) == align,
        align > 0,
{
    broadcast use vstd::arithmetic::power2::is_pow2_equiv;
    let k = choose|i: nat| pow(2, i) == align as int;
    assert(pow2(k) == align);
    vstd::arithmetic::power2::lemma_pow2_pos(k);
    vstd::arithmetic::power2::lemma2_to64();
    if k >= usize::BITS {
        if k > usize::BITS {
            vstd::arithmetic::power2::lemma_pow2_strictly_increases(usize::BITS as nat, k);
        }
        assert(false);
    }
    k
}

/// Clearing the bits of `y` below a power-of-two `align` rounds it down to a multiple of `align`.
pub proof fn lemma_mask_rounds_down(y: usize, align: usize)
    requires
        is_pow2(align as int),
    ensures
        y & !((align - 1) as usize) == round_down(y as int, align as int),
{
    let k = lemma_pow2_exponent_fits(align);
    let m = (align - 1) as usize;
    vstd::bits::lemma_usize_low_bits_mask_is_mod(y, k);
    assert(low_bits_mask(k) == m);
    assert(y & m == y % align);
    assert(y & !m == y - (y & m)) by (bit_vector);
}

/// `align_up(x, align)` is a multiple of `align` in `[x, x + align)`.
pub proof fn lemma_align_up_bounds(x: int, align: int)
    requires
        align > 0,
    ensures
        align_up(x, align) % align == 0,
        x <= align_up(x, align) < x + align,
{
    let y = x + align - 1;
    assert(0 <= y % align < align);
    assert((y - y % align) % align == 0) by (nonlinear_arith)
        requires
            align > 0,
    {
        vstd::arithmetic::div_mod::lemma_fundamental_div_mod(y, align);
        vstd::arithmetic::div_mod::lemma_mod_multiples_basic(y / align, align);
    }
}

/// An address that is already a multiple of `align` is left where it is.
pub proof fn lemma_align_up_aligned(x: int, align: int)
    requires
        align > 0,
        x % align == 0,
    ensures
        align_up(x, align) == x,
{
    lemma_align_up_bounds(x, align);
    let r = align_up(x, align);
    vstd::arithmetic::div_mod::lemma_fundamental_div_mod(x, align);
    vstd::arithmetic::div_mod::lemma_fundamental_div_mod(r, align);
    let qx = x / align;
    let qr = r / align;
    assert(x == align * qx);
    assert(r == align * qr);
    assert(qr == qx) by (nonlinear_arith)
        requires
            align > 0,
            x == align * qx,
            r == align * qr,
            x <= r < x + align,
    {
        if qr > qx {
            assert(align * qr >= align * (qx + 1));
        } else if qr < qx {
            assert(align * qr <= align * (qx - 1));
        }
    }
}

/// Rounds `addr` up to the next multiple of the power of two `align`, by adding `align`, taking
/// one off and clearing the bits below `align`.
pub fn align_up_addr(addr: usize, align: usize) -> (aligned: usize)
    requires
        is_pow2(align as int),
        addr + align <= usize::MAX,
    ensures
        aligned == align_up(addr as int, align as int),
        aligned % align == 0,
        addr <= aligned < addr + align,
{
    proof {
        lemma_pow2_exponent_fits(align);
        lemma_align_up_bounds(addr as int, align as int);
        lemma_mask_rounds_down((addr + align - 1) as usize, align);
    }
    (addr + align - 1) & !(align - 1)
}

} // verus!
