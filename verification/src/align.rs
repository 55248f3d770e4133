//! Rounding a byte count up to a multiple of the sector size.

use vstd::prelude::*;

verus! {

/// `value` rounded up to a multiple of `align`.
pub open spec fn align_up(value: int, align: int) -> int
    recommends
        value >= 0,
        align > 0,
{
    ((value + align - 1) / align) * align
}

/// The number of filler bytes that bring `value` up to a multiple of `align`.
pub open spec fn padding_len(value: int, align: int) -> int
    recommends
        value >= 0,
        align > 0,
{
    align_up(value, align) - value
}

/// `align_up(value, align)` is a multiple of `align`, it is at least `value`,
/// and less than `align` above it.
pub proof fn lemma_align_up_bounds(value: int, align: int)
    requires
        value >= 0,
        align > 0,
    ensures
        align_up(value, align) % align == 0,
        value <= align_up(value, align) < value + align,
        0 <= padding_len(value, align) < align,
        (value + padding_len(value, align)) % align == 0,
{
    let q = (value + align - 1) / align;
    vstd::arithmetic::div_mod::lemma_fundamental_div_mod(value + align - 1, align);
    vstd::arithmetic::div_mod::lemma_mod_bound(value + align - 1, align);
    assert(q * align == align * q) by (nonlinear_arith);
    vstd::arithmetic::div_mod::lemma_mod_multiples_basic(q, align);
}

/// No multiple of `align` lies between `value` and `align_up(value, align)`:
/// the rounded value is the smallest one that is aligned and not below `value`.
pub proof fn lemma_align_up_least(value: int, align: int, multiple: int)
    requires
        value >= 0,
        align > 0,
        multiple >= value,
        multiple % align == 0,
    ensures
        align_up(value, align) <= multiple,
{
    lemma_align_up_bounds(value, align);
    let q = (value + align - 1) / align;
    let k = multiple / align;
    vstd::arithmetic::div_mod::lemma_fundamental_div_mod(multiple, align);
    assert(multiple == align * k);
    if multiple < q * align {
        assert(k < q) by (nonlinear_arith)
            requires
                align * k < q * align,
                align > 0,
        ;
        assert((k + 1) * align <= q * align) by (nonlinear_arith)
            requires
                k + 1 <= q,
                align > 0,
        ;
        assert((k + 1) * align == align * k + align) by (nonlinear_arith);
    }
}

/// A value that is already aligned is left as it is.
pub proof fn lemma_align_up_of_multiple(value: int, align: int)
    requires
        value >= 0,
        align > 0,
        value % align == 0,
    ensures
        align_up(value, align) == value,
        padding_len(value, align) == 0,
{
    lemma_align_up_bounds(value, align);
    lemma_align_up_least(value, align, value);
}

/// Rounds `value` up to the next multiple of `align`.
pub fn val_align_up(value: u64, align: u64) -> (aligned: u64)
    requires
        align > 0,
        align_up(value as int, align as int) <= u64::MAX,
    ensures
        aligned == align_up(value as int, align as int),
{
    let rem: u64 = value % align;
    proof {
        let v = value as int;
        let a = align as int;
        lemma_align_up_bounds(v, a);
        vstd::arithmetic::div_mod::lemma_fundamental_div_mod(v, a);
        if rem == 0 {
            lemma_align_up_of_multiple(v, a);
        } else {
            let q = v / a;
            assert((q + 1) * a == a * q + a) by (nonlinear_arith);
            vstd::arithmetic::div_mod::lemma_mod_multiples_basic(q + 1, a);
            lemma_align_up_least(v, a, (q + 1) * a);
            // the rounded value exceeds `v - rem` by a positive multiple of `a`
            let up = align_up(v, a);
            let p = (v + a - 1) / a;
            assert(up == p * a);
            assert(p > q) by (nonlinear_arith)
                requires
                    p * a >= v,
                    v > a * q,
                    a > 0,
            ;
            assert(p * a >= (q + 1) * a) by (nonlinear_arith)
                requires
                    p >= q + 1,
                    a > 0,
            ;
        }
    }
    if rem == 0 {
        value
    } else {
        value - rem + align
    }
}

} // verus!
