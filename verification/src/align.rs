//! Rounding addresses to multiples of an alignment.

use vstd::prelude::*;

verus! {

/// The smallest multiple of `align` that is at least `value`.
pub open spec fn align_up(value: int, align: int) -> int {
    ((value + align - 1) / align) * align
}

/// The largest multiple of `align` that is at most `value`.
pub open spec fn align_down(value: int, align: int) -> int {
    value - value % align
}

/// Both roundings give multiples of `align`, less than one `align` away.
pub proof fn lemma_align(value: int, align: int)
    requires
        align > 0,
    ensures
        align_up(value, align) % align == 0,
        value <= align_up(value, align) < value + align,
        align_down(value, align) % align == 0,
        value - align < align_down(value, align) <= value,
        value % align == 0 ==> align_up(value, align) == value,
        value % align != 0 ==> align_up(value, align) == value - value % align + align,
{
    let up = value + align - 1;
    vstd::arithmetic::div_mod::lemma_fundamental_div_mod(up, align);
    vstd::arithmetic::div_mod::lemma_fundamental_div_mod(value, align);
    vstd::arithmetic::div_mod::lemma_mod_bound(up, align);
    vstd::arithmetic::div_mod::lemma_mod_bound(value, align);
    vstd::arithmetic::div_mod::lemma_mod_multiples_basic(up / align, align);
    vstd::arithmetic::div_mod::lemma_mod_multiples_basic(value / align, align);
    vstd::arithmetic::mul::lemma_mul_is_commutative(align, up / align);
    vstd::arithmetic::mul::lemma_mul_is_commutative(align, value / align);
    let r = value % align;
    let q = value / align;
    if r == 0 {
        vstd::arithmetic::div_mod::lemma_fundamental_div_mod_converse(up, align, q, align - 1);
    } else {
        vstd::arithmetic::mul::lemma_mul_is_distributive_add(align, q, 1);
        vstd::arithmetic::mul::lemma_mul_is_commutative(align, q + 1);
        vstd::arithmetic::div_mod::lemma_fundamental_div_mod_converse(up, align, q + 1, r - 1);
    }
}

/// Nothing between a value and its rounding is a multiple of `align`.
pub proof fn lemma_align_tight(value: int, align: int, multiple: int)
    requires
        align > 0,
        multiple % align == 0,
    ensures
        value <= multiple ==> align_up(value, align) <= multiple,
        multiple <= value ==> multiple <= align_down(value, align),
{
    lemma_align(value, align);
    let up = align_up(value, align);
    let down = align_down(value, align);
    vstd::arithmetic::div_mod::lemma_fundamental_div_mod(multiple, align);
    vstd::arithmetic::div_mod::lemma_fundamental_div_mod(up, align);
    vstd::arithmetic::div_mod::lemma_fundamental_div_mod(down, align);
    let m = multiple / align;
    let u = up / align;
    let d = down / align;
    if value <= multiple && multiple < up {
        assert(m < u) by (nonlinear_arith)
            requires
                align * m < align * u,
                align > 0,
        ;
        assert(align * m + align <= align * u) by (nonlinear_arith)
            requires
                m < u,
                align > 0,
        ;
    }
    if multiple <= value && down < multiple {
        assert(d < m) by (nonlinear_arith)
            requires
                align * d < align * m,
                align > 0,
        ;
        assert(align * d + align <= align * m) by (nonlinear_arith)
            requires
                d < m,
                align > 0,
        ;
    }
}

/// Round `value` up to a multiple of `align`, or `None` if that multiple
/// does not fit in 64 bits.
pub fn checked_next_multiple_of(value: u64, align: u64) -> (rounded: Option<u64>)
    requires
        align > 0,
    ensures
        match rounded {
            Some(multiple) => multiple == align_up(value as int, align as int),
            None => align_up(value as int, align as int) > u64::MAX,
        },
{
    proof {
        lemma_align(value as int, align as int);
    }
    let rest: u64 = value % align;
    if rest == 0 {
        Some(value)
    } else {
        value.checked_add(align - rest)
    }
}

} // verus!
