//! Rounding to an alignment.

use vstd::prelude::*;

verus! {

/// Largest multiple of `align` that is not above `origin`, for `align > 0`.
pub open spec fn spec_round_down(origin: int, align: int) -> int {
    origin - origin % align
}

/// Smallest multiple of `align` that is not below `origin`, for `align > 0`.
pub open spec fn spec_round_up(origin: int, align: int) -> int {
    spec_round_down(origin + align - 1, align)
}

/// `spec_round_down` is the one multiple of `align` in `(origin - align, origin]`.
pub proof fn lemma_round_down(origin: int, align: int)
    requires
        0 <= origin,
        0 < align,
    ensures
        spec_round_down(origin, align) % align == 0,
        spec_round_down(origin, align) <= origin < spec_round_down(origin, align) + align,
        0 <= spec_round_down(origin, align),
        origin % align == 0 ==> spec_round_down(origin, align) == origin,
{
    let q = origin / align;
    let r = origin % align;
    assert(origin == align * q + r && 0 <= r < align) by (nonlinear_arith)
        requires
            q == origin / align,
            r == origin % align,
            0 < align,
    ;
    assert((align * q) % align == 0) by (nonlinear_arith)
        requires
            0 < align,
    ;
}

/// `spec_round_up` is the one multiple of `align` in `[origin, origin + align)`.
pub proof fn lemma_round_up(origin: int, align: int)
    requires
        0 <= origin,
        0 < align,
    ensures
        spec_round_up(origin, align) % align == 0,
        origin <= spec_round_up(origin, align) < origin + align,
        origin % align == 0 ==> spec_round_up(origin, align) == origin,
{
    lemma_round_down(origin + align - 1, align);
    if origin % align == 0 {
        let u = spec_round_up(origin, align);
        assert(u == origin) by (nonlinear_arith)
            requires
                u % align == 0,
                origin % align == 0,
                origin <= u < origin + align,
                0 < align,
        ;
    }
}

/// Two multiples of `align` that differ by less than `align` are equal.
pub proof fn lemma_multiples_apart(a: int, b: int, align: int)
    requires
        0 < align,
        a % align == 0,
        b % align == 0,
        a <= b,
    ensures
        a == b || a + align <= b,
        (b - a) % align == 0,
{
    assert(a == b || a + align <= b) by (nonlinear_arith)
        requires
            0 < align,
            a % align == 0,
            b % align == 0,
            a <= b,
    ;
    let qa = a / align;
    let qb = b / align;
    vstd::arithmetic::div_mod::lemma_fundamental_div_mod(a, align);
    vstd::arithmetic::div_mod::lemma_fundamental_div_mod(b, align);
    vstd::arithmetic::mul::lemma_mul_is_distributive_sub(align, qb, qa);
    vstd::arithmetic::mul::lemma_mul_is_commutative(align, qb - qa);
    vstd::arithmetic::div_mod::lemma_mod_multiples_basic(qb - qa, align);
}

/// The sum of two multiples of `align` is a multiple of `align`.
pub proof fn lemma_multiples_add(a: int, b: int, align: int)
    requires
        0 < align,
        a % align == 0,
        b % align == 0,
    ensures
        (a + b) % align == 0,
{
    let qa = a / align;
    let qb = b / align;
    vstd::arithmetic::div_mod::lemma_fundamental_div_mod(a, align);
    vstd::arithmetic::div_mod::lemma_fundamental_div_mod(b, align);
    vstd::arithmetic::mul::lemma_mul_is_distributive_add(align, qa, qb);
    vstd::arithmetic::mul::lemma_mul_is_commutative(align, qa + qb);
    vstd::arithmetic::div_mod::lemma_mod_multiples_basic(qa + qb, align);
}

/// The multiple of `align` after a multiple of `align` is `align` further on.
pub proof fn lemma_next_multiple(a: int, align: int)
    requires
        0 < align,
        a % align == 0,
    ensures
        (a + align) % align == 0,
{
    vstd::arithmetic::div_mod::lemma_mod_self_0(align);
    lemma_multiples_add(a, align, align);
}

/// Rounds `origin` down to a multiple of `align`; `None` when `align` is zero.
pub fn round_down(origin: u64, align: u64) -> (res: Option<u64>)
    ensures
        res is None <==> align == 0,
        res matches Some(v) ==> v == spec_round_down(origin as int, align as int),
{
    if align == 0 {
        None
    } else {
        assert(origin % align <= origin) by (nonlinear_arith)
            requires
                0 < align,
                0 <= origin,
        ;
        Some(origin - origin % align)
    }
}

/// Rounds `origin` up to a multiple of `align`; `None` when `align` is zero or
/// `origin + align - 1` does not fit in 64 bits.
pub fn round_up(origin: u64, align: u64) -> (res: Option<u64>)
    ensures
        res is None <==> (align == 0 || origin + align - 1 > u64::MAX),
        res matches Some(v) ==> v == spec_round_up(origin as int, align as int),
{
    if align == 0 {
        return None;
    }
    match origin.checked_add(align - 1) {
        Some(v) => round_down(v, align),
        None => None,
    }
}

} // verus!
