//! Powers of two and address alignment.
use vstd::prelude::*;

verus! {

/// `n` is a power of two (1, 2, 4, ...).
pub open spec fn is_pow2(n: int) -> bool
    decreases n,
{
    if n <= 0 {
        false
    } else if n == 1 {
        true
    } else {
        n % 2 == 0 && is_pow2(n / 2)
    }
}

/// The smallest multiple of `align` that is at least `addr`.
pub open spec fn align_up_spec(addr: int, align: int) -> int {
    if addr % align == 0 {
        addr
    } else {
        addr - addr % align + align
    }
}

/// Of two powers of two, the larger is a multiple of the smaller.
pub proof fn lemma_pow2_divides(a: int, b: int)
    requires
        is_pow2(a),
        is_pow2(b),
        a <= b,
    ensures
        b % a == 0,
    decreases a,
{
    if a == 1 {
    } else {
        assert(b != 1);
        lemma_pow2_divides(a / 2, b / 2);
        let k = (b / 2) / (a / 2);
        assert(b / 2 == k * (a / 2)) by (nonlinear_arith)
            requires
                (b / 2) % (a / 2) == 0,
                a / 2 > 0,
                k == (b / 2) / (a / 2),
        ;
        assert(b == k * a) by (nonlinear_arith)
            requires
                b / 2 == k * (a / 2),
                b % 2 == 0,
                a % 2 == 0,
        ;
        assert((k * a) % a == 0) by (nonlinear_arith)
            requires
                a > 0,
        ;
    }
}

/// A multiple of a multiple of `a` is a multiple of `a`.
pub proof fn lemma_mod_transitive(x: int, a: int, b: int)
    requires
        a > 0,
        b > 0,
        b % a == 0,
        x % b == 0,
    ensures
        x % a == 0,
{
    let j = b / a;
    let k = x / b;
    assert(b == j * a) by (nonlinear_arith)
        requires
            b % a == 0,
            a > 0,
            j == b / a,
    ;
    assert(x == k * b) by (nonlinear_arith)
        requires
            x % b == 0,
            b > 0,
            k == x / b,
    ;
    assert(x == (k * j) * a) by (nonlinear_arith)
        requires
            x == k * b,
            b == j * a,
    ;
    assert(((k * j) * a) % a == 0) by (nonlinear_arith)
        requires
            a > 0,
    ;
}

/// What `align_up_spec` gives: a multiple of `align`, at least `addr`, and
/// less than `align` past it.
pub proof fn lemma_align_up(addr: int, align: int)
    requires
        addr >= 0,
        align > 0,
    ensures
        align_up_spec(addr, align) % align == 0,
        addr <= align_up_spec(addr, align) < addr + align,
        addr % align == 0 ==> align_up_spec(addr, align) == addr,
{
    let r = addr % align;
    assert(0 <= r < align);
    if r != 0 {
        assert((addr - r + align) % align == 0) by (nonlinear_arith)
            requires
                r == addr % align,
                align > 0,
        ;
    }
}

/// Tells whether `n` is a power of two.
pub fn is_power_of_two(n: u64) -> (r: bool)
    ensures
        r == is_pow2(n as int),
{
    if n == 0 {
        return false;
    }
    let mut m: u64 = n;
    while m != 1
        invariant
            m >= 1,
            is_pow2(n as int) == is_pow2(m as int),
        decreases m,
    {
        if m % 2 == 1 {
            return false;
        }
        m = m / 2;
    }
    true
}

/// Rounds `addr` up to the next multiple of `align`; `None` where that
/// multiple does not fit in a `u64`.
pub fn align_up(addr: u64, align: u64) -> (r: Option<u64>)
    requires
        align > 0,
    ensures
        align_up_spec(addr as int, align as int) <= u64::MAX ==> r == Some(
            align_up_spec(addr as int, align as int) as u64,
        ),
        align_up_spec(addr as int, align as int) > u64::MAX ==> r is None,
{
    let rem = addr % align;
    if rem == 0 {
        Some(addr)
    } else {
        addr.checked_add(align - rem)
    }
}

} // verus!
