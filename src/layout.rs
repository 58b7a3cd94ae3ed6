use vstd::prelude::*;
use vstd::arithmetic::div_mod::{lemma_fundamental_div_mod, lemma_mod_multiples_basic};

verus! {

/// Size of a free-list node header, in bytes.
pub const BLOCK_HEADER_SIZE: usize = 8;

/// Natural alignment of a free-list node header.
pub const BLOCK_HEADER_ALIGN: usize = 4;

/// Fixed allocation granularity: every effective layout is a multiple of it.
pub const GRANULARITY: usize = 8;

/// Whether `n` is a power of two.
pub open spec fn is_pow2(n: int) -> bool
    decreases n,
{
    if n <= 0 {
        false
    } else if n == 1 {
        true
    } else {
        n % 2 == 0 && is_pow2(n / 2)
    }
}

/// The least multiple of `a` that is at least `m`.
pub open spec fn round_up(m: int, a: int) -> int {
    if m % a == 0 {
        m
    } else {
        m + (a - m % a)
    }
}

pub open spec fn max_int(a: int, b: int) -> int {
    if a >= b {
        a
    } else {
        b
    }
}

/// Size and alignment of a memory request.
#[derive(Clone, Copy, Debug, PartialEq, Eq)]
pub struct Layout {
    pub size: usize,
    pub align: usize,
}

impl Layout {
    /// A valid layout: the alignment is a power of two and the size, rounded up
    /// to it, does not exceed `isize::MAX`.
    pub open spec fn wf(self) -> bool {
        is_pow2(self.align as int) && self.size + self.align <= isize::MAX + 1
    }

    /// Alignment of the effective layout.
    pub open spec fn effective_align(self) -> int {
        max_int(self.align as int, GRANULARITY as int)
    }

    /// Size of the effective layout: room for a header at least, rounded up
    /// to the effective alignment.
    pub open spec fn effective_size(self) -> int {
        round_up(max_int(self.size as int, BLOCK_HEADER_SIZE as int), self.effective_align())
    }

    /// Whether the effective layout is itself a valid layout.
    pub open spec fn effective_fits(self) -> bool {
        max_int(self.size as int, BLOCK_HEADER_SIZE as int) + self.effective_align() <= isize::MAX + 1
    }

    pub fn from_size_align(size: usize, align: usize) -> (r: Option<Layout>)
        ensures
            r is Some <==> (is_pow2(align as int) && size + align <= isize::MAX + 1),
            r matches Some(l) ==> l.size == size && l.align == align && l.wf(),
    {
        if !is_power_of_two(align) {
            return None;
        }
        if size as u128 + align as u128 > isize::MAX as u128 + 1 {
            return None;
        }
        Some(Layout { size, align })
    }
}

pub(crate) proof fn lemma_pow2_ge8_mod8(a: int)
    requires
        is_pow2(a),
        a >= 8,
    ensures
        a % 8 == 0,
{
    assert(a % 2 == 0 && is_pow2(a / 2));
    let h = a / 2;
    assert(h % 2 == 0 && is_pow2(h / 2));
    let q = h / 2;
    assert(q % 2 == 0);
}

pub(crate) proof fn lemma_mod8_of_multiple(x: int, a: int)
    requires
        a > 0,
        x % a == 0,
        a % 8 == 0,
    ensures
        x % 8 == 0,
{
    lemma_fundamental_div_mod(x, a);
    lemma_fundamental_div_mod(a, 8);
    let k = x / a;
    let q = a / 8;
    assert(x == 8 * (q * k)) by (nonlinear_arith)
        requires
            x == a * k,
            a == 8 * q,
    ;
    lemma_mod_multiples_basic(q * k, 8);
    assert((q * k) * 8 == 8 * (q * k)) by (nonlinear_arith);
}

pub(crate) proof fn lemma_round_up(m: int, a: int)
    requires
        m >= 0,
        a > 0,
    ensures
        round_up(m, a) % a == 0,
        m <= round_up(m, a) < m + a,
        round_up(m, a) >= a || m == 0,
{
    lemma_fundamental_div_mod(m, a);
    if m % a != 0 {
        let k = m / a + 1;
        assert(round_up(m, a) == a * k) by (nonlinear_arith)
            requires
                m == a * (m / a) + m % a,
                k == m / a + 1,
                round_up(m, a) == m + (a - m % a),
        ;
        lemma_mod_multiples_basic(k, a);
        assert(k * a == a * k) by (nonlinear_arith);
        assert(m / a >= 0) by (nonlinear_arith)
            requires
                m >= 0,
                a > 0,
        ;
        assert(a * k >= a) by (nonlinear_arith)
            requires
                k >= 1,
                a > 0,
        ;
    } else if m > 0 {
        assert(m >= a) by (nonlinear_arith)
            requires
                m == a * (m / a),
                m > 0,
                a > 0,
        ;
    }
}

fn is_power_of_two(n: usize) -> (r: bool)
    ensures
        r == is_pow2(n as int),
{
    let mut k: usize = n;
    while k > 1
        invariant
            is_pow2(n as int) == is_pow2(k as int),
        decreases k,
    {
        if k % 2 != 0 {
            return false;
        }
        k = k / 2;
    }
    k == 1
}

/// Rounds `m` up to a multiple of `a`.
pub(crate) fn round_up_exec(m: usize, a: usize) -> (r: usize)
    requires
        a > 0,
        m + a <= usize::MAX,
    ensures
        r == round_up(m as int, a as int),
{
    let rem = m % a;
    if rem == 0 {
        m
    } else {
        m + (a - rem)
    }
}

pub(crate) proof fn lemma_round_up_monotone(m1: int, m2: int, a: int)
    requires
        0 <= m1 <= m2,
        a > 0,
    ensures
        round_up(m1, a) <= round_up(m2, a),
{
    lemma_round_up(m1, a);
    lemma_round_up(m2, a);
    let r1 = round_up(m1, a);
    let r2 = round_up(m2, a);
    if r1 > r2 {
        lemma_fundamental_div_mod(r1, a);
        lemma_fundamental_div_mod(r2, a);
        let k1 = r1 / a;
        let k2 = r2 / a;
        assert(k1 > k2) by (nonlinear_arith)
            requires
                r1 == a * k1,
                r2 == a * k2,
                r1 > r2,
                a > 0,
        ;
        assert(r1 >= r2 + a) by (nonlinear_arith)
            requires
                r1 == a * k1,
                r2 == a * k2,
                k1 >= k2 + 1,
                a > 0,
        ;
    }
}

/// An address on the granularity is aligned to every smaller power of two.
pub proof fn lemma_granule_aligned(p: int, a: int)
    requires
        p % 8 == 0,
        is_pow2(a),
        a <= 8,
    ensures
        p % a == 0,
{
    if a != 1 {
        assert(a % 2 == 0 && is_pow2(a / 2));
        if a / 2 != 1 {
            assert(is_pow2(a / 4));
        }
    }
    assert(a == 1 || a == 2 || a == 4 || a == 8);
    lemma_fundamental_div_mod(p, 8);
    let q = p / 8;
    let k = (8int / a) * q;
    if a == 1 {
        assert(k * a == p);
    } else if a == 2 {
        assert(k == 4 * q);
        assert(k * 2 == 8 * q);
    } else if a == 4 {
        assert(k == 2 * q);
        assert(k * 4 == 8 * q);
    } else {
        assert(a == 8);
        assert(8int / 8int == 1);
        assert(k == q);
        assert(k * 8 == 8 * q);
    }
    lemma_mod_multiples_basic(k, a);
}

} // verus!
