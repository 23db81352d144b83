//! Driver: chooses the number of series terms for a requested digit
//! count, fills per-chunk leaf triples, folds them by a strided tree
//! reduction, and assembles the digits of pi from the final triple and
//! a scaled integer square root of 10005.

use vstd::prelude::*;
use crate::bigint::{
    big, big_clone, big_div, big_from_u64, big_mul, big_mul_u64, big_pow_u64, big_shl, big_sqrt,
    big_zero,
};
use crate::series::{
    lemma_q_prod_pos, lemma_t_sum_head_pos, p_prod, q_prod, t_sum,
};
use crate::terms::{calc_p, calc_q, calc_t};
use crate::reduce::{calc_sum, calc_sum2, slot_of};
use vstd::arithmetic::power::{pow, lemma_pow_distributes, lemma_pow_positive};
use vstd::arithmetic::mul::{
    lemma_mul_inequality, lemma_mul_is_commutative, lemma_mul_is_distributive_add_other_way,
    lemma_mul_is_distributive_sub_other_way, lemma_mul_nonnegative,
};
use vstd::arithmetic::div_mod::{
    lemma_div_is_ordered, lemma_div_is_ordered_by_denominator, lemma_div_pos_is_pos,
    lemma_fundamental_div_mod, lemma_mod_bound, lemma_mod_breakdown, lemma_mod_multiples_basic,
    lemma_mod_multiples_vanish, lemma_small_mod,
};

verus! {

/// Decimal digits contributed by one series term, times 10^9:
/// log10(640320^3 / 24 / 72) = 14.181647463.
pub const DIGITS_PER_ITER: u64 = 14_181_647_463;

/// The scale of `DIGITS_PER_ITER`.
pub const DIGITS_SCALE: u64 = 1_000_000_000;

/// Series terms handled by one leaf chunk.
pub const LEAF_LEN: usize = 10_000;

/// `r` is the truncated square root of `x`.
pub open spec fn is_sqrt_floor(x: int, r: int) -> bool {
    0 <= r && r * r <= x && x < (r + 1) * (r + 1)
}

/// The truncated square root of a non-negative integer.
pub open spec fn sqrt_floor(x: int) -> int {
    choose|r: int| is_sqrt_floor(x, r)
}

/// The truncated square root is unique, so any witness pins it down.
pub proof fn lemma_sqrt_floor_is(x: int, r: int)
    requires
        is_sqrt_floor(x, r),
    ensures
        sqrt_floor(x) == r,
{
    assert(exists|q: int| is_sqrt_floor(x, q));
    let c = sqrt_floor(x);
    assert(is_sqrt_floor(x, c));
    if c != r {
        assert(false) by (nonlinear_arith)
            requires
                0 <= c,
                c * c <= x,
                x < (c + 1) * (c + 1),
                0 <= r,
                r * r <= x,
                x < (r + 1) * (r + 1),
                c != r,
        ;
    }
}

/// Series terms needed for `len` digits, before rounding to chunks.
pub open spec fn need_iters(len: int) -> int {
    len * 1_000_000_000 / 14_181_647_463 + 1
}

/// Leaf chunks needed for `len` digits: `need_iters` rounded up to a
/// whole number of chunks.
pub open spec fn chunk_count(len: int) -> int {
    if need_iters(len) % 10_000 == 0 {
        need_iters(len) / 10_000
    } else {
        need_iters(len) / 10_000 + 1
    }
}

/// Series terms actually evaluated for `len` digits.
pub open spec fn terms_for(len: int) -> int {
    chunk_count(len) * 10_000
}

/// The digits of pi that the assembly step yields from the combined
/// triple over [0, k) at a precision of n digits: the truncated square
/// root of 10005 * 10^(2n), times 426880, times Q, divided by T, with
/// one guard digit dropped.
pub open spec fn pi_approx(n: int, k: nat) -> int {
    sqrt_floor(10005 * pow(10, (2 * n) as nat)) * 426880 * q_prod(0, k) / t_sum(0, k) / 10
}

/// At least one term, hence one chunk, is used for any positive length.
proof fn lemma_terms_pos(len: int)
    requires
        len >= 0,
    ensures
        need_iters(len) >= 1,
        chunk_count(len) >= 1,
        terms_for(len) >= 10_000,
{
    lemma_div_pos_is_pos(len * 1_000_000_000, 14_181_647_463);
    assert(len * 1_000_000_000 >= 0) by (nonlinear_arith)
        requires
            len >= 0,
    ;
    let ni = need_iters(len);
    if ni % 10_000 == 0 {
        lemma_fundamental_div_mod(ni, 10_000);
        if ni / 10_000 < 1 {
            lemma_div_pos_is_pos(ni, 10_000);
            assert(ni == 10_000 * (ni / 10_000));
            assert(ni == 0);
        }
    }
    assert(chunk_count(len) * 10_000 >= 1 * 10_000) by (nonlinear_arith)
        requires
            chunk_count(len) >= 1,
    ;
}

/// Bound on the iteration count for a 32-bit digit request: it always
/// fits comfortably below 2^32.
proof fn lemma_need_iters_bound(len: int)
    requires
        0 <= len <= 0xFFFF_FFFF,
    ensures
        need_iters(len) <= 429_496_730,
        chunk_count(len) <= 42_951,
        terms_for(len) <= 429_510_000,
{
    let x = len * 1_000_000_000;
    assert(x <= 4_294_967_295_000_000_000) by (nonlinear_arith)
        requires
            len <= 0xFFFF_FFFF,
            x == len * 1_000_000_000,
    ;
    assert(x >= 0) by (nonlinear_arith)
        requires
            len >= 0,
            x == len * 1_000_000_000,
    ;
    lemma_div_is_ordered_by_denominator(x, 10_000_000_000, 14_181_647_463);
    lemma_div_is_ordered(x, 4_294_967_295_000_000_000, 10_000_000_000);
    assert(4_294_967_295_000_000_000int / 10_000_000_000int == 429_496_729);
    let ni = need_iters(len);
    lemma_div_is_ordered(ni, 429_496_730, 10_000);
    assert(429_496_730int / 10_000int == 42_949);
    assert(chunk_count(len) <= 42_950);
    assert(chunk_count(len) * 10_000 <= 42_951 * 10_000) by (nonlinear_arith)
        requires
            chunk_count(len) <= 42_951,
    ;
}

/// Rounding up a positive gap to whole strides: the quotient covers the
/// gap, and one stride less does not.
proof fn lemma_ceil_div(g: int, step: int)
    requires
        g >= 1,
        step >= 1,
    ensures
        (g + step - 1) / step >= 1,
        ((g + step - 1) / step) * step >= g,
        (((g + step - 1) / step) - 1) * step < g,
{
    let c = (g + step - 1) / step;
    lemma_fundamental_div_mod(g + step - 1, step);
    lemma_mod_bound(g + step - 1, step);
    lemma_mul_is_commutative(step, c);
    lemma_mul_is_distributive_sub_other_way(step, c, 1);
    if c < 1 {
        assert(step * c <= 0) by (nonlinear_arith)
            requires
                step >= 1,
                c <= 0,
        ;
    }
}

/// A multiple of `step * c` is a multiple of `step`.
proof fn lemma_mod_coarse_to_fine(j: int, step: int, c: int)
    requires
        j >= 0,
        step >= 1,
        c >= 1,
        j % (step * c) == 0,
    ensures
        j % step == 0,
{
    lemma_mod_breakdown(j, step, c);
    lemma_mod_bound(j, step);
    lemma_div_pos_is_pos(j, step);
    lemma_mod_bound(j / step, c);
    assert(step * ((j / step) % c) >= 0) by (nonlinear_arith)
        requires
            step >= 1,
            (j / step) % c >= 0,
    ;
}

/// Shifting by a multiple of `step` does not change residues.
proof fn lemma_offset_mod(base: int, d: int, step: int)
    requires
        base >= 0,
        step >= 1,
        base % step == 0,
    ensures
        (base + d) % step == d % step,
{
    lemma_fundamental_div_mod(base, step);
    lemma_mod_multiples_vanish(base / step, d, step);
}

/// A positive multiple of `step` is at least `step`.
proof fn lemma_gap_at_least(d: int, step: int)
    requires
        d > 0,
        step >= 1,
        d % step == 0,
    ensures
        d >= step,
{
    lemma_fundamental_div_mod(d, step);
    lemma_div_pos_is_pos(d, step);
    if d / step == 0 {
        assert(d == step * 0 + 0);
    }
    assert(step * (d / step) >= step * 1) by (nonlinear_arith)
        requires
            step >= 1,
            d / step >= 1,
    ;
}

/// A multiple of `step` below `cnt * step` has quotient below `cnt`.
proof fn lemma_div_below(d: int, step: int, cnt: int)
    requires
        0 <= d,
        step >= 1,
        d < cnt * step,
        d % step == 0,
    ensures
        d / step < cnt,
        d == (d / step) * step,
    decreases 0int,
{
    lemma_fundamental_div_mod(d, step);
    lemma_mul_is_commutative(step, d / step);
    if d / step >= cnt {
        lemma_mul_inequality(cnt, d / step, step);
    }
}

/// End of the segment a surviving slot `j` covers at stride `step` in an
/// array of `m` chunks.
pub open spec fn seg_end(j: int, step: int, m: int) -> int {
    if j + step <= m {
        j + step
    } else {
        m
    }
}

/// Binary-splitting engine with a one-deep cache: after `pre_calc`, the
/// fields hold the combined triple over all terms chosen for the cached
/// precision.
pub struct PiCalc {
    p: num_bigint::BigInt,
    q: num_bigint::BigInt,
    t: num_bigint::BigInt,
    current_len: u32,
}

impl PiCalc {
    /// The digit count the cached triple was built for (0 if none).
    pub closed spec fn len_spec(self) -> u32 {
        self.current_len
    }

    /// The cache is coherent: either empty, or the triple over
    /// [0, terms_for(current_len)).
    pub closed spec fn wf(self) -> bool {
        &&& self.current_len == 0 ==> big(self.p) == 0 && big(self.q) == 0 && big(self.t) == 0
        &&& self.current_len > 0 ==> {
            &&& big(self.p) == p_prod(0, terms_for(self.current_len as int) as nat)
            &&& big(self.q) == q_prod(0, terms_for(self.current_len as int) as nat)
            &&& big(self.t) == t_sum(0, terms_for(self.current_len as int) as nat)
        }
    }

    /// A fresh engine with an empty cache.
    pub fn new() -> (r: Self)
        ensures
            r.wf(),
            r.len_spec() == 0,
    {
        PiCalc { p: big_zero(), q: big_zero(), t: big_zero(), current_len: 0 }
    }

    /// The scaled square root: the truncated square root of
    /// 10005 * 10^(2 * len), computed as 5^(2 len) shifted left 2 len
    /// bits, times 10005.
    fn start_s_calc(len: u32) -> (s: num_bigint::BigInt)
        requires
            len <= 0x7FFF_FFFF,
        ensures
            big(s) == sqrt_floor(10005 * pow(10, (2 * len) as nat)),
            big(s) >= 0,
    {
        let e: u32 = 2 * len;
        let f = big_pow_u64(5, e);
        let sh = big_shl(&f, e);
        let x = big_mul_u64(&sh, 10005);
        proof {
            lemma_pow_distributes(5, 2, e as nat);
            lemma_pow_positive(5, e as nat);
            lemma_pow_positive(2, e as nat);
            lemma_mul_nonnegative(pow(5, e as nat), pow(2, e as nat));
            assert(big(x) == pow(10, e as nat) * 10005);
            assert(pow(10, e as nat) * 10005 >= 0) by (nonlinear_arith)
                requires
                    pow(10, e as nat) >= 0,
            ;
        }
        let s = big_sqrt(&x);
        proof {
            lemma_sqrt_floor_is(10005 * pow(10, (2 * len) as nat), big(s));
        }
        s
    }

    /// Returns the first `len` decimal digits of pi as one integer
    /// (3, 31 -> no: 3, 3141..., of exactly `len` digits), reusing the
    /// cached triple when it already covers the request.  `len` = 0
    /// yields 0.
    pub fn get_pi(&mut self, len: u32) -> (r: num_bigint::BigInt)
        requires
            old(self).wf(),
            len <= 0x7FFF_FFFF,
        ensures
            final(self).wf(),
            final(self).len_spec() == (if len > old(self).len_spec() {
                len
            } else {
                old(self).len_spec()
            }),
            len <= old(self).len_spec() ==> *final(self) == *old(self),
            len == 0 ==> big(r) == 0,
            len >= 1 ==> big(r) == pi_approx(len as int, terms_for(final(self).len_spec() as int) as nat),
    {
        let s = Self::start_s_calc(len);

        if len == 0 {
            return big_zero();
        }
        if len > self.current_len {
            self.pre_calc(len);
        }
        proof {
            lemma_terms_pos(self.current_len as int);
            lemma_t_sum_head_pos(terms_for(self.current_len as int) as nat);
            lemma_q_prod_pos(0, terms_for(self.current_len as int) as nat);
        }
        let num = big_mul(&big_mul_u64(&s, 426880), &self.q);
        proof {
            lemma_mul_nonnegative(big(s) * 426880, big(self.q));
        }
        let quot = big_div(&num, &self.t);
        proof {
            lemma_div_pos_is_pos(big(num), big(self.t));
        }
        let ten = big_from_u64(10);
        let r = big_div(&quot, &ten);
        r
    }

    /// Fills the cache for `len` digits unless it already covers them:
    /// generates per-chunk leaf triples, then reduces them to one triple
    /// by stride doubling, recomputing from term 0.
    #[verifier::rlimit(100)]
    pub fn pre_calc(&mut self, len: u32)
        requires
            old(self).wf(),
        ensures
            final(self).wf(),
            final(self).len_spec() == (if len > old(self).len_spec() {
                len
            } else {
                old(self).len_spec()
            }),
            len <= old(self).len_spec() ==> *final(self) == *old(self),
    {
        if len == 0 || len <= self.current_len {
            return ;
        }
        proof {
            lemma_need_iters_bound(len as int);
            lemma_terms_pos(len as int);
        }
        let ni_u64: u64 = (len as u64) * DIGITS_SCALE / DIGITS_PER_ITER + 1;
        let ni: usize = ni_u64 as usize;
        let m: usize = if ni % LEAF_LEN == 0 {
            ni / LEAF_LEN
        } else {
            ni / LEAF_LEN + 1
        };
        proof {
            assert(ni == need_iters(len as int));
            assert(m == chunk_count(len as int));
        }

        // Phase A: one combined triple per leaf chunk.
        let mut sum_p: Vec<num_bigint::BigInt> = Vec::new();
        let mut sum_q: Vec<num_bigint::BigInt> = Vec::new();
        let mut sum_t: Vec<num_bigint::BigInt> = Vec::new();
        let mut ci: usize = 0;
        while ci < m
            invariant
                ci <= m,
                1 <= m <= 42_951,
                sum_p@.len() == ci,
                sum_q@.len() == ci,
                sum_t@.len() == ci,
                forall|j: int| 0 <= j < ci ==> big(#[trigger] sum_p@[j]) == p_prod(
                    j * 10_000,
                    10_000,
                ),
                forall|j: int| 0 <= j < ci ==> big(#[trigger] sum_q@[j]) == q_prod(
                    j * 10_000,
                    10_000,
                ),
                forall|j: int| 0 <= j < ci ==> big(#[trigger] sum_t@[j]) == t_sum(
                    j * 10_000,
                    10_000,
                ),
            decreases m - ci,
        {
            proof {
                lemma_mul_inequality(ci as int, 42_950, 10_000);
            }
            let start_i: u32 = (ci * 10_000) as u32;
            let mut v_p = calc_p(start_i, LEAF_LEN);
            let mut v_q = calc_q(start_i, LEAF_LEN);
            let mut v_t = calc_t(start_i, LEAF_LEN, &v_p);
            calc_sum(&mut v_p, &mut v_q, &mut v_t, start_i);
            sum_p.push(big_clone(&v_p[0]));
            sum_q.push(big_clone(&v_q[0]));
            sum_t.push(big_clone(&v_t[0]));
            ci += 1;
        }

        // Phase B: tree reduction with stride doubling by the fan-in.
        let chunk_sz: usize = if LEAF_LEN % 0x100 == 0 {
            LEAF_LEN / 0x100
        } else {
            LEAF_LEN / 0x100 + 1
        };
        assert(chunk_sz == 40);
        let mut step: usize = 1;
        while m > step
            invariant
                1 <= step,
                1 <= m <= 42_951,
                chunk_sz == 40,
                sum_p@.len() == m,
                sum_q@.len() == m,
                sum_t@.len() == m,
                forall|j: int|
                    0 <= j < m && j % (step as int) == 0 ==> big(#[trigger] sum_p@[j]) == p_prod(
                        j * 10_000,
                        ((seg_end(j, step as int, m as int) - j) * 10_000) as nat,
                    ),
                forall|j: int|
                    0 <= j < m && j % (step as int) == 0 ==> big(#[trigger] sum_q@[j]) == q_prod(
                        j * 10_000,
                        ((seg_end(j, step as int, m as int) - j) * 10_000) as nat,
                    ),
                forall|j: int|
                    0 <= j < m && j % (step as int) == 0 ==> big(#[trigger] sum_t@[j]) == t_sum(
                        j * 10_000,
                        ((seg_end(j, step as int, m as int) - j) * 10_000) as nat,
                    ),
                forall|j: int|
                    0 <= j < m && j % (step as int) != 0 ==> big(#[trigger] sum_p@[j]) == 0,
                forall|j: int|
                    0 <= j < m && j % (step as int) != 0 ==> big(#[trigger] sum_q@[j]) == 0,
                forall|j: int|
                    0 <= j < m && j % (step as int) != 0 ==> big(#[trigger] sum_t@[j]) == 0,
            decreases (if (step as int) < m { m - step } else { 0int }),
        {
            let bs: usize = step * chunk_sz;
            let mut base: usize = 0;
            while base < m
                invariant
                    1 <= step < m <= 42_951,
                    chunk_sz == 40,
                    bs == step * chunk_sz,
                    base % bs == 0,
                    base <= m + bs,
                    sum_p@.len() == m,
                    sum_q@.len() == m,
                    sum_t@.len() == m,
                    forall|j: int|
                        0 <= j < m && j < base && j % (bs as int) == 0 ==> big(
                            #[trigger] sum_p@[j],
                        ) == p_prod(
                            j * 10_000,
                            ((seg_end(j, bs as int, m as int) - j) * 10_000) as nat,
                        ),
                    forall|j: int|
                        0 <= j < m && j < base && j % (bs as int) == 0 ==> big(
                            #[trigger] sum_q@[j],
                        ) == q_prod(
                            j * 10_000,
                            ((seg_end(j, bs as int, m as int) - j) * 10_000) as nat,
                        ),
                    forall|j: int|
                        0 <= j < m && j < base && j % (bs as int) == 0 ==> big(
                            #[trigger] sum_t@[j],
                        ) == t_sum(
                            j * 10_000,
                            ((seg_end(j, bs as int, m as int) - j) * 10_000) as nat,
                        ),
                    forall|j: int|
                        0 <= j < m && j < base && j % (bs as int) != 0 ==> big(
                            #[trigger] sum_p@[j],
                        ) == 0,
                    forall|j: int|
                        0 <= j < m && j < base && j % (bs as int) != 0 ==> big(
                            #[trigger] sum_q@[j],
                        ) == 0,
                    forall|j: int|
                        0 <= j < m && j < base && j % (bs as int) != 0 ==> big(
                            #[trigger] sum_t@[j],
                        ) == 0,
                    forall|j: int|
                        base <= j < m && j % (step as int) == 0 ==> big(#[trigger] sum_p@[j])
                            == p_prod(
                            j * 10_000,
                            ((seg_end(j, step as int, m as int) - j) * 10_000) as nat,
                        ),
                    forall|j: int|
                        base <= j < m && j % (step as int) == 0 ==> big(#[trigger] sum_q@[j])
                            == q_prod(
                            j * 10_000,
                            ((seg_end(j, step as int, m as int) - j) * 10_000) as nat,
                        ),
                    forall|j: int|
                        base <= j < m && j % (step as int) == 0 ==> big(#[trigger] sum_t@[j])
                            == t_sum(
                            j * 10_000,
                            ((seg_end(j, step as int, m as int) - j) * 10_000) as nat,
                        ),
                    forall|j: int|
                        base <= j < m && j % (step as int) != 0 ==> big(#[trigger] sum_p@[j]) == 0,
                    forall|j: int|
                        base <= j < m && j % (step as int) != 0 ==> big(#[trigger] sum_q@[j]) == 0,
                    forall|j: int|
                        base <= j < m && j % (step as int) != 0 ==> big(#[trigger] sum_t@[j]) == 0,
                decreases (if (base as int) < m { m - base } else { 0int }),
            {
                let end: usize = if base + bs <= m {
                    base + bs
                } else {
                    m
                };
                let g: usize = end - base;
                let cnt: usize = (g + step - 1) / step;
                proof {
                    lemma_ceil_div(g as int, step as int);
                    lemma_mod_coarse_to_fine(base as int, step as int, chunk_sz as int);
                }
                let ghost bseq = Seq::new(
                    (cnt + 1) as nat,
                    |idx: int|
                        (if base + idx * step <= m {
                            base + idx * step
                        } else {
                            m as int
                        }) * 10_000,
                );
                let ghost hp = sum_p@;
                let ghost hq = sum_q@;
                let ghost ht = sum_t@;
                proof {
                    // the bound entries are sorted
                    assert forall|k: int| 0 <= k < cnt implies #[trigger] bseq[k] <= bseq[k + 1] by {
                        lemma_mul_inequality(k, k + 1, step as int);
                    }
                    assert(0 * step == 0) by (nonlinear_arith);
                    assert(bseq[0] == base * 10_000);
                    // each touched slot holds the level-`step` triple of its segment
                    assert forall|i: int| 0 <= i < cnt implies big(#[trigger] hp[base + i * step])
                        == p_prod(bseq[i], (bseq[i + 1] - bseq[i]) as nat) by {
                        lemma_mul_inequality(i, cnt - 1, step as int);
                        lemma_mod_multiples_basic(i, step as int);
                        lemma_offset_mod(base as int, i * step, step as int);
                        lemma_mul_is_distributive_add_other_way(step as int, i, 1);
                        let j = base + i * step;
                        assert(j < m && j % (step as int) == 0);
                        assert(bseq[i] == j * 10_000);
                        assert(bseq[i + 1] == seg_end(j, step as int, m as int) * 10_000);
                        assert(big(hp[j]) == p_prod(
                            j * 10_000,
                            ((seg_end(j, step as int, m as int) - j) * 10_000) as nat,
                        ));
                    }
                    assert forall|i: int| 0 <= i < cnt implies big(#[trigger] hq[base + i * step])
                        == q_prod(bseq[i], (bseq[i + 1] - bseq[i]) as nat) by {
                        lemma_mul_inequality(i, cnt - 1, step as int);
                        lemma_mod_multiples_basic(i, step as int);
                        lemma_offset_mod(base as int, i * step, step as int);
                        lemma_mul_is_distributive_add_other_way(step as int, i, 1);
                        let j = base + i * step;
                        assert(j < m && j % (step as int) == 0);
                        assert(bseq[i] == j * 10_000);
                        assert(bseq[i + 1] == seg_end(j, step as int, m as int) * 10_000);
                        assert(big(hq[j]) == q_prod(
                            j * 10_000,
                            ((seg_end(j, step as int, m as int) - j) * 10_000) as nat,
                        ));
                    }
                    assert forall|i: int| 0 <= i < cnt implies big(#[trigger] ht[base + i * step])
                        == t_sum(bseq[i], (bseq[i + 1] - bseq[i]) as nat) by {
                        lemma_mul_inequality(i, cnt - 1, step as int);
                        lemma_mod_multiples_basic(i, step as int);
                        lemma_offset_mod(base as int, i * step, step as int);
                        lemma_mul_is_distributive_add_other_way(step as int, i, 1);
                        let j = base + i * step;
                        assert(j < m && j % (step as int) == 0);
                        assert(bseq[i] == j * 10_000);
                        assert(bseq[i + 1] == seg_end(j, step as int, m as int) * 10_000);
                        assert(big(ht[j]) == t_sum(
                            j * 10_000,
                            ((seg_end(j, step as int, m as int) - j) * 10_000) as nat,
                        ));
                    }
                    lemma_mul_is_commutative(step as int, chunk_sz as int);
                    if base + bs <= m {
                        // a full group: exactly chunk_sz survivors
                        vstd::arithmetic::div_mod::lemma_fundamental_div_mod_converse(
                            (g + step - 1) as int,
                            step as int,
                            chunk_sz as int,
                            step as int - 1,
                        );
                        assert(cnt == chunk_sz);
                    }
                    assert(cnt * step >= g);
                    assert(bseq[cnt as int] == (end as int) * 10_000);
                }
                calc_sum2(&mut sum_p, &mut sum_q, &mut sum_t, base, step, cnt, Ghost(bseq));
                proof {
                    let bi = base as int;
                    let si = step as int;
                    let bsi = bs as int;
                    let mi = m as int;
                    let ei = end as int;
                    // classify every index for the next-level invariants
                    assert forall|j: int| 0 <= j < mi && j < bi + bsi && j % bsi == 0 implies big(
                        #[trigger] sum_p@[j],
                    ) == p_prod(j * 10_000, ((seg_end(j, bsi, mi) - j) * 10_000) as nat) by {
                        if j < bi {
                            assert(!slot_of(bi, si, cnt as int, j));
                            assert(sum_p@[j] == hp[j]);
                        } else {
                            lemma_offset_mod(bi, j - bi, bsi);
                            lemma_small_mod((j - bi) as nat, bsi as nat);
                            assert(j == bi);
                            assert(seg_end(bi, bsi, mi) == ei);
                            assert(big(sum_p@[bi]) == p_prod(
                                bseq[0],
                                (bseq[cnt as int] - bseq[0]) as nat,
                            ));
                        }
                    }
                    assert forall|j: int| 0 <= j < mi && j < bi + bsi && j % bsi == 0 implies big(
                        #[trigger] sum_q@[j],
                    ) == q_prod(j * 10_000, ((seg_end(j, bsi, mi) - j) * 10_000) as nat) by {
                        if j < bi {
                            assert(!slot_of(bi, si, cnt as int, j));
                            assert(sum_q@[j] == hq[j]);
                        } else {
                            lemma_offset_mod(bi, j - bi, bsi);
                            lemma_small_mod((j - bi) as nat, bsi as nat);
                            assert(j == bi);
                            assert(seg_end(bi, bsi, mi) == ei);
                            assert(big(sum_q@[bi]) == q_prod(
                                bseq[0],
                                (bseq[cnt as int] - bseq[0]) as nat,
                            ));
                        }
                    }
                    assert forall|j: int| 0 <= j < mi && j < bi + bsi && j % bsi == 0 implies big(
                        #[trigger] sum_t@[j],
                    ) == t_sum(j * 10_000, ((seg_end(j, bsi, mi) - j) * 10_000) as nat) by {
                        if j < bi {
                            assert(!slot_of(bi, si, cnt as int, j));
                            assert(sum_t@[j] == ht[j]);
                        } else {
                            lemma_offset_mod(bi, j - bi, bsi);
                            lemma_small_mod((j - bi) as nat, bsi as nat);
                            assert(j == bi);
                            assert(seg_end(bi, bsi, mi) == ei);
                            assert(big(sum_t@[bi]) == t_sum(
                                bseq[0],
                                (bseq[cnt as int] - bseq[0]) as nat,
                            ));
                        }
                    }
                    assert forall|j: int| 0 <= j < mi && j < bi + bsi && j % bsi != 0 implies big(
                        #[trigger] sum_p@[j],
                    ) == 0 by {
                        if j < bi {
                            assert(!slot_of(bi, si, cnt as int, j));
                            assert(sum_p@[j] == hp[j]);
                        } else {
                            let d = j - bi;
                            lemma_offset_mod(bi, d, bsi);
                            lemma_small_mod(d as nat, bsi as nat);
                            assert(d != 0);
                            assert(j < ei);
                            lemma_offset_mod(bi, d, si);
                            if j % si == 0 {
                                lemma_div_below(d, si, cnt as int);
                                lemma_gap_at_least(d, si);
                                let i = d / si;
                                assert(j == bi + i * si);
                                assert(i >= 1) by {
                                    if i == 0 {
                                        assert(d == 0 * si);
                                        assert(0 * si == 0) by (nonlinear_arith);
                                    }
                                };
                                assert(big(sum_p@[bi + i * si]) == 0);
                            } else {
                                assert(!slot_of(bi, si, cnt as int, j));
                                assert(sum_p@[j] == hp[j]);
                            }
                        }
                    }
                    assert forall|j: int| 0 <= j < mi && j < bi + bsi && j % bsi != 0 implies big(
                        #[trigger] sum_q@[j],
                    ) == 0 by {
                        if j < bi {
                            assert(!slot_of(bi, si, cnt as int, j));
                            assert(sum_q@[j] == hq[j]);
                        } else {
                            let d = j - bi;
                            lemma_offset_mod(bi, d, bsi);
                            lemma_small_mod(d as nat, bsi as nat);
                            assert(d != 0);
                            assert(j < ei);
                            lemma_offset_mod(bi, d, si);
                            if j % si == 0 {
                                lemma_div_below(d, si, cnt as int);
                                lemma_gap_at_least(d, si);
                                let i = d / si;
                                assert(j == bi + i * si);
                                assert(i >= 1) by {
                                    if i == 0 {
                                        assert(d == 0 * si);
                                        assert(0 * si == 0) by (nonlinear_arith);
                                    }
                                };
                                assert(big(sum_q@[bi + i * si]) == 0);
                            } else {
                                assert(!slot_of(bi, si, cnt as int, j));
                                assert(sum_q@[j] == hq[j]);
                            }
                        }
                    }
                    assert forall|j: int| 0 <= j < mi && j < bi + bsi && j % bsi != 0 implies big(
                        #[trigger] sum_t@[j],
                    ) == 0 by {
                        if j < bi {
                            assert(!slot_of(bi, si, cnt as int, j));
                            assert(sum_t@[j] == ht[j]);
                        } else {
                            let d = j - bi;
                            lemma_offset_mod(bi, d, bsi);
                            lemma_small_mod(d as nat, bsi as nat);
                            assert(d != 0);
                            assert(j < ei);
                            lemma_offset_mod(bi, d, si);
                            if j % si == 0 {
                                lemma_div_below(d, si, cnt as int);
                                lemma_gap_at_least(d, si);
                                let i = d / si;
                                assert(j == bi + i * si);
                                assert(i >= 1) by {
                                    if i == 0 {
                                        assert(d == 0 * si);
                                        assert(0 * si == 0) by (nonlinear_arith);
                                    }
                                };
                                assert(big(sum_t@[bi + i * si]) == 0);
                            } else {
                                assert(!slot_of(bi, si, cnt as int, j));
                                assert(sum_t@[j] == ht[j]);
                            }
                        }
                    }
                    assert forall|j: int| bi + bsi <= j < mi implies sum_p@[j] == hp[j] && sum_q@[j]
                        == hq[j] && sum_t@[j] == ht[j] by {
                        assert(cnt * step <= bsi);
                        assert(!slot_of(bi, si, cnt as int, j));
                    }
                }
                proof {
                    lemma_offset_mod(base as int, bs as int, bs as int);
                    vstd::arithmetic::div_mod::lemma_mod_self_0(bs as int);
                }
                base = base + bs;
            }
            proof {
                assert(bs == step * 40);
            }
            step = bs;
        }
        proof {
            lemma_small_mod(0nat, step as nat);
            assert(big(sum_p@[0]) == p_prod(
                0int * 10_000,
                ((seg_end(0, step as int, m as int) - 0) * 10_000) as nat,
            ));
            assert(0int * 10_000 == 0);
            assert(seg_end(0, step as int, m as int) == m);
        }
        self.p = big_clone(&sum_p[0]);
        self.q = big_clone(&sum_q[0]);
        self.t = big_clone(&sum_t[0]);
        self.current_len = len;
    }
}

/// Computes the first `len` decimal digits of pi as one integer, with a
/// fresh engine.
pub fn compute_pi(len: u32) -> (r: num_bigint::BigInt)
    requires
        len <= 0x7FFF_FFFF,
    ensures
        len == 0 ==> big(r) == 0,
        len >= 1 ==> big(r) == pi_approx(len as int, terms_for(len as int) as nat),
{
    let mut calc = PiCalc::new();
    calc.get_pi(len)
}

} // verus!
