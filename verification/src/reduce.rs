//! Combiners: the merge rule for one pair of adjacent triples, the
//! strided combiner that folds survivors spaced `step` apart in place,
//! and the local combiner that folds a block of fresh per-term leaves.

use vstd::prelude::*;
use crate::bigint::{big, big_add, big_mul, big_zero};
use crate::series::{
    lemma_merge, lemma_single, p_prod, p_term, q_prod, q_term, t_sum, t_term,
};
use vstd::arithmetic::div_mod::lemma_mod_multiples_basic;
use vstd::arithmetic::mul::{lemma_mul_inequality, lemma_mul_strict_inequality};

verus! {

/// Merges the adjacent triples (Pl, Ql, Tl) over [a, m) and
/// (Pr, Qr, Tr) over [m, b) into the triple over [a, b):
/// (Pl*Pr, Ql*Qr, Tl*Qr + Tr*Pl).  T is formed first, from the
/// pre-merge P and Q.
pub fn combine(
    pl: &num_bigint::BigInt,
    ql: &num_bigint::BigInt,
    tl: &num_bigint::BigInt,
    pr: &num_bigint::BigInt,
    qr: &num_bigint::BigInt,
    tr: &num_bigint::BigInt,
) -> (r: (num_bigint::BigInt, num_bigint::BigInt, num_bigint::BigInt))
    ensures
        big(r.0) == big(*pl) * big(*pr),
        big(r.1) == big(*ql) * big(*qr),
        big(r.2) == big(*tl) * big(*qr) + big(*tr) * big(*pl),
{
    let t = big_add(&big_mul(tl, qr), &big_mul(tr, pl));
    let p = big_mul(pl, pr);
    let q = big_mul(ql, qr);
    (p, q, t)
}

/// The slots a strided pass touches: the `cnt` indices
/// base, base + step, ..., base + (cnt - 1) * step.
pub open spec fn slot_of(base: int, step: int, cnt: int, j: int) -> bool {
    base <= j < base + cnt * step && (j - base) % step == 0
}

/// Each index base + i * step with i < cnt is a touched slot.
proof fn lemma_in_slots(base: int, step: int, cnt: int, i: int)
    requires
        step >= 1,
        0 <= i < cnt,
    ensures
        slot_of(base, step, cnt, base + i * step),
{
    lemma_mod_multiples_basic(i, step);
    assert(i * step >= 0) by (nonlinear_arith)
        requires
            i >= 0,
            step >= 0,
    ;
    lemma_mul_strict_inequality(i, cnt, step);
}

/// In a nondecreasing bound sequence, earlier entries are at most later
/// ones.
proof fn lemma_bounds_sorted(b: Seq<int>, i: int, j: int)
    requires
        forall|k: int| 0 <= k < b.len() - 1 ==> #[trigger] b[k] <= b[k + 1],
        0 <= i <= j < b.len(),
    ensures
        b[i] <= b[j],
    decreases j - i,
{
    if i < j {
        lemma_bounds_sorted(b, i + 1, j);
    }
}

/// Strided combiner: the slots base, base + step, ..., base + (cnt-1)*step
/// of the three parallel arrays hold triples over the adjacent index
/// ranges [bounds[i], bounds[i+1]).  Scanning right to left, each triple
/// is merged into its left neighbour and its own slot is zeroed.  On
/// return the first slot holds the triple over [bounds[0], bounds[cnt])
/// and every other touched slot is zero; untouched slots are unchanged.
#[verifier::rlimit(100)]
pub(crate) fn calc_sum2(
    v_p: &mut Vec<num_bigint::BigInt>,
    v_q: &mut Vec<num_bigint::BigInt>,
    v_t: &mut Vec<num_bigint::BigInt>,
    base: usize,
    step: usize,
    cnt: usize,
    bounds: Ghost<Seq<int>>,
)
    requires
        step >= 1,
        cnt >= 1,
        base + (cnt - 1) * step < old(v_p)@.len(),
        old(v_q)@.len() == old(v_p)@.len(),
        old(v_t)@.len() == old(v_p)@.len(),
        bounds@.len() == cnt + 1,
        forall|k: int| 0 <= k < cnt ==> #[trigger] bounds@[k] <= bounds@[k + 1],
        0 <= bounds@[0],
        forall|i: int| 0 <= i < cnt ==> big(#[trigger] old(v_p)@[base + i * step]) == p_prod(
            bounds@[i],
            (bounds@[i + 1] - bounds@[i]) as nat,
        ),
        forall|i: int| 0 <= i < cnt ==> big(#[trigger] old(v_q)@[base + i * step]) == q_prod(
            bounds@[i],
            (bounds@[i + 1] - bounds@[i]) as nat,
        ),
        forall|i: int| 0 <= i < cnt ==> big(#[trigger] old(v_t)@[base + i * step]) == t_sum(
            bounds@[i],
            (bounds@[i + 1] - bounds@[i]) as nat,
        ),
    ensures
        final(v_p)@.len() == old(v_p)@.len(),
        final(v_q)@.len() == old(v_q)@.len(),
        final(v_t)@.len() == old(v_t)@.len(),
        big(final(v_p)@[base as int]) == p_prod(bounds@[0], (bounds@[cnt as int] - bounds@[0]) as nat),
        big(final(v_q)@[base as int]) == q_prod(bounds@[0], (bounds@[cnt as int] - bounds@[0]) as nat),
        big(final(v_t)@[base as int]) == t_sum(bounds@[0], (bounds@[cnt as int] - bounds@[0]) as nat),
        forall|i: int| 1 <= i < cnt ==> big(#[trigger] final(v_p)@[base + i * step]) == 0,
        forall|i: int| 1 <= i < cnt ==> big(#[trigger] final(v_q)@[base + i * step]) == 0,
        forall|i: int| 1 <= i < cnt ==> big(#[trigger] final(v_t)@[base + i * step]) == 0,
        forall|j: int|
            0 <= j < final(v_p)@.len() && !slot_of(base as int, step as int, cnt as int, j)
                ==> final(v_p)@[j] == old(v_p)@[j] && final(v_q)@[j] == old(v_q)@[j]
                && final(v_t)@[j] == old(v_t)@[j],
{
    let ghost b = bounds@;
    let nu = v_p.len();
    let ghost n = nu as int;
    let mut i: usize = cnt - 1;
    while i >= 1
        invariant
            0 <= i < cnt,
            step >= 1,
            base + (cnt - 1) * step < n,
            n <= usize::MAX,
            v_p@.len() == n,
            v_q@.len() == n,
            v_t@.len() == n,
            b.len() == cnt + 1,
            forall|k: int| 0 <= k < cnt ==> #[trigger] b[k] <= b[k + 1],
            0 <= b[0],
            // slots left of the scan still hold their pre-merge triples
            forall|k: int| 0 <= k < i ==> big(#[trigger] v_p@[base + k * step]) == p_prod(
                b[k],
                (b[k + 1] - b[k]) as nat,
            ),
            forall|k: int| 0 <= k < i ==> big(#[trigger] v_q@[base + k * step]) == q_prod(
                b[k],
                (b[k + 1] - b[k]) as nat,
            ),
            forall|k: int| 0 <= k < i ==> big(#[trigger] v_t@[base + k * step]) == t_sum(
                b[k],
                (b[k + 1] - b[k]) as nat,
            ),
            // the scan slot holds the merged suffix triple
            big(v_p@[base + i * step]) == p_prod(b[i as int], (b[cnt as int] - b[i as int]) as nat),
            big(v_q@[base + i * step]) == q_prod(b[i as int], (b[cnt as int] - b[i as int]) as nat),
            big(v_t@[base + i * step]) == t_sum(b[i as int], (b[cnt as int] - b[i as int]) as nat),
            // consumed slots are zero
            forall|k: int| i < k < cnt ==> big(#[trigger] v_p@[base + k * step]) == 0,
            forall|k: int| i < k < cnt ==> big(#[trigger] v_q@[base + k * step]) == 0,
            forall|k: int| i < k < cnt ==> big(#[trigger] v_t@[base + k * step]) == 0,
            // untouched slots are unchanged
            forall|j: int|
                0 <= j < n && !slot_of(base as int, step as int, cnt as int, j) ==> v_p@[j] == old(
                    v_p,
                )@[j] && v_q@[j] == old(v_q)@[j] && v_t@[j] == old(v_t)@[j],
        decreases i,
    {
        proof {
            lemma_mul_inequality(i - 1, cnt - 1, step as int);
            lemma_mul_inequality(i as int, cnt - 1, step as int);
            lemma_mul_strict_inequality(i - 1, i as int, step as int);
            lemma_in_slots(base as int, step as int, cnt as int, i - 1);
            lemma_in_slots(base as int, step as int, cnt as int, i as int);
            lemma_bounds_sorted(b, i - 1, i as int);
            lemma_bounds_sorted(b, i as int, cnt as int);
        }
        let jl = base + (i - 1) * step;
        let jr = base + i * step;
        let ghost hp = v_p@;
        let ghost hq = v_q@;
        let ghost ht = v_t@;
        let merged = combine(&v_p[jl], &v_q[jl], &v_t[jl], &v_p[jr], &v_q[jr], &v_t[jr]);
        let (np, nq, nt) = merged;
        v_p[jl] = np;
        v_q[jl] = nq;
        v_t[jl] = nt;
        v_p[jr] = big_zero();
        v_q[jr] = big_zero();
        v_t[jr] = big_zero();
        proof {
            lemma_merge(
                b[i - 1],
                (b[i as int] - b[i - 1]) as nat,
                (b[cnt as int] - b[i as int]) as nat,
            );
            assert forall|k: int| 0 <= k < i - 1 implies big(#[trigger] v_p@[base + k * step])
                == p_prod(b[k], (b[k + 1] - b[k]) as nat) by {
                lemma_mul_strict_inequality(k, i - 1, step as int);
                assert(v_p@[base + k * step] == hp[base + k * step]);
                assert(big(hp[base + k * step]) == p_prod(b[k], (b[k + 1] - b[k]) as nat));
            }
            assert forall|k: int| 0 <= k < i - 1 implies big(#[trigger] v_q@[base + k * step])
                == q_prod(b[k], (b[k + 1] - b[k]) as nat) by {
                lemma_mul_strict_inequality(k, i - 1, step as int);
                assert(v_q@[base + k * step] == hq[base + k * step]);
                assert(big(hq[base + k * step]) == q_prod(b[k], (b[k + 1] - b[k]) as nat));
            }
            assert forall|k: int| 0 <= k < i - 1 implies big(#[trigger] v_t@[base + k * step])
                == t_sum(b[k], (b[k + 1] - b[k]) as nat) by {
                lemma_mul_strict_inequality(k, i - 1, step as int);
                assert(v_t@[base + k * step] == ht[base + k * step]);
                assert(big(ht[base + k * step]) == t_sum(b[k], (b[k + 1] - b[k]) as nat));
            }
            assert forall|k: int| i - 1 < k < cnt implies big(#[trigger] v_p@[base + k * step])
                == 0 by {
                if k > i {
                    lemma_mul_strict_inequality(i as int, k, step as int);
                    lemma_mul_inequality(k, cnt - 1, step as int);
                    assert(v_p@[base + k * step] == hp[base + k * step]);
                }
            }
            assert forall|k: int| i - 1 < k < cnt implies big(#[trigger] v_q@[base + k * step])
                == 0 by {
                if k > i {
                    lemma_mul_strict_inequality(i as int, k, step as int);
                    lemma_mul_inequality(k, cnt - 1, step as int);
                    assert(v_q@[base + k * step] == hq[base + k * step]);
                }
            }
            assert forall|k: int| i - 1 < k < cnt implies big(#[trigger] v_t@[base + k * step])
                == 0 by {
                if k > i {
                    lemma_mul_strict_inequality(i as int, k, step as int);
                    lemma_mul_inequality(k, cnt - 1, step as int);
                    assert(v_t@[base + k * step] == ht[base + k * step]);
                }
            }
        }
        i -= 1;
    }
    proof {
        vstd::arithmetic::mul::lemma_mul_basics(step as int);
        assert(base + 0 * step == base as int);
    }
}

/// Local combiner for one leaf block: the three arrays hold the per-term
/// values P(k), Q(k), T(k) for k in [start, start + len); afterwards
/// slot 0 holds the combined triple over that whole range and every
/// other slot is zero.
#[verifier::rlimit(100)]
pub fn calc_sum(
    v_p: &mut Vec<num_bigint::BigInt>,
    v_q: &mut Vec<num_bigint::BigInt>,
    v_t: &mut Vec<num_bigint::BigInt>,
    start: u32,
)
    requires
        old(v_p)@.len() >= 1,
        old(v_q)@.len() == old(v_p)@.len(),
        old(v_t)@.len() == old(v_p)@.len(),
        forall|i: int| 0 <= i < old(v_p)@.len() ==> big(#[trigger] old(v_p)@[i]) == p_term(
            start + i,
        ),
        forall|i: int| 0 <= i < old(v_p)@.len() ==> big(#[trigger] old(v_q)@[i]) == q_term(
            start + i,
        ),
        forall|i: int| 0 <= i < old(v_p)@.len() ==> big(#[trigger] old(v_t)@[i]) == t_term(
            start + i,
        ),
    ensures
        final(v_p)@.len() == old(v_p)@.len(),
        final(v_q)@.len() == old(v_q)@.len(),
        final(v_t)@.len() == old(v_t)@.len(),
        big(final(v_p)@[0]) == p_prod(start as int, old(v_p)@.len() as nat),
        big(final(v_q)@[0]) == q_prod(start as int, old(v_p)@.len() as nat),
        big(final(v_t)@[0]) == t_sum(start as int, old(v_p)@.len() as nat),
        forall|i: int| 1 <= i < final(v_p)@.len() ==> big(#[trigger] final(v_p)@[i]) == 0,
        forall|i: int| 1 <= i < final(v_q)@.len() ==> big(#[trigger] final(v_q)@[i]) == 0,
        forall|i: int| 1 <= i < final(v_t)@.len() ==> big(#[trigger] final(v_t)@[i]) == 0,
{
    let n = v_p.len();
    let mut i: usize = n - 1;
    proof {
        lemma_single(start + n - 1);
    }
    while i >= 1
        invariant
            0 <= i < n,
            n == v_p@.len(),
            n == v_q@.len(),
            n == v_t@.len(),
            forall|k: int| 0 <= k < i ==> big(#[trigger] v_p@[k]) == p_term(start + k),
            forall|k: int| 0 <= k < i ==> big(#[trigger] v_q@[k]) == q_term(start + k),
            forall|k: int| 0 <= k < i ==> big(#[trigger] v_t@[k]) == t_term(start + k),
            big(v_p@[i as int]) == p_prod(start + i, (n - i) as nat),
            big(v_q@[i as int]) == q_prod(start + i, (n - i) as nat),
            big(v_t@[i as int]) == t_sum(start + i, (n - i) as nat),
            forall|k: int| i < k < n ==> big(#[trigger] v_p@[k]) == 0,
            forall|k: int| i < k < n ==> big(#[trigger] v_q@[k]) == 0,
            forall|k: int| i < k < n ==> big(#[trigger] v_t@[k]) == 0,
        decreases i,
    {
        let jl = i - 1;
        let merged = combine(&v_p[jl], &v_q[jl], &v_t[jl], &v_p[i], &v_q[i], &v_t[i]);
        let (np, nq, nt) = merged;
        v_p[jl] = np;
        v_q[jl] = nq;
        v_t[jl] = nt;
        v_p[i] = big_zero();
        v_q[i] = big_zero();
        v_t[i] = big_zero();
        proof {
            lemma_single(start + jl);
            lemma_merge(start + jl, 1, (n - i) as nat);
        }
        i -= 1;
    }
}

} // verus!
