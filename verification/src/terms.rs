//! Block generators for the three Chudnovsky sequences: each produces
//! the values P(k), Q(k) or T(k) for k in [start, start + len) by an
//! incremental recurrence instead of re-evaluating the closed form.

use vstd::prelude::*;
use crate::bigint::{
    big, big_add, big_add_u64, big_from_i64, big_from_u64, big_mul, big_mul_u64, big_neg,
    big_sub_u64,
};
use crate::series::{a_term, p_term, q_term, t_term, Q_SCALE};
use vstd::arithmetic::mul::lemma_mul_is_commutative;

verus! {

/// The raw three-factor product of the P recurrence, before index 0 is
/// special-cased to 1.
pub open spec fn p_raw(k: int) -> int {
    (6 * k - 5) * (2 * k - 1) * (6 * k - 1)
}

/// The cube k^3.
pub open spec fn cube(k: int) -> int {
    k * k * k
}

/// Generates P(start), ..., P(start + len - 1) by keeping the three
/// linear factors as running values and bumping each by its stride.
pub fn calc_p(start: u32, len: usize) -> (r: Vec<num_bigint::BigInt>)
    ensures
        r@.len() == len,
        forall|i: int| 0 <= i < len ==> big(r@[i]) == p_term(start + i),
{
    if len == 0 {
        return Vec::new();
    }
    let mut a = big_from_i64(6 * (start as i64) - 5);
    let mut b = big_from_i64(2 * (start as i64) - 1);
    let mut c = big_from_i64(6 * (start as i64) - 1);
    let mut ret: Vec<num_bigint::BigInt> = Vec::new();
    ret.push(big_mul(&big_mul(&a, &b), &c));

    let mut i: usize = 1;
    while i < len
        invariant
            1 <= i <= len,
            ret@.len() == i,
            big(a) == 6 * (start + i - 1) - 5,
            big(b) == 2 * (start + i - 1) - 1,
            big(c) == 6 * (start + i - 1) - 1,
            forall|j: int| 0 <= j < i ==> big(ret@[j]) == p_raw(start + j),
        decreases len - i,
    {
        a = big_add_u64(&a, 6);
        b = big_add_u64(&b, 2);
        c = big_add_u64(&c, 6);
        let x = big_mul(&big_mul(&a, &b), &c);
        ret.push(x);
        i += 1;
    }

    if start == 0 {
        ret[0] = big_from_u64(1);
    }
    proof {
        assert forall|j: int| 0 <= j < len implies big(ret@[j]) == p_term(start + j) by {
            if start + j != 0 {
                assert(p_term(start + j) == p_raw(start + j));
            }
        }
    }
    ret
}

/// Generates Q(start), ..., Q(start + len - 1): emits the cubes by the
/// difference recurrence k^3 = (k-1)^3 + 3k(k-1) + 1, scales every
/// element by 640320^3 / 24, then special-cases index 0.
pub fn calc_q(start: u32, len: usize) -> (r: Vec<num_bigint::BigInt>)
    ensures
        r@.len() == len,
        forall|i: int| 0 <= i < len ==> big(r@[i]) == q_term(start + i),
{
    if len == 0 {
        return Vec::new();
    }
    let s = big_from_u64(start as u64);
    let mut ret: Vec<num_bigint::BigInt> = Vec::new();
    ret.push(big_mul(&big_mul(&s, &s), &s));

    let mut k = big_from_u64(start as u64 + 1);
    let mut i: usize = 1;
    while i < len
        invariant
            1 <= i <= len,
            ret@.len() == i,
            big(k) == start + i,
            forall|j: int| 0 <= j < i ==> big(ret@[j]) == cube(start + j),
        decreases len - i,
    {
        let t1 = big_sub_u64(&k, 1);
        let t2 = big_mul(&t1, &k);
        let t3 = big_mul_u64(&t2, 3);
        let t4 = big_add_u64(&t3, 1);
        let x = big_add(&t4, &ret[i - 1]);
        proof {
            let m: int = start + i;
            assert(((m - 1) * m) * 3 + 1 + ((m - 1) * (m - 1)) * (m - 1) == (m * m) * m)
                by (nonlinear_arith);
        }
        ret.push(x);
        k = big_add_u64(&k, 1);
        i += 1;
    }

    let mut i2: usize = 0;
    while i2 < len
        invariant
            i2 <= len,
            ret@.len() == len,
            forall|j: int| 0 <= j < i2 ==> big(ret@[j]) == cube(start + j) * Q_SCALE,
            forall|j: int| i2 <= j < len ==> big(ret@[j]) == cube(start + j),
        decreases len - i2,
    {
        ret[i2] = big_mul_u64(&ret[i2], Q_SCALE);
        i2 += 1;
    }

    if start == 0 {
        ret[0] = big_from_u64(1);
    }
    proof {
        assert forall|j: int| 0 <= j < len implies big(ret@[j]) == q_term(start + j) by {
            if start + j != 0 {
                assert(q_term(start + j) == cube(start + j) * Q_SCALE);
            }
        }
    }
    ret
}

/// Generates T(start), ..., T(start + len - 1) from an already-generated
/// P block: emits the arithmetic progression 13591409 + 545140134*k,
/// multiplies by P(k) in place, and applies the sign (-1)^k.
pub fn calc_t(start: u32, len: usize, v_p: &Vec<num_bigint::BigInt>) -> (r: Vec<
    num_bigint::BigInt,
>)
    requires
        v_p@.len() >= len,
        forall|i: int| 0 <= i < len ==> big(v_p@[i]) == p_term(start + i),
    ensures
        r@.len() == len,
        forall|i: int| 0 <= i < len ==> big(r@[i]) == t_term(start + i),
{
    if len == 0 {
        return Vec::new();
    }
    let a0: u64 = 13591409 + 545140134 * (start as u64);
    let mut ret: Vec<num_bigint::BigInt> = Vec::new();
    ret.push(big_from_u64(a0));

    let mut i: usize = 1;
    while i < len
        invariant
            1 <= i <= len,
            ret@.len() == i,
            forall|j: int| 0 <= j < i ==> big(ret@[j]) == a_term(start + j),
        decreases len - i,
    {
        let x = big_add_u64(&ret[i - 1], 545140134);
        ret.push(x);
        i += 1;
    }

    let is_start_odd = start % 2 == 1;
    let mut i2: usize = 0;
    while i2 < len
        invariant
            i2 <= len,
            ret@.len() == len,
            v_p@.len() >= len,
            is_start_odd == ((start as int) % 2 == 1),
            forall|j: int| 0 <= j < len ==> big(v_p@[j]) == p_term(start + j),
            forall|j: int| 0 <= j < i2 ==> big(ret@[j]) == t_term(start + j),
            forall|j: int| i2 <= j < len ==> big(ret@[j]) == a_term(start + j),
        decreases len - i2,
    {
        let prod = big_mul(&ret[i2], &v_p[i2]);
        let flip = (i2 % 2 == 1) != is_start_odd;
        proof {
            let kk: int = start + i2;
            vstd::arithmetic::div_mod::lemma_add_mod_noop(start as int, i2 as int, 2);
            lemma_mul_is_commutative(a_term(kk), p_term(kk));
            let pa = p_term(kk) * a_term(kk);
            if flip {
                assert(kk % 2 == 1);
                assert(t_term(kk) == pa * (-1));
                assert(pa * (-1) == -pa) by (nonlinear_arith);
            } else {
                assert(kk % 2 == 0);
                assert(t_term(kk) == pa * 1);
            }
        }
        if flip {
            ret[i2] = big_neg(&prod);
        } else {
            ret[i2] = prod;
        }
        i2 += 1;
    }
    ret
}

} // verus!
