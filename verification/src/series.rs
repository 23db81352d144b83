//! Mathematical model of the Chudnovsky series: the per-term values
//! P(k), Q(k), T(k), the partial products and sums a triple holds over a
//! contiguous index range, and the laws of the associative merge rule.

use vstd::prelude::*;
use vstd::arithmetic::mul::{
    lemma_mul_is_associative, lemma_mul_is_commutative, lemma_mul_is_distributive_add_other_way,
    lemma_mul_unary_negation,
};

verus! {

/// (a*b + c*d)*e + f*(d*g) == a*(b*e) + (c*e + f*g)*d: the rearrangement
/// behind the associativity of the merge rule, written out once.
proof fn lemma_merge_shuffle(a: int, b: int, c: int, d: int, e: int, f: int, g: int)
    ensures
        (a * b + c * d) * e + f * (d * g) == a * (b * e) + (c * e + f * g) * d,
{
    lemma_mul_is_distributive_add_other_way(e, a * b, c * d);
    lemma_mul_is_associative(a, b, e);
    lemma_mul_is_associative(c, d, e);
    lemma_mul_is_commutative(d, e);
    lemma_mul_is_associative(c, e, d);
    lemma_mul_is_commutative(d, g);
    lemma_mul_is_associative(f, g, d);
    lemma_mul_is_distributive_add_other_way(d, c * e, f * g);
}

/// Scaling constant of the Q sequence: 640320^2 * 26680, that is
/// 640320^3 / 24.
pub const Q_SCALE: u64 = 10_939_058_860_032_000;

/// Linear factor of the T sequence: T(k) carries 13591409 + 545140134*k.
pub open spec fn a_term(k: int) -> int {
    13591409 + 545140134 * k
}

/// P(0) = 1; for k >= 1, P(k) = (6k - 5)(2k - 1)(6k - 1).
pub open spec fn p_term(k: int) -> int {
    if k == 0 {
        1
    } else {
        (6 * k - 5) * (2 * k - 1) * (6 * k - 1)
    }
}

/// Q(0) = 1; for k >= 1, Q(k) = k^3 * (640320^3 / 24).
pub open spec fn q_term(k: int) -> int {
    if k == 0 {
        1
    } else {
        k * k * k * Q_SCALE
    }
}

/// The sign (-1)^k.
pub open spec fn sign_of(k: int) -> int {
    if k % 2 == 0 {
        1
    } else {
        -1
    }
}

/// T(k) = P(k) * (13591409 + 545140134*k) * (-1)^k.
pub open spec fn t_term(k: int) -> int {
    p_term(k) * a_term(k) * sign_of(k)
}

/// Product of P over the index range [s, s + n).
pub open spec fn p_prod(s: int, n: nat) -> int
    decreases n,
{
    if n == 0 {
        1
    } else {
        p_prod(s, (n - 1) as nat) * p_term(s + n - 1)
    }
}

/// Product of Q over the index range [s, s + n).
pub open spec fn q_prod(s: int, n: nat) -> int
    decreases n,
{
    if n == 0 {
        1
    } else {
        q_prod(s, (n - 1) as nat) * q_term(s + n - 1)
    }
}

/// The combined T over the index range [s, s + n): the sum of
/// T(i) * (product of Q right of i) * (product of P left of i),
/// folded with the merge rule.  The empty range yields 0, so that
/// (1, 1, 0) is the identity of the merge.
pub open spec fn t_sum(s: int, n: nat) -> int
    decreases n,
{
    if n == 0 {
        0
    } else {
        t_sum(s, (n - 1) as nat) * q_term(s + n - 1) + t_term(s + n - 1) * p_prod(s, (n - 1) as nat)
    }
}

/// A triple of length one is the per-term triple.
pub proof fn lemma_single(s: int)
    ensures
        p_prod(s, 1) == p_term(s),
        q_prod(s, 1) == q_term(s),
        t_sum(s, 1) == t_term(s),
{
    assert(p_prod(s, 0) == 1);
    assert(q_prod(s, 0) == 1);
    assert(t_sum(s, 0) == 0);
}

/// The merge rule is exact: merging the triple over [s, s + n1) with the
/// triple over [s + n1, s + n1 + n2) by
/// (Pl*Pr, Ql*Qr, Tl*Qr + Tr*Pl) yields the triple over [s, s + n1 + n2).
/// Hence any tree of merges over the same contiguous leaf partition
/// produces the same triple as the flat fold.
pub proof fn lemma_merge(s: int, n1: nat, n2: nat)
    ensures
        p_prod(s, n1 + n2) == p_prod(s, n1) * p_prod(s + n1, n2),
        q_prod(s, n1 + n2) == q_prod(s, n1) * q_prod(s + n1, n2),
        t_sum(s, n1 + n2) == t_sum(s, n1) * q_prod(s + n1, n2) + t_sum(s + n1, n2) * p_prod(s, n1),
    decreases n2,
{
    if n2 == 0 {
        assert(p_prod(s, n1 + 0) == p_prod(s, n1) * 1);
        assert(q_prod(s, n1 + 0) == q_prod(s, n1) * 1);
        assert(t_sum(s, n1 + 0) == t_sum(s, n1) * 1 + 0 * p_prod(s, n1));
    } else {
        let m2 = (n2 - 1) as nat;
        lemma_merge(s, n1, m2);
        let e = s + n1 + n2 - 1;
        let x = p_prod(s, n1);
        let y = p_prod(s + n1, m2);
        let z = p_term(e);
        assert(p_prod(s, n1 + n2) == (x * y) * z);
        assert(p_prod(s + n1, n2) == y * z);
        lemma_mul_is_associative(x, y, z);

        let xq = q_prod(s, n1);
        let yq = q_prod(s + n1, m2);
        let zq = q_term(e);
        assert(q_prod(s, n1 + n2) == (xq * yq) * zq);
        assert(q_prod(s + n1, n2) == yq * zq);
        lemma_mul_is_associative(xq, yq, zq);

        let t1 = t_sum(s, n1);
        let t2 = t_sum(s + n1, m2);
        let te = t_term(e);
        assert(t_sum(s, n1 + n2) == t_sum(s, (n1 + n2 - 1) as nat) * zq + te * p_prod(
            s,
            (n1 + n2 - 1) as nat,
        ));
        assert(t_sum(s, (n1 + n2 - 1) as nat) == t1 * yq + t2 * x);
        assert(p_prod(s, (n1 + n2 - 1) as nat) == x * y);
        assert(t_sum(s + n1, n2) == t2 * zq + te * y);
        lemma_merge_shuffle(t1, yq, t2, x, zq, te, y);
    }
}

/// The merge rule is associative on triples themselves: merging three
/// adjacent triples left-to-right or right-to-left gives the same
/// result, component by component.
pub proof fn lemma_merge_associative(
    p1: int,
    q1: int,
    t1: int,
    p2: int,
    q2: int,
    t2: int,
    p3: int,
    q3: int,
    t3: int,
)
    ensures
        (p1 * p2) * p3 == p1 * (p2 * p3),
        (q1 * q2) * q3 == q1 * (q2 * q3),
        (t1 * q2 + t2 * p1) * q3 + t3 * (p1 * p2) == t1 * (q2 * q3) + (t2 * q3 + t3 * p2) * p1,
{
    lemma_mul_is_associative(p1, p2, p3);
    lemma_mul_is_associative(q1, q2, q3);
    lemma_merge_shuffle(t1, q2, t2, p1, q3, t3, p2);
}

/// Every P term over a non-negative index is at least 1.
pub proof fn lemma_p_term_pos(k: int)
    requires
        k >= 0,
    ensures
        p_term(k) >= 1,
{
    if k >= 1 {
        assert((6 * k - 5) * (2 * k - 1) * (6 * k - 1) >= 1) by (nonlinear_arith)
            requires
                k >= 1,
        ;
    }
}

/// Every Q term over a non-negative index is at least 1.
pub proof fn lemma_q_term_pos(k: int)
    requires
        k >= 0,
    ensures
        q_term(k) >= 1,
{
    if k >= 1 {
        assert(k * k * k * Q_SCALE >= 1) by (nonlinear_arith)
            requires
                k >= 1,
        ;
    }
}

/// A product of P terms over non-negative indices is at least 1.
pub proof fn lemma_p_prod_pos(s: int, n: nat)
    requires
        s >= 0,
    ensures
        p_prod(s, n) >= 1,
    decreases n,
{
    if n > 0 {
        lemma_p_prod_pos(s, (n - 1) as nat);
        lemma_p_term_pos(s + n - 1);
        assert(p_prod(s, (n - 1) as nat) * p_term(s + n - 1) >= 1) by (nonlinear_arith)
            requires
                p_prod(s, (n - 1) as nat) >= 1,
                p_term(s + n - 1) >= 1,
        ;
    }
}

/// Key magnitude inequality of the series: each step of the combined T
/// shrinks, because A(k) * P(k) < A(k-1) * Q(k) for every k >= 1.
proof fn lemma_key(k: int)
    requires
        k >= 1,
    ensures
        a_term(k) * p_term(k) < a_term(k - 1) * q_term(k),
{
    lemma_p_term_pos(k);
    assert(p_term(k) <= 72 * (k * k * k)) by (nonlinear_arith)
        requires
            k >= 1,
    ;
    assert(a_term(k) <= 42 * a_term(k - 1));
    assert(a_term(k) * p_term(k) <= (42 * a_term(k - 1)) * (72 * (k * k * k)))
        by (nonlinear_arith)
        requires
            1 <= a_term(k) <= 42 * a_term(k - 1),
            1 <= p_term(k) <= 72 * (k * k * k),
    ;
    assert((42 * a_term(k - 1)) * (72 * (k * k * k)) < a_term(k - 1) * (k * k * k * Q_SCALE))
        by (nonlinear_arith)
        requires
            a_term(k - 1) >= 1,
            k >= 1,
    ;
}

/// Alternating-sign law for tails that start at s >= 1: the combined T
/// over [s, s + n) has the sign of (-1)^s, and its magnitude is at most
/// that of its leading term, A(s) * P(s) * (product of Q over the rest).
pub proof fn lemma_t_sum_sign(s: int, n: nat)
    requires
        s >= 1,
        n >= 1,
    ensures
        1 <= t_sum(s, n) * sign_of(s),
        t_sum(s, n) * sign_of(s) <= a_term(s) * p_term(s) * q_prod(s + 1, (n - 1) as nat),
    decreases n,
{
    lemma_p_term_pos(s);
    let sg = sign_of(s);
    let pa = p_term(s) * a_term(s);
    assert(sg * sg == 1);
    assert(t_term(s) == pa * sg);
    lemma_mul_is_associative(pa, sg, sg);
    assert(t_term(s) * sg == pa);
    lemma_mul_is_commutative(p_term(s), a_term(s));
    assert(pa >= 1) by (nonlinear_arith)
        requires
            p_term(s) >= 1,
            a_term(s) >= 1,
            pa == p_term(s) * a_term(s),
    ;
    if n == 1 {
        lemma_single(s);
        assert(q_prod(s + 1, 0) == 1);
    } else {
        let m = (n - 1) as nat;
        lemma_t_sum_sign(s + 1, m);
        lemma_merge(s, 1, m);
        lemma_single(s);
        let qr = q_prod(s + 1, m);
        let r = t_sum(s + 1, m);
        assert(t_sum(s, n) == t_term(s) * qr + r * p_term(s));

        // sign_of(s + 1) == -sign_of(s)
        vstd::arithmetic::div_mod::lemma_add_mod_noop(s, 1, 2);
        let sg1 = sign_of(s + 1);
        assert(sg1 == -sg);

        // distribute the sign over the two summands
        lemma_mul_is_distributive_add_other_way(sg, t_term(s) * qr, r * p_term(s));
        lemma_mul_is_commutative(t_term(s), qr);
        lemma_mul_is_associative(qr, t_term(s), sg);
        lemma_mul_is_commutative(qr, t_term(s) * sg);
        assert((t_term(s) * qr) * sg == pa * qr);
        lemma_mul_is_commutative(r, p_term(s));
        lemma_mul_is_associative(p_term(s), r, sg);
        lemma_mul_is_commutative(p_term(s), r * sg);
        assert((r * p_term(s)) * sg == (r * sg) * p_term(s));
        let rho = r * sg1;
        assert(r * sg == -rho) by (nonlinear_arith)
            requires
                sg1 == -sg,
                rho == r * sg1,
        ;
        lemma_mul_unary_negation(rho, p_term(s));
        assert(t_sum(s, n) * sg == pa * qr - rho * p_term(s));

        // split the leading Q factor off the tail product
        lemma_merge(s + 1, 1, (m - 1) as nat);
        lemma_single(s + 1);
        let q2 = q_prod(s + 2, (m - 1) as nat);
        assert(qr == q_term(s + 1) * q2);
        lemma_q_prod_pos(s + 2, (m - 1) as nat);
        lemma_q_term_pos(s + 1);
        lemma_p_term_pos(s + 1);
        lemma_key(s + 1);

        // upper bound: subtracting at least 1 from pa * qr
        assert(rho * p_term(s) >= 1) by (nonlinear_arith)
            requires
                rho >= 1,
                p_term(s) >= 1,
        ;
        lemma_q_prod_pos(s + 1, m);
        assert(pa * qr <= pa * q_prod(s + 1, (n - 1) as nat));
        assert(t_sum(s, n) * sg <= a_term(s) * p_term(s) * q_prod(s + 1, (n - 1) as nat));

        // lower bound: the leading term dominates the whole tail
        assert(pa * qr - rho * p_term(s) >= 1) by (nonlinear_arith)
            requires
                pa == p_term(s) * a_term(s),
                qr == q_term(s + 1) * q2,
                rho <= a_term(s + 1) * p_term(s + 1) * q2,
                a_term(s + 1) * p_term(s + 1) + 1 <= a_term(s) * q_term(s + 1),
                p_term(s) >= 1,
                q2 >= 1,
                q_term(s + 1) >= 1,
                a_term(s) >= 1,
                rho >= 1,
        ;
    }
}

/// Sign law for single terms: T(k) has the sign (-1)^k.
pub proof fn lemma_t_term_sign(k: int)
    requires
        k >= 0,
    ensures
        k % 2 == 0 ==> t_term(k) >= 1,
        k % 2 == 1 ==> t_term(k) <= -1,
{
    lemma_p_term_pos(k);
    let pa = p_term(k) * a_term(k);
    assert(pa >= 1) by (nonlinear_arith)
        requires
            p_term(k) >= 1,
            a_term(k) >= 1,
            pa == p_term(k) * a_term(k),
    ;
    if k % 2 == 1 {
        assert(t_term(k) == pa * (-1));
        assert(pa * (-1) == -pa) by (nonlinear_arith);
    }
}

/// Sign law for the whole series: the combined T over [0, K) is positive
/// for every K >= 1, because the leading term 13591409 dominates the
/// alternating tail.
pub proof fn lemma_t_sum_head_pos(n: nat)
    requires
        n >= 1,
    ensures
        t_sum(0, n) >= 1,
{
    lemma_single(0);
    assert(t_term(0) == 13591409);
    if n > 1 {
        let m = (n - 1) as nat;
        lemma_merge(0, 1, m);
        assert(t_sum(0, n) == t_term(0) * q_prod(1, m) + t_sum(1, m) * p_term(0));
        lemma_t_sum_sign(1, m);
        let r = t_sum(1, m);
        assert(sign_of(1) == -1);
        let rho = r * -1;
        lemma_merge(1, 1, (m - 1) as nat);
        lemma_single(1);
        let q2 = q_prod(2, (m - 1) as nat);
        assert(q_prod(1, m) == q_term(1) * q2);
        lemma_q_prod_pos(2, (m - 1) as nat);
        lemma_q_term_pos(1);
        lemma_p_term_pos(1);
        lemma_key(1);
        lemma_mul_is_commutative(a_term(1), p_term(1));
        assert(t_sum(0, n) == 13591409 * (q_term(1) * q2) - rho);
        assert(13591409 * (q_term(1) * q2) - rho >= 1) by (nonlinear_arith)
            requires
                rho <= a_term(1) * p_term(1) * q2,
                a_term(1) * p_term(1) + 1 <= a_term(0) * q_term(1),
                a_term(0) == 13591409,
                q2 >= 1,
                q_term(1) >= 1,
                rho >= 1,
        ;
    }
}

/// A product of Q terms over non-negative indices is at least 1.
pub proof fn lemma_q_prod_pos(s: int, n: nat)
    requires
        s >= 0,
    ensures
        q_prod(s, n) >= 1,
    decreases n,
{
    if n > 0 {
        lemma_q_prod_pos(s, (n - 1) as nat);
        lemma_q_term_pos(s + n - 1);
        assert(q_prod(s, (n - 1) as nat) * q_term(s + n - 1) >= 1) by (nonlinear_arith)
            requires
                q_prod(s, (n - 1) as nat) >= 1,
                q_term(s + n - 1) >= 1,
        ;
    }
}

} // verus!
