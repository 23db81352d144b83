use chudnovsky::terms::{calc_p, calc_q, calc_t};
use chudnovsky::reduce::{calc_sum, combine};
use num_bigint::BigInt;

fn bigs(vals: &[i64]) -> Vec<BigInt> {
    vals.iter().map(|&v| BigInt::from(v)).collect()
}

#[test]
fn test_calc_p() {
    let should_be = bigs(&[1, 5, 231, 1105, 3059, 6525, 11935]);
    let result = calc_p(0, 7);

    assert_eq!(should_be, result);
}

#[test]
fn test_calc_q() {
    let should_be = bigs(&[
        1,
        10939058860032000,
        87512470880256000,
        295354589220864000,
        700099767042048000,
        1367382357504000000,
    ]);
    let result = calc_q(0, 6);

    assert_eq!(should_be, result);
}

#[test]
fn test_calc_t() {
    let should_be = bigs(&[
        13591409,
        -2793657715,
        254994357387,
        -1822158051155,
        6711910799755,
        -17873880815475,
    ]);
    let result = calc_t(0, 6, &bigs(&[1, 5, 231, 1105, 3059, 6525]));

    assert_eq!(should_be, result);
}

// Folding six leaves in one block gives the same triple as folding the
// two halves and merging them: the merge rule is associative over any
// contiguous partition.
#[test]
fn test_combine_partition() {
    let mut p = calc_p(0, 6);
    let mut q = calc_q(0, 6);
    let mut t = calc_t(0, 6, &p);
    calc_sum(&mut p, &mut q, &mut t, 0);

    let mut lp = calc_p(0, 3);
    let mut lq = calc_q(0, 3);
    let mut lt = calc_t(0, 3, &lp);
    calc_sum(&mut lp, &mut lq, &mut lt, 0);

    let mut rp = calc_p(3, 3);
    let mut rq = calc_q(3, 3);
    let mut rt = calc_t(3, 3, &rp);
    calc_sum(&mut rp, &mut rq, &mut rt, 3);

    let (mp, mq, mt) = combine(&lp[0], &lq[0], &lt[0], &rp[0], &rq[0], &rt[0]);
    assert_eq!(p[0], mp);
    assert_eq!(q[0], mq);
    assert_eq!(t[0], mt);
}

// After a local combine, the result sits in slot 0 and every other slot
// holds zero.
#[test]
fn test_zero_slots() {
    let mut p = calc_p(0, 6);
    let mut q = calc_q(0, 6);
    let mut t = calc_t(0, 6, &p);
    calc_sum(&mut p, &mut q, &mut t, 0);

    let zero = BigInt::from(0);
    for i in 1..6 {
        assert_eq!(p[i], zero);
        assert_eq!(q[i], zero);
        assert_eq!(t[i], zero);
    }
    assert_ne!(p[0], zero);
    assert_ne!(q[0], zero);
    assert_ne!(t[0], zero);
}

// T(k) carries the sign (-1)^k.
#[test]
fn test_sign_alternates() {
    let p = calc_p(5, 4);
    let t = calc_t(5, 4, &p);
    let zero = BigInt::from(0);
    assert!(t[0] < zero);
    assert!(t[1] > zero);
    assert!(t[2] < zero);
    assert!(t[3] > zero);
}

// A combined T over [0, K) stays positive: the leading term dominates.
#[test]
fn test_head_t_positive() {
    for k in 1..6 {
        let mut p = calc_p(0, k);
        let mut q = calc_q(0, k);
        let mut t = calc_t(0, k, &p);
        calc_sum(&mut p, &mut q, &mut t, 0);
        assert!(t[0] > BigInt::from(0));
    }
}
