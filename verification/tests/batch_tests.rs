use nockchain::batch::{
    batch_add, batch_invert, batch_mul, batch_pow, batch_sub, evaluate_polynomial,
    linear_combination, matrix_vector_mul, poly_eval_batch,
};
use nockchain::field::{Belt, P};

fn belts(v: &[u64]) -> Vec<Belt> {
    v.iter().map(|&x| Belt::from_u64(x)).collect()
}

fn words(v: &[Belt]) -> Vec<u64> {
    v.iter().map(|b| b.0).collect()
}

#[test]
fn batch_add_sub_mul_entrywise() {
    let a = belts(&[1, 2, P - 1]);
    let b = belts(&[10, 20, 2]);
    assert_eq!(words(&batch_add(&a, &b)), vec![11, 22, 1]);
    assert_eq!(words(&batch_sub(&a, &b)), vec![P - 9, P - 18, P - 3]);
    assert_eq!(words(&batch_mul(&a, &b)), vec![10, 40, P - 2]);
}

#[test]
fn batch_pow_raises_each_base() {
    let a = belts(&[2, 3, 0]);
    assert_eq!(words(&batch_pow(&a, 10)), vec![1024, 59049, 0]);
}

#[test]
fn linear_combination_is_dot_product() {
    let c = belts(&[1, 2, 3]);
    let v = belts(&[4, 5, 6]);
    assert_eq!(linear_combination(&c, &v).0, 32);
    assert_eq!(linear_combination(&Vec::new(), &Vec::new()).0, 0);
}

#[test]
fn matrix_vector_product() {
    let rows = vec![belts(&[1, 2]), belts(&[3, 4])];
    let v = belts(&[5, 6]);
    assert_eq!(words(&matrix_vector_mul(&rows, &v)), vec![17, 39]);
}

#[test]
fn horner_evaluation() {
    let c = belts(&[1, 2, 3]);
    assert_eq!(evaluate_polynomial(&c, Belt::from_u64(5)).0, 86);
    assert_eq!(evaluate_polynomial(&Vec::new(), Belt::from_u64(5)).0, 0);
    let pts = belts(&[0, 1, 5]);
    assert_eq!(words(&poly_eval_batch(&c, &pts)), vec![1, 6, 86]);
}

#[test]
fn batch_invert_gives_each_inverse() {
    let a = belts(&[2, 3, 4]);
    let r = batch_invert(&a);
    assert_eq!(
        words(&r),
        vec![9223372034707292161, 12297829379609722881, 13835058052060938241]
    );
    for (x, y) in a.iter().zip(r.iter()) {
        assert_eq!(x.mul(*y).0, 1);
        assert_eq!(x.inv().0, y.0);
    }
    assert!(batch_invert(&Vec::new()).is_empty());
}

#[test]
fn batch_invert_with_a_zero_gives_zeros() {
    let r = batch_invert(&belts(&[2, 0, 4]));
    assert_eq!(words(&r), vec![0, 0, 0]);
}
