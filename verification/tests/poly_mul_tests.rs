use nockchain::field::{Belt, P};
use nockchain::poly_mul::{
    batch_multiply, bpmul, find_root_of_unity, multiply_fft, multiply_naive,
    multiply_polynomials, next_power_of_two, pad_copy, MAX_FFT_SIZE,
};

fn belts(v: &[u64]) -> Vec<Belt> {
    v.iter().map(|&x| Belt::from_u64(x)).collect()
}

fn words(v: &[Belt]) -> Vec<u64> {
    v.iter().map(|b| b.0).collect()
}

#[test]
fn schoolbook_product() {
    assert_eq!(words(&multiply_naive(&belts(&[1, 2]), &belts(&[3, 4]))), vec![3, 10, 8]);
    assert_eq!(words(&multiply_naive(&belts(&[P - 1]), &belts(&[P - 1, 2]))), vec![1, P - 2]);
}

#[test]
fn product_through_transforms_is_schoolbook_product() {
    let p: Vec<Belt> = (0..70u64).map(|i| Belt::from_u64(i * i + 1)).collect();
    let q: Vec<Belt> = (0..33u64).map(|i| Belt::from_u64(P - 5 - i)).collect();
    let naive = words(&multiply_naive(&p, &q));
    assert_eq!(words(&multiply_fft(&p, &q)), naive);
    assert_eq!(words(&multiply_polynomials(&p, &q)), naive);
    assert_eq!(words(&bpmul(&p, &q).unwrap()), naive);
}

#[test]
fn small_and_empty_products() {
    assert_eq!(words(&multiply_polynomials(&belts(&[1, 2]), &belts(&[3, 4]))), vec![3, 10, 8]);
    assert!(multiply_polynomials(&Vec::new(), &belts(&[3, 4])).is_empty());
    assert!(bpmul(&belts(&[1]), &Vec::new()).unwrap().is_empty());
    let r = multiply_fft(&belts(&[1, 2]), &belts(&[3, 4]));
    assert_eq!(words(&r), vec![3, 10, 8]);
}

#[test]
fn batch_of_products() {
    let pairs = vec![(belts(&[1, 2]), belts(&[3, 4])), (belts(&[]), belts(&[1])), (belts(&[2]), belts(&[5]))];
    let r = batch_multiply(&pairs);
    assert_eq!(r.len(), 3);
    assert_eq!(words(&r[0]), vec![3, 10, 8]);
    assert!(r[1].is_empty());
    assert_eq!(words(&r[2]), vec![10]);
}

#[test]
fn sizes_and_roots() {
    assert_eq!(next_power_of_two(0), 1);
    assert_eq!(next_power_of_two(1), 1);
    assert_eq!(next_power_of_two(5), 8);
    assert_eq!(next_power_of_two(64), 64);
    assert_eq!(MAX_FFT_SIZE, 1u64 << 32);
    assert!(find_root_of_unity((1usize << 32) + 1).is_err());
    assert_eq!(find_root_of_unity(1).unwrap().0, 1);
    assert_eq!(find_root_of_unity(2).unwrap().0, P - 1);
    assert_eq!(words(&pad_copy(&belts(&[4]), 3)), vec![4, 0, 0]);
}

#[test]
fn transform_product_matches_schoolbook_below_the_threshold() {
    for (lp, lq) in [(1usize, 1usize), (2, 3), (5, 9), (33, 32)] {
        let p: Vec<Belt> = (0..lp as u64).map(|i| Belt::from_u64(P - 1 - 3 * i)).collect();
        let q: Vec<Belt> = (0..lq as u64).map(|i| Belt::from_u64(i * i + 2)).collect();
        assert_eq!(words(&multiply_fft(&p, &q)), words(&multiply_naive(&p, &q)));
    }
}
