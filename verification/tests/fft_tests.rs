use nockchain::fft::{
    batch_fft, fft_for_mul, fft_internal, fft_parallel, fft_recursive, ifft_internal,
    is_power_of_two, pad_zeros, reverse_bits, trailing_zeros, zeros,
};
use nockchain::field::Belt;
use nockchain::poly_mul::find_root_of_unity;

fn belts(v: &[u64]) -> Vec<Belt> {
    v.iter().map(|&x| Belt::from_u64(x)).collect()
}

fn words(v: &[Belt]) -> Vec<u64> {
    v.iter().map(|b| b.0).collect()
}

fn root(n: usize) -> Belt {
    find_root_of_unity(n).unwrap()
}

#[test]
fn roots_of_unity_have_their_order() {
    assert_eq!(root(4).0, 281474976710656);
    assert_eq!(root(4).pow(4).0, 1);
    assert_ne!(root(4).pow(2).0, 1);
    assert_eq!(root(8).0, 18446744069397807105);
    assert!(find_root_of_unity(1usize << 33).is_err());
    assert_eq!(root(1usize << 32).pow(1u64 << 32).0, 1);
}

#[test]
fn fft_evaluates_at_powers_of_the_root() {
    let a = belts(&[1, 2, 3, 4]);
    let expected = vec![10, 18446181119461163007, 18446744069414584319, 562949953421310];
    assert_eq!(words(&fft_internal(&a, root(4))), expected);
    assert_eq!(words(&fft_recursive(&a, root(4))), expected);
    assert_eq!(words(&fft_parallel(&a, root(4))), expected);
    assert_eq!(words(&fft_for_mul(&a, root(4))), expected);
}

#[test]
fn fft_of_length_eight() {
    let a = belts(&[5, 0, 7, 1, 2, 9, 3, 3]);
    let expected = vec![
        30,
        1128099081092611,
        1407374883553277,
        18445628065145943812,
        4,
        1123700732592643,
        18445336694531031038,
        18445608273869539588,
    ];
    assert_eq!(words(&fft_recursive(&a, root(8))), expected);
    assert_eq!(words(&fft_parallel(&a, root(8))), expected);
}

#[test]
fn ifft_undoes_fft() {
    let a = belts(&[5, 0, 7, 1, 2, 9, 3, 3]);
    let t = fft_internal(&a, root(8));
    assert_eq!(words(&ifft_internal(&t, root(8))), words(&a));
}

#[test]
fn iterative_and_recursive_transforms_agree_on_large_inputs() {
    let n = 2048;
    let a: Vec<Belt> = (0..n as u64).map(|i| Belt::from_u64(i * i + 7)).collect();
    let w = root(n);
    let t = fft_internal(&a, w);
    assert_eq!(words(&t), words(&fft_recursive(&a, w)));
    assert_eq!(words(&ifft_internal(&t, w)), words(&a));
}

#[test]
fn single_coefficient_is_its_own_transform() {
    let a = belts(&[42]);
    assert_eq!(words(&fft_internal(&a, Belt::from_u64(9))), vec![42]);
}

#[test]
fn batch_fft_transforms_each() {
    let polys = vec![belts(&[1, 2, 3, 4]), belts(&[0, 0, 0, 1])];
    let r = batch_fft(&polys, root(4));
    assert_eq!(r.len(), 2);
    assert_eq!(words(&r[0]), vec![10, 18446181119461163007, 18446744069414584319, 562949953421310]);
    let w = root(4);
    assert_eq!(words(&r[1]), vec![1, w.pow(3).0, w.pow(6).0, w.pow(9).0]);
}

#[test]
fn bit_helpers() {
    assert_eq!(reverse_bits(1, 3), 4);
    assert_eq!(reverse_bits(6, 3), 3);
    assert_eq!(reverse_bits(5, 0), 0);
    assert_eq!(trailing_zeros(8), 3);
    assert_eq!(trailing_zeros(12), 2);
    assert_eq!(trailing_zeros(1), 0);
    assert!(is_power_of_two(1));
    assert!(is_power_of_two(1024));
    assert!(!is_power_of_two(0));
    assert!(!is_power_of_two(6));
}

#[test]
fn padding_with_zeros() {
    assert_eq!(words(&zeros(3)), vec![0, 0, 0]);
    assert_eq!(words(&pad_zeros(belts(&[1, 2]), 4)), vec![1, 2, 0, 0]);
}
