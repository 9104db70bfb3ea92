use nockchain::batch::{batch_add, batch_pow, linear_combination};
use nockchain::fft::{fft_parallel, fft_recursive};
use nockchain::field::{Belt, P};
use nockchain::poly_mul::find_root_of_unity;

fn belts(v: &[u64]) -> Vec<Belt> {
    v.iter().map(|&x| Belt::from_u64(x)).collect()
}

#[test]
fn parallel_map_applies_the_function_in_order() {
    let v: Vec<Belt> = (0..1000u64).map(Belt::from_u64).collect();
    let r = batch_pow(&v, 2);
    assert_eq!(r.len(), 1000);
    for (i, b) in r.iter().enumerate() {
        assert_eq!(b.0, (i * i) as u64);
    }
}

#[test]
fn parallel_zip_map_pairs_entries_of_equal_index() {
    let a = belts(&[1, 2, 3]);
    let b = belts(&[10, 20, 30]);
    let r: Vec<u64> = batch_add(&a, &b).iter().map(|x| x.0).collect();
    assert_eq!(r, vec![11, 22, 33]);
}

#[test]
fn parallel_gather_matches_the_recursive_transform() {
    let n = 16;
    let a: Vec<Belt> = (0..n as u64).map(|i| Belt::from_u64(3 * i + 1)).collect();
    let w = find_root_of_unity(n).unwrap();
    let p: Vec<u64> = fft_parallel(&a, w).iter().map(|x| x.0).collect();
    let r: Vec<u64> = fft_recursive(&a, w).iter().map(|x| x.0).collect();
    assert_eq!(p, r);
    assert_ne!(p, a.iter().map(|x| x.0).collect::<Vec<u64>>());
}

#[test]
fn parallel_dot_product_in_the_field() {
    let a = belts(&[P - 1, 2, 3]);
    let b = belts(&[2, 5, 7]);
    assert_eq!(linear_combination(&a, &b).0, 29);
}
