use nockchain::field::{Belt, P};
use nockchain::jets::{
    batch_badd_jet, batch_binv_jet, batch_bmul_jet, batch_bpmul_jet, batch_bpow_jet,
    batch_bsub_jet, batch_fft_jet, batch_linear_combination_jet, batch_matrix_vector_mul_jet,
    batch_msm_jet, batch_poly_eval_jet, bpmul_fft_jet, bpmul_naive_jet, fft_jet, ifft_jet,
};
use nockchain::noun::{encode_bpoly, JetErr, Noun};
use nockchain::poly_mul::find_root_of_unity;

fn d(v: u64) -> Noun {
    Noun::direct(v)
}

fn c(h: Noun, t: Noun) -> Noun {
    Noun::cell(h, t)
}

fn list(v: &[u64]) -> Noun {
    let mut r = d(0);
    for &x in v.iter().rev() {
        r = c(d(x), r);
    }
    r
}

fn bpoly(v: &[u64]) -> Noun {
    encode_bpoly(&v.iter().map(|&x| Belt::from_u64(x)).collect())
}

/// A gate's subject with the given sample at address 6.
fn subject(sam: Noun) -> Noun {
    c(d(0), c(sam, d(0)))
}

#[test]
fn add_sub_mul_jets() {
    let s = subject(c(list(&[1, 2, P - 1]), list(&[3, 4, 5])));
    assert_eq!(batch_badd_jet(&s), Ok(list(&[4, 6, 4])));
    assert_eq!(batch_bsub_jet(&s), Ok(list(&[P - 2, P - 2, P - 6])));
    assert_eq!(batch_bmul_jet(&s), Ok(list(&[3, 8, P - 5])));
}

#[test]
fn zip_jets_reject_bad_samples() {
    let uneven = subject(c(list(&[1, 2]), list(&[3])));
    assert_eq!(batch_badd_jet(&uneven), Err(JetErr::Deterministic));
    let not_list = subject(c(d(1), list(&[3])));
    assert_eq!(batch_bmul_jet(&not_list), Err(JetErr::Deterministic));
    assert_eq!(batch_bsub_jet(&d(0)), Err(JetErr::Deterministic));
}

#[test]
fn pow_jet() {
    let s = subject(c(list(&[2, 3]), d(5)));
    assert_eq!(batch_bpow_jet(&s), Ok(list(&[32, 243])));
    let bad = subject(c(list(&[2, 3]), c(d(1), d(2))));
    assert_eq!(batch_bpow_jet(&bad), Err(JetErr::Deterministic));
}

#[test]
fn linear_combination_and_msm_jets() {
    let s = subject(c(list(&[1, 2, 3]), list(&[4, 5, 6])));
    assert_eq!(batch_linear_combination_jet(&s), Ok(d(32)));
    assert_eq!(batch_msm_jet(&s), Ok(d(32)));
    let uneven = subject(c(list(&[1]), list(&[4, 5])));
    assert_eq!(batch_msm_jet(&uneven), Err(JetErr::Deterministic));
}

#[test]
fn inverse_jet() {
    let s = subject(list(&[2, 3, 4]));
    assert_eq!(
        batch_binv_jet(&s),
        Ok(list(&[9223372034707292161, 12297829379609722881, 13835058052060938241]))
    );
    assert_eq!(batch_binv_jet(&subject(d(0))), Ok(d(0)));
    assert_eq!(batch_binv_jet(&subject(d(7))), Err(JetErr::Deterministic));
}

#[test]
fn poly_eval_jet() {
    let s = subject(c(bpoly(&[1, 2, 3]), list(&[0, 1, 5])));
    assert_eq!(batch_poly_eval_jet(&s), Ok(list(&[1, 6, 86])));
    let single = subject(c(bpoly(&[u64::MAX]), list(&[2])));
    assert_eq!(batch_poly_eval_jet(&single), Ok(list(&[u64::MAX])));
    let empty = subject(c(bpoly(&[]), list(&[2])));
    assert_eq!(batch_poly_eval_jet(&empty), Ok(list(&[0])));
}

#[test]
fn matrix_vector_jet() {
    let m = c(list(&[1, 2]), c(list(&[3, 4]), d(0)));
    let s = subject(c(m, list(&[5, 6])));
    assert_eq!(batch_matrix_vector_mul_jet(&s), Ok(list(&[17, 39])));
    let ragged = c(list(&[1, 2]), c(list(&[3]), d(0)));
    assert_eq!(batch_matrix_vector_mul_jet(&subject(c(ragged, list(&[5, 6])))), Err(JetErr::Deterministic));
}

#[test]
fn fft_and_ifft_jets() {
    let w = find_root_of_unity(4).unwrap().0;
    let s = subject(c(bpoly(&[1, 2, 3, 4]), d(w)));
    let t = fft_jet(&s).unwrap();
    assert_eq!(t, bpoly(&[10, 18446181119461163007, 18446744069414584319, 562949953421310]));
    let back = ifft_jet(&subject(c(t, d(w)))).unwrap();
    assert_eq!(back, bpoly(&[1, 2, 3, 4]));
    let three = subject(c(bpoly(&[1, 2, 3]), d(w)));
    assert_eq!(fft_jet(&three), Err(JetErr::Deterministic));
    assert_eq!(ifft_jet(&three), Err(JetErr::Deterministic));
    let one = subject(c(bpoly(&[u64::MAX]), d(w)));
    assert_eq!(fft_jet(&one), Ok(bpoly(&[u64::MAX])));
}

#[test]
fn batch_fft_jet_pads_to_first_length() {
    let w = find_root_of_unity(4).unwrap().0;
    let polys = c(bpoly(&[1, 2, 3, 4]), c(d(9), c(bpoly(&[0, 0, 0, 1]), d(0))));
    let r = batch_fft_jet(&subject(c(polys, d(w)))).unwrap();
    let wb = Belt::from_u64(w);
    let expected = c(
        bpoly(&[10, 18446181119461163007, 18446744069414584319, 562949953421310]),
        c(bpoly(&[1, wb.pow(3).0, wb.pow(6).0, wb.pow(9).0]), d(0)),
    );
    assert_eq!(r, expected);
    assert_eq!(batch_fft_jet(&subject(c(d(0), d(w)))), Ok(d(0)));
}

#[test]
fn product_jets() {
    let s = subject(c(bpoly(&[1, 2]), bpoly(&[3, 4])));
    assert_eq!(bpmul_naive_jet(&s), Ok(bpoly(&[3, 10, 8])));
    assert_eq!(bpmul_fft_jet(&s), Ok(bpoly(&[3, 10, 8])));
    let empty = subject(c(bpoly(&[]), bpoly(&[3, 4])));
    assert_eq!(bpmul_naive_jet(&empty), Ok(d(0)));
    assert_eq!(bpmul_fft_jet(&empty), Ok(d(0)));
    assert_eq!(bpmul_fft_jet(&subject(c(d(1), bpoly(&[3])))), Err(JetErr::Deterministic));
}

#[test]
fn fft_product_jet_agrees_with_schoolbook_on_large_factors() {
    let p: Vec<u64> = (0..50u64).map(|i| i * 7919 + 3).collect();
    let q: Vec<u64> = (0..40u64).map(|i| P - 1 - i * i).collect();
    let s = subject(c(bpoly(&p), bpoly(&q)));
    let fast = bpmul_fft_jet(&s).unwrap();
    let slow = bpmul_naive_jet(&s).unwrap();
    assert_eq!(fast, slow);
}

#[test]
fn batch_product_jet() {
    let pairs = c(
        c(bpoly(&[1, 2]), bpoly(&[3, 4])),
        c(d(5), c(c(bpoly(&[2]), bpoly(&[5])), d(0))),
    );
    let r = batch_bpmul_jet(&subject(c(pairs, d(0)))).unwrap();
    assert_eq!(r, c(bpoly(&[3, 10, 8]), c(bpoly(&[10]), d(0))));
    assert_eq!(batch_bpmul_jet(&subject(c(d(0), d(0)))), Ok(d(0)));
}

#[test]
fn adding_back_what_was_subtracted() {
    let a = [5u64, 0, P - 1, 123];
    let b = [7u64, P - 1, 3, 123];
    let d = batch_bsub_jet(&subject(c(list(&a), list(&b)))).unwrap();
    assert_eq!(batch_badd_jet(&subject(c(d, list(&b)))), Ok(list(&a)));
}
