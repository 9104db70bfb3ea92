use nockchain::field::{Belt, P};

#[test]
fn field_add_wraps_at_modulus() {
    let r = Belt::from_u64(P - 1).add(Belt::from_u64(2));
    assert_eq!(r.0, 1);
}

#[test]
fn field_sub_below_zero_wraps() {
    let r = Belt::from_u64(3).sub(Belt::from_u64(5));
    assert_eq!(r.0, P - 2);
}

#[test]
fn field_mul_reduces() {
    let r = Belt::from_u64(1u64 << 32).mul(Belt::from_u64(1u64 << 32));
    assert_eq!(r.0, 4294967295);
    let m = Belt::from_u64(P - 1).mul(Belt::from_u64(P - 1));
    assert_eq!(m.0, 1);
}

#[test]
fn field_words_above_modulus_are_reduced() {
    let x = Belt::from_u64(u64::MAX);
    assert_eq!(x.to_u64(), u64::MAX - P);
    assert_eq!(x.add(Belt::zero()).0, u64::MAX - P);
}

#[test]
fn field_pow_of_generator_half_order_is_minus_one() {
    let r = Belt::from_u64(7).pow((P - 1) / 2);
    assert_eq!(r.0, P - 1);
    assert_eq!(Belt::from_u64(7).pow(P - 1).0, 1);
    assert_eq!(Belt::from_u64(3).pow(0).0, 1);
    assert_eq!(Belt::from_u64(3).pow(5).0, 243);
}

#[test]
fn field_inverse_times_value_is_one() {
    let x = Belt::from_u64(5);
    let i = x.inv();
    assert_eq!(i.0, 14757395255531667457);
    assert_eq!(x.mul(i).0, 1);
    assert_eq!(Belt::from_u64(0).inv().0, 0);
}

#[test]
fn field_identities() {
    assert_eq!(Belt::zero().0, 0);
    assert_eq!(Belt::one().0, 1);
    let x = Belt::from_u64(123456789);
    assert_eq!(x.mul(Belt::one()).0, 123456789);
    assert_eq!(x.add(Belt::zero()).0, 123456789);
    assert_eq!(x.sub(x).0, 0);
}

#[test]
fn every_nonzero_element_has_its_inverse() {
    for x in [1u64, 2, 3, 7, 65537, 1u64 << 32, P - 1, P - 2, 123456789123456789, u64::MAX] {
        let b = Belt::from_u64(x);
        assert_eq!(b.mul(b.inv()).0, 1, "inverse of {}", x);
        assert_eq!(b.pow(P - 1).0, 1);
    }
    assert_eq!(Belt::from_u64(P).inv().0, 0);
}
