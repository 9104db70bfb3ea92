use nockchain::field::Belt;
use nockchain::noun::{
    belt_vec_to_noun_list, cord, decode_bpoly, encode_bpoly, eq_cord, list_items,
    parse_belt_list, JetErr, Noun,
};

fn d(v: u64) -> Noun {
    Noun::direct(v)
}

fn c(h: Noun, t: Noun) -> Noun {
    Noun::cell(h, t)
}

#[test]
fn slots_address_the_tree() {
    let n = c(d(1), c(d(2), d(3)));
    assert_eq!(n.slot(1).unwrap(), &n);
    assert_eq!(n.slot(2).unwrap(), &d(1));
    assert_eq!(n.slot(6).unwrap(), &d(2));
    assert_eq!(n.slot(7).unwrap(), &d(3));
    assert_eq!(n.slot(0), Err(JetErr::Deterministic));
    assert_eq!(n.slot(4), Err(JetErr::Deterministic));
}

#[test]
fn atoms_and_cells() {
    assert_eq!(d(0), Noun::Atom(vec![]));
    assert_eq!(d(5).as_u64(), Some(5));
    assert_eq!(Noun::Atom(vec![5, 0]).as_u64(), Some(5));
    assert_eq!(Noun::Atom(vec![5, 1]).as_u64(), None);
    assert_eq!(c(d(1), d(2)).as_u64(), None);
    assert!(c(d(1), d(2)).is_cell());
    assert!(!d(1).is_cell());
    let n = c(d(1), c(Noun::Atom(vec![7, 8]), d(3)));
    assert_eq!(n.copy(), n);
}

#[test]
fn lists_of_field_elements() {
    let belts: Vec<Belt> = vec![Belt::from_u64(4), Belt::from_u64(5)];
    let list = belt_vec_to_noun_list(&belts);
    assert_eq!(list, c(d(4), c(d(5), d(0))));
    let back = parse_belt_list(&list).unwrap();
    assert_eq!(back.iter().map(|b| b.0).collect::<Vec<u64>>(), vec![4, 5]);
    assert_eq!(list_items(&list).unwrap().len(), 2);
    assert!(parse_belt_list(&c(d(4), d(1))).is_err());
    assert!(parse_belt_list(&c(c(d(1), d(2)), d(0))).is_err());
    assert!(parse_belt_list(&c(Noun::Atom(vec![1, 1]), d(0))).is_err());
    assert_eq!(belt_vec_to_noun_list(&Vec::new()), d(0));
}

#[test]
fn polynomial_nouns_round_trip() {
    let coeffs: Vec<Belt> = vec![Belt::from_u64(3), Belt::from_u64(0), Belt::from_u64(9)];
    let n = encode_bpoly(&coeffs);
    assert_eq!(n, c(d(3), Noun::Atom(vec![3, 0, 9, 1])));
    let back = decode_bpoly(&n).unwrap();
    assert_eq!(back.iter().map(|b| b.0).collect::<Vec<u64>>(), vec![3, 0, 9]);
    assert!(decode_bpoly(&c(d(2), Noun::Atom(vec![3, 0, 9, 1]))).is_err());
    assert!(decode_bpoly(&c(d(3), Noun::Atom(vec![3, 0, 9, 2]))).is_err());
    assert!(decode_bpoly(&d(3)).is_err());
    assert_eq!(decode_bpoly(&encode_bpoly(&Vec::new())).unwrap().len(), 0);
}

#[test]
fn cords_are_little_endian_bytes() {
    assert_eq!(cord(b"mine"), d(1701734765));
    assert_eq!(cord(b""), d(0));
    assert_eq!(cord(b"enable-mining"), Noun::Atom(vec![0x6d2d656c62616e65, 0x676e696e69]));
    assert!(eq_cord(&d(1701734765), b"mine"));
    assert!(!eq_cord(&d(1701734766), b"mine"));
    assert!(!eq_cord(&c(d(1), d(2)), b"mine"));
}
