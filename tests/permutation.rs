use enigma::catalog::{reflector_wiring, rotor_wiring};
use enigma::permutation::{add26, combine_with_offset, inv_permutation, is_permutation, sub26, CipherError, Permutation};

#[test]
fn modular_arithmetic() {
    assert_eq!(add26(3, 4), 7);
    assert_eq!(add26(20, 10), 4);
    assert_eq!(add26(25, 25), 24);
    assert_eq!(sub26(3, 4), 25);
    assert_eq!(sub26(10, 0), 10);
    assert_eq!(sub26(0, 25), 1);
}

#[test]
fn combine_with_offset_turns_the_frame() {
    let wiring = rotor_wiring(0);
    // p[(0 - 0) mod 26] + 0 = E
    assert_eq!(combine_with_offset(&wiring, 0, 0), 4);
    // p[(0 - 1) mod 26] + 1 = p[25] + 1 = J + 1 = K
    assert_eq!(combine_with_offset(&wiring, 0, 1), 10);
    // p[(5 - 3) mod 26] + 3 = p[2] + 3 = M + 3 = P
    assert_eq!(combine_with_offset(&wiring, 5, 3), 15);
}

#[test]
fn build_refuses_non_bijections() {
    let mut dup: Vec<u8> = (0u8..26).collect();
    dup[3] = 4;
    assert_eq!(Permutation::build(dup).err(), Some(CipherError::InvalidPermutation));
    let mut big: Vec<u8> = (0u8..26).collect();
    big[0] = 26;
    assert_eq!(Permutation::build(big).err(), Some(CipherError::InvalidPermutation));
    let short: Vec<u8> = (0u8..25).collect();
    assert_eq!(Permutation::build(short).err(), Some(CipherError::InvalidPermutation));
    assert!(!is_permutation(&vec![0u8; 26]));
}

#[test]
fn catalog_tables_are_permutations() {
    for i in 0..5usize {
        assert!(is_permutation(&rotor_wiring(i)));
        let r = reflector_wiring(i);
        assert!(is_permutation(&r));
        for v in 0..26usize {
            assert_eq!(r[r[v] as usize] as usize, v);
        }
    }
}

#[test]
fn inverse_law_on_catalog_rotors() {
    for i in 0..5usize {
        let p = Permutation::build(rotor_wiring(i)).unwrap();
        let q = p.invert();
        let back = q.invert();
        assert_eq!(back.forward, p.forward);
        for v in 0..26u8 {
            assert_eq!(p.apply(q.apply(v)), v);
            assert_eq!(q.apply(p.apply(v)), v);
            assert_eq!(p.apply_inverse(p.apply(v)), v);
        }
    }
}

#[test]
fn inverse_law_on_catalog_reflectors() {
    for i in 0..5usize {
        let p = Permutation::build(reflector_wiring(i)).unwrap();
        let q = p.invert();
        assert_eq!(q.forward, p.forward);
        assert_eq!(q.invert().forward, p.forward);
        for v in 0..26u8 {
            assert_eq!(p.apply(q.apply(v)), v);
        }
    }
}

#[test]
fn inverse_of_first_rotor() {
    let inv = inv_permutation(&rotor_wiring(0));
    // E (4) is wired from A (0): the inverse sends E to A
    assert_eq!(inv[4], 0);
    assert_eq!(inv[0], 20);
    let id = Permutation::identity();
    for v in 0..26u8 {
        assert_eq!(id.apply(v), v);
    }
}
