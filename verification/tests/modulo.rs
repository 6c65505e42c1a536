use perq::ModInt;

type M7 = ModInt<7>;
type M12 = ModInt<12>;
type Big = ModInt<4294967296>;

#[test]
fn residues_are_canonical() {
    assert_eq!(M7::from_u64(23).residue(), 2);
    assert_eq!(M7::from_u64(7).residue(), 0);
    assert_eq!(M7::zero().residue(), 0);
    assert_eq!(M7::one().residue(), 1);
    assert!(M7::from_u64(14).is_zero());
    assert!(!M7::one().is_zero());
    assert!(M7::from_u64(9).equals(M7::from_u64(2)));
    assert_eq!(M7::from_u64(9), M7::from_u64(2));
    assert_eq!(Big::from_u64(u64::MAX).residue(), 4294967295);
}

#[test]
fn ring_operations_modulo_seven() {
    let a = M7::from_u64(5);
    let b = M7::from_u64(4);
    assert_eq!(a.add(b).residue(), 2);
    assert_eq!(a.add(M7::from_u64(2)).residue(), 0);
    assert_eq!(a.sub(b).residue(), 1);
    assert_eq!(b.sub(a).residue(), 6);
    assert_eq!(a.sub(a).residue(), 0);
    assert_eq!(a.neg().residue(), 2);
    assert_eq!(M7::zero().neg().residue(), 0);
    assert_eq!(a.mul(b).residue(), 6);
    let top = Big::from_u64(4294967295);
    assert_eq!(top.mul(top).residue(), 1);
    assert_eq!(top.add(top).residue(), 4294967294);
}

#[test]
fn division_by_units_only() {
    let a = M7::from_u64(5);
    let b = M7::from_u64(4);
    assert_eq!(b.inv().unwrap().residue(), 2);
    assert_eq!(a.div(b).unwrap().residue(), 3);
    assert_eq!(a.div(b).unwrap().mul(b), a);
    assert!(M7::zero().inv().is_none());
    assert!(a.div(M7::zero()).is_none());
    for x in 1..7 {
        let e = M7::from_u64(x);
        assert_eq!(e.mul(e.inv().unwrap()), M7::one());
    }
    assert!(M12::from_u64(4).inv().is_none());
    assert!(M12::from_u64(5).div(M12::from_u64(3)).is_none());
    assert_eq!(M12::from_u64(5).inv().unwrap().residue(), 5);
    assert_eq!(M12::from_u64(1).div(M12::from_u64(7)).unwrap().residue(), 7);
}
