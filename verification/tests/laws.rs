use perq::{Field, Group, MersP31, MersP61, ModIntP32, One, PowerSeries, Ring, ShortSeq, Zero};

fn series(text: &str) -> ShortSeq<ModIntP32> {
    text.parse().unwrap()
}

#[test]
fn series_ring_laws() {
    let f = series("3,1,4,1,5,9,2,6");
    let g = series("2,7,1,8,2,8,1,8,2,8");
    let h = series("1,4,1,4,2,1,3,5,6");
    assert_eq!(f.add(&g).add(&h), f.add(&g.add(&h)));
    assert_eq!(f.add(&g).add(&h).accuracy(), 8);
    assert_eq!(f.mul(&g), g.mul(&f));
    assert_eq!(f.mul(&g.add(&h)), f.mul(&g).add(&f.mul(&h)));
    assert_eq!(f.mul(&g.add(&h)).accuracy(), 8);
}

#[test]
fn division_undoes_multiplication() {
    let f = series("3,1,4,1,5,9,2,6");
    let g = series("2,7,1,8,2,8,1,8,2,8");
    let q = f.div(&g).unwrap();
    assert_eq!(q.accuracy(), 8);
    assert_eq!(q.mul(&g), f);
    let one = ShortSeq::<ModIntP32>::promote(ModIntP32::from_u32(1));
    let one_minus_x = one.sub(&ShortSeq::<ModIntP32>::identity(16));
    let geometric = ShortSeq::<ModIntP32>::new_u32([1; 16]);
    assert_eq!(one.div(&one_minus_x).unwrap(), geometric);
    assert_eq!(one.div(&one_minus_x).unwrap().accuracy(), 16);
}

#[test]
fn every_nonzero_element_has_an_inverse() {
    for i in 1u32..300 {
        assert!(ModIntP32::from_u32(i * 211).inv().is_some());
        assert!(MersP31::from_u32(i * 7000001).inv().is_some());
        assert!(MersP61::from_u64((i as u64) * 7000000000000001).inv().is_some());
    }
    let x = MersP61::from_u64(1234567890123456789);
    assert_eq!(x.mul(x.inv().unwrap()), MersP61::one());
    assert_eq!(x.add(x.neg()), MersP61::zero());
    assert_eq!(x.div(x), Some(MersP61::one()));
}

#[test]
fn multiplication_is_associative_and_powers_are_repeated_products() {
    let f = series("3,1,4,1,5,9,2,6");
    let g = series("2,7,1,8,2,8,1,8,2,8");
    let h = series("1,4,1,4,2,1,3,5,6");
    assert!(f.mul(&g).mul(&h).identical(&f.mul(&g.mul(&h))));
    let mut product = ShortSeq::<ModIntP32>::promote(ModIntP32::from_u32(1));
    product.set_accuracy(8);
    for e in 0..12 {
        assert!(f.pow(e).unwrap().identical(&product));
        product = product.mul(&f);
    }
    assert!(series("1,1").pow(3).unwrap().identical(&series("1,3")));
    assert!(series("1,1,0,0,0").pow(4).unwrap().identical(&series("1,4,6,4,1")));
}

#[test]
fn the_binomial_transform_by_its_coefficients() {
    let a: [u64; 8] = [3, 1, 4, 1, 5, 9, 2, 6];
    let t = series("3,1,4,1,5,9,2,6").binomial();
    let mut row: Vec<u64> = vec![1];
    for n in 0..8 {
        let expected: u64 = (0..=n).map(|j| row[j] * a[j]).sum();
        assert_eq!(t.coefficient(n), ModIntP32::from_u32(expected as u32));
        let mut next = vec![1u64; n + 2];
        for j in 1..=n {
            next[j] = row[j - 1] + row[j];
        }
        row = next;
    }
    assert_eq!(t.coefficient(7), ModIntP32::from_u32(3 + 7 + 84 + 35 + 175 + 189 + 14 + 6));
}

#[test]
fn the_compositional_inverse_begins_with_the_inverse_of_the_slope() {
    let f = series("0,3,1,4,1,5,9,2,6");
    let r = f.inverse().unwrap();
    assert_eq!(r.accuracy(), 9);
    assert_eq!(r.coefficient(0), ModIntP32::zero());
    assert_eq!(r.coefficient(1).mul(f.coefficient(1)), ModIntP32::one());
    assert!(f.compose(&r).unwrap().identical(&ShortSeq::<ModIntP32>::identity(9)));
    assert!(r.compose(&f).unwrap().identical(&ShortSeq::<ModIntP32>::identity(9)));
}
