use perq::{Field, FixedSeq, Group, ModIntP32, One, PowerSeries, Ring, SeriesError, ShortSeq, Zero};

fn ones() -> ShortSeq<ModIntP32> {
    ShortSeq::<ModIntP32>::from_slice(&[ModIntP32::from_u32(1); 16])
}

fn exp_series() -> ShortSeq<ModIntP32> {
    let mut expseq: [ModIntP32; 16] = [ModIntP32::from_u32(1); 16];
    for i in 1..16 {
        expseq[i] = ModIntP32::from_u32(i as u32).mul(expseq[i - 1]);
    }
    for i in 0..16 {
        expseq[i] = ModIntP32::from_u32(1).div(expseq[i]).unwrap();
    }
    ShortSeq::<ModIntP32>::from_slice(&expseq)
}

fn atan_series() -> ShortSeq<ModIntP32> {
    let mut atanseq: [ModIntP32; 16] = Default::default();
    for i in (1..16).step_by(2) {
        atanseq[i] = ModIntP32::from_u32(1).div(ModIntP32::from_u32(i as u32)).unwrap();
        if i % 4 == 3 {
            atanseq[i] = atanseq[i].neg();
        }
    }
    ShortSeq::<ModIntP32>::from_slice(&atanseq)
}

#[test]
fn fixedseq_mul_test() {
    let catalan: ShortSeq<ModIntP32> =
        "1,1,2,5,14,42,132,429,1430,4862,16796,58786,208012,742900,2674440,9694845".parse().unwrap();
    assert_eq!(
        catalan,
        catalan.mul(&catalan).rshift().add(&ShortSeq::<ModIntP32>::promote(ModIntP32::from_u32(1)))
    );
    assert!((catalan).identical(&(catalan.mul(&catalan).rshift().add(&ShortSeq::<ModIntP32>::promote(ModIntP32::from_u32(1))))));
    let mut sq = catalan;
    sq = sq.mul(&catalan);
    sq = sq.rshift();
    sq = sq.add(&ShortSeq::<ModIntP32>::promote(ModIntP32::from_u32(1)));
    assert_eq!(catalan, sq);
    assert!((catalan).identical(&(sq)));
}

#[test]
fn fixedseq_div_test() {
    let geom: ShortSeq<ModIntP32> = ones();
    let mut poly = ShortSeq::<ModIntP32>::promote(ModIntP32::from_u32(1));
    poly.set_coefficient(1, ModIntP32::from_u32(1).neg());
    assert_eq!(ShortSeq::<ModIntP32>::promote(ModIntP32::from_u32(1)).div(&poly).unwrap(), geom);
    assert!((ShortSeq::<ModIntP32>::promote(ModIntP32::from_u32(1)).div(&poly).unwrap()).identical(&(geom)));
}

#[test]
fn fixedseq_compose_test() {
    let geom: ShortSeq<ModIntP32> = ones();
    let mut nonzgeom: ShortSeq<ModIntP32> = ones();
    nonzgeom.set_coefficient(0, ModIntP32::from_u32(0));
    let pow2: ShortSeq<ModIntP32> =
        "1,1,2,4,8,16,32,64,128,256,512,1024,2048,4096,8192,16384".parse().unwrap();
    assert_eq!(geom.compose(&nonzgeom).unwrap(), pow2);
    assert!((geom.compose(&nonzgeom).unwrap()).identical(&(pow2)));
    let a262: ShortSeq<ModIntP32> = "1,1,3,13,73,501,4051,37633,394353,4596553,58941091,824073141,12470162233,202976401213,3535017524403,65573803186921".parse().unwrap();
    let exp: ShortSeq<ModIntP32> = exp_series();
    assert_eq!(exp.compose(&nonzgeom).unwrap(), a262.hadamard(&exp));
    assert!((exp.compose(&nonzgeom).unwrap()).identical(&(a262.hadamard(&exp))));
}

#[test]
fn fixedseq_inverse_test() {
    let tang: ShortSeq<ModIntP32> =
        "0,1,0,2,0,16,0,272,0,7936,0,353792,0,22368256,0,1903757312".parse().unwrap();
    let atan: ShortSeq<ModIntP32> = atan_series();
    let exp: ShortSeq<ModIntP32> = exp_series();
    assert_eq!(atan.inverse().unwrap(), tang.hadamard(&exp));
    assert!((atan.inverse().unwrap()).identical(&(tang.hadamard(&exp))));
}

#[test]
fn fixedseq_sqrt_test() {
    let simple: ShortSeq<ModIntP32> = "1,11,19,23,3,0,1,0,0,0,0,0,0,0,0,0".parse().unwrap();
    assert_eq!(simple, simple.mul(&simple).sqrt().unwrap());
    assert!((simple).identical(&(simple.mul(&simple).sqrt().unwrap())));
    let catalan: ShortSeq<ModIntP32> =
        "1,1,2,5,14,42,132,429,1430,4862,16796,58786,208012,742900,2674440,9694845".parse().unwrap();
    assert!(catalan.matches(&catalan.lshift().sqrt().unwrap()));
}

#[test]
fn shortseq_mul_test() {
    let catalan = ShortSeq::<ModIntP32>::new_u32([
        1, 1, 2, 5, 14, 42, 132, 429, 1430, 4862, 16796, 58786, 208012, 742900, 2674440, 9694845,
    ]);
    assert_eq!(
        catalan,
        catalan.mul(&catalan).rshift().add(&ShortSeq::<ModIntP32>::promote(ModIntP32::from_u32(1)))
    );
    assert!((catalan).identical(&(catalan.mul(&catalan).rshift().add(&ShortSeq::<ModIntP32>::promote(ModIntP32::from_u32(1))))));
}

#[test]
fn shortseq_div_test() {
    let geom = ShortSeq::<ModIntP32>::new_u32([1; 16]);
    let mut poly = ShortSeq::<ModIntP32>::promote(ModIntP32::from_u32(1));
    poly.set_coefficient(1, ModIntP32::from_u32(1).neg());
    assert_eq!(ShortSeq::<ModIntP32>::promote(ModIntP32::from_u32(1)).div(&poly).unwrap(), geom);
    assert!((ShortSeq::<ModIntP32>::promote(ModIntP32::from_u32(1)).div(&poly).unwrap()).identical(&(geom)));
}

#[test]
fn shortseq_compose_test() {
    let geom = ShortSeq::<ModIntP32>::new_u32([1; 16]);
    let nonzgeom = ShortSeq::<ModIntP32>::new_u32([0, 1, 1, 1, 1, 1, 1, 1, 1, 1, 1, 1, 1, 1, 1, 1]);
    let pow2 = ShortSeq::<ModIntP32>::new_u32([
        1, 1, 2, 4, 8, 16, 32, 64, 128, 256, 512, 1024, 2048, 4096, 8192, 16384,
    ]);
    assert_eq!(geom.compose(&nonzgeom).unwrap(), pow2);
    assert!((geom.compose(&nonzgeom).unwrap()).identical(&(pow2)));
    let a262 = ShortSeq::<ModIntP32>::new_u32([
        1,
        1,
        3,
        13,
        73,
        501,
        4051,
        37633,
        394353,
        4596553,
        58941091,
        824073141,
        (12470162233u64 % 65521u64) as u32,
        (202976401213u64 % 65521u64) as u32,
        (3535017524403u64 % 65521u64) as u32,
        (65573803186921u64 % 65521u64) as u32,
    ]);
    let mut expseq: [ModIntP32; 16] = [ModIntP32::from_u32(1); 16];
    for i in 1..16 {
        expseq[i] = ModIntP32::from_u32(i as u32).mul(expseq[i - 1]);
    }
    for i in 0..16 {
        expseq[i] = ModIntP32::from_u32(1).div(expseq[i]).unwrap();
    }
    let exp = ShortSeq::<ModIntP32>::new(expseq);
    assert_eq!(exp.compose(&nonzgeom).unwrap(), a262.hadamard(&exp));
    assert!((exp.compose(&nonzgeom).unwrap()).identical(&(a262.hadamard(&exp))));
}

#[test]
fn shortseq_inverse_test() {
    let tang = ShortSeq::<ModIntP32>::new_u32([
        0, 1, 0, 2, 0, 16, 0, 272, 0, 7936, 0, 353792, 0, 22368256, 0, 1903757312,
    ]);
    let mut atanseq: [ModIntP32; 16] = Default::default();
    for i in (1..16).step_by(2) {
        atanseq[i] = ModIntP32::from_u32(1).div(ModIntP32::from_u32(i as u32)).unwrap();
        if i % 4 == 3 {
            atanseq[i] = atanseq[i].neg();
        }
    }
    let atan = ShortSeq::<ModIntP32>::new(atanseq);
    let mut expseq: [ModIntP32; 16] = [ModIntP32::from_u32(1); 16];
    for i in 1..16 {
        expseq[i] = ModIntP32::from_u32(i as u32).mul(expseq[i - 1]);
    }
    for i in 0..16 {
        expseq[i] = ModIntP32::from_u32(1).div(expseq[i]).unwrap();
    }
    let exp = ShortSeq::<ModIntP32>::new(expseq);
    assert_eq!(atan.inverse().unwrap(), tang.hadamard(&exp));
    assert!((atan.inverse().unwrap()).identical(&(tang.hadamard(&exp))));
}

#[test]
fn shortseq_sqrt_test() {
    let simple = ShortSeq::<ModIntP32>::new_u32([1, 11, 19, 23, 3, 0, 1, 0, 0, 0, 0, 0, 0, 0, 0, 0]);
    assert_eq!(simple, simple.mul(&simple).sqrt().unwrap());
    assert!((simple).identical(&(simple.mul(&simple).sqrt().unwrap())));
    let catalan = ShortSeq::<ModIntP32>::new_u32([
        1, 1, 2, 5, 14, 42, 132, 429, 1430, 4862, 16796, 58786, 208012, 742900, 2674440, 9694845,
    ]);
    assert_eq!(catalan, catalan.lshift().sqrt().unwrap());
    assert_eq!(catalan.lshift().sqrt().unwrap().accuracy(), 15);
}

#[test]
fn constructors_and_accessors() {
    let z = ShortSeq::<ModIntP32>::zero();
    assert_eq!(z.accuracy(), 16);
    assert!(z.is_zero());
    assert!(!z.is_one());
    let o = ShortSeq::<ModIntP32>::one();
    assert!(o.is_one());
    assert!(!o.is_zero());
    assert!(o.is_constant());
    assert_eq!(o.coefficient(0), ModIntP32::one());
    assert_eq!(ShortSeq::<ModIntP32>::from_u32(65522), o);
    assert!((ShortSeq::<ModIntP32>::from_u32(65522)).identical(&(o)));
    let x = ShortSeq::<ModIntP32>::identity(5);
    assert_eq!(x.accuracy(), 5);
    assert_eq!(x.coefficient(1), ModIntP32::one());
    assert_eq!(x.coefficient(0), ModIntP32::zero());
    assert!(!x.is_constant());
    assert_eq!(ShortSeq::<ModIntP32>::identity(40).accuracy(), 16);
    assert_eq!(ShortSeq::<ModIntP32>::zeroes(3).accuracy(), 3);
    let short = FixedSeq::<ModIntP32, 4>::from_slice(&[ModIntP32::from_u32(7); 9]);
    assert_eq!(short.accuracy(), 4);
    let part = FixedSeq::<ModIntP32, 4>::from_series(&[ModIntP32::from_u32(7); 2]);
    assert_eq!(part.accuracy(), 2);
    assert_eq!(part.coefficient(1), ModIntP32::from_u32(7));
    assert_eq!(part.to_vec(), vec![ModIntP32::from_u32(7); 2]);
    let cut = FixedSeq::<ModIntP32, 4>::from_series(&[ModIntP32::from_u32(7); 9]);
    assert_eq!(cut.accuracy(), 4);
    let mut lim = cut;
    lim.limit_accuracy(9);
    assert_eq!(lim.accuracy(), 4);
    lim.set_accuracy(1);
    assert_eq!(lim.accuracy(), 1);
    lim.expand_to(3);
    assert_eq!(lim.accuracy(), 1);
    assert_eq!(lim.clone().accuracy(), 1);
}

#[test]
fn equality_is_agreement_of_the_known_prefix() {
    let a: ShortSeq<ModIntP32> = "1,2,3".parse().unwrap();
    let b: ShortSeq<ModIntP32> = "1,2,3,4,5".parse().unwrap();
    let c: ShortSeq<ModIntP32> = "1,2,4".parse().unwrap();
    assert_eq!(a.accuracy(), 3);
    assert_eq!(a, b);
    assert!(!a.identical(&b));
    assert!(a.matches(&b));
    assert_ne!(a, c);
    assert!(!c.matches(&b));
}

#[test]
fn parsing_lists() {
    let a: ShortSeq<ModIntP32> = " 1, -2 ,65522,\t7".parse().unwrap();
    assert_eq!(a.accuracy(), 4);
    assert_eq!(a.coefficient(1), ModIntP32::from_u32(2).neg());
    assert_eq!(a.coefficient(2), ModIntP32::from_u32(1));
    assert_eq!(a.coefficient(3), ModIntP32::from_u32(7));
    let long: FixedSeq<ModIntP32, 2> = "1,2,x,y".parse().unwrap();
    assert_eq!(long.accuracy(), 2);
    assert_eq!("".parse::<ShortSeq<ModIntP32>>(), Err(SeriesError::Malformed));
    assert_eq!("1,,2".parse::<ShortSeq<ModIntP32>>(), Err(SeriesError::Malformed));
    assert_eq!("1,2,".parse::<ShortSeq<ModIntP32>>(), Err(SeriesError::Malformed));
    assert_eq!("1,2a".parse::<ShortSeq<ModIntP32>>(), Err(SeriesError::Malformed));
    assert_eq!("1,+2".parse::<ShortSeq<ModIntP32>>(), Err(SeriesError::Malformed));
    assert_eq!("12".parse::<ModIntP32>(), Ok(ModIntP32::from_u32(12)));
    assert_eq!("-1".parse::<ModIntP32>(), Ok(ModIntP32::from_u32(65520)));
    assert_eq!("-".parse::<ModIntP32>(), Ok(ModIntP32::zero()));
    assert_eq!("".parse::<ModIntP32>(), Err(()));
    assert_eq!("1-".parse::<ModIntP32>(), Err(()));
    assert_eq!("12345678901234567890".parse::<ModIntP32>(), Ok(ModIntP32::from_u32((12345678901234567890u64 % 65521) as u32)));
    assert_eq!("2147483648".parse::<perq::MersP31>(), Ok(perq::MersP31::from_u32(1)));
    assert_eq!("2305843009213693952".parse::<perq::MersP61>(), Ok(perq::MersP61::from_u32(1)));
}

#[test]
fn ring_operations_on_short_examples() {
    let a: ShortSeq<ModIntP32> = "1,2,3".parse().unwrap();
    let b: ShortSeq<ModIntP32> = "4,5,6,7".parse().unwrap();
    let sum: ShortSeq<ModIntP32> = "5,7,9".parse().unwrap();
    let diff: ShortSeq<ModIntP32> = "-3,-3,-3".parse().unwrap();
    let prod: ShortSeq<ModIntP32> = "4,13,28".parse().unwrap();
    let had: ShortSeq<ModIntP32> = "4,10,18".parse().unwrap();
    assert_eq!(a.add(&b).accuracy(), 3);
    assert_eq!(a.add(&b), sum);
    assert!((a.add(&b)).identical(&(sum)));
    assert_eq!(a.sub(&b), diff);
    assert!((a.sub(&b)).identical(&(diff)));
    assert_eq!(a.mul(&b), prod);
    assert!((a.mul(&b)).identical(&(prod)));
    assert_eq!(b.mul(&a), prod);
    assert!((b.mul(&a)).identical(&(prod)));
    assert_eq!(a.hadamard(&b), had);
    assert!((a.hadamard(&b)).identical(&(had)));
    assert_eq!(a.neg().add(&a), ShortSeq::<ModIntP32>::zeroes(3));
    assert!((a.neg().add(&a)).identical(&(ShortSeq::<ModIntP32>::zeroes(3))));
    assert_eq!(prod.div(&b).unwrap(), a);
    assert!((prod.div(&b).unwrap()).identical(&(a)));
    assert_eq!(a.lshift().accuracy(), 2);
    assert_eq!(a.lshift(), "2,3".parse::<ShortSeq<ModIntP32>>().unwrap());
    assert_eq!(a.rshift().accuracy(), 4);
    assert_eq!(a.rshift(), "0,1,2,3".parse::<ShortSeq<ModIntP32>>().unwrap());
    let t: ShortSeq<ModIntP32> = "0,0,5,0,7".parse().unwrap();
    let tt = t.tail_term();
    assert_eq!(tt.accuracy(), 5);
    assert_eq!(tt, "0,0,5,0,0".parse::<ShortSeq<ModIntP32>>().unwrap());
    let zero_const: ShortSeq<ModIntP32> = "0,1".parse().unwrap();
    assert_eq!(a.div(&zero_const), Err(SeriesError::InvalidOperand));
    assert_eq!(a.compose(&b), Err(SeriesError::InvalidOperand));
    assert_eq!(b.inverse(), Err(SeriesError::InvalidOperand));
    assert_eq!("0,0,1".parse::<ShortSeq<ModIntP32>>().unwrap().inverse(), Err(SeriesError::InvalidOperand));
    assert_eq!(b.sqrt(), Err(SeriesError::InvalidOperand));
}
