use perq::interpolate::{
    find_c_recursive, find_hypergeometric, find_p_recursive, poly_eval_at, strip_trailing_zeros,
};
use perq::mathtypes::index_element;
use perq::{Field, Group, MersP31, ModIntP32, One, Ring, Zero};

#[test]
fn interpolate_c_rec_test_1() {
    let mut fib = vec![];
    fib.push(ModIntP32::zero());
    fib.push(ModIntP32::one());
    for i in 2..10 {
        fib.push(fib[i - 1].add(fib[i - 2]));
    }
    let res = find_c_recursive::<ModIntP32>(&fib, 4);
    assert_eq!(res, Some(vec![ModIntP32::one(), ModIntP32::one()]));
}

#[test]
fn interpolate_c_rec_test_2() {
    let mut seq = vec![];
    seq.push(ModIntP32::from_u32(7u32));
    seq.push(ModIntP32::from_u32(3u32));
    seq.push(ModIntP32::from_u32(4u32));
    seq.push(ModIntP32::from_u32(0u32));
    for i in 4..8 {
        seq.push(
            ModIntP32::from_u32(5)
                .mul(seq[i - 1])
                .sub(seq[i - 2])
                .sub(seq[i - 3])
                .sub(seq[i - 3])
                .add(seq[i - 4]),
        );
    }
    let res = find_c_recursive::<ModIntP32>(&seq, 4);
    assert_eq!(
        res,
        Some(vec![
            ModIntP32::from_u32(5u32),
            ModIntP32::from_u32(1u32).neg(),
            ModIntP32::from_u32(2u32).neg(),
            ModIntP32::from_u32(1u32)
        ])
    );
}

#[test]
fn interpolate_c_rec_test_3() {
    let mut seq = vec![];
    seq.push(ModIntP32::from_u32(2u32));
    seq.push(ModIntP32::from_u32(1u32));
    seq.push(ModIntP32::from_u32(3u32));
    seq.push(ModIntP32::from_u32(2u32));
    for i in 4..8 {
        seq.push(ModIntP32::from_u32(4).mul(seq[i - 1]).add(seq[i - 4]));
    }
    let res = find_c_recursive::<ModIntP32>(&seq, 3);
    assert_eq!(res, None);
}

#[test]
fn interpolate_hyper_test_1() {
    let mut fac = vec![ModIntP32::one()];
    for i in 1..8 {
        fac.push(ModIntP32::from_u32(i as u32).mul(fac[i - 1]));
    }
    let res = find_hypergeometric::<ModIntP32>(&fac, 2);
    let expected = (vec![ModIntP32::one()], vec![ModIntP32::one(), ModIntP32::one()]);
    assert_eq!(res, Some(expected));
}

#[test]
fn interpolate_hyper_test_2() {
    let cat = vec![
        ModIntP32::from_u32(1u32),
        ModIntP32::from_u32(1u32),
        ModIntP32::from_u32(2u32),
        ModIntP32::from_u32(5u32),
        ModIntP32::from_u32(14u32),
        ModIntP32::from_u32(42u32),
        ModIntP32::from_u32(132u32),
        ModIntP32::from_u32(429u32),
    ];
    let res = find_hypergeometric::<ModIntP32>(&cat, 2);
    let third = ModIntP32::one().div(ModIntP32::from_u32(3u32)).unwrap();
    let expected = (
        vec![third.add(third), third],
        vec![third.add(third), third.add(third).add(third).add(third)],
    );
    assert_eq!(res, Some(expected));
}

#[test]
fn interpolate_hyper_test_3() {
    let mut seq = vec![ModIntP32::one()];
    let two = ModIntP32::from_u32(2u32);
    for i in 1..10 {
        let n = ModIntP32::from_u32(i as u32);
        seq.push(two.mul(two.mul(n)).mul(two.mul(n).sub(ModIntP32::one())).mul(seq[i - 1]));
    }
    let res = find_hypergeometric::<ModIntP32>(&seq, 2);
    let expected = (
        vec![ModIntP32::from_u32(1u32)],
        vec![ModIntP32::from_u32(4u32), ModIntP32::from_u32(12u32), ModIntP32::from_u32(8u32)],
    );
    assert_eq!(res, Some(expected));
}

#[test]
fn interpolate_hyper_test_4() {
    let mut seq = vec![ModIntP32::from_u32(1u32)];
    let two = ModIntP32::from_u32(2u32);
    for i in 1..10 {
        let n = ModIntP32::from_u32(i as u32);
        seq.push(two.mul(two.mul(n)).mul(two.mul(n).sub(ModIntP32::from_u32(1u32))).mul(seq[i - 1]));
    }
    let res = find_hypergeometric::<ModIntP32>(&seq, 1);
    assert_eq!(res, None);
}

#[test]
fn interpolate_hyper_test_5() {
    // n!! is not hypergeometric
    let mut fac = vec![ModIntP32::from_u32(1u32), ModIntP32::from_u32(1u32)];
    for i in 2..16 {
        fac.push(ModIntP32::from_u32(i as u32).mul(fac[i - 2]));
    }
    let res = find_hypergeometric::<ModIntP32>(&fac, 4);
    assert_eq!(res, None);
}

#[test]
fn p_rec_test_1() {
    let mut fac = vec![ModIntP32::from_u32(1u32), ModIntP32::from_u32(1u32)];
    for i in 2..16 {
        fac.push(ModIntP32::from_u32(i as u32).mul(fac[i - 2]));
    }
    let res = find_p_recursive::<ModIntP32>(&fac, 3, 3);
    let expected = vec![
        vec![ModIntP32::from_u32(2u32).neg(), ModIntP32::from_u32(1u32).neg()],
        vec![ModIntP32::from_u32(0u32)],
        vec![ModIntP32::from_u32(1u32)],
    ];
    assert_eq!(res, Some(expected));
}

#[test]
fn p_rec_test_2() {
    let mut der = vec![ModIntP32::from_u32(1u32), ModIntP32::from_u32(0u32)];
    for i in 2..7 {
        der.push(ModIntP32::from_u32((i - 1) as u32).mul(der[i - 1].add(der[i - 2])));
    }
    let res = find_p_recursive::<ModIntP32>(&der, 1, 3);
    let one = ModIntP32::from_u32(1u32);
    let expected = vec![vec![one.neg(), one.neg()], vec![one.neg(), one.neg()], vec![one]];
    assert_eq!(res, Some(expected));
}

#[test]
fn p_rec_test_3() {
    let mut der = vec![ModIntP32::from_u32(1u32), ModIntP32::from_u32(0u32)];
    for i in 2..6 {
        der.push(ModIntP32::from_u32((i - 1) as u32).mul(der[i - 1].add(der[i - 2])));
    }
    let res = find_p_recursive::<ModIntP32>(&der, 1, 3);
    assert_eq!(res, None);
}

#[test]
fn p_rec_test_4() {
    let mut der = vec![ModIntP32::from_u32(1u32), ModIntP32::from_u32(0u32)];
    for i in 2..7 {
        der.push(ModIntP32::from_u32((i - 1) as u32).mul(der[i - 1].add(der[i - 2])));
    }
    let res = find_p_recursive::<ModIntP32>(&der, 0, 3);
    assert_eq!(res, None);
}

#[test]
fn p_rec_test_5() {
    let mut der = vec![ModIntP32::from_u32(1u32), ModIntP32::from_u32(0u32)];
    for i in 2..7 {
        der.push(ModIntP32::from_u32((i - 1) as u32).mul(der[i - 1].add(der[i - 2])));
    }
    let res = find_p_recursive::<ModIntP32>(&der, 1, 2);
    assert_eq!(res, None);
}

#[test]
fn searcher_c_rec_test_1() {
    let mut fib = vec![];
    fib.push(ModIntP32::from_u32(0u32));
    fib.push(ModIntP32::from_u32(1u32));
    for i in 2..10 {
        fib.push(fib[i - 1].add(fib[i - 2]));
    }
    let res = find_c_recursive::<ModIntP32>(&fib, 4);
    assert_eq!(res, Some(vec![ModIntP32::from_u32(1u32), ModIntP32::from_u32(1u32)]));
}

#[test]
fn searcher_c_rec_test_2() {
    let mut seq = vec![];
    seq.push(ModIntP32::from_u32(7u32));
    seq.push(ModIntP32::from_u32(3u32));
    seq.push(ModIntP32::from_u32(4u32));
    seq.push(ModIntP32::from_u32(0u32));
    for i in 4..8 {
        seq.push(
            ModIntP32::from_u32(5)
                .mul(seq[i - 1])
                .sub(seq[i - 2])
                .sub(seq[i - 3])
                .sub(seq[i - 3])
                .add(seq[i - 4]),
        );
    }
    let res = find_c_recursive::<ModIntP32>(&seq, 4);
    assert_eq!(
        res,
        Some(vec![
            ModIntP32::from_u32(5u32),
            ModIntP32::from_u32(1u32).neg(),
            ModIntP32::from_u32(2u32).neg(),
            ModIntP32::from_u32(1u32)
        ])
    );
}

#[test]
fn searcher_c_rec_test_3() {
    let mut seq = vec![];
    seq.push(ModIntP32::from_u32(2u32));
    seq.push(ModIntP32::from_u32(1u32));
    seq.push(ModIntP32::from_u32(3u32));
    seq.push(ModIntP32::from_u32(2u32));
    for i in 4..8 {
        seq.push(ModIntP32::from_u32(4).mul(seq[i - 1]).add(seq[i - 4]));
    }
    let res = find_c_recursive::<ModIntP32>(&seq, 3);
    assert_eq!(res, None);
}

#[test]
fn searcher_hyper_test_1() {
    let mut fac = vec![ModIntP32::from_u32(1u32)];
    for i in 1..8 {
        fac.push(ModIntP32::from_u32(i as u32).mul(fac[i - 1]));
    }
    let res = find_hypergeometric::<ModIntP32>(&fac, 2);
    let expected = (
        vec![ModIntP32::from_u32(1u32)],
        vec![ModIntP32::from_u32(1u32), ModIntP32::from_u32(1u32)],
    );
    assert_eq!(res, Some(expected));
}

#[test]
fn searcher_hyper_test_2() {
    let mut fac = vec![ModIntP32::from_u32(1u32)];
    for i in 1..8 {
        fac.push(fac[i - 1].div(ModIntP32::from_u32(i as u32)).unwrap());
    }
    let res = find_hypergeometric::<ModIntP32>(&fac, 2);
    let half = ModIntP32::from_u32(1u32).div(ModIntP32::from_u32(2u32)).unwrap();
    let expected = (vec![half, half], vec![half]);
    assert_eq!(res, Some(expected));
}

#[test]
fn searcher_hyper_test_3() {
    let mut seq = vec![ModIntP32::from_u32(1u32)];
    let two = ModIntP32::from_u32(2u32);
    for i in 1..10 {
        let n = ModIntP32::from_u32(i as u32);
        seq.push(two.mul(two.mul(n)).mul(two.mul(n).sub(ModIntP32::from_u32(1u32))).mul(seq[i - 1]));
    }
    let res = find_hypergeometric::<ModIntP32>(&seq, 2);
    let expected = (
        vec![ModIntP32::from_u32(1u32)],
        vec![ModIntP32::from_u32(4u32), ModIntP32::from_u32(12u32), ModIntP32::from_u32(8u32)],
    );
    assert_eq!(res, Some(expected));
}

#[test]
fn searcher_hyper_test_4() {
    let mut seq = vec![ModIntP32::from_u32(1u32)];
    let two = ModIntP32::from_u32(2u32);
    for i in 1..10 {
        let n = ModIntP32::from_u32(i as u32);
        seq.push(two.mul(two.mul(n)).mul(two.mul(n).sub(ModIntP32::from_u32(1u32))).mul(seq[i - 1]));
    }
    let res = find_hypergeometric::<ModIntP32>(&seq, 1);
    assert_eq!(res, None);
}

#[test]
fn searcher_hyper_test_5() {
    // n!! is not hypergeometric
    let mut fac = vec![ModIntP32::from_u32(1u32), ModIntP32::from_u32(1u32)];
    for i in 2..16 {
        fac.push(ModIntP32::from_u32(i as u32).mul(fac[i - 2]));
    }
    let res = find_hypergeometric::<ModIntP32>(&fac, 4);
    assert_eq!(res, None);
}

#[test]
fn factorial_is_p_recursive() {
    // (n + 1) * a(n) - a(n + 1) == 0
    let mut fac = vec![MersP31::one()];
    for i in 1..12 {
        fac.push(MersP31::from_u32(i as u32).mul(fac[i - 1]));
    }
    let res = find_p_recursive::<MersP31>(&fac, 1, 2).unwrap();
    let minus = MersP31::one().neg();
    assert_eq!(res, vec![vec![minus, minus], vec![MersP31::one()]]);
}

#[test]
fn recurrences_of_short_sequences() {
    let empty: Vec<ModIntP32> = vec![];
    assert_eq!(find_c_recursive::<ModIntP32>(&empty, 0), Some(vec![]));
    let zeros = vec![ModIntP32::zero(); 5];
    assert_eq!(find_c_recursive::<ModIntP32>(&zeros, 0), Some(vec![]));
    let ones = vec![ModIntP32::one(); 5];
    assert_eq!(find_c_recursive::<ModIntP32>(&ones, 0), None);
    assert_eq!(find_c_recursive::<ModIntP32>(&ones, 1), Some(vec![ModIntP32::one()]));
    assert_eq!(find_p_recursive::<ModIntP32>(&ones, 0, 0), None);
    assert_eq!(find_p_recursive::<ModIntP32>(&ones, 3, 3), None);
    assert_eq!(find_hypergeometric::<ModIntP32>(&ones, 2), None);
    assert_eq!(
        find_hypergeometric::<ModIntP32>(&ones, 0),
        Some((vec![ModIntP32::one()], vec![ModIntP32::one()]))
    );
}

#[test]
fn horner_and_helpers() {
    let c = vec![ModIntP32::from_u32(3), ModIntP32::from_u32(0), ModIntP32::from_u32(2)];
    // 3 + 2 * 5^2
    assert_eq!(poly_eval_at(&c, ModIntP32::from_u32(5)), ModIntP32::from_u32(53));
    let none: Vec<ModIntP32> = vec![];
    assert_eq!(poly_eval_at(&none, ModIntP32::from_u32(5)), ModIntP32::zero());
    let mut v = vec![ModIntP32::from_u32(1), ModIntP32::zero(), ModIntP32::zero()];
    strip_trailing_zeros(&mut v);
    assert_eq!(v, vec![ModIntP32::from_u32(1)]);
    let mut z = vec![ModIntP32::zero(), ModIntP32::zero()];
    strip_trailing_zeros(&mut z);
    assert_eq!(z, vec![ModIntP32::zero()]);
    assert_eq!(index_element::<ModIntP32>(65522), ModIntP32::one());
    assert_eq!(
        index_element::<ModIntP32>(1usize << 40),
        ModIntP32::from_u32(((1u64 << 40) % 65521) as u32)
    );
}

#[test]
fn too_little_is_asked_or_known_for_a_recurrence() {
    let e = ModIntP32::from_u32;
    let fact: Vec<ModIntP32> = [1u32, 1, 2, 6, 24, 120, 720, 5040].iter().map(|x| e(*x)).collect();
    // no polynomial is asked for
    assert_eq!(find_p_recursive(&fact, 3, 0), None);
    assert_eq!(find_p_recursive(&fact, 0, 0), None);
    // 2 * 2 unknowns and 2 polynomials need 4 terms at least
    assert_eq!(find_p_recursive(&fact[..3], 1, 2), None);
    assert!(find_p_recursive(&fact[..4], 1, 2).is_some());
    // 2 * (1 + 1) unknowns need 4 terms
    assert_eq!(find_hypergeometric(&fact[..3], 1), None);
    assert!(find_hypergeometric(&fact[..4], 1).is_some());
    assert_eq!(find_hypergeometric(&fact, usize::MAX), None);
    assert_eq!(find_p_recursive(&fact, usize::MAX, 2), None);
}
