use perq::genseqs::{a001477, LinRecGS, GS};
use perq::{MersP61, ModIntP32, Ring};

#[test]
fn the_natural_numbers() {
    let cache: Vec<ModIntP32> = vec![];
    assert_eq!(a001477::<ModIntP32>(0, &cache), ModIntP32::from_u32(0));
    assert_eq!(a001477::<ModIntP32>(17, &cache), ModIntP32::from_u32(17));
    assert_eq!(a001477::<ModIntP32>(65521, &cache), ModIntP32::from_u32(0));
    assert_eq!(a001477::<ModIntP32>(65530, &cache), ModIntP32::from_u32(9));
    let none: Vec<MersP61> = vec![];
    assert_eq!(a001477::<MersP61>(4294967295, &none), MersP61::from_u32(4294967295));
    assert_eq!(a001477::<MersP61>(4294967296 + 5, &none), MersP61::from_u32(5));
}

#[test]
fn the_fibonacci_numbers_by_their_recurrence() {
    let one = MersP61::from_u32(1);
    let zero = MersP61::from_u32(0);
    let mut fib = LinRecGS::new(vec![one, one], vec![zero, one], zero);
    assert_eq!(fib.coeff(1), one);
    assert_eq!(fib.coeff(10), MersP61::from_u32(55));
    assert_eq!(fib.coeff(3), MersP61::from_u32(2));
    assert_eq!(fib.coeff(0), zero);
    assert_eq!(fib.coeff(40), MersP61::from_u32(102334155));
}

#[test]
fn a_recurrence_with_a_constant_and_unequal_coefficients() {
    let e = ModIntP32::from_u32;
    // a[n] = 3 + 2 * a[n - 1] + 5 * a[n - 2], from 1, 1, 4
    let mut s = LinRecGS::new(vec![e(2), e(5)], vec![e(1), e(1), e(4)], e(3));
    assert_eq!(s.coeff(2), e(4));
    assert_eq!(s.coeff(3), e(16));
    assert_eq!(s.coeff(4), e(55));
    assert_eq!(s.coeff(5), e(193));
    s.calc_next();
    assert_eq!(s.coeff(6), e(664));
    let mut steady = LinRecGS::new(vec![], vec![], e(7));
    assert_eq!(steady.coeff(0), e(7));
    assert_eq!(steady.coeff(3), e(7));
}

#[test]
fn the_first_terms_of_a_sequence() {
    let one = MersP61::from_u32(1);
    let zero = MersP61::from_u32(0);
    let mut fib = LinRecGS::new(vec![one, one], vec![zero, one], zero);
    let first: Vec<MersP61> = fib.into_bounded(8);
    let expected: Vec<MersP61> = [0u32, 1, 1, 2, 3, 5, 8, 13].iter().map(|x| MersP61::from_u32(*x)).collect();
    assert_eq!(first, expected);
    assert_eq!(fib.term_at(9), MersP61::from_u32(34));
    assert!(fib.into_bounded(0).is_empty());
}
