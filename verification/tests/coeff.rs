use perq::coeff::mod_inverse;
use perq::{Field, Group, MersP31, MersP61, ModIntP32, One, Ring, Zero};

#[test]
fn test_mersp31_inv() {
    for i in 1u32..20u32 {
        let cf = MersP31::from_u32(i);
        let recip = cf.inv().unwrap();
        assert!(cf.mul(recip) == MersP31::from_u32(1u32));
    }
    for i in 2147483647u32 - 20..2147483647u32 {
        let cf = MersP31::from_u32(i);
        let recip = cf.inv().unwrap();
        assert!(cf.mul(recip) == MersP31::from_u32(1u32));
    }
}

#[test]
fn modintp32_inverse_of_every_small_element() {
    for i in 1u32..2000u32 {
        let x = ModIntP32::from_u32(i);
        let y = x.inv().unwrap();
        assert_eq!(x.mul(y), ModIntP32::one());
        assert_eq!(x.pow_p_minus_2(), y);
    }
    let top = ModIntP32::from_u32(65520);
    assert_eq!(top.inv().unwrap(), top);
}

#[test]
fn modintp32_exact_values() {
    let a = ModIntP32::from_u32(65520);
    let b = ModIntP32::from_u32(5);
    assert_eq!(a.add(b), ModIntP32::from_u32(4));
    assert_eq!(b.sub(a), ModIntP32::from_u32(6));
    assert_eq!(a.mul(a), ModIntP32::from_u32(1));
    assert_eq!(a.mul(b), ModIntP32::from_u32(65516));
    assert_eq!(b.neg(), ModIntP32::from_u32(65516));
    assert_eq!(ModIntP32::zero().neg(), ModIntP32::zero());
    assert_eq!(ModIntP32::from_u32(65521), ModIntP32::zero());
    assert_eq!(ModIntP32::from_u32(4294967295), ModIntP32::from_u32(4294967295 % 65521));
    assert_eq!(b.sq(), ModIntP32::from_u32(25));
    // 3 * 43681 == 2 * 65521 + 1
    assert_eq!(ModIntP32::from_u32(3).inv(), Some(ModIntP32::from_u32(43681)));
    assert_eq!(ModIntP32::from_u32(6).div(ModIntP32::from_u32(3)), Some(ModIntP32::from_u32(2)));
}

#[test]
fn zero_has_no_inverse() {
    assert_eq!(ModIntP32::zero().inv(), None);
    assert_eq!(MersP31::zero().inv(), None);
    assert_eq!(MersP61::zero().inv(), None);
    assert_eq!(ModIntP32::one().div(ModIntP32::zero()), None);
    assert_eq!(MersP31::one().div(MersP31::zero()), None);
    assert_eq!(MersP61::one().div(MersP61::zero()), None);
}

#[test]
fn field_laws_on_samples() {
    let samples: [u32; 6] = [1, 2, 3, 65520, 40000, 12345];
    for &i in samples.iter() {
        let x = ModIntP32::from_u32(i);
        assert_eq!(x.mul(x.inv().unwrap()), ModIntP32::one());
        assert_eq!(x.add(x.neg()), ModIntP32::zero());
        assert_eq!(x.mul(ModIntP32::one()), x);
        let y = MersP31::from_u32(i);
        assert_eq!(y.mul(y.inv().unwrap()), MersP31::one());
        assert_eq!(y.add(y.neg()), MersP31::zero());
        assert_eq!(y.mul(MersP31::one()), y);
        let z = MersP61::from_u32(i);
        assert_eq!(z.mul(z.inv().unwrap()), MersP61::one());
        assert_eq!(z.add(z.neg()), MersP61::zero());
        assert_eq!(z.mul(MersP61::one()), z);
    }
}

#[test]
fn mersp31_exact_values() {
    let top = MersP31::from_u32(2147483646);
    assert_eq!(top.add(MersP31::from_u32(3)), MersP31::from_u32(2));
    assert_eq!(top.mul(top), MersP31::one());
    assert_eq!(top.neg(), MersP31::one());
    assert_eq!(MersP31::from_u32(2147483647), MersP31::zero());
    assert_eq!(MersP31::from_u32(4294967295), MersP31::one());
    assert_eq!(MersP31::from_u32(65536).mul(MersP31::from_u32(65536)), MersP31::from_u32(2));
    assert_eq!(MersP31::from_u32(5).sub(MersP31::from_u32(7)), MersP31::from_u32(2147483645));
    assert_eq!(MersP31::reduced(2147483650), 3);
    let mut raw: u32 = 2147483647;
    MersP31::reduce(&mut raw);
    assert_eq!(raw, 0);
}

#[test]
fn mersp61_exact_values() {
    let m: u64 = 2305843009213693951;
    let top = MersP61::from_u64(m - 1);
    assert_eq!(top.add(MersP61::from_u32(3)), MersP61::from_u32(2));
    assert_eq!(top.mul(top), MersP61::one());
    assert_eq!(top.neg(), MersP61::one());
    assert_eq!(MersP61::from_u64(m), MersP61::zero());
    assert_eq!(MersP61::from_u64(u64::MAX), MersP61::from_u32(7));
    let big = MersP61::from_u64(1u64 << 60);
    assert_eq!(big.mul(MersP61::from_u32(2)), MersP61::one());
    assert_eq!(big.mul(big), MersP61::from_u64(1u64 << 59));
    assert_eq!(MersP61::reduced(m + 5), 5);
    let mut raw: u64 = m;
    MersP61::reduce(&mut raw);
    assert_eq!(raw, 0);
}

#[test]
fn euclid_finds_inverses_and_common_divisors() {
    assert_eq!(mod_inverse(3, 7), Some(5));
    assert_eq!(mod_inverse(1, 2), Some(1));
    assert_eq!(mod_inverse(4, 6), None);
    assert_eq!(mod_inverse(0, 5), None);
    assert_eq!(mod_inverse(10, 21), Some(19));
}

#[test]
fn the_powers_of_a_generator_modulo_the_largest_modulus() {
    // 37 generates the nonzero residues modulo 2^61 - 1: its power with the
    // exponent 2^61 - 2 is one, and those with that exponent divided by a
    // prime are not
    let g = MersP61::from_u32(37);
    let n: u64 = 2305843009213693950;
    let power = |e: u64| {
        let mut r = MersP61::one();
        let mut b = g;
        let mut k = e;
        while k > 0 {
            if k & 1 == 1 {
                r = r.mul(b);
            }
            b = b.mul(b);
            k >>= 1;
        }
        r
    };
    assert_eq!(power(n), MersP61::one());
    for q in [2u64, 3, 5, 7, 11, 13, 31, 41, 61, 151, 331, 1321] {
        assert_eq!(n % q, 0);
        assert_ne!(power(n / q), MersP61::one());
    }
    assert_eq!(power(n / 2), MersP61::one().neg());
    assert_eq!(power(n / 61), MersP61::from_u64(35184372088832));
}
