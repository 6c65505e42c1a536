use perq::powerseries::{factorials, inverse_factorials, zero_vec};
use perq::{Field, FixedSeq, Group, MersP61, ModIntP32, One, PowerSeries, Ring, ShortSeq, Zero};

type Exact = ShortSeq<MersP61>;

fn exact(text: &str) -> Exact {
    text.parse().unwrap()
}

#[test]
fn test_mobius() {
    let inp: Exact = "0,1,3,4,7,6,12,8,15,13,18,12,28,14,24,24".parse().unwrap();
    let ans: Exact = "0,1,2,3,4,5,6,7,8,9,10,11,12,13,14,15".parse().unwrap();
    assert_eq!(inp.mobius(), ans);
    assert!((inp.mobius()).identical(&(ans)));
    assert_eq!(inp, ans.mobius_inv());
    assert!((inp).identical(&(ans.mobius_inv())));
    assert_eq!(inp, inp.mobius().mobius_inv());
    assert!((inp).identical(&(inp.mobius().mobius_inv())));
    assert_eq!(inp, inp.mobius_inv().mobius());
    assert!((inp).identical(&(inp.mobius_inv().mobius())));
}

#[test]
fn test_stirling() {
    let inp: Exact = "0,1,2,3,4,5,6,7,8,9,10,11,12,13,14,15".parse().unwrap();
    let ans: Exact = "0,1,3,10,37,151,674,3263,17007,94828,562595,3535027,23430840,163254885,1192059223,9097183602".parse().unwrap();
    assert_eq!(inp.stirling(), ans);
    assert!((inp.stirling()).identical(&(ans)));
    assert_eq!(ans.stirling_inv(), inp);
    assert!((ans.stirling_inv()).identical(&(inp)));
    assert_eq!(inp, inp.stirling().stirling_inv());
    assert!((inp).identical(&(inp.stirling().stirling_inv())));
    assert_eq!(inp, inp.stirling_inv().stirling());
    assert!((inp).identical(&(inp.stirling_inv().stirling())));
}

#[test]
fn test_lah() {
    let inp: Exact = "0,1,4,9,16,25,36,49,64,81,100,121,144,169,196,225".parse().unwrap();
    let ans: Exact = "0,1,6,39,292,2505,24306,263431,3154824,41368977,589410910,9064804551,149641946796,2638693215769,49490245341642,983607047803815".parse().unwrap();
    assert_eq!(inp.lah().unwrap(), ans);
    assert!((inp.lah().unwrap()).identical(&(ans)));
    assert_eq!(ans.lah_inv().unwrap(), inp);
    assert!((ans.lah_inv().unwrap()).identical(&(inp)));
    assert_eq!(inp, inp.lah().unwrap().lah_inv().unwrap());
    assert!((inp).identical(&(inp.lah().unwrap().lah_inv().unwrap())));
    assert_eq!(inp, inp.lah_inv().unwrap().lah().unwrap());
    assert!((inp).identical(&(inp.lah_inv().unwrap().lah().unwrap())));
}

#[test]
fn test_euler() {
    let conn: Exact = "1,1,1,2,6,20,99,646,5974,71885,1052805,17449299,313372298".parse().unwrap();
    let notc: Exact = "1,1,2,4,11,33,142,822,6966,79853,1140916,18681008,333312451".parse().unwrap();
    assert_eq!(conn.euler().unwrap(), notc);
    assert!((conn.euler().unwrap()).identical(&(notc)));
    assert_eq!(conn, notc.euler_inv().unwrap());
    assert!((conn).identical(&(notc.euler_inv().unwrap())));
    assert_eq!(conn.euler().unwrap().euler_inv().unwrap(), conn);
    assert!((conn.euler().unwrap().euler_inv().unwrap()).identical(&(conn)));
    assert_eq!(conn.euler_inv().unwrap().euler().unwrap(), conn);
    assert!((conn.euler_inv().unwrap().euler().unwrap()).identical(&(conn)));
}

#[test]
fn binomial_transform_and_back() {
    let inp = exact("1,2,4,8,16,32");
    let ans = exact("1,3,9,27,81,243");
    assert_eq!(inp.binomial().accuracy(), 6);
    assert_eq!(inp.binomial(), ans);
    assert!((inp.binomial()).identical(&(ans)));
    assert_eq!(ans.binomial_inv(), inp);
    assert!((ans.binomial_inv()).identical(&(inp)));
    let any = exact("3,1,4,1,5,9,2,6,5,3,5,8,9,7,9,3");
    assert_eq!(any.binomial().binomial_inv(), any);
    assert!((any.binomial().binomial_inv()).identical(&(any)));
    assert_eq!(any.binomial_inv().binomial(), any);
    assert!((any.binomial_inv().binomial()).identical(&(any)));
    assert_eq!(any.binomial().accuracy(), 16);
}

#[test]
fn differences_sums_and_products() {
    let a = exact("1,4,9,16,25");
    assert_eq!(a.delta().accuracy(), 4);
    assert_eq!(a.delta(), exact("3,5,7,9"));
    assert!((a.delta()).identical(&(exact("3,5,7,9"))));
    assert_eq!(a.t019().accuracy(), 3);
    assert_eq!(a.t019(), exact("2,2,2"));
    assert!((a.t019()).identical(&(exact("2,2,2"))));
    assert_eq!(a.partial_sums(), exact("1,5,14,30,55"));
    assert!((a.partial_sums()).identical(&(exact("1,5,14,30,55"))));
    assert_eq!(a.partial_products(), exact("1,4,36,576,14400"));
    assert!((a.partial_products()).identical(&(exact("1,4,36,576,14400"))));
    assert_eq!(a.point(), exact("0,4,18,48,100"));
    assert!((a.point()).identical(&(exact("0,4,18,48,100"))));
    assert_eq!(a.derive().accuracy(), 4);
    assert_eq!(a.derive(), exact("4,18,48,100"));
    assert!((a.derive()).identical(&(exact("4,18,48,100"))));
    let b = exact("1,2,3");
    let i = b.integrate().unwrap();
    assert_eq!(i.accuracy(), 4);
    assert_eq!(i.derive(), b);
    assert!((i.derive()).identical(&(b)));
    assert_eq!(i.coefficient(0), MersP61::zero());
    assert_eq!(i.coefficient(2), MersP61::one());
    assert_eq!(a.laplace(), exact("1,4,18,96,600"));
    assert!((a.laplace()).identical(&(exact("1,4,18,96,600"))));
    assert_eq!(a.laplace().laplace_inv().unwrap(), a);
    assert!((a.laplace().laplace_inv().unwrap()).identical(&(a)));
    assert_eq!(a.laplace_inv().unwrap().laplace(), a);
    assert!((a.laplace_inv().unwrap().laplace()).identical(&(a)));
}

#[test]
fn powers() {
    let a = exact("1,1,0,0,0,0");
    assert_eq!(a.pow(0).unwrap(), exact("1,0,0,0,0,0"));
    assert!((a.pow(0).unwrap()).identical(&(exact("1,0,0,0,0,0"))));
    assert_eq!(a.pow(1).unwrap(), a);
    assert!((a.pow(1).unwrap()).identical(&(a)));
    assert_eq!(a.pow(5).unwrap(), exact("1,5,10,10,5,1"));
    assert!((a.pow(5).unwrap()).identical(&(exact("1,5,10,10,5,1"))));
    assert_eq!(a.pow_nat(4), exact("1,4,6,4,1,0"));
    assert!((a.pow_nat(4)).identical(&(exact("1,4,6,4,1,0"))));
    assert_eq!(a.pow(-1).unwrap(), exact("1,-1,1,-1,1,-1"));
    assert!((a.pow(-1).unwrap()).identical(&(exact("1,-1,1,-1,1,-1"))));
    assert_eq!(a.pow(-2).unwrap(), exact("1,-2,3,-4,5,-6"));
    assert!((a.pow(-2).unwrap()).identical(&(exact("1,-2,3,-4,5,-6"))));
    assert_eq!(a.pow(-2).unwrap().accuracy(), 6);
    assert!(exact("0,1").pow(-1).is_err());
    assert_eq!(exact("1,3,3,1,0,0").ratpow(1, 3).unwrap(), a);
    assert!((exact("1,3,3,1,0,0").ratpow(1, 3).unwrap()).identical(&(a)));
    assert_eq!(exact("1,3,3,1,0,0").ratpow(2, 3).unwrap(), exact("1,2,1,0,0,0"));
    assert!((exact("1,3,3,1,0,0").ratpow(2, 3).unwrap()).identical(&(exact("1,2,1,0,0,0"))));
    assert_eq!(exact("1,2,1,0,0,0").sqrt().unwrap(), a);
    assert!((exact("1,2,1,0,0,0").sqrt().unwrap()).identical(&(a)));
    assert_eq!(exact("1,2,1,0,0,0").ratpow(-1, 2).unwrap(), exact("1,-1,1,-1,1,-1"));
    assert!((exact("1,2,1,0,0,0").ratpow(-1, 2).unwrap()).identical(&(exact("1,-1,1,-1,1,-1"))));
    assert!(a.ratpow(1, 0).is_err());
    assert!(exact("2,1").sqrt().is_err());
    assert_eq!(a.log_derive().unwrap(), exact("1,-1,1,-1,1"));
    assert!((a.log_derive().unwrap()).identical(&(exact("1,-1,1,-1,1"))));
}

#[test]
fn composition_with_the_identity() {
    let f = exact("3,1,4,1,5,9,2,6");
    let x = Exact::identity(8);
    assert_eq!(f.compose(&x).unwrap().accuracy(), 8);
    assert_eq!(f.compose(&x).unwrap(), f);
    assert!((f.compose(&x).unwrap()).identical(&(f)));
    let g = exact("0,2,7,1,8,2,8,1");
    assert_eq!(x.compose(&g).unwrap(), g);
    assert!((x.compose(&g).unwrap()).identical(&(g)));
    let r = g.inverse().unwrap();
    assert_eq!(r.accuracy(), 8);
    assert_eq!(g.compose(&r).unwrap(), x);
    assert!((g.compose(&r).unwrap()).identical(&(x)));
    assert_eq!(r.compose(&g).unwrap(), x);
    assert!((r.compose(&g).unwrap()).identical(&(x)));
    let s = exact("1,2,7,1,8,2,8,1");
    let root = s.sqrt().unwrap();
    assert_eq!(root.mul(&root), s);
    assert!((root.mul(&root)).identical(&(s)));
    assert_eq!(root.coefficient(0), MersP61::one());
}

#[test]
fn known_series() {
    let e = Exact::expx(5).unwrap();
    assert_eq!(e.laplace(), exact("1,1,1,1,1"));
    assert!((e.laplace()).identical(&(exact("1,1,1,1,1"))));
    let s = Exact::sin(6).unwrap();
    assert_eq!(s.laplace(), exact("0,1,0,-1,0,1"));
    assert!((s.laplace()).identical(&(exact("0,1,0,-1,0,1"))));
    let c = Exact::cos(6).unwrap();
    assert_eq!(c.laplace(), exact("1,0,-1,0,1,0"));
    assert!((c.laplace()).identical(&(exact("1,0,-1,0,1,0"))));
    let l = Exact::log1px(6).unwrap();
    assert_eq!(l.derive(), exact("1,-1,1,-1,1"));
    assert!((l.derive()).identical(&(exact("1,-1,1,-1,1"))));
    assert_eq!(l.coefficient(0), MersP61::zero());
    assert_eq!(Exact::expx(40).unwrap().accuracy(), 16);
    // exp(log(1 + x)) - 1 == x
    assert_eq!(l.exp().unwrap(), Exact::identity(6));
    assert!((l.exp().unwrap()).identical(&(Exact::identity(6))));
    assert_eq!(Exact::identity(6).exp().unwrap().log().unwrap(), Exact::identity(6));
    assert!((Exact::identity(6).exp().unwrap().log().unwrap()).identical(&(Exact::identity(6))));
    assert!(exact("1,1").exp().is_err());
    assert!(exact("1,1").log().is_err());
    // the up-down numbers 1, 1, 1, 2, 5, 16, 61
    assert_eq!(Exact::updown(7).unwrap().laplace(), exact("1,1,1,2,5,16,61"));
    assert!((Exact::updown(7).unwrap().laplace()).identical(&(exact("1,1,1,2,5,16,61"))));
    assert_eq!(Exact::mobius_series(11), exact("0,1,-1,-1,0,-1,1,-1,0,0,1"));
    assert!((Exact::mobius_series(11)).identical(&(exact("0,1,-1,-1,0,-1,1,-1,0,0,1"))));
}

#[test]
fn boustrophedon_and_products_of_exponential_series() {
    let one = exact("1,0,0,0,0,0,0");
    assert_eq!(one.bous().unwrap(), exact("1,1,1,2,5,16,61"));
    assert!((one.bous().unwrap()).identical(&(exact("1,1,1,2,5,16,61"))));
    assert_eq!(one.bous().unwrap().bous_inv().unwrap(), one);
    assert!((one.bous().unwrap().bous_inv().unwrap()).identical(&(one)));
    let any = exact("3,1,4,1,5,9,2");
    assert_eq!(any.bous().unwrap().bous_inv().unwrap(), any);
    assert!((any.bous().unwrap().bous_inv().unwrap()).identical(&(any)));
    assert_eq!(any.bous_inv().unwrap().bous().unwrap(), any);
    assert!((any.bous_inv().unwrap().bous().unwrap()).identical(&(any)));
    // the product of the exponential generating functions of 1, 1, 1, .. is that of 1, 2, 4, ..
    let ones = exact("1,1,1,1,1,1");
    assert_eq!(ones.exp_mul(&ones).unwrap(), exact("1,2,4,8,16,32"));
    assert!((ones.exp_mul(&ones).unwrap()).identical(&(exact("1,2,4,8,16,32"))));
}

#[test]
fn dirichlet_convolution_and_subsets() {
    let ones = exact("0,1,1,1,1,1,1,1,1,1,1,1,1");
    // the number of divisors
    assert_eq!(ones.dirichlet(&ones), exact("0,1,2,2,3,2,4,2,4,3,4,2,6"));
    assert!((ones.dirichlet(&ones)).identical(&(exact("0,1,2,2,3,2,4,2,4,3,4,2,6"))));
    assert_eq!(ones.dirichlet(&ones).accuracy(), 13);
    let id = exact("0,1,2,3,4,5,6,7,8,9,10,11,12");
    assert_eq!(id.dirichlet(&ones), id.mobius_inv());
    assert!((id.dirichlet(&ones)).identical(&(id.mobius_inv())));
    assert_eq!(ones.accuracy(), 13);
    // partitions into distinct parts: 1, 1, 1, 2, 2, 3, 4, 5, 6, 8, 10
    let parts = exact("0,1,1,1,1,1,1,1,1,1,1").powerset().unwrap();
    assert_eq!(parts, exact("0,1,1,2,2,3,4,5,6,8,10"));
    assert!((parts).identical(&(exact("0,1,1,2,2,3,4,5,6,8,10"))));
}

#[test]
fn transforms_fail_in_small_characteristic() {
    // modulo 65521 the integers up to 15 are invertible
    let a: ShortSeq<ModIntP32> = "1,2,3,4".parse().unwrap();
    assert!(a.integrate().is_ok());
    assert!(a.laplace_inv().is_ok());
    assert!(a.euler().is_ok());
    assert!(a.lah().is_ok());
    assert!(FixedSeq::<ModIntP32, 4>::sin(9).is_ok());
}

#[test]
fn tables() {
    let f = factorials::<ModIntP32>(6);
    assert_eq!(f, vec![1u32, 1, 2, 6, 24, 120].into_iter().map(ModIntP32::from_u32).collect::<Vec<_>>());
    let g = inverse_factorials::<ModIntP32>(6).unwrap();
    for i in 0..6 {
        assert_eq!(f[i].mul(g[i]), ModIntP32::one());
    }
    assert_eq!(zero_vec::<ModIntP32>(3), vec![ModIntP32::zero(); 3]);
    assert_eq!(inverse_factorials::<ModIntP32>(0), Some(vec![]));
}
