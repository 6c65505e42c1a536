use perq::search::{
    calculate_long, match_score, ps_binop, ps_preop, ps_unop, shorten, signed, BINOP_NUM,
    PREOP_NUM, UNOP_NUM,
};
use perq::{FixedSeq, Group, MersP31, MersP61, PowerSeries, Ring, ShortSeq};

fn exact(text: &str) -> ShortSeq<MersP61> {
    text.parse().unwrap()
}

#[test]
fn adjustments_by_number() {
    let a = exact("3,1,4,1,5");
    assert_eq!(PREOP_NUM, 8);
    assert_eq!(ps_preop(a, 0), a);
    assert_eq!(ps_preop(a, 1).accuracy(), 4);
    assert_eq!(ps_preop(a, 1), exact("1,4,1,5"));
    assert_eq!(ps_preop(a, 2), exact("4,1,5"));
    assert_eq!(ps_preop(a, 3), exact("0,3,1,4,1,5"));
    assert_eq!(ps_preop(a, 3).accuracy(), 6);
    assert_eq!(ps_preop(a, 4), exact("0,0,3,1,4,1,5"));
    assert_eq!(ps_preop(a, 5), exact("0,1,4,1,5"));
    assert_eq!(ps_preop(a, 5).accuracy(), 5);
    assert_eq!(ps_preop(a, 6), exact("4,1,4,1,5"));
    assert_eq!(ps_preop(a, 7), exact("2,1,4,1,5"));
    assert_eq!(ps_preop(exact("0,1"), 7), exact("-1,1"));
}

#[test]
fn transforms_by_number() {
    let a = exact("1,2,4,8,16,32");
    assert_eq!(UNOP_NUM, 30);
    assert_eq!(ps_unop(a, 0), (Some(a), 0));
    assert_eq!(ps_unop(a, 1), (Some(exact("-1,-2,-4,-8,-16,-32")), 50));
    assert_eq!(ps_unop(a, 2), (Some(exact("2,8,24,64,160")), 100));
    assert_eq!(ps_unop(a, 6), (Some(exact("1,3,7,15,31,63")), 200));
    assert_eq!(ps_unop(a, 8), (Some(exact("1,2,4,8,16")), 150));
    assert_eq!(ps_unop(a, 9), (Some(exact("1,3,9,27,81,243")), 100));
    assert_eq!(ps_unop(a, 12), (None, 100));
    assert_eq!(ps_unop(a, 13), (None, 100));
    assert_eq!(ps_unop(exact("1,2,3,2,1"), 26), (Some(exact("1,1,1,0,0")), 150));
    assert_eq!(ps_unop(exact("2,2,3,2,1"), 26), (None, 150));
    assert_eq!(ps_unop(exact("1,3,3,1,0"), 27), (Some(exact("1,1,0,0,0")), 200));
    assert_eq!(ps_unop(exact("1,1,0,0,0"), 28), (Some(exact("1,2,1,0,0")), 100));
    assert_eq!(ps_unop(exact("1,1,0,0,0"), 29), (Some(exact("1,3,3,1,0")), 150));
    assert_eq!(ps_unop(exact("0,1,2"), 5), (None, 100));
    for i in 0..UNOP_NUM {
        let (_, cost) = ps_unop(a, i);
        assert!(cost % 50 == 0 && cost <= 200);
    }
}

#[test]
fn combinations_by_number() {
    let a = exact("1,2,3");
    let b = exact("0,1,1");
    assert_eq!(BINOP_NUM, 10);
    assert_eq!(ps_binop(a, &b, 0), (Some(exact("1,3,4")), 100));
    assert_eq!(ps_binop(a, &b, 1), (Some(exact("1,1,2")), 100));
    assert_eq!(ps_binop(a, &b, 2), (Some(exact("0,1,3")), 100));
    assert_eq!(ps_binop(a, &b, 3), (None, 150));
    assert_eq!(ps_binop(a, &b, 4), (Some(exact("0,1,-1")), 150));
    // 1 + 2 (x + x^2) + 3 (x + x^2)^2
    assert_eq!(ps_binop(a, &b, 5), (Some(exact("1,2,5")), 200));
    assert_eq!(ps_binop(a, &b, 6), (None, 200));
    assert_eq!(ps_binop(a, &b, 7), (Some(exact("0,2,3")), 200));
    assert_eq!(ps_binop(a, &b, 9), (Some(exact("0,2,5")), 200));
    let (prod, cost) = ps_binop(a, &a, 8);
    assert_eq!(cost, 200);
    // coefficient i is the sum of C(i, j) * a[j] * a[i - j]
    assert_eq!(prod, Some(exact("1,4,14")));
}

#[test]
fn the_integer_of_least_absolute_value() {
    assert_eq!(signed(MersP61::from_u32(0)), 0);
    assert_eq!(signed(MersP61::from_u32(5)), 5);
    assert_eq!(signed(MersP61::from_u32(5).neg()), -5);
    assert_eq!(signed(MersP61::from_u64(1152921504606846975)), 1152921504606846975);
    assert_eq!(signed(MersP61::from_u64(1152921504606846976)), -1152921504606846975);
}

#[test]
fn short_forms_modulo_the_smaller_prime() {
    let long: FixedSeq<MersP61, 64> = "1,-2,2147483647,2147483650,-2147483649".parse().unwrap();
    let short = shorten(&long);
    assert_eq!(short.accuracy(), 5);
    assert_eq!(
        short.to_vec(),
        vec![
            MersP31::from_u32(1),
            MersP31::from_u32(2).neg(),
            MersP31::from_u32(0),
            MersP31::from_u32(3),
            MersP31::from_u32(2).neg(),
        ]
    );
    let many: FixedSeq<MersP61, 64> =
        "1,2,3,4,5,6,7,8,9,10,11,12,13,14,15,16,17,18,19,20".parse().unwrap();
    let cut = shorten(&many);
    assert_eq!(cut.accuracy(), 16);
    assert_eq!(cut.coefficient(15), MersP31::from_u32(16));
    let none: FixedSeq<MersP61, 64> = FixedSeq::<MersP61, 64>::zeroes(0);
    assert_eq!(shorten(&none).accuracy(), 0);
}

#[test]
fn the_score_of_a_match() {
    let found: FixedSeq<MersP61, 64> = "1,-2,3,0,15,-20,9,10".parse().unwrap();
    // weights 10 + 20 + 30 + 0 + 100 + 100 + 90 + 100
    assert_eq!(match_score(&found, 0, 0, 1, false), 450);
    assert_eq!(match_score(&found, 100, 150, 1, false), 200);
    assert_eq!(match_score(&found, 100, 150, 1, true), -600);
    assert_eq!(match_score(&found, 0, 0, 2, false), 450 - 33);
    assert_eq!(match_score(&found, 0, 0, 3, false), 450 - 33);
    assert_eq!(match_score(&found, 0, 0, 1024, false), 450 - 330);
    assert_eq!(match_score(&found, 0, 0, 300000, false), 450 - 33 * 18);
    assert_eq!(match_score(&found, -5, i32::MIN, 1, false), 455 + 2147483648);
    let none: FixedSeq<MersP61, 64> = FixedSeq::<MersP61, 64>::zeroes(0);
    assert_eq!(match_score(&none, 7, 0, usize::MAX, true), -7 - 33 * (usize::BITS as i64 - 1) - 800);
}

#[test]
fn the_value_of_a_relation() {
    let inp = exact("1,2,3,4,5,6");
    let ones = exact("1,1,1,1,1,1");
    for pre in 0..PREOP_NUM {
        for post in 0..PREOP_NUM {
            for u in 0..UNOP_NUM {
                let by_hand = ps_unop(ps_preop(inp, pre), u).0.map(|v| ps_preop(v, post));
                let got = calculate_long(&inp, pre, post, u, None, usize::MAX);
                assert_eq!(got.is_some(), by_hand.is_some());
                if let (Some(x), Some(y)) = (got, by_hand) {
                    assert!(x.identical(&y));
                }
                for b in 0..BINOP_NUM {
                    let by_hand = ps_unop(ps_preop(inp, pre), u)
                        .0
                        .and_then(|v| ps_binop(v, &ones, b).0)
                        .map(|v| ps_preop(v, post));
                    let got = calculate_long(&inp, pre, post, u, Some(&ones), b);
                    assert_eq!(got.is_some(), by_hand.is_some());
                    if let (Some(x), Some(y)) = (got, by_hand) {
                        assert!(x.identical(&y));
                    }
                }
            }
        }
    }
    // without the constant term, minus the series of ones, plus one
    let r = calculate_long(&inp, 1, 6, 0, Some(&ones), 1).unwrap();
    assert!(r.identical(&exact("2,2,3,4,5")));
}
