use perq::exprtree::SeqExprTree;
use perq::{ModIntP32, PowerSeries, SeriesError, ShortSeq};

type Tree = SeqExprTree<ModIntP32, 16>;

fn series(text: &str) -> ShortSeq<ModIntP32> {
    text.parse().unwrap()
}

fn leaf(text: &str) -> Box<Tree> {
    Box::new(Tree::leaf(series(text)))
}

#[test]
fn expressions_have_the_value_of_their_operations() {
    let a = "1,2,3,4";
    let b = "1,1,1,1";
    let z = "0,1,1,1";
    assert!(Tree::leaf(series(a)).eval().unwrap().identical(&series(a)));
    assert!(Tree::Add(leaf(a), leaf(b)).eval().unwrap().identical(&series("2,3,4,5")));
    assert!(Tree::Sub(leaf(a), leaf(b)).eval().unwrap().identical(&series("0,1,2,3")));
    assert!(Tree::Mul(leaf(a), leaf(b)).eval().unwrap().identical(&series("1,3,6,10")));
    assert!(Tree::Div(leaf("1,3,6,10"), leaf(b)).eval().unwrap().identical(&series(a)));
    assert!(Tree::Hadamard(leaf(a), leaf(a)).eval().unwrap().identical(&series("1,4,9,16")));
    assert!(Tree::Neg(leaf("0,1,2")).eval().unwrap().identical(&series("0,65520,65519")));
    assert!(Tree::LShift(leaf(a)).eval().unwrap().identical(&series("2,3,4")));
    assert!(Tree::RShift(leaf(a)).eval().unwrap().identical(&series("0,1,2,3,4")));
    assert!(Tree::Derive(leaf(a)).eval().unwrap().identical(&series("2,6,12")));
    assert!(Tree::Integrate(leaf("2,6,12")).eval().unwrap().identical(&series("0,2,3,4")));
    assert!(Tree::Compose(leaf(b), leaf(z)).eval().unwrap().identical(&series("1,1,2,4")));
    assert!(Tree::Sqrt(leaf("1,2,3,4")).eval().unwrap().identical(&series(b)));
    // the inverse of x / (1 - x) is x / (1 + x)
    assert!(Tree::Inverse(leaf(z)).eval().unwrap().identical(&series("0,1,65520,1")));
}

#[test]
fn expressions_of_expressions() {
    // (1 / (1 - x))' - 1 / (1 - x)^2 == 0
    let geom = || leaf("1,1,1,1,1,1");
    let t = Tree::Sub(
        Box::new(Tree::Derive(geom())),
        Box::new(Tree::Mul(geom(), geom())),
    );
    assert!(t.eval().unwrap().identical(&ShortSeq::<ModIntP32>::zeroes(5)));
    let c = "1,1,2,5,14,42,132,429";
    // the Catalan series is 1 + x * C^2
    let rhs = Tree::Add(
        leaf("1,0,0,0,0,0,0,0"),
        Box::new(Tree::RShift(Box::new(Tree::Mul(leaf(c), leaf(c))))),
    );
    let v = rhs.eval().unwrap();
    assert_eq!(v.accuracy(), 8);
    assert!(v.identical(&series(c)));
}

#[test]
fn an_impossible_operation_fails_the_whole_expression() {
    let a = "1,2,3,4";
    let z = "0,1,1,1";
    assert_eq!(Tree::Div(leaf(a), leaf(z)).eval().unwrap_err(), SeriesError::InvalidOperand);
    assert_eq!(Tree::Compose(leaf(a), leaf(a)).eval().unwrap_err(), SeriesError::InvalidOperand);
    assert_eq!(Tree::Inverse(leaf(a)).eval().unwrap_err(), SeriesError::InvalidOperand);
    assert_eq!(Tree::Inverse(leaf("0,0,1")).eval().unwrap_err(), SeriesError::InvalidOperand);
    assert_eq!(Tree::Sqrt(leaf("4,1")).eval().unwrap_err(), SeriesError::InvalidOperand);
    let deep = Tree::Add(
        leaf(a),
        Box::new(Tree::Neg(Box::new(Tree::Mul(leaf(a), Box::new(Tree::Div(leaf(a), leaf(z))))))),
    );
    assert_eq!(deep.eval().unwrap_err(), SeriesError::InvalidOperand);
    assert!(Tree::Integrate(leaf(a)).eval().is_ok());
}
