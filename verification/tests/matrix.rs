use perq::{Field, Group, Matrix, ModIntP32, One, Ring, Zero};

fn table(rows: &[&[u32]]) -> Matrix<ModIntP32> {
    let mut m = Matrix::<ModIntP32>::new(rows.len(), rows[0].len());
    for (i, row) in rows.iter().enumerate() {
        for (j, v) in row.iter().enumerate() {
            m.set(i, j, ModIntP32::from_u32(*v));
        }
    }
    m
}

fn apply(m: &Matrix<ModIntP32>, x: &[ModIntP32]) -> Vec<ModIntP32> {
    let (r, c) = m.shape();
    let mut out = vec![];
    for i in 0..r {
        let mut acc = ModIntP32::zero();
        for j in 0..c {
            acc = acc.add(m.get(i, j).mul(x[j]));
        }
        out.push(acc);
    }
    out
}

#[test]
fn new_matrix_is_zero() {
    let m = Matrix::<ModIntP32>::new(2, 3);
    assert_eq!(m.shape(), (2, 3));
    for i in 0..2 {
        for j in 0..3 {
            assert!(m.get(i, j).is_zero());
        }
    }
}

#[test]
fn swap_and_transpose() {
    let mut m = table(&[&[1, 2, 3], &[4, 5, 6]]);
    m.swap((0, 0), (1, 2));
    assert_eq!(m, table(&[&[6, 2, 3], &[4, 5, 1]]));
    assert_eq!(m.transpose(), table(&[&[6, 4], &[2, 5], &[3, 1]]));
    m.swap_rows(0, 1);
    assert_eq!(m, table(&[&[4, 5, 1], &[6, 2, 3]]));
    m.scale_row(0, ModIntP32::from_u32(2));
    assert_eq!(m, table(&[&[8, 10, 2], &[6, 2, 3]]));
    m.sub_scaled_row(1, 0, ModIntP32::from_u32(3));
    assert_eq!(m, table(&[&[8, 10, 2], &[65503, 65493, 65518]]));
    assert_eq!(m.clone(), m);
}

#[test]
fn solve_round_trip() {
    let a = table(&[&[2, 1, 1], &[1, 3, 2], &[1, 0, 0]]);
    let b = vec![ModIntP32::from_u32(4), ModIntP32::from_u32(5), ModIntP32::from_u32(6)];
    let x = a.solve(&b).unwrap();
    assert_eq!(apply(&a, &x), b);
    assert_eq!(
        x,
        vec![ModIntP32::from_u32(6), ModIntP32::from_u32(15), ModIntP32::from_u32(23).neg()]
    );
}

#[test]
fn solve_sets_free_unknowns_to_zero() {
    // x0 + x1 == 3, the second row is twice the first
    let a = table(&[&[1, 1], &[2, 2]]);
    let b = vec![ModIntP32::from_u32(3), ModIntP32::from_u32(6)];
    assert_eq!(a.solve(&b), Some(vec![ModIntP32::from_u32(3), ModIntP32::zero()]));
    let bad = vec![ModIntP32::from_u32(3), ModIntP32::from_u32(7)];
    assert_eq!(a.solve(&bad), None);
    let short = vec![ModIntP32::from_u32(3)];
    assert_eq!(a.solve(&short), None);
}

#[test]
fn inverse_round_trip() {
    let a = table(&[&[2, 1], &[7, 4]]);
    let inv = a.inverse().unwrap();
    assert_eq!(inv, table(&[&[4, 65520], &[65514, 2]]));
    let singular = table(&[&[1, 2], &[2, 4]]);
    assert_eq!(singular.inverse(), None);
    let zero = Matrix::<ModIntP32>::new(1, 1);
    assert_eq!(zero.inverse(), None);
    let wide = Matrix::<ModIntP32>::new(1, 2);
    assert_eq!(wide.inverse(), None);
}

#[test]
fn rref_reports_rank_and_vanishing_determinant() {
    let a = table(&[&[0, 2], &[3, 0]]);
    let (red, det, rank) = a.rref().unwrap();
    assert_eq!(red, table(&[&[1, 0], &[0, 1]]));
    assert_eq!(rank, 2);
    assert_eq!(det, ModIntP32::from_u32(6).neg());
    let s = table(&[&[1, 2], &[2, 4]]);
    let (red, det, rank) = s.rref().unwrap();
    assert_eq!(red, table(&[&[1, 2], &[0, 0]]));
    assert_eq!(rank, 1);
    assert_eq!(det, ModIntP32::zero());
    assert_eq!(ModIntP32::one().div(ModIntP32::one()), Some(ModIntP32::one()));
}

#[test]
fn ring_operations_on_matrices() {
    let a = table(&[&[1, 2], &[3, 4]]);
    let b = table(&[&[5, 6], &[7, 8]]);
    assert_eq!(a.add(&b), Some(table(&[&[6, 8], &[10, 12]])));
    assert_eq!(b.sub(&a), Some(table(&[&[4, 4], &[4, 4]])));
    assert_eq!(a.sub(&b), Some(table(&[&[65517, 65517], &[65517, 65517]])));
    assert_eq!(a.neg(), table(&[&[65520, 65519], &[65518, 65517]]));
    assert_eq!(a.mul(&b), Some(table(&[&[19, 22], &[43, 50]])));
    assert_eq!(b.mul(&a), Some(table(&[&[23, 34], &[31, 46]])));
    let wide = table(&[&[1, 2, 3]]);
    assert_eq!(a.add(&wide), None);
    assert_eq!(a.sub(&wide), None);
    assert_eq!(a.mul(&wide), None);
    assert_eq!(wide.mul(&table(&[&[1], &[1], &[1]])), Some(table(&[&[6]])));
    let inv = a.inverse().unwrap();
    assert_eq!(a.mul(&inv), Some(table(&[&[1, 0], &[0, 1]])));
    assert_eq!(inv.mul(&a), Some(table(&[&[1, 0], &[0, 1]])));
}

#[test]
fn the_determinant_is_the_signed_product_of_the_pivots() {
    let e = ModIntP32::from_u32;
    // no exchange: 2 * 3 - 1 * 4
    let (_, det, rank) = table(&[&[2, 1], &[4, 3]]).rref().unwrap();
    assert_eq!((det, rank), (e(2), 2));
    // one exchange of rows
    let (_, det, rank) = table(&[&[0, 1], &[1, 0]]).rref().unwrap();
    assert_eq!((det, rank), (e(1).neg(), 2));
    let (_, det, rank) = table(&[&[0, 2, 1], &[3, 0, 0], &[0, 0, 5]]).rref().unwrap();
    assert_eq!((det, rank), (e(30).neg(), 3));
    let (_, det, rank) = table(&[&[1, 2, 3], &[4, 5, 6], &[7, 8, 10]]).rref().unwrap();
    assert_eq!((det, rank), (e(3).neg(), 3));
    // not square, or not of full rank
    let (_, det, rank) = table(&[&[1, 2, 3], &[4, 5, 6]]).rref().unwrap();
    assert_eq!((det, rank), (e(0), 2));
    let (_, det, rank) = table(&[&[1, 2], &[2, 4]]).rref().unwrap();
    assert_eq!((det, rank), (e(0), 1));
    let (_, det, rank) = Matrix::<ModIntP32>::new(0, 0).rref().unwrap();
    assert_eq!((det, rank), (e(1), 0));
}

#[test]
fn the_inverse_is_an_inverse_on_both_sides() {
    let a = table(&[&[1, 2, 3], &[4, 5, 6], &[7, 8, 10]]);
    let b = a.inverse().unwrap();
    let mut id = Matrix::<ModIntP32>::new(3, 3);
    for i in 0..3 {
        id.set(i, i, ModIntP32::one());
    }
    let ab = a.mul(&b).unwrap();
    let ba = b.mul(&a).unwrap();
    for i in 0..3 {
        for j in 0..3 {
            assert_eq!(ab.get(i, j), id.get(i, j));
            assert_eq!(ba.get(i, j), id.get(i, j));
        }
    }
    let x = a.solve(&[ModIntP32::from_u32(6), ModIntP32::from_u32(15), ModIntP32::from_u32(25)]).unwrap();
    assert_eq!(x, vec![ModIntP32::one(); 3]);
}

#[test]
fn matrices_from_text() {
    let e = ModIntP32::from_u32;
    let m: Matrix<ModIntP32> = "[[1, 2, 3], [4, 5, 65522]]".parse().unwrap();
    assert_eq!(m.shape(), (2, 3));
    assert_eq!(m.get(0, 0), e(1));
    assert_eq!(m.get(0, 2), e(3));
    assert_eq!(m.get(1, 0), e(4));
    assert_eq!(m.get(1, 2), e(1));
    let m: Matrix<ModIntP32> = " [ [ -1 ,2 ]\n,[3,\t4],[5,6]] ".parse().unwrap();
    assert_eq!(m.shape(), (3, 2));
    assert_eq!(m.get(0, 0), e(1).neg());
    assert_eq!(m.get(2, 1), e(6));
    let same = Matrix::<ModIntP32>::from_bytes(b"[[7]]").unwrap();
    assert_eq!(same.shape(), (1, 1));
    assert_eq!(same.get(0, 0), e(7));
    // rows are what stands on the second level of brackets
    assert_eq!("".parse::<Matrix<ModIntP32>>().unwrap().shape(), (0, 0));
    assert_eq!("[]".parse::<Matrix<ModIntP32>>().unwrap().shape(), (0, 0));
    assert_eq!("[1, 2]".parse::<Matrix<ModIntP32>>().unwrap().shape(), (0, 0));
    assert_eq!("x[y[1]z]".parse::<Matrix<ModIntP32>>().unwrap().shape(), (1, 1));
}

#[test]
fn text_that_is_no_matrix() {
    assert!("[[1, 2], [3]]".parse::<Matrix<ModIntP32>>().is_err());
    assert!("[[1, x]]".parse::<Matrix<ModIntP32>>().is_err());
    assert!("[[1, ]]".parse::<Matrix<ModIntP32>>().is_err());
    assert!("[[]]".parse::<Matrix<ModIntP32>>().is_err());
    assert!("[[[1]]]".parse::<Matrix<ModIntP32>>().is_err());
    assert!("[[1 2]]".parse::<Matrix<ModIntP32>>().is_err());
    assert!(Matrix::<ModIntP32>::from_bytes(b"[[1], [2, 3]]").is_err());
}
