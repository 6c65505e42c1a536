use perq::seqdb::{significant, SeqDB, TopResults, TOP_SHOWN};
use perq::{MersP31, PowerSeries, ShortSeq};

fn short(text: &str) -> ShortSeq<MersP31> {
    text.parse().unwrap()
}

#[test]
fn what_counts_as_significant() {
    assert!(significant(&short("1,1,2,3,5,8,13,21,34,55")));
    // too short
    assert!(!significant(&short("1,1,2,3,5,8,13,21,34")));
    // four leading zeros
    assert!(!significant(&short("0,0,0,0,2,3,5,8,13,21,34,55")));
    assert!(significant(&short("0,0,0,7,2,3,5,8,13,21,34,55")));
    // only five coefficients other than zero and one
    assert!(!significant(&short("1,0,1,0,1,2,3,4,5,6")));
    assert!(significant(&short("1,0,1,0,2,2,3,4,5,6")));
}

#[test]
fn entries_are_stored_once_and_found_by_number() {
    let mut db = SeqDB::new();
    assert_eq!(db.len(), 0);
    assert_eq!(db.index_of(45), None);
    assert!(db.add_entry(45, short("0,1,1,2,3,5,8,13,21,34,55,89")));
    assert!(db.add_entry(79, short("1,2,4,8,16,32,64,128,256,512,1024")));
    // the same sequence again, and one that says too little
    assert!(!db.add_entry(1045, short("0,1,1,2,3,5,8,13,21,34,55,89")));
    assert!(!db.add_entry(12, short("1,1,1,1,1,1,1,1,1,1,1")));
    assert_eq!(db.len(), 2);
    assert_eq!(db.index_of(45), Some(0));
    assert_eq!(db.index_of(79), Some(1));
    assert_eq!(db.index_of(1045), None);
    assert_eq!(db.index_of(12), None);
    assert_eq!(db.number(1), 79);
    assert_eq!(db.sequence(0).accuracy(), 12);
    assert_eq!(db.sequence(1), short("1,2,4,8"));
}

#[test]
fn matching_by_the_known_prefix() {
    let mut db = SeqDB::new();
    assert!(db.add_entry(45, short("0,1,1,2,3,5,8,13,21,34,55,89")));
    assert!(db.add_entry(79, short("1,2,4,8,16,32,64,128,256,512,1024")));
    assert!(db.add_entry(32, short("2,1,3,4,7,11,18,29,47,76,123")));
    assert!(db.add_entry(96, short("0,1,1,2,3,5,9,13,21,34,55,89")));
    assert_eq!(db.db_match_short(&short("0,1,1,2,3,5")), vec![0, 3]);
    assert_eq!(db.db_match_short(&short("0,1,1,2,3,5,8")), vec![0]);
    assert_eq!(db.db_match_short(&short("2,1,3,4,7,11,18,29,47,76,123,199,322")), vec![2]);
    assert_eq!(db.db_match_short(&short("5")), Vec::<usize>::new());
    assert_eq!(db.db_match_short(&ShortSeq::<MersP31>::zeroes(0)), vec![0, 1, 2, 3]);
}

#[test]
fn the_best_matches_are_kept_in_order() {
    let mut top: TopResults<&str> = TopResults::new();
    top.add_result(50, "a");
    top.add_result(70, "b");
    top.add_result(50, "c");
    top.add_result(60, "d");
    assert_eq!(top.len(), 4);
    let order: Vec<&str> = (0..top.len()).map(|i| *top.item(i)).collect();
    assert_eq!(order, vec!["b", "d", "a", "c"]);
    assert_eq!(top.score(0), 70);
    assert_eq!(top.score(3), 50);
    for i in 0..20 {
        top.add_result(i, "x");
    }
    assert_eq!(top.len(), TOP_SHOWN);
    assert_eq!(TOP_SHOWN, 10);
    assert_eq!(top.score(0), 70);
    assert_eq!(top.score(4), 19);
    assert_eq!(top.score(9), 14);
    top.add_result(-5, "late");
    assert_eq!(top.len(), 10);
    assert_eq!(top.score(9), 14);
}

#[test]
fn the_simplest_recurrence_of_a_short_sequence() {
    let db = SeqDB::new();
    // Fibonacci: twelve spare terms, a recurrence of order two at most six
    assert_eq!(db.db_interpolate_short_c(short("0,1,1,2,3,5,8,13,21,34,55,89,144,233,377,610")), Some(7));
    // the factorials have no recurrence with constant coefficients of order
    // six, but one of two polynomials of degree one
    assert_eq!(
        db.db_interpolate_short_c(short(
            "1,1,2,6,24,120,720,5040,40320,362880,3628800,39916800,479001600,6227020800,87178291200,1307674368000"
        )),
        Some(6)
    );
    // a sequence of four terms has no spare terms: only the order zero is tried
    assert_eq!(db.db_interpolate_short_c(short("0,0,0,0")), Some(1));
    assert_eq!(db.db_interpolate_short_c(short("1,2,3,4")), None);
    assert_eq!(db.db_interpolate_short_c(short("3,1,4,1,5,9,2,6,5,3,5,8,9,7,9,3")), None);
}
