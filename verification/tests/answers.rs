use slide_puzzle::error::PuzzleError;
use slide_puzzle::memo::{answer, Lookup};

#[test]
fn moves_from_the_memo_are_the_answer() {
    let a = answer("4,3,123406785aC=", Lookup::Hit(String::from("LLL")), None).unwrap();
    assert_eq!(a.moves, Some(String::from("LLL")));
    assert!(!a.store);
}

#[test]
fn a_hit_answers_even_what_is_no_board() {
    let a = answer("no board", Lookup::Hit(String::from("U")), Some(0)).unwrap();
    assert_eq!(a.moves, Some(String::from("U")));
    assert!(!a.store);
}

#[test]
fn a_miss_is_answered_by_a_search_and_stored() {
    let a = answer("4,3,123406785aC=", Lookup::Miss, None).unwrap();
    assert_eq!(a.moves, Some(String::from("DRR")));
    assert!(a.store);
}

#[test]
fn a_memo_out_of_reach_counts_as_a_miss() {
    let a = answer("4,3,123406785aC=", Lookup::Unavailable, None).unwrap();
    assert_eq!(a.moves, Some(String::from("DRR")));
    assert!(a.store);
    let b = answer("3,3,123456708", Lookup::Unavailable, None).unwrap();
    assert_eq!(b.moves, Some(String::from("R")));
}

#[test]
fn nothing_found_is_not_stored() {
    let a = answer("2,2,2130", Lookup::Miss, None).unwrap();
    assert_eq!(a.moves, None);
    assert!(!a.store);
    let b = answer("4,3,123406785aC=", Lookup::Miss, Some(2)).unwrap();
    assert_eq!(b.moves, None);
    assert!(!b.store);
}

#[test]
fn a_text_that_is_no_board_is_a_format_error() {
    assert!(matches!(answer("3,3,1234", Lookup::Miss, None), Err(PuzzleError::FormatError(_))));
    assert!(matches!(answer("", Lookup::Unavailable, None), Err(PuzzleError::FormatError(_))));
}

#[test]
fn a_board_without_exactly_one_blank_is_unsolvable() {
    assert!(matches!(
        answer("2,2,1234", Lookup::Miss, None),
        Err(PuzzleError::UnsolvableBoard(_))
    ));
    assert!(matches!(
        answer("2,2,1001", Lookup::Miss, None),
        Err(PuzzleError::UnsolvableBoard(_))
    ));
    assert!(matches!(answer("0,0,", Lookup::Miss, None), Err(PuzzleError::UnsolvableBoard(_))));
}
