use slide_puzzle::puzzle::Puzzle;
use slide_puzzle::tile::serialize_tiles;

fn solved_text(text: &str) -> String {
    Puzzle::from_str(text).unwrap().solved().serialized()
}

#[test]
fn solved_layout_without_walls() {
    assert_eq!(solved_text("3,3,123456708"), "3,3,123456780");
    assert_eq!(solved_text("3,3,087654321"), "3,3,123456780");
    assert_eq!(solved_text("3,4,03a21648b579"), "3,4,123456789ab0");
    assert_eq!(solved_text("1,1,0"), "1,1,0");
}

#[test]
fn solved_layout_puts_digits_before_lower_before_upper_case() {
    assert_eq!(solved_text("3,3,Za0Ab91zB"), "3,3,19abzABZ0");
}

#[test]
fn solved_layout_with_one_wall() {
    assert_eq!(solved_text("3,3,12346075="), "3,3,12345670=");
    assert_eq!(solved_text("4,3,123406785aC="), "4,3,12345678aC0=");
    assert_eq!(solved_text("3,3,=21043765"), "3,3,=12345670");
}

#[test]
fn solved_layout_with_several_walls() {
    assert_eq!(solved_text("3,3,1=2=30456"), "3,3,1=2=34560");
    assert_eq!(solved_text("3,3,==3201==="), "3,3,==1230===");
    assert_eq!(solved_text("3,3,0=======1"), "3,3,1=======0");
    assert_eq!(solved_text("2,3,=0=1=2"), "2,3,=1=2=0");
}

#[test]
fn solved_layout_keeps_the_order_of_symbols_of_equal_rank() {
    // '#' and '!' both have rank -1 and come before every ranked symbol.
    assert_eq!(solved_text("2,3,2#1!03"), "2,3,#!1230");
    assert_eq!(solved_text("2,3,2!1#03"), "2,3,!#1230");
}

#[test]
fn solved_layout_has_no_moves_and_no_cost() {
    let mut puzzle = Puzzle::from_str("3,3,123405678").unwrap();
    puzzle.move_space(slide_puzzle::direction::Direction::UP).unwrap();
    let child = puzzle.generate_successors(puzzle.space_idx(), 4);
    let far = child.get(0).unwrap();
    let solved = far.solved();
    assert_eq!(solved.g(), 0);
    assert!(solved.moves().is_empty());
    assert_eq!(solved.width(), 3);
    assert_eq!(solved.height(), 3);
    assert_eq!(serialize_tiles(solved.tiles()), "123456780");
    assert_eq!(solved.content_hash(), Puzzle::from_str("3,3,123456780").unwrap().content_hash());
}

#[test]
fn solved_layout_of_a_solved_layout_is_itself() {
    for text in ["3,3,123456708", "3,3,12346075=", "4,3,123406785aC=", "3,3,1=2=30456"] {
        let solved = Puzzle::from_str(text).unwrap().solved();
        assert_eq!(solved.solved().serialized(), solved.serialized());
        assert!(solved.is_solved(&solved.solved()));
    }
}

#[test]
fn heuristic_of_a_target_against_itself_is_zero() {
    for text in [
        "3,3,123456708",
        "3,3,12346075=",
        "4,3,123406785aC=",
        "3,4,03a21648b579",
        "3,3,1=2=30456",
        "1,1,0",
    ] {
        let solved = Puzzle::from_str(text).unwrap().solved();
        assert_eq!(solved.get_heuristic(&solved), 0);
        assert_eq!(solved.get_heuristic(&solved.clone()), 0);
        for tile in solved.tiles() {
            assert_eq!(solved.manhattan_distance(tile, &solved), 0);
        }
    }
}

#[test]
fn a_symbol_outside_the_alphabet_shares_the_rank_of_walls() {
    // '#' has rank -1 like the wall before it, so its place in the target
    // is looked up at the wall's index: one column to the left.
    let puzzle = Puzzle::from_str("2,2,=#01").unwrap();
    let solved = puzzle.solved();
    assert_eq!(solved.serialized(), "2,2,=#10");
    assert_eq!(solved.get_heuristic(&solved), 1);
}
