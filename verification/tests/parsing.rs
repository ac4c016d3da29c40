use slide_puzzle::error::PuzzleError;
use slide_puzzle::puzzle::Puzzle;
use slide_puzzle::tile::serialize_tiles;

#[test]
fn parse_reads_dimensions_and_symbols() {
    let puzzle = Puzzle::from_str("4,3,123406785aC=").unwrap();
    assert_eq!(puzzle.width(), 4);
    assert_eq!(puzzle.height(), 3);
    assert_eq!(serialize_tiles(puzzle.tiles()), "123406785aC=");
    assert_eq!(puzzle.g(), 0);
    assert!(puzzle.moves().is_empty());
    assert_eq!(puzzle.moves_str(), "");
}

#[test]
fn parse_then_serialize_gives_the_text_back() {
    for text in [
        "3,3,123456708",
        "3,3,12346075=",
        "4,3,123406785aC=",
        "3,4,03a21648b579",
        "1,1,0",
        "2,1,01",
        "0,0,",
        "9,9,123456789abcdefghijklmnopqrstuvwxyzABCDEFGHIJKLMNOPQRSTUVWXYZ0===================",
    ] {
        let puzzle = Puzzle::from_str(text).unwrap();
        assert_eq!(puzzle.serialized(), text);
    }
}

#[test]
fn parse_does_not_examine_the_separators() {
    let puzzle = Puzzle::from_str("2x2;1230").unwrap();
    assert_eq!(puzzle.width(), 2);
    assert_eq!(puzzle.height(), 2);
    assert_eq!(puzzle.serialized(), "2,2,1230");
}

#[test]
fn parse_accepts_an_empty_board_without_the_last_separator() {
    let puzzle = Puzzle::from_str("0,0").unwrap();
    assert_eq!(puzzle.tiles().len(), 0);
    assert_eq!(puzzle.serialized(), "0,0,");
}

#[test]
fn parse_keeps_symbols_outside_the_alphabet() {
    let puzzle = Puzzle::from_str("2,2,#é01").unwrap();
    assert_eq!(serialize_tiles(puzzle.tiles()), "#é01");
}

fn is_format_error(text: &str) -> bool {
    matches!(Puzzle::from_str(text), Err(PuzzleError::FormatError(_)))
}

#[test]
fn parse_rejects_missing_digits() {
    assert!(is_format_error(""));
    assert!(is_format_error("3"));
    assert!(is_format_error("3,"));
    assert!(is_format_error("x,3,123456780"));
    assert!(is_format_error("3,y,123456780"));
    assert!(is_format_error(",3,123456780"));
}

#[test]
fn parse_rejects_a_wrong_number_of_symbols() {
    assert!(is_format_error("3,3,12345670"));
    assert!(is_format_error("3,3,1234567089"));
    assert!(is_format_error("3,3"));
    assert!(is_format_error("3,3,"));
    assert!(is_format_error("0,3,1"));
    assert!(is_format_error("2,2,123"));
}

#[test]
fn error_messages_name_their_kind() {
    assert_eq!(
        PuzzleError::IllegalMove(String::from("Cannot move space up")).message(),
        "Illegal move: Cannot move space up"
    );
    assert_eq!(
        PuzzleError::UnsolvableBoard(String::from("x")).message(),
        "Board is in an unsolvable configuration x"
    );
    assert_eq!(
        PuzzleError::FormatError(String::from("too short")).message(),
        "Malformed board text: too short"
    );
}

#[test]
fn copies_have_the_same_content() {
    let mut puzzle = Puzzle::from_str("3,3,123456708").unwrap();
    puzzle.move_space(slide_puzzle::direction::Direction::UP).unwrap();
    let copy = puzzle.clone();
    assert_eq!(copy.serialized(), puzzle.serialized());
    assert_eq!(copy.moves_str(), "U");
    assert_eq!(copy.content_hash(), puzzle.content_hash());
    assert_eq!(copy.g(), puzzle.g());
}
