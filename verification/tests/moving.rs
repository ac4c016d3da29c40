use slide_puzzle::direction::Direction::{DOWN, LEFT, RIGHT, UP};
use slide_puzzle::direction::{serialize_moves, Direction};
use slide_puzzle::error::PuzzleError;
use slide_puzzle::hashing::hash_tiles;
use slide_puzzle::puzzle::Puzzle;
use slide_puzzle::tile::{serialize_tiles, Tile};

fn board(text: &str) -> Puzzle {
    Puzzle::from_str(text).unwrap()
}

const ALL: [Direction; 4] = [Direction::UP, Direction::DOWN, Direction::LEFT, Direction::RIGHT];

#[test]
fn directions_as_letters() {
    assert_eq!(Direction::UP.to_char(), 'U');
    assert_eq!(Direction::DOWN.to_char(), 'D');
    assert_eq!(Direction::LEFT.to_char(), 'L');
    assert_eq!(Direction::RIGHT.to_char(), 'R');
    assert_eq!(
        serialize_moves(&vec![Direction::DOWN, Direction::RIGHT, Direction::RIGHT, Direction::UP, Direction::LEFT]),
        "DRRUL"
    );
    assert_eq!(serialize_moves(&Vec::new()), "");
}

#[test]
fn inverse_directions() {
    assert_eq!(Direction::UP.inverse(), Direction::DOWN);
    assert_eq!(Direction::DOWN.inverse(), Direction::UP);
    assert_eq!(Direction::LEFT.inverse(), Direction::RIGHT);
    assert_eq!(Direction::RIGHT.inverse(), Direction::LEFT);
    for d in ALL {
        assert_eq!(d.inverse().inverse(), d);
    }
}

#[test]
fn blank_index_is_the_first_blank() {
    assert_eq!(board("3,3,123456708").space_idx(), 7);
    assert_eq!(board("3,3,123456708").blank_index(), Some(7));
    assert_eq!(board("2,2,1023").blank_index(), Some(1));
    assert_eq!(board("2,2,1203").blank_index(), Some(2));
    assert_eq!(board("2,2,1234").blank_index(), None);
    assert_eq!(board("2,2,0100").blank_index(), Some(0));
}

#[test]
fn single_blank_is_told_from_none_and_several() {
    assert!(board("3,3,123456708").has_single_blank());
    assert!(!board("2,2,1234").has_single_blank());
    assert!(!board("2,2,0100").has_single_blank());
    assert!(!board("0,0,").has_single_blank());
}

#[test]
fn legal_moves_in_corners_edges_and_middle() {
    assert_eq!(board("3,3,012345678").legal_moves(0), vec![DOWN, RIGHT]);
    assert_eq!(board("3,3,102345678").legal_moves(1), vec![DOWN, LEFT, RIGHT]);
    assert_eq!(board("3,3,120345678").legal_moves(2), vec![DOWN, LEFT]);
    assert_eq!(board("3,3,123045678").legal_moves(3), vec![UP, DOWN, RIGHT]);
    assert_eq!(board("3,3,123405678").legal_moves(4), vec![UP, DOWN, LEFT, RIGHT]);
    assert_eq!(board("3,3,123450678").legal_moves(5), vec![UP, DOWN, LEFT]);
    assert_eq!(board("3,3,123456078").legal_moves(6), vec![UP, RIGHT]);
    assert_eq!(board("3,3,123456708").legal_moves(7), vec![UP, LEFT, RIGHT]);
    assert_eq!(board("3,3,123456780").legal_moves(8), vec![UP, LEFT]);
    assert_eq!(board("1,1,0").legal_moves(0), Vec::new());
}

#[test]
fn legal_moves_leave_out_walls() {
    assert_eq!(board("3,3,1=34056=8").legal_moves(4), vec![LEFT, RIGHT]);
    assert_eq!(board("3,3,123=0=456").legal_moves(4), vec![UP, DOWN]);
    assert_eq!(board("3,3,1=3=0=4=6").legal_moves(4), Vec::new());
    assert_eq!(board("3,3,12345067=").legal_moves(5), vec![UP, LEFT]);
}

#[test]
fn legal_moves_never_leave_the_grid_or_hit_a_wall() {
    for text in ["3,3,1=3405678", "4,3,123406785aC=", "3,4,03a21648b579", "2,2,0=12", "1,3,0=1"] {
        let puzzle = board(text);
        let width = puzzle.width() as i64;
        let height = puzzle.height() as i64;
        let at = puzzle.space_idx() as i64;
        for d in puzzle.legal_moves(at as usize) {
            let (row, col) = match d {
                Direction::UP => (at / width - 1, at % width),
                Direction::DOWN => (at / width + 1, at % width),
                Direction::LEFT => (at / width, at % width - 1),
                Direction::RIGHT => (at / width, at % width + 1),
            };
            assert!(0 <= row && row < height && 0 <= col && col < width);
            assert!(puzzle.tiles()[(row * width + col) as usize].raw != '=');
        }
    }
}

#[test]
fn move_swaps_blank_and_neighbour_and_records_the_move() {
    let mut puzzle = board("3,3,123405678");
    puzzle.move_space(Direction::UP).unwrap();
    assert_eq!(puzzle.serialized(), "3,3,103425678");
    puzzle.move_space(Direction::RIGHT).unwrap();
    assert_eq!(puzzle.serialized(), "3,3,130425678");
    puzzle.move_space(Direction::DOWN).unwrap();
    assert_eq!(puzzle.serialized(), "3,3,135420678");
    puzzle.move_space(Direction::LEFT).unwrap();
    assert_eq!(puzzle.serialized(), "3,3,135402678");
    assert_eq!(puzzle.moves_str(), "URDL");
    assert_eq!(puzzle.g(), 0);
    assert_eq!(puzzle.content_hash(), hash_tiles(puzzle.tiles()));
}

fn refusal(text: &str, d: Direction) -> String {
    let mut puzzle = board(text);
    let before = puzzle.content_hash();
    let result = puzzle.move_space(d);
    assert_eq!(puzzle.serialized(), text);
    assert_eq!(puzzle.moves_str(), "");
    assert_eq!(puzzle.content_hash(), before);
    match result {
        Err(PuzzleError::IllegalMove(msg)) => msg,
        other => panic!("expected an illegal move, got {:?}", other),
    }
}

#[test]
fn moves_over_an_edge_are_refused() {
    assert_eq!(refusal("3,3,102345678", Direction::UP), "Cannot move up from top edge");
    assert_eq!(refusal("3,3,123456708", Direction::DOWN), "Cannot move down from bottom edge");
    assert_eq!(refusal("3,3,123045678", Direction::LEFT), "Cannot move left from left edge");
    assert_eq!(refusal("3,3,123450678", Direction::RIGHT), "Cannot move right from right edge");
    assert_eq!(refusal("3,3,012345678", Direction::LEFT), "Cannot move left from left edge");
    assert_eq!(refusal("3,3,123456780", Direction::RIGHT), "Cannot move right from right edge");
}

#[test]
fn moves_onto_a_wall_are_refused() {
    assert_eq!(refusal("3,3,1=3405678", Direction::UP), "Cannot move space up");
    assert_eq!(refusal("3,3,1234056=8", Direction::DOWN), "Cannot move space down");
    assert_eq!(refusal("3,3,123=05678", Direction::LEFT), "Cannot move space left");
    assert_eq!(refusal("3,3,12340=678", Direction::RIGHT), "Cannot move space right");
}

#[test]
fn a_legal_move_and_its_inverse_restore_the_content_hash() {
    for text in ["3,3,123405678", "4,3,123406785aC=", "3,4,03a21648b579", "3,3,1=3405678"] {
        let start = board(text);
        let at = start.space_idx();
        for d in start.legal_moves(at) {
            let mut puzzle = start.clone();
            puzzle.move_space(d).unwrap();
            assert_ne!(puzzle.content_hash(), start.content_hash());
            puzzle.move_space(d.inverse()).unwrap();
            assert_eq!(puzzle.content_hash(), start.content_hash());
            assert_eq!(puzzle.serialized(), text);
        }
    }
}

#[test]
fn slid_leaves_the_board_and_adds_the_step() {
    let puzzle = board("3,3,123405678");
    let next = puzzle.slid(Direction::LEFT, 3).unwrap();
    assert_eq!(puzzle.serialized(), "3,3,123405678");
    assert_eq!(next.serialized(), "3,3,123045678");
    assert_eq!(next.g(), 3);
    assert_eq!(next.moves_str(), "L");
    assert!(matches!(next.slid(Direction::LEFT, 1), Err(PuzzleError::IllegalMove(_))));
}

#[test]
fn successors_are_copies_one_move_away() {
    let puzzle = board("3,3,123456708");
    let successors = puzzle.generate_successors(7, 1);
    assert_eq!(successors.len(), 3);
    let texts: Vec<String> = successors.iter().iter().map(|p| p.serialized()).collect();
    assert_eq!(texts, vec!["3,3,123406758", "3,3,123456078", "3,3,123456780"]);
    let moves: Vec<String> = successors.iter().iter().map(|p| p.moves_str()).collect();
    assert_eq!(moves, vec!["U", "L", "R"]);
    for p in successors.iter() {
        assert_eq!(p.g(), 1);
        assert_eq!(p.content_hash(), hash_tiles(p.tiles()));
    }
    assert_eq!(puzzle.serialized(), "3,3,123456708");
    assert_eq!(puzzle.g(), 0);
}

#[test]
fn successors_add_the_step_to_the_path_cost() {
    let puzzle = board("3,3,123456780");
    let first = puzzle.generate_successors(8, 5);
    let child = first.get(0).unwrap();
    assert_eq!(child.g(), 5);
    let second = child.generate_successors(child.space_idx(), 2);
    for p in second.iter() {
        assert_eq!(p.g(), 7);
        assert_eq!(p.moves().len(), 2);
    }
}

#[test]
fn successors_of_a_walled_in_blank_are_none() {
    let puzzle = board("3,3,1=3=0=4=6");
    let successors = puzzle.generate_successors(4, 1);
    assert_eq!(successors.len(), 0);
    assert!(successors.get(0).is_none());
}

#[test]
fn successors_for_another_index_than_the_blank() {
    let puzzle = board("3,3,123456780");
    // Directions legal at index 0 are down and right; the blank, in the
    // bottom right corner, can take neither.
    assert_eq!(puzzle.generate_successors(0, 1).len(), 0);
    // Directions legal at index 4 are all four; the blank can go up and left.
    let some = puzzle.generate_successors(4, 1);
    let moves: Vec<String> = some.iter().iter().map(|p| p.moves_str()).collect();
    assert_eq!(moves, vec!["U", "L"]);
}

#[test]
fn successors_are_taken_out_last_first() {
    let puzzle = board("3,3,123405678");
    let mut successors = puzzle.generate_successors(4, 1);
    assert_eq!(successors.len(), 4);
    assert_eq!(successors.get(3).unwrap().moves_str(), "R");
    assert!(successors.get(4).is_none());
    assert_eq!(successors.next().unwrap().moves_str(), "R");
    assert_eq!(successors.next().unwrap().moves_str(), "L");
    assert_eq!(successors.len(), 2);
    assert_eq!(successors.next().unwrap().moves_str(), "D");
    assert_eq!(successors.next().unwrap().moves_str(), "U");
    assert!(successors.next().is_none());
    assert_eq!(successors.len(), 0);
}

#[test]
fn content_hash_tells_boards_apart() {
    let a = board("3,3,123456708");
    let b = board("3,3,123456780");
    let c = board("3,3,123456708");
    assert_eq!(a.content_hash(), c.content_hash());
    assert_ne!(a.content_hash(), b.content_hash());
    assert_eq!(a.content_hash(), hash_tiles(a.tiles()));
    assert!(a.is_solved(&c));
    assert!(!a.is_solved(&b));
}

#[test]
fn hash_of_tiles_depends_on_every_field() {
    let plain = vec![Tile::new('1'), Tile::new('0')];
    let mut indexed = plain.clone();
    indexed[0].solved_idx = Some(0);
    let swapped = vec![Tile::new('0'), Tile::new('1')];
    assert_eq!(hash_tiles(&plain), hash_tiles(&plain.clone()));
    assert_ne!(hash_tiles(&plain), hash_tiles(&indexed));
    assert_ne!(hash_tiles(&plain), hash_tiles(&swapped));
    assert_ne!(hash_tiles(&plain), hash_tiles(&Vec::new()));
    assert_eq!(serialize_tiles(&swapped), "01");
}

#[test]
fn with_two_blanks_the_inverse_move_need_not_restore_the_board() {
    let mut puzzle = board("2,2,1002");
    let before = puzzle.content_hash();
    puzzle.move_space(Direction::DOWN).unwrap();
    assert_eq!(puzzle.serialized(), "2,2,1200");
    puzzle.move_space(Direction::UP).unwrap();
    assert_eq!(puzzle.serialized(), "2,2,0210");
    assert_ne!(puzzle.content_hash(), before);
}
