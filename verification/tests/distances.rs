use slide_puzzle::direction::Direction;
use slide_puzzle::puzzle::Puzzle;
use slide_puzzle::tile::{Rune, Tile};

fn board(text: &str) -> Puzzle {
    Puzzle::from_str(text).unwrap()
}

fn distance(puzzle: &Puzzle, symbol: char, solved: &Puzzle) -> u32 {
    puzzle.manhattan_distance(&Tile::new(symbol), solved)
}

#[test]
fn one_move_from_solved_has_heuristic_two_then_zero() {
    let mut puzzle = board("3,3,123456708");
    let solved = puzzle.solved();
    assert_eq!(puzzle.get_heuristic(&solved), 2);
    assert!(!puzzle.is_solved(&solved));
    puzzle.move_space(Direction::RIGHT).unwrap();
    assert_eq!(puzzle.get_heuristic(&solved), 0);
    assert!(puzzle.is_solved(&solved));
}

#[test]
fn one_wall_board_has_heuristic_four() {
    let puzzle = board("3,3,12346075=");
    let solved = puzzle.solved();
    assert_eq!(distance(&puzzle, '0', &solved), 2);
    assert_eq!(distance(&puzzle, '6', &solved), 1);
    assert_eq!(distance(&puzzle, '5', &solved), 1);
    for symbol in ['1', '2', '3', '4', '7', '='] {
        assert_eq!(distance(&puzzle, symbol, &solved), 0);
    }
    assert_eq!(puzzle.get_heuristic(&solved), 4);
}

#[test]
fn distance_counts_rows_and_columns() {
    let puzzle = board("3,3,807654321");
    let solved = puzzle.solved();
    assert_eq!(distance(&puzzle, '8', &solved), 3);
    assert_eq!(distance(&puzzle, '0', &solved), 3);
    assert_eq!(distance(&puzzle, '7', &solved), 4);
    assert_eq!(distance(&puzzle, '6', &solved), 2);
    assert_eq!(distance(&puzzle, '5', &solved), 0);
    assert_eq!(distance(&puzzle, '4', &solved), 2);
    assert_eq!(distance(&puzzle, '3', &solved), 4);
    assert_eq!(distance(&puzzle, '2', &solved), 2);
    assert_eq!(distance(&puzzle, '1', &solved), 4);
    assert_eq!(puzzle.get_heuristic(&solved), 24);
}

#[test]
fn a_wall_on_the_way_to_the_right_adds_two() {
    let puzzle = board("3,1,0=1");
    let solved = puzzle.solved();
    assert_eq!(solved.serialized(), "3,1,1=0");
    assert_eq!(distance(&puzzle, '0', &solved), 4);
}

#[test]
fn a_wall_on_the_way_to_the_left_adds_two() {
    let puzzle = board("3,1,0=1");
    let solved = puzzle.solved();
    assert_eq!(distance(&puzzle, '1', &solved), 4);
    assert_eq!(puzzle.get_heuristic(&solved), 8);
}

#[test]
fn a_wall_on_the_way_down_or_up_adds_two() {
    let puzzle = board("1,3,0=1");
    let solved = puzzle.solved();
    assert_eq!(distance(&puzzle, '0', &solved), 4);
    assert_eq!(distance(&puzzle, '1', &solved), 4);
    assert_eq!(puzzle.get_heuristic(&solved), 8);
}

#[test]
fn the_wall_penalty_is_the_same_from_either_side() {
    // 1 = = 2 on one row: tile 2 belongs at column 1, tile 1 stays.
    let left = board("5,1,1==20");
    let target = board("5,1,12==0");
    assert_eq!(left.manhattan_distance(&Tile::new('2'), &target), 2 + 2);
    let right = board("5,1,12==0");
    let back = board("5,1,1==20");
    assert_eq!(right.manhattan_distance(&Tile::new('2'), &back), 2 + 2);
    // Two walls strictly between, three columns apart.
    let far = board("5,1,0==12");
    let goal = board("5,1,1==02");
    assert_eq!(far.manhattan_distance(&Tile::new('0'), &goal), 3 + 4);
    assert_eq!(far.manhattan_distance(&Tile::new('1'), &goal), 3 + 4);
}

#[test]
fn only_walls_strictly_between_are_counted() {
    // The blank is at row 1, column 2 and belongs at row 2, column 1. The
    // wall at row 2, column 2 lies on neither run.
    let puzzle = board("3,3,12346075=");
    let solved = puzzle.solved();
    assert_eq!(distance(&puzzle, '0', &solved), 2);
    // Of the two walls, only the one between the blank's column and its
    // target's is counted; the one behind the target is not.
    let wide = board("4,1,0==1");
    let target = board("4,1,1=0=");
    assert_eq!(wide.manhattan_distance(&Tile::new('0'), &target), 2 + 2);
    // A wall right next to the tile, on the far side from its target.
    let beside = board("4,1,=102");
    let near = board("4,1,=012");
    assert_eq!(beside.manhattan_distance(&Tile::new('1'), &near), 1);
    // Neighbouring cells have nothing between them.
    let next = board("2,2,1=02");
    let home = board("2,2,0=12");
    assert_eq!(next.manhattan_distance(&Tile::new('1'), &home), 1);
    // A tile marked as no wall whose own cell holds a wall symbol: its own
    // cell is not on the run.
    let odd = Tile { raw: '=', rune: Rune::VALUE, solved_idx: Some(2) };
    assert_eq!(board("3,1,=10").manhattan_distance(&odd, &board("3,1,=10")), 2);
}

#[test]
fn walls_in_both_directions_add_up() {
    // 0 = 1      target   1 = 2
    // = 2 3               = 3 4
    // 4 5 6               5 6 0
    let puzzle = board("3,3,0=1=23456");
    let solved = puzzle.solved();
    assert_eq!(solved.serialized(), "3,3,1=2=34560");
    // two columns with one wall between, two rows with one wall between
    assert_eq!(distance(&puzzle, '0', &solved), 2 + 2 + 2 + 2);
}

#[test]
fn a_wall_costs_nothing() {
    let puzzle = board("3,3,12346075=");
    let solved = puzzle.solved();
    assert_eq!(puzzle.manhattan_distance(&Tile::new('='), &solved), 0);
    let marked = Tile { raw: '5', rune: Rune::WALL, solved_idx: None };
    assert_eq!(puzzle.manhattan_distance(&marked, &solved), 0);
}

#[test]
fn a_tile_that_carries_its_target_index_goes_there() {
    let puzzle = board("3,3,123456708");
    let solved = puzzle.solved();
    let tile = Tile { raw: '1', rune: Rune::VALUE, solved_idx: Some(8) };
    assert_eq!(puzzle.manhattan_distance(&tile, &solved), 4);
    let tile = Tile { raw: '8', rune: Rune::VALUE, solved_idx: Some(8) };
    assert_eq!(puzzle.manhattan_distance(&tile, &solved), 0);
    let tile = Tile { raw: '8', rune: Rune::VALUE, solved_idx: Some(0) };
    assert_eq!(puzzle.manhattan_distance(&tile, &solved), 4);
}

#[test]
fn measurable_tiles_are_told_from_others() {
    let puzzle = board("3,3,123456708");
    let solved = puzzle.solved();
    assert!(puzzle.can_measure(&Tile::new('1'), &solved));
    assert!(puzzle.can_measure(&Tile::new('='), &solved));
    assert!(!puzzle.can_measure(&Tile::new('9'), &solved));
    let far = Tile { raw: '1', rune: Rune::VALUE, solved_idx: Some(9) };
    assert!(!puzzle.can_measure(&far, &solved));
    let near = Tile { raw: '1', rune: Rune::VALUE, solved_idx: Some(8) };
    assert!(puzzle.can_measure(&near, &solved));
    let other = board("2,2,1230");
    assert!(!other.can_measure(&Tile::new('1'), &board("2,2,4560")));
    assert!(!board("2,1,10").can_measure(&Tile::new('0'), &solved));
}

#[test]
fn distance_to_the_place_on_another_board() {
    let root = board("3,3,123456708");
    let mut puzzle = root.clone();
    for tile in puzzle.tiles() {
        assert_eq!(puzzle.inverse_manhattan_distance(tile, &root), 0);
    }
    assert_eq!(puzzle.get_inverse_heuristic(&root), 0);
    puzzle.move_space(Direction::RIGHT).unwrap();
    puzzle.move_space(Direction::UP).unwrap();
    // 1 2 3      root   1 2 3
    // 4 5 0             4 5 6
    // 7 8 6             7 0 8
    assert_eq!(puzzle.inverse_manhattan_distance(&Tile::new('0'), &root), 2);
    assert_eq!(puzzle.inverse_manhattan_distance(&Tile::new('8'), &root), 1);
    assert_eq!(puzzle.inverse_manhattan_distance(&Tile::new('6'), &root), 1);
    assert_eq!(puzzle.inverse_manhattan_distance(&Tile::new('1'), &root), 0);
    assert_eq!(puzzle.inverse_manhattan_distance(&Tile::new('='), &root), 0);
    assert_eq!(puzzle.get_inverse_heuristic(&root), 4);
    assert!(puzzle.can_trace(&Tile::new('8'), &root));
    assert!(!puzzle.can_trace(&Tile::new('9'), &root));
    assert!(root.can_trace(&Tile::new('9'), &root.clone()));
}

#[test]
fn neighbours_of_adjacent_rank_conflict() {
    let puzzle = board("3,3,123456708");
    assert_eq!(puzzle.linear_conflicts(0), 1);
    assert_eq!(puzzle.linear_conflicts(1), 2);
    assert_eq!(puzzle.linear_conflicts(2), 2);
    assert_eq!(puzzle.linear_conflicts(4), 2);
    assert_eq!(puzzle.linear_conflicts(7), 0);
    assert_eq!(puzzle.linear_conflicts(8), 0);
    let column = board("1,3,120");
    assert_eq!(column.linear_conflicts(0), 2);
    assert_eq!(column.linear_conflicts(1), 2);
    assert_eq!(column.linear_conflicts(2), 0);
}

#[test]
fn inversions_count_pairs_out_of_rank_order() {
    assert_eq!(board("3,3,123456780").inversions(), 0);
    assert_eq!(board("3,3,123456708").inversions(), 1);
    assert_eq!(board("3,3,213456780").inversions(), 1);
    assert_eq!(board("3,3,087654321").inversions(), 36);
    assert_eq!(board("3,3,12346075=").inversions(), 12);
    assert_eq!(board("0,0,").inversions(), 0);
}
