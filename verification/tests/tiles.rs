use slide_puzzle::tile::{serialize_tiles, tiles_vec_to_matrix, Rune, Tile};

#[test]
fn rune_of_each_kind_of_symbol() {
    assert_eq!(Rune::from_char('='), Rune::WALL);
    assert_eq!(Rune::from_char('0'), Rune::SPACE);
    assert_eq!(Rune::from_char('7'), Rune::VALUE);
    assert_eq!(Rune::from_char('q'), Rune::VALUE);
    assert_eq!(Rune::from_char('#'), Rune::VALUE);
}

#[test]
fn new_tile_holds_symbol_kind_and_no_index() {
    let tile = Tile::new('a');
    assert_eq!(tile.raw(), 'a');
    assert_eq!(tile.rune, Rune::VALUE);
    assert_eq!(tile.solved_idx, None);
    assert_eq!(Tile::new('=').rune, Rune::WALL);
    assert_eq!(Tile::new('0').rune, Rune::SPACE);
}

#[test]
fn rank_of_digits() {
    assert_eq!(Tile::new('1').rank(), 1);
    assert_eq!(Tile::new('5').rank(), 5);
    assert_eq!(Tile::new('9').rank(), 9);
}

#[test]
fn rank_of_lower_case_letters() {
    assert_eq!(Tile::new('a').rank(), 10);
    assert_eq!(Tile::new('b').rank(), 11);
    assert_eq!(Tile::new('z').rank(), 35);
}

#[test]
fn rank_of_upper_case_letters() {
    assert_eq!(Tile::new('A').rank(), 36);
    assert_eq!(Tile::new('C').rank(), 38);
    assert_eq!(Tile::new('Z').rank(), 61);
}

#[test]
fn rank_of_blank_wall_and_other_characters() {
    assert_eq!(Tile::new('0').rank(), 62);
    assert_eq!(Tile::new('=').rank(), -1);
    assert_eq!(Tile::new('#').rank(), -1);
    assert_eq!(Tile::new(' ').rank(), -1);
    assert_eq!(Tile::new('é').rank(), -1);
}

#[test]
fn ranks_ascend_through_the_alphabet() {
    let alphabet = "123456789abcdefghijklmnopqrstuvwxyzABCDEFGHIJKLMNOPQRSTUVWXYZ0";
    let mut expected = 1;
    for c in alphabet.chars() {
        assert_eq!(Tile::new(c).rank(), expected);
        expected += 1;
    }
    assert_eq!(expected, 63);
}

#[test]
fn serialize_tiles_writes_one_symbol_per_tile() {
    let tiles = vec![Tile::new('3'), Tile::new('='), Tile::new('0'), Tile::new('Z')];
    assert_eq!(serialize_tiles(&tiles), "3=0Z");
    assert_eq!(serialize_tiles(&Vec::new()), "");
}

fn symbols(row: &Vec<Tile>) -> String {
    serialize_tiles(row)
}

#[test]
fn matrix_of_a_full_grid() {
    let tiles: Vec<Tile> = "123456".chars().map(Tile::new).collect();
    let matrix = tiles_vec_to_matrix(3, 2, tiles);
    assert_eq!(matrix.len(), 2);
    assert_eq!(symbols(&matrix[0]), "123");
    assert_eq!(symbols(&matrix[1]), "456");
}

#[test]
fn matrix_with_too_few_tiles_has_short_and_empty_rows() {
    let tiles: Vec<Tile> = "12345".chars().map(Tile::new).collect();
    let matrix = tiles_vec_to_matrix(3, 3, tiles);
    assert_eq!(matrix.len(), 3);
    assert_eq!(symbols(&matrix[0]), "123");
    assert_eq!(symbols(&matrix[1]), "45");
    assert_eq!(symbols(&matrix[2]), "");
}

#[test]
fn matrix_with_too_many_tiles_drops_the_rest() {
    let tiles: Vec<Tile> = "1234567".chars().map(Tile::new).collect();
    let matrix = tiles_vec_to_matrix(2, 2, tiles);
    assert_eq!(matrix.len(), 2);
    assert_eq!(symbols(&matrix[0]), "12");
    assert_eq!(symbols(&matrix[1]), "34");
}

#[test]
fn matrix_without_rows_or_columns() {
    let tiles: Vec<Tile> = "12".chars().map(Tile::new).collect();
    assert_eq!(tiles_vec_to_matrix(2, 0, tiles.clone()).len(), 0);
    let matrix = tiles_vec_to_matrix(0, 2, tiles);
    assert_eq!(matrix.len(), 2);
    assert!(matrix[0].is_empty());
    assert!(matrix[1].is_empty());
}
