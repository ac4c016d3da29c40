use slide_puzzle::direction::Direction;
use slide_puzzle::puzzle::Puzzle;

/// A small linear congruential generator, so that the boards are the same
/// on every run.
struct Dice(u64);

impl Dice {
    fn roll(&mut self) -> usize {
        self.0 = self.0.wrapping_mul(6364136223846793005).wrapping_add(1442695040888963407);
        ((self.0 >> 33) % 4) as usize
    }
}

const ALL: [Direction; 4] = [Direction::UP, Direction::DOWN, Direction::LEFT, Direction::RIGHT];

/// The board reached from `solved` by `steps` random moves, and the number
/// of moves that were legal and made.
fn shuffled(solved: &str, steps: usize, dice: &mut Dice) -> (String, usize) {
    let mut puzzle = Puzzle::from_str(solved).unwrap();
    let mut made = 0;
    for _ in 0..steps {
        if puzzle.move_space(ALL[dice.roll()]).is_ok() {
            made += 1;
        }
    }
    (puzzle.serialized(), made)
}

fn check_solution(text: &str, moves: &Vec<Direction>, made: usize) {
    let start = Puzzle::from_str(text).unwrap();
    let solved = start.solved();
    let mut replay = start.clone();
    for d in moves {
        assert!(replay.legal_moves(replay.space_idx()).contains(d));
        replay.move_space(*d).unwrap();
    }
    assert!(replay.is_solved(&solved));
    assert_eq!(replay.serialized(), solved.serialized());
    assert_eq!(replay.get_heuristic(&solved), 0);
    assert!(!moves.is_empty());
    assert_eq!(moves.len() % 2, made % 2);
}

#[test]
fn shuffled_boards_without_walls_are_solved_in_no_more_moves_than_shuffled() {
    let mut dice = Dice(7);
    for round in 0..40 {
        let (text, made) = shuffled("3,3,123456780", 10 + round, &mut dice);
        let mut puzzle = Puzzle::from_str(&text).unwrap();
        let moves = puzzle.solve(None).unwrap();
        check_solution(&text, &moves, made);
        assert!(moves.len() <= made.max(2));
    }
}

#[test]
fn shuffled_boards_with_walls_are_solved() {
    let mut dice = Dice(11);
    for solved in ["3,3,1234=5670", "4,3,123=4567=890", "3,4,12=345678=90", "4,4,123456=789abcde0"] {
        for round in 0..10 {
            let (text, made) = shuffled(solved, 12 + 2 * round, &mut dice);
            let mut puzzle = Puzzle::from_str(&text).unwrap();
            let moves = puzzle.solve(None).unwrap();
            check_solution(&text, &moves, made);
        }
    }
}

#[test]
fn shuffled_boards_are_solved_in_lanes() {
    let mut dice = Dice(23);
    for round in 0..12 {
        let (text, made) = shuffled("3,3,123456780", 16 + round, &mut dice);
        for workers in [1, 2, 3, 7] {
            let mut in_turns = Puzzle::from_str(&text).unwrap();
            let moves = in_turns.solve_in_turns(workers, None).unwrap();
            check_solution(&text, &moves, made);
            let mut on_pool = Puzzle::from_str(&text).unwrap();
            let moves = on_pool.solve_parallel(workers, None).unwrap();
            check_solution(&text, &moves, made);
        }
    }
}

#[test]
fn the_heuristic_changes_by_at_most_two_with_a_move_on_boards_without_walls() {
    let mut dice = Dice(5);
    let mut puzzle = Puzzle::from_str("4,4,123456789abcdef0").unwrap();
    let solved = puzzle.solved();
    let mut before = puzzle.get_heuristic(&solved);
    assert_eq!(before, 0);
    for _ in 0..200 {
        if puzzle.move_space(ALL[dice.roll()]).is_ok() {
            let after = puzzle.get_heuristic(&solved);
            assert!(after == before + 2 || after + 2 == before || after == before);
            before = after;
        }
    }
}
