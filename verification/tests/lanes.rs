use slide_puzzle::direction::Direction;
use slide_puzzle::slot::BestSolution;
use slide_puzzle::parallel::{finish_stopped, publish_reports, Found, Report};
use slide_puzzle::puzzle::Puzzle;
use slide_puzzle::lane::{Lane, Outcome};
use std::sync::atomic::{AtomicBool, Ordering};

fn board(text: &str) -> Puzzle {
    Puzzle::from_str(text).unwrap()
}

fn scrambled(solved: &str, moves: &str) -> String {
    let mut puzzle = board(solved);
    for c in moves.chars() {
        let d = match c {
            'U' => Direction::UP,
            'D' => Direction::DOWN,
            'L' => Direction::LEFT,
            _ => Direction::RIGHT,
        };
        let _ = puzzle.move_space(d);
    }
    puzzle.serialized()
}

fn solvable_boards() -> Vec<String> {
    vec![
        String::from("3,3,123456708"),
        String::from("4,3,123406785aC="),
        String::from("3,3,123456780"),
        scrambled("3,3,123456780", "ULLDRURDLLURRDLULDRR"),
        scrambled("3,3,123456780", "LLUURRDDLLUURDLDRRUL"),
        scrambled("3,3,12345670=", "LUURDLLDRUURDL"),
        scrambled("3,3,1=2=34560", "LLURRDLLUR"),
        scrambled("4,3,12345678aC0=", "LULURRDLLDRUURDDLU"),
        scrambled("3,4,123456789ab0", "ULULDRURDLLURDDRUL"),
    ]
}

#[test]
fn the_first_solution_published_stays() {
    let mut best = BestSolution::new();
    assert!(!best.is_published());
    assert!(best.publish(board("2,1,10")));
    assert!(best.is_published());
    assert!(!best.publish(board("2,1,01")));
    assert!(!best.publish(board("1,1,0")));
    assert_eq!(best.take().unwrap().serialized(), "2,1,10");
    assert!(BestSolution::new().take().is_none());
}

fn report(text: &str, first: bool) -> Report {
    Report::Found(Found { puzzle: board(text), first })
}

fn stopped(text: &str, lane: usize, lanes: usize) -> Report {
    let announced = AtomicBool::new(true);
    let report = Lane::new(&board(text), None, lane, lanes).run_until(&announced);
    assert!(matches!(report, Report::Stopped(_)));
    report
}

fn published(reports: Vec<Report>) -> Option<String> {
    publish_reports(&reports).take().map(|p| p.serialized())
}

#[test]
fn the_report_flagged_first_is_published() {
    assert_eq!(published(Vec::new()), None);
    assert_eq!(published(vec![Report::Exhausted, Report::Exhausted]), None);
    assert_eq!(published(vec![stopped("3,3,123456708", 0, 1), Report::Exhausted]), None);
    assert_eq!(
        published(vec![Report::Exhausted, report("1,1,0", false), Report::Exhausted]),
        Some(String::from("1,1,0"))
    );
    assert_eq!(
        published(vec![report("1,1,0", false), Report::Exhausted, report("2,1,10", true)]),
        Some(String::from("2,1,10"))
    );
    assert_eq!(
        published(vec![
            stopped("3,3,123456708", 0, 1),
            report("1,1,0", true),
            report("2,1,10", true)
        ]),
        Some(String::from("1,1,0"))
    );
    assert_eq!(
        published(vec![report("1,2,01", false), report("2,1,10", false)]),
        Some(String::from("1,2,01"))
    );
}

#[test]
fn a_lane_stops_when_a_solution_was_announced() {
    let start = board("4,3,123406785aC=");
    let announced = AtomicBool::new(true);
    let report = Lane::new(&start, None, 0, 1).run_until(&announced);
    // The lane is handed back as it stood: it still finds its solution.
    match report {
        Report::Stopped(lane) => assert_eq!(lane.run().unwrap().moves_str(), "DRR"),
        _ => panic!("a lane that sees the announcement stops"),
    }
    assert!(announced.load(Ordering::SeqCst));
}

#[test]
fn a_lane_announces_what_it_finds() {
    let start = board("4,3,123406785aC=");
    let announced = AtomicBool::new(false);
    let found = match Lane::new(&start, None, 0, 1).run_until(&announced) {
        Report::Found(found) => found,
        _ => panic!("the lane finds a solution"),
    };
    assert!(found.first);
    assert_eq!(found.puzzle.moves_str(), "DRR");
    assert!(announced.load(Ordering::SeqCst));
    let silent = AtomicBool::new(false);
    assert!(matches!(Lane::new(&start, None, 3, 4).run_until(&silent), Report::Exhausted));
    assert!(!silent.load(Ordering::SeqCst));
}

#[test]
fn search_on_the_pool_returns_moves_that_reach_the_target() {
    for text in solvable_boards() {
        let text = text.as_str();
        for workers in [1, 2, 3, 4, 24] {
            let mut puzzle = board(text);
            let solved = puzzle.solved();
            let moves = puzzle.solve_parallel(workers, None).unwrap();
            let mut replay = board(text);
            for d in &moves {
                replay.move_space(*d).unwrap();
            }
            assert_eq!(replay.get_heuristic(&solved), 0);
            assert!(replay.is_solved(&solved));
            assert_eq!(replay.serialized(), solved.serialized());
            assert_eq!(puzzle.serialized(), solved.serialized());
            assert_eq!(puzzle.moves(), &moves);
            assert_eq!(puzzle.g() as usize, moves.len());
        }
    }
}

#[test]
fn search_on_the_pool_finds_nothing_where_there_is_nothing() {
    for workers in [1, 2, 5] {
        let mut puzzle = board("2,2,2130");
        assert_eq!(puzzle.solve_parallel(workers, None), None);
        assert_eq!(puzzle.serialized(), "2,2,2130");
        let mut pruned = board("4,3,123406785aC=");
        assert_eq!(pruned.solve_parallel(workers, Some(3)), None);
        assert_eq!(pruned.moves_str(), "");
    }
}

#[test]
fn search_on_the_pool_with_one_lane_is_the_sequential_search() {
    for text in solvable_boards() {
        let mut one = board(text.as_str());
        let mut other = board(text.as_str());
        assert_eq!(one.solve_parallel(1, None), other.solve(None));
    }
}

#[test]
fn search_in_lanes_returns_moves_that_reach_the_target() {
    for text in solvable_boards() {
        let text = text.as_str();
        for workers in [1, 2, 3, 4, 24] {
            let mut puzzle = board(text);
            let solved = puzzle.solved();
            let moves = puzzle.solve_in_turns(workers, None).unwrap();
            let mut replay = board(text);
            for d in &moves {
                replay.move_space(*d).unwrap();
            }
            assert_eq!(replay.get_heuristic(&solved), 0);
            assert!(replay.is_solved(&solved));
            assert_eq!(puzzle.serialized(), solved.serialized());
            assert_eq!(puzzle.moves(), &moves);
        }
    }
}

#[test]
fn search_in_one_lane_is_the_sequential_search() {
    for text in solvable_boards() {
        let text = text.as_str();
        let mut one = board(text);
        let mut other = board(text);
        assert_eq!(one.solve_in_turns(1, None), other.solve(None));
    }
}

#[test]
fn search_in_lanes_finds_the_short_solution_of_the_walled_board() {
    for workers in [1, 2, 3, 24] {
        let mut puzzle = board("4,3,123406785aC=");
        assert_eq!(
            puzzle.solve_in_turns(workers, None),
            Some(vec![Direction::DOWN, Direction::RIGHT, Direction::RIGHT])
        );
    }
}

#[test]
fn search_in_lanes_finds_nothing_where_there_is_nothing() {
    for workers in [1, 2, 5] {
        let mut puzzle = board("2,2,2130");
        assert_eq!(puzzle.solve_in_turns(workers, None), None);
        assert_eq!(puzzle.serialized(), "2,2,2130");
        let mut pruned = board("4,3,123406785aC=");
        assert_eq!(pruned.solve_in_turns(workers, Some(3)), None);
        assert_eq!(pruned.moves_str(), "");
    }
}

#[test]
fn a_lane_that_has_seen_the_announcement_makes_no_step() {
    let start = board("4,3,123406785aC=");
    let same = match Lane::new(&start, None, 0, 1).step_unless(true) {
        Err(same) => same,
        Ok(_) => panic!("a lane that has seen the announcement makes no step"),
    };
    assert_eq!(same.run().unwrap().moves_str(), "DRR");
    let (lane, outcome) = Lane::new(&start, None, 0, 1).step_unless(false).ok().unwrap();
    assert!(matches!(outcome, Outcome::Continue));
    let (lane, outcome) = lane.step_unless(false).ok().unwrap();
    assert!(matches!(outcome, Outcome::Continue));
    let same = match lane.step_unless(true) {
        Err(same) => same,
        Ok(_) => panic!("a lane that has seen the announcement makes no step"),
    };
    let (_, outcome) = same.step();
    assert!(matches!(outcome, Outcome::Solved(_)));
    let (_, outcome) = Lane::new(&start, None, 3, 4).step_unless(false).ok().unwrap();
    assert!(matches!(outcome, Outcome::Exhausted));
}

#[test]
fn a_lane_that_steps_unseen_finds_what_it_finds_alone() {
    let start = board("4,3,123406785aC=");
    let mut lane = Lane::new(&start, None, 0, 1);
    let found = loop {
        let (next, outcome) = lane.step_unless(false).ok().unwrap();
        match outcome {
            Outcome::Solved(p) => break Some(p),
            Outcome::Exhausted => break None,
            Outcome::Continue => lane = next,
        }
    };
    let alone = Lane::new(&start, None, 0, 1).run().unwrap();
    assert_eq!(found.unwrap().moves_str(), alone.moves_str());
}

#[test]
fn a_report_tells_whether_its_lane_announced_first() {
    let first = Found::report(board("2,1,10"), false);
    assert!(first.first);
    assert_eq!(first.puzzle.serialized(), "2,1,10");
    let later = Found::report(board("2,1,10"), true);
    assert!(!later.first);
    assert_eq!(later.puzzle.serialized(), "2,1,10");
}

#[test]
fn what_a_lane_returns_is_what_it_finds_alone() {
    for text in solvable_boards() {
        let start = board(text.as_str());
        for (lane, lanes) in [(0, 1), (0, 2), (1, 2), (2, 3)] {
            let alone = Lane::new(&start, None, lane, lanes).run();
            let announced = AtomicBool::new(false);
            let watched = Lane::new(&start, None, lane, lanes).run_until(&announced);
            assert_eq!(announced.load(Ordering::SeqCst), alone.is_some());
            match (watched, alone) {
                (Report::Found(found), Some(alone)) => {
                    assert!(found.first);
                    assert_eq!(found.puzzle.moves(), alone.moves());
                    assert_eq!(found.puzzle.serialized(), alone.serialized());
                }
                (Report::Exhausted, None) => {}
                _ => panic!("a lane that runs unseen ends as it ends alone"),
            }
        }
    }
}

#[test]
fn a_lane_that_announces_second_is_told_so() {
    let start = board("4,3,123406785aC=");
    let announced = AtomicBool::new(false);
    assert!(matches!(
        Lane::new(&start, None, 0, 1).run_until(&announced),
        Report::Found(Found { first: true, .. })
    ));
    // A lane that is already past its look at the flag when another lane
    // announces still reports, but not as the first.
    let (lane, _) = Lane::new(&start, None, 0, 1).step();
    let (lane, _) = lane.step();
    let (_, outcome) = lane.step();
    let late = match outcome {
        Outcome::Solved(p) => Found::report(p, announced.swap(true, Ordering::SeqCst)),
        _ => panic!("the third step serves the solved board"),
    };
    assert!(!late.first);
    assert_eq!(late.puzzle.moves_str(), "DRR");
}

#[test]
fn the_board_takes_over_the_solution_that_is_published() {
    let mut puzzle = board("2,1,01");
    let reports = vec![Report::Exhausted, report("2,1,10", false), report("1,1,0", true)];
    assert_eq!(puzzle.take_solution(reports), Some(Vec::new()));
    assert_eq!(puzzle.serialized(), "1,1,0");

    let mut moved = board("2,1,01");
    moved.move_space(Direction::RIGHT).unwrap();
    let mut puzzle = board("2,1,01");
    let reports = vec![
        stopped("4,3,123406785aC=", 0, 1),
        Report::Found(Found::report(moved, false)),
        Report::Exhausted,
    ];
    assert_eq!(puzzle.take_solution(reports), Some(vec![Direction::RIGHT]));
    assert_eq!(puzzle.serialized(), "2,1,10");
    assert_eq!(puzzle.moves_str(), "R");
}

#[test]
fn the_board_stays_where_no_lane_reported_or_is_left() {
    let mut puzzle = board("3,3,123456708");
    let reports = vec![Report::Exhausted, Report::Exhausted, stopped("2,2,2130", 0, 1)];
    assert_eq!(puzzle.take_solution(reports), None);
    assert_eq!(puzzle.serialized(), "3,3,123456708");
    assert_eq!(puzzle.take_solution(Vec::new()), None);
    assert_eq!(puzzle.moves_str(), "");
}

#[test]
fn lanes_that_stopped_are_run_to_their_end_where_nothing_was_reported() {
    // Lane 0 of 2 of the walled board finds a solution of five moves
    // alone, lane 1 the one of three moves.
    let text = "4,3,123406785aC=";
    let mut puzzle = board(text);
    let reports = vec![Report::Exhausted, stopped(text, 0, 2), stopped(text, 1, 2)];
    let moves = puzzle.take_solution(reports).unwrap();
    assert_eq!(moves.len(), 5);
    assert_eq!(puzzle.serialized(), "4,3,12345678aC0=");

    let mut puzzle = board(text);
    let reports = vec![stopped("2,2,2130", 0, 1), stopped(text, 1, 2), stopped(text, 0, 2)];
    assert_eq!(
        puzzle.take_solution(reports),
        Some(vec![Direction::DOWN, Direction::RIGHT, Direction::RIGHT])
    );

    let found = finish_stopped(vec![stopped(text, 3, 4), Report::Exhausted, stopped(text, 0, 1)]);
    assert_eq!(found.unwrap().moves_str(), "DRR");
    assert!(finish_stopped(vec![report(text, true), Report::Exhausted]).is_none());
    assert!(finish_stopped(Vec::new()).is_none());
}

#[test]
fn a_solution_reported_goes_before_the_lanes_that_stopped() {
    let text = "4,3,123406785aC=";
    let mut puzzle = board(text);
    let reports = vec![stopped(text, 1, 2), report("2,1,10", false)];
    assert_eq!(puzzle.take_solution(reports), Some(Vec::new()));
    assert_eq!(puzzle.serialized(), "2,1,10");
}

#[test]
fn the_pool_solves_what_one_of_its_lanes_solves_alone() {
    for text in solvable_boards() {
        let start = board(text.as_str());
        for workers in [1, 2, 3, 5] {
            let mut some_lane_solves = false;
            for lane in 0..workers {
                if Lane::new(&start, None, lane, workers).run().is_some() {
                    some_lane_solves = true;
                }
            }
            let mut puzzle = start.clone();
            assert_eq!(puzzle.solve_parallel(workers, None).is_some(), some_lane_solves);
            assert!(some_lane_solves);
        }
    }
}

#[test]
fn the_pool_returns_what_one_of_its_lanes_finds_alone() {
    for text in solvable_boards() {
        let start = board(text.as_str());
        for workers in [1, 2, 3, 5] {
            let mut puzzle = start.clone();
            let moves = puzzle.solve_parallel(workers, None).unwrap();
            let mut found_alone = false;
            for lane in 0..workers {
                if let Some(alone) = Lane::new(&start, None, lane, workers).run() {
                    if alone.moves() == &moves {
                        found_alone = true;
                        assert_eq!(alone.serialized(), puzzle.serialized());
                    }
                }
            }
            assert!(found_alone);
        }
    }
}

#[test]
fn the_pool_finds_nothing_where_no_lane_finds_anything_alone() {
    for (text, threshold) in [("2,2,2130", None), ("4,3,123406785aC=", Some(3)), ("3,1,0=1", None)] {
        let start = board(text);
        for workers in [1, 2, 4] {
            for lane in 0..workers {
                assert!(Lane::new(&start, threshold, lane, workers).run().is_none());
            }
            let mut puzzle = start.clone();
            assert_eq!(puzzle.solve_parallel(workers, threshold), None);
            assert_eq!(puzzle.serialized(), text);
        }
    }
}
