use davar::init::{check_input, input_to_states};
use davar::options::SolverOptions;
use davar::solver::{distance, enumerate_resting_positions, name_to_solver, Random, Solver};
use davar::{score_commands, string_to_commands, Cell, Input, State, Unit};

fn small_input() -> Input {
    Input {
        id: 7,
        units: vec![Unit { members: vec![Cell { x: 0, y: 0 }], pivot: Cell { x: 0, y: 0 } }],
        width: 5,
        height: 5,
        filled: vec![Cell { x: 2, y: 4 }],
        sourceLength: 3,
        sourceSeeds: vec![0, 17],
    }
}

#[test]
fn test_distance() {
    // tuples in form (a.x, a.y, b.x, b.y, distance)
    let tests = &[
        (1, 2, 0, 5, 3),
        (1, 7, 1, 4, 3),
        (2, 5, 3, 6, 1),
        (2, 5, 2, 6, 1),
        (3, 7, 3, 7, 0),
        (2, 5, 2, 4, 1),
        (2, 5, 3, 4, 1),
        (1, 2, 0, 4, 2),
        (3, 2, 4, 4, 2),
    ];
    for &(ax, ay, bx, by, d) in tests {
        println!("a: ({}, {}), b: ({}, {}), d: {}", ax, ay, bx, by, d);
        println!("Ensuring symmetry.");
        assert_eq!(
            distance(Cell { x: ax, y: ay }, Cell { x: bx, y: by }),
            distance(Cell { x: bx, y: by }, Cell { x: ax, y: ay })
        );
        println!("Ensuring correctness.");
        assert_eq!(distance(Cell { x: ax, y: ay }, Cell { x: bx, y: by }), d);
    }
}

#[test]
fn solver_names_round_trip() {
    let all = [
        Solver::AllDown,
        Solver::SolverSE,
        Solver::MonteCarlo,
        Solver::Supplied,
        Solver::BottomUp,
        Solver::BottomUpDfs,
        Solver::LookAhead,
    ];
    for s in all {
        assert_eq!(name_to_solver(&s.name()), s);
    }
    // Unknown names fall back to the greedy search.
    assert_eq!(name_to_solver("unknown"), Solver::BottomUpDfs);
}

#[test]
fn input_checking_rejects_bad_definitions() {
    let good = small_input();
    assert!(check_input(&good));

    let mut zero_width = small_input();
    zero_width.width = 0;
    assert!(!check_input(&zero_width));

    let mut no_units = small_input();
    no_units.units.clear();
    assert!(!check_input(&no_units));

    let mut stray_fill = small_input();
    stray_fill.filled.push(Cell { x: 9, y: 9 });
    assert!(!check_input(&stray_fill));

    let mut negative_length = small_input();
    negative_length.sourceLength = -1;
    assert!(!check_input(&negative_length));

    let mut empty_unit = small_input();
    empty_unit.units.push(Unit { members: vec![], pivot: Cell { x: 0, y: 0 } });
    assert!(!check_input(&empty_unit));
}

#[test]
fn initial_states_follow_the_seeds() {
    let input = small_input();
    assert!(check_input(&input));
    let states = input_to_states(&input);
    assert_eq!(states.len(), 2);
    for (k, s) in states.iter().enumerate() {
        assert_eq!(s.seed, input.sourceSeeds[k]);
        assert_eq!(s.width, 5);
        assert_eq!(s.height, 5);
        // One piece per draw: the first draw comes before any update.
        assert_eq!(s.unit_sequence.len(), (input.sourceLength + 1) as usize);
        assert_eq!(s.score, 0);
        assert!(!s.game_over);
        assert!(s.is_filled(Cell::new(2, 4)));
        // The single template centers to the middle of the top row.
        assert_eq!(s.unit_sequence[0].members[0].y, 0);
    }
}

#[test]
fn alldown_score_matches_replay() {
    let input = small_input();
    let states = input_to_states(&input);
    let opt = SolverOptions::new(1000, vec![], None, None);
    let (sol, score) = Solver::AllDown.solve(&states[0], &input, &opt);
    assert_eq!(sol.problemId, input.id);
    assert_eq!(sol.seed, states[0].seed);
    let replayed = score_commands(&string_to_commands(&sol.solution), &states[0]);
    assert_eq!(score, replayed.score);
    assert!(replayed.game_over);
}

#[test]
fn se_sweep_score_matches_replay() {
    let input = small_input();
    let states = input_to_states(&input);
    let opt = SolverOptions::new(1000, vec![], None, None);
    let (sol, score) = Solver::SolverSE.solve(&states[0], &input, &opt);
    let replayed = score_commands(&string_to_commands(&sol.solution), &states[0]);
    assert_eq!(score, replayed.score);
}

#[test]
fn supplied_solver_replays_the_given_string() {
    let input = small_input();
    let states = input_to_states(&input);
    let given = String::from("lalal");
    let opt = SolverOptions::new(1000, vec![], None, Some(given.clone()));
    let (sol, score) = Solver::Supplied.solve(&states[0], &input, &opt);
    assert_eq!(sol.solution, given);
    let replayed = score_commands(&string_to_commands(&given), &states[0]);
    assert_eq!(score, replayed.score);
}

#[test]
fn monte_carlo_improves_or_keeps_score() {
    let input = small_input();
    let states = input_to_states(&input);
    let opt = SolverOptions::new(200, vec![], None, None);
    let (sol, score) = Solver::MonteCarlo.solve(&states[0], &input, &opt);
    let replayed = score_commands(&string_to_commands(&sol.solution), &states[0]);
    assert!(score >= states[0].score);
    // With no bonus phrases the total is exactly the replay score.
    assert_eq!(score, replayed.score);
}

#[test]
fn bottomupdfs_locks_every_piece() {
    let input = small_input();
    let states = input_to_states(&input);
    let opt = SolverOptions::new(5000, vec![], None, None);
    let (sol, score) = Solver::BottomUpDfs.solve(&states[0], &input, &opt);
    let replayed = score_commands(&string_to_commands(&sol.solution), &states[0]);
    assert_eq!(score, replayed.score);
    // The pieces lock, so the game earns something.
    assert!(score > 0);
}

#[test]
fn resting_positions_are_supported() {
    let input = small_input();
    let states = input_to_states(&input);
    let s = &states[0];
    let positions = enumerate_resting_positions(s);
    assert!(positions.len() > 0);
    for u in &positions {
        // Every member is legal: on the board and unfilled.
        for m in &u.members {
            assert!(m.x >= 0 && m.x < s.width && m.y >= 0 && m.y < s.height);
            assert!(!s.is_filled(*m));
        }
        // Some member touches the floor or sits on a filled cell.
        let supported = u.members.iter().any(|m| {
            m.y == s.height - 1 || s.is_filled(Cell::new(m.x, m.y + 1)) || {
                let nx = if m.y % 2 == 0 { m.x - 1 } else { m.x + 1 };
                s.is_filled(Cell::new(nx, m.y + 1))
            }
        });
        assert!(supported);
    }
    // Ordered by descending average row: lower placements first.
    for w in positions.windows(2) {
        let sum0: i64 = w[0].members.iter().map(|m| m.y as i64).sum();
        let sum1: i64 = w[1].members.iter().map(|m| m.y as i64).sum();
        assert!(sum0 >= sum1);
    }
}

#[test]
fn random_commands_replay_consistently() {
    let input = small_input();
    let states = input_to_states(&input);
    let mut s = states[0].clone();
    s.score = 5;
    let s = s;

    let moves: Vec<String> = vec![
        "p".into(),
        "b".into(),
        "d".into(),
        "k".into(),
        "a".into(),
        "l".into(),
    ];
    let seqs: Vec<Vec<davar::Command>> = moves.iter().map(|m| string_to_commands(m)).collect();

    for i in 0..30 {
        let mut r = Random::new(i);
        let (cmds, snew) = r.commands(&s, &moves, &seqs);
        let alt_snew = s.apply_sequence(&string_to_commands(&cmds));
        println!("cmds {}", cmds);
        assert_eq!(snew.score, alt_snew.score);
        assert!(snew.score >= s.score);
    }
}

#[test]
fn random_many_commands_replay_consistently() {
    let input = small_input();
    let states = input_to_states(&input);
    let s = states[0].clone();

    let moves: Vec<String> = vec![
        "p".into(),
        "b".into(),
        "d".into(),
        "k".into(),
        "a".into(),
        "l".into(),
    ];
    let seqs: Vec<Vec<davar::Command>> = moves.iter().map(|m| string_to_commands(m)).collect();

    for i in 0..30 {
        let mut r = Random::new(i);
        let (cmds, snew) = r.many_commands(&s, &moves, &seqs, 100);
        let alt_snew = s.apply_sequence(&string_to_commands(&cmds));
        println!("cmds {}", cmds);
        assert_eq!(snew.score, alt_snew.score);
    }
}

#[test]
fn solve_n_covers_every_game() {
    let input = small_input();
    let states = input_to_states(&input);
    let args: Vec<(State, Input, SolverOptions)> = states
        .into_iter()
        .map(|s| (s, input.clone(), SolverOptions::new(1000, vec![], None, None)))
        .collect();
    let results = Solver::AllDown.solve_n(&args);
    assert_eq!(results.len(), 2);
    for (k, (sol, score)) in results.iter().enumerate() {
        assert_eq!(sol.problemId, input.id);
        assert_eq!(sol.seed, args[k].0.seed);
        let replayed = score_commands(&string_to_commands(&sol.solution), &args[k].0);
        assert_eq!(*score, replayed.score);
    }
}

#[test]
fn path_search_reaches_the_target_pose() {
    let input = small_input();
    let states = input_to_states(&input);
    let s = &states[0];
    let positions = enumerate_resting_positions(s);
    assert!(positions.len() > 0);
    let target = &positions[0];
    let opt = SolverOptions::new(5000, vec![], None, None);
    let found = davar::solver::find_path_dfs(s, target, &[], &opt);
    let (cmds, reached) = found.expect("a path to the lowest resting position");
    // Replaying the command string yields exactly the returned state, whose
    // active piece stands in the target pose.
    let replayed = s.apply_sequence(&string_to_commands(&cmds));
    assert_eq!(replayed.score, reached.score);
    assert!(reached.unit_sequence[0].same_pose(target));
    assert!(!reached.game_over);
}

#[test]
fn bottomup_score_matches_replay() {
    let input = small_input();
    let states = input_to_states(&input);
    let opt = SolverOptions::new(2000, vec![], None, None);
    let (sol, score) = Solver::BottomUp.solve(&states[0], &input, &opt);
    let replayed = score_commands(&string_to_commands(&sol.solution), &states[0]);
    assert_eq!(score, replayed.score);
}
