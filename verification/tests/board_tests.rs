use davar::simulate::Lattice;
use davar::{Cell, Clock, Command, State, Unit};

#[test]
fn to_from_lattice() {
    let c = Cell::new(5, 3);
    let l = Lattice::of_cell(c);
    let c1 = l.to_cell();
    assert_eq!(c, c1);
}

#[test]
fn test_visualize() {
    let st0 = State::new();
    println!("out_str:\n{}\n", st0.visualize());
}

#[test]
fn visualize_empty_board() {
    let st0 = State::new();
    let mut expected = String::new();
    for y in 0..10 {
        expected.push('|');
        if y % 2 == 1 {
            expected.push(' ');
        }
        for _x in 0..10 {
            expected.push_str(" .");
        }
        if y % 2 == 0 {
            expected.push(' ');
        }
        expected.push_str("|\n");
    }
    assert_eq!(st0.visualize(), expected);
}

#[test]
fn game_loss_on_revisit() {
    println!("");
    let mut s0 = State::new();
    let u = Unit {
        members: vec![Cell { x: 4, y: 5 }, Cell { x: 5, y: 5 }],
        pivot: Cell { x: 4, y: 5 },
    };
    s0.score = 100;
    s0.unit_sequence.push(u);
    let s0 = s0;
    let mut s = s0.apply(Command::Move(davar::Direction::W));
    println!("{}", s.visualize());
    s = s.apply(Command::Move(davar::Direction::E));
    println!("{}", s.visualize());
    assert_eq!(true, s.game_over);
    assert_eq!(0, s.score);

    s = s0.clone();
    println!("Rotating clockwise");
    println!("{}", s.visualize());
    s = s.apply(Command::Rotate(Clock::Wise));
    println!("{}", s.visualize());
    s = s.apply(Command::Rotate(Clock::Wise));
    println!("{}", s.visualize());
    assert_eq!(false, s.game_over);
    assert_eq!(100, s.score);
    s = s.apply(Command::Rotate(Clock::Wise));
    println!("{}", s.visualize());
    assert_eq!(false, s.game_over);
    assert_eq!(100, s.score);
    s = s.apply(Command::Rotate(Clock::Wise));
    println!("{}", s.visualize());
    assert_eq!(false, s.game_over);
    assert_eq!(100, s.score);
    s = s.apply(Command::Rotate(Clock::Wise));
    println!("{}", s.visualize());
    assert_eq!(false, s.game_over);
    assert_eq!(100, s.score);
    s = s.apply(Command::Rotate(Clock::Wise));
    println!("{}", s.visualize());
    assert_eq!(true, s.game_over);
    assert_eq!(0, s.score);

    s = s0.clone();
    println!("Rotating counterclockwise");
    println!("{}", s.visualize());
    s = s.apply(Command::Rotate(Clock::Counter));
    println!("{}", s.visualize());
    s = s.apply(Command::Rotate(Clock::Counter));
    println!("{}", s.visualize());
    assert_eq!(false, s.game_over);
    assert_eq!(100, s.score);
    s = s.apply(Command::Rotate(Clock::Counter));
    println!("{}", s.visualize());
    assert_eq!(false, s.game_over);
    assert_eq!(100, s.score);
    s = s.apply(Command::Rotate(Clock::Counter));
    println!("{}", s.visualize());
    assert_eq!(false, s.game_over);
    assert_eq!(100, s.score);
    s = s.apply(Command::Rotate(Clock::Counter));
    println!("{}", s.visualize());
    assert_eq!(false, s.game_over);
    assert_eq!(100, s.score);
    s = s.apply(Command::Rotate(Clock::Counter));
    println!("{}", s.visualize());
    assert_eq!(true, s.game_over);
    assert_eq!(0, s.score);

    s = s0.clone();
    println!("Combining rotation with translation");
    println!("{}", s.visualize());
    s = s.apply(Command::Rotate(Clock::Counter));
    println!("{}", s.visualize());
    s = s.apply(Command::Move(davar::Direction::W));
    println!("{}", s.visualize());
    assert_eq!(false, s.game_over);
    assert_eq!(100, s.score);
    s = s.apply(Command::Move(davar::Direction::W));
    println!("{}", s.visualize());
    assert_eq!(false, s.game_over);
    assert_eq!(100, s.score);
    s = s.apply(Command::Rotate(Clock::Counter));
    println!("{}", s.visualize());
    assert_eq!(false, s.game_over);
    assert_eq!(100, s.score);
    s = s.apply(Command::Move(davar::Direction::E));
    println!("{}", s.visualize());
    assert_eq!(false, s.game_over);
    assert_eq!(100, s.score);
    s = s.apply(Command::Move(davar::Direction::E));
    println!("{}", s.visualize());
    assert_eq!(false, s.game_over);
    assert_eq!(100, s.score);
    s = s.apply(Command::Rotate(Clock::Wise));
    println!("{}", s.visualize());
    assert_eq!(true, s.game_over);
    assert_eq!(0, s.score);
}

#[test]
fn game_loss_on_revisit_with_symmetry() {
    println!("");
    let mut s0 = State::new();
    let u = Unit {
        members: vec![Cell { x: 3, y: 5 }, Cell { x: 4, y: 5 }, Cell { x: 5, y: 5 }],
        pivot: Cell { x: 4, y: 5 },
    };
    s0.score = 100;
    s0.unit_sequence.push(u);
    let s0 = s0;

    let mut s = s0.clone();
    println!("Rotating clockwise");
    println!("{}", s.visualize());
    s = s.apply(Command::Rotate(Clock::Wise));
    println!("{}", s.visualize());
    s = s.apply(Command::Rotate(Clock::Wise));
    println!("{}", s.visualize());
    assert_eq!(false, s.game_over);
    assert_eq!(100, s.score);
    s = s.apply(Command::Rotate(Clock::Wise));
    println!("{}", s.visualize());
    assert_eq!(true, s.game_over);
    assert_eq!(0, s.score);

    s = s0.clone();
    println!("Rotating counterclockwise");
    println!("{}", s.visualize());
    s = s.apply(Command::Rotate(Clock::Counter));
    println!("{}", s.visualize());
    s = s.apply(Command::Rotate(Clock::Counter));
    println!("{}", s.visualize());
    assert_eq!(false, s.game_over);
    assert_eq!(100, s.score);
    s = s.apply(Command::Rotate(Clock::Counter));
    println!("{}", s.visualize());
    assert_eq!(true, s.game_over);
    assert_eq!(0, s.score);
}

#[test]
fn apply_works() {
    let mut s0 = State::new();
    let u = Unit { members: vec![Cell { x: 5, y: 5 }], pivot: Cell { x: 5, y: 5 } };
    s0.unit_sequence.push(u);
    let s0 = s0;
    let mut s = s0.apply(Command::Move(davar::Direction::W));
    assert_eq!(false, s.game_over);
    assert_eq!(0, s.score);
    assert_eq!(4, s.unit_sequence[0].members[0].x);
    assert_eq!(4, s.unit_sequence[0].pivot.x);
    assert_eq!(5, s.unit_sequence[0].members[0].y);
    assert_eq!(5, s.unit_sequence[0].pivot.y);

    s = s0
        .apply(Command::Move(davar::Direction::W))
        .apply(Command::Move(davar::Direction::W))
        .apply(Command::Move(davar::Direction::W))
        .apply(Command::Move(davar::Direction::W))
        .apply(Command::Move(davar::Direction::W))
        .apply(Command::Move(davar::Direction::W))
        .apply(Command::Move(davar::Direction::W))
        .apply(Command::Move(davar::Direction::W));
    assert_eq!(true, s.game_over);
    assert_eq!(0, s.score);

    s = s0.apply(Command::Move(davar::Direction::E));
    assert_eq!(false, s.game_over);
    assert_eq!(0, s.score);
    assert_eq!(6, s.unit_sequence[0].members[0].x);
    assert_eq!(6, s.unit_sequence[0].pivot.x);
    assert_eq!(5, s.unit_sequence[0].members[0].y);
    assert_eq!(5, s.unit_sequence[0].pivot.y);

    s = s0
        .apply(Command::Move(davar::Direction::E))
        .apply(Command::Move(davar::Direction::E))
        .apply(Command::Move(davar::Direction::E))
        .apply(Command::Move(davar::Direction::E))
        .apply(Command::Move(davar::Direction::E))
        .apply(Command::Move(davar::Direction::E))
        .apply(Command::Move(davar::Direction::E))
        .apply(Command::Move(davar::Direction::E));
    assert_eq!(true, s.game_over);
    assert_eq!(0, s.score);
}

#[test]
fn lock_scores_unit_size_plus_line_bonus() {
    // A 3-wide, 2-tall board with the bottom row filled except one cell; a
    // one-cell unit standing in the gap. Pushing it west is invalid, so it
    // locks, completes the row, and clears it: 1 + 100 * (1 + 1) * 1 / 2.
    let mut s = State::with_size(3, 2);
    s.set_filled(Cell::new(0, 1), true);
    s.set_filled(Cell::new(1, 1), true);
    s.unit_sequence.push(Unit { members: vec![Cell { x: 2, y: 1 }], pivot: Cell { x: 2, y: 1 } });
    let s1 = s.apply(Command::Move(davar::Direction::W));
    assert_eq!(s1.score, 101);
    // The queue is empty now, but only the next command ends the game.
    assert_eq!(false, s1.game_over);
}

#[test]
fn cleared_rows_shift_down() {
    // A 2-wide, 3-tall board: fill the middle row fully and one cell of the
    // top row; lock a unit into the bottom row's gap so the bottom row
    // clears; the rows above shift down one.
    let mut s = State::with_size(2, 3);
    s.set_filled(Cell::new(0, 2), true); // bottom row, one cell
    s.set_filled(Cell::new(0, 1), true); // middle row, one cell
    s.unit_sequence.push(Unit { members: vec![Cell { x: 1, y: 2 }], pivot: Cell { x: 1, y: 2 } });
    // Moving east is off the board: the unit locks in place, completing the
    // bottom row, which clears.
    let s1 = s.apply(Command::Move(davar::Direction::E));
    assert_eq!(s1.score, 1 + 100);
    // After the clear the old middle row sits on the bottom.
    assert!(s1.is_filled(Cell::new(0, 2)));
    assert!(!s1.is_filled(Cell::new(1, 2)));
    assert!(!s1.is_filled(Cell::new(0, 1)));
    assert!(!s1.is_filled(Cell::new(0, 0)));
}

#[test]
fn empty_queue_ends_game_with_zero_score() {
    let mut s = State::new();
    s.score = 55;
    let s1 = s.apply(Command::Move(davar::Direction::SE));
    assert_eq!(true, s1.game_over);
    assert_eq!(0, s1.score);
    // Terminal states absorb every further command.
    let s2 = s1.apply(Command::Rotate(Clock::Wise));
    assert_eq!(true, s2.game_over);
    assert_eq!(0, s2.score);
}
