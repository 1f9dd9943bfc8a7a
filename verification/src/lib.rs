//! A falling-polyomino puzzle on a hexagonal board, with verified game rules
//! and solvers. The crate models the board as a pure state machine — every
//! transition returns a new state — and proves the executable code equal to
//! the mathematical model in `model`.
#![verifier::loop_isolation(false)]
pub mod codec;
pub mod init;
pub mod model;
pub mod options;
pub mod render;
pub mod rng;
pub mod search;
pub mod simulate;
pub mod solver;

pub use codec::{commands_to_string, string_to_commands};
pub use init::input_to_states;
pub use rng::get_source_order;
pub use simulate::score_commands;

use vstd::prelude::*;
use vstd::pervasive::VecAdditionalExecFns;

use crate::model::{CellV, InputV, StateV, UnitV};

verus! {

/// A game score.
pub type Score = i32;

/// A position on the board, in offset hex coordinates.
#[derive(Debug, PartialEq, Eq, Structural, Clone, Copy, Hash)]
pub struct Cell {
    pub x: i32,
    pub y: i32,
}

impl View for Cell {
    type V = CellV;

    open spec fn view(&self) -> CellV {
        CellV { x: self.x as int, y: self.y as int }
    }
}

impl Cell {
    pub fn new(x: i32, y: i32) -> (c: Cell)
        ensures
            c@ == (CellV { x: x as int, y: y as int }),
    {
        Cell { x, y }
    }
}

/// A falling piece: an ordered list of member cells plus a pivot cell used as
/// its rotation center. Two units are the same pose when their pivots agree
/// and their member sets agree.
#[derive(Debug, Clone)]
pub struct Unit {
    pub members: Vec<Cell>,
    pub pivot: Cell,
}

impl View for Unit {
    type V = UnitV;

    open spec fn view(&self) -> UnitV {
        UnitV { members: self.members@.map_values(|c: Cell| c@), pivot: self.pivot@ }
    }
}

/// A movement direction on the hex grid.
#[derive(Debug, PartialEq, Eq, Structural, Clone, Copy, Hash)]
pub enum Direction {
    W,
    E,
    SW,
    SE,
}

/// A rotation sense.
#[derive(Debug, PartialEq, Eq, Structural, Clone, Copy, Hash)]
pub enum Clock {
    Wise,
    Counter,
}

/// One game command: a move in one of the four directions, or a rotation.
#[derive(Debug, PartialEq, Eq, Structural, Clone, Copy, Hash)]
pub enum Command {
    Move(Direction),
    Rotate(Clock),
}

/// A puzzle definition: the unit templates, the board size, the pre-filled
/// cells, and the seeds (one game per seed).
#[allow(non_snake_case)]
#[derive(Debug, Clone)]
pub struct Input {
    pub id: i32,
    pub units: Vec<Unit>,
    pub width: i32,
    pub height: i32,
    pub filled: Vec<Cell>,
    pub sourceLength: i32,
    pub sourceSeeds: Vec<i32>,
}

impl View for Input {
    type V = InputV;

    open spec fn view(&self) -> InputV {
        InputV {
            id: self.id as int,
            units: self.units@.map_values(|u: Unit| u@),
            width: self.width as int,
            height: self.height as int,
            filled: self.filled@.map_values(|c: Cell| c@),
            source_length: self.sourceLength as int,
            source_seeds: self.sourceSeeds@,
        }
    }
}

/// A solved game: the puzzle id, the seed, an optional free-text tag, and the
/// command string.
#[allow(non_snake_case)]
#[derive(Debug, Clone)]
pub struct Solution {
    pub problemId: i32,
    pub seed: i32,
    pub tag: Option<String>,
    pub solution: String,
}

/// The full board position: the filled bitmap, the queue of upcoming units
/// (front = active piece), the pose history of the current fall, the score,
/// and the terminal flag.
#[derive(Debug, Clone)]
pub struct State {
    pub seed: i32,
    pub width: i32,
    pub height: i32,
    pub filled_array: Vec<bool>,
    pub visited: Vec<Unit>,
    pub unit_sequence: Vec<Unit>,
    pub ls_old: i32,
    pub score: i32,
    pub game_over: bool,
}

impl View for State {
    type V = StateV;

    open spec fn view(&self) -> StateV {
        StateV {
            seed: self.seed as int,
            width: self.width as int,
            height: self.height as int,
            filled: self.filled_array@,
            visited: self.visited@.map_values(|u: Unit| u@),
            units: self.unit_sequence@.map_values(|u: Unit| u@),
            ls_old: self.ls_old as int,
            score: self.score as int,
            game_over: self.game_over,
        }
    }
}

impl State {
    /// An empty board of the given size.
    pub fn with_size(width: i32, height: i32) -> (s: State)
        requires
            1 <= width <= crate::model::DIM_MAX,
            1 <= height <= crate::model::DIM_MAX,
        ensures
            s@ == (StateV {
                seed: 0,
                width: width as int,
                height: height as int,
                filled: Seq::new((width * height) as nat, |i: int| false),
                visited: Seq::empty(),
                units: Seq::empty(),
                ls_old: 0,
                score: 0,
                game_over: false,
            }),
            crate::model::state_wf(s@),
    {
        proof {
            assert((width as int) * (height as int) <= crate::model::DIM_MAX * crate::model::DIM_MAX
                && (width as int) * (height as int) >= 1) by (nonlinear_arith)
                requires
                    1 <= width as int <= crate::model::DIM_MAX,
                    1 <= height as int <= crate::model::DIM_MAX,
            ;
        }
        let n: usize = (width as usize) * (height as usize);
        let filled_array: Vec<bool> = vec![false; n];
        let s = State {
            seed: 0,
            width,
            height,
            filled_array,
            visited: Vec::new(),
            unit_sequence: Vec::new(),
            ls_old: 0,
            score: 0,
            game_over: false,
        };
        proof {
            assert(s@.filled =~= Seq::new((width * height) as nat, |i: int| false));
            assert(s@.visited =~= Seq::<UnitV>::empty());
            assert(s@.units =~= Seq::<UnitV>::empty());
        }
        s
    }

    /// An empty ten-by-ten board.
    pub fn new() -> (s: State)
        ensures
            s@ == (StateV {
                seed: 0,
                width: 10,
                height: 10,
                filled: Seq::new(100, |i: int| false),
                visited: Seq::empty(),
                units: Seq::empty(),
                ls_old: 0,
                score: 0,
                game_over: false,
            }),
            crate::model::state_wf(s@),
    {
        State::with_size(10, 10)
    }

    /// Mark one board cell as filled or empty.
    pub fn set_filled(&mut self, c: Cell, v: bool)
        requires
            crate::model::in_board(c@, old(self)@.width, old(self)@.height),
            crate::model::dims_ok(old(self)@),
        ensures
            final(self)@ == (StateV {
                filled: old(self)@.filled.update(crate::model::cell_index(old(self)@.width, c@), v),
                ..old(self)@
            }),
    {
        proof {
            crate::model::lemma_cell_index_bounds(self@.width, self@.height, c@);
        }
        let i: usize = (c.x as usize) + (c.y as usize) * (self.width as usize);
        self.filled_array.set(i, v);
    }

    /// Whether a cell is filled; cells outside the board count as empty.
    pub fn is_filled(&self, c: Cell) -> (b: bool)
        requires
            crate::model::dims_ok(self@),
        ensures
            b == crate::model::sv_filled(self@, c@),
    {
        if c.x < 0 || c.x >= self.width || c.y < 0 || c.y >= self.height {
            return false;
        }
        proof {
            crate::model::lemma_cell_index_bounds(self@.width, self@.height, c@);
        }
        self.filled_array[(c.x as usize) + (c.y as usize) * (self.width as usize)]
    }
}

} // verus!
