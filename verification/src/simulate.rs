//! The board state machine: lattice geometry, unit transforms, and the
//! `apply` transition with locking and line clearing.
use vstd::prelude::*;
use vstd::pervasive::VecAdditionalExecFns;

use crate::model::{
    self, cell_moved, cell_of, lat_add, lat_of, lat_rotated, lat_sub, odd, unit_applied,
    unit_moved, unit_rotated, CellV, LatticeV, UnitV,
};
use crate::{Cell, Clock, Command, Direction, Unit};

pub use crate::codec::score_pop;

verus! {

/// Coordinate bound under which the geometry arithmetic cannot overflow.
pub const GEO_MAX: i32 = 500_000_000;

/// A vector in a Bravais lattice with basis vectors in the E and SE
/// directions. Addition and subtraction are meaningful on this lattice, and
/// most importantly, rotation is easy.
#[derive(Debug, PartialEq, Eq, Structural, Clone, Copy, Hash)]
pub struct Lattice {
    pub x: i32,
    pub y: i32,
}

impl View for Lattice {
    type V = LatticeV;

    open spec fn view(&self) -> LatticeV {
        LatticeV { x: self.x as int, y: self.y as int }
    }
}

/// Division by two rounding toward zero, matching the model's `div2`.
pub(crate) fn div2_i32(y: i32) -> (r: i32)
    requires
        y > i32::MIN,
    ensures
        r as int == model::div2(y as int),
{
    if y >= 0 {
        y / 2
    } else {
        -((-y) / 2)
    }
}

/// Euclidean parity of a possibly negative row number.
fn odd_i32(y: i32) -> (r: bool)
    requires
        y > i32::MIN,
    ensures
        r == odd(y as int),
{
    if y >= 0 {
        y % 2 == 1
    } else {
        proof {
            model::lemma_neg_mod2(y as int);
        }
        (-y) % 2 == 1
    }
}

impl Lattice {
    pub fn new(x: i32, y: i32) -> (l: Lattice)
        ensures
            l@ == (LatticeV { x: x as int, y: y as int }),
    {
        Lattice { x, y }
    }

    /// One sixth-turn about the origin.
    pub(crate) fn rotated(&self, c: Clock) -> (r: Lattice)
        requires
            -GEO_MAX <= self.x + self.y <= GEO_MAX,
            -GEO_MAX <= self.x <= GEO_MAX,
            -GEO_MAX <= self.y <= GEO_MAX,
        ensures
            r@ == lat_rotated(self@, c),
    {
        match c {
            Clock::Wise => Lattice::new(-self.y, self.x + self.y),
            Clock::Counter => Lattice::new(self.y + self.x, -self.x),
        }
    }

    pub(crate) fn plus(&self, rhs: Lattice) -> (r: Lattice)
        requires
            -GEO_MAX <= self.x + rhs.x <= GEO_MAX,
            -GEO_MAX <= self.y + rhs.y <= GEO_MAX,
        ensures
            r@ == lat_add(self@, rhs@),
    {
        Lattice::new(self.x + rhs.x, self.y + rhs.y)
    }

    pub(crate) fn minus(&self, rhs: Lattice) -> (r: Lattice)
        requires
            -GEO_MAX <= self.x - rhs.x <= GEO_MAX,
            -GEO_MAX <= self.y - rhs.y <= GEO_MAX,
        ensures
            r@ == lat_sub(self@, rhs@),
    {
        Lattice::new(self.x - rhs.x, self.y - rhs.y)
    }

    /// A cell's position in axial coordinates.
    pub fn of_cell(c: Cell) -> (l: Lattice)
        requires
            -GEO_MAX <= c.x <= GEO_MAX,
            -GEO_MAX <= c.y <= GEO_MAX,
        ensures
            l@ == lat_of(c@),
    {
        Lattice::new(c.x - div2_i32(c.y), c.y)
    }

    /// Back from axial coordinates to a cell.
    pub fn to_cell(&self) -> (c: Cell)
        requires
            -GEO_MAX <= self.x <= GEO_MAX,
            -GEO_MAX <= self.y <= GEO_MAX,
        ensures
            c@ == cell_of(self@),
    {
        Cell::new(self.x + div2_i32(self.y), self.y)
    }
}

/// Copy a vector of cells element by element.
pub(crate) fn clone_cells(v: &Vec<Cell>) -> (r: Vec<Cell>)
    ensures
        r@ == v@,
{
    let mut r: Vec<Cell> = Vec::new();
    for i in 0..v.len()
        invariant
            r@ == v@.subrange(0, i as int),
    {
        r.push(v[i]);
    }
    proof {
        assert(r@ =~= v@);
    }
    r
}

/// Copy a unit; the copy has the same view.
pub(crate) fn clone_unit(u: &Unit) -> (r: Unit)
    ensures
        r@ == u@,
{
    let r = Unit { members: clone_cells(&u.members), pivot: u.pivot };
    proof {
        assert(r@.members =~= u@.members);
    }
    r
}

/// Copy a vector of units; the copies have the same views.
pub(crate) fn clone_units(v: &Vec<Unit>) -> (r: Vec<Unit>)
    ensures
        r@.map_values(|u: Unit| u@) == v@.map_values(|u: Unit| u@),
{
    let mut r: Vec<Unit> = Vec::new();
    for i in 0..v.len()
        invariant
            r@.len() == i,
            forall|j: int| 0 <= j < i ==> #[trigger] r@[j]@ == v@[j]@,
    {
        r.push(clone_unit(&v[i]));
    }
    proof {
        assert(r@.map_values(|u: Unit| u@) =~= v@.map_values(|u: Unit| u@));
    }
    r
}

/// Copy a vector of booleans element by element.
pub(crate) fn clone_bools(v: &Vec<bool>) -> (r: Vec<bool>)
    ensures
        r@ == v@,
{
    let mut r: Vec<bool> = Vec::new();
    for i in 0..v.len()
        invariant
            r@ == v@.subrange(0, i as int),
    {
        r.push(v[i]);
    }
    proof {
        assert(r@ =~= v@);
    }
    r
}

/// Whether some member of `v` views to the same cell as `c`.
pub(crate) fn contains_cell(v: &Vec<Cell>, c: Cell) -> (b: bool)
    ensures
        b == v@.map_values(|m: Cell| m@).contains(c@),
{
    let ghost ms = v@.map_values(|m: Cell| m@);
    for i in 0..v.len()
        invariant
            forall|j: int| 0 <= j < i ==> ms[j] != c@,
    {
        if v[i].x == c.x && v[i].y == c.y {
            assert(ms[i as int] == c@);
            return true;
        }
    }
    assert(!ms.contains(c@));
    false
}

impl Unit {
    /// Whether two units are the same pose: pivots equal and member sets
    /// equal, member order irrelevant.
    pub fn same_pose(&self, other: &Unit) -> (b: bool)
        ensures
            b == model::pose_eq(self@, other@),
    {
        if self.pivot.x != other.pivot.x || self.pivot.y != other.pivot.y {
            return false;
        }
        let ghost am = self@.members;
        let ghost bm = other@.members;
        for i in 0..self.members.len()
            invariant
                am == self@.members,
                bm == other@.members,
                am.len() == self.members.len(),
                forall|j: int| 0 <= j < i ==> bm.contains(#[trigger] am[j]),
        {
            if !contains_cell(&other.members, self.members[i]) {
                assert(am.contains(am[i as int]));
                assert(!(am.to_set() =~= bm.to_set())) by {
                    assert(am.to_set().contains(am[i as int]));
                }
                return false;
            }
        }
        for i in 0..other.members.len()
            invariant
                am == self@.members,
                bm == other@.members,
                bm.len() == other.members.len(),
                forall|j: int| 0 <= j < am.len() ==> bm.contains(#[trigger] am[j]),
                forall|j: int| 0 <= j < i ==> am.contains(#[trigger] bm[j]),
        {
            if !contains_cell(&self.members, other.members[i]) {
                assert(bm.contains(bm[i as int]));
                assert(!(am.to_set() =~= bm.to_set())) by {
                    assert(bm.to_set().contains(bm[i as int]));
                }
                return false;
            }
        }
        proof {
            assert(am.to_set() =~= bm.to_set()) by {
                assert forall|x: CellV| am.to_set().contains(x) implies bm.to_set().contains(x) by {
                    let j = choose|j: int| 0 <= j < am.len() && am[j] == x;
                    assert(bm.contains(am[j]));
                }
                assert forall|x: CellV| bm.to_set().contains(x) implies am.to_set().contains(x) by {
                    let j = choose|j: int| 0 <= j < bm.len() && bm[j] == x;
                    assert(am.contains(bm[j]));
                }
            }
        }
        true
    }

    /// Apply one command to this unit: a move translates the pivot and every
    /// member; a rotation turns every member about the pre-transform pivot.
    pub(crate) fn command(&mut self, c: Command)
        requires
            model::unit_safe(old(self)@),
        ensures
            final(self)@ == unit_applied(old(self)@, c),
    {
        let ghost u0 = self@;
        let piv = Lattice::of_cell(self.pivot);
        match c {
            Command::Move(d) => {
                self.pivot = self.pivot.moved(d);
            },
            _ => {},
        }
        match c {
            Command::Move(d) => {
                let n = self.members.len();
                for i in 0..n
                    invariant
                        n == self.members.len(),
                        n == u0.members.len(),
                        self.pivot@ == cell_moved(u0.pivot, d),
                        forall|j: int|
                            0 <= j < i ==> #[trigger] self.members@[j]@ == cell_moved(
                                u0.members[j],
                                d,
                            ),
                        forall|j: int|
                            i <= j < n ==> #[trigger] self.members@[j]@ == u0.members[j],
                {
                    assert(model::cell_safe(u0.members[i as int]));
                    assert(self.members@[i as int]@ == u0.members[i as int]);
                    let m = self.members[i].moved(d);
                    self.members.set(i, m);
                }
                proof {
                    assert(self@.members =~= unit_moved(u0, d).members);
                }
            },
            Command::Rotate(r) => {
                let n = self.members.len();
                for i in 0..n
                    invariant
                        n == self.members.len(),
                        n == u0.members.len(),
                        piv@ == lat_of(u0.pivot),
                        self.pivot@ == u0.pivot,
                        model::cell_safe(u0.pivot),
                        forall|j: int|
                            0 <= j < i ==> #[trigger] self.members@[j]@ == model::rotated_about(
                                lat_of(u0.pivot),
                                u0.members[j],
                                r,
                            ),
                        forall|j: int|
                            i <= j < n ==> #[trigger] self.members@[j]@ == u0.members[j],
                {
                    proof {
                        assert(model::cell_safe(u0.members[i as int]));
                        model::lemma_div2_bounds(self.members@[i as int]@.y);
                        model::lemma_div2_bounds(u0.pivot.y);
                    }
                    let dc = Lattice::of_cell(self.members[i]).minus(piv);
                    let m = piv.plus(dc.rotated(r)).to_cell();
                    self.members.set(i, m);
                }
                proof {
                    assert(self@.members =~= unit_rotated(u0, r).members);
                }
            },
        }
    }
}

impl Cell {
    /// One step in the given direction; the x adjustment of a southward step
    /// depends on the parity of the starting row.
    pub(crate) fn moved(&self, c: Direction) -> (r: Cell)
        requires
            -GEO_MAX <= self.x <= GEO_MAX,
            -GEO_MAX <= self.y <= GEO_MAX,
        ensures
            r@ == cell_moved(self@, c),
    {
        let mut out = *self;
        match c {
            Direction::W => {
                out.x = out.x - 1;
            },
            Direction::E => {
                out.x = out.x + 1;
            },
            Direction::SE => {
                if odd_i32(out.y) {
                    out.x = out.x + 1;
                }
                out.y = out.y + 1;
            },
            Direction::SW => {
                if odd_i32(out.y) {
                } else {
                    out.x = out.x - 1;
                }
                out.y = out.y + 1;
            },
        }
        out
    }
}

/// Whether some pose in `v` equals the pose of `u`.
pub(crate) fn visited_contains(v: &Vec<Unit>, u: &Unit) -> (b: bool)
    ensures
        b == model::visited_has(v@.map_values(|x: Unit| x@), u@),
{
    let ghost vs = v@.map_values(|x: Unit| x@);
    for i in 0..v.len()
        invariant
            forall|j: int| 0 <= j < i ==> !model::pose_eq(vs[j], u@),
    {
        if v[i].same_pose(u) {
            assert(model::pose_eq(vs[i as int], u@));
            return true;
        }
    }
    false
}

impl crate::State {
    /// A cell is invalid when it lies off the board or on a filled cell.
    pub(crate) fn is_invalid(&self, c: Cell) -> (b: bool)
        requires
            model::dims_ok(self@),
        ensures
            b == model::sv_invalid(self@, c@),
    {
        if c.x < 0 || c.x >= self.width || c.y >= self.height || c.y < 0 {
            return true;
        }
        self.is_filled(c)
    }

    /// Whether any member of the unit is invalid on this board.
    pub(crate) fn is_unit_invalid(&self, u: &Unit) -> (b: bool)
        requires
            model::dims_ok(self@),
        ensures
            b == model::unit_invalid(self@, u@),
    {
        let ghost ms = u@.members;
        for i in 0..u.members.len()
            invariant
                forall|j: int| 0 <= j < i ==> !model::sv_invalid(self@, ms[j]),
        {
            if self.is_invalid(u.members[i]) {
                assert(model::sv_invalid(self@, ms[i as int]));
                return true;
            }
        }
        false
    }
}

/// Whether every cell of row `y` is filled.
fn row_is_full(filled: &Vec<bool>, width: i32, height: i32, y: i32) -> (b: bool)
    requires
        1 <= width <= model::DIM_MAX,
        1 <= height <= model::DIM_MAX,
        filled@.len() == width * height,
        0 <= y < height,
    ensures
        b == model::row_full(filled@, width as int, y as int),
{
    for x in 0..width
        invariant
            forall|j: int| 0 <= j < x ==> #[trigger] filled@[y * width + j],
    {
        proof {
            model::lemma_cell_index_bounds(
                width as int,
                height as int,
                CellV { x: x as int, y: y as int },
            );
        }
        if !filled[(x as usize) + (y as usize) * (width as usize)] {
            assert(!filled@[y * width + x]);
            return false;
        }
    }
    true
}

/// Remove every full row: surviving rows keep their order and settle at the
/// bottom, and the count of cleared rows enters as empty rows at the top.
fn clear_rows(filled: &Vec<bool>, width: i32, height: i32) -> (res: (Vec<bool>, i32))
    requires
        1 <= width <= model::DIM_MAX,
        1 <= height <= model::DIM_MAX,
        filled@.len() == width * height,
    ensures
        res.0@ == model::cleared_filled(filled@, width as int, height as int),
        res.1 == model::clear_count(filled@, width as int, height as int),
        res.0@.len() == filled@.len(),
{
    let ghost w = width as int;
    let ghost h = height as int;
    let mut kept: Vec<i32> = Vec::new();
    for y in 0..height
        invariant
            kept@.map_values(|r: i32| r as int) == model::kept_rows(filled@, w, y as int),
            forall|k: int| 0 <= k < kept@.len() ==> 0 <= #[trigger] kept@[k] < height,
    {
        let ghost before = kept@.map_values(|r: i32| r as int);
        if !row_is_full(filled, width, height, y) {
            kept.push(y);
            proof {
                assert(kept@.map_values(|r: i32| r as int) =~= before.push(y as int));
            }
        }
    }
    proof {
        model::lemma_kept_rows_bounds(filled@, w, h);
    }
    let ls: i32 = height - (kept.len() as i32);
    let ghost spec_out = model::cleared_filled(filled@, w, h);
    let mut out: Vec<bool> = Vec::new();
    let mut ty: i32 = 0;
    while ty < height
        invariant
            0 <= ty <= height,
            out@.len() == ty * width,
            forall|i: int| 0 <= i < out@.len() ==> out@[i] == spec_out[i],
            ls == h - model::kept_rows(filled@, w, h).len(),
            kept@.map_values(|r: i32| r as int) == model::kept_rows(filled@, w, h),
            forall|k: int| 0 <= k < kept@.len() ==> 0 <= #[trigger] kept@[k] < height,
        decreases height - ty,
    {
        let mut x: i32 = 0;
        while x < width
            invariant
                0 <= x <= width,
                0 <= ty < height,
                out@.len() == ty * width + x,
                forall|i: int| 0 <= i < out@.len() ==> out@[i] == spec_out[i],
            decreases width - x,
        {
            let ghost i = ty * width + x;
            proof {
                vstd::arithmetic::div_mod::lemma_fundamental_div_mod_converse(
                    i,
                    w,
                    ty as int,
                    x as int,
                );
                model::lemma_cell_index_bounds(
                    w,
                    h,
                    CellV { x: x as int, y: ty as int },
                );
            }
            let v: bool = if ty < ls {
                false
            } else {
                let src_row: i32 = kept[(ty - ls) as usize];
                proof {
                    model::lemma_cell_index_bounds(
                        w,
                        h,
                        CellV { x: x as int, y: src_row as int },
                    );
                }
                filled[(x as usize) + (src_row as usize) * (width as usize)]
            };
            out.push(v);
            proof {
                assert(out@[i] == spec_out[i]);
            }
            x = x + 1;
        }
        proof {
            assert((ty + 1) * width == ty * width + width) by (nonlinear_arith);
        }
        ty = ty + 1;
    }
    proof {
        assert(height * width == width * height) by (nonlinear_arith);
        assert(out@ =~= spec_out);
    }
    (out, ls)
}

impl crate::State {
    /// Lock the active unit: fill its members, clear the pose history, pop
    /// the queue, clear full rows, add the score, and end the game if the
    /// next unit spawns on an invalid cell.
    fn lock_unit(&mut self)
        requires
            model::state_wf(old(self)@),
            !old(self)@.game_over,
            old(self)@.units.len() >= 1,
        ensures
            final(self)@ == model::lock_spec(old(self)@),
            model::state_wf(final(self)@),
    {
        let ghost s0 = self@;
        let ghost w = s0.width;
        let ghost h = s0.height;
        proof {
            assert(model::unit_wf(s0.units[0], w, h));
            model::lemma_queue_potential_nonneg(s0.units, h);
            model::lemma_queue_potential_nonneg(s0.units.drop_first(), h);
            model::lemma_bonus_monotone(h, h);
        }
        let u = clone_unit(&self.unit_sequence[0]);
        proof {
            assert(s0.score + model::queue_potential(s0.units, h) <= i32::MAX);
            assert(s0.units[0].members.len() <= i32::MAX);
        }
        let size: i32 = u.members.len() as i32;
        for i in 0..u.members.len()
            invariant
                u@ == s0.units[0],
                self@ == (crate::model::StateV {
                    filled: model::fill_cells(s0.filled, w, u@.members.take(i as int)),
                    ..s0
                }),
                self@.filled.len() == s0.filled.len(),
        {
            assert(model::in_board(u@.members[i as int], w, h));
            self.set_filled(u.members[i], true);
            proof {
                assert(u@.members.take(i + 1).drop_last() =~= u@.members.take(i as int));
                assert(u@.members.take(i + 1).last() == u@.members[i as int]);
                assert(self@.filled =~= model::fill_cells(s0.filled, w, u@.members.take(i + 1)));
                assert(self@ =~~= (crate::model::StateV {
                    filled: model::fill_cells(s0.filled, w, u@.members.take(i + 1)),
                    ..s0
                }));
                assert forall|j: int| 0 <= j < u@.members.take(i + 1).len() implies 0
                    <= model::cell_index(w, #[trigger] u@.members.take(i + 1)[j]) < s0.filled.len() by {
                    assert(u@.members.take(i + 1)[j] == u@.members[j]);
                    assert(model::in_board(u@.members[j], w, h));
                    model::lemma_cell_index_bounds(w, h, u@.members[j]);
                }
                model::lemma_fill_cells_len(s0.filled, w, u@.members.take(i + 1));
            }
        }
        proof {
            assert(u@.members.take(u@.members.len() as int) =~= u@.members);
        }
        let ghost filled1 = model::fill_cells(s0.filled, w, u@.members);
        self.visited.clear();
        self.unit_sequence.remove(0);
        proof {
            assert(self@.units =~= s0.units.drop_first());
            assert(self@.visited =~= Seq::<UnitV>::empty());
        }
        let (nf, ls) = clear_rows(&self.filled_array, self.width, self.height);
        self.filled_array = nf;
        proof {
            model::lemma_kept_rows_bounds(filled1, w, h);
            assert(0 <= ls <= h);
            model::lemma_bonus_monotone(ls as int, h);
            assert(self@.score == s0.score);
            assert(size as int == s0.units[0].members.len());
            assert(size + 100 * (1 + ls) * ls / 2 <= s0.units[0].members.len() + 100 * (1 + h) * h
                / 2);
            assert(s0.score + (size + 100 * (1 + ls) * ls / 2) <= i32::MAX);
        }
        proof {
            assert(0 <= 100 * (1 + ls) * ls <= 100 * (1 + model::DIM_MAX) * model::DIM_MAX)
                by (nonlinear_arith)
                requires
                    0 <= ls <= model::DIM_MAX,
            ;
        }
        let prod: i32 = 100 * (1 + ls) * ls;
        let bonus: i32 = prod / 2;
        proof {
            assert(0 <= bonus);
            assert(self.score + (size + bonus) <= i32::MAX);
        }
        self.score = self.score + (size + bonus);
        let mut over = false;
        if self.unit_sequence.len() > 0 {
            if self.is_unit_invalid(&self.unit_sequence[0]) {
                over = true;
            }
        }
        self.game_over = over;
        proof {
            assert(final(self)@ =~~= model::lock_spec(s0));
            assert forall|i: int| 0 <= i < final(self)@.units.len() implies model::unit_wf(
                #[trigger] final(self)@.units[i],
                w,
                h,
            ) by {
                assert(final(self)@.units[i] == s0.units[i + 1]);
            }
        }
    }

    /// One command applied to this state, returning the new state: terminal
    /// states absorb; an empty queue ends the game with score zero; a
    /// repeated pose ends the game with score zero; an invalid candidate pose
    /// locks the unit in place instead; a southward move clears the pose
    /// history.
    pub fn apply(&self, c: Command) -> (r: crate::State)
        requires
            model::state_wf(self@),
        ensures
            r@ == model::spec_apply(self@, c),
            model::state_wf(r@),
    {
        let ghost s0 = self@;
        let mut s = self.duplicate();
        if s.game_over {
            return s;
        }
        if s.unit_sequence.len() == 0 {
            s.game_over = true;
            s.score = 0;
            proof {
                assert(s@ =~~= model::spec_apply(s0, c));
            }
            return s;
        }
        proof {
            assert(model::unit_wf(s0.units[0], s0.width, s0.height));
            model::lemma_pivot_bounds(s0.units[0], s0.width, s0.height);
        }
        let mut cand = clone_unit(&s.unit_sequence[0]);
        cand.command(c);
        let prev = clone_unit(&self.unit_sequence[0]);
        s.visited.push(prev);
        proof {
            assert(s@.visited =~= s0.visited.push(s0.units[0]));
        }
        if visited_contains(&s.visited, &cand) {
            s.unit_sequence.set(0, cand);
            s.game_over = true;
            s.score = 0;
            proof {
                assert(s@.units =~= s0.units.update(0, model::unit_applied(s0.units[0], c)));
                assert(s@ =~~= model::spec_apply(s0, c));
            }
            return s;
        }
        if self.is_unit_invalid(&cand) {
            proof {
                assert(s@ =~~= (crate::model::StateV {
                    visited: s0.visited.push(s0.units[0]),
                    ..s0
                }));
                assert forall|i: int| 0 <= i < s@.visited.len() implies model::unit_wf(
                    #[trigger] s@.visited[i],
                    s0.width,
                    s0.height,
                ) by {
                    if i < s0.visited.len() {
                        assert(s@.visited[i] == s0.visited[i]);
                    } else {
                        assert(s@.visited[i] == s0.units[0]);
                    }
                }
            }
            s.lock_unit();
            proof {
                assert(s@ =~~= model::spec_apply(s0, c));
            }
            return s;
        }
        let south = match c {
            Command::Move(Direction::SE) | Command::Move(Direction::SW) => true,
            _ => false,
        };
        proof {
            let candv = model::unit_applied(s0.units[0], c);
            model::lemma_unit_applied_len(s0.units[0], c);
            assert(!model::unit_invalid(s0, candv));
            assert forall|i: int| 0 <= i < candv.members.len() implies model::in_board(
                #[trigger] candv.members[i],
                s0.width,
                s0.height,
            ) by {
                assert(!model::sv_invalid(s0, candv.members[i]));
            }
            match c {
                Command::Move(d) => {
                    model::lemma_unit_wf_moved(s0.units[0], d, s0.width, s0.height);
                },
                Command::Rotate(r) => {
                    model::lemma_unit_wf_rotated(s0.units[0], r, s0.width, s0.height);
                },
            }
            model::lemma_potential_update_head(s0.units, candv, s0.height);
        }
        s.unit_sequence.set(0, cand);
        if south {
            s.visited.clear();
        }
        proof {
            assert(s@.units =~= s0.units.update(0, model::unit_applied(s0.units[0], c)));
            if south {
                assert(s@.visited =~= Seq::<UnitV>::empty());
            }
            assert(s@ =~~= model::spec_apply(s0, c));
            assert forall|i: int| 0 <= i < s@.visited.len() implies model::unit_wf(
                #[trigger] s@.visited[i],
                s0.width,
                s0.height,
            ) by {
                if i < s0.visited.len() {
                    assert(s@.visited[i] == s0.visited[i]);
                } else {
                    assert(s@.visited[i] == s0.units[0]);
                }
            }
            assert forall|i: int| 0 <= i < s@.units.len() implies model::unit_wf(
                #[trigger] s@.units[i],
                s0.width,
                s0.height,
            ) by {
                if i != 0 {
                    assert(s@.units[i] == s0.units[i]);
                }
            }
        }
        s
    }

    /// A structural copy of this state, with the same view.
    pub(crate) fn duplicate(&self) -> (r: crate::State)
        ensures
            r@ == self@,
    {
        let r = crate::State {
            seed: self.seed,
            width: self.width,
            height: self.height,
            filled_array: clone_bools(&self.filled_array),
            visited: clone_units(&self.visited),
            unit_sequence: clone_units(&self.unit_sequence),
            ls_old: self.ls_old,
            score: self.score,
            game_over: self.game_over,
        };
        proof {
            assert(r@ =~~= self@);
        }
        r
    }

    /// A command sequence folded over this state, left to right.
    pub fn apply_sequence(&self, cs: &[Command]) -> (r: crate::State)
        requires
            model::state_wf(self@),
        ensures
            r@ == model::spec_apply_seq(self@, cs@),
            model::state_wf(r@),
    {
        let mut s = self.duplicate();
        for i in 0..cs.len()
            invariant
                s@ == model::spec_apply_seq(self@, cs@.take(i as int)),
                model::state_wf(s@),
        {
            s = s.apply(cs[i]);
            proof {
                model::lemma_apply_seq_snoc(self@, cs@.take(i as int), cs@[i as int]);
                assert(cs@.take(i + 1).drop_last() =~= cs@.take(i as int));
                assert(cs@.take(i + 1) =~= cs@.take(i as int).push(cs@[i as int]));
            }
        }
        proof {
            assert(cs@.take(cs@.len() as int) =~= cs@);
        }
        s
    }
}

/// A command sequence scored against a starting state: the final state after
/// replaying every command.
pub fn score_commands(cmds: &Vec<Command>, s0: &crate::State) -> (r: crate::State)
    requires
        model::state_wf(s0@),
    ensures
        r@ == model::spec_apply_seq(s0@, cmds@),
        model::state_wf(r@),
{
    s0.apply_sequence(cmds.as_slice())
}

} // verus!
