//! Building the initial board states of a puzzle: center each unit template
//! at the top of the board, derive each game's unit order from its seed, and
//! mark the pre-filled cells.
use vstd::prelude::*;

use crate::model::{
    self, cell_of, div2, fill_cells, in_board, lat_of, unit_wf, CellV, InputV, LatticeV, StateV,
    UnitV, DIM_MAX, INPUT_COORD_MAX,
};
use crate::rng::{lcg_out, lcg_state};
use crate::simulate::{clone_unit, Lattice};
use crate::{Cell, Input, State, Unit};

verus! {

/// Upper bound on the member count of one unit template: together with the
/// piece-count bound of `input_wf` it keeps every reachable score inside the
/// score type.
pub const MEMBERS_MAX: i32 = 1000;

/// The least row among a unit's members.
pub open spec fn min_member_y(ms: Seq<CellV>) -> int
    decreases ms.len(),
{
    if ms.len() <= 1 {
        if ms.len() == 1 {
            ms[0].y
        } else {
            0
        }
    } else {
        let rest = min_member_y(ms.drop_last());
        if ms.last().y < rest {
            ms.last().y
        } else {
            rest
        }
    }
}

/// The least column among a unit's members.
pub open spec fn min_member_x(ms: Seq<CellV>) -> int
    decreases ms.len(),
{
    if ms.len() <= 1 {
        if ms.len() == 1 {
            ms[0].x
        } else {
            0
        }
    } else {
        let rest = min_member_x(ms.drop_last());
        if ms.last().x < rest {
            ms.last().x
        } else {
            rest
        }
    }
}

/// The greatest column among a unit's members.
pub open spec fn max_member_x(ms: Seq<CellV>) -> int
    decreases ms.len(),
{
    if ms.len() <= 1 {
        if ms.len() == 1 {
            ms[0].x
        } else {
            0
        }
    } else {
        let rest = max_member_x(ms.drop_last());
        if ms.last().x > rest {
            ms.last().x
        } else {
            rest
        }
    }
}

/// The vertical alignment step: carried out in lattice space, as the board
/// builder does it.
pub open spec fn y_shift(c: CellV, miny: int) -> CellV {
    cell_of(LatticeV { x: lat_of(c).x, y: lat_of(c).y + miny })
}

/// A unit template aligned for play: shifted vertically in lattice space by
/// the least member row, then shifted horizontally by half the difference of
/// the side gaps.
pub open spec fn centered_unit(u: UnitV, width: int) -> UnitV {
    let miny = min_member_y(u.members);
    let m1 = u.members.map_values(|c: CellV| y_shift(c, miny));
    let p1 = y_shift(u.pivot, miny);
    let xoff = div2(min_member_x(m1) - (width - 1 - max_member_x(m1)));
    UnitV {
        members: m1.map_values(|c: CellV| CellV { x: c.x - xoff, y: c.y }),
        pivot: CellV { x: p1.x - xoff, y: p1.y },
    }
}

/// One acceptable unit template: within the raw coordinate bounds, and
/// well-formed once centered on the board.
pub open spec fn input_unit_ok(u: UnitV, w: int, h: int) -> bool {
    &&& 1 <= u.members.len() <= MEMBERS_MAX
    &&& forall|j: int|
        0 <= j < u.members.len() ==> {
            let m = #[trigger] u.members[j];
            -INPUT_COORD_MAX <= m.x <= INPUT_COORD_MAX && -INPUT_COORD_MAX <= m.y
                <= INPUT_COORD_MAX
        }
    &&& -INPUT_COORD_MAX <= u.pivot.x <= INPUT_COORD_MAX
    &&& -INPUT_COORD_MAX <= u.pivot.y <= INPUT_COORD_MAX
    &&& unit_wf(centered_unit(u, w), w, h)
}

/// A puzzle definition the board builder accepts: board dimensions in range,
/// at least one template, every template acceptable, every pre-filled cell on
/// the board, and a piece count small enough that no game can overflow the
/// score.
pub open spec fn input_wf(inp: InputV) -> bool {
    &&& 1 <= inp.width <= DIM_MAX
    &&& 1 <= inp.height <= DIM_MAX
    &&& 1 <= inp.units.len()
    &&& 0 <= inp.source_length
    &&& forall|i: int|
        0 <= i < inp.units.len() ==> input_unit_ok(#[trigger] inp.units[i], inp.width, inp.height)
    &&& forall|i: int|
        0 <= i < inp.filled.len() ==> in_board(#[trigger] inp.filled[i], inp.width, inp.height)
    &&& (inp.source_length + 1) * (MEMBERS_MAX + 100 * (1 + inp.height) * inp.height / 2)
        <= i32::MAX
}

/// The queue a game deals: one piece per draw of the seeded generator, each
/// the centered template the draw selects.
pub open spec fn initial_units(inp: InputV, seed: i32) -> Seq<UnitV> {
    Seq::new(
        (inp.source_length + 1) as nat,
        |k: int|
            centered_unit(
                inp.units[(lcg_out(lcg_state(seed as u32, k as nat)) as int) % (
                inp.units.len() as int)],
                inp.width,
            ),
    )
}

/// The starting state of the game a seed names.
pub open spec fn initial_state(inp: InputV, seed: i32) -> StateV {
    StateV {
        seed: seed as int,
        width: inp.width,
        height: inp.height,
        filled: fill_cells(
            Seq::new((inp.width * inp.height) as nat, |i: int| false),
            inp.width,
            inp.filled,
        ),
        visited: Seq::empty(),
        units: initial_units(inp, seed),
        ls_old: 0,
        score: 0,
        game_over: false,
    }
}

/// Every draw of the generator is between 0 and 0x7fff.
pub proof fn lemma_lcg_out_bounds(x: u32)
    ensures
        0 <= lcg_out(x) <= 0x7fff,
{
    assert(((x >> 16u32) & 0x7fffu32) <= 0x7fffu32) by (bit_vector);
}

/// A queue of units, each no larger than `maxl` members, has potential at
/// most one maximal unit's worth per queued piece.
pub proof fn lemma_queue_potential_bound(units: Seq<UnitV>, h: int, maxl: int)
    requires
        1 <= h,
        forall|i: int| 0 <= i < units.len() ==> (#[trigger] units[i]).members.len() <= maxl,
    ensures
        model::queue_potential(units, h) <= units.len() * (maxl + 100 * (1 + h) * h / 2),
    decreases units.len(),
{
    let x = maxl + 100 * (1 + h) * h / 2;
    if units.len() == 0 {
    } else {
        assert(forall|i: int|
            0 <= i < units.drop_first().len() ==> (#[trigger] units.drop_first()[i]).members.len()
                <= maxl);
        lemma_queue_potential_bound(units.drop_first(), h, maxl);
        assert(units.len() * x == x + (units.len() - 1) * x) by (nonlinear_arith);
    }
}

/// Center one unit template for play on a board of the given width.
#[verifier::rlimit(50)]
fn center_unit(u: &Unit, width: i32) -> (r: Unit)
    requires
        1 <= u@.members.len(),
        1 <= width <= DIM_MAX,
        forall|j: int|
            0 <= j < u@.members.len() ==> {
                let m = #[trigger] u@.members[j];
                -INPUT_COORD_MAX <= m.x <= INPUT_COORD_MAX && -INPUT_COORD_MAX <= m.y
                    <= INPUT_COORD_MAX
            },
        -INPUT_COORD_MAX <= u@.pivot.x <= INPUT_COORD_MAX,
        -INPUT_COORD_MAX <= u@.pivot.y <= INPUT_COORD_MAX,
    ensures
        r@ == centered_unit(u@, width as int),
{
    let ghost uv = u@;
    let n = u.members.len();
    proof {
        assert(uv.members[0] == u.members@[0]@);
        assert(uv.members.take(1)[0] == uv.members[0]);
    }
    let mut miny: i32 = u.members[0].y;
    for i in 1..n
        invariant
            n == uv.members.len(),
            miny as int == min_member_y(uv.members.take(i as int)),
            -INPUT_COORD_MAX <= miny <= INPUT_COORD_MAX,
    {
        assert(uv.members[i as int] == u.members@[i as int]@);
        if u.members[i].y < miny {
            miny = u.members[i].y;
        }
        proof {
            assert(uv.members.take(i + 1).drop_last() =~= uv.members.take(i as int));
        }
    }
    proof {
        assert(uv.members.take(n as int) =~= uv.members);
    }
    let ghost minyv = miny as int;

    let yoff = Lattice::new(0, 0 - miny);
    let mut m1: Vec<Cell> = Vec::new();
    for i in 0..n
        invariant
            n == uv.members.len(),
            m1@.len() == i,
            forall|j: int| 0 <= j < i ==> #[trigger] m1@[j]@ == y_shift(uv.members[j], minyv),
            forall|j: int|
                0 <= j < i ==> {
                    let c = #[trigger] m1@[j]@;
                    -60000 <= c.x <= 60000 && -60000 <= c.y <= 60000
                },
    {
        proof {
            assert(uv.members[i as int] == u.members@[i as int]@);
            model::lemma_div2_bounds(uv.members[i as int].y);
            model::lemma_div2_bounds(uv.members[i as int].y + minyv);
        }
        let c = Lattice::of_cell(u.members[i]).minus(yoff).to_cell();
        m1.push(c);
    }
    proof {
        model::lemma_div2_bounds(uv.pivot.y);
        model::lemma_div2_bounds(uv.pivot.y + minyv);
    }
    let p1 = Lattice::of_cell(u.pivot).minus(yoff).to_cell();
    let ghost m1v = m1@.map_values(|c: Cell| c@);
    proof {
        assert(m1v =~= uv.members.map_values(|c: CellV| y_shift(c, minyv)));
    }

    proof {
        assert(m1v[0] == m1@[0]@);
        assert(m1v.take(1)[0] == m1v[0]);
    }
    let mut minx: i32 = m1[0].x;
    let mut maxx: i32 = m1[0].x;
    for i in 1..n
        invariant
            n == m1@.len(),
            minx as int == min_member_x(m1v.take(i as int)),
            maxx as int == max_member_x(m1v.take(i as int)),
            -60000 <= minx <= 60000,
            -60000 <= maxx <= 60000,
            forall|j: int| 0 <= j < n ==> #[trigger] m1v[j] == m1@[j]@,
            forall|j: int|
                0 <= j < n ==> {
                    let c = #[trigger] m1v[j];
                    -60000 <= c.x <= 60000 && -60000 <= c.y <= 60000
                },
    {
        proof {
            assert(m1v[i as int] == m1@[i as int]@);
        }
        if m1[i].x < minx {
            minx = m1[i].x;
        }
        if m1[i].x > maxx {
            maxx = m1[i].x;
        }
        proof {
            assert(m1v.take(i + 1).drop_last() =~= m1v.take(i as int));
        }
    }
    proof {
        assert(m1v.take(n as int) =~= m1v);
    }
    let xoff = crate::simulate::div2_i32(minx - (width - 1 - maxx));
    proof {
        model::lemma_div2_bounds(minx as int - (width as int - 1 - maxx as int));
    }

    let mut m2: Vec<Cell> = Vec::new();
    for i in 0..n
        invariant
            n == m1@.len(),
            m2@.len() == i,
            forall|j: int| 0 <= j < n ==> #[trigger] m1v[j] == m1@[j]@,
            forall|j: int|
                0 <= j < n ==> {
                    let c = #[trigger] m1v[j];
                    -60000 <= c.x <= 60000 && -60000 <= c.y <= 60000
                },
            -200000 <= xoff <= 200000,
            forall|j: int|
                0 <= j < i ==> #[trigger] m2@[j]@ == (CellV {
                    x: m1v[j].x - xoff as int,
                    y: m1v[j].y,
                }),
    {
        proof {
            assert(m1v[i as int] == m1@[i as int]@);
        }
        let c = Cell::new(m1[i].x - xoff, m1[i].y);
        m2.push(c);
    }
    let pivot = Cell::new(p1.x - xoff, p1.y);
    let r = Unit { members: m2, pivot };
    proof {
        assert(r@.members =~= centered_unit(uv, width as int).members);
        assert(r@ =~~= centered_unit(uv, width as int));
    }
    r
}

/// Magnitude of a bounded integer.
fn abs_i32(x: i32) -> (r: i32)
    requires
        x > i32::MIN,
    ensures
        r as int == model::abs_i(x as int),
{
    if x >= 0 {
        x
    } else {
        -x
    }
}

/// Whether a unit is well-formed for play on a board of the given size.
fn unit_wf_check(u: &Unit, width: i32, height: i32) -> (b: bool)
    requires
        1 <= width <= DIM_MAX,
        1 <= height <= DIM_MAX,
    ensures
        b == unit_wf(u@, width as int, height as int),
{
    let ghost uv = u@;
    let ghost w = width as int;
    let ghost h = height as int;
    let n = u.members.len();
    if n == 0 {
        return false;
    }
    for i in 0..n
        invariant
            n == uv.members.len(),
            forall|j: int| 0 <= j < i ==> in_board(#[trigger] uv.members[j], w, h),
    {
        assert(uv.members[i as int] == u.members@[i as int]@);
        let m = u.members[i];
        if m.x < 0 || m.x >= width || m.y < 0 || m.y >= height {
            assert(!in_board(uv.members[i as int], w, h));
            return false;
        }
    }
    if u.pivot.x < -model::PIVOT_MAX || u.pivot.x > model::PIVOT_MAX || u.pivot.y
        < -model::PIVOT_MAX || u.pivot.y > model::PIVOT_MAX {
        return false;
    }
    let debt: i32 = if u.pivot.y >= 0 {
        0
    } else {
        -u.pivot.y
    };
    proof {
        assert(debt as int == model::pivot_debt(uv));
        model::lemma_div2_bounds(uv.pivot.y);
    }
    let piv = Lattice::of_cell(u.pivot);
    for i in 0..n
        invariant
            n == uv.members.len(),
            piv@ == lat_of(uv.pivot),
            debt as int == model::pivot_debt(uv),
            0 <= debt <= model::PIVOT_MAX,
            forall|j: int| 0 <= j < n ==> in_board(#[trigger] uv.members[j], w, h),
            forall|j: int|
                0 <= j < i ==> model::off_ok(
                    #[trigger] model::member_off(uv, j),
                    model::pivot_debt(uv),
                ),
    {
        assert(uv.members[i as int] == u.members@[i as int]@);
        proof {
            model::lemma_div2_bounds(uv.members[i as int].y);
        }
        let off = Lattice::of_cell(u.members[i]).minus(piv);
        let ax = abs_i32(off.x);
        let ay = abs_i32(off.y);
        let axy = abs_i32(off.x + off.y);
        if ax > model::SPAN_MAX - debt || ay > model::SPAN_MAX - debt || axy > model::SPAN_MAX
            - debt {
            assert(!model::off_ok(model::member_off(uv, i as int), model::pivot_debt(uv)));
            return false;
        }
        assert(model::off_ok(model::member_off(uv, i as int), model::pivot_debt(uv)));
    }
    true
}

/// Whether a unit template is acceptable input: raw coordinates in range and
/// well-formed once centered.
fn input_unit_check(u: &Unit, width: i32, height: i32) -> (b: bool)
    requires
        1 <= width <= DIM_MAX,
        1 <= height <= DIM_MAX,
    ensures
        b == input_unit_ok(u@, width as int, height as int),
{
    let ghost uv = u@;
    let n = u.members.len();
    if n == 0 {
        return false;
    }
    if n > MEMBERS_MAX as usize {
        return false;
    }
    for i in 0..n
        invariant
            n == uv.members.len(),
            forall|j: int|
                0 <= j < i ==> {
                    let m = #[trigger] uv.members[j];
                    -INPUT_COORD_MAX <= m.x <= INPUT_COORD_MAX && -INPUT_COORD_MAX <= m.y
                        <= INPUT_COORD_MAX
                },
    {
        assert(uv.members[i as int] == u.members@[i as int]@);
        let m = u.members[i];
        if m.x < -INPUT_COORD_MAX || m.x > INPUT_COORD_MAX || m.y < -INPUT_COORD_MAX || m.y
            > INPUT_COORD_MAX {
            return false;
        }
    }
    if u.pivot.x < -INPUT_COORD_MAX || u.pivot.x > INPUT_COORD_MAX || u.pivot.y < -INPUT_COORD_MAX
        || u.pivot.y > INPUT_COORD_MAX {
        return false;
    }
    let cu = center_unit(u, width);
    unit_wf_check(&cu, width, height)
}

/// Whether a puzzle definition is acceptable to the board builder: this is
/// the exact boundary test an embedder runs before building states.
pub fn check_input(input: &Input) -> (b: bool)
    ensures
        b == input_wf(input@),
{
    let ghost iv = input@;
    if input.width < 1 || input.width > DIM_MAX || input.height < 1 || input.height > DIM_MAX {
        return false;
    }
    if input.units.len() == 0 {
        return false;
    }
    if input.sourceLength < 0 {
        return false;
    }
    let h: i64 = input.height as i64;
    proof {
        assert(0 <= 100 * (1 + h as int) * (h as int) <= 100 * 501 * 500) by (nonlinear_arith)
            requires
                1 <= h as int <= 500,
        ;
    }
    let bonus: i64 = 100 * (1 + h) * h / 2;
    proof {
        assert(0 <= bonus <= 13_000_000_i64);
        assert((input.sourceLength as i64 + 1) * (1000 + bonus) <= 0x7fffffff_i64 * 14_000_000_i64)
            by (nonlinear_arith)
            requires
                0 <= input.sourceLength as i64 <= 0x7fffffff_i64,
                0 <= bonus <= 13_000_000_i64,
        ;
        assert((iv.source_length + 1) * (MEMBERS_MAX + 100 * (1 + iv.height) * iv.height / 2) == (
        input.sourceLength as i64 + 1) * (1000 + bonus));
    }
    if (input.sourceLength as i64 + 1) * (1000 + bonus) > i32::MAX as i64 {
        return false;
    }
    for i in 0..input.filled.len()
        invariant
            forall|j: int| 0 <= j < i ==> in_board(#[trigger] iv.filled[j], iv.width, iv.height),
    {
        assert(iv.filled[i as int] == input.filled@[i as int]@);
        let c = input.filled[i];
        if c.x < 0 || c.x >= input.width || c.y < 0 || c.y >= input.height {
            assert(!in_board(iv.filled[i as int], iv.width, iv.height));
            return false;
        }
    }
    for i in 0..input.units.len()
        invariant
            forall|j: int|
                0 <= j < i ==> input_unit_ok(#[trigger] iv.units[j], iv.width, iv.height),
    {
        assert(iv.units[i as int] == input.units@[i as int]@);
        if !input_unit_check(&input.units[i], input.width, input.height) {
            assert(!input_unit_ok(iv.units[i as int], iv.width, iv.height));
            return false;
        }
    }
    true
}

/// One starting state per seed of the puzzle: the unit queue derived from the
/// seed, the centered templates dealt in that order, and the pre-filled cells
/// marked.
pub fn input_to_states(input: &Input) -> (r: Vec<State>)
    requires
        input_wf(input@),
    ensures
        r@.len() == input@.source_seeds.len(),
        forall|k: int|
            0 <= k < r@.len() ==> (#[trigger] r@[k])@ == initial_state(
                input@,
                input@.source_seeds[k],
            ),
        forall|k: int| 0 <= k < r@.len() ==> model::state_wf(r@[k]@),
{
    let ghost iv = input@;
    let mut good_units: Vec<Unit> = Vec::new();
    for i in 0..input.units.len()
        invariant
            good_units@.len() == i,
            forall|j: int|
                0 <= j < i ==> #[trigger] good_units@[j]@ == centered_unit(iv.units[j], iv.width),
    {
        assert(input_unit_ok(iv.units[i as int], iv.width, iv.height));
        assert(iv.units[i as int] == input.units@[i as int]@);
        good_units.push(center_unit(&input.units[i], input.width));
    }

    let mut out: Vec<State> = Vec::new();
    let nseeds = input.sourceSeeds.len();
    for k in 0..nseeds
        invariant
            nseeds == iv.source_seeds.len(),
            out@.len() == k,
            forall|j: int|
                0 <= j < k ==> (#[trigger] out@[j])@ == initial_state(iv, iv.source_seeds[j]),
            forall|j: int| 0 <= j < k ==> model::state_wf(out@[j]@),
            good_units@.len() == iv.units.len(),
            forall|j: int|
                0 <= j < iv.units.len() ==> #[trigger] good_units@[j]@ == centered_unit(
                    iv.units[j],
                    iv.width,
                ),
    {
        let seed = input.sourceSeeds[k];
        let order = crate::rng::get_source_order(seed, input.sourceLength);
        let ghost s32 = seed as u32;
        let mut seq_units: Vec<Unit> = Vec::new();
        for i in 0..order.len()
            invariant
                order@ == crate::rng::source_order(s32, iv.source_length),
                order@.len() == iv.source_length + 1,
                seq_units@.len() == i,
                forall|j: int|
                    0 <= j < i ==> #[trigger] seq_units@[j]@ == initial_units(iv, seed)[j],
                good_units@.len() == iv.units.len(),
                forall|j: int|
                    0 <= j < iv.units.len() ==> #[trigger] good_units@[j]@ == centered_unit(
                        iv.units[j],
                        iv.width,
                    ),
        {
            proof {
                lemma_lcg_out_bounds(lcg_state(s32, i as nat));
            }
            let d = order[i];
            let idx = (d as usize) % input.units.len();
            seq_units.push(clone_unit(&good_units[idx]));
            proof {
                assert(seq_units@[i as int]@ == initial_units(iv, seed)[i as int]);
            }
        }
        let mut st = State::with_size(input.width, input.height);
        st.seed = seed;
        st.unit_sequence = seq_units;
        let ghost units_v = initial_units(iv, seed);
        let ghost zero = Seq::new((iv.width * iv.height) as nat, |i: int| false);
        proof {
            assert(st@.units =~= units_v);
        }
        for i in 0..input.filled.len()
            invariant
                st@ == (StateV {
                    seed: seed as int,
                    width: iv.width,
                    height: iv.height,
                    filled: fill_cells(zero, iv.width, iv.filled.take(i as int)),
                    visited: Seq::empty(),
                    units: units_v,
                    ls_old: 0,
                    score: 0,
                    game_over: false,
                }),
                st@.filled.len() == iv.width * iv.height,
        {
            assert(iv.filled[i as int] == input.filled@[i as int]@);
            assert(in_board(iv.filled[i as int], iv.width, iv.height));
            st.set_filled(input.filled[i], true);
            proof {
                assert(iv.filled.take(i + 1).drop_last() =~= iv.filled.take(i as int));
                assert(iv.filled.take(i + 1).last() == iv.filled[i as int]);
                assert(st@.filled =~= fill_cells(zero, iv.width, iv.filled.take(i + 1)));
                assert(st@ =~~= (StateV {
                    seed: seed as int,
                    width: iv.width,
                    height: iv.height,
                    filled: fill_cells(zero, iv.width, iv.filled.take(i + 1)),
                    visited: Seq::empty(),
                    units: units_v,
                    ls_old: 0,
                    score: 0,
                    game_over: false,
                }));
                assert forall|j: int|
                    0 <= j < iv.filled.take(i + 1).len() implies 0 <= model::cell_index(
                    iv.width,
                    #[trigger] iv.filled.take(i + 1)[j],
                ) < zero.len() by {
                    assert(iv.filled.take(i + 1)[j] == iv.filled[j]);
                    model::lemma_cell_index_bounds(iv.width, iv.height, iv.filled[j]);
                }
                model::lemma_fill_cells_len(zero, iv.width, iv.filled.take(i + 1));
            }
        }
        proof {
            assert(iv.filled.take(iv.filled.len() as int) =~= iv.filled);
            assert(st@ =~~= initial_state(iv, seed));
            assert forall|j: int| 0 <= j < units_v.len() implies model::unit_wf(
                #[trigger] units_v[j],
                iv.width,
                iv.height,
            ) by {
                let t = (lcg_out(lcg_state(s32, j as nat)) as int) % (iv.units.len() as int);
                lemma_lcg_out_bounds(lcg_state(s32, j as nat));
                assert(0 <= t < iv.units.len());
                assert(input_unit_ok(iv.units[t], iv.width, iv.height));
            }
            assert forall|j: int| 0 <= j < units_v.len() implies (
            #[trigger] units_v[j]).members.len() <= MEMBERS_MAX by {
                let t = (lcg_out(lcg_state(s32, j as nat)) as int) % (iv.units.len() as int);
                lemma_lcg_out_bounds(lcg_state(s32, j as nat));
                assert(0 <= t < iv.units.len());
                assert(input_unit_ok(iv.units[t], iv.width, iv.height));
            }
            lemma_queue_potential_bound(units_v, iv.height, MEMBERS_MAX as int);
            assert(model::state_wf(st@));
        }
        out.push(st);
    }
    out
}

} // verus!
