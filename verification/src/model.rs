//! Mathematical model of the hex board game: ghost mirrors of the executable
//! types together with the specification of every transform the game makes.
//! All arithmetic here is over `int`, so the model itself can never overflow;
//! the executable code is proved equal to this model under the well-formedness
//! bounds below.
use vstd::prelude::*;
use crate::{Clock, Command, Direction};

verus! {

/// Upper bound on a board dimension. A positive lower bound keeps the
/// row-major index arithmetic meaningful (rows of width zero admit no
/// division), and the cap keeps the bitmap index, the line bonus and the
/// score sums comfortably inside `i32` and `usize`.
pub const DIM_MAX: i32 = 500;

/// Upper bound on the magnitude of a raw input coordinate: far beyond any
/// playable template, and small enough that the centering arithmetic stays
/// inside `i32`.
pub const INPUT_COORD_MAX: i32 = 20_000;

/// Budgeted bound on the hex-norm of a pivot-to-member offset (see `off_ok`).
pub const SPAN_MAX: i32 = 1_000_000;

/// Derived bound on the magnitude of a pivot coordinate.
pub const PIVOT_MAX: i32 = 3_000_000;

/// Ghost mirror of a `Cell`: a position in offset hex coordinates.
pub ghost struct CellV {
    pub x: int,
    pub y: int,
}

/// Ghost mirror of a `Lattice`: a vector in the axial basis aligned with the
/// East and South-East directions.
pub ghost struct LatticeV {
    pub x: int,
    pub y: int,
}

/// Ghost mirror of a `Unit`: an ordered list of member cells plus a pivot.
#[verifier::ext_equal]
pub ghost struct UnitV {
    pub members: Seq<CellV>,
    pub pivot: CellV,
}

/// Ghost mirror of a `State`: the full board position.
#[verifier::ext_equal]
pub ghost struct StateV {
    pub seed: int,
    pub width: int,
    pub height: int,
    pub filled: Seq<bool>,
    pub visited: Seq<UnitV>,
    pub units: Seq<UnitV>,
    pub ls_old: int,
    pub score: int,
    pub game_over: bool,
}

/// Ghost mirror of an `Input`: a puzzle definition.
#[verifier::ext_equal]
pub ghost struct InputV {
    pub id: int,
    pub units: Seq<UnitV>,
    pub width: int,
    pub height: int,
    pub filled: Seq<CellV>,
    pub source_length: int,
    pub source_seeds: Seq<i32>,
}

/// Division by two rounding toward zero, as the executable `/ 2` on `i32` does.
pub open spec fn div2(y: int) -> int {
    if y >= 0 {
        y / 2
    } else {
        -((-y) / 2)
    }
}

/// Euclidean parity; matches the low bit of a two's-complement integer.
pub open spec fn odd(y: int) -> bool {
    y % 2 == 1
}

/// Offset coordinates to axial coordinates.
pub open spec fn lat_of(c: CellV) -> LatticeV {
    LatticeV { x: c.x - div2(c.y), y: c.y }
}

/// Axial coordinates back to offset coordinates.
pub open spec fn cell_of(l: LatticeV) -> CellV {
    CellV { x: l.x + div2(l.y), y: l.y }
}

pub open spec fn lat_add(a: LatticeV, b: LatticeV) -> LatticeV {
    LatticeV { x: a.x + b.x, y: a.y + b.y }
}

pub open spec fn lat_sub(a: LatticeV, b: LatticeV) -> LatticeV {
    LatticeV { x: a.x - b.x, y: a.y - b.y }
}

/// One sixth-turn about the origin of the axial lattice.
pub open spec fn lat_rotated(l: LatticeV, c: Clock) -> LatticeV {
    match c {
        Clock::Wise => LatticeV { x: -l.y, y: l.x + l.y },
        Clock::Counter => LatticeV { x: l.y + l.x, y: -l.x },
    }
}

/// One step of a cell in offset coordinates; the x adjustment of a southward
/// step depends on the parity of the starting row.
pub open spec fn cell_moved(c: CellV, d: Direction) -> CellV {
    match d {
        Direction::W => CellV { x: c.x - 1, y: c.y },
        Direction::E => CellV { x: c.x + 1, y: c.y },
        Direction::SE => CellV { x: if odd(c.y) { c.x + 1 } else { c.x }, y: c.y + 1 },
        Direction::SW => CellV { x: if odd(c.y) { c.x } else { c.x - 1 }, y: c.y + 1 },
    }
}

/// A whole unit translated one step.
pub open spec fn unit_moved(u: UnitV, d: Direction) -> UnitV {
    UnitV { members: u.members.map_values(|m: CellV| cell_moved(m, d)), pivot: cell_moved(u.pivot, d) }
}

/// A member cell rotated about the pivot: the offset is taken in lattice
/// space, rotated there, and carried back.
pub open spec fn rotated_about(piv: LatticeV, m: CellV, r: Clock) -> CellV {
    cell_of(lat_add(piv, lat_rotated(lat_sub(lat_of(m), piv), r)))
}

/// A whole unit rotated about its own (pre-transform) pivot.
pub open spec fn unit_rotated(u: UnitV, r: Clock) -> UnitV {
    let piv = lat_of(u.pivot);
    UnitV { members: u.members.map_values(|m: CellV| rotated_about(piv, m, r)), pivot: u.pivot }
}

/// The effect of one command on the active unit.
pub open spec fn unit_applied(u: UnitV, c: Command) -> UnitV {
    match c {
        Command::Move(d) => unit_moved(u, d),
        Command::Rotate(r) => unit_rotated(u, r),
    }
}

/// Two units are the same pose when their pivots agree and their member cells
/// agree as sets; member order is irrelevant.
pub open spec fn pose_eq(a: UnitV, b: UnitV) -> bool {
    a.pivot == b.pivot && a.members.to_set() == b.members.to_set()
}

pub open spec fn visited_has(vs: Seq<UnitV>, u: UnitV) -> bool {
    exists|i: int| 0 <= i < vs.len() && pose_eq(vs[i], u)
}

pub open spec fn in_board(c: CellV, w: int, h: int) -> bool {
    0 <= c.x < w && 0 <= c.y < h
}

/// Index of a cell in the row-major filled bitmap.
pub open spec fn cell_index(w: int, c: CellV) -> int {
    c.x + c.y * w
}

/// Whether a cell is filled; cells outside the board count as empty.
pub open spec fn sv_filled(s: StateV, c: CellV) -> bool {
    in_board(c, s.width, s.height) && s.filled[cell_index(s.width, c)]
}

/// A cell is invalid when it lies off the board or on a filled cell.
pub open spec fn sv_invalid(s: StateV, c: CellV) -> bool {
    !in_board(c, s.width, s.height) || s.filled[cell_index(s.width, c)]
}

pub open spec fn unit_invalid(s: StateV, u: UnitV) -> bool {
    exists|i: int| 0 <= i < u.members.len() && sv_invalid(s, u.members[i])
}

pub open spec fn is_south(c: Command) -> bool {
    c == Command::Move(Direction::SE) || c == Command::Move(Direction::SW)
}

// ---------------------------------------------------------------------------
// Locking and line clearing
// ---------------------------------------------------------------------------

/// The bitmap after marking every cell of `ms` as filled.
pub open spec fn fill_cells(filled: Seq<bool>, w: int, ms: Seq<CellV>) -> Seq<bool>
    decreases ms.len(),
{
    if ms.len() == 0 {
        filled
    } else {
        fill_cells(filled, w, ms.drop_last()).update(cell_index(w, ms.last()), true)
    }
}

pub open spec fn row_full(filled: Seq<bool>, w: int, y: int) -> bool {
    forall|x: int| 0 <= x < w ==> #[trigger] filled[y * w + x]
}

/// The rows of `0 .. h` that are not full, in increasing order.
pub open spec fn kept_rows(filled: Seq<bool>, w: int, h: int) -> Seq<int>
    decreases h,
{
    if h <= 0 {
        Seq::empty()
    } else {
        let rest = kept_rows(filled, w, h - 1);
        if row_full(filled, w, h - 1) {
            rest
        } else {
            rest.push(h - 1)
        }
    }
}

/// How many rows a lock clears.
pub open spec fn clear_count(filled: Seq<bool>, w: int, h: int) -> int {
    h - kept_rows(filled, w, h).len()
}

/// The bitmap after removing every full row: the surviving rows keep their
/// order and settle at the bottom, and the cleared count of empty rows enters
/// at the top.
pub open spec fn cleared_filled(filled: Seq<bool>, w: int, h: int) -> Seq<bool> {
    let kept = kept_rows(filled, w, h);
    let ls = h - kept.len();
    Seq::new((w * h) as nat, |i: int| {
        let y = i / w;
        let x = i % w;
        if y < ls {
            false
        } else {
            filled[kept[y - ls] * w + x]
        }
    })
}

/// The score a lock earns: the size of the locked unit plus the line bonus.
pub open spec fn lock_gain(size: int, ls: int) -> int {
    size + 100 * (1 + ls) * ls / 2
}

/// Locking the active unit: fill its members, clear full rows, pop the queue,
/// add the score, and end the game if the next unit spawns on an invalid cell.
pub open spec fn lock_spec(s: StateV) -> StateV {
    let u = s.units[0];
    let filled1 = fill_cells(s.filled, s.width, u.members);
    let rest = s.units.drop_first();
    let ls = clear_count(filled1, s.width, s.height);
    let filled2 = cleared_filled(filled1, s.width, s.height);
    let mid = StateV {
        filled: filled2,
        visited: Seq::empty(),
        units: rest,
        score: s.score + lock_gain(u.members.len() as int, ls),
        ..s
    };
    StateV { game_over: rest.len() > 0 && unit_invalid(mid, rest[0]), ..mid }
}

// ---------------------------------------------------------------------------
// The transition function
// ---------------------------------------------------------------------------

/// One command applied to a state, exactly as the board state machine plays
/// it: terminal states absorb; an empty queue ends the game with score zero;
/// a repeated pose ends the game with score zero; an invalid candidate pose is
/// reverted and the unit locks instead; a southward move clears the pose
/// history.
pub open spec fn spec_apply(s: StateV, c: Command) -> StateV {
    if s.game_over {
        s
    } else if s.units.len() == 0 {
        StateV { game_over: true, score: 0, ..s }
    } else {
        let u0 = s.units[0];
        let cand = unit_applied(u0, c);
        let vis1 = s.visited.push(u0);
        if visited_has(vis1, cand) {
            StateV { units: s.units.update(0, cand), visited: vis1, game_over: true, score: 0, ..s }
        } else if unit_invalid(s, cand) {
            lock_spec(StateV { visited: vis1, ..s })
        } else {
            StateV {
                units: s.units.update(0, cand),
                visited: if is_south(c) { Seq::empty() } else { vis1 },
                ..s
            }
        }
    }
}

/// A command sequence folded over a state, left to right.
pub open spec fn spec_apply_seq(s: StateV, cs: Seq<Command>) -> StateV
    decreases cs.len(),
{
    if cs.len() == 0 {
        s
    } else {
        spec_apply_seq(spec_apply(s, cs[0]), cs.drop_first())
    }
}

/// The lattice distance metric: when the axial delta's components share a
/// sign the distance is their magnitude sum, otherwise the larger magnitude.
pub open spec fn hex_distance(a: CellV, b: CellV) -> int {
    let dx = lat_of(b).x - lat_of(a).x;
    let dy = lat_of(b).y - lat_of(a).y;
    if (dx > 0) == (dy > 0) {
        abs_i(dx) + abs_i(dy)
    } else if abs_i(dx) >= abs_i(dy) {
        abs_i(dx)
    } else {
        abs_i(dy)
    }
}

/// The distance metric is symmetric: swapping the endpoints negates the
/// axial delta, which changes neither branch's value.
pub proof fn lemma_distance_symmetric(a: CellV, b: CellV)
    ensures
        hex_distance(a, b) == hex_distance(b, a),
{
}

/// Locking a unit that completes `ls` rows at once increases the score by
/// exactly the unit's size plus `100·(1+ls)·ls/2`: the law of the scoring
/// rule, stated of any live state whose next command locks the active unit.
pub proof fn lemma_lock_score(s: StateV, c: Command)
    requires
        !s.game_over,
        s.units.len() > 0,
        !visited_has(s.visited.push(s.units[0]), unit_applied(s.units[0], c)),
        unit_invalid(s, unit_applied(s.units[0], c)),
    ensures
        ({
            let filled1 = fill_cells(s.filled, s.width, s.units[0].members);
            let ls = clear_count(filled1, s.width, s.height);
            spec_apply(s, c).score == s.score + lock_gain(s.units[0].members.len() as int, ls)
        }),
{
}

/// Six successive rotations of a lattice vector in the same sense return it
/// to itself.
pub proof fn lemma_lat_rotate_six(l: LatticeV, r: Clock)
    ensures
        lat_rotated(
            lat_rotated(
                lat_rotated(lat_rotated(lat_rotated(lat_rotated(l, r), r), r), r),
                r,
            ),
            r,
        ) == l,
{
}

/// Six successive rotations of a unit in the same sense return it exactly to
/// its original member list and pivot.
pub proof fn lemma_unit_rotate_six(u: UnitV, r: Clock)
    ensures
        unit_rotated(
            unit_rotated(
                unit_rotated(unit_rotated(unit_rotated(unit_rotated(u, r), r), r), r),
                r,
            ),
            r,
        ) == u,
{
    let piv = lat_of(u.pivot);
    let u6 = unit_rotated(
        unit_rotated(unit_rotated(unit_rotated(unit_rotated(unit_rotated(u, r), r), r), r), r),
        r,
    );
    assert forall|i: int| 0 <= i < u.members.len() implies u6.members[i] == u.members[i] by {
        let m = u.members[i];
        let off = lat_sub(lat_of(m), piv);
        let m1 = rotated_about(piv, m, r);
        lemma_cell_roundtrip(lat_add(piv, lat_rotated(off, r)));
        assert(lat_sub(lat_of(m1), piv) == lat_rotated(off, r));
        let m2 = rotated_about(piv, m1, r);
        lemma_cell_roundtrip(lat_add(piv, lat_rotated(lat_rotated(off, r), r)));
        let m3 = rotated_about(piv, m2, r);
        lemma_cell_roundtrip(lat_add(piv, lat_rotated(lat_rotated(lat_rotated(off, r), r), r)));
        let m4 = rotated_about(piv, m3, r);
        lemma_cell_roundtrip(
            lat_add(piv, lat_rotated(lat_rotated(lat_rotated(lat_rotated(off, r), r), r), r)),
        );
        let m5 = rotated_about(piv, m4, r);
        lemma_cell_roundtrip(
            lat_add(
                piv,
                lat_rotated(lat_rotated(lat_rotated(lat_rotated(lat_rotated(off, r), r), r), r), r),
            ),
        );
        let m6 = rotated_about(piv, m5, r);
        lemma_lat_rotate_six(off, r);
        assert(lat_add(piv, off) == lat_of(m));
        lemma_lat_roundtrip(m);
        assert(m6 == m);
    }
    assert(u6.members =~= u.members);
    assert(u6 =~~= u);
}

/// A westward or eastward command on a live board makes strict progress
/// toward the end of the game: it ends the game outright, locks the active
/// piece and shortens the queue, or slides the whole piece exactly one column
/// sideways. Because a surviving pose keeps every member on the board, only
/// boundedly many sideways slides fit before a lock, and only as many locks
/// as there are queued pieces: pressed against a wall, repeated moves in one
/// horizontal direction must end the game.
pub proof fn lemma_horizontal_progress(s: StateV, d: Direction)
    requires
        !s.game_over,
        s.units.len() > 0,
        d == Direction::W || d == Direction::E,
    ensures
        ({
            let r = spec_apply(s, Command::Move(d));
            let step: int = if d == Direction::W {
                -1
            } else {
                1
            };
            ||| r.game_over
            ||| r.units.len() < s.units.len()
            ||| {
                &&& r.units.len() == s.units.len()
                &&& r.units[0].pivot.x == s.units[0].pivot.x + step
                &&& r.units[0].pivot.y == s.units[0].pivot.y
                &&& r.units[0].members.len() == s.units[0].members.len()
                &&& forall|i: int|
                    0 <= i < r.units[0].members.len() ==> (#[trigger] r.units[0].members[i]).x
                        == s.units[0].members[i].x + step && r.units[0].members[i].y
                        == s.units[0].members[i].y
            }
        }),
{
    let u0 = s.units[0];
    let cand = unit_applied(u0, Command::Move(d));
    if !visited_has(s.visited.push(u0), cand) && !unit_invalid(s, cand) {
        let r = spec_apply(s, Command::Move(d));
        assert(r.units[0] == cand);
        assert(cand == unit_moved(u0, d));
    }
}

/// A southward command on a live board makes strict progress toward the end
/// of the game: it ends the game outright, locks the active piece and
/// shortens the queue, or carries the whole piece one row down. Member rows
/// are pinned to the board, so a sweep of southward moves must end the game.
pub proof fn lemma_south_progress(s: StateV, d: Direction)
    requires
        !s.game_over,
        s.units.len() > 0,
        d == Direction::SE || d == Direction::SW,
    ensures
        ({
            let r = spec_apply(s, Command::Move(d));
            ||| r.game_over
            ||| r.units.len() < s.units.len()
            ||| {
                &&& r.units.len() == s.units.len()
                &&& r.units[0].pivot.y == s.units[0].pivot.y + 1
            }
        }),
{
    let u0 = s.units[0];
    let cand = unit_applied(u0, Command::Move(d));
    if !visited_has(s.visited.push(u0), cand) && !unit_invalid(s, cand) {
        let r = spec_apply(s, Command::Move(d));
        assert(r.units[0] == cand);
        assert(cand == unit_moved(u0, d));
    }
}

/// One command never lowers the score unless it ends the game with the score
/// reset to zero.
pub proof fn lemma_apply_score(s: StateV, c: Command)
    requires
        s.height >= 0,
    ensures
        spec_apply(s, c).score >= s.score || (spec_apply(s, c).score == 0 && spec_apply(
            s,
            c,
        ).game_over),
        spec_apply(s, c).height == s.height,
        s.game_over ==> spec_apply(s, c) == s,
{
    if !s.game_over && s.units.len() > 0 {
        let cand = unit_applied(s.units[0], c);
        if !visited_has(s.visited.push(s.units[0]), cand) && unit_invalid(s, cand) {
            let filled1 = fill_cells(s.filled, s.width, s.units[0].members);
            let ls = clear_count(filled1, s.width, s.height);
            lemma_kept_rows_bounds(filled1, s.width, s.height);
            lemma_bonus_monotone(ls, s.height);
        }
    }
}

/// Over a whole command sequence, the score either never falls below the
/// starting score, or the game has ended with the score reset to zero.
pub proof fn lemma_apply_seq_score(s: StateV, cs: Seq<Command>)
    requires
        s.height >= 0,
    ensures
        spec_apply_seq(s, cs).score >= s.score || (spec_apply_seq(s, cs).score == 0
            && spec_apply_seq(s, cs).game_over),
    decreases cs.len(),
{
    if cs.len() > 0 {
        lemma_apply_score(s, cs[0]);
        let s1 = spec_apply(s, cs[0]);
        lemma_apply_seq_score(s1, cs.drop_first());
        if s1.game_over {
            lemma_apply_seq_absorbs(s1, cs.drop_first());
        }
    }
}

/// A terminal state absorbs every further command.
pub proof fn lemma_apply_seq_absorbs(s: StateV, cs: Seq<Command>)
    requires
        s.game_over,
    ensures
        spec_apply_seq(s, cs) == s,
    decreases cs.len(),
{
    if cs.len() > 0 {
        lemma_apply_seq_absorbs(s, cs.drop_first());
    }
}

/// One command never changes the board size or the seed, and never grows the
/// unit queue.
pub proof fn lemma_apply_frame(s: StateV, c: Command)
    ensures
        spec_apply(s, c).seed == s.seed,
        spec_apply(s, c).width == s.width,
        spec_apply(s, c).height == s.height,
        spec_apply(s, c).units.len() <= s.units.len(),
        spec_apply(s, c).units.len() >= s.units.len() - 1,
{
}

/// Replaying any sequence keeps the board size and the seed, and never grows
/// the unit queue.
pub proof fn lemma_apply_seq_frame(s: StateV, cs: Seq<Command>)
    ensures
        spec_apply_seq(s, cs).seed == s.seed,
        spec_apply_seq(s, cs).width == s.width,
        spec_apply_seq(s, cs).height == s.height,
        spec_apply_seq(s, cs).units.len() <= s.units.len(),
    decreases cs.len(),
{
    if cs.len() > 0 {
        lemma_apply_frame(s, cs[0]);
        lemma_apply_seq_frame(spec_apply(s, cs[0]), cs.drop_first());
    }
}

/// A game that ends without ever locking a piece — the queue is as long as it
/// started, and non-empty — can only have ended by the repeated-pose rule, so
/// its score is zero.
pub proof fn lemma_terminal_same_count(s: StateV, cs: Seq<Command>)
    requires
        !s.game_over,
        s.units.len() >= 1,
        spec_apply_seq(s, cs).game_over,
        spec_apply_seq(s, cs).units.len() == s.units.len(),
    ensures
        spec_apply_seq(s, cs).score == 0,
    decreases cs.len(),
{
    let r = spec_apply_seq(s, cs);
    if cs.len() == 0 {
    } else {
        let s1 = spec_apply(s, cs[0]);
        lemma_apply_seq_frame(s1, cs.drop_first());
        lemma_apply_frame(s, cs[0]);
        if s1.game_over {
            lemma_apply_seq_absorbs(s1, cs.drop_first());
            let cand = unit_applied(s.units[0], cs[0]);
            if s.units.len() == 0 {
            } else if visited_has(s.visited.push(s.units[0]), cand) {
            } else if unit_invalid(s, cand) {
                // A lock pops the queue, so the final count would be short.
                assert(s1.units.len() < s.units.len());
            }
        } else {
            assert(s1.units.len() == s.units.len()) by {
                let cand = unit_applied(s.units[0], cs[0]);
                if !visited_has(s.visited.push(s.units[0]), cand) && unit_invalid(s, cand) {
                    assert(s1.units.len() < s.units.len());
                    assert(r.units.len() <= s1.units.len());
                }
            }
            lemma_terminal_same_count(s1, cs.drop_first());
        }
    }
}

/// Replaying a concatenation replays the parts in turn.
pub proof fn lemma_apply_seq_concat(s: StateV, a: Seq<Command>, b: Seq<Command>)
    ensures
        spec_apply_seq(s, a + b) == spec_apply_seq(spec_apply_seq(s, a), b),
    decreases b.len(),
{
    if b.len() == 0 {
        assert(a + b =~= a);
    } else {
        lemma_apply_seq_concat(s, a, b.drop_last());
        assert((a + b).drop_last() =~= a + b.drop_last());
        lemma_apply_seq_snoc(s, a + b.drop_last(), b.last());
        assert((a + b.drop_last()).push(b.last()) =~= a + b);
        lemma_apply_seq_snoc(spec_apply_seq(s, a), b.drop_last(), b.last());
        assert(b.drop_last().push(b.last()) =~= b);
    }
}

/// A well-formed unit's member cells and pivot are all far inside the safe
/// coordinate range for the transform arithmetic.
pub proof fn lemma_unit_safe(u: UnitV)
    requires
        forall|i: int| 0 <= i < u.members.len() ==> off_ok(#[trigger] member_off(u, i), pivot_debt(u)),
        -PIVOT_MAX <= u.pivot.x <= PIVOT_MAX,
        -PIVOT_MAX <= u.pivot.y <= PIVOT_MAX,
    ensures
        unit_safe(u),
        forall|i: int|
            0 <= i < u.members.len() ==> {
                let m = #[trigger] u.members[i];
                -3 * PIVOT_MAX <= m.x <= 3 * PIVOT_MAX && -3 * PIVOT_MAX <= m.y <= 3 * PIVOT_MAX
            },
{
    lemma_div2_bounds(u.pivot.y as int);
    assert forall|i: int| 0 <= i < u.members.len() implies cell_safe(#[trigger] u.members[i]) && -3
        * PIVOT_MAX <= u.members[i].x <= 3 * PIVOT_MAX && -3 * PIVOT_MAX <= u.members[i].y <= 3
        * PIVOT_MAX by {
        let d = member_off(u, i);
        assert(off_ok(d, pivot_debt(u)));
        assert(u.members[i].y == u.pivot.y + d.y);
        lemma_div2_bounds(u.members[i].y as int);
        assert(lat_of(u.members[i]).x == lat_of(u.pivot).x + d.x);
    }
}

/// Appending one command to a replayed sequence applies it to the result.
pub proof fn lemma_apply_seq_snoc(s: StateV, cs: Seq<Command>, c: Command)
    ensures
        spec_apply_seq(s, cs.push(c)) == spec_apply(spec_apply_seq(s, cs), c),
    decreases cs.len(),
{
    if cs.len() == 0 {
        assert(cs.push(c).drop_first() =~= Seq::<Command>::empty());
        assert(cs.push(c)[0] == c);
        assert(spec_apply_seq(s, cs.push(c)) == spec_apply_seq(
            spec_apply(s, c),
            Seq::<Command>::empty(),
        ));
    } else {
        assert(cs.push(c)[0] == cs[0]);
        assert(cs.push(c).drop_first() =~= cs.drop_first().push(c));
        lemma_apply_seq_snoc(spec_apply(s, cs[0]), cs.drop_first(), c);
        assert(spec_apply_seq(s, cs.push(c)) == spec_apply_seq(
            spec_apply(s, cs[0]),
            cs.drop_first().push(c),
        ));
        assert(spec_apply_seq(s, cs) == spec_apply_seq(spec_apply(s, cs[0]), cs.drop_first()));
    }
}

// ---------------------------------------------------------------------------
// Well-formedness
// ---------------------------------------------------------------------------

/// The coordinate budget of a unit: how much slack remains for the offset
/// drift that southward moves cause while the pivot row is still negative.
pub open spec fn pivot_debt(u: UnitV) -> int {
    if u.pivot.y >= 0 {
        0
    } else {
        -u.pivot.y
    }
}

/// The pivot-to-member offset of one member, in lattice space.
pub open spec fn member_off(u: UnitV, i: int) -> LatticeV {
    lat_sub(lat_of(u.members[i]), lat_of(u.pivot))
}

pub open spec fn abs_i(x: int) -> int {
    if x >= 0 {
        x
    } else {
        -x
    }
}

/// Hex-norm bound on an offset, with the drift budget added: the three
/// magnitudes |x|, |y| and |x+y| are what a sixth-turn permutes among, and a
/// southward move can grow them only while the pivot row is negative, paying
/// one unit of the debt.
pub open spec fn off_ok(d: LatticeV, debt: int) -> bool {
    &&& 0 <= debt
    &&& abs_i(d.x) + debt <= SPAN_MAX
    &&& abs_i(d.y) + debt <= SPAN_MAX
    &&& abs_i(d.x + d.y) + debt <= SPAN_MAX
}

/// A unit that may legally sit in a live state: at least one member, every
/// member on the board, every offset within the budgeted hex-norm bound, and
/// the pivot within its derived coordinate bound.
pub open spec fn unit_wf(u: UnitV, w: int, h: int) -> bool {
    &&& u.members.len() >= 1
    &&& forall|i: int| 0 <= i < u.members.len() ==> in_board(#[trigger] u.members[i], w, h)
    &&& forall|i: int| 0 <= i < u.members.len() ==> off_ok(#[trigger] member_off(u, i), pivot_debt(u))
    &&& -PIVOT_MAX <= u.pivot.x <= PIVOT_MAX
    &&& -PIVOT_MAX <= u.pivot.y <= PIVOT_MAX
}

/// The greatest total score the remaining queue could still add: each lock
/// adds at most the unit's size plus the largest possible line bonus.
pub open spec fn queue_potential(units: Seq<UnitV>, h: int) -> int
    decreases units.len(),
{
    if units.len() == 0 {
        0
    } else {
        units[0].members.len() + 100 * (1 + h) * h / 2 + queue_potential(units.drop_first(), h)
    }
}

pub proof fn lemma_neg_mod2(y: int)
    ensures
        ((-y) % 2 == 1) == (y % 2 == 1),
{
    assert(((-y) % 2 == 1) == (y % 2 == 1)) by (nonlinear_arith);
}

/// How many entries of a boolean sequence are still false.
pub open spec fn count_false(s: Seq<bool>) -> int
    decreases s.len(),
{
    if s.len() == 0 {
        0
    } else {
        count_false(s.drop_last()) + if s.last() {
            0int
        } else {
            1int
        }
    }
}

/// Setting a false entry to true lowers the false count by exactly one.
pub proof fn lemma_count_false_set(s: Seq<bool>, i: int)
    requires
        0 <= i < s.len(),
        !s[i],
    ensures
        count_false(s) >= 1,
        count_false(s.update(i, true)) == count_false(s) - 1,
    decreases s.len(),
{
    lemma_count_false_nonneg(s.drop_last());
    if i == s.len() - 1 {
        assert(s.update(i, true).drop_last() =~= s.drop_last());
    } else {
        lemma_count_false_set(s.drop_last(), i);
        assert(s.update(i, true).drop_last() =~= s.drop_last().update(i, true));
        assert(s.update(i, true).last() == s.last());
    }
}

pub proof fn lemma_count_false_nonneg(s: Seq<bool>)
    ensures
        count_false(s) >= 0,
    decreases s.len(),
{
    if s.len() > 0 {
        lemma_count_false_nonneg(s.drop_last());
    }
}

/// An all-false sequence has as many false entries as its length.
pub proof fn lemma_count_false_all(s: Seq<bool>)
    requires
        forall|j: int| 0 <= j < s.len() ==> !s[j],
    ensures
        count_false(s) == s.len(),
    decreases s.len(),
{
    if s.len() > 0 {
        assert(forall|j: int| 0 <= j < s.drop_last().len() ==> !s.drop_last()[j]);
        lemma_count_false_all(s.drop_last());
    }
}

/// The board dimensions are in range and the bitmap has one entry per cell.
pub open spec fn dims_ok(s: StateV) -> bool {
    &&& 1 <= s.width <= DIM_MAX
    &&& 1 <= s.height <= DIM_MAX
    &&& s.filled.len() == s.width * s.height
}

pub proof fn lemma_cell_index_bounds(w: int, h: int, c: CellV)
    requires
        1 <= w <= DIM_MAX,
        1 <= h <= DIM_MAX,
        in_board(c, w, h),
    ensures
        0 <= cell_index(w, c) < w * h,
        0 <= c.y * w <= (DIM_MAX - 1) * DIM_MAX,
        w * h <= DIM_MAX * DIM_MAX,
{
    assert(c.x + c.y * w < w * h && 0 <= c.y * w <= (DIM_MAX - 1) * DIM_MAX && w * h
        <= DIM_MAX * DIM_MAX) by (nonlinear_arith)
        requires
            0 <= c.x < w,
            0 <= c.y < h,
            1 <= w <= DIM_MAX,
            1 <= h <= DIM_MAX,
    ;
    assert(c.x + c.y * w >= 0) by (nonlinear_arith)
        requires
            0 <= c.x,
            0 <= c.y,
            1 <= w,
    ;
}

/// Coordinate bound under which the unit-transform arithmetic stays well
/// inside `i32`.
pub const COORD_SAFE: i32 = 50_000_000;

pub open spec fn cell_safe(c: CellV) -> bool {
    &&& -COORD_SAFE <= c.x <= COORD_SAFE
    &&& -COORD_SAFE <= c.y <= COORD_SAFE
}

pub open spec fn unit_safe(u: UnitV) -> bool {
    &&& forall|i: int| 0 <= i < u.members.len() ==> cell_safe(#[trigger] u.members[i])
    &&& cell_safe(u.pivot)
}

pub proof fn lemma_div2_bounds(y: int)
    ensures
        y >= 0 ==> 0 <= div2(y) && 2 * div2(y) <= y && y <= 2 * div2(y) + 1,
        y < 0 ==> div2(y) <= 0 && y <= 2 * div2(y) && 2 * div2(y) - 1 <= y,
{
}

/// Round trips between offset and axial coordinates.
pub proof fn lemma_lat_roundtrip(c: CellV)
    ensures
        cell_of(lat_of(c)) == c,
{
}

pub proof fn lemma_cell_roundtrip(l: LatticeV)
    ensures
        lat_of(cell_of(l)) == l,
{
}

/// How one offset-coordinate step reads in axial coordinates. Westward and
/// eastward steps are exact translations; southward steps are exact on
/// non-negative rows and drift by at most one column below row zero.
pub proof fn lemma_moved_lat(c: CellV, d: Direction)
    ensures
        d == Direction::W ==> lat_of(cell_moved(c, d)) == lat_add(lat_of(c), LatticeV { x: -1, y: 0 }),
        d == Direction::E ==> lat_of(cell_moved(c, d)) == lat_add(lat_of(c), LatticeV { x: 1, y: 0 }),
        d == Direction::SE && c.y >= 0 ==> lat_of(cell_moved(c, d)) == lat_add(
            lat_of(c),
            LatticeV { x: 0, y: 1 },
        ),
        d == Direction::SW && c.y >= 0 ==> lat_of(cell_moved(c, d)) == lat_add(
            lat_of(c),
            LatticeV { x: -1, y: 1 },
        ),
        d == Direction::SE ==> lat_of(cell_moved(c, d)).y == c.y + 1 && abs_i(
            lat_of(cell_moved(c, d)).x - lat_of(c).x,
        ) <= 1,
        d == Direction::SW ==> lat_of(cell_moved(c, d)).y == c.y + 1 && abs_i(
            lat_of(cell_moved(c, d)).x - lat_of(c).x + 1,
        ) <= 1,
{
    let y = c.y;
    assert(y >= 0 ==> div2(y + 1) == div2(y) + (if odd(y) {
        1int
    } else {
        0int
    }));
    assert(y < 0 ==> div2(y) - 1 <= div2(y + 1) <= div2(y) + 1);
}

/// The budgeted hex-norm bound is closed under rotation: a sixth-turn only
/// permutes (and possibly negates) the three magnitudes.
pub proof fn lemma_off_rotated(d: LatticeV, debt: int, r: Clock)
    requires
        off_ok(d, debt),
    ensures
        off_ok(lat_rotated(d, r), debt),
{
}

/// The pivot bounds of `unit_wf` follow from the member bounds and the offset
/// bounds, with room to spare.
pub proof fn lemma_pivot_bounds(u: UnitV, w: int, h: int)
    requires
        u.members.len() >= 1,
        1 <= w <= DIM_MAX,
        1 <= h <= DIM_MAX,
        forall|i: int| 0 <= i < u.members.len() ==> in_board(#[trigger] u.members[i], w, h),
        forall|i: int| 0 <= i < u.members.len() ==> off_ok(#[trigger] member_off(u, i), pivot_debt(u)),
    ensures
        -PIVOT_MAX <= u.pivot.x <= PIVOT_MAX,
        -PIVOT_MAX <= u.pivot.y <= PIVOT_MAX,
{
    let m = u.members[0];
    let d = member_off(u, 0);
    assert(off_ok(d, pivot_debt(u)));
    assert(d.y == m.y - u.pivot.y);
    lemma_div2_bounds(m.y as int);
    lemma_div2_bounds(u.pivot.y as int);
    assert(lat_of(u.pivot).x == lat_of(m).x - d.x);
}

/// The line bonus grows with the number of cleared rows and is never
/// negative.
pub proof fn lemma_bonus_monotone(ls: int, h: int)
    requires
        0 <= ls <= h,
    ensures
        0 <= 100 * (1 + ls) * ls / 2 <= 100 * (1 + h) * h / 2,
        100 * (1 + ls) * ls / 2 == 50 * (1 + ls) * ls,
        100 * (1 + h) * h / 2 == 50 * (1 + h) * h,
        0 <= 100 * (1 + ls) * ls,
{
    assert(0 <= 100 * (1 + ls) * ls) by (nonlinear_arith)
        requires
            0 <= ls,
    ;
    assert(100 * (1 + ls) * ls == 2 * (50 * (1 + ls) * ls)) by (nonlinear_arith);
    assert(100 * (1 + h) * h == 2 * (50 * (1 + h) * h)) by (nonlinear_arith);
    assert(2 * (50 * (1 + ls) * ls) / 2 == 50 * (1 + ls) * ls);
    assert(2 * (50 * (1 + h) * h) / 2 == 50 * (1 + h) * h);
    assert(0 <= 50 * (1 + ls) * ls <= 50 * (1 + h) * h) by (nonlinear_arith)
        requires
            0 <= ls <= h,
    ;
}

/// The queue potential is never negative, and drops by exactly the head
/// unit's own potential when the head is popped.
pub proof fn lemma_queue_potential_nonneg(units: Seq<UnitV>, h: int)
    requires
        1 <= h,
    ensures
        queue_potential(units, h) >= 0,
        units.len() >= 1 ==> queue_potential(units, h) >= units[0].members.len() + 100 * (1 + h) * h
            / 2,
    decreases units.len(),
{
    lemma_bonus_monotone(h, h);
    if units.len() > 0 {
        lemma_queue_potential_nonneg(units.drop_first(), h);
    }
}

/// The queue potential depends only on the member counts, so replacing the
/// active unit by a transformed pose of the same size keeps it unchanged.
pub proof fn lemma_potential_update_head(units: Seq<UnitV>, cand: UnitV, h: int)
    requires
        units.len() >= 1,
        cand.members.len() == units[0].members.len(),
    ensures
        queue_potential(units.update(0, cand), h) == queue_potential(units, h),
{
    assert(units.update(0, cand).drop_first() =~= units.drop_first());
}

/// A transformed unit has as many members as the original.
pub proof fn lemma_unit_applied_len(u: UnitV, c: Command)
    ensures
        unit_applied(u, c).members.len() == u.members.len(),
        unit_applied(u, c).pivot.y == match c {
            Command::Move(d) => cell_moved(u.pivot, d).y,
            Command::Rotate(_) => u.pivot.y,
        },
{
}

/// A one-step move keeps a well-formed unit well-formed, provided the moved
/// members still sit on the board: the offsets translate exactly (westward
/// and eastward) or drift by at most the debt the move pays off (southward).
pub proof fn lemma_unit_wf_moved(u: UnitV, d: Direction, w: int, h: int)
    requires
        unit_wf(u, w, h),
        1 <= w <= DIM_MAX,
        1 <= h <= DIM_MAX,
        forall|i: int|
            0 <= i < unit_moved(u, d).members.len() ==> in_board(
                #[trigger] unit_moved(u, d).members[i],
                w,
                h,
            ),
    ensures
        unit_wf(unit_moved(u, d), w, h),
{
    let u2 = unit_moved(u, d);
    assert(u2.members.len() == u.members.len());
    lemma_moved_lat(u.pivot, d);
    assert forall|i: int| 0 <= i < u2.members.len() implies off_ok(
        #[trigger] member_off(u2, i),
        pivot_debt(u2),
    ) by {
        assert(off_ok(member_off(u, i), pivot_debt(u)));
        assert(u2.members[i] == cell_moved(u.members[i], d));
        assert(in_board(u.members[i], w, h));
        lemma_moved_lat(u.members[i], d);
    }
    lemma_pivot_bounds(u2, w, h);
}

/// A rotation keeps a well-formed unit well-formed, provided the rotated
/// members still sit on the board: each offset is rotated in lattice space,
/// which only permutes the bounded magnitudes, and the pivot stays put.
pub proof fn lemma_unit_wf_rotated(u: UnitV, r: Clock, w: int, h: int)
    requires
        unit_wf(u, w, h),
        1 <= w <= DIM_MAX,
        1 <= h <= DIM_MAX,
        forall|i: int|
            0 <= i < unit_rotated(u, r).members.len() ==> in_board(
                #[trigger] unit_rotated(u, r).members[i],
                w,
                h,
            ),
    ensures
        unit_wf(unit_rotated(u, r), w, h),
{
    let u2 = unit_rotated(u, r);
    let piv = lat_of(u.pivot);
    assert(u2.members.len() == u.members.len());
    assert forall|i: int| 0 <= i < u2.members.len() implies off_ok(
        #[trigger] member_off(u2, i),
        pivot_debt(u2),
    ) by {
        assert(off_ok(member_off(u, i), pivot_debt(u)));
        assert(u2.members[i] == rotated_about(piv, u.members[i], r));
        lemma_cell_roundtrip(lat_add(piv, lat_rotated(lat_sub(lat_of(u.members[i]), piv), r)));
        assert(lat_of(u2.members[i]) == lat_add(piv, lat_rotated(member_off(u, i), r)));
        lemma_off_rotated(member_off(u, i), pivot_debt(u), r);
        assert(member_off(u2, i) == lat_rotated(member_off(u, i), r));
    }
    lemma_pivot_bounds(u2, w, h);
}

/// Filling cells never changes the bitmap's length, provided each cell's
/// index is in range.
pub proof fn lemma_fill_cells_len(filled: Seq<bool>, w: int, ms: Seq<CellV>)
    requires
        forall|i: int| 0 <= i < ms.len() ==> 0 <= cell_index(w, #[trigger] ms[i]) < filled.len(),
    ensures
        fill_cells(filled, w, ms).len() == filled.len(),
    decreases ms.len(),
{
    if ms.len() > 0 {
        assert(forall|i: int|
            0 <= i < ms.drop_last().len() ==> 0 <= cell_index(w, #[trigger] ms.drop_last()[i])
                < filled.len());
        lemma_fill_cells_len(filled, w, ms.drop_last());
        assert(0 <= cell_index(w, ms.last()) < filled.len());
        assert(fill_cells(filled, w, ms) == fill_cells(filled, w, ms.drop_last()).update(
            cell_index(w, ms.last()),
            true,
        ));
    }
}

/// A rotation keeps every pivot-to-member offset within the budgeted bound
/// and leaves the pivot in place, wherever the members land.
pub proof fn lemma_rotated_offs(u: UnitV, r: Clock)
    requires
        forall|i: int| 0 <= i < u.members.len() ==> off_ok(#[trigger] member_off(u, i), pivot_debt(u)),
    ensures
        unit_rotated(u, r).pivot == u.pivot,
        unit_rotated(u, r).members.len() == u.members.len(),
        forall|i: int|
            0 <= i < u.members.len() ==> off_ok(
                #[trigger] member_off(unit_rotated(u, r), i),
                pivot_debt(unit_rotated(u, r)),
            ),
{
    let u2 = unit_rotated(u, r);
    let piv = lat_of(u.pivot);
    assert forall|i: int| 0 <= i < u.members.len() implies off_ok(
        #[trigger] member_off(u2, i),
        pivot_debt(u2),
    ) by {
        assert(off_ok(member_off(u, i), pivot_debt(u)));
        assert(u2.members[i] == rotated_about(piv, u.members[i], r));
        lemma_cell_roundtrip(lat_add(piv, lat_rotated(lat_sub(lat_of(u.members[i]), piv), r)));
        assert(member_off(u2, i) == lat_rotated(member_off(u, i), r));
        lemma_off_rotated(member_off(u, i), pivot_debt(u), r);
    }
}

/// Every row index the clearing keeps lies on the board, and no more rows are
/// kept than exist.
pub proof fn lemma_kept_rows_bounds(filled: Seq<bool>, w: int, h: int)
    ensures
        kept_rows(filled, w, h).len() <= h || h < 0,
        forall|k: int|
            0 <= k < kept_rows(filled, w, h).len() ==> 0 <= #[trigger] kept_rows(filled, w, h)[k]
                < h,
    decreases h,
{
    if h > 0 {
        lemma_kept_rows_bounds(filled, w, h - 1);
    }
}

/// Well-formedness of a state. Once the game is over no further mutation
/// occurs, so the unit bounds are only needed while the game is live.
pub open spec fn state_wf(s: StateV) -> bool {
    &&& 1 <= s.width <= DIM_MAX
    &&& 1 <= s.height <= DIM_MAX
    &&& s.filled.len() == s.width * s.height
    &&& 0 <= s.score
    &&& !s.game_over ==> s.score + queue_potential(s.units, s.height) <= i32::MAX
    &&& !s.game_over ==> forall|i: int|
        0 <= i < s.units.len() ==> unit_wf(#[trigger] s.units[i], s.width, s.height)
    &&& !s.game_over ==> forall|i: int|
        0 <= i < s.visited.len() ==> unit_wf(#[trigger] s.visited[i], s.width, s.height)
}

} // verus!

