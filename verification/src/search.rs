//! Target-directed path search: the lattice distance metric, the heuristic
//! ranking of candidate moves, the backtracking search from the current pose
//! to a target resting pose, and the enumerator of legal resting positions.
use vstd::prelude::*;

use crate::codec::{decode_str, valid_cmd_str};
use crate::model::{self, hex_distance, pose_eq, CellV, StateV, UnitV};
use crate::options::SolverOptions;
use crate::simulate::{clone_unit, Lattice};
use crate::{Cell, Command, State, Unit};

verus! {

/// Bound on coordinates the distance metric accepts.
pub const DIST_MAX: i32 = 10_000_000;

pub open spec fn cell_in_range(c: CellV) -> bool {
    &&& -DIST_MAX <= c.x <= DIST_MAX
    &&& -DIST_MAX <= c.y <= DIST_MAX
}

/// Taxicab-like distance on the hex lattice: the axial delta's magnitude sum
/// when its components share a sign, the larger magnitude otherwise.
pub fn distance(a: Cell, b: Cell) -> (d: i32)
    requires
        cell_in_range(a@),
        cell_in_range(b@),
    ensures
        d as int == hex_distance(a@, b@),
        0 <= d <= 4 * DIST_MAX,
{
    proof {
        model::lemma_div2_bounds(a@.y);
        model::lemma_div2_bounds(b@.y);
    }
    let va = Lattice::of_cell(a);
    let vb = Lattice::of_cell(b);
    let v = vb.minus(va);
    if (v.x > 0) == (v.y > 0) {
        let ax = if v.x >= 0 {
            v.x
        } else {
            -v.x
        };
        let ay = if v.y >= 0 {
            v.y
        } else {
            -v.y
        };
        ax + ay
    } else {
        let ax = if v.x >= 0 {
            v.x
        } else {
            -v.x
        };
        let ay = if v.y >= 0 {
            v.y
        } else {
            -v.y
        };
        if ax >= ay {
            ax
        } else {
            ay
        }
    }
}

/// How much a candidate move string improves the lattice distance from the
/// active pivot to the goal pivot: the distance gained, or the minimum score
/// when replaying it ends the game or locks the piece.
pub open spec fn move_score(s: StateV, goal: UnitV, cs: Seq<Command>) -> int {
    let s1 = model::spec_apply_seq(s, cs);
    if s1.game_over || s1.units.len() != s.units.len() {
        i32::MIN as int
    } else {
        hex_distance(s.units[0].pivot, goal.pivot) - hex_distance(s1.units[0].pivot, goal.pivot)
    }
}

/// A goal pose the search can aim at: pivot within the distance range.
pub open spec fn goal_ok(g: UnitV) -> bool {
    cell_in_range(g.pivot)
}

/// A live search state: well-formed, not over, with an active piece.
pub open spec fn live(s: StateV) -> bool {
    &&& model::state_wf(s)
    &&& !s.game_over
    &&& s.units.len() > 0
}

/// Return how much closer the move string gets the active piece to the goal.
fn get_score(s: &State, goal: &Unit, move_string: &str) -> (r: i32)
    requires
        live(s@),
        goal_ok(goal@),
        valid_cmd_str(move_string@),
    ensures
        r as int == move_score(s@, goal@, decode_str(move_string@)),
{
    let cmds = crate::codec::string_to_commands(move_string);
    let s1 = s.apply_sequence(cmds.as_slice());
    if s1.game_over || s1.unit_sequence.len() != s.unit_sequence.len() {
        return i32::MIN;
    }
    proof {
        assert(model::unit_wf(s@.units[0], s@.width, s@.height));
        assert(model::unit_wf(s1@.units[0], s1@.width, s1@.height));
    }
    let start_dist = distance(s.unit_sequence[0].pivot, goal.pivot);
    let end_dist = distance(s1.unit_sequence[0].pivot, goal.pivot);
    proof {
        assert(s@.units[0].pivot == s.unit_sequence@[0]@.pivot);
        assert(s1@.units[0].pivot == s1.unit_sequence@[0]@.pivot);
    }
    start_dist - end_dist
}

/// What the ranking guarantees of every move string it recommends: it decodes
/// to at least one command, and replaying it keeps the game alive, keeps the
/// piece count, and loses at most one step of distance toward the goal.
pub open spec fn ranked_ok(s: StateV, goal: UnitV, m: Seq<char>) -> bool {
    &&& valid_cmd_str(m)
    &&& 1 <= decode_str(m).len()
    &&& m.len() <= crate::options::PHRASE_LEN_MAX
    &&& move_score(s, goal, decode_str(m)) >= -1
    &&& !model::spec_apply_seq(s, decode_str(m)).game_over
    &&& model::spec_apply_seq(s, decode_str(m)).units.len() == s.units.len()
}

/// The six elementary move strings the search always considers.
fn basic_moves() -> (r: Vec<String>)
    ensures
        r@.len() == 6,
        forall|i: int|
            0 <= i < 6 ==> valid_cmd_str(#[trigger] r@[i]@) && decode_str(r@[i]@).len() == 1
                && r@[i]@.len() == 1,
{
    proof {
        reveal_strlit("p");
        reveal_strlit("b");
        reveal_strlit("a");
        reveal_strlit("l");
        reveal_strlit("d");
        reveal_strlit("k");
    }
    let mut r: Vec<String> = Vec::new();
    r.push(String::from_str("p"));
    r.push(String::from_str("b"));
    r.push(String::from_str("a"));
    r.push(String::from_str("l"));
    r.push(String::from_str("d"));
    r.push(String::from_str("k"));
    proof {
        crate::codec::lemma_decode_single(r@[0]@);
        crate::codec::lemma_decode_single(r@[1]@);
        crate::codec::lemma_decode_single(r@[2]@);
        crate::codec::lemma_decode_single(r@[3]@);
        crate::codec::lemma_decode_single(r@[4]@);
        crate::codec::lemma_decode_single(r@[5]@);
    }
    r
}

/// Rank a batch of candidate move strings against a goal: score each, keep
/// the stable descending order by score, and drop all that lose more than one
/// step of distance.
fn rank_batch(s: &State, goal: &Unit, cands: &Vec<String>, out: &mut Vec<String>)
    requires
        live(s@),
        goal_ok(goal@),
        forall|i: int|
            0 <= i < cands@.len() ==> valid_cmd_str(#[trigger] cands@[i]@) && 1 <= decode_str(
                cands@[i]@,
            ).len() && cands@[i]@.len() <= crate::options::PHRASE_LEN_MAX,
        forall|i: int| 0 <= i < old(out)@.len() ==> ranked_ok(s@, goal@, #[trigger] old(out)@[i]@),
    ensures
        old(out)@.len() <= final(out)@.len() <= old(out)@.len() + cands@.len(),
        forall|i: int| 0 <= i < final(out)@.len() ==> ranked_ok(s@, goal@, #[trigger] final(out)@[i]@),
{
    // Score every candidate once; the scoring is deterministic.
    let mut scored: Vec<(i32, String)> = Vec::new();
    for i in 0..cands.len()
        invariant
            scored@.len() == i,
            forall|j: int|
                0 <= j < i ==> {
                    let p = #[trigger] scored@[j];
                    valid_cmd_str(p.1@) && 1 <= decode_str(p.1@).len() && p.1@.len()
                        <= crate::options::PHRASE_LEN_MAX && p.0 as int == move_score(
                        s@,
                        goal@,
                        decode_str(p.1@),
                    )
                },
    {
        let sc = get_score(s, goal, cands[i].as_str());
        let item = (sc, cands[i].clone());
        proof {
            assert(item.1@ == cands@[i as int]@);
        }
        scored.push(item);
    }
    // Stable selection of the best remaining candidate, repeatedly.
    let mut rest = scored;
    while rest.len() > 0
        invariant
            forall|j: int|
                0 <= j < rest@.len() ==> {
                    let p = #[trigger] rest@[j];
                    valid_cmd_str(p.1@) && 1 <= decode_str(p.1@).len() && p.1@.len()
                        <= crate::options::PHRASE_LEN_MAX && p.0 as int == move_score(
                        s@,
                        goal@,
                        decode_str(p.1@),
                    )
                },
            forall|i: int| 0 <= i < out@.len() ==> ranked_ok(s@, goal@, #[trigger] out@[i]@),
            old(out)@.len() <= out@.len(),
            out@.len() + rest@.len() <= old(out)@.len() + cands@.len(),
        decreases rest@.len(),
    {
        let mut best: usize = 0;
        let n = rest.len();
        for j in 1..n
            invariant
                n == rest@.len(),
                best < n,
                forall|k: int| 0 <= k < j ==> rest@[k].0 <= rest@[best as int].0,
        {
            if rest[j].0 > rest[best].0 {
                best = j;
            }
        }
        let (sc, m) = rest.remove(best);
        if sc >= -1 {
            proof {
                assert(move_score(s@, goal@, decode_str(m@)) >= -1);
                assert(i32::MIN < -1);
                assert(ranked_ok(s@, goal@, m@));
            }
            out.push(m);
        }
    }
}

/// The concatenation of a stack of command strings.
pub open spec fn concat_views(ss: Seq<String>) -> Seq<char>
    decreases ss.len(),
{
    if ss.len() == 0 {
        Seq::empty()
    } else {
        concat_views(ss.drop_last()) + ss.last()@
    }
}

/// Join a stack of command strings into one.
fn join_strings(v: &Vec<String>) -> (r: String)
    ensures
        r@ == concat_views(v@),
{
    let mut r = String::new();
    for i in 0..v.len()
        invariant
            r@ == concat_views(v@.take(i as int)),
    {
        r.append(v[i].as_str());
        proof {
            assert(v@.take(i + 1).drop_last() =~= v@.take(i as int));
            assert(v@.take(i + 1).last() == v@[i as int]);
        }
    }
    proof {
        assert(v@.take(v@.len() as int) =~= v@);
    }
    r
}

/// Order every candidate move — bonus phrases first, then the elementary
/// moves — by how much it brings the active piece toward the goal, keeping
/// only those that lose at most one step; `None` when none qualifies.
fn get_move_ranking_dfs(s: &State, goal: &Unit, pop: &Vec<String>, moves: &Vec<String>) -> (r:
    Option<Vec<String>>)
    requires
        live(s@),
        goal_ok(goal@),
        forall|i: int|
            0 <= i < pop@.len() ==> crate::options::phrase_ok(#[trigger] pop@[i]@) && 1
                <= decode_str(pop@[i]@).len(),
        forall|i: int|
            0 <= i < moves@.len() ==> valid_cmd_str(#[trigger] moves@[i]@) && decode_str(
                moves@[i]@,
            ).len() == 1 && moves@[i]@.len() == 1,
    ensures
        match r {
            Some(v) => v@.len() > 0 && v@.len() <= pop@.len() + moves@.len() && forall|i: int|
                0 <= i < v@.len() ==> ranked_ok(s@, goal@, #[trigger] v@[i]@),
            None => true,
        },
{
    let mut recommended: Vec<String> = Vec::new();
    rank_batch(s, goal, pop, &mut recommended);
    rank_batch(s, goal, moves, &mut recommended);
    if recommended.len() > 0 {
        Some(recommended)
    } else {
        None
    }
}

/// Whether a cell has a filled neighbor immediately below it, in the
/// adjacency pattern its row parity determines.
pub open spec fn has_lower_neighbor(s: StateV, c: CellV) -> bool {
    ||| model::sv_filled(s, CellV { x: c.x, y: c.y + 1 })
    ||| if !model::odd(c.y) {
        model::sv_filled(s, CellV { x: c.x - 1, y: c.y + 1 })
    } else {
        model::sv_filled(s, CellV { x: c.x + 1, y: c.y + 1 })
    }
}

/// A placement is supported when some member sits on the bottom row or has a
/// filled neighbor immediately below it.
pub open spec fn supported(s: StateV, u: UnitV) -> bool {
    exists|i: int|
        0 <= i < u.members.len() && ((#[trigger] u.members[i]).y == s.height - 1
            || has_lower_neighbor(s, u.members[i]))
}

/// What the enumerator promises of every placement it returns: legal on the
/// board, supported, the same size as the active piece, and with a pivot the
/// distance metric accepts as a goal.
pub open spec fn resting_ok(s: StateV, u: UnitV) -> bool {
    &&& !model::unit_invalid(s, u)
    &&& supported(s, u)
    &&& u.members.len() == s.units[0].members.len()
    &&& cell_in_range(u.pivot)
}

/// The sum of the member rows: placements are ordered by this sum, which for
/// placements of equal size orders them by descending average row.
pub open spec fn row_sum(ms: Seq<CellV>) -> int
    decreases ms.len(),
{
    if ms.len() == 0 {
        0
    } else {
        row_sum(ms.drop_last()) + ms.last().y
    }
}

/// Whether this placement is supported on the board.
fn supported_check(state: &State, u: &Unit) -> (b: bool)
    requires
        model::dims_ok(state@),
        !model::unit_invalid(state@, u@),
    ensures
        b == supported(state@, u@),
{
    let ghost uv = u@;
    for i in 0..u.members.len()
        invariant
            forall|j: int|
                0 <= j < i ==> !((#[trigger] uv.members[j]).y == state@.height - 1
                    || has_lower_neighbor(state@, uv.members[j])),
    {
        proof {
            assert(uv.members[i as int] == u.members@[i as int]@);
            assert(!model::sv_invalid(state@, uv.members[i as int]));
        }
        let c = u.members[i];
        if c.y == state.height - 1 {
            return true;
        }
        let below = state.is_filled(Cell::new(c.x, c.y + 1));
        let diag = if c.y % 2 == 0 {
            state.is_filled(Cell::new(c.x - 1, c.y + 1))
        } else {
            state.is_filled(Cell::new(c.x + 1, c.y + 1))
        };
        if below || diag {
            assert(has_lower_neighbor(state@, uv.members[i as int]));
            return true;
        }
        assert(!has_lower_neighbor(state@, uv.members[i as int]));
    }
    false
}

/// The sum of a placement's member rows.
fn row_sum_exec(u: &Unit, height: i32) -> (r: i64)
    requires
        1 <= height <= model::DIM_MAX,
        forall|j: int|
            0 <= j < u@.members.len() ==> 0 <= (#[trigger] u@.members[j]).y < height,
        u@.members.len() <= i32::MAX,
    ensures
        r as int == row_sum(u@.members),
{
    let mut acc: i64 = 0;
    let n = u.members.len();
    for i in 0..n
        invariant
            n == u@.members.len(),
            acc as int == row_sum(u@.members.take(i as int)),
            0 <= acc <= i * model::DIM_MAX,
    {
        proof {
            assert(u@.members[i as int] == u.members@[i as int]@);
            assert(u@.members.take(i + 1).drop_last() =~= u@.members.take(i as int));
            assert(u@.members.take(i + 1).last() == u@.members[i as int]);
        }
        acc = acc + (u.members[i].y as i64);
    }
    proof {
        assert(u@.members.take(n as int) =~= u@.members);
    }
    acc
}

/// Every legally reachable resting placement of the active piece: each
/// rotational orientation translated to every pivot of the expanded board
/// rectangle, kept when legal and supported, ordered by descending average
/// row so that lower placements come first.
#[verifier::rlimit(100)]
pub fn enumerate_resting_positions(state: &State) -> (r: Vec<Unit>)
    requires
        model::state_wf(state@),
        !state@.game_over,
    ensures
        forall|i: int| 0 <= i < r@.len() ==> resting_ok(state@, (#[trigger] r@[i])@),
        forall|i: int, j: int|
            0 <= i < j < r@.len() ==> row_sum((#[trigger] r@[i])@.members) >= row_sum(
                (#[trigger] r@[j])@.members,
            ),
        r@.len() > 0 ==> state@.units.len() > 0,
{
    let ghost sv = state@;
    if state.unit_sequence.len() == 0 {
        return Vec::new();
    }
    let unit = clone_unit(&state.unit_sequence[0]);
    let ghost uv = unit@;
    proof {
        assert(uv == sv.units[0]);
        assert(model::unit_wf(uv, sv.width, sv.height));
    }

    // The least pivot-to-member distance: how far past the board edge a
    // placement must still be tried.
    proof {
        assert(uv.members[0] == unit.members@[0]@);
        assert(model::in_board(uv.members[0], sv.width, sv.height));
        assert(model::off_ok(model::member_off(uv, 0), model::pivot_debt(uv)));
    }
    let mut minv: i32 = distance(unit.pivot, unit.members[0]);
    proof {
        assert(model::member_off(uv, 0) == model::lat_sub(
            model::lat_of(uv.members[0]),
            model::lat_of(uv.pivot),
        ));
        assert(minv <= 2_000_000);
    }
    for i in 1..unit.members.len()
        invariant
            uv == unit@,
            0 <= minv <= 2_000_000,
    {
        proof {
            assert(uv.members[i as int] == unit.members@[i as int]@);
            assert(model::unit_wf(uv, sv.width, sv.height));
            assert(model::off_ok(model::member_off(uv, i as int), model::pivot_debt(uv)));
            assert(model::member_off(uv, i as int) == model::lat_sub(
                model::lat_of(uv.members[i as int]),
                model::lat_of(uv.pivot),
            ));
        }
        let d = distance(unit.pivot, unit.members[i]);
        assert(d <= 2_000_000);
        if d < minv {
            minv = d;
        }
    }

    // Up to six rotational orientations, stopping when a pose repeats.
    let mut orientations: Vec<Unit> = Vec::new();
    let mut u = clone_unit(&unit);
    for _k in 0..6usize
        invariant
            uv == unit@,
            u@.pivot == uv.pivot,
            u@.members.len() == uv.members.len(),
            forall|i: int|
                0 <= i < u@.members.len() ==> model::off_ok(
                    #[trigger] model::member_off(u@, i),
                    model::pivot_debt(u@),
                ),
            forall|k: int|
                0 <= k < orientations@.len() ==> {
                    let o = (#[trigger] orientations@[k])@;
                    o.pivot == uv.pivot && o.members.len() == uv.members.len() && forall|i: int|
                        0 <= i < o.members.len() ==> model::off_ok(
                            #[trigger] model::member_off(o, i),
                            model::pivot_debt(o),
                        )
                },
    {
        if !crate::simulate::visited_contains(&orientations, &u) {
            orientations.push(clone_unit(&u));
        } else {
            break;
        }
        proof {
            model::lemma_unit_safe(u@);
        }
        let ghost u_before = u@;
        u.command(Command::Rotate(crate::Clock::Wise));
        proof {
            model::lemma_rotated_offs(u_before, crate::Clock::Wise);
        }
    }

    // Sweep every candidate pivot of the expanded rectangle, top row last.
    let mut valid_positions: Vec<Unit> = Vec::new();
    let mut y: i32 = state.height + minv - 1;
    while y >= 0 - minv
        invariant
            uv == unit@,
            -2_000_001 <= y <= sv.height + 2_000_000,
            0 <= minv <= 2_000_000,
            forall|k: int|
                0 <= k < orientations@.len() ==> {
                    let o = (#[trigger] orientations@[k])@;
                    o.pivot == uv.pivot && o.members.len() == uv.members.len() && forall|i: int|
                        0 <= i < o.members.len() ==> model::off_ok(
                            #[trigger] model::member_off(o, i),
                            model::pivot_debt(o),
                        )
                },
            forall|k: int|
                0 <= k < valid_positions@.len() ==> {
                    let p = (#[trigger] valid_positions@[k])@;
                    !model::unit_invalid(sv, p) && p.members.len() == sv.units[0].members.len()
                        && cell_in_range(p.pivot)
                },
        decreases y + 2_000_002,
    {
        let mut x: i32 = 0 - minv;
        while x < state.width + minv
            invariant
                uv == unit@,
                -2_000_001 <= y <= sv.height + 2_000_000,
                -2_000_000 <= x <= sv.width + 2_000_000,
                0 <= minv <= 2_000_000,
                forall|k: int|
                    0 <= k < orientations@.len() ==> {
                        let o = (#[trigger] orientations@[k])@;
                        o.pivot == uv.pivot && o.members.len() == uv.members.len() && forall|i: int|
                            0 <= i < o.members.len() ==> model::off_ok(
                                #[trigger] model::member_off(o, i),
                                model::pivot_debt(o),
                            )
                    },
                forall|k: int|
                    0 <= k < valid_positions@.len() ==> {
                        let p = (#[trigger] valid_positions@[k])@;
                        !model::unit_invalid(sv, p) && p.members.len() == sv.units[0].members.len()
                            && cell_in_range(p.pivot)
                    },
            decreases sv.width + 2_000_000 - x,
        {
            let final_pivot = Cell::new(x, y);
            proof {
                model::lemma_div2_bounds(y as int);
                model::lemma_div2_bounds(uv.pivot.y);
            }
            let delta = Lattice::of_cell(final_pivot).minus(Lattice::of_cell(unit.pivot));
            for k in 0..orientations.len()
                invariant
                    uv == unit@,
                    -2_000_001 <= y <= sv.height + 2_000_000,
                    -2_000_000 <= x <= sv.width + 2_000_000,
                    final_pivot@ == (CellV { x: x as int, y: y as int }),
                    delta@ == model::lat_sub(
                        model::lat_of(final_pivot@),
                        model::lat_of(uv.pivot),
                    ),
                    forall|kk: int|
                        0 <= kk < orientations@.len() ==> {
                            let o = (#[trigger] orientations@[kk])@;
                            o.pivot == uv.pivot && o.members.len() == uv.members.len() && forall|
                                i: int,
                            |
                                0 <= i < o.members.len() ==> model::off_ok(
                                    #[trigger] model::member_off(o, i),
                                    model::pivot_debt(o),
                                )
                        },
                    forall|kk: int|
                        0 <= kk < valid_positions@.len() ==> {
                            let p = (#[trigger] valid_positions@[kk])@;
                            !model::unit_invalid(sv, p) && p.members.len()
                                == sv.units[0].members.len() && cell_in_range(p.pivot)
                        },
            {
                let o = &orientations[k];
                proof {
                    model::lemma_unit_safe(o@);
                    model::lemma_div2_bounds(o@.pivot.y);
                }
                let mut members: Vec<Cell> = Vec::new();
                for m in 0..o.members.len()
                    invariant
                        members@.len() == m,
                        o@ == orientations@[k as int]@,
                        delta@ == model::lat_sub(
                            model::lat_of(final_pivot@),
                            model::lat_of(uv.pivot),
                        ),
                {
                    proof {
                        assert(o@.members[m as int] == o.members@[m as int]@);
                        assert(model::off_ok(
                            model::member_off(o@, m as int),
                            model::pivot_debt(o@),
                        ));
                        model::lemma_unit_safe(o@);
                        model::lemma_div2_bounds(o@.members[m as int].y);
                    }
                    let c = Lattice::of_cell(o.members[m]).plus(delta).to_cell();
                    members.push(c);
                }
                let cand = Unit { members, pivot: final_pivot };
                if !state.is_unit_invalid(&cand) {
                    proof {
                        assert(cand@.members.len() == uv.members.len());
                    }
                    valid_positions.push(cand);
                }
            }
            x = x + 1;
        }
        y = y - 1;
    }

    // Keep only the supported placements.
    let mut real_positions: Vec<(i64, Unit)> = Vec::new();
    for i in 0..valid_positions.len()
        invariant
            forall|k: int|
                0 <= k < valid_positions@.len() ==> {
                    let p = (#[trigger] valid_positions@[k])@;
                    !model::unit_invalid(sv, p) && p.members.len() == sv.units[0].members.len()
                        && cell_in_range(p.pivot)
                },
            forall|k: int|
                0 <= k < real_positions@.len() ==> {
                    let p = #[trigger] real_positions@[k];
                    resting_ok(sv, p.1@) && p.0 as int == row_sum(p.1@.members)
                },
    {
        let vp = &valid_positions[i];
        if supported_check(state, vp) {
            proof {
                assert(!model::unit_invalid(sv, vp@));
                assert forall|j: int| 0 <= j < vp@.members.len() implies 0 <= (
                #[trigger] vp@.members[j]).y < sv.height by {
                    assert(!model::sv_invalid(sv, vp@.members[j]));
                }
                model::lemma_queue_potential_nonneg(sv.units, sv.height);
            }
            let s = row_sum_exec(vp, state.height);
            real_positions.push((s, clone_unit(vp)));
        }
    }

    // Order by descending row sum: placements that settle lower come first.
    let mut rest = real_positions;
    let mut sorted: Vec<Unit> = Vec::new();
    let ghost mut last_key: int = 0;
    while rest.len() > 0
        invariant
            forall|k: int|
                0 <= k < rest@.len() ==> {
                    let p = #[trigger] rest@[k];
                    resting_ok(sv, p.1@) && p.0 as int == row_sum(p.1@.members)
                },
            forall|k: int| 0 <= k < sorted@.len() ==> resting_ok(sv, (#[trigger] sorted@[k])@),
            forall|i: int, j: int|
                0 <= i < j < sorted@.len() ==> row_sum((#[trigger] sorted@[i])@.members) >= row_sum(
                    (#[trigger] sorted@[j])@.members,
                ),
            sorted@.len() > 0 ==> forall|k: int|
                0 <= k < rest@.len() ==> row_sum(
                    sorted@[sorted@.len() - 1]@.members,
                ) >= (#[trigger] rest@[k]).0 as int,
        decreases rest@.len(),
    {
        let mut best: usize = 0;
        let n = rest.len();
        for j in 1..n
            invariant
                n == rest@.len(),
                best < n,
                forall|k: int| 0 <= k < j ==> (#[trigger] rest@[k]).0 <= rest@[best as int].0,
        {
            if rest[j].0 > rest[best].0 {
                best = j;
            }
        }
        let (key, chosen) = rest.remove(best);
        proof {
            assert(key as int == row_sum(chosen@.members));
        }
        sorted.push(chosen);
    }
    sorted
}

/// What the path search promises of a successful result: the command string
/// decodes validly, replaying it on the start state yields exactly the
/// returned state, the game is still live with the same piece count, and the
/// active piece stands in the goal pose.
pub open spec fn path_found(s: StateV, goal: UnitV, cmds: Seq<char>, st: StateV) -> bool {
    &&& valid_cmd_str(cmds)
    &&& st == model::spec_apply_seq(s, decode_str(cmds))
    &&& model::state_wf(st)
    &&& !st.game_over
    &&& st.units.len() == s.units.len()
    &&& st.units.len() > 0
    &&& pose_eq(st.units[0], goal)
}

/// Backtracking search for a command string that drives the active piece from
/// its current pose exactly to the goal pose, bounded by the deadline. At
/// each node the candidates are ranked by how much they approach the goal;
/// a pose already reached after a southward or rotating step is pruned.
/// `None` when the search space or the deadline is exhausted.
#[verifier::rlimit(50)]
pub fn find_path_dfs(s: &State, goal_unit: &Unit, pop: &[String], opt: &SolverOptions) -> (r:
    Option<(String, State)>)
    requires
        live(s@),
        goal_ok(goal_unit@),
        crate::options::options_wf(opt),
        pop@.len() <= crate::options::PHRASES_MAX,
        forall|i: int|
            0 <= i < pop@.len() ==> crate::options::phrase_ok(#[trigger] pop@[i]@),
    ensures
        match r {
            Some(p) => path_found(s@, goal_unit@, p.0@, p.1@),
            None => true,
        },
{
    let ghost s0v = s@;
    let moves = basic_moves();
    let mut popv: Vec<String> = Vec::new();
    for i in 0..pop.len()
        invariant
            popv@.len() == i,
            forall|j: int| 0 <= j < i ==> #[trigger] popv@[j]@ == pop@[j]@,
    {
        popv.push(pop[i].clone());
    }

    let mut state = s.duplicate();
    let mut out_cmd_stack: Vec<String> = Vec::new();
    let mut dfs_stack: Vec<(State, usize)> = Vec::new();
    let mut cur_move_idx: usize = 0;
    let mut units_moved_down_to: Vec<Unit> = Vec::new();
    let mut fuel: u64 = 0x1000_0000_0000_0000;

    proof {
        assert(concat_views(out_cmd_stack@) =~= Seq::<char>::empty());
        assert(decode_str(Seq::<char>::empty()) == Seq::<Command>::empty());
        assert(state@ == model::spec_apply_seq(s0v, decode_str(concat_views(out_cmd_stack@))));
    }
    loop
        invariant
            live(state@),
            state@.units.len() == s0v.units.len(),
            valid_cmd_str(concat_views(out_cmd_stack@)),
            state@ == model::spec_apply_seq(s0v, decode_str(concat_views(out_cmd_stack@))),
            dfs_stack@.len() == out_cmd_stack@.len(),
            forall|k: int|
                0 <= k < dfs_stack@.len() ==> {
                    let e = #[trigger] dfs_stack@[k];
                    live(e.0@) && e.0@.units.len() == s0v.units.len() && e.1
                        < crate::options::PHRASES_MAX + 6 && valid_cmd_str(
                        concat_views(out_cmd_stack@.take(k)),
                    ) && e.0@ == model::spec_apply_seq(
                        s0v,
                        decode_str(concat_views(out_cmd_stack@.take(k))),
                    )
                },
            popv@.len() == pop@.len(),
            forall|j: int| 0 <= j < popv@.len() ==> #[trigger] popv@[j]@ == pop@[j]@,
            moves@.len() == 6,
            forall|i: int|
                0 <= i < 6 ==> valid_cmd_str(#[trigger] moves@[i]@) && decode_str(
                    moves@[i]@,
                ).len() == 1 && moves@[i]@.len() == 1,
        decreases fuel,
    {
        if fuel == 0 {
            return None;
        }
        fuel = fuel - 1;
        let ranking = get_move_ranking_dfs(&state, goal_unit, &popv, &moves);
        let mut advanced = false;
        match ranking {
            Some(next_moves) => {
                if cur_move_idx < next_moves.len() {
                    proof {
                        assert(next_moves@.len() <= crate::options::PHRASES_MAX + 6);
                    }
                    advanced = true;
                    let mv = next_moves[cur_move_idx].clone();
                    proof {
                        assert(ranked_ok(state@, goal_unit@, mv@));
                    }
                    let ghost prev_state = state@;
                    let ghost prev_out = out_cmd_stack@;
                    dfs_stack.push((state.duplicate(), cur_move_idx));
                    out_cmd_stack.push(mv.clone());
                    let cmds = crate::codec::string_to_commands(mv.as_str());
                    state = state.apply_sequence(cmds.as_slice());
                    proof {
                        assert(out_cmd_stack@.drop_last() =~= prev_out);
                        assert(concat_views(out_cmd_stack@) == concat_views(prev_out) + mv@);
                        crate::codec::lemma_decode_concat(concat_views(prev_out), mv@);
                        model::lemma_apply_seq_concat(
                            s0v,
                            decode_str(concat_views(prev_out)),
                            decode_str(mv@),
                        );
                        assert(state@ == model::spec_apply_seq(
                            s0v,
                            decode_str(concat_views(out_cmd_stack@)),
                        ));
                        assert forall|i: int|
                            0 <= i < concat_views(out_cmd_stack@).len() implies crate::codec::decode_char(
                            #[trigger] concat_views(out_cmd_stack@)[i],
                        ) is Some || crate::codec::is_skipped(concat_views(out_cmd_stack@)[i]) by {
                            if i < concat_views(prev_out).len() {
                                assert(concat_views(out_cmd_stack@)[i] == concat_views(
                                    prev_out,
                                )[i]);
                            } else {
                                assert(concat_views(out_cmd_stack@)[i] == mv@[i - concat_views(
                                    prev_out,
                                ).len()]);
                            }
                        }
                        assert forall|k: int| 0 <= k < dfs_stack@.len() implies {
                            let e = #[trigger] dfs_stack@[k];
                            live(e.0@) && e.0@.units.len() == s0v.units.len() && e.1
                                < crate::options::PHRASES_MAX + 6 && valid_cmd_str(
                                concat_views(out_cmd_stack@.take(k)),
                            ) && e.0@ == model::spec_apply_seq(
                                s0v,
                                decode_str(concat_views(out_cmd_stack@.take(k))),
                            )
                        } by {
                            if k < dfs_stack@.len() - 1 {
                                assert(out_cmd_stack@.take(k) =~= prev_out.take(k));
                                assert(dfs_stack@[k] == dfs_stack@.drop_last()[k]);
                            } else {
                                assert(out_cmd_stack@.take(k) =~= prev_out);
                                assert(dfs_stack@[k].0@ == prev_state);
                            }
                        }
                    }
                    let last = cmds[cmds.len() - 1];
                    let southish = match last {
                        Command::Move(crate::Direction::SW) => true,
                        Command::Move(crate::Direction::SE) => true,
                        Command::Rotate(_) => true,
                        _ => false,
                    };
                    let mut pruned = false;
                    if southish {
                        if crate::simulate::visited_contains(
                            &units_moved_down_to,
                            &state.unit_sequence[0],
                        ) {
                            pruned = true;
                        }
                    }
                    if pruned {
                        // The pose was already reached on this branch depth:
                        // undo the move and advance to the next candidate.
                        let frame = dfs_stack.pop().unwrap();
                        state = frame.0;
                        cur_move_idx = frame.1 + 1;
                        out_cmd_stack.pop();
                        proof {
                            assert(out_cmd_stack@ =~= prev_out);
                        }
                    } else {
                        if southish {
                            units_moved_down_to.push(clone_unit(&state.unit_sequence[0]));
                        }
                        cur_move_idx = 0;
                        if state.unit_sequence[0].same_pose(goal_unit) {
                            let cmds_str = join_strings(&out_cmd_stack);
                            proof {
                                assert(state@.units[0] == state.unit_sequence@[0]@);
                            }
                            return Some((cmds_str, state));
                        }
                    }
                }
            },
            None => {},
        }
        if !advanced {
            // Every candidate at this node is exhausted, or none exists:
            // backtrack, unless the stack or the deadline is spent.
            if dfs_stack.len() == 0 {
                return None;
            }
            if opt.time_left_ms() < 0 {
                return None;
            }
            let ghost prev_out = out_cmd_stack@;
            let frame = dfs_stack.pop().unwrap();
            state = frame.0;
            cur_move_idx = frame.1 + 1;
            out_cmd_stack.pop();
            proof {
                assert(out_cmd_stack@ =~= prev_out.take(prev_out.len() - 1));
                assert forall|k: int| 0 <= k < dfs_stack@.len() implies {
                    let e = #[trigger] dfs_stack@[k];
                    live(e.0@) && e.0@.units.len() == s0v.units.len() && e.1
                        < crate::options::PHRASES_MAX + 6 && valid_cmd_str(
                        concat_views(out_cmd_stack@.take(k)),
                    ) && e.0@ == model::spec_apply_seq(
                        s0v,
                        decode_str(concat_views(out_cmd_stack@.take(k))),
                    )
                } by {
                    assert(out_cmd_stack@.take(k) =~= prev_out.take(k));
                }
            }
        }
    }
}

} // verus!
