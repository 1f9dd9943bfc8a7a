//! The solver strategies: deterministic sweeps, randomized local search,
//! greedy bottom-up placement through the path search, and replay of a
//! supplied solution. Every strategy returns a command string together with
//! the score that replaying it earns.
use vstd::prelude::*;

pub use crate::search::{distance, enumerate_resting_positions, find_path_dfs};

use crate::codec::{decode_str, pop_score, valid_cmd_str};
use crate::model::{self, StateV};
use crate::options::{options_wf, phrase_ok, SolverOptions};
use crate::rng::{lcg_next, LCG_INC, LCG_MUL};
use crate::search::live;
use crate::simulate::{clone_unit, score_commands};
use crate::{Command, Input, Score, Solution, State, Unit};

verus! {

/// The available strategies.
#[derive(Debug, PartialEq, Eq, Structural, Clone, Copy, Hash)]
pub enum Solver {
    AllDown,
    SolverSE,
    MonteCarlo,
    Supplied,
    BottomUp,
    BottomUpDfs,
    LookAhead,
}

/// The strategy each name selects; unknown names fall back to the greedy
/// bottom-up search.
pub open spec fn solver_for_name(s: Seq<char>) -> Solver {
    if s == "alldown"@ {
        Solver::AllDown
    } else if s == "se"@ {
        Solver::SolverSE
    } else if s == "mc"@ {
        Solver::MonteCarlo
    } else if s == "supplied"@ {
        Solver::Supplied
    } else if s == "bottomup"@ {
        Solver::BottomUp
    } else if s == "bottomupdfs"@ {
        Solver::BottomUpDfs
    } else if s == "lookahead"@ {
        Solver::LookAhead
    } else {
        Solver::BottomUpDfs
    }
}

/// The name of each strategy.
pub open spec fn spec_name(v: Solver) -> Seq<char> {
    match v {
        Solver::AllDown => "alldown"@,
        Solver::SolverSE => "se"@,
        Solver::MonteCarlo => "mc"@,
        Solver::Supplied => "supplied"@,
        Solver::BottomUp => "bottomup"@,
        Solver::BottomUpDfs => "bottomupdfs"@,
        Solver::LookAhead => "lookahead"@,
    }
}

/// Whether two strings hold the same characters.
fn str_eq(a: &str, b: &str) -> (r: bool)
    ensures
        r == (a@ == b@),
{
    let na = a.unicode_len();
    let nb = b.unicode_len();
    if na != nb {
        proof {
            assert(a@.len() != b@.len());
        }
        return false;
    }
    for i in 0..na
        invariant
            na == a@.len(),
            na == b@.len(),
            forall|j: int| 0 <= j < i ==> a@[j] == b@[j],
    {
        if a.get_char(i) != b.get_char(i) {
            assert(a@[i as int] != b@[i as int]);
            return false;
        }
    }
    proof {
        assert(a@ =~= b@);
    }
    true
}

/// Select a strategy by name; unknown names fall back to the greedy
/// bottom-up search.
pub fn name_to_solver(name: &str) -> (s: Solver)
    ensures
        s == solver_for_name(name@),
{
    if str_eq(name, "alldown") {
        Solver::AllDown
    } else if str_eq(name, "se") {
        Solver::SolverSE
    } else if str_eq(name, "mc") {
        Solver::MonteCarlo
    } else if str_eq(name, "supplied") {
        Solver::Supplied
    } else if str_eq(name, "bottomup") {
        Solver::BottomUp
    } else if str_eq(name, "bottomupdfs") {
        Solver::BottomUpDfs
    } else if str_eq(name, "lookahead") {
        Solver::LookAhead
    } else {
        Solver::BottomUpDfs
    }
}

impl Solver {
    /// The name this strategy is selected by.
    pub fn name(&self) -> (r: String)
        ensures
            r@ == spec_name(*self),
    {
        match *self {
            Solver::AllDown => String::from_str("alldown"),
            Solver::SolverSE => String::from_str("se"),
            Solver::MonteCarlo => String::from_str("mc"),
            Solver::Supplied => String::from_str("supplied"),
            Solver::BottomUp => String::from_str("bottomup"),
            Solver::BottomUpDfs => String::from_str("bottomupdfs"),
            Solver::LookAhead => String::from_str("lookahead"),
        }
    }
}

/// The seeded linear-congruential generator that drives the randomized
/// strategies.
pub struct Random(pub u32);

impl Random {
    pub fn new(seed: u32) -> (r: Random)
        ensures
            r.0 == seed,
    {
        Random(seed)
    }

    /// One draw: the generator steps once and the whole new state is the
    /// value drawn.
    pub fn random(&mut self) -> (r: usize)
        ensures
            final(self).0 == lcg_next(old(self).0),
            r == final(self).0 as usize,
    {
        self.0 = LCG_MUL.wrapping_mul(self.0).wrapping_add(LCG_INC);
        self.0 as usize
    }
}

/// What every option list handed to the random walks satisfies: each entry is
/// a decodable command string and its decoded commands ride along.
pub open spec fn options_match(options: Seq<String>, cmds: Seq<Vec<Command>>) -> bool {
    &&& options.len() == cmds.len()
    &&& options.len() >= 1
    &&& forall|i: int|
        0 <= i < options.len() ==> valid_cmd_str((#[trigger] options[i])@) && 1 <= options[i]@.len()
            && (#[trigger] cmds[i])@ == decode_str(options[i]@)
}

impl Random {
    /// Try randomly drawn options against the state until one neither ends
    /// the game with a zero score nor exhausts the list; the chosen option's
    /// string and the state it leads to. An empty string with the unchanged
    /// state when nothing works.
    pub fn commands(&mut self, s: &State, options: &[String], cmds: &[Vec<Command>]) -> (r: (
        String,
        State,
    ))
        requires
            model::state_wf(s@),
            options_match(options@, cmds@),
        ensures
            valid_cmd_str(r.0@),
            r.1@ == model::spec_apply_seq(s@, decode_str(r.0@)),
            model::state_wf(r.1@),
            !r.1@.game_over || r.1@.score > 0 || r.0@.len() == 0,
    {
        proof {
            assert(decode_str(Seq::<char>::empty()) == Seq::<Command>::empty());
        }
        if s.game_over {
            return (String::new(), s.duplicate());
        }
        let n = options.len();
        let mut handled: Vec<bool> = vec![false; n];
        let mut i = self.random() % n;
        let mut remaining: usize = n;
        proof {
            model::lemma_count_false_all(handled@);
        }
        loop
            invariant
                handled@.len() == n,
                n == options@.len(),
                i < n,
                !handled@[i as int],
                remaining as int == model::count_false(handled@),
                options_match(options@, cmds@),
                model::state_wf(s@),
            decreases remaining,
        {
            proof {
                model::lemma_count_false_set(handled@, i as int);
            }
            handled.set(i, true);
            remaining = remaining - 1;
            let ss = s.apply_sequence(vstd::slice::slice_index_get(cmds, i).as_slice());
            if !ss.game_over || ss.score > 0 {
                let o = vstd::slice::slice_index_get(options, i).clone();
                proof {
                    assert(cmds@[i as int]@ == decode_str(options@[i as int]@));
                }
                return (o, ss);
            }
            // A zero-point game-ending option: mark it off and try another.
            let mut allhandled = true;
            let mut first_unhandled: usize = 0;
            for j in 0..n
                invariant
                    handled@.len() == n,
                    allhandled ==> forall|k: int| 0 <= k < j ==> handled@[k],
                    !allhandled ==> first_unhandled < n && !handled@[first_unhandled as int],
            {
                if allhandled && !handled[j] {
                    allhandled = false;
                    first_unhandled = j;
                }
            }
            if allhandled {
                return (String::new(), s.duplicate());
            }
            // Redraw until an untried option comes up, with a bounded number
            // of draws; settle for the first untried one if luck runs out.
            let mut redraw_fuel: u64 = 0x1_0000_0000;
            while handled[i]
                invariant
                    i < n,
                    handled@.len() == n,
                decreases redraw_fuel,
            {
                if redraw_fuel == 0 {
                    break;
                }
                redraw_fuel = redraw_fuel - 1;
                i = self.random() % n;
            }
            if handled[i] {
                i = first_unhandled;
            }
        }
    }

    /// Extend the state by up to `max_cmds` randomly chosen options, stopping
    /// when the score would regress or the game ends; the commands taken and
    /// the state reached.
    pub fn many_commands(
        &mut self,
        s: &State,
        options: &[String],
        cmds: &[Vec<Command>],
        max_cmds: usize,
    ) -> (r: (String, State))
        requires
            model::state_wf(s@),
            options_match(options@, cmds@),
        ensures
            valid_cmd_str(r.0@),
            r.1@ == model::spec_apply_seq(s@, decode_str(r.0@)),
            model::state_wf(r.1@),
    {
        let mut cur = s.duplicate();
        let mut all_cmds = String::new();
        proof {
            assert(decode_str(Seq::<char>::empty()) == Seq::<Command>::empty());
        }
        for _k in 0..max_cmds
            invariant
                valid_cmd_str(all_cmds@),
                cur@ == model::spec_apply_seq(s@, decode_str(all_cmds@)),
                model::state_wf(cur@),
                options_match(options@, cmds@),
        {
            let (more, snew) = self.commands(&cur, options, cmds);
            if snew.score < cur.score {
                return (all_cmds, cur);
            }
            let ghost prev_all = all_cmds@;
            all_cmds.append(more.as_str());
            proof {
                crate::codec::lemma_decode_concat(prev_all, more@);
                model::lemma_apply_seq_concat(s@, decode_str(prev_all), decode_str(more@));
                assert forall|ii: int| 0 <= ii < all_cmds@.len() implies crate::codec::decode_char(
                    #[trigger] all_cmds@[ii],
                ) is Some || crate::codec::is_skipped(all_cmds@[ii]) by {
                    if ii < prev_all.len() {
                        assert(all_cmds@[ii] == prev_all[ii]);
                    } else {
                        assert(all_cmds@[ii] == more@[ii - prev_all.len()]);
                    }
                }
            }
            cur = snew;
            if cur.game_over {
                return (all_cmds, cur);
            }
        }
        (all_cmds, cur)
    }

    /// Walk the piece down until its pivot reaches the target row, without
    /// locking it; `None` when the piece locks, the game ends, or the walk
    /// gives up.
    pub fn find_level(
        &mut self,
        s: &State,
        target: i32,
        options: &[String],
        cmds: &[Vec<Command>],
    ) -> (r: Option<(String, State)>)
        requires
            live(s@),
            options_match(options@, cmds@),
        ensures
            match r {
                Some(p) => {
                    &&& valid_cmd_str(p.0@)
                    &&& p.1@ == model::spec_apply_seq(s@, decode_str(p.0@))
                    &&& live(p.1@)
                    &&& p.1@.units.len() == s@.units.len()
                    &&& p.1@.units[0].pivot.y >= target
                },
                None => true,
            },
    {
        let mut cur = s.duplicate();
        let mut all_cmds = String::new();
        let num_units = s.unit_sequence.len();
        proof {
            assert(decode_str(Seq::<char>::empty()) == Seq::<Command>::empty());
        }
        let mut fuel: u64 = 0x1_0000_0000;
        loop
            invariant
                valid_cmd_str(all_cmds@),
                cur@ == model::spec_apply_seq(s@, decode_str(all_cmds@)),
                live(cur@),
                cur@.units.len() == s@.units.len(),
                num_units == s@.units.len(),
                options_match(options@, cmds@),
            decreases fuel,
        {
            if fuel == 0 {
                return None;
            }
            fuel = fuel - 1;
            let (more, snew) = self.commands(&cur, options, cmds);
            if snew.unit_sequence.len() != num_units || snew.game_over {
                return None;
            }
            let ghost prev_all = all_cmds@;
            all_cmds.append(more.as_str());
            proof {
                crate::codec::lemma_decode_concat(prev_all, more@);
                model::lemma_apply_seq_concat(s@, decode_str(prev_all), decode_str(more@));
                assert forall|ii: int| 0 <= ii < all_cmds@.len() implies crate::codec::decode_char(
                    #[trigger] all_cmds@[ii],
                ) is Some || crate::codec::is_skipped(all_cmds@[ii]) by {
                    if ii < prev_all.len() {
                        assert(all_cmds@[ii] == prev_all[ii]);
                    } else {
                        assert(all_cmds@[ii] == more@[ii - prev_all.len()]);
                    }
                }
            }
            cur = snew;
            proof {
                assert(cur@.units[0] == cur.unit_sequence@[0]@);
                assert(model::unit_wf(cur@.units[0], cur@.width, cur@.height));
            }
            if cur.unit_sequence[0].pivot.y >= target {
                return Some((all_cmds, cur));
            }
        }
    }

    /// Try repeatedly to walk the piece to the target pose and lock it;
    /// `None` after the attempts are spent.
    pub fn find_path(
        &mut self,
        input_s: &State,
        target: &Unit,
        options: &[String],
        cmds: &[Vec<Command>],
    ) -> (r: Option<(String, State)>)
        requires
            live(input_s@),
            options_match(options@, cmds@),
            options@.len() >= 6,
            crate::search::cell_in_range(target@.pivot),
        ensures
            match r {
                Some(p) => {
                    &&& valid_cmd_str(p.0@)
                    &&& p.1@ == model::spec_apply_seq(input_s@, decode_str(p.0@))
                    &&& model::state_wf(p.1@)
                },
                None => true,
            },
    {
        for _attempt in 0..40usize
            invariant
                live(input_s@),
                options_match(options@, cmds@),
        {
            let attempt = self.find_path_once(input_s, target, options, cmds);
            match attempt {
                None => {},
                Some(p) => {
                    return Some(p);
                },
            }
        }
        None
    }

    /// One randomized walk toward the target: descend level by level to the
    /// target row, then wander sideways at that level; once the target pose
    /// is met, try the two downward finishers until the piece locks.
    #[verifier::rlimit(50)]
    pub fn find_path_once(
        &mut self,
        input_s: &State,
        target: &Unit,
        options: &[String],
        cmds: &[Vec<Command>],
    ) -> (r: Option<(String, State)>)
        requires
            live(input_s@),
            options_match(options@, cmds@),
            options@.len() >= 6,
            crate::search::cell_in_range(target@.pivot),
        ensures
            match r {
                Some(p) => {
                    &&& valid_cmd_str(p.0@)
                    &&& p.1@ == model::spec_apply_seq(input_s@, decode_str(p.0@))
                    &&& model::state_wf(p.1@)
                },
                None => true,
            },
    {
        let ghost iv = input_s@;
        let mut s = input_s.duplicate();
        let mut all_cmds = String::new();
        let mut attempts: i32 = 0;
        let num_units = input_s.unit_sequence.len();
        proof {
            assert(decode_str(Seq::<char>::empty()) == Seq::<Command>::empty());
            assert(iv.units[0] == input_s.unit_sequence@[0]@);
            assert(model::unit_wf(iv.units[0], iv.width, iv.height));
        }
        let mut level: i32 = s.unit_sequence[0].pivot.y + 1;
        let mut fuel: u64 = 0x1_0000_0000;
        while level <= target.pivot.y
            invariant
                valid_cmd_str(all_cmds@),
                s@ == model::spec_apply_seq(iv, decode_str(all_cmds@)),
                live(s@),
                s@.units.len() == iv.units.len(),
                num_units == iv.units.len(),
                0 <= attempts <= 2000,
                s@.width == iv.width,
                options_match(options@, cmds@),
            decreases fuel,
        {
            if fuel == 0 {
                return None;
            }
            fuel = fuel - 1;
            attempts = attempts + 1;
            let walk = self.find_level(&s, level, options, cmds);
            match walk {
                None => {},
                Some((c, news)) => {
                    let ghost prev_all = all_cmds@;
                    all_cmds.append(c.as_str());
                    proof {
                        crate::codec::lemma_decode_concat(prev_all, c@);
                        model::lemma_apply_seq_concat(iv, decode_str(prev_all), decode_str(c@));
                        assert forall|ii: int|
                            0 <= ii < all_cmds@.len() implies crate::codec::decode_char(
                            #[trigger] all_cmds@[ii],
                        ) is Some || crate::codec::is_skipped(all_cmds@[ii]) by {
                            if ii < prev_all.len() {
                                assert(all_cmds@[ii] == prev_all[ii]);
                            } else {
                                assert(all_cmds@[ii] == c@[ii - prev_all.len()]);
                            }
                        }
                        model::lemma_apply_seq_frame(iv, decode_str(all_cmds@));
                    }
                    s = news;
                    proof {
                        assert(s@.units[0] == s.unit_sequence@[0]@);
                        assert(model::unit_wf(s@.units[0], s@.width, s@.height));
                    }
                    level = s.unit_sequence[0].pivot.y + 1;
                    attempts = 0;
                },
            }
            if attempts > 4 * s.width {
                return None;
            }
            proof {
                assert(attempts <= 4 * s@.width <= 2000);
            }
        }
        proof {
            assert(s@.units[0] == s.unit_sequence@[0]@);
        }
        if s.unit_sequence[0].pivot.y == target.pivot.y {
            let w4: i32 = 4 * s.width;
            let mut k: i32 = 0;
            while k < w4
                invariant
                    0 <= k <= w4,
                    valid_cmd_str(all_cmds@),
                    s@ == model::spec_apply_seq(iv, decode_str(all_cmds@)),
                    live(s@),
                    s@.units.len() == iv.units.len(),
                    num_units == iv.units.len(),
                    options_match(options@, cmds@),
                decreases w4 - k,
            {
                if s.unit_sequence[0].same_pose(target) {
                    for _j in 0..6usize
                        invariant
                            valid_cmd_str(all_cmds@),
                            s@ == model::spec_apply_seq(iv, decode_str(all_cmds@)),
                            live(s@),
                            s@.units.len() == iv.units.len(),
                            num_units == iv.units.len(),
                            options_match(options@, cmds@),
                    {
                        let finishers_o = vstd::slice::slice_subrange(options, 4, 6);
                        let finishers_c = vstd::slice::slice_subrange(cmds, 4, 6);
                        proof {
                            assert forall|ii: int|
                                0 <= ii < finishers_o@.len() implies valid_cmd_str(
                                (#[trigger] finishers_o@[ii])@,
                            ) && finishers_c@[ii]@ == decode_str(finishers_o@[ii]@) by {
                                assert(finishers_o@[ii] == options@[4 + ii]);
                                assert(finishers_c@[ii] == cmds@[4 + ii]);
                            }
                        }
                        let (more, snew) = self.commands(&s, finishers_o, finishers_c);
                        if snew.unit_sequence.len() != num_units {
                            let ghost prev_all = all_cmds@;
                            all_cmds.append(more.as_str());
                            proof {
                                crate::codec::lemma_decode_concat(prev_all, more@);
                                model::lemma_apply_seq_concat(
                                    iv,
                                    decode_str(prev_all),
                                    decode_str(more@),
                                );
                                assert forall|ii: int|
                                    0 <= ii < all_cmds@.len() implies crate::codec::decode_char(
                                    #[trigger] all_cmds@[ii],
                                ) is Some || crate::codec::is_skipped(all_cmds@[ii]) by {
                                    if ii < prev_all.len() {
                                        assert(all_cmds@[ii] == prev_all[ii]);
                                    } else {
                                        assert(all_cmds@[ii] == more@[ii - prev_all.len()]);
                                    }
                                }
                            }
                            return Some((all_cmds, snew));
                        }
                    }
                }
                let movers_o = vstd::slice::slice_subrange(options, 0, 4);
                let movers_c = vstd::slice::slice_subrange(cmds, 0, 4);
                proof {
                    assert forall|ii: int|
                        0 <= ii < movers_o@.len() implies valid_cmd_str(
                        (#[trigger] movers_o@[ii])@,
                    ) && movers_c@[ii]@ == decode_str(movers_o@[ii]@) by {
                        assert(movers_o@[ii] == options@[ii]);
                        assert(movers_c@[ii] == cmds@[ii]);
                    }
                }
                let (more, snew) = self.commands(&s, movers_o, movers_c);
                if snew.unit_sequence.len() != num_units {
                    k = k + 1;
                    continue;
                }
                let ghost prev_all = all_cmds@;
                proof {
                    // The walk kept the queue length, so the game cannot have
                    // ended: a terminal state with the full queue has score
                    // zero, which the option chooser never returns.
                    if snew@.game_over {
                        if more@.len() == 0 {
                            assert(decode_str(more@) == Seq::<Command>::empty());
                            assert(snew@ == s@);
                        } else {
                            model::lemma_terminal_same_count(s@, decode_str(more@));
                        }
                    }
                }
                all_cmds.append(more.as_str());
                proof {
                    crate::codec::lemma_decode_concat(prev_all, more@);
                    model::lemma_apply_seq_concat(iv, decode_str(prev_all), decode_str(more@));
                    assert forall|ii: int|
                        0 <= ii < all_cmds@.len() implies crate::codec::decode_char(
                        #[trigger] all_cmds@[ii],
                    ) is Some || crate::codec::is_skipped(all_cmds@[ii]) by {
                        if ii < prev_all.len() {
                            assert(all_cmds@[ii] == prev_all[ii]);
                        } else {
                            assert(all_cmds@[ii] == more@[ii - prev_all.len()]);
                        }
                    }
                }
                s = snew;
                k = k + 1;
            }
        }
        None
    }
}

// ---------------------------------------------------------------------------
// The strategies
// ---------------------------------------------------------------------------

/// The state a command string leads to from a start state.
pub open spec fn replayed(s: StateV, sol: Seq<char>) -> StateV {
    model::spec_apply_seq(s, decode_str(sol))
}

/// What the deterministic strategies promise: the returned score is exactly
/// what replaying the returned command string earns.
pub open spec fn deterministic_result_ok(s: StateV, sol: Seq<char>, score: int) -> bool {
    &&& valid_cmd_str(sol)
    &&& score == replayed(s, sol).score
}

/// The full promise of the two sweeps: the emitted string decodes to the
/// sweep pattern — SE throughout, or SE and SW alternating — played exactly
/// until the game first ends: the replayed state is terminal and every
/// proper prefix leaves the game alive.
pub open spec fn sweep_result_ok(s: StateV, sol: Seq<char>, score: int, alternating: bool) -> bool {
    let cs = decode_str(sol);
    &&& deterministic_result_ok(s, sol, score)
    &&& replayed(s, sol).game_over
    &&& forall|k: int|
        0 <= k < cs.len() ==> !model::spec_apply_seq(s, #[trigger] cs.take(k)).game_over
    &&& forall|i: int|
        0 <= i < cs.len() ==> #[trigger] cs[i] == (if alternating && i % 2 == 1 {
            Command::Move(crate::Direction::SW)
        } else {
            Command::Move(crate::Direction::SE)
        })
}

/// What the randomized local search promises: the returned score is what the
/// replay earns, plus — whenever that is positive — the phrase bonus of the
/// returned string.
pub open spec fn mc_result_ok(s: StateV, phrases: Seq<String>, sol: Seq<char>, score: int) -> bool {
    &&& valid_cmd_str(sol)
    &&& score >= s.score
    &&& score == replayed(s, sol).score + if replayed(s, sol).score > 0 {
        pop_score(sol, phrases)
    } else {
        0int
    }
}

/// An integer squeezed into the score type from above.
pub open spec fn clamp_score(x: int) -> int {
    if x > i32::MAX {
        i32::MAX as int
    } else {
        x
    }
}

/// What the greedy placement strategy promises: the replay score plus the
/// phrase bonus, clamped into the score type.
pub open spec fn dfs_result_ok(s: StateV, phrases: Seq<String>, sol: Seq<char>, score: int) -> bool {
    &&& valid_cmd_str(sol)
    &&& sol.len() <= 1_000_000_000 ==> score == clamp_score(
        replayed(s, sol).score + pop_score(sol, phrases),
    )
    &&& sol.len() > 1_000_000_000 ==> score == replayed(s, sol).score
}

/// What each strategy promises of its (command string, score) result.
pub open spec fn solve_result_ok(
    v: Solver,
    s: StateV,
    phrases: Seq<String>,
    sol: Seq<char>,
    score: int,
) -> bool {
    match v {
        Solver::AllDown => sweep_result_ok(s, sol, score, true),
        Solver::SolverSE => sweep_result_ok(s, sol, score, false),
        Solver::Supplied => deterministic_result_ok(s, sol, score),
        Solver::BottomUp => deterministic_result_ok(s, sol, score),
        Solver::MonteCarlo => mc_result_ok(s, phrases, sol, score),
        Solver::BottomUpDfs => dfs_result_ok(s, phrases, sol, score),
        Solver::LookAhead => false,
    }
}

/// The tag an emitted solution carries: the caller's tag when one was given,
/// else the solver's name.
fn tag_for(v: Solver, opt: &SolverOptions) -> (t: Option<String>)
    ensures
        t is Some,
        opt.tag is Some ==> t == opt.tag,
{
    match &opt.tag {
        Some(t) => Some(t.clone()),
        None => Some(v.name()),
    }
}

/// Copy a vector of strings; the copies have the same views.
fn clone_strings(v: &Vec<String>) -> (r: Vec<String>)
    ensures
        r@.len() == v@.len(),
        forall|i: int| 0 <= i < v@.len() ==> #[trigger] r@[i]@ == v@[i]@,
{
    let mut r: Vec<String> = Vec::new();
    for i in 0..v.len()
        invariant
            r@.len() == i,
            forall|j: int| 0 <= j < i ==> #[trigger] r@[j]@ == v@[j]@,
    {
        r.push(v[i].clone());
    }
    r
}

/// The option list the randomized strategies draw from: the six elementary
/// moves, then every bonus phrase, each with its decoded commands.
fn solver_moves(opt: &SolverOptions) -> (r: (Vec<String>, Vec<Vec<Command>>))
    requires
        options_wf(opt),
    ensures
        options_match(r.0@, r.1@),
        r.0@.len() >= 6,
        forall|i: int| 0 <= i < 6 ==> decode_str((#[trigger] r.0@[i])@).len() == 1,
{
    proof {
        reveal_strlit("p");
        reveal_strlit("b");
        reveal_strlit("d");
        reveal_strlit("k");
        reveal_strlit("a");
        reveal_strlit("l");
    }
    let mut moves: Vec<String> = Vec::new();
    moves.push(String::from_str("p"));
    moves.push(String::from_str("b"));
    moves.push(String::from_str("d"));
    moves.push(String::from_str("k"));
    moves.push(String::from_str("a"));
    moves.push(String::from_str("l"));
    proof {
        crate::codec::lemma_decode_single(moves@[0]@);
        crate::codec::lemma_decode_single(moves@[1]@);
        crate::codec::lemma_decode_single(moves@[2]@);
        crate::codec::lemma_decode_single(moves@[3]@);
        crate::codec::lemma_decode_single(moves@[4]@);
        crate::codec::lemma_decode_single(moves@[5]@);
    }
    for i in 0..opt.phrases_of_power.len()
        invariant
            moves@.len() == 6 + i,
            forall|j: int|
                0 <= j < moves@.len() ==> valid_cmd_str((#[trigger] moves@[j])@) && 1 <= moves@[j]@.len(),
            forall|j: int| 0 <= j < 6 ==> decode_str((#[trigger] moves@[j])@).len() == 1,
    {
        proof {
            assert(phrase_ok(opt.phrases_of_power@[i as int]@));
        }
        moves.push(opt.phrases_of_power[i].clone());
    }
    let mut seqs: Vec<Vec<Command>> = Vec::new();
    for i in 0..moves.len()
        invariant
            seqs@.len() == i,
            forall|j: int|
                0 <= j < moves@.len() ==> valid_cmd_str((#[trigger] moves@[j])@) && 1 <= moves@[j]@.len(),
            forall|j: int| 0 <= j < 6 ==> decode_str((#[trigger] moves@[j])@).len() == 1,
            forall|j: int| 0 <= j < i ==> (#[trigger] seqs@[j])@ == decode_str(moves@[j]@),
    {
        seqs.push(crate::codec::string_to_commands(moves[i].as_str()));
    }
    (moves, seqs)
}

/// The alternating SE/SW sweep: fully deterministic, ignores the time
/// budget; the baseline regression oracle. The game always ends: every
/// southward step either ends the game, locks a piece, or carries the piece
/// one row down, and both rows and queue are bounded.
#[verifier::rlimit(100)]
fn solve_alldown(state: &State, input: &Input, opt: &SolverOptions) -> (r: (Solution, Score))
    requires
        model::state_wf(state@),
        options_wf(opt),
    ensures
        sweep_result_ok(state@, r.0.solution@, r.1 as int, true),
        r.0.problemId == input.id,
        r.0.seed == state.seed,
        opt.tag is Some ==> r.0.tag == opt.tag,
{
    let ghost sv = state@;
    let se = Command::Move(crate::Direction::SE);
    let sw = Command::Move(crate::Direction::SW);
    let mut cmds_vec: Vec<Command> = Vec::new();
    let mut s = state.duplicate();
    while !s.game_over
        invariant
            s@ == model::spec_apply_seq(sv, cmds_vec@),
            model::state_wf(s@),
            !s@.game_over ==> cmds_vec@.len() % 2 == 0,
            forall|i: int|
                0 <= i < cmds_vec@.len() ==> #[trigger] cmds_vec@[i] == (if i % 2 == 1 {
                    Command::Move(crate::Direction::SW)
                } else {
                    Command::Move(crate::Direction::SE)
                }),
            forall|k: int|
                0 <= k < cmds_vec@.len() ==> !model::spec_apply_seq(
                    sv,
                    #[trigger] cmds_vec@.take(k),
                ).game_over,
        decreases
            (if s@.game_over {
                0int
            } else {
                1int
            }),
            s@.units.len(),
            (if !s@.game_over && s@.units.len() > 0 {
                model::PIVOT_MAX + 1 - s@.units[0].pivot.y
            } else {
                0int
            }),
    {
        proof {
            if s@.units.len() > 0 {
                model::lemma_south_progress(s@, crate::Direction::SE);
            }
        }
        let ghost prev = cmds_vec@;
        s = s.apply(se);
        cmds_vec.push(se);
        proof {
            model::lemma_apply_seq_snoc(sv, prev, se);
            assert(cmds_vec@ =~= prev.push(se));
            assert(prev.take(prev.len() as int) =~= prev);
            assert forall|k: int|
                0 <= k < cmds_vec@.len() implies !model::spec_apply_seq(
                sv,
                #[trigger] cmds_vec@.take(k),
            ).game_over by {
                assert(cmds_vec@.take(k) =~= prev.take(k));
            }
        }
        if !s.game_over {
            proof {
                if s@.units.len() > 0 {
                    model::lemma_south_progress(s@, crate::Direction::SW);
                }
            }
            let ghost prev2 = cmds_vec@;
            s = s.apply(sw);
            cmds_vec.push(sw);
            proof {
                model::lemma_apply_seq_snoc(sv, prev2, sw);
                assert(cmds_vec@ =~= prev2.push(sw));
                assert(prev2.take(prev2.len() as int) =~= prev2);
                assert forall|k: int|
                    0 <= k < cmds_vec@.len() implies !model::spec_apply_seq(
                    sv,
                    #[trigger] cmds_vec@.take(k),
                ).game_over by {
                    assert(cmds_vec@.take(k) =~= prev2.take(k));
                }
            }
        }
    }
    proof {
        crate::codec::lemma_decode_encode(cmds_vec@);
        model::lemma_apply_seq_frame(sv, cmds_vec@);
    }
    let sol = crate::codec::commands_to_string(cmds_vec);
    (
        Solution {
            problemId: input.id,
            seed: state.seed,
            tag: tag_for(Solver::AllDown, opt),
            solution: sol,
        },
        s.score,
    )
}

/// The single-direction sweep: apply SE until the game first ends.
#[verifier::rlimit(100)]
fn solve_se(state: &State, input: &Input, opt: &SolverOptions) -> (r: (Solution, Score))
    requires
        model::state_wf(state@),
        options_wf(opt),
    ensures
        sweep_result_ok(state@, r.0.solution@, r.1 as int, false),
        r.0.problemId == input.id,
        r.0.seed == state.seed,
        opt.tag is Some ==> r.0.tag == opt.tag,
{
    let ghost sv = state@;
    let se = Command::Move(crate::Direction::SE);
    let mut cmds_vec: Vec<Command> = Vec::new();
    let mut s = state.duplicate();
    while !s.game_over
        invariant
            s@ == model::spec_apply_seq(sv, cmds_vec@),
            model::state_wf(s@),
            forall|i: int|
                0 <= i < cmds_vec@.len() ==> #[trigger] cmds_vec@[i] == Command::Move(
                    crate::Direction::SE,
                ),
            forall|k: int|
                0 <= k < cmds_vec@.len() ==> !model::spec_apply_seq(
                    sv,
                    #[trigger] cmds_vec@.take(k),
                ).game_over,
        decreases
            (if s@.game_over {
                0int
            } else {
                1int
            }),
            s@.units.len(),
            (if !s@.game_over && s@.units.len() > 0 {
                model::PIVOT_MAX + 1 - s@.units[0].pivot.y
            } else {
                0int
            }),
    {
        proof {
            if s@.units.len() > 0 {
                model::lemma_south_progress(s@, crate::Direction::SE);
            }
        }
        let ghost prev = cmds_vec@;
        s = s.apply(se);
        cmds_vec.push(se);
        proof {
            model::lemma_apply_seq_snoc(sv, prev, se);
            assert(cmds_vec@ =~= prev.push(se));
            assert(prev.take(prev.len() as int) =~= prev);
            assert forall|k: int|
                0 <= k < cmds_vec@.len() implies !model::spec_apply_seq(
                sv,
                #[trigger] cmds_vec@.take(k),
            ).game_over by {
                assert(cmds_vec@.take(k) =~= prev.take(k));
            }
        }
    }
    proof {
        crate::codec::lemma_decode_encode(cmds_vec@);
    }
    let sol = crate::codec::commands_to_string(cmds_vec);
    (
        Solution {
            problemId: input.id,
            seed: state.seed,
            tag: tag_for(Solver::SolverSE, opt),
            solution: sol,
        },
        s.score,
    )
}

/// Replay a supplied command string against the state, for verification and
/// debugging; not a search.
fn solve_supplied(state: &State, input: &Input, opt: &SolverOptions) -> (r: (Solution, Score))
    requires
        model::state_wf(state@),
        options_wf(opt),
        opt.solution is Some,
        crate::codec::strict_cmd_str(opt.solution.unwrap()@),
    ensures
        deterministic_result_ok(state@, r.0.solution@, r.1 as int),
        r.0.solution@ == opt.solution.unwrap()@,
        r.0.problemId == input.id,
        r.0.seed == state.seed,
        opt.tag is Some ==> r.0.tag == opt.tag,
{
    let sol: &String = match &opt.solution {
        Some(x) => x,
        None => {
            proof {
                assert(false);
            }
            &opt.phrases_of_power[0]
        },
    };
    let cmds = crate::codec::string_to_commands(sol.as_str());
    let s = state.apply_sequence(cmds.as_slice());
    (
        Solution {
            problemId: input.id,
            seed: state.seed,
            tag: tag_for(Solver::Supplied, opt),
            solution: sol.clone(),
        },
        s.score,
    )
}

/// The randomized local search: keep a best command string; each round, cut
/// it at a random point, replay the prefix, extend randomly, and adopt the
/// result when its total score — replay score plus phrase bonus — improves
/// on the best. The loop polls the clock at an adaptively chosen interval.
/// One round of the randomized local search: cut the best string at a random
/// point, replay the prefix, extend randomly, and price the outcome — the
/// replay score plus the phrase bonus — when it is worth anything.
#[verifier::rlimit(60)]
fn mc_candidate(
    rng: &mut Random,
    state: &State,
    moves: &Vec<String>,
    seqs: &Vec<Vec<Command>>,
    best_cmds: &String,
    opt: &SolverOptions,
) -> (r: Option<(String, i32)>)
    requires
        model::state_wf(state@),
        options_wf(opt),
        options_match(moves@, seqs@),
        valid_cmd_str(best_cmds@),
    ensures
        match r {
            Some(p) => {
                &&& valid_cmd_str(p.0@)
                &&& replayed(state@, p.0@).score > 0
                &&& p.1 as int == replayed(state@, p.0@).score + pop_score(
                    p.0@,
                    opt.phrases_of_power@,
                )
            },
            None => true,
        },
{
    let ghost sv = state@;
    let blen = best_cmds.as_str().unicode_len();
    let split_point: usize = if blen > 0 {
        rng.random() % blen
    } else {
        0
    };
    proof {
        crate::codec::lemma_valid_ascii(best_cmds@);
    }
    let start_str = best_cmds.as_str().substring_ascii(0, split_point);
    proof {
        assert forall|ii: int| 0 <= ii < start_str@.len() implies crate::codec::decode_char(
            #[trigger] start_str@[ii],
        ) is Some || crate::codec::is_skipped(start_str@[ii]) by {
            assert(start_str@[ii] == best_cmds@[ii]);
        }
    }
    let start_cmds = crate::codec::string_to_commands(start_str);
    let mid_state = score_commands(&start_cmds, state);
    let (ext, new_s) = rng.many_commands(&mid_state, moves.as_slice(), seqs.as_slice(), 10000);
    let mut full = String::from_str(start_str);
    let ghost start_view = start_str@;
    full.append(ext.as_str());
    proof {
        crate::codec::lemma_decode_concat(start_view, ext@);
        model::lemma_apply_seq_concat(sv, decode_str(start_view), decode_str(ext@));
        assert(new_s@ == replayed(sv, full@));
        assert forall|ii: int| 0 <= ii < full@.len() implies crate::codec::decode_char(
            #[trigger] full@[ii],
        ) is Some || crate::codec::is_skipped(full@[ii]) by {
            if ii < start_view.len() {
                assert(full@[ii] == start_view[ii]);
            } else {
                assert(full@[ii] == ext@[ii - start_view.len()]);
            }
        }
    }
    if new_s.score > 0 {
        let flen = full.as_str().unicode_len();
        if flen <= 1_000_000_000 {
            let pop = crate::codec::score_pop(full.as_str(), &opt.phrases_of_power);
            let tot: i64 = new_s.score as i64 + pop;
            if tot <= i32::MAX as i64 {
                return Some((full, tot as i32));
            }
        }
    }
    None
}

#[verifier::rlimit(100)]
fn solve_mc(state: &State, input: &Input, opt: &SolverOptions) -> (r: (Solution, Score))
    requires
        model::state_wf(state@),
        options_wf(opt),
    ensures
        mc_result_ok(state@, opt.phrases_of_power@, r.0.solution@, r.1 as int),
        r.0.problemId == input.id,
        r.0.seed == state.seed,
        opt.tag is Some ==> r.0.tag == opt.tag,
{
    let ghost sv = state@;
    let ghost phrases = opt.phrases_of_power@;
    let mut rng = Random::new(5);
    let (moves, seqs) = solver_moves(opt);
    let mut best_cmds = String::new();
    let mut best_score: i32 = state.score;
    proof {
        assert(decode_str(Seq::<char>::empty()) == Seq::<Command>::empty());
        assert(forall|i: int| 0 <= i < phrases.len() ==> (#[trigger] phrases[i])@.len() >= 1);
        crate::codec::lemma_pop_score_empty(phrases);
        assert(replayed(sv, best_cmds@) == sv);
    }
    let otl = opt.time_left_ms();
    let original_time_left: i64 = if otl < 0 {
        0
    } else {
        otl
    };
    let mut iters_per_time_check: u64 = 100;
    let time_per_check_goal: i64 = if original_time_left < 2000 {
        original_time_left / 20
    } else {
        500
    };
    let mut iters: u64 = 1;
    while iters < 1_000_000_000
        invariant
            valid_cmd_str(best_cmds@),
            0 <= best_score,
            best_score >= sv.score,
            best_score as int == replayed(sv, best_cmds@).score + if replayed(
                sv,
                best_cmds@,
            ).score > 0 {
                pop_score(best_cmds@, phrases)
            } else {
                0int
            },
            1 <= iters,
            1 <= iters_per_time_check,
            0 <= time_per_check_goal <= 500,
            options_match(moves@, seqs@),
            phrases == opt.phrases_of_power@,
            model::state_wf(sv),
            opt.time_limit_ms <= 0x4000_0000_0000_0000,
        decreases 1_000_000_000 - iters,
    {
        let cand = mc_candidate(&mut rng, state, &moves, &seqs, &best_cmds, opt);
        match cand {
            Some((full, cs)) => {
                if cs > best_score {
                    best_cmds = full;
                    best_score = cs;
                }
            },
            None => {},
        }
        if iters % iters_per_time_check == 0 {
            let current_time_left = opt.time_left_ms();
            if current_time_left < 3 * time_per_check_goal {
                return (
                    Solution {
                        problemId: input.id,
                        seed: state.seed,
                        tag: tag_for(Solver::MonteCarlo, opt),
                        solution: best_cmds,
                    },
                    best_score,
                );
            }
            let spent = original_time_left - current_time_left;
            let tpi: i64 = if spent > 0 {
                spent / (iters as i64)
            } else {
                0
            };
            iters_per_time_check = if tpi > 0 {
                let q = time_per_check_goal / tpi;
                if q < 1 {
                    1
                } else {
                    q as u64
                }
            } else {
                1_000_000
            };
        }
        iters = iters + 1;
    }
    (
        Solution {
            problemId: input.id,
            seed: state.seed,
            tag: tag_for(Solver::MonteCarlo, opt),
            solution: best_cmds,
        },
        best_score,
    )
}

/// The greedy bottom-up placement driven by the randomized walk: enumerate
/// resting positions, try each with the random path finder, and lock in the
/// first that works.
fn solve_bottomup(state: &State, input: &Input, opt: &SolverOptions) -> (r: (Solution, Score))
    requires
        model::state_wf(state@),
        options_wf(opt),
    ensures
        deterministic_result_ok(state@, r.0.solution@, r.1 as int),
        r.0.problemId == input.id,
        r.0.seed == state.seed,
        opt.tag is Some ==> r.0.tag == opt.tag,
{
    let ghost sv = state@;
    let mut solution = String::new();
    let mut s = state.duplicate();
    let mut rng = Random::new(3);
    let (moves, seqs) = solver_moves(opt);
    proof {
        assert(decode_str(Seq::<char>::empty()) == Seq::<Command>::empty());
    }
    let mut fuel: u64 = 0x100_0000;
    while !s.game_over
        invariant
            valid_cmd_str(solution@),
            s@ == replayed(sv, solution@),
            model::state_wf(s@),
            options_match(moves@, seqs@),
        decreases fuel,
    {
        if fuel == 0 {
            break;
        }
        fuel = fuel - 1;
        let positions = enumerate_resting_positions(&s);
        if positions.len() == 0 {
            break;
        }
        for pi in 0..positions.len()
            invariant
                valid_cmd_str(solution@),
                s@ == replayed(sv, solution@),
                model::state_wf(s@),
                options_match(moves@, seqs@),
                !s@.game_over,
                s@.units.len() > 0,
                forall|k: int|
                    0 <= k < positions@.len() ==> crate::search::resting_ok(
                        s@,
                        (#[trigger] positions@[k])@,
                    ),
        {
            proof {
                assert(crate::search::resting_ok(s@, positions@[pi as int]@));
            }
            let path = rng.find_path(&s, &positions[pi], moves.as_slice(), seqs.as_slice());
            match path {
                None => {},
                Some((more_cmds, _found)) => {
                    let more_vec = crate::codec::string_to_commands(more_cmds.as_str());
                    let snew = s.apply_sequence(more_vec.as_slice());
                    let ghost prev_sol = solution@;
                    solution.append(more_cmds.as_str());
                    proof {
                        crate::codec::lemma_decode_concat(prev_sol, more_cmds@);
                        model::lemma_apply_seq_concat(
                            sv,
                            decode_str(prev_sol),
                            decode_str(more_cmds@),
                        );
                        assert forall|ii: int|
                            0 <= ii < solution@.len() implies crate::codec::decode_char(
                            #[trigger] solution@[ii],
                        ) is Some || crate::codec::is_skipped(solution@[ii]) by {
                            if ii < prev_sol.len() {
                                assert(solution@[ii] == prev_sol[ii]);
                            } else {
                                assert(solution@[ii] == more_cmds@[ii - prev_sol.len()]);
                            }
                        }
                    }
                    s = snew;
                    break ;
                },
            }
        }
    }
    (
        Solution {
            problemId: input.id,
            seed: state.seed,
            tag: tag_for(Solver::BottomUp, opt),
            solution,
        },
        s.score,
    )
}

/// Scaled-down options for one path search inside the greedy strategy.
fn options_with_limit(opt: &SolverOptions, limit_ms: u64) -> (o: SolverOptions)
    requires
        options_wf(opt),
        limit_ms <= 0x4000_0000_0000_0000,
    ensures
        options_wf(&o),
        o.phrases_of_power@.len() == opt.phrases_of_power@.len(),
        forall|i: int|
            0 <= i < o.phrases_of_power@.len() ==> #[trigger] o.phrases_of_power@[i]@
                == opt.phrases_of_power@[i]@,
{
    SolverOptions {
        time_limit_ms: limit_ms,
        started: opt.started,
        phrases_of_power: clone_strings(&opt.phrases_of_power),
        tag: None,
        solution: None,
    }
}

/// The greedy bottom-up placement driven by the backtracking path search:
/// for each candidate resting position, first confirm reachability without
/// bonus phrases, then search again with them; each piece gets a shrinking
/// slice of the remaining time.
#[verifier::rlimit(100)]
fn solve_bottomupdfs(state: &State, input: &Input, opt: &SolverOptions) -> (r: (Solution, Score))
    requires
        model::state_wf(state@),
        options_wf(opt),
    ensures
        dfs_result_ok(state@, opt.phrases_of_power@, r.0.solution@, r.1 as int),
        r.0.problemId == input.id,
        r.0.seed == state.seed,
        opt.tag is Some ==> r.0.tag == opt.tag,
{
    let ghost sv = state@;
    let ghost phrases = opt.phrases_of_power@;
    let mut solution = String::new();
    let mut s = state.duplicate();
    proof {
        assert(decode_str(Seq::<char>::empty()) == Seq::<Command>::empty());
        reveal_strlit("l");
    }
    let left0 = opt.time_left_ms();
    let left_pos: i64 = if left0 < 0 {
        0
    } else {
        left0
    };
    let denom: i64 = if s.unit_sequence.len() > 0x1000_0000 {
        0x1000_0000
    } else {
        s.unit_sequence.len() as i64 + 2
    };
    let time_per_piece: i64 = left_pos / denom;
    let mut fuel: u64 = 0x100_0000;
    let mut stop_all = false;
    while !s.game_over && !stop_all
        invariant
            valid_cmd_str(solution@),
            s@ == replayed(sv, solution@),
            model::state_wf(s@),
            0 <= time_per_piece <= 0x4000_0000_0000_0000,
            opt.time_limit_ms <= 0x4000_0000_0000_0000,
            options_wf(opt),
            phrases == opt.phrases_of_power@,
        decreases fuel,
    {
        if fuel == 0 {
            break;
        }
        fuel = fuel - 1;
        let positions = enumerate_resting_positions(&s);
        if positions.len() == 0 {
            break;
        }
        let empty_pop: Vec<String> = Vec::new();
        for pi in 0..positions.len()
            invariant
                valid_cmd_str(solution@),
                s@ == replayed(sv, solution@),
                model::state_wf(s@),
                !s@.game_over,
                s@.units.len() > 0,
                0 <= time_per_piece <= 0x4000_0000_0000_0000,
                opt.time_limit_ms <= 0x4000_0000_0000_0000,
                options_wf(opt),
                phrases == opt.phrases_of_power@,
                empty_pop@.len() == 0,
                forall|k: int|
                    0 <= k < positions@.len() ==> crate::search::resting_ok(
                        s@,
                        (#[trigger] positions@[k])@,
                    ),
        {
            if opt.time_left_ms() < 0 {
                break ;
            }
            let pieces_left: i64 = if s.unit_sequence.len() > 0x1000_0000 {
                0x1000_0000
            } else {
                s.unit_sequence.len() as i64
            };
            proof {
                assert((pieces_left as int * 10 + 3) * (time_per_piece as int)
                    <= 0x1_0000_0000int * 0x4000_0000_0000_0000int && 0 <= (pieces_left as int * 10
                    + 3) * (time_per_piece as int)) by (nonlinear_arith)
                    requires
                        0 <= pieces_left as int <= 0x1000_0000,
                        0 <= time_per_piece as int <= 0x4000_0000_0000_0000,
                ;
            }
            let reserve1: i128 = (pieces_left as i128 * 10 + 3) * (time_per_piece as i128) / 10;
            let lim1: i128 = opt.time_limit_ms as i128 - reserve1;
            let limit1: u64 = if lim1 < 0 {
                0
            } else if lim1 > 0x4000_0000_0000_0000 {
                0x4000_0000_0000_0000
            } else {
                lim1 as u64
            };
            let o1 = options_with_limit(opt, limit1);
            proof {
                assert(crate::search::resting_ok(s@, positions@[pi as int]@));
                assert(live(s@));
            }
            let probe = find_path_dfs(&s, &positions[pi], empty_pop.as_slice(), &o1);
            let mut advanced = false;
            match probe {
                None => {},
                Some(_) => {
                    proof {
                        assert((pieces_left as int) * (time_per_piece as int) <= 0x1_0000_0000int
                            * 0x4000_0000_0000_0000int && 0 <= (pieces_left as int) * (
                        time_per_piece as int)) by (nonlinear_arith)
                            requires
                                0 <= pieces_left as int <= 0x1000_0000,
                                0 <= time_per_piece as int <= 0x4000_0000_0000_0000,
                        ;
                    }
                    let reserve2: i128 = (pieces_left as i128) * (time_per_piece as i128);
                    let lim2: i128 = opt.time_limit_ms as i128 - reserve2;
                    let limit2: u64 = if lim2 < 0 {
                        0
                    } else if lim2 > 0x4000_0000_0000_0000 {
                        0x4000_0000_0000_0000
                    } else {
                        lim2 as u64
                    };
                    let o2 = options_with_limit(opt, limit2);
                    proof {
                        assert forall|k: int|
                            0 <= k < opt.phrases_of_power@.len() implies phrase_ok(
                            (#[trigger] opt.phrases_of_power@[k])@,
                        ) by {}
                    }
                    let deep = find_path_dfs(
                        &s,
                        &positions[pi],
                        opt.phrases_of_power.as_slice(),
                        &o2,
                    );
                    match deep {
                        None => {},
                        Some((more_cmds0, _found)) => {
                            let mut more_cmds = more_cmds0;
                            more_cmds.append("l");
                            proof {
                                assert("l"@ =~= seq!['l']);
                                assert forall|ii: int|
                                    0 <= ii < more_cmds@.len() implies crate::codec::decode_char(
                                    #[trigger] more_cmds@[ii],
                                ) is Some || crate::codec::is_skipped(more_cmds@[ii]) by {}
                            }
                            let more_vec = crate::codec::string_to_commands(more_cmds.as_str());
                            let snew = s.apply_sequence(more_vec.as_slice());
                            let ghost prev_sol = solution@;
                            solution.append(more_cmds.as_str());
                            proof {
                                crate::codec::lemma_decode_concat(prev_sol, more_cmds@);
                                model::lemma_apply_seq_concat(
                                    sv,
                                    decode_str(prev_sol),
                                    decode_str(more_cmds@),
                                );
                                assert forall|ii: int|
                                    0 <= ii < solution@.len() implies crate::codec::decode_char(
                                    #[trigger] solution@[ii],
                                ) is Some || crate::codec::is_skipped(solution@[ii]) by {
                                    if ii < prev_sol.len() {
                                        assert(solution@[ii] == prev_sol[ii]);
                                    } else {
                                        assert(solution@[ii] == more_cmds@[ii - prev_sol.len()]);
                                    }
                                }
                            }
                            s = snew;
                            advanced = true;
                        },
                    }
                },
            }
            if opt.time_left_ms() < 1000 {
                stop_all = true;
                break ;
            }
            if advanced {
                break ;
            }
        }
    }
    let n = solution.as_str().unicode_len();
    let score: i32 = if n <= 1_000_000_000 {
        let pop = crate::codec::score_pop(solution.as_str(), &opt.phrases_of_power);
        let tot: i64 = s.score as i64 + pop;
        if tot > i32::MAX as i64 {
            i32::MAX
        } else {
            tot as i32
        }
    } else {
        s.score
    };
    (
        Solution {
            problemId: input.id,
            seed: state.seed,
            tag: tag_for(Solver::BottomUpDfs, opt),
            solution,
        },
        score,
    )
}

impl Solver {
    /// Run this strategy on one game: the command string found and the score
    /// replaying it earns (with the phrase bonus where the strategy counts
    /// it).
    pub fn solve(&self, state: &State, input: &Input, opt: &SolverOptions) -> (r: (Solution, Score))
        requires
            model::state_wf(state@),
            options_wf(opt),
            *self != Solver::LookAhead,
            *self == Solver::Supplied ==> opt.solution is Some && crate::codec::strict_cmd_str(
                opt.solution.unwrap()@,
            ),
        ensures
            solve_result_ok(*self, state@, opt.phrases_of_power@, r.0.solution@, r.1 as int),
            *self == Solver::Supplied ==> r.0.solution@ == opt.solution.unwrap()@,
            r.0.problemId == input.id,
            r.0.seed == state.seed,
            opt.tag is Some ==> r.0.tag == opt.tag,
    {
        match *self {
            Solver::AllDown => solve_alldown(state, input, opt),
            Solver::SolverSE => solve_se(state, input, opt),
            Solver::MonteCarlo => solve_mc(state, input, opt),
            Solver::Supplied => solve_supplied(state, input, opt),
            Solver::BottomUp => solve_bottomup(state, input, opt),
            Solver::BottomUpDfs => solve_bottomupdfs(state, input, opt),
            Solver::LookAhead => {
                proof {
                    assert(false);
                }
                solve_alldown(state, input, opt)
            },
        }
    }

    /// Run this strategy over a batch of games, giving each a proportional
    /// share of the remaining time so early games do not starve later ones.
    pub fn solve_n(&self, args: &[(State, Input, SolverOptions)]) -> (r: Vec<(Solution, Score)>)
        requires
            *self != Solver::LookAhead,
            forall|i: int|
                0 <= i < args@.len() ==> {
                    let a = #[trigger] args@[i];
                    model::state_wf(a.0@) && options_wf(&a.2) && (*self == Solver::Supplied
                        ==> a.2.solution is Some && crate::codec::strict_cmd_str(
                        a.2.solution.unwrap()@,
                    ))
                },
        ensures
            r@.len() == args@.len(),
            forall|i: int|
                0 <= i < r@.len() ==> {
                    let a = #[trigger] args@[i];
                    let p = r@[i];
                    solve_result_ok(*self, a.0@, a.2.phrases_of_power@, p.0.solution@, p.1 as int)
                        && p.0.problemId == a.1.id && p.0.seed == a.0.seed && (*self
                        == Solver::Supplied ==> p.0.solution@ == a.2.solution.unwrap()@)
                },
    {
        let nargs = args.len();
        let mut solutions: Vec<(Solution, Score)> = Vec::new();
        // Half a second of buffer for the reporting around the solving.
        for i in 0..nargs
            invariant
                nargs == args@.len(),
                solutions@.len() == i,
                forall|j: int|
                    0 <= j < i ==> {
                        let a = #[trigger] args@[j];
                        let p = solutions@[j];
                        solve_result_ok(
                            *self,
                            a.0@,
                            a.2.phrases_of_power@,
                            p.0.solution@,
                            p.1 as int,
                        ) && p.0.problemId == a.1.id && p.0.seed == a.0.seed && (*self
                            == Solver::Supplied ==> p.0.solution@ == a.2.solution.unwrap()@)
                    },
        {
            let arg = vstd::slice::slice_index_get(args, i);
            let base = arg.2.time_limit_ms;
            let usable: u64 = if base > 500 {
                base - 500
            } else {
                0
            };
            proof {
                assert((i as int + 1) * (usable as int) <= 0x2_0000_0000_0000_0000int
                    * 0x4000_0000_0000_0000int && 0 <= (i as int + 1) * (usable as int))
                    by (nonlinear_arith)
                    requires
                        0 <= i as int <= 0x1_0000_0000_0000_0000int,
                        0 <= usable as int <= 0x4000_0000_0000_0000int,
                ;
            }
            let scaled_wide: u128 = (i as u128 + 1) * (usable as u128) / (nargs as u128);
            let scaled: u64 = if scaled_wide > 0x4000_0000_0000_0000 {
                0x4000_0000_0000_0000
            } else {
                scaled_wide as u64
            };
            let opts = SolverOptions {
                time_limit_ms: scaled,
                started: arg.2.started,
                phrases_of_power: clone_strings(&arg.2.phrases_of_power),
                tag: match &arg.2.tag {
                    Some(t) => Some(t.clone()),
                    None => None,
                },
                solution: match &arg.2.solution {
                    Some(t) => Some(t.clone()),
                    None => None,
                },
            };
            proof {
                assert(opts.phrases_of_power@.len() == arg.2.phrases_of_power@.len());
                assert forall|k: int|
                    0 <= k < opts.phrases_of_power@.len() implies phrase_ok(
                    (#[trigger] opts.phrases_of_power@[k])@,
                ) by {
                    assert(opts.phrases_of_power@[k]@ == arg.2.phrases_of_power@[k]@);
                    assert(phrase_ok(arg.2.phrases_of_power@[k]@));
                }
            }
            proof {
                if *self == Solver::Supplied {
                    assert(opts.solution.unwrap()@ == arg.2.solution.unwrap()@);
                }
            }
            let (sol, sc) = self.solve(&arg.0, &arg.1, &opts);
            proof {
                crate::codec::lemma_pop_score_views(
                    sol.solution@,
                    opts.phrases_of_power@,
                    arg.2.phrases_of_power@,
                );
            }
            solutions.push((sol, sc));
        }
        solutions
    }
}

} // verus!
