use vstd::prelude::*;

use crate::assignment::{assigned_kept, fixed_kept, level_fits, lit_value, trail_wf, var_on_removed, var_on_trail_before, Assignment, VarData};
use crate::clause::{lits_in_range, Clause};
use crate::clause_allocator::ClauseAllocator;
use crate::clause_database::{arena_wf, kept_learnts, refs_in, removable, shrunk, simplified, ClauseDatabase};
use crate::cref::ClauseRef;
use crate::cube::{
    cube_at, cube_lits, lemma_cube_at_len, cube_lits_spec, cube_value, increment_cube, lemma_cube_at_prefix, lemma_cube_at_value, lemma_cube_value_all_false,
    lemma_cube_value_all_true, lemma_cube_value_bound, lemma_cube_value_next, lemma_cube_value_ones_then_zeros, lemma_cube_value_step,
    lemma_two_pow_30, lemma_two_pow_63, lemma_two_pow_mono, two_pow,
};
use crate::idx::idx_heap::lemma_swap_to_multiset;
use crate::idx::IdxVec;
use crate::lbool::{lbool_of, LBool};
use crate::lit::{abs_i32, external_code, lit_code, Lit};
use crate::trie::{follow, lemma_follow_zero_extends, Trie};
use crate::var::Var;
use crate::watch::{WatchList, Watcher};

verus! {

broadcast use crate::var::lemma_var_from_index_view, crate::lit::Lit::lemma_negate_spec, crate::lit::Lit::lemma_from_code_view;

/// What a step of the search decided (see [`Solver::search_propagate`],
/// [`Solver::search_assume`] and [`Solver::search_branch`]).
#[derive(Debug)]
pub enum SearchStep {
    /// Go on with the next step.
    Continue,
    /// A conflict at level 0: the formula has no model.
    Unsat,
    /// The conflict budget is spent: the search went back to level 0.
    Restart,
    /// Every assumption holds: a branching variable is needed.
    Branch,
    /// Every variable is assigned without conflict.
    Sat,
    /// An assumption is false: the clause, which starts with its negation, follows from the
    /// formula.
    AssumptionsConflict(Vec<Lit>),
}

/// The outcome of solving.
#[derive(Debug, Copy, Clone, Eq, PartialEq, Structural)]
pub enum SolveResult {
    Sat,
    Unsat,
    Unknown,
}

impl SolveResult {
    /// The name of the outcome: `SAT`, `UNSAT` or `UNKNOWN`.
    pub fn as_str(self) -> (res: &'static str)
        ensures
            self == SolveResult::Sat ==> res@ == "SAT"@,
            self == SolveResult::Unsat ==> res@ == "UNSAT"@,
            self == SolveResult::Unknown ==> res@ == "UNKNOWN"@,
    {
        match self {
            SolveResult::Sat => "SAT",
            SolveResult::Unsat => "UNSAT",
            SolveResult::Unknown => "UNKNOWN",
        }
    }
}

/// A change that the branching and clause-activity heuristics must learn about, in the
/// order in which the solver made it.
#[derive(Debug, Copy, Clone, Eq, PartialEq, Structural)]
pub enum ActivityEvent {
    /// A variable was created (activity 0, enters the decision order).
    NewVar(Var),
    /// A variable took part in a conflict (its activity is bumped).
    BumpVar(Var),
    /// A clause took part in a conflict or was learnt (its activity is bumped if learnt).
    BumpClause(ClauseRef),
    /// A conflict was handled (activities decay, the learnt-size limit advances).
    Decay,
    /// A variable was unassigned and must be back in the decision order.
    InsertVar(Var),
}

/// Whether the reason of trail position `i` is sound: its clause starts with the trail
/// literal and all its other literals are false and assigned earlier.
pub open spec fn reason_ok(ca: Seq<Clause>, values: Seq<LBool>, data: Seq<VarData>, trail: Seq<Lit>, i: int) -> bool {
    match data[trail[i].var()@ as int].reason_spec() {
        None => true,
        Some(c) => {
            &&& c@ < ca.len()
            &&& ca[c@ as int]@[0] == trail[i]
            &&& forall|k: int|
                1 <= k < ca[c@ as int]@.len() ==> lit_value(values, #[trigger] ca[c@ as int]@[k]) == LBool::False
                    && var_on_trail_before(trail, ca[c@ as int]@[k].var()@, i)
        },
    }
}

/// Every trail position has a sound reason.
pub open spec fn reasons_ok(ca: Seq<Clause>, values: Seq<LBool>, data: Seq<VarData>, trail: Seq<Lit>) -> bool {
    forall|i: int| 0 <= i < trail.len() ==> #[trigger] reason_ok(ca, values, data, trail, i)
}

/// Every literal assigned without a reason above level 0 is the first literal of its level.
pub open spec fn decisions_ok(data: Seq<VarData>, trail: Seq<Lit>, lim: Seq<usize>) -> bool {
    forall|i: int|
        0 <= i < trail.len() && (#[trigger] data[trail[i].var()@ as int]).reason_spec() is None
            && data[trail[i].var()@ as int].level_spec() > 0 ==> i == lim[data[trail[i].var()@ as int].level_spec() - 1]
}

/// Propagation never lags behind the start of the current decision level.
pub open spec fn qhead_ok(lim: Seq<usize>, qhead: nat) -> bool {
    lim.len() > 0 ==> lim[lim.len() - 1] <= qhead
}

/// Every watch refers to an existing clause and has an in-range blocker.
pub open spec fn watches_ok(lists: Seq<Seq<Watcher>>, ca_len: nat, n: nat) -> bool {
    forall|l: int, k: int| 0 <= l < lists.len() && 0 <= k < lists[l].len() ==> watch_ok(#[trigger] lists[l][k], ca_len, n)
}

/// The watch refers to an existing clause and has an in-range blocker.
pub open spec fn watch_ok(w: Watcher, ca_len: nat, n: nat) -> bool {
    w.cref_spec()@ < ca_len && w.blocker_spec().var()@ < n
}

/// Number of watches of `ws` on clause `c`.
pub open spec fn watch_count(ws: Seq<Watcher>, c: int) -> nat
    decreases ws.len(),
{
    if ws.len() == 0 {
        0
    } else {
        watch_count(ws.drop_last(), c) + if ws.last().cref_spec()@ == c {
            1nat
        } else {
            0nat
        }
    }
}

/// Number of watches that a clause with literals `cl` needs in the list of literal code `l`:
/// one for each of its first two literals equal to it.
pub open spec fn watch_need(cl: Seq<Lit>, l: int) -> nat {
    (if cl[0]@ == l {
        1nat
    } else {
        0nat
    }) + (if cl[1]@ == l {
        1nat
    } else {
        0nat
    })
}

/// Whether clause `c` has the watches it needs on its first two literals.
pub open spec fn clause_watched(ca: Seq<Clause>, lists: Seq<Seq<Watcher>>, c: int) -> bool {
    &&& watch_count(lists[ca[c]@[0]@ as int], c) >= watch_need(ca[c]@, ca[c]@[0]@ as int)
    &&& watch_count(lists[ca[c]@[1]@ as int], c) >= watch_need(ca[c]@, ca[c]@[1]@ as int)
}

/// Every clause that is not deleted, except possibly clause `x`, is watched on its first
/// two literals.
pub open spec fn clauses_watched_except(ca: Seq<Clause>, lists: Seq<Seq<Watcher>>, x: int) -> bool {
    forall|c: int| 0 <= c < ca.len() && c != x && !(#[trigger] ca[c]).deleted_spec() ==> clause_watched(ca, lists, c)
}

/// Whether some literal of `cl` is true and was assigned at a level at most `lvl`.
pub open spec fn satisfied_by_level(cl: Seq<Lit>, values: Seq<LBool>, data: Seq<VarData>, lvl: nat) -> bool {
    exists|j: int|
        0 <= j < cl.len() && lit_value(values, #[trigger] cl[j]) == LBool::True && data[cl[j].var()@ as int].level_spec() <= lvl
}

/// Propagation is complete up to trail position `p`: every clause that is not deleted and
/// has one of its first two literals false, by one of the first `p` trail literals, has a
/// true literal assigned at a level at most that literal's level.
pub open spec fn watches_complete(ca: Seq<Clause>, values: Seq<LBool>, data: Seq<VarData>, trail: Seq<Lit>, p: int) -> bool {
    forall|c: int, k: int|
        0 <= c < ca.len() && 0 <= k < 2 && !ca[c].deleted_spec() && lit_value(values, #[trigger] ca[c]@[k]) == LBool::False
            && var_on_trail_before(trail, ca[c]@[k].var()@, p) ==> satisfied_by_level(
            ca[c]@,
            values,
            data,
            data[ca[c]@[k].var()@ as int].level_spec(),
        )
}

/// The assignment `a` is closed under unit propagation over the clauses of `ca` that are not
/// deleted: a literal of such a clause whose other literals (as a multiset) are all false is
/// true, so no such clause is false.
#[verifier::opaque]
pub open spec fn up_closed(ca: Seq<Clause>, a: Seq<LBool>) -> bool {
    forall|c: int, l: Lit|
        0 <= c < ca.len() && !ca[c].deleted_spec() && #[trigger] ca[c]@.to_multiset().count(l) > 0 && (forall|l2: Lit|
            #[trigger] ca[c]@.to_multiset().remove(l).count(l2) > 0 ==> lit_value(a, l2) == LBool::False) ==> lit_value(a, l)
            == LBool::True
}

/// The clauses of `b` are those of `a`, each with the same literals (maybe reordered) and
/// the same deleted mark.
pub open spec fn same_clauses(a: Seq<Clause>, b: Seq<Clause>) -> bool {
    &&& a.len() == b.len()
    &&& forall|c: int|
        0 <= c < a.len() ==> (#[trigger] b[c]).deleted_spec() == a[c].deleted_spec() && b[c]@.to_multiset() == a[c]@.to_multiset()
}

/// Unit propagation of `units` over the clauses of `ca` reaches no conflict: an assignment of
/// `n` variables closed under it makes every unit true.
pub open spec fn up_consistent(ca: Seq<Clause>, units: Seq<Lit>, n: nat) -> bool {
    exists|a: Seq<LBool>|
        a.len() == n && #[trigger] up_closed(ca, a) && forall|i: int| 0 <= i < units.len() ==> lit_value(a, #[trigger] units[i]) == LBool::True
}

/// Literal `l` is true in every assignment of `n` variables that is closed under unit
/// propagation over the clauses of `ca` and makes every unit true: unit propagation of
/// `units` derives it (or conflicts).
pub open spec fn up_forced(ca: Seq<Clause>, units: Seq<Lit>, n: nat, l: Lit) -> bool {
    forall|a: Seq<LBool>|
        a.len() == n && #[trigger] up_closed(ca, a) && (forall|i: int| 0 <= i < units.len() ==> lit_value(a, #[trigger] units[i]) == LBool::True)
            ==> lit_value(a, l) == LBool::True
}

/// `ls` holds, once each, exactly the literals of variables below `n` that unit propagation
/// of `units` over the clauses of `ca` forces and that `values` leaves unassigned.
pub open spec fn forced_unassigned(ls: Seq<Lit>, ca: Seq<Clause>, units: Seq<Lit>, n: nat, values: Seq<LBool>) -> bool {
    &&& ls.no_duplicates()
    &&& forall|l: Lit|
        #![trigger ls.contains(l)]
        #![trigger up_forced(ca, units, n, l)]
        ls.contains(l) <==> (l.var()@ < n && lit_value(values, l) == LBool::Undef && up_forced(ca, units, n, l))
}

/// Some literal of a variable below `n` is forced by unit propagation of `units` over `ca`
/// and left unassigned by `values`.
pub open spec fn some_forced_unassigned(ca: Seq<Clause>, units: Seq<Lit>, n: nat, values: Seq<LBool>) -> bool {
    exists|l: Lit| l.var()@ < n && lit_value(values, l) == LBool::Undef && #[trigger] up_forced(ca, units, n, l)
}

/// While the watches of `fl` are gone through: every clause (not deleted) watching `fl` is
/// satisfied at a level at most `lvl` or has a watch among `pending`, and every clause with a
/// watch among `kept` no longer watches `fl` or is satisfied so.
pub open spec fn fl_handled(
    ca: Seq<Clause>,
    values: Seq<LBool>,
    data: Seq<VarData>,
    lvl: nat,
    fl: Lit,
    kept: Seq<Watcher>,
    pending: Seq<Watcher>,
) -> bool {
    &&& forall|c: int, k: int|
        0 <= c < ca.len() && 0 <= k < 2 && !ca[c].deleted_spec() && #[trigger] ca[c]@[k] == fl ==> satisfied_by_level(
            ca[c]@,
            values,
            data,
            lvl,
        ) || watch_count(pending, c) > 0
    &&& forall|j: int|
        0 <= j < kept.len() && !ca[(#[trigger] kept[j]).cref_spec()@ as int].deleted_spec() ==> (ca[kept[j].cref_spec()@ as int]@[0]
            != fl && ca[kept[j].cref_spec()@ as int]@[1] != fl) || satisfied_by_level(
            ca[kept[j].cref_spec()@ as int]@,
            values,
            data,
            lvl,
        )
}

/// Whether the blocker of watch `w` is a literal of its clause or is fixed to false (or the
/// clause is deleted).
pub open spec fn blocker_ok(ca: Seq<Clause>, w: Watcher, values: Seq<LBool>, data: Seq<VarData>) -> bool {
    !ca[w.cref_spec()@ as int].deleted_spec() ==> ca[w.cref_spec()@ as int]@.contains(w.blocker_spec()) || (lit_value(
        values,
        w.blocker_spec(),
    ) == LBool::False && data[w.blocker_spec().var()@ as int].level_spec() == 0)
}

/// Every watch has a sound blocker (see [`blocker_ok`]).
pub open spec fn blockers_ok(ca: Seq<Clause>, lists: Seq<Seq<Watcher>>, values: Seq<LBool>, data: Seq<VarData>) -> bool {
    forall|l: int, k: int| 0 <= l < lists.len() && 0 <= k < lists[l].len() ==> blocker_ok(ca, #[trigger] lists[l][k], values, data)
}

/// Every clause of `refs` is marked learnt exactly when `learnt` holds.
pub open spec fn refs_flag(refs: Seq<ClauseRef>, ca: Seq<Clause>, learnt: bool) -> bool {
    forall|k: int| 0 <= k < refs.len() ==> ca[(#[trigger] refs[k])@ as int].learnt_spec() == learnt
}

/// Whether some literal of `cl` is true and was assigned at level 0.
pub open spec fn fixed_true_in(cl: Seq<Lit>, values: Seq<LBool>, data: Seq<VarData>) -> bool {
    exists|j: int| 0 <= j < cl.len() && lit_value(values, #[trigger] cl[j]) == LBool::True && data[cl[j].var()@ as int].level_spec() == 0
}

/// Every deleted clause of `refs` has a literal fixed (at level 0) to true.
pub open spec fn deleted_satisfied(refs: Seq<ClauseRef>, ca: Seq<Clause>, values: Seq<LBool>, data: Seq<VarData>) -> bool {
    forall|k: int|
        0 <= k < refs.len() && ca[(#[trigger] refs[k])@ as int].deleted_spec() ==> fixed_true_in(ca[refs[k]@ as int]@, values, data)
}

/// Whether the total assignment `m` (variable index to value) makes `l` true.
pub open spec fn model_lit(m: spec_fn(int) -> bool, l: Lit) -> bool {
    m(l.var()@ as int) != l.negated()
}

/// Whether `m` makes some literal of `cl` true.
pub open spec fn model_clause(m: spec_fn(int) -> bool, cl: Seq<Lit>) -> bool {
    exists|j: int| 0 <= j < cl.len() && model_lit(m, #[trigger] cl[j])
}

/// Whether `m` satisfies every clause of `ca` (deleted or not) and every literal of `units`.
pub open spec fn model_of(m: spec_fn(int) -> bool, ca: Seq<Clause>, units: Seq<Lit>) -> bool {
    &&& forall|c: int| 0 <= c < ca.len() ==> model_clause(m, #[trigger] ca[c]@)
    &&& forall|i: int| 0 <= i < units.len() ==> model_lit(m, #[trigger] units[i])
}

/// The clause `cl` follows from the clauses `ca` and the unit literals `units`: every total
/// assignment satisfying them satisfies `cl`.
pub open spec fn implied(ca: Seq<Clause>, units: Seq<Lit>, cl: Seq<Lit>) -> bool {
    forall|m: spec_fn(int) -> bool| #[trigger] model_of(m, ca, units) ==> model_clause(m, cl)
}

/// Whether `m` satisfies every clause of the formula `f`.
pub open spec fn formula_model(m: spec_fn(int) -> bool, f: Seq<Seq<Lit>>) -> bool {
    forall|c: int| 0 <= c < f.len() ==> model_clause(m, #[trigger] f[c])
}

/// Every total assignment satisfying the formula `f` satisfies the clause `cl`.
pub open spec fn entails(f: Seq<Seq<Lit>>, cl: Seq<Lit>) -> bool {
    forall|m: spec_fn(int) -> bool| #[trigger] formula_model(m, f) ==> model_clause(m, cl)
}

/// Every total assignment satisfying the formula `f` makes `l` true.
pub open spec fn entails_lit(f: Seq<Seq<Lit>>, l: Lit) -> bool {
    forall|m: spec_fn(int) -> bool| #[trigger] formula_model(m, f) ==> model_lit(m, l)
}

/// No total assignment satisfies the formula `f`.
pub open spec fn unsatisfiable(f: Seq<Seq<Lit>>) -> bool {
    forall|m: spec_fn(int) -> bool| !#[trigger] formula_model(m, f)
}

/// Whether `m` satisfies the clauses of `ca` that `orig` refers to and makes true the first
/// `g` literals of `trail`.
pub open spec fn state_model(m: spec_fn(int) -> bool, ca: Seq<Clause>, orig: Seq<ClauseRef>, trail: Seq<Lit>, g: int) -> bool {
    &&& forall|k: int| 0 <= k < orig.len() ==> model_clause(m, #[trigger] ca[orig[k]@ as int]@)
    &&& forall|i: int| 0 <= i < g ==> model_lit(m, #[trigger] trail[i])
}

/// The clause `cl` follows from the clauses of `ca` that `orig` refers to and the first `g`
/// literals of `trail`.
pub open spec fn follows_from(ca: Seq<Clause>, orig: Seq<ClauseRef>, trail: Seq<Lit>, g: int, cl: Seq<Lit>) -> bool {
    forall|m: spec_fn(int) -> bool| #[trigger] state_model(m, ca, orig, trail, g) ==> model_clause(m, cl)
}

/// The total assignment that makes a variable true exactly when `values` does.
pub open spec fn value_model(values: Seq<LBool>) -> spec_fn(int) -> bool {
    |v: int| values[v] == LBool::True
}

/// How many of the sign vectors over `vars` writing a number below `k` give a cube that
/// has a model together with the formula `f`.
pub open spec fn num_sat_cubes(f: Seq<Seq<Lit>>, vars: Seq<Var>, k: nat) -> nat
    decreases k,
{
    if k == 0 {
        0
    } else {
        num_sat_cubes(f, vars, (k - 1) as nat) + (if unsatisfiable(
            with_units(f, cube_lits_spec(vars, cube_at(vars.len(), (k - 1) as nat))),
        ) {
            0nat
        } else {
            1nat
        })
    }
}

/// How many of the sign vectors over `vars` writing a number below `k` lie on a path of
/// `trie` and give a cube that has a model together with the formula `f`.
pub open spec fn num_sat_trie_cubes(f: Seq<Seq<Lit>>, vars: Seq<Var>, trie: &Trie, k: nat) -> nat
    decreases k,
{
    if k == 0 {
        0
    } else {
        let w = cube_at(vars.len(), (k - 1) as nat);
        num_sat_trie_cubes(f, vars, trie, (k - 1) as nat) + (if follow(trie.nodes_spec(), trie.root_spec(), w) != 0 && !unsatisfiable(
            with_units(f, cube_lits_spec(vars, w)),
        ) {
            1nat
        } else {
            0nat
        })
    }
}

/// How many of the sign vectors over `vars` writing a number below `k` give a cube whose unit
/// propagation, with `units`, over the clauses of `ca` reaches no conflict.
pub open spec fn num_up_cubes(ca: Seq<Clause>, units: Seq<Lit>, vars: Seq<Var>, n: nat, k: nat) -> nat
    decreases k,
{
    if k == 0 {
        0
    } else {
        num_up_cubes(ca, units, vars, n, (k - 1) as nat) + (if up_consistent(
            ca,
            units + cube_lits_spec(vars, cube_at(vars.len(), (k - 1) as nat)),
            n,
        ) {
            1nat
        } else {
            0nat
        })
    }
}

/// How many of the sign vectors over `vars` writing a number below `k` lie on a path of `trie`
/// and give a cube whose unit propagation, with `units`, over the clauses of `ca` reaches no
/// conflict.
pub open spec fn num_up_trie_cubes(ca: Seq<Clause>, units: Seq<Lit>, vars: Seq<Var>, n: nat, trie: &Trie, k: nat) -> nat
    decreases k,
{
    if k == 0 {
        0
    } else {
        let w = cube_at(vars.len(), (k - 1) as nat);
        num_up_trie_cubes(ca, units, vars, n, trie, (k - 1) as nat) + (if follow(trie.nodes_spec(), trie.root_spec(), w) != 0
            && up_consistent(ca, units + cube_lits_spec(vars, w), n) {
            1nat
        } else {
            0nat
        })
    }
}

/// The formula `f` with a unit clause for each literal of `lits`.
pub open spec fn with_units(f: Seq<Seq<Lit>>, lits: Seq<Lit>) -> Seq<Seq<Lit>> {
    f + lits.map_values(|l: Lit| seq![l])
}

/// The first `k` literals of `lits` are true, each assigned at a level at most its position
/// plus one.
spec fn cube_held(values: Seq<LBool>, data: Seq<VarData>, lits: Seq<Lit>, k: int) -> bool {
    forall|i: int|
        0 <= i < k ==> lits[i].var()@ < values.len() && lit_value(values, #[trigger] lits[i]) == LBool::True && data[lits[i].var()@ as int].level_spec()
            <= i + 1
}

/// Every literal assigned without a reason above level 0 is the literal of `lits` at its
/// level (level `l` holds `lits[l - 1]`).
spec fn decided_by(trail: Seq<Lit>, data: Seq<VarData>, lits: Seq<Lit>) -> bool {
    forall|p: int|
        0 <= p < trail.len() && (#[trigger] data[trail[p].var()@ as int]).reason_spec() is None && data[trail[p].var()@ as int].level_spec()
            > 0 ==> trail[p] == lits[data[trail[p].var()@ as int].level_spec() - 1]
}

/// Every decision level from `level` on starts with a literal of `lits`.
spec fn decisions_in(trail: Seq<Lit>, lim: Seq<usize>, level: int, lits: Seq<Lit>) -> bool {
    forall|j: int| level <= j < lim.len() ==> lim[j] < trail.len() && lits.contains(#[trigger] trail[lim[j] as int])
}

/// Every trail literal from position `from` on was assigned with a reason clause.
pub open spec fn reasons_from(data: Seq<VarData>, trail: Seq<Lit>, from: int) -> bool {
    forall|i: int| from <= i < trail.len() ==> (#[trigger] data[trail[i].var()@ as int]).reason_spec() is Some
}

/// Every trail literal from position `from` on has a reason that is a clause of `ca` not
/// deleted, or was decided above level 0.
#[verifier::opaque]
pub open spec fn live_reasons_from(ca: Seq<Clause>, data: Seq<VarData>, trail: Seq<Lit>, from: int) -> bool {
    forall|i: int|
        from <= i < trail.len() ==> match (#[trigger] data[trail[i].var()@ as int]).reason_spec() {
            Some(c) => c@ < ca.len() && !ca[c@ as int].deleted_spec(),
            None => data[trail[i].var()@ as int].level_spec() > 0,
        }
}

/// A CDCL SAT solver core: clauses, watches, assignment, phase saving and statistics.
/// The branching and clause-activity heuristics are kept outside; the solver reports
/// what they need as [`ActivityEvent`]s.
#[derive(Debug)]
pub struct Solver {
    ca: ClauseAllocator,
    db: ClauseDatabase,
    watchlist: WatchList,
    assignment: Assignment,
    polarity: IdxVec<Var, bool>,
    ok: bool,
    next_var: u32,
    num_dec_vars: usize,
    decisions: usize,
    propagations: usize,
    conflicts: usize,
    restarts: usize,
    simplifies: usize,
    reduces: usize,
    events: Vec<ActivityEvent>,
}

impl Solver {
    /// Number of variables (spec form).
    pub closed spec fn num_vars_spec(&self) -> nat {
        self.next_var as nat
    }

    /// Whether the solver has not found the formula unsatisfiable (spec form).
    pub closed spec fn ok_spec(&self) -> bool {
        self.ok
    }

    /// The clauses.
    pub closed spec fn clauses_spec(&self) -> Seq<Clause> {
        self.ca@
    }

    /// References to the original clauses.
    pub closed spec fn original_spec(&self) -> Seq<ClauseRef> {
        self.db.clauses_spec()
    }

    /// References to the learnt clauses.
    pub closed spec fn learnt_spec(&self) -> Seq<ClauseRef> {
        self.db.learnts_spec()
    }

    /// The assignment.
    pub closed spec fn assignment_spec(&self) -> &Assignment {
        &self.assignment
    }

    /// The saved phase of each variable (`true`: negated).
    pub closed spec fn polarity_spec(&self) -> Seq<bool> {
        self.polarity@
    }

    /// The pending activity events.
    pub closed spec fn events_spec(&self) -> Seq<ActivityEvent> {
        self.events@
    }

    /// The watches of each literal.
    pub closed spec fn watches_spec(&self) -> Seq<Seq<Watcher>> {
        self.watchlist.lists()
    }

    /// The statistics counter `decisions` (spec form).
    pub closed spec fn decisions_spec(&self) -> nat {
        self.decisions as nat
    }

    /// The statistics counter `propagations` (spec form).
    pub closed spec fn propagations_spec(&self) -> nat {
        self.propagations as nat
    }

    /// The statistics counter `conflicts` (spec form).
    pub closed spec fn conflicts_spec(&self) -> nat {
        self.conflicts as nat
    }

    /// The statistics counter `restarts` (spec form).
    pub closed spec fn restarts_spec(&self) -> nat {
        self.restarts as nat
    }

    /// The statistics counter `simplifies` (spec form).
    pub closed spec fn simplifies_spec(&self) -> nat {
        self.simplifies as nat
    }

    /// The statistics counter `reduces` (spec form).
    pub closed spec fn reduces_spec(&self) -> nat {
        self.reduces as nat
    }

    /// The value of each variable.
    pub open spec fn values(&self) -> Seq<LBool> {
        self.assignment_spec().values()
    }

    /// The trail of assigned literals.
    pub open spec fn trail(&self) -> Seq<Lit> {
        self.assignment_spec().trail_spec()
    }

    /// Propagation is complete up to trail position `p` (see [`watches_complete`]).
    pub open spec fn complete_upto(&self, p: int) -> bool {
        watches_complete(self.clauses_spec(), self.values(), self.assignment_spec().data(), self.trail(), p)
    }

    /// Propagation is complete up to the propagation head: every clause watching a literal
    /// falsified by an already propagated trail literal is satisfied.
    pub open spec fn watches_sound(&self) -> bool {
        self.complete_upto(self.assignment_spec().qhead_spec() as int)
    }

    /// Propagation is complete up to the end of level 0 (up to the propagation head when at
    /// level 0).
    pub open spec fn root_sound(&self) -> bool {
        if self.level_count() > 0 {
            self.complete_upto(self.assignment_spec().lim_spec()[0] as int)
        } else {
            self.watches_sound()
        }
    }

    /// Whether `lit` is not fixed to false: its variable does not exist yet, or is not assigned
    /// at level 0, or `lit` is true.
    pub open spec fn not_fixed_false(&self, lit: Lit) -> bool {
        lit.var()@ >= self.num_vars_spec() || self.assignment_spec().fixed_spec(lit) != LBool::False
    }

    /// The current decision level.
    pub open spec fn level_count(&self) -> nat {
        self.assignment_spec().lim_spec().len()
    }

    /// The solver's state is consistent: sizes agree, every clause has at least two
    /// in-range literals, every watch and database entry refers to an existing clause, every
    /// clause that is not deleted is watched on its first two literals, the assignment is
    /// consistent and every reason is sound.
    pub closed spec fn inv(&self) -> bool {
        &&& self.inv_core()
        &&& clauses_watched_except(self.ca@, self.watchlist.lists(), -1)
    }

    /// The invariant but for the watches of the clauses ([`clauses_watched_except`]).
    closed spec fn inv_core(&self) -> bool {
        let n = self.next_var as nat;
        &&& n < 0x7fff_ffff
        &&& self.assignment.wf()
        &&& self.assignment.num_vars() == n
        &&& self.polarity@.len() == n
        &&& self.watchlist.lists().len() == 2 * n
        &&& arena_wf(self.ca@, n)
        &&& watches_ok(self.watchlist.lists(), self.ca@.len(), self.next_var as nat)
        &&& reasons_ok(self.ca@, self.assignment.values(), self.assignment.data(), self.assignment.trail_spec())
        &&& decisions_ok(self.assignment.data(), self.assignment.trail_spec(), self.assignment.lim_spec())
        &&& qhead_ok(self.assignment.lim_spec(), self.assignment.qhead_spec())
        &&& refs_in(self.db.clauses_spec(), self.ca@.len())
        &&& refs_in(self.db.learnts_spec(), self.ca@.len())
        &&& self.num_dec_vars == n
        &&& blockers_ok(self.ca@, self.watchlist.lists(), self.assignment.values(), self.assignment.data())
        &&& refs_flag(self.db.clauses_spec(), self.ca@, false)
        &&& refs_flag(self.db.learnts_spec(), self.ca@, true)
        &&& deleted_satisfied(self.db.clauses_spec(), self.ca@, self.assignment.values(), self.assignment.data())
    }

    /// A solver with no variable and no clause.
    pub fn new() -> (res: Self)
        ensures
            res.inv(),
            res.num_vars_spec() == 0,
            res.ok_spec(),
            res.clauses_spec().len() == 0,
            res.original_spec().len() == 0,
            res.learnt_spec().len() == 0,
            res.trail().len() == 0,
            res.level_count() == 0,
            res.events_spec().len() == 0,
            res.watches_sound(),
            res.derived_from(Seq::empty()),
            res.values() == Seq::<LBool>::empty(),
            res.assignment_spec().qhead_spec() == 0,
    {
        Solver {
            ca: ClauseAllocator::new(),
            db: ClauseDatabase::new(),
            watchlist: WatchList::new(),
            assignment: Assignment::new(),
            polarity: IdxVec::new(),
            ok: true,
            next_var: 0,
            num_dec_vars: 0,
            decisions: 0,
            propagations: 0,
            conflicts: 0,
            restarts: 0,
            simplifies: 0,
            reduces: 0,
            events: Vec::new(),
        }
    }

    /// Number of variables.
    pub fn num_vars(&self) -> (res: usize)
        ensures
            res == self.num_vars_spec(),
    {
        self.next_var as usize
    }

    /// Whether the solver has not found the formula unsatisfiable.
    pub fn is_ok(&self) -> (res: bool)
        ensures
            res == self.ok_spec(),
    {
        self.ok
    }

    /// Removes and returns the pending activity events, oldest first.
    pub fn take_events(&mut self) -> (res: Vec<ActivityEvent>)
        requires
            old(self).inv(),
        ensures
            final(self).inv(),
            res@ == old(self).events_spec(),
            final(self).events_spec().len() == 0,
            final(self).values() == old(self).values(),
            final(self).trail() == old(self).trail(),
            final(self).level_count() == old(self).level_count(),
            final(self).num_vars_spec() == old(self).num_vars_spec(),
            final(self).ok_spec() == old(self).ok_spec(),
            forall|f: Seq<Seq<Lit>>| #[trigger] old(self).derived_from(f) ==> final(self).derived_from(f),
    {
        let mut res: Vec<ActivityEvent> = Vec::new();
        std::mem::swap(&mut res, &mut self.events);
        proof {
            assert forall|f: Seq<Seq<Lit>>| #[trigger] old(self).derived_from(f) implies self.derived_from(f) by {
                Solver::lemma_derived_same_ground(&*old(self), &*self, f);
            }
        }
        res
    }

    /// Allocates a new variable: unassigned, saved phase "negated", watched by no clause.
    pub fn new_var(&mut self) -> (res: Var)
        requires
            old(self).inv(),
            old(self).num_vars_spec() + 1 < 0x7fff_ffff,
        ensures
            final(self).inv(),
            res@ == old(self).num_vars_spec(),
            final(self).num_vars_spec() == old(self).num_vars_spec() + 1,
            final(self).values() == old(self).values().push(LBool::Undef),
            final(self).trail() == old(self).trail(),
            final(self).level_count() == old(self).level_count(),
            final(self).ok_spec() == old(self).ok_spec(),
            final(self).clauses_spec() == old(self).clauses_spec(),
            final(self).original_spec() == old(self).original_spec(),
            final(self).learnt_spec() == old(self).learnt_spec(),
            final(self).polarity_spec() == old(self).polarity_spec().push(true),
            final(self).events_spec() == old(self).events_spec().push(ActivityEvent::NewVar(res)),
            old(self).watches_sound() ==> final(self).watches_sound(),
            final(self).assignment_spec().data().len() == old(self).assignment_spec().data().len() + 1,
            forall|v: int| 0 <= v < old(self).assignment_spec().data().len() ==> #[trigger] final(self).assignment_spec().data()[v]
                == old(self).assignment_spec().data()[v],
            final(self).assignment_spec().qhead_spec() == old(self).assignment_spec().qhead_spec(),
            final(self).assignment_spec().lim_spec() == old(self).assignment_spec().lim_spec(),
            forall|f: Seq<Seq<Lit>>| #[trigger] old(self).derived_from(f) ==> final(self).derived_from(f),
    {
        let var = Var::new(self.next_var);
        self.watchlist.init(var);
        self.next_var = self.next_var + 1;
        self.assignment.push_var();
        self.polarity.push(true);
        self.num_dec_vars = self.num_dec_vars + 1;
        self.events.push(ActivityEvent::NewVar(var));
        proof {
            let ca = self.ca@;
            let vals = self.assignment.values();
            let data = self.assignment.data();
            let t = self.assignment.trail_spec();
            let ovals = old(self).assignment.values();
            let odata = old(self).assignment.data();
            assert forall|c: int| 0 <= c < ca.len() implies (#[trigger] ca[c])@.len() >= 2 && lits_in_range(ca[c]@, self.next_var as nat) by {
                assert(lits_in_range(ca[c]@, old(self).next_var as nat));
            }
            assert forall|i: int| 0 <= i < t.len() implies #[trigger] reason_ok(ca, vals, data, t, i) by {
                assert(reason_ok(ca, ovals, odata, t, i));
                let v = t[i].var()@;
                assert(data[v as int] == odata[v as int]);
                match data[v as int].reason_spec() {
                    None => {},
                    Some(c) => {
                        assert forall|k: int| 1 <= k < ca[c@ as int]@.len() implies lit_value(vals, #[trigger] ca[c@ as int]@[k]) == LBool::False
                            && var_on_trail_before(t, ca[c@ as int]@[k].var()@, i) by {
                            assert(lit_value(ovals, ca[c@ as int]@[k]) == LBool::False);
                            assert(lits_in_range(ca[c@ as int]@, old(self).next_var as nat));
                            assert(vals[ca[c@ as int]@[k].var()@ as int] == ovals[ca[c@ as int]@[k].var()@ as int]);
                        }
                    },
                }
            }
            assert(watches_ok(self.watchlist.lists(), ca.len(), self.next_var as nat)) by {
                let lists = self.watchlist.lists();
                assert forall|l: int, k: int| 0 <= l < lists.len() && 0 <= k < lists[l].len() implies watch_ok(#[trigger] lists[l][k], ca.len(), self.next_var as nat) by {
                    if l < old(self).watchlist.lists().len() {
                        assert(lists[l] == old(self).watchlist.lists()[l]);
                    }
                }
            }
            let ol = old(self).watchlist.lists();
            let lists = self.watchlist.lists();
            lemma_fixed_keeps_blockers(ca, ol, ovals, odata, vals, data);
            assert forall|l: int, k: int| 0 <= l < lists.len() && 0 <= k < lists[l].len() implies blocker_ok(ca, #[trigger] lists[l][k], vals, data) by {
                assert(l < ol.len());
                assert(lists[l] == ol[l]);
                assert(blocker_ok(ca, ol[l][k], vals, data));
            }
            assert forall|c: int| 0 <= c < ca.len() && c != -1 && !(#[trigger] ca[c]).deleted_spec() implies clause_watched(ca, lists, c) by {
                assert(clause_watched(ca, ol, c));
                assert(lits_in_range(ca[c]@, old(self).next_var as nat));
                lemma_lit_slot(ca[c]@[0], old(self).next_var as nat);
                lemma_lit_slot(ca[c]@[1], old(self).next_var as nat);
                assert(lists[ca[c]@[0]@ as int] == ol[ca[c]@[0]@ as int]);
                assert(lists[ca[c]@[1]@ as int] == ol[ca[c]@[1]@ as int]);
            }
            if old(self).watches_sound() {
                assert(assigned_kept(ovals, odata, vals, data));
                assert(t.take(t.len() as int) =~= t);
                lemma_complete_assign(ca, ovals, odata, t, vals, data, t, self.assignment.qhead_spec() as int, old(self).next_var as nat);
            }
        }
        var
    }
}


impl Default for Solver {
    /// A solver with no variable and no clause.
    fn default() -> (res: Self)
        ensures
            res.inv(),
            res.num_vars_spec() == 0,
            res.ok_spec(),
            res.clauses_spec().len() == 0,
            res.original_spec().len() == 0,
            res.learnt_spec().len() == 0,
            res.trail().len() == 0,
            res.level_count() == 0,
            res.events_spec().len() == 0,
            res.watches_sound(),
            res.derived_from(Seq::empty()),
            res.values() == Seq::<LBool>::empty(),
            res.assignment_spec().qhead_spec() == 0,
    {
        Solver::new()
    }
}

/// Facts that every operation keeps while it works on the clauses and watches.
impl Solver {
    /// The value of `lit`.
    pub fn value(&self, lit: Lit) -> (res: LBool)
        requires
            self.inv(),
            lit.var()@ < self.num_vars_spec(),
        ensures
            res == lit_value(self.values(), lit),
    {
        self.assignment.value(lit)
    }

    /// The value of `var`.
    pub fn value_var(&self, var: Var) -> (res: LBool)
        requires
            self.inv(),
            var@ < self.num_vars_spec(),
        ensures
            res == self.values()[var@ as int],
    {
        self.assignment.value_var(var)
    }

    /// The reason clause of `var`'s assignment.
    pub fn reason(&self, var: Var) -> (res: Option<ClauseRef>)
        requires
            self.inv(),
            var@ < self.num_vars_spec(),
        ensures
            res == self.assignment_spec().data()[var@ as int].reason_spec(),
    {
        self.assignment.reason(var)
    }

    /// The decision level at which `var` was assigned.
    pub fn level(&self, var: Var) -> (res: usize)
        requires
            self.inv(),
            var@ < self.num_vars_spec(),
        ensures
            res == self.assignment_spec().data()[var@ as int].level_spec(),
    {
        self.assignment.level(var)
    }

    /// The current decision level.
    pub fn decision_level(&self) -> (res: usize)
        ensures
            res == self.level_count(),
    {
        self.assignment.decision_level()
    }

    /// The clause `cref` refers to.
    pub fn clause(&self, cref: ClauseRef) -> (res: &Clause)
        requires
            cref@ < self.clauses_spec().len(),
        ensures
            *res == self.clauses_spec()[cref@ as int],
    {
        self.ca.clause(cref)
    }

    /// The clause `cref` refers to, for update. The solver's consistency is then up to the
    /// caller.
    pub fn clause_mut(&mut self, cref: ClauseRef) -> (res: &mut Clause)
        requires
            cref@ < old(self).clauses_spec().len(),
        ensures
            *res == old(self).clauses_spec()[cref@ as int],
            final(self).clauses_spec() == old(self).clauses_spec().update(cref@ as int, *final(res)),
            final(self).num_vars_spec() == old(self).num_vars_spec(),
            final(self).assignment_spec() == old(self).assignment_spec(),
            final(self).original_spec() == old(self).original_spec(),
            final(self).learnt_spec() == old(self).learnt_spec(),
    {
        self.ca.clause_mut(cref)
    }

    /// References to the original clauses.
    pub fn original_clauses(&self) -> (res: &[ClauseRef])
        ensures
            res@ == self.original_spec(),
    {
        self.db.clauses()
    }

    /// References to the learnt clauses.
    pub fn learnt_clauses(&self) -> (res: &[ClauseRef])
        ensures
            res@ == self.learnt_spec(),
    {
        self.db.learnts()
    }

    /// Number of original clauses.
    pub fn num_clauses(&self) -> (res: usize)
        ensures
            res == self.original_spec().len(),
    {
        self.db.num_clauses()
    }

    /// Number of learnt clauses.
    pub fn num_learnts(&self) -> (res: usize)
        ensures
            res == self.learnt_spec().len(),
    {
        self.db.num_learnts()
    }

    /// Number of decisions.
    pub fn num_decisions(&self) -> (res: usize)
        ensures
            res == self.decisions_spec(),
    {
        self.decisions
    }

    /// Number of propagated literals.
    pub fn num_propagations(&self) -> (res: usize)
        ensures
            res == self.propagations_spec(),
    {
        self.propagations
    }

    /// Number of conflicts.
    pub fn num_conflicts(&self) -> (res: usize)
        ensures
            res == self.conflicts_spec(),
    {
        self.conflicts
    }

    /// Number of restarts.
    pub fn num_restarts(&self) -> (res: usize)
        ensures
            res == self.restarts_spec(),
    {
        self.restarts
    }

    /// Number of clause database simplifications.
    pub fn num_simplifies(&self) -> (res: usize)
        ensures
            res == self.simplifies_spec(),
    {
        self.simplifies
    }

    /// Number of clause database reductions.
    pub fn num_reduces(&self) -> (res: usize)
        ensures
            res == self.reduces_spec(),
    {
        self.reduces
    }

    /// Number of trail literals.
    pub fn trail_len(&self) -> (res: usize)
        ensures
            res == self.trail().len(),
    {
        self.assignment.trail_len()
    }

    /// Number of variables not assigned at level 0.
    pub fn num_free_vars(&self) -> (res: usize)
        requires
            self.inv(),
        ensures
            res == self.num_vars_spec() - (if self.level_count() == 0 { self.trail().len() } else {
                self.assignment_spec().lim_spec()[0] as nat
            }),
    {
        proof {
            crate::assignment::lemma_trail_len_bound(&self.assignment);
        }
        let ground = if self.assignment.decision_level() == 0 {
            self.assignment.trail_len()
        } else {
            self.assignment.lim_at(0)
        };
        self.num_dec_vars - ground
    }

    /// Adds the two watches of clause `cref` (on its first two literals).
    fn attach_clause(&mut self, cref: ClauseRef)
        requires
            old(self).inv_core(),
            clauses_watched_except(old(self).ca@, old(self).watchlist.lists(), cref@ as int),
            cref@ < old(self).ca@.len(),
        ensures
            final(self).inv(),
            final(self).ca@ == old(self).ca@,
            final(self).assignment == old(self).assignment,
            final(self).db == old(self).db,
            final(self).next_var == old(self).next_var,
            final(self).ok == old(self).ok,
            final(self).polarity == old(self).polarity,
            final(self).events == old(self).events,
            final(self).decisions == old(self).decisions,
            final(self).conflicts == old(self).conflicts,
    {
        let a = self.ca.clause(cref).get(0);
        let b = self.ca.clause(cref).get(1);
        proof {
            lemma_lit_slot(a, self.next_var as nat);
            lemma_lit_slot(b, self.next_var as nat);
        }
        let wb = Watcher::new(cref, b);
        let wa = Watcher::new(cref, a);
        self.watchlist.insert(a, wb);
        self.watchlist.insert(b, wa);
        proof {
            let lists = self.watchlist.lists();
            let ol = old(self).watchlist.lists();
            assert forall|l: int, k: int| 0 <= l < lists.len() && 0 <= k < lists[l].len() implies watch_ok(#[trigger] lists[l][k], self.ca@.len(), self.next_var as nat) by {
                if l == b@ as int && k == lists[l].len() - 1 {
                } else if l == a@ as int && (k < ol[l].len() || l != b@ as int) && k == ol[l].len() {
                } else if l == a@ as int && l == b@ as int && k == ol[l].len() {
                } else {
                    assert(k < ol[l].len());
                    assert(lists[l][k] == ol[l][k]);
                }
            }
            let ca = self.ca@;
            let vals = self.assignment.values();
            let data = self.assignment.data();
            let x = cref@ as int;
            assert(ca[x]@[0] == a && ca[x]@[1] == b);
            assert(ca[x]@.contains(a) && ca[x]@.contains(b));
            assert forall|l: int, k: int| 0 <= l < lists.len() && 0 <= k < lists[l].len() implies blocker_ok(ca, #[trigger] lists[l][k], vals, data) by {
                if k < ol[l].len() {
                    assert(lists[l][k] == ol[l][k]);
                    assert(blocker_ok(ca, ol[l][k], vals, data));
                }
            }
            let la = a@ as int;
            let lb = b@ as int;
            Lit::lemma_view_injective(a, b);
            lemma_count_push(ol[la], wb, x);
            if a == b {
                assert(lists[la] == ol[la].push(wb).push(wa));
                lemma_count_push(ol[la].push(wb), wa, x);
            } else {
                assert(lists[la] == ol[la].push(wb));
                assert(lists[lb] == ol[lb].push(wa));
                lemma_count_push(ol[lb], wa, x);
            }
            assert(clause_watched(ca, lists, x));
            assert forall|c: int| 0 <= c < ca.len() && c != -1 && !(#[trigger] ca[c]).deleted_spec() implies clause_watched(ca, lists, c) by {
                if c != x {
                    assert(clause_watched(ca, ol, c));
                    let l0 = ca[c]@[0]@ as int;
                    let l1 = ca[c]@[1]@ as int;
                    assert(lits_in_range(ca[c]@, self.next_var as nat));
                    lemma_lit_slot(ca[c]@[0], self.next_var as nat);
                    lemma_lit_slot(ca[c]@[1], self.next_var as nat);
                    lemma_count_push(ol[la], wb, c);
                    if a == b {
                        lemma_count_push(ol[la].push(wb), wa, c);
                    } else {
                        lemma_count_push(ol[lb], wa, c);
                    }
                    assert(watch_count(lists[l0], c) >= watch_count(ol[l0], c));
                    assert(watch_count(lists[l1], c) >= watch_count(ol[l1], c));
                }
            }
        }
    }
}

impl Solver {
    /// Undoes every assignment above decision level `level` (nothing when the current level
    /// is not above it). Each unassigned variable keeps its last polarity as saved phase and
    /// is reported back to the decision order.
    pub fn backtrack(&mut self, level: usize)
        requires
            old(self).inv(),
        ensures
            final(self).inv(),
            final(self).clauses_spec() == old(self).clauses_spec(),
            final(self).original_spec() == old(self).original_spec(),
            final(self).learnt_spec() == old(self).learnt_spec(),
            final(self).num_vars_spec() == old(self).num_vars_spec(),
            final(self).ok_spec() == old(self).ok_spec(),
            final(self).assignment_spec().data() == old(self).assignment_spec().data(),
            final(self).conflicts_spec() == old(self).conflicts_spec(),
            final(self).decisions_spec() == old(self).decisions_spec(),
            final(self).restarts_spec() == old(self).restarts_spec(),
            final(self).simplifies_spec() == old(self).simplifies_spec(),
            final(self).reduces_spec() == old(self).reduces_spec(),
            final(self).propagations_spec() == old(self).propagations_spec(),
            old(self).level_count() <= level ==> {
                &&& final(self).values() == old(self).values()
                &&& final(self).trail() == old(self).trail()
                &&& final(self).assignment_spec().lim_spec() == old(self).assignment_spec().lim_spec()
                &&& final(self).polarity_spec() == old(self).polarity_spec()
                &&& final(self).events_spec() == old(self).events_spec()
            },
            level < old(self).level_count() ==> final(self).propagated(),
            level < old(self).level_count() ==> {
                let cut = old(self).assignment_spec().lim_spec()[level as int] as int;
                &&& final(self).trail() == old(self).trail().take(cut)
                &&& final(self).level_count() == level
                &&& final(self).assignment_spec().lim_spec() == old(self).assignment_spec().lim_spec().take(level as int)
                &&& forall|v: u32|
                    v < old(self).num_vars_spec() ==> #[trigger] final(self).values()[v as int] == (if var_on_removed(
                        old(self).trail(),
                        v,
                        cut,
                    ) { LBool::Undef } else { old(self).values()[v as int] })
                &&& final(self).values().len() == old(self).values().len()
                &&& final(self).events_spec() == old(self).events_spec() + old(self).trail().skip(cut).reverse().map_values(
                    |l: Lit| ActivityEvent::InsertVar(l.var()))
            },
            level < old(self).level_count() && old(self).complete_upto(old(self).assignment_spec().lim_spec()[level as int] as int)
                ==> final(self).watches_sound(),
            old(self).watches_sound() ==> final(self).watches_sound(),
            forall|f: Seq<Seq<Lit>>| #[trigger] old(self).derived_from(f) ==> final(self).derived_from(f),
    {
        let ghost ot = self.assignment.trail_spec();
        let ghost ovals = self.assignment.values();
        let ghost oasg = self.assignment;
        let removed = self.assignment.backtrack(level);
        proof {
            if level < oasg.lim_spec().len() {
                let lim = oasg.lim_spec();
                if old(self).watches_sound() {
                    assert(lim[level as int] <= lim[lim.len() - 1]);
                    lemma_complete_mono(self.ca@, ovals, oasg.data(), ot, oasg.qhead_spec() as int, lim[level as int] as int);
                }
                if old(self).complete_upto(lim[level as int] as int) {
                    lemma_complete_backtrack(self.ca@, &oasg, &self.assignment, level as int, self.next_var as nat);
                }
            }
        }
        let mut k: usize = 0;
        let ghost ev0 = self.events@;
        let ghost asg = self.assignment;
        while k < removed.len()
            invariant
                k <= removed@.len(),
                self.assignment == asg,
                self.ca == old(self).ca,
                self.db == old(self).db,
                self.watchlist == old(self).watchlist,
                self.ok == old(self).ok,
                self.num_dec_vars == old(self).num_dec_vars,
                self.conflicts == old(self).conflicts,
                self.decisions == old(self).decisions,
                self.restarts == old(self).restarts,
                self.simplifies == old(self).simplifies,
                self.reduces == old(self).reduces,
                self.propagations == old(self).propagations,
                self.polarity@.len() == self.next_var,
                self.next_var == old(self).next_var,
                forall|j: int| 0 <= j < removed@.len() ==> (#[trigger] removed@[j]).var()@ < self.next_var,
                self.events@ == ev0 + removed@.take(k as int).map_values(|l: Lit| ActivityEvent::InsertVar(l.var())),
                k == 0 ==> self.polarity == old(self).polarity,
                ev0 == old(self).events@,
            decreases removed@.len() - k,
        {
            let lit = removed[k];
            self.polarity.set(&lit.var(), lit.negated());
            self.events.push(ActivityEvent::InsertVar(lit.var()));
            proof {
                assert(removed@.take(k + 1) =~= removed@.take(k as int).push(lit));
                assert(removed@.take(k + 1).map_values(|l: Lit| ActivityEvent::InsertVar(l.var())) =~= removed@.take(
                    k as int,
                ).map_values(|l: Lit| ActivityEvent::InsertVar(l.var())).push(ActivityEvent::InsertVar(lit.var())));
            }
            k = k + 1;
        }
        proof {
            assert(removed@.take(removed@.len() as int) =~= removed@);
            if removed@.len() == 0 {
                assert(removed@.map_values(|l: Lit| ActivityEvent::InsertVar(l.var())) =~= Seq::<ActivityEvent>::empty());
                assert(self.events@ =~= ev0);
            }
            if level < old(self).assignment.lim_spec().len() {
                let cut = old(self).assignment.lim_spec()[level as int] as int;
                let t = self.assignment.trail_spec();
                let vals = self.assignment.values();
                let data = self.assignment.data();
                let ca = self.ca@;
                assert forall|i: int| 0 <= i < t.len() implies #[trigger] reason_ok(ca, vals, data, t, i) by {
                    assert(t[i] == ot[i]);
                    assert(reason_ok(ca, ovals, data, ot, i));
                    match data[t[i].var()@ as int].reason_spec() {
                        None => {},
                        Some(c) => {
                            assert forall|k2: int| 1 <= k2 < ca[c@ as int]@.len() implies lit_value(vals, #[trigger] ca[c@ as int]@[k2]) == LBool::False
                                && var_on_trail_before(t, ca[c@ as int]@[k2].var()@, i) by {
                                let v = ca[c@ as int]@[k2].var()@;
                                assert(var_on_trail_before(ot, v, i));
                                let j = choose|j: int| 0 <= j < i && (#[trigger] ot[j]).var()@ == v;
                                if var_on_removed(ot, v, cut) {
                                    let j2 = choose|j2: int| cut <= j2 < ot.len() && (#[trigger] ot[j2]).var()@ == v;
                                    crate::var::Var::lemma_view_injective(ot[j].var(), ot[j2].var());
                                    assert(ot[j].var() == ot[j2].var());
                                }
                                assert(vals[v as int] == ovals[v as int]);
                                assert(t[j] == ot[j]);
                            }
                        },
                    }
                }
            }
            assert forall|f: Seq<Seq<Lit>>| #[trigger] old(self).derived_from(f) implies self.derived_from(f) by {
                if level < oasg.lim_spec().len() {
                    let lim = oasg.lim_spec();
                    assert(lim[0] <= lim[level as int]);
                    assert forall|i: int| 0 <= i < old(self).ground_len() implies #[trigger] self.trail()[i] == old(self).trail()[i] by {
                        assert(self.trail() == ot.take(lim[level as int] as int));
                    }
                }
                Solver::lemma_derived_same_ground(&*old(self), &*self, f);
            }
        }
    }

    /// Propagates the unpropagated trail literals through the watched clauses: every clause
    /// that becomes unit assigns its remaining literal (with the clause as reason). Returns a
    /// clause whose literals are all false, if one is found; then the rest of the trail is
    /// left unpropagated.
    pub fn propagate(&mut self) -> (res: Option<ClauseRef>)
        requires
            old(self).inv(),
        ensures
            final(self).inv(),
            final(self).clauses_spec().len() == old(self).clauses_spec().len(),
            forall|c: int| 0 <= c < old(self).clauses_spec().len() ==> (#[trigger] final(self).clauses_spec()[c]).learnt_spec()
                == old(self).clauses_spec()[c].learnt_spec() && final(self).clauses_spec()[c].deleted_spec()
                == old(self).clauses_spec()[c].deleted_spec() && final(self).clauses_spec()[c]@.to_multiset()
                == old(self).clauses_spec()[c]@.to_multiset(),
            final(self).original_spec() == old(self).original_spec(),
            final(self).learnt_spec() == old(self).learnt_spec(),
            final(self).num_vars_spec() == old(self).num_vars_spec(),
            final(self).ok_spec() == old(self).ok_spec(),
            final(self).level_count() == old(self).level_count(),
            final(self).assignment_spec().lim_spec() == old(self).assignment_spec().lim_spec(),
            final(self).trail().take(old(self).trail().len() as int) == old(self).trail(),
            final(self).trail().len() >= old(self).trail().len(),
            final(self).values().len() == old(self).values().len(),
            forall|v: int| 0 <= v < old(self).values().len() && old(self).values()[v] != LBool::Undef ==> #[trigger] final(self).values()[v] == old(self).values()[v],
            final(self).polarity_spec() == old(self).polarity_spec(),
            final(self).events_spec() == old(self).events_spec(),
            final(self).conflicts_spec() == old(self).conflicts_spec(),
            final(self).decisions_spec() == old(self).decisions_spec(),
            final(self).restarts_spec() == old(self).restarts_spec(),
            final(self).simplifies_spec() == old(self).simplifies_spec(),
            final(self).reduces_spec() == old(self).reduces_spec(),
            res matches Some(c) ==> c@ < final(self).clauses_spec().len() && forall|k: int|
                0 <= k < final(self).clauses_spec()[c@ as int]@.len() ==> lit_value(
                    final(self).values(),
                    #[trigger] final(self).clauses_spec()[c@ as int]@[k],
                ) == LBool::False,
            final(self).propagated(),
            res is None ==> final(self).assignment_spec().qhead_spec() == final(self).trail().len(),
            res matches Some(c) ==> final(self).level_count() > 0 ==> exists|k: int|
                0 <= k < final(self).clauses_spec()[c@ as int]@.len() && final(self).level_of(
                    (#[trigger] final(self).clauses_spec()[c@ as int]@[k]).var(),
                ) == final(self).level_count(),
            old(self).watches_sound() ==> final(self).complete_upto(old(self).assignment_spec().qhead_spec() as int),
            old(self).watches_sound() && res is None ==> final(self).watches_sound(),
            reasons_from(final(self).assignment_spec().data(), final(self).trail(), old(self).trail().len() as int),
            live_reasons_from(final(self).clauses_spec(), final(self).assignment_spec().data(), final(self).trail(), old(self).trail().len() as int),
            res matches Some(c) ==> !final(self).clauses_spec()[c@ as int].deleted_spec(),
            forall|f: Seq<Seq<Lit>>| #[trigger] old(self).derived_from(f) ==> final(self).derived_from(f),
            assigned_kept(old(self).values(), old(self).assignment_spec().data(), final(self).values(), final(self).assignment_spec().data()),
    {
        proof {
            reveal(live_reasons_from);
        }
        let mut conflict: Option<ClauseRef> = None;
        let ghost ot = self.assignment.trail_spec();
        let ghost ovals = self.assignment.values();
        let ghost odata = self.assignment.data();
        let ghost oca = self.ca@;
        let ghost q_start = self.assignment.qhead_spec();
        let ghost sound = old(self).watches_sound();
        loop
            invariant_except_break
                self.inv(),
                self.ca@.len() == oca.len(),
                forall|c: int| 0 <= c < oca.len() ==> (#[trigger] self.ca@[c]).learnt_spec() == oca[c].learnt_spec()
                    && self.ca@[c].deleted_spec() == oca[c].deleted_spec() && self.ca@[c]@.to_multiset() == oca[c]@.to_multiset(),
                self.db == old(self).db,
                self.next_var == old(self).next_var,
                self.ok == old(self).ok,
                self.assignment.lim_spec() == old(self).assignment.lim_spec(),
                self.assignment.trail_spec().take(ot.len() as int) == ot,
                self.assignment.trail_spec().len() >= ot.len(),
                reasons_from(self.assignment.data(), self.assignment.trail_spec(), ot.len() as int),
                live_reasons_from(self.ca@, self.assignment.data(), self.assignment.trail_spec(), ot.len() as int),
                conflict matches Some(c) ==> c@ < self.ca@.len() && !self.ca@[c@ as int].deleted_spec(),
                assigned_kept(ovals, odata, self.assignment.values(), self.assignment.data()),
                self.assignment.values().len() == ovals.len(),
                forall|v: int| 0 <= v < ovals.len() && ovals[v] != LBool::Undef ==> #[trigger] self.assignment.values()[v] == ovals[v],
                self.polarity == old(self).polarity,
                self.events == old(self).events,
                self.conflicts == old(self).conflicts,
                self.decisions == old(self).decisions,
                self.restarts == old(self).restarts,
                self.simplifies == old(self).simplifies,
                self.reduces == old(self).reduces,
                conflict matches Some(c) ==> c@ < self.ca@.len() && forall|k: int|
                    0 <= k < self.ca@[c@ as int]@.len() ==> lit_value(self.assignment.values(), #[trigger] self.ca@[c@ as int]@[k]) == LBool::False,
                conflict matches Some(c) ==> self.assignment.qhead_spec() == self.assignment.trail_spec().len(),
                self.assignment.qhead_spec() >= q_start,
                conflict matches Some(c) ==> self.assignment.lim_spec().len() > 0 ==> exists|i: int|
                    q_start <= i < self.assignment.trail_spec().len() && self.ca@[c@ as int]@[1].var()
                        == (#[trigger] self.assignment.trail_spec()[i]).var(),
                sound ==> watches_complete(self.ca@, self.assignment.values(), self.assignment.data(), self.assignment.trail_spec(), q_start as int),
                sound && conflict is None ==> watches_complete(
                    self.ca@,
                    self.assignment.values(),
                    self.assignment.data(),
                    self.assignment.trail_spec(),
                    self.assignment.qhead_spec() as int,
                ),
                sound == old(self).watches_sound(),
                q_start == old(self).assignment.qhead_spec(),
            ensures
                self.inv(),
                self.ca@.len() == oca.len(),
                forall|c: int| 0 <= c < oca.len() ==> (#[trigger] self.ca@[c]).learnt_spec() == oca[c].learnt_spec()
                    && self.ca@[c].deleted_spec() == oca[c].deleted_spec() && self.ca@[c]@.to_multiset() == oca[c]@.to_multiset(),
                self.db == old(self).db,
                self.next_var == old(self).next_var,
                self.ok == old(self).ok,
                self.assignment.lim_spec() == old(self).assignment.lim_spec(),
                self.assignment.trail_spec().take(ot.len() as int) == ot,
                self.assignment.trail_spec().len() >= ot.len(),
                reasons_from(self.assignment.data(), self.assignment.trail_spec(), ot.len() as int),
                live_reasons_from(self.ca@, self.assignment.data(), self.assignment.trail_spec(), ot.len() as int),
                conflict matches Some(c) ==> c@ < self.ca@.len() && !self.ca@[c@ as int].deleted_spec(),
                assigned_kept(ovals, odata, self.assignment.values(), self.assignment.data()),
                self.assignment.values().len() == ovals.len(),
                forall|v: int| 0 <= v < ovals.len() && ovals[v] != LBool::Undef ==> #[trigger] self.assignment.values()[v] == ovals[v],
                self.polarity == old(self).polarity,
                self.events == old(self).events,
                self.conflicts == old(self).conflicts,
                self.decisions == old(self).decisions,
                self.restarts == old(self).restarts,
                self.simplifies == old(self).simplifies,
                self.reduces == old(self).reduces,
                conflict matches Some(c) ==> c@ < self.ca@.len() && forall|k: int|
                    0 <= k < self.ca@[c@ as int]@.len() ==> lit_value(self.assignment.values(), #[trigger] self.ca@[c@ as int]@[k]) == LBool::False,
                conflict is None ==> self.assignment.qhead_spec() == self.assignment.trail_spec().len(),
                self.assignment.qhead_spec() == self.assignment.trail_spec().len(),
                conflict matches Some(c) ==> self.assignment.lim_spec().len() > 0 ==> exists|i: int|
                    q_start <= i < self.assignment.trail_spec().len() && self.ca@[c@ as int]@[1].var()
                        == (#[trigger] self.assignment.trail_spec()[i]).var(),
                sound ==> watches_complete(self.ca@, self.assignment.values(), self.assignment.data(), self.assignment.trail_spec(), q_start as int),
                sound && conflict is None ==> watches_complete(
                    self.ca@,
                    self.assignment.values(),
                    self.assignment.data(),
                    self.assignment.trail_spec(),
                    self.assignment.qhead_spec() as int,
                ),
            decreases self.next_var - self.assignment.qhead_spec(),
        {
            proof {
                crate::assignment::lemma_trail_len_bound(&self.assignment);
            }
            let p = match self.assignment.dequeue() {
                Some(p) => p,
                None => {
                    break;
                },
            };
            self.propagations = self.propagations.saturating_add(1);
            let false_literal = p.negate();
            let ghost old_lists = self.watchlist.lists();
            proof {
                let qh = (self.assignment.qhead_spec() - 1) as int;
                assert(self.assignment.trail_spec()[qh] == p);
                assert(lit_value(self.assignment.values(), p) == LBool::True);
                crate::lit::lemma_lit_var_view(p);
                crate::lit::lemma_lit_var_view(false_literal);
                lemma_lit_slot(false_literal, self.next_var as nat);
            }
            let ghost q1 = self.assignment.qhead_spec();
            proof {
                let lim = self.assignment.lim_spec();
                if lim.len() > 0 {
                    lemma_top_level(
                        self.assignment.values(),
                        self.assignment.data(),
                        self.assignment.trail_spec(),
                        lim,
                        self.assignment.qhead_spec(),
                        q1 - 1,
                    );
                } else {
                    assert(level_fits(lim, self.assignment.data()[p.var()@ as int].level_spec() as int, q1 - 1));
                }
            }
            let ws = self.watchlist.take(false_literal);
            proof {
                let ol = old_lists;
                assert forall|k: int| 0 <= k < ws@.len() implies watch_ok(#[trigger] ws@[k], self.ca@.len(), self.next_var as nat) by {
                    assert(watch_ok(ol[false_literal@ as int][k], self.ca@.len(), self.next_var as nat));
                }
                assert forall|k: int| 0 <= k < ws@.len() implies blocker_ok(self.ca@, #[trigger] ws@[k], self.assignment.values(), self.assignment.data()) by {
                    assert(blocker_ok(self.ca@, ol[false_literal@ as int][k], self.assignment.values(), self.assignment.data()));
                }
                assert(Seq::<Watcher>::empty() + ws@.skip(0) =~= ws@);
                assert(self.watchlist.lists().update(false_literal@ as int, ws@) =~= ol);
                if sound {
                    assert forall|c: int, k: int|
                        0 <= c < self.ca@.len() && 0 <= k < 2 && !self.ca@[c].deleted_spec() && #[trigger] self.ca@[c]@[k] == false_literal implies satisfied_by_level(
                        self.ca@[c]@,
                        self.assignment.values(),
                        self.assignment.data(),
                        self.assignment.lim_spec().len(),
                    ) || watch_count(ws@.skip(0), c) > 0 by {
                        assert(clause_watched(self.ca@, ol, c));
                        assert(watch_need(self.ca@[c]@, false_literal@ as int) >= 1);
                        assert(ws@.skip(0) =~= ws@);
                    }
                }
            }
            let mut kept: Vec<Watcher> = Vec::new();
            let mut i: usize = 0;
            while i < ws.len()
                invariant
                    self.inv_core(),
                    clauses_watched_except(self.ca@, self.watchlist.lists().update(false_literal@ as int, kept@ + ws@.skip(i as int)), -1),
                    forall|k: int| 0 <= k < kept@.len() ==> blocker_ok(self.ca@, #[trigger] kept@[k], self.assignment.values(), self.assignment.data()),
                    forall|k: int|
                        0 <= k < ws@.skip(i as int).len() ==> blocker_ok(self.ca@, #[trigger] ws@.skip(i as int)[k], self.assignment.values(), self.assignment.data()),
                    self.assignment.data()[false_literal.var()@ as int].level_spec() == self.assignment.lim_spec().len(),
                    sound ==> watches_complete(self.ca@, self.assignment.values(), self.assignment.data(), self.assignment.trail_spec(), q1 - 1),
                    sound && conflict is None ==> fl_handled(
                        self.ca@,
                        self.assignment.values(),
                        self.assignment.data(),
                        self.assignment.lim_spec().len(),
                        false_literal,
                        kept@,
                        ws@.skip(i as int),
                    ),
                    sound == old(self).watches_sound(),
                    q_start == old(self).assignment.qhead_spec(),
                    conflict is None ==> self.assignment.qhead_spec() == q1,
                    i <= ws@.len(),
                    false_literal.var()@ < self.next_var,
                    (false_literal@ as int) < self.watchlist.lists().len(),
                    lit_value(self.assignment.values(), false_literal) == LBool::False,
                    forall|k: int| 0 <= k < ws@.len() ==> watch_ok(#[trigger] ws@[k], self.ca@.len(), self.next_var as nat),
                    forall|k: int| 0 <= k < kept@.len() ==> watch_ok(#[trigger] kept@[k], self.ca@.len(), self.next_var as nat),
                    self.watchlist.lists()[false_literal@ as int] == Seq::<Watcher>::empty(),
                    self.ca@.len() == oca.len(),
                    forall|c: int| 0 <= c < oca.len() ==> (#[trigger] self.ca@[c]).learnt_spec() == oca[c].learnt_spec()
                        && self.ca@[c].deleted_spec() == oca[c].deleted_spec() && self.ca@[c]@.to_multiset() == oca[c]@.to_multiset(),
                    self.db == old(self).db,
                    self.next_var == old(self).next_var,
                    self.ok == old(self).ok,
                    self.assignment.lim_spec() == old(self).assignment.lim_spec(),
                    self.assignment.trail_spec().take(ot.len() as int) == ot,
                    self.assignment.trail_spec().len() >= ot.len(),
                    reasons_from(self.assignment.data(), self.assignment.trail_spec(), ot.len() as int),
                    live_reasons_from(self.ca@, self.assignment.data(), self.assignment.trail_spec(), ot.len() as int),
                    conflict matches Some(c) ==> c@ < self.ca@.len() && !self.ca@[c@ as int].deleted_spec(),
                    assigned_kept(ovals, odata, self.assignment.values(), self.assignment.data()),
                    self.assignment.values().len() == ovals.len(),
                    forall|v: int| 0 <= v < ovals.len() && ovals[v] != LBool::Undef ==> #[trigger] self.assignment.values()[v] == ovals[v],
                    self.polarity == old(self).polarity,
                    self.events == old(self).events,
                    self.conflicts == old(self).conflicts,
                    self.decisions == old(self).decisions,
                    self.restarts == old(self).restarts,
                    self.simplifies == old(self).simplifies,
                    self.reduces == old(self).reduces,
                    conflict matches Some(c) ==> c@ < self.ca@.len() && forall|k: int|
                        0 <= k < self.ca@[c@ as int]@.len() ==> lit_value(self.assignment.values(), #[trigger] self.ca@[c@ as int]@[k]) == LBool::False,
                    conflict matches Some(c) ==> self.assignment.qhead_spec() == self.assignment.trail_spec().len(),
                    self.assignment.qhead_spec() >= q1,
                    q1 >= q_start + 1,
                    self.assignment.trail_spec()[q1 - 1] == p,
                    (q1 - 1) < self.assignment.trail_spec().len(),
                    false_literal.var() == p.var(),
                    conflict matches Some(c) ==> self.assignment.lim_spec().len() > 0 ==> exists|i: int|
                        q_start <= i < self.assignment.trail_spec().len() && self.ca@[c@ as int]@[1].var()
                            == (#[trigger] self.assignment.trail_spec()[i]).var(),
                decreases ws@.len() - i,
            {
                let w = ws[i];
                let ghost rest = ws@.skip(i + 1);
                let ghost kept0 = kept@;
                proof {
                    assert(ws@.skip(i as int) =~= seq![w] + rest);
                    assert(kept@ + ws@.skip(i as int) =~= kept@.push(w) + rest);
                    assert(blocker_ok(self.ca@, ws@.skip(i as int)[0], self.assignment.values(), self.assignment.data()));
                    assert forall|k: int| 0 <= k < rest.len() implies blocker_ok(self.ca@, #[trigger] rest[k], self.assignment.values(), self.assignment.data()) by {
                        assert(rest[k] == ws@.skip(i as int)[k + 1]);
                    }
                    assert forall|k: int| 0 <= k < rest.len() implies watch_ok(#[trigger] rest[k], self.ca@.len(), self.next_var as nat) by {
                        assert(rest[k] == ws@[i + 1 + k]);
                    }
                    assert(watch_ok(ws@[i as int], self.ca@.len(), self.next_var as nat));
                }
                i = i + 1;
                let cref = w.cref();
                let blocker = w.blocker();
                if conflict.is_some() {
                    kept.push(w);
                    proof {
                        assert(kept@ + rest =~= kept0.push(w) + rest);
                    }
                } else if self.ca.clause(cref).is_deleted() {
                    // drop the watch of a deleted clause
                    proof {
                        let n = self.next_var as nat;
                        let lists = self.watchlist.lists();
                        let v0 = lists.update(false_literal@ as int, kept0.push(w) + rest);
                        let s1 = kept0 + rest;
                        assert forall|c: int| 0 <= c < self.ca@.len() && c != -1 && !(#[trigger] self.ca@[c]).deleted_spec() implies clause_watched(
                            self.ca@,
                            lists.update(false_literal@ as int, s1),
                            c,
                        ) by {
                            assert(clause_watched(self.ca@, v0, c));
                            lemma_count_split(kept0, w, rest, c);
                            assert(lits_in_range(self.ca@[c]@, n));
                            lemma_lit_slot(self.ca@[c]@[0], n);
                            lemma_lit_slot(self.ca@[c]@[1], n);
                        }
                        if sound {
                            assert forall|c: int, k: int|
                                0 <= c < self.ca@.len() && 0 <= k < 2 && !self.ca@[c].deleted_spec() && #[trigger] self.ca@[c]@[k] == false_literal implies satisfied_by_level(
                                self.ca@[c]@,
                                self.assignment.values(),
                                self.assignment.data(),
                                self.assignment.lim_spec().len(),
                            ) || watch_count(rest, c) > 0 by {
                                lemma_count_split(kept0, w, rest, c);
                            }
                        }
                    }
                } else if self.assignment.value(blocker) == LBool::True {
                    kept.push(w);
                    proof {
                        assert(kept@ + rest =~= kept0.push(w) + rest);
                        if sound {
                            let c = cref@ as int;
                            lemma_level_bound(&self.assignment, blocker);
                            assert(self.ca@[c]@.contains(blocker));
                            assert(satisfied_by_level(self.ca@[c]@, self.assignment.values(), self.assignment.data(), self.assignment.lim_spec().len()));
                            lemma_fl_handled_keep(
                                self.ca@,
                                self.assignment.values(),
                                self.assignment.data(),
                                self.assignment.lim_spec().len(),
                                false_literal,
                                kept0,
                                w,
                                w,
                                rest,
                                c,
                                self.next_var as nat,
                            );
                        }
                    }
                } else {
                    let ghost t_before = self.assignment.trail_spec();
                    let ghost vals_before = self.assignment.values();
                    let ghost data_before = self.assignment.data();
                    let ghost ca_before = self.ca@;
                    proof {
                        assert forall|j: int| 0 <= j < t_before.len() implies lit_value(vals_before, #[trigger] t_before[j]) == LBool::True
                            && t_before[j].var()@ < vals_before.len() by {}
                    }
                    self.propagate_watch(w, false_literal, &mut kept, &mut conflict, Ghost(rest), Ghost(sound));
                    proof {
                        lemma_reasons_from_extend(
                            vals_before,
                            data_before,
                            t_before,
                            self.assignment.values(),
                            self.assignment.data(),
                            self.assignment.trail_spec(),
                            ot.len() as int,
                        );
                        lemma_live_reasons_extend(
                            ca_before,
                            vals_before,
                            data_before,
                            t_before,
                            self.ca@,
                            self.assignment.values(),
                            self.assignment.data(),
                            self.assignment.trail_spec(),
                            ot.len() as int,
                        );
                        lemma_assigned_kept_trans(ovals, odata, vals_before, data_before, self.assignment.values(), self.assignment.data());
                        assert(self.assignment.trail_spec().take(ot.len() as int) =~= ot) by {
                            let t2 = self.assignment.trail_spec();
                            assert(t_before.take(ot.len() as int) == ot);
                            assert(t2.take(t_before.len() as int) == t_before);
                            assert forall|j: int| 0 <= j < ot.len() implies t2[j] == ot[j] by {
                                assert(t2.take(t_before.len() as int)[j] == t2[j]);
                                assert(t_before.take(ot.len() as int)[j] == t_before[j]);
                            }
                            assert(t2.take(t_before.len() as int)[q1 - 1] == t2[q1 - 1]);
                            if conflict.is_some() {
                                assert(self.ca@[cref@ as int]@[1].var() == t2[q1 - 1].var());
                            }
                        }
                    }
                }
            }
            let ghost lists_before = self.watchlist.lists();
            proof {
                assert(ws@.skip(i as int) =~= Seq::<Watcher>::empty());
                assert(kept@ + ws@.skip(i as int) =~= kept@);
            }
            self.watchlist.put(false_literal, kept);
            proof {
                crate::assignment::lemma_trail_len_bound(&self.assignment);
                let lists = self.watchlist.lists();
                assert forall|l: int, k: int| 0 <= l < lists.len() && 0 <= k < lists[l].len() implies watch_ok(#[trigger] lists[l][k], self.ca@.len(), self.next_var as nat) by {
                    if l == false_literal@ as int {
                        assert(lists[l] == kept@);
                    }
                }
                assert forall|l: int, k: int| 0 <= l < lists.len() && 0 <= k < lists[l].len() implies blocker_ok(
                    self.ca@,
                    #[trigger] lists[l][k],
                    self.assignment.values(),
                    self.assignment.data(),
                ) by {
                    if l == false_literal@ as int {
                        assert(lists[l] == kept@);
                    } else {
                        assert(lists[l] == lists_before[l]);
                    }
                }
                assert(lists =~= lists_before.update(false_literal@ as int, kept@));
                if sound {
                    let t = self.assignment.trail_spec();
                    lemma_complete_mono(self.ca@, self.assignment.values(), self.assignment.data(), t, q1 - 1, q_start as int);
                    if conflict is None {
                        assert(t[q1 - 1] == p);
                        assert(lit_value(self.assignment.values(), p) == LBool::True);
                        lemma_fl_done(self.ca@, self.assignment.values(), self.assignment.data(), t, q1 as int, false_literal, kept@);
                    }
                }
            }
        }
        proof {
            assert(self.assignment.qhead_spec() == self.assignment.trail_spec().len());
            if conflict is Some && self.assignment.lim_spec().len() > 0 {
                let c = conflict->0;
                let t = self.assignment.trail_spec();
                let i = choose|i: int| q_start <= i < t.len() && self.ca@[c@ as int]@[1].var() == (#[trigger] t[i]).var();
                lemma_top_level(self.assignment.values(), self.assignment.data(), t, self.assignment.lim_spec(), self.assignment.qhead_spec(), i);
                assert(lits_in_range(self.ca@[c@ as int]@, self.next_var as nat));
                assert(self.ca@[c@ as int]@[1].var() == t[i].var());
            }
            assert forall|f: Seq<Seq<Lit>>| #[trigger] old(self).derived_from(f) implies self.derived_from(f) by {
                assert forall|i: int| 0 <= i < old(self).ground_len() implies #[trigger] self.trail()[i] == old(self).trail()[i] by {
                    assert(self.trail().take(ot.len() as int)[i] == self.trail()[i]);
                }
                Solver::lemma_derived_kept(&*old(self), &*self, f);
            }
        }
        conflict
    }
}

impl Solver {
    /// The trail position where level 1 starts (the whole trail at level 0).
    pub open spec fn ground_len(&self) -> nat {
        if self.level_count() == 0 {
            self.trail().len()
        } else {
            self.assignment_spec().lim_spec()[0] as nat
        }
    }

    /// The solver holds the formula `f`: every stored clause and every literal assigned at
    /// level 0 follows from `f`; while the solver is consistent, every clause of `f` follows
    /// from the original clauses and the level-0 literals (so both have the same models);
    /// once it is inconsistent, `f` has no model.
    pub open spec fn derived_from(&self, f: Seq<Seq<Lit>>) -> bool {
        &&& forall|c: int| 0 <= c < self.clauses_spec().len() ==> entails(f, #[trigger] self.clauses_spec()[c]@)
        &&& forall|i: int| 0 <= i < self.ground_len() ==> entails_lit(f, #[trigger] self.trail()[i])
        &&& !self.ok_spec() ==> unsatisfiable(f)
        &&& self.ok_spec() ==> forall|c: int|
            0 <= c < f.len() ==> follows_from(self.clauses_spec(), self.original_spec(), self.trail(), self.ground_len() as int, #[trigger] f[c])
    }

    /// A solver derived from a formula that has a model is consistent, and the model makes
    /// every literal assigned at level 0 true: an inconsistent solver has refuted the formula.
    pub proof fn lemma_refutation_sound(&self, f: Seq<Seq<Lit>>, m: spec_fn(int) -> bool)
        requires
            self.derived_from(f),
            formula_model(m, f),
        ensures
            self.ok_spec(),
            forall|i: int| 0 <= i < self.ground_len() ==> model_lit(m, #[trigger] self.trail()[i]),
    {
        assert forall|i: int| 0 <= i < self.ground_len() implies model_lit(m, #[trigger] self.trail()[i]) by {
            assert(entails_lit(f, self.trail()[i]));
        }
    }

    /// The derivation from `f` carries over to a state with the same clause contents,
    /// consistency and level-0 literals.
    proof fn lemma_derived_same_ground(s0: &Solver, s1: &Solver, f: Seq<Seq<Lit>>)
        requires
            s0.inv(),
            s0.derived_from(f),
            s1.original_spec() == s0.original_spec(),
            s1.clauses_spec().len() == s0.clauses_spec().len(),
            forall|c: int| 0 <= c < s0.clauses_spec().len() ==> (#[trigger] s1.clauses_spec()[c])@ == s0.clauses_spec()[c]@,
            s1.ok_spec() == s0.ok_spec(),
            s1.ground_len() == s0.ground_len(),
            forall|i: int| 0 <= i < s0.ground_len() ==> #[trigger] s1.trail()[i] == s0.trail()[i],
        ensures
            s1.derived_from(f),
    {
        assert forall|i: int| 0 <= i < s1.ground_len() implies entails_lit(f, #[trigger] s1.trail()[i]) by {
            assert(s1.trail()[i] == s0.trail()[i]);
            assert(entails_lit(f, s0.trail()[i]));
        }
        assert forall|c: int| 0 <= c < s1.clauses_spec().len() implies entails(f, #[trigger] s1.clauses_spec()[c]@) by {
            assert(entails(f, s0.clauses_spec()[c]@));
        }
        assert forall|c: int, l: Lit| 0 <= c < s0.clauses_spec().len() && #[trigger] s1.clauses_spec()[c]@.contains(l) implies s0.clauses_spec()[
            c]@.contains(l) by {
            assert(s1.clauses_spec()[c]@ == s0.clauses_spec()[c]@);
        }
        Solver::lemma_covers_mono(s0, s1, f);
    }

    /// While consistent, the clauses of `f` keep following from a state whose original clauses
    /// only lost literals (and grew in number) and whose level-0 trail extends the first one.
    proof fn lemma_covers_mono(s0: &Solver, s1: &Solver, f: Seq<Seq<Lit>>)
        requires
            s0.inv(),
            s0.ok_spec() ==> forall|c: int|
                0 <= c < f.len() ==> follows_from(s0.clauses_spec(), s0.original_spec(), s0.trail(), s0.ground_len() as int, #[trigger] f[c]),
            s1.ok_spec() ==> s0.ok_spec(),
            s1.ok_spec() ==> s0.original_spec().len() <= s1.original_spec().len(),
            s1.ok_spec() ==> forall|k: int| 0 <= k < s0.original_spec().len() ==> #[trigger] s1.original_spec()[k] == s0.original_spec()[k],
            s1.ok_spec() ==> forall|c: int, l: Lit|
                0 <= c < s0.clauses_spec().len() && #[trigger] s1.clauses_spec()[c]@.contains(l) ==> s0.clauses_spec()[c]@.contains(l),
            s0.ground_len() <= s1.ground_len(),
            forall|i: int| 0 <= i < s0.ground_len() ==> #[trigger] s1.trail()[i] == s0.trail()[i],
        ensures
            s1.ok_spec() ==> forall|c: int|
                0 <= c < f.len() ==> follows_from(s1.clauses_spec(), s1.original_spec(), s1.trail(), s1.ground_len() as int, #[trigger] f[c]),
    {
        if s1.ok_spec() {
            assert(refs_in(s0.db.clauses_spec(), s0.ca@.len()));
            assert forall|c: int| 0 <= c < f.len() implies follows_from(
                s1.clauses_spec(),
                s1.original_spec(),
                s1.trail(),
                s1.ground_len() as int,
                #[trigger] f[c],
            ) by {
                assert forall|k: int| 0 <= k < s0.original_spec().len() implies #[trigger] s1.original_spec()[k] == s0.original_spec()[k]
                    && s0.original_spec()[k]@ < s0.clauses_spec().len() by {}
                lemma_follows_mono(
                    s0.clauses_spec(),
                    s0.original_spec(),
                    s0.trail(),
                    s0.ground_len() as int,
                    s1.clauses_spec(),
                    s1.original_spec(),
                    s1.trail(),
                    s1.ground_len() as int,
                    f[c],
                );
            }
        }
    }

    /// An inconsistent state with the clauses and level-0 literals of one derived from `f` is
    /// derived from `f` with a clause added that refutes it.
    proof fn lemma_derived_refuted(s0: &Solver, s1: &Solver, f: Seq<Seq<Lit>>, cl: Seq<Lit>)
        requires
            s0.derived_from(f),
            !s1.ok_spec(),
            unsatisfiable(f.push(cl)),
            s1.clauses_spec() == s0.clauses_spec(),
            s1.ground_len() == s0.ground_len(),
            forall|i: int| 0 <= i < s0.ground_len() ==> #[trigger] s1.trail()[i] == s0.trail()[i],
        ensures
            s1.derived_from(f.push(cl)),
    {
        lemma_entails_push(f, cl);
        assert forall|c: int| 0 <= c < s1.clauses_spec().len() implies entails(f.push(cl), #[trigger] s1.clauses_spec()[c]@) by {
            assert(entails(f, s0.clauses_spec()[c]@));
        }
        assert forall|i: int| 0 <= i < s1.ground_len() implies entails_lit(f.push(cl), #[trigger] s1.trail()[i]) by {
            assert(s1.trail()[i] == s0.trail()[i]);
            assert(entails_lit(f, s0.trail()[i]));
        }
    }

    /// A derivation from `f` is one from `f` with one more clause.
    proof fn lemma_derived_weaken(s: &Solver, f: Seq<Seq<Lit>>, cl: Seq<Lit>)
        requires
            s.derived_from(f),
            s.ok_spec() ==> follows_from(s.clauses_spec(), s.original_spec(), s.trail(), s.ground_len() as int, cl),
        ensures
            s.derived_from(f.push(cl)),
    {
        lemma_entails_push(f, cl);
        assert forall|c: int| 0 <= c < s.clauses_spec().len() implies entails(f.push(cl), #[trigger] s.clauses_spec()[c]@) by {
            assert(entails(f, s.clauses_spec()[c]@));
        }
        assert forall|i: int| 0 <= i < s.ground_len() implies entails_lit(f.push(cl), #[trigger] s.trail()[i]) by {
            assert(entails_lit(f, s.trail()[i]));
        }
        if s.ok_spec() {
            assert forall|c: int| 0 <= c < f.push(cl).len() implies follows_from(
                s.clauses_spec(),
                s.original_spec(),
                s.trail(),
                s.ground_len() as int,
                #[trigger] f.push(cl)[c],
            ) by {
                if c < f.len() {
                    assert(f.push(cl)[c] == f[c]);
                } else {
                    assert(f.push(cl)[c] == cl);
                }
            }
        }
    }

    /// Storing the clause `cl` as an original clause keeps a derivation from `f` with `cl`
    /// added.
    proof fn lemma_derived_push_clause(s0: &Solver, s1: &Solver, f: Seq<Seq<Lit>>, cl: Seq<Lit>)
        requires
            s0.inv(),
            s0.derived_from(f),
            s1.clauses_spec().len() == s0.clauses_spec().len() + 1,
            s1.clauses_spec().take(s0.clauses_spec().len() as int) == s0.clauses_spec(),
            s1.clauses_spec().last()@ == cl,
            s1.original_spec() == s0.original_spec().push(s1.original_spec().last()),
            s1.original_spec().last()@ == s0.clauses_spec().len(),
            s1.ok_spec() == s0.ok_spec(),
            s1.ground_len() == s0.ground_len(),
            forall|i: int| 0 <= i < s0.ground_len() ==> #[trigger] s1.trail()[i] == s0.trail()[i],
        ensures
            s1.derived_from(f.push(cl)),
    {
        lemma_entails_push(f, cl);
        let n0 = s0.clauses_spec().len();
        assert forall|c: int| 0 <= c < s1.clauses_spec().len() implies entails(f.push(cl), #[trigger] s1.clauses_spec()[c]@) by {
            if c < n0 {
                assert(s1.clauses_spec().take(n0 as int)[c] == s1.clauses_spec()[c]);
                assert(entails(f, s0.clauses_spec()[c]@));
            }
        }
        assert forall|i: int| 0 <= i < s1.ground_len() implies entails_lit(f.push(cl), #[trigger] s1.trail()[i]) by {
            assert(entails_lit(f, s0.trail()[i]));
        }
        assert forall|c: int, l: Lit| 0 <= c < n0 && #[trigger] s1.clauses_spec()[c]@.contains(l) implies s0.clauses_spec()[c]@.contains(l) by {
            assert(s1.clauses_spec().take(n0 as int)[c] == s1.clauses_spec()[c]);
        }
        assert forall|k: int| 0 <= k < s0.original_spec().len() implies #[trigger] s1.original_spec()[k] == s0.original_spec()[k] by {}
        Solver::lemma_covers_mono(s0, s1, f);
        if s1.ok_spec() {
            let o1 = s1.original_spec();
            assert forall|m: spec_fn(int) -> bool| #[trigger] state_model(m, s1.clauses_spec(), o1, s1.trail(), s1.ground_len() as int)
                implies model_clause(m, cl) by {
                assert(model_clause(m, s1.clauses_spec()[o1[o1.len() - 1]@ as int]@));
            }
            assert forall|c: int| 0 <= c < f.push(cl).len() implies follows_from(
                s1.clauses_spec(),
                o1,
                s1.trail(),
                s1.ground_len() as int,
                #[trigger] f.push(cl)[c],
            ) by {
                if c < f.len() {
                    assert(f.push(cl)[c] == f[c]);
                } else {
                    assert(f.push(cl)[c] == cl);
                }
            }
        }
    }

    /// Assigning the literal of the unit clause `lit` at level 0 keeps a derivation from `f`
    /// with the unit clause added.
    proof fn lemma_derived_push_unit(s0: &Solver, s1: &Solver, f: Seq<Seq<Lit>>, lit: Lit)
        requires
            s0.inv(),
            s0.derived_from(f),
            s1.clauses_spec() == s0.clauses_spec(),
            s1.original_spec() == s0.original_spec(),
            s1.ok_spec() == s0.ok_spec(),
            s0.level_count() == 0,
            s1.level_count() == 0,
            s1.trail() == s0.trail().push(lit),
        ensures
            s1.derived_from(f.push(seq![lit])),
    {
        let cl = seq![lit];
        lemma_entails_push(f, cl);
        assert forall|c: int| 0 <= c < s1.clauses_spec().len() implies entails(f.push(cl), #[trigger] s1.clauses_spec()[c]@) by {
            assert(entails(f, s0.clauses_spec()[c]@));
        }
        assert forall|m: spec_fn(int) -> bool| #[trigger] formula_model(m, f.push(cl)) implies model_lit(m, lit) by {
            assert(model_clause(m, cl));
            let x = choose|x: int| 0 <= x < cl.len() && model_lit(m, #[trigger] cl[x]);
        }
        assert forall|i: int| 0 <= i < s1.ground_len() implies entails_lit(f.push(cl), #[trigger] s1.trail()[i]) by {
            if i < s0.ground_len() {
                assert(s1.trail()[i] == s0.trail()[i]);
                assert(entails_lit(f, s0.trail()[i]));
            } else {
                assert(s1.trail()[i] == lit);
            }
        }
        assert forall|i: int| 0 <= i < s0.ground_len() implies #[trigger] s1.trail()[i] == s0.trail()[i] by {}
        Solver::lemma_covers_mono(s0, s1, f);
        if s1.ok_spec() {
            let g0 = s0.ground_len() as int;
            assert forall|m: spec_fn(int) -> bool| #[trigger] state_model(m, s1.clauses_spec(), s1.original_spec(), s1.trail(), s1.ground_len() as int)
                implies model_clause(m, cl) by {
                assert(model_lit(m, s1.trail()[g0]));
                assert(cl[0] == lit);
            }
            assert forall|c: int| 0 <= c < f.push(cl).len() implies follows_from(
                s1.clauses_spec(),
                s1.original_spec(),
                s1.trail(),
                s1.ground_len() as int,
                #[trigger] f.push(cl)[c],
            ) by {
                if c < f.len() {
                    assert(f.push(cl)[c] == f[c]);
                } else {
                    assert(f.push(cl)[c] == cl);
                }
            }
        }
    }

    /// A unit clause whose literal is false at level 0 contradicts what follows from `f`.
    proof fn lemma_false_unit_refutes(s: &Solver, f: Seq<Seq<Lit>>, lit: Lit)
        requires
            s.inv(),
            s.derived_from(f),
            s.level_count() == 0,
            lit.var()@ < s.num_vars_spec(),
            lit_value(s.values(), lit) == LBool::False,
        ensures
            unsatisfiable(f.push(seq![lit])),
    {
        let cl = seq![lit];
        let t = s.trail();
        let vals = s.values();
        lemma_entails_push(f, cl);
        assert(vals[lit.var()@ as int] != LBool::Undef);
        assert(var_on_trail_before(t, lit.var()@, t.len() as int));
        let j = choose|j: int| 0 <= j < t.len() && (#[trigger] t[j]).var()@ == lit.var()@;
        Var::lemma_view_injective(t[j].var(), lit.var());
        assert(lit_value(vals, t[j]) == LBool::True);
        assert(lit.negated() != t[j].negated());
        assert(entails_lit(f, t[j]));
        assert forall|m: spec_fn(int) -> bool| !#[trigger] formula_model(m, f.push(cl)) by {
            if formula_model(m, f.push(cl)) {
                assert(formula_model(m, f));
                assert(model_lit(m, t[j]));
                assert(model_clause(m, cl));
                let x = choose|x: int| 0 <= x < cl.len() && model_lit(m, #[trigger] cl[x]);
                assert(cl[x] == lit);
            }
        }
    }

    /// The derivation from `f` carries over to a state whose clauses follow from `f` and whose
    /// level-0 trail extends the first one with literals assigned with a reason.
    proof fn lemma_derived_grow(s0: &Solver, s1: &Solver, f: Seq<Seq<Lit>>)
        requires
            s0.inv(),
            s0.derived_from(f),
            s1.inv(),
            s1.ok_spec() ==> s0.ok_spec() && s1.original_spec() == s0.original_spec() && s0.clauses_spec().len() <= s1.clauses_spec().len(),
            s1.ok_spec() ==> forall|c: int, l: Lit|
                0 <= c < s0.clauses_spec().len() && #[trigger] s1.clauses_spec()[c]@.contains(l) ==> s0.clauses_spec()[c]@.contains(l),
            forall|c: int| 0 <= c < s1.clauses_spec().len() ==> entails(f, #[trigger] s1.clauses_spec()[c]@),
            !s1.ok_spec() ==> unsatisfiable(f),
            s0.ground_len() <= s1.ground_len(),
            s1.ground_len() <= s1.trail().len(),
            forall|i: int| 0 <= i < s0.ground_len() ==> #[trigger] s1.trail()[i] == s0.trail()[i],
            forall|i: int|
                s0.ground_len() <= i < s1.ground_len() ==> (#[trigger] s1.assignment_spec().data()[s1.trail()[i].var()@ as int]).reason_spec() is Some,
        ensures
            s1.derived_from(f),
    {
        assert forall|i: int| 0 <= i < s0.ground_len() implies entails_lit(f, #[trigger] s1.assignment.trail_spec()[i]) by {
            assert(s1.trail()[i] == s0.trail()[i]);
            assert(entails_lit(f, s0.trail()[i]));
        }
        assert forall|c: int| 0 <= c < s1.ca@.len() implies entails(f, #[trigger] s1.ca@[c]@) by {
            assert(entails(f, s1.clauses_spec()[c]@));
        }
        lemma_units_by_reasons(f, s1.ca@, &s1.assignment, s0.ground_len() as int, s1.ground_len() as int);
        Solver::lemma_covers_mono(s0, s1, f);
    }

    /// In a walk over the cubes of `vars`: when every decision is the literal of `cube` at its
    /// level, a clause that follows from `f` with the first `l` literals of the cube as units
    /// (at least one per level) and is false refutes that formula.
    proof fn lemma_walk_refutes(s: &Solver, f: Seq<Seq<Lit>>, vars: Seq<Var>, cube: Seq<bool>, l: int, cl: Seq<Lit>)
        requires
            s.inv(),
            s.derived_from(f),
            s.level_count() <= l <= cube.len(),
            vars.len() == cube.len(),
            decided_by(s.trail(), s.assignment_spec().data(), cube_lits_spec(vars, cube)),
            entails(with_units(f, cube_lits_spec(vars, cube.take(l))), cl),
            forall|k: int| 0 <= k < cl.len() ==> lit_value(s.values(), #[trigger] cl[k]) == LBool::False && cl[k].var()@ < s.values().len(),
        ensures
            unsatisfiable(with_units(f, cube_lits_spec(vars, cube.take(l)))),
    {
        let pre = cube_lits_spec(vars, cube.take(l));
        let f2 = with_units(f, pre);
        let t = s.trail();
        let data = s.assignment.data();
        let lim = s.assignment.lim_spec();
        lemma_with_units(f, pre);
        assert forall|c: int| 0 <= c < s.ca@.len() implies entails(f2, #[trigger] s.ca@[c]@) by {
            assert(entails(f, s.clauses_spec()[c]@));
        }
        assert forall|i: int| 0 <= i < t.len() implies (#[trigger] data[t[i].var()@ as int]).reason_spec() is Some || entails_lit(f2, t[i]) by {
            let lvl = data[t[i].var()@ as int].level_spec() as int;
            assert(level_fits(lim, lvl, i));
            if lvl == 0 {
                if lim.len() > 0 {
                    assert(i < lim[0]);
                }
                assert(i < s.ground_len());
                assert(entails_lit(f, t[i]));
            } else if data[t[i].var()@ as int].reason_spec() is None {
                assert(t[i] == cube_lits_spec(vars, cube)[lvl - 1]);
                assert(pre[lvl - 1] == t[i]);
                assert(entails_lit(f2, pre[lvl - 1]));
            }
        }
        lemma_trail_entailed(f2, s.ca@, &s.assignment, 0, t.len() as int);
        lemma_false_clause_unsat(f2, &s.assignment, cl);
    }

    /// A clause that follows from `f` and is false at level 0 refutes `f`.
    proof fn lemma_false_clause_refutes(s: &Solver, f: Seq<Seq<Lit>>, cl: Seq<Lit>)
        requires
            s.inv(),
            s.derived_from(f),
            s.level_count() == 0,
            entails(f, cl),
            lits_in_range(cl, s.num_vars_spec()),
            clause_false(cl, s.values()),
        ensures
            unsatisfiable(f),
    {
        let t = s.trail();
        let vals = s.values();
        assert forall|m: spec_fn(int) -> bool| !#[trigger] formula_model(m, f) by {
            if formula_model(m, f) {
                assert(model_clause(m, cl));
                let x = choose|x: int| 0 <= x < cl.len() && model_lit(m, #[trigger] cl[x]);
                let lit = cl[x];
                assert(lit_value(vals, lit) == LBool::False);
                assert(vals[lit.var()@ as int] != LBool::Undef);
                assert(var_on_trail_before(t, lit.var()@, t.len() as int));
                let j = choose|j: int| 0 <= j < t.len() && (#[trigger] t[j]).var()@ == lit.var()@;
                Var::lemma_view_injective(t[j].var(), lit.var());
                assert(lit_value(vals, t[j]) == LBool::True);
                assert(lit.negated() != t[j].negated());
                assert(entails_lit(f, t[j]));
                assert(model_lit(m, t[j]));
            }
        }
    }

    /// Dropping literals fixed to false at level 0 from clauses keeps the derivation from `f`.
    proof fn lemma_derived_shrunk(s0: &Solver, s1: &Solver, f: Seq<Seq<Lit>>)
        requires
            s0.inv(),
            s0.derived_from(f),
            s1.clauses_spec().len() == s0.clauses_spec().len(),
            forall|c: int|
                0 <= c < s0.clauses_spec().len() ==> shrunk(#[trigger] s1.clauses_spec()[c]@, s0.clauses_spec()[c]@, &s0.assignment),
            s1.ok_spec() == s0.ok_spec(),
            s1.assignment_spec() == s0.assignment_spec(),
            s1.original_spec() == s0.original_spec(),
        ensures
            s1.derived_from(f),
    {
        let t = s0.trail();
        let vals = s0.values();
        let a = s0.assignment;
        assert forall|c: int| 0 <= c < s1.clauses_spec().len() implies entails(f, #[trigger] s1.clauses_spec()[c]@) by {
            let oc = s0.clauses_spec()[c]@;
            let nc = s1.clauses_spec()[c]@;
            assert(entails(f, oc));
            assert(lits_in_range(oc, s0.next_var as nat));
            assert(shrunk(nc, oc, &s0.assignment));
            if nc != oc {
                assert forall|m: spec_fn(int) -> bool| #[trigger] formula_model(m, f) implies model_clause(m, nc) by {
                    assert(model_clause(m, oc));
                    let x = choose|x: int| 0 <= x < oc.len() && model_lit(m, #[trigger] oc[x]);
                    let l = oc[x];
                    assert(oc.contains(l));
                    if nc.contains(l) {
                        let y = choose|y: int| 0 <= y < nc.len() && nc[y] == l;
                        assert(model_lit(m, nc[y]));
                    } else {
                        assert(a.fixed_spec(l) == LBool::False);
                        assert(vals[l.var()@ as int] != LBool::Undef);
                        assert(var_on_trail_before(t, l.var()@, t.len() as int));
                        let j = choose|j: int| 0 <= j < t.len() && (#[trigger] t[j]).var()@ == l.var()@;
                        Var::lemma_view_injective(t[j].var(), l.var());
                        assert(lit_value(vals, t[j]) == LBool::True);
                        assert(l.negated() != t[j].negated());
                        assert(level_fits(a.lim_spec(), a.data()[t[j].var()@ as int].level_spec() as int, j));
                        assert(j < s0.ground_len());
                        assert(entails_lit(f, t[j]));
                        assert(model_lit(m, t[j]));
                    }
                }
            }
        }
        assert forall|c: int, l: Lit| 0 <= c < s0.clauses_spec().len() && #[trigger] s1.clauses_spec()[c]@.contains(l) implies s0.clauses_spec()[
            c]@.contains(l) by {
            assert(shrunk(s1.clauses_spec()[c]@, s0.clauses_spec()[c]@, &s0.assignment));
        }
        Solver::lemma_covers_mono(s0, s1, f);
    }

    /// A clause implied by the clauses and the level-0 literals of a solver that holds `f`
    /// follows from `f`.
    pub proof fn lemma_derived_implied(s: &Solver, f: Seq<Seq<Lit>>, cl: Seq<Lit>)
        requires
            s.inv(),
            s.derived_from(f),
            implied(s.clauses_spec(), s.trail().take(s.ground_len() as int), cl),
        ensures
            entails(f, cl),
    {
        let units = s.trail().take(s.ground_len() as int);
        if s.level_count() > 0 {
            assert(s.assignment.lim_spec()[0] <= s.assignment.trail_spec().len());
        }
        assert forall|i: int| 0 <= i < units.len() implies entails_lit(f, #[trigger] units[i]) by {
            assert(units[i] == s.trail()[i]);
        }
        assert forall|c: int| 0 <= c < s.clauses_spec().len() implies entails(f, #[trigger] s.clauses_spec()[c]@) by {}
        lemma_implied_entailed(f, s.clauses_spec(), units, cl);
    }

    /// The derivation from `f` carries over to a state with the same clauses (up to the order
    /// of their literals), consistent unless the first was not, and a level-0 trail that
    /// extends the first one with literals assigned with a reason.
    proof fn lemma_derived_kept(s0: &Solver, s1: &Solver, f: Seq<Seq<Lit>>)
        requires
            s0.inv(),
            s0.derived_from(f),
            s1.inv(),
            s1.original_spec() == s0.original_spec(),
            s1.clauses_spec().len() == s0.clauses_spec().len(),
            forall|c: int| 0 <= c < s0.clauses_spec().len() ==> (#[trigger] s1.clauses_spec()[c])@.to_multiset() == s0.clauses_spec()[c]@.to_multiset(),
            s1.ok_spec() == s0.ok_spec(),
            s0.ground_len() <= s1.ground_len(),
            s1.ground_len() <= s1.trail().len(),
            forall|i: int| 0 <= i < s0.ground_len() ==> #[trigger] s1.trail()[i] == s0.trail()[i],
            forall|i: int|
                s0.ground_len() <= i < s1.ground_len() ==> (#[trigger] s1.assignment_spec().data()[s1.trail()[i].var()@ as int]).reason_spec() is Some,
        ensures
            s1.derived_from(f),
    {
        assert forall|c: int| 0 <= c < s1.clauses_spec().len() implies entails(f, #[trigger] s1.clauses_spec()[c]@) by {
            assert(entails(f, s0.clauses_spec()[c]@));
            lemma_entails_perm(f, s0.clauses_spec()[c]@, s1.clauses_spec()[c]@);
        }
        assert forall|i: int| 0 <= i < s0.ground_len() implies entails_lit(f, #[trigger] s1.assignment.trail_spec()[i]) by {
            assert(s1.trail()[i] == s0.trail()[i]);
            assert(entails_lit(f, s0.trail()[i]));
        }
        lemma_units_by_reasons(f, s1.ca@, &s1.assignment, s0.ground_len() as int, s1.ground_len() as int);
        assert forall|c: int, l: Lit| 0 <= c < s0.clauses_spec().len() && #[trigger] s1.clauses_spec()[c]@.contains(l) implies s0.clauses_spec()[
            c]@.contains(l) by {
            lemma_perm_contains(s0.clauses_spec()[c]@, s1.clauses_spec()[c]@);
        }
        Solver::lemma_covers_mono(s0, s1, f);
    }

    /// Creates variables until variable `max_var` exists.
    fn grow_vars(&mut self, max_var: u32)
        requires
            old(self).inv(),
            max_var + 2 < 0x7fff_ffff,
        ensures
            final(self).inv(),
            final(self).next_var == (if old(self).next_var <= max_var {
                max_var + 1
            } else {
                old(self).next_var as int
            }),
            final(self).ok == old(self).ok,
            final(self).ca@ == old(self).ca@,
            final(self).db.clauses_spec() == old(self).db.clauses_spec(),
            final(self).db.learnts_spec() == old(self).db.learnts_spec(),
            final(self).assignment.lim_spec() == old(self).assignment.lim_spec(),
            final(self).assignment.trail_spec() == old(self).assignment.trail_spec(),
            final(self).assignment.qhead_spec() == old(self).assignment.qhead_spec(),
            final(self).assignment.values().len() == final(self).next_var,
            forall|v: int| 0 <= v < old(self).next_var ==> #[trigger] final(self).assignment.values()[v] == old(self).assignment.values()[v],
            forall|v: int| old(self).next_var <= v < final(self).next_var ==> #[trigger] final(self).assignment.values()[v] == LBool::Undef,
            old(self).watches_sound() ==> final(self).watches_sound(),
    {
        while self.next_var <= max_var
            invariant
                self.inv(),
                self.ok == old(self).ok,
                self.assignment.lim_spec() == old(self).assignment.lim_spec(),
                self.assignment.trail_spec() == old(self).assignment.trail_spec(),
                self.assignment.qhead_spec() == old(self).assignment.qhead_spec(),
                old(self).watches_sound() ==> self.watches_sound(),
                self.assignment.values().len() == self.next_var,
                old(self).assignment.values().len() == old(self).next_var,
                forall|v: int| 0 <= v < old(self).next_var ==> #[trigger] self.assignment.values()[v] == old(self).assignment.values()[v],
                forall|v: int| old(self).next_var <= v < self.next_var ==> #[trigger] self.assignment.values()[v] == LBool::Undef,
                self.ca@ == old(self).ca@,
                self.db.clauses_spec() == old(self).db.clauses_spec(),
                self.db.learnts_spec() == old(self).db.learnts_spec(),
                old(self).next_var <= self.next_var,
                self.next_var <= max_var + 1 || self.next_var == old(self).next_var,
                max_var + 2 < 0x7fff_ffff,
            decreases max_var + 1 - self.next_var,
        {
            self.new_var();
        }
    }

    /// Stores and watches the original clause `lits` (at level 0).
    fn attach_original(&mut self, lits: &[Lit], Ghost(sound): Ghost<bool>)
        requires
            old(self).inv(),
            old(self).level_count() == 0,
            lits@.len() >= 2,
            forall|k: int| 0 <= k < lits@.len() ==> (#[trigger] lits@[k]).var()@ < old(self).num_vars_spec(),
            sound ==> old(self).watches_sound() && lit_value(old(self).values(), lits@[0]) != LBool::False && lit_value(
                old(self).values(),
                lits@[1],
            ) != LBool::False,
        ensures
            final(self).inv(),
            final(self).ok == old(self).ok,
            final(self).next_var == old(self).next_var,
            final(self).level_count() == 0,
            final(self).trail() == old(self).trail(),
            final(self).clauses_spec().len() == old(self).clauses_spec().len() + 1,
            final(self).clauses_spec().take(old(self).clauses_spec().len() as int) == old(self).clauses_spec(),
            final(self).clauses_spec().last()@ == lits@,
            !final(self).clauses_spec().last().learnt_spec(),
            !final(self).clauses_spec().last().deleted_spec(),
            final(self).original_spec() == old(self).original_spec().push(final(self).original_spec().last()),
            final(self).original_spec().last()@ == old(self).clauses_spec().len(),
            final(self).learnt_spec() == old(self).learnt_spec(),
            sound ==> final(self).watches_sound(),
    {
        let ghost ca0 = self.ca@;
        let ghost db0 = self.db;
        let ghost t0 = self.assignment.trail_spec();
        let cref = self.db.new_clause(vstd::slice::slice_to_vec(lits), false, &mut self.ca);
        proof {
            lemma_push_clause_keeps(ca0, self.ca@, self.assignment.values(), self.assignment.data(), t0, self.watchlist.lists(), self.next_var as nat);
            lemma_push_clause_watched(ca0, self.ca@, self.watchlist.lists(), self.assignment.values(), self.assignment.data(), self.next_var as nat);
            if sound {
                lemma_complete_push(ca0, self.ca@, self.assignment.values(), self.assignment.data(), t0, self.assignment.qhead_spec() as int);
            }
        }
        self.attach_clause(cref);
        proof {
            assert(self.ca@.take(ca0.len() as int) =~= ca0);
            assert(self.db.clauses_spec() =~= db0.clauses_spec().push(cref));
        }
    }

    /// Adds an original clause. An empty clause makes the solver unsatisfiable; nothing is
    /// added once the solver is unsatisfiable. Otherwise the solver goes back to level 0,
    /// creates the variables that `lits` mentions, and then either stores and watches the
    /// clause (two literals or more) or assigns its literal (a unit clause), which fails
    /// when the literal is false. Returns whether the solver is still consistent.
    #[verifier::spinoff_prover]
    #[verifier::rlimit(100)]
    pub fn add_clause(&mut self, lits: &[Lit]) -> (res: bool)
        requires
            old(self).inv(),
            forall|k: int| 0 <= k < lits@.len() ==> (#[trigger] lits@[k]).var()@ + 2 < 0x7fff_ffff,
        ensures
            final(self).inv(),
            res == final(self).ok_spec(),
            lits@.len() == 0 ==> !res,
            !old(self).ok_spec() ==> !res && final(self).clauses_spec() == old(self).clauses_spec()
                && final(self).trail() == old(self).trail() && final(self).num_vars_spec() == old(self).num_vars_spec(),
            final(self).learnt_spec() == old(self).learnt_spec(),
            old(self).ok_spec() && lits@.len() > 0 ==> {
                &&& final(self).level_count() == 0
                &&& forall|k: int| 0 <= k < lits@.len() ==> (#[trigger] lits@[k]).var()@ < final(self).num_vars_spec()
                &&& final(self).num_vars_spec() >= old(self).num_vars_spec()
                &&& (final(self).num_vars_spec() == old(self).num_vars_spec() || exists|k: int|
                    0 <= k < lits@.len() && (#[trigger] lits@[k]).var()@ + 1 == final(self).num_vars_spec())
                &&& lits@.len() >= 2 ==> {
                    &&& res
                    &&& final(self).trail() == old(self).trail().take(old(self).ground_len() as int)
                    &&& final(self).clauses_spec().len() == old(self).clauses_spec().len() + 1
                    &&& final(self).clauses_spec().take(old(self).clauses_spec().len() as int) == old(self).clauses_spec()
                    &&& final(self).clauses_spec().last()@ == lits@
                    &&& !final(self).clauses_spec().last().learnt_spec()
                    &&& !final(self).clauses_spec().last().deleted_spec()
                    &&& final(self).original_spec().len() == old(self).original_spec().len() + 1
                    &&& final(self).original_spec().take(old(self).original_spec().len() as int) == old(self).original_spec()
                    &&& final(self).original_spec().last()@ == old(self).clauses_spec().len()
                }
                &&& lits@.len() == 1 ==> {
                    &&& (res <==> lit_value(final(self).values(), lits@[0]) == LBool::True)
                    &&& final(self).clauses_spec() == old(self).clauses_spec()
                    &&& final(self).original_spec() == old(self).original_spec()
                    &&& (final(self).trail() == old(self).trail().take(old(self).ground_len() as int)
                        || final(self).trail() == old(self).trail().take(old(self).ground_len() as int).push(lits@[0]))
                }
            },
            old(self).ok_spec() && lits@.len() > 0 && old(self).root_sound() && (lits@.len() >= 2 ==> old(self).not_fixed_false(lits@[0])
                && old(self).not_fixed_false(lits@[1])) ==> final(self).watches_sound(),
            forall|f: Seq<Seq<Lit>>| #[trigger] old(self).derived_from(f) ==> final(self).derived_from(f.push(lits@)),
    {
        if lits.len() == 0 {
            self.ok = false;
            proof {
                assert forall|f: Seq<Seq<Lit>>| #[trigger] old(self).derived_from(f) implies self.derived_from(f.push(lits@)) by {
                    lemma_entails_push(f, lits@);
                    assert forall|m: spec_fn(int) -> bool| !#[trigger] formula_model(m, f.push(lits@)) by {
                        if formula_model(m, f.push(lits@)) {
                            assert(model_clause(m, lits@));
                        }
                    }
                    Solver::lemma_derived_refuted(&*old(self), &*self, f, lits@);
                }
            }
            return false;
        }
        if !self.ok {
            proof {
                assert forall|f: Seq<Seq<Lit>>| #[trigger] old(self).derived_from(f) implies self.derived_from(f.push(lits@)) by {
                    Solver::lemma_derived_weaken(&*old(self), f, lits@);
                }
            }
            return false;
        }
        let ghost premise = old(self).root_sound() && (lits@.len() >= 2 ==> old(self).not_fixed_false(lits@[0])
            && old(self).not_fixed_false(lits@[1]));
        if self.assignment.decision_level() > 0 {
            self.backtrack(0);
        }
        let ghost s_bt = *self;
        let ghost t0 = self.assignment.trail_spec();
        let ghost ca0 = self.ca@;
        let ghost db0 = self.db;
        let ghost vb = self.assignment.values();
        proof {
            lemma_root_assigned(&old(self).assignment, &self.assignment);
        }
        let max_var = max_var_of(lits);
        let ghost n0 = self.next_var;
        proof {
            let w = choose|j: int| 0 <= j < lits@.len() && (#[trigger] lits@[j]).var()@ == max_var;
            assert(lits@[w].var()@ == max_var);
        }
        self.grow_vars(max_var);
        let ghost s_mid = *self;
        proof {
            assert forall|f: Seq<Seq<Lit>>| #[trigger] old(self).derived_from(f) implies s_mid.derived_from(f) by {
                assert(s_bt.derived_from(f));
                Solver::lemma_derived_same_ground(&s_bt, &s_mid, f);
            }
        }
        if lits.len() >= 2 {
            proof {
                if premise {
                    let vals = self.assignment.values();
                    lemma_root_lit_not_false(&old(self).assignment, vb, vals, lits@[0]);
                    lemma_root_lit_not_false(&old(self).assignment, vb, vals, lits@[1]);
                }
            }
            self.attach_original(lits, Ghost(premise));
            proof {
                assert forall|f: Seq<Seq<Lit>>| #[trigger] old(self).derived_from(f) implies self.derived_from(f.push(lits@)) by {
                    assert(s_mid.derived_from(f));
                    Solver::lemma_derived_push_clause(&s_mid, &*self, f, lits@);
                }
            }
        } else {
            let lit = lits[0];
            let ghost vals = self.assignment.values();
            let ghost data = self.assignment.data();
            let ghost q = self.assignment.qhead_spec();
            if !self.assignment.enqueue(lit, None) {
                self.ok = false;
            }
            proof {
                if lit_value(vals, lit) == LBool::Undef {
                    crate::assignment::lemma_lim_len_bound(&self.assignment);
                    lemma_enqueue_keeps_old_reasons(self.ca@, vals, data, t0, self.assignment.lim_spec(), q, lit, None);
                    lemma_enqueue_keeps_decisions(vals, data, t0, self.assignment.lim_spec(), q, lit, None);
                }
                if premise {
                    assert(self.assignment.trail_spec().take(t0.len() as int) =~= t0);
                    lemma_complete_assign(
                        self.ca@,
                        vals,
                        data,
                        t0,
                        self.assignment.values(),
                        self.assignment.data(),
                        self.assignment.trail_spec(),
                        q as int,
                        self.next_var as nat,
                    );
                }
                assert(lits@ =~= seq![lit]);
                assert forall|f: Seq<Seq<Lit>>| #[trigger] old(self).derived_from(f) implies self.derived_from(f.push(lits@)) by {
                    assert(s_mid.derived_from(f));
                    if lit_value(vals, lit) == LBool::Undef {
                        Solver::lemma_derived_push_unit(&s_mid, &*self, f, lit);
                    } else if lit_value(vals, lit) == LBool::True {
                        let t = s_mid.trail();
                        assert(vals[lit.var()@ as int] != LBool::Undef);
                        assert(var_on_trail_before(t, lit.var()@, t.len() as int));
                        let j = choose|j: int| 0 <= j < t.len() && (#[trigger] t[j]).var()@ == lit.var()@;
                        Var::lemma_view_injective(t[j].var(), lit.var());
                        assert(lit_value(vals, t[j]) == LBool::True);
                        assert(t[j].negated() == lit.negated());
                        Lit::lemma_var_negated_determine(t[j], lit);
                        assert forall|m: spec_fn(int) -> bool| #[trigger] state_model(
                            m,
                            s_mid.clauses_spec(),
                            s_mid.original_spec(),
                            t,
                            s_mid.ground_len() as int,
                        ) implies model_clause(m, lits@) by {
                            assert(model_lit(m, t[j]));
                            assert(lits@[0] == lit);
                        }
                        Solver::lemma_derived_weaken(&s_mid, f, lits@);
                        Solver::lemma_derived_same_ground(&s_mid, &*self, f.push(lits@));
                    } else {
                        Solver::lemma_false_unit_refutes(&s_mid, f, lit);
                        Solver::lemma_derived_refuted(&s_mid, &*self, f, lits@);
                    }
                }
            }
        }
        self.ok
    }

    /// Adds the clause written with external (DIMACS) literals, see [`Solver::add_clause`].
    pub fn add_clause_external(&mut self, lits: &[i32])
        requires
            old(self).inv(),
            forall|k: int| 0 <= k < lits@.len() ==> #[trigger] lits@[k] != 0 && -0x7fff_fffd <= lits@[k] <= 0x7fff_fffd,
        ensures
            final(self).inv(),
            lits@.len() == 0 ==> !final(self).ok_spec(),
            !old(self).ok_spec() ==> !final(self).ok_spec() && final(self).clauses_spec() == old(self).clauses_spec(),
            old(self).ok_spec() && lits@.len() >= 2 ==> {
                &&& final(self).ok_spec()
                &&& final(self).clauses_spec().len() == old(self).clauses_spec().len() + 1
                &&& final(self).clauses_spec().last()@ == lits@.map_values(|l: i32| Lit::spec_from_code(external_code(l)))
            },
            old(self).ok_spec() && lits@.len() > 0 && old(self).root_sound() && (lits@.len() >= 2 ==> old(self).not_fixed_false(
                Lit::spec_from_code(external_code(lits@[0])),
            ) && old(self).not_fixed_false(Lit::spec_from_code(external_code(lits@[1])))) ==> final(self).watches_sound(),
            forall|f: Seq<Seq<Lit>>| #[trigger] old(self).derived_from(f) ==> final(self).derived_from(
                f.push(lits@.map_values(|l: i32| Lit::spec_from_code(external_code(l)))),
            ),
            !old(self).ok_spec() ==> final(self).num_vars_spec() == old(self).num_vars_spec(),
            old(self).ok_spec() && lits@.len() > 0 ==> {
                &&& forall|k: int| 0 <= k < lits@.len() ==> abs_i32(#[trigger] lits@[k]) <= final(self).num_vars_spec()
                &&& final(self).num_vars_spec() >= old(self).num_vars_spec()
                &&& (final(self).num_vars_spec() == old(self).num_vars_spec() || exists|k: int|
                    0 <= k < lits@.len() && abs_i32(#[trigger] lits@[k]) == final(self).num_vars_spec())
            },
    {
        let mut clause: Vec<Lit> = Vec::new();
        let mut k: usize = 0;
        while k < lits.len()
            invariant
                k <= lits@.len(),
                forall|j: int| 0 <= j < lits@.len() ==> #[trigger] lits@[j] != 0 && -0x7fff_fffd <= lits@[j] <= 0x7fff_fffd,
                clause@ == lits@.take(k as int).map_values(|l: i32| Lit::spec_from_code(external_code(l))),
            decreases lits@.len() - k,
        {
            let lit = Lit::from_external(lits[k]);
            clause.push(lit);
            proof {
                let sl = Lit::spec_from_code(external_code(lits@[k as int]));
                Lit::lemma_view_injective(lit, sl);
                assert(clause@ =~= lits@.take(k + 1).map_values(|l: i32| Lit::spec_from_code(external_code(l))));
            }
            k = k + 1;
        }
        proof {
            assert(lits@.take(lits@.len() as int) =~= lits@);
            assert forall|j: int| 0 <= j < clause@.len() implies (#[trigger] clause@[j]).var()@ + 2 < 0x7fff_ffff by {
                let l = lits@[j];
                crate::lit::lemma_lit_external_roundtrip(l);
                crate::lit::lemma_lit_var_view(clause@[j]);
                crate::lit::lemma_external_code_var(l);
            }
        }
        let _ = self.add_clause(clause.as_slice());
        proof {
            assert forall|k: int| 0 <= k < lits@.len() implies (#[trigger] clause@[k]).var()@ == abs_i32(lits@[k]) - 1 by {
                crate::lit::lemma_lit_var_view(clause@[k]);
                crate::lit::lemma_external_code_var(lits@[k]);
                Lit::lemma_from_code_view(external_code(lits@[k]));
            }
            if old(self).ok_spec() && lits@.len() > 0 && self.num_vars_spec() != old(self).num_vars_spec() {
                let k = choose|k: int| 0 <= k < clause@.len() && (#[trigger] clause@[k]).var()@ + 1 == self.num_vars_spec();
                assert(abs_i32(lits@[k]) == self.num_vars_spec());
            }
            assert forall|k: int| 0 <= k < lits@.len() && old(self).ok_spec() implies abs_i32(#[trigger] lits@[k]) <= self.num_vars_spec() by {
                assert(clause@[k].var()@ < self.num_vars_spec());
            }
        }
    }

    /// Allocates a new variable and returns its positive literal.
    pub fn new_lit(&mut self) -> (res: Lit)
        requires
            old(self).inv(),
            old(self).num_vars_spec() + 1 < 0x7fff_ffff,
        ensures
            final(self).inv(),
            res.var()@ == old(self).num_vars_spec(),
            !res.negated(),
            final(self).num_vars_spec() == old(self).num_vars_spec() + 1,
            final(self).values() == old(self).values().push(LBool::Undef),
            final(self).trail() == old(self).trail(),
            final(self).clauses_spec() == old(self).clauses_spec(),
            forall|f: Seq<Seq<Lit>>| #[trigger] old(self).derived_from(f) ==> final(self).derived_from(f),
    {
        let var = self.new_var();
        Lit::new(var, false)
    }

    /// Brings the solver back to its initial state: no variable, no clause.
    pub fn reset(&mut self)
        ensures
            final(self).inv(),
            final(self).num_vars_spec() == 0,
            final(self).ok_spec(),
            final(self).clauses_spec().len() == 0,
            final(self).original_spec().len() == 0,
            final(self).learnt_spec().len() == 0,
            final(self).trail().len() == 0,
            final(self).level_count() == 0,
            final(self).events_spec().len() == 0,
            final(self).derived_from(Seq::empty()),
    {
        *self = Solver::new();
    }

    /// Adds a learnt clause at level 0 (nothing once the solver is unsatisfiable; an empty
    /// clause makes it unsatisfiable). A unit clause assigns its literal and propagates it (a
    /// conflict makes the solver unsatisfiable); a longer clause is stored as learnt, watched
    /// and reported for an activity bump. The clause database is then simplified.
    pub fn add_learnt(&mut self, lits: &[Lit]) -> (res: bool)
        requires
            old(self).inv(),
            old(self).level_count() == 0,
            forall|k: int| 0 <= k < lits@.len() ==> (#[trigger] lits@[k]).var()@ < old(self).num_vars_spec(),
            old(self).ok_spec() && lits@.len() == 1 ==> lit_value(old(self).values(), lits@[0]) != LBool::False,
        ensures
            final(self).inv(),
            res == final(self).ok_spec(),
            lits@.len() == 0 ==> !res,
            !old(self).ok_spec() ==> !res,
            final(self).num_vars_spec() == old(self).num_vars_spec(),
            final(self).level_count() == 0,
            final(self).original_spec() == old(self).original_spec(),
            final(self).trail().take(old(self).trail().len() as int) == old(self).trail(),
            old(self).ok_spec() && lits@.len() == 1 ==> {
                &&& final(self).learnt_spec() == old(self).learnt_spec()
                &&& lit_value(final(self).values(), lits@[0]) == LBool::True
                &&& final(self).clauses_spec().len() == old(self).clauses_spec().len()
            },
            old(self).ok_spec() && lits@.len() >= 2 ==> {
                &&& res
                &&& final(self).trail() == old(self).trail()
                &&& final(self).clauses_spec().len() == old(self).clauses_spec().len() + 1
                &&& final(self).clauses_spec().last()@[0] == lits@[0]
                &&& final(self).clauses_spec().last().learnt_spec()
                &&& final(self).learnt_spec().len() == old(self).learnt_spec().len() + 1
                &&& final(self).learnt_spec().take(old(self).learnt_spec().len() as int) == old(self).learnt_spec()
                &&& final(self).learnt_spec().last()@ == old(self).clauses_spec().len()
                &&& final(self).events_spec() == old(self).events_spec().push(ActivityEvent::BumpClause(final(self).learnt_spec().last()))
            },
            old(self).watches_sound() && final(self).ok_spec() && (lits@.len() >= 2 ==> old(self).not_fixed_false(lits@[0])
                && old(self).not_fixed_false(lits@[1])) ==> final(self).watches_sound(),
            forall|f: Seq<Seq<Lit>>| #[trigger] old(self).derived_from(f) && entails(f, lits@) ==> final(self).derived_from(f),
    {
        if lits.len() == 0 {
            self.ok = false;
        }
        if !self.ok {
            proof {
                assert forall|f: Seq<Seq<Lit>>| #[trigger] old(self).derived_from(f) && entails(f, lits@) implies self.derived_from(f) by {
                    assert forall|m: spec_fn(int) -> bool| !#[trigger] formula_model(m, f) by {
                        if formula_model(m, f) && lits@.len() == 0 {
                            assert(model_clause(m, lits@));
                        }
                    }
                    assert forall|c: int| 0 <= c < self.clauses_spec().len() implies entails(f, #[trigger] self.clauses_spec()[c]@) by {
                        assert(entails(f, old(self).clauses_spec()[c]@));
                    }
                    Solver::lemma_derived_grow(&*old(self), &*self, f);
                }
            }
            return false;
        }
        if lits.len() == 1 {
            let lit = lits[0];
            let ghost vals = self.assignment.values();
            let ghost data = self.assignment.data();
            let ghost t0 = self.assignment.trail_spec();
            let ghost q = self.assignment.qhead_spec();
            let _ = self.assignment.enqueue(lit, None);
            proof {
                if lit_value(vals, lit) == LBool::Undef {
                    crate::assignment::lemma_lim_len_bound(&self.assignment);
                    lemma_enqueue_keeps_old_reasons(self.ca@, vals, data, t0, self.assignment.lim_spec(), q, lit, None);
                    lemma_enqueue_keeps_decisions(vals, data, t0, self.assignment.lim_spec(), q, lit, None);
                }
                assert(self.assignment.trail_spec().take(t0.len() as int) =~= t0);
                if old(self).watches_sound() {
                    lemma_complete_assign(
                        self.ca@,
                        vals,
                        data,
                        t0,
                        self.assignment.values(),
                        self.assignment.data(),
                        self.assignment.trail_spec(),
                        q as int,
                        self.next_var as nat,
                    );
                }
            }
            let ghost t1 = self.assignment.trail_spec();
            let ghost vals1 = self.assignment.values();
            let ghost s_e = *self;
            proof {
                assert forall|f: Seq<Seq<Lit>>| #[trigger] old(self).derived_from(f) && entails(f, lits@) implies s_e.derived_from(f) by {
                    assert forall|m: spec_fn(int) -> bool| #[trigger] formula_model(m, f) implies model_lit(m, lit) by {
                        assert(model_clause(m, lits@));
                    }
                    assert forall|i: int| 0 <= i < s_e.ground_len() implies entails_lit(f, #[trigger] s_e.trail()[i]) by {
                        if i < t0.len() {
                            assert(s_e.trail().take(t0.len() as int)[i] == s_e.trail()[i]);
                            assert(entails_lit(f, old(self).trail()[i]));
                        } else {
                            assert(s_e.trail()[i] == lit);
                        }
                    }
                    assert forall|c: int| 0 <= c < s_e.clauses_spec().len() implies entails(f, #[trigger] s_e.clauses_spec()[c]@) by {
                        assert(entails(f, old(self).clauses_spec()[c]@));
                    }
                    assert forall|i: int| 0 <= i < old(self).ground_len() implies #[trigger] s_e.trail()[i] == old(self).trail()[i] by {
                        assert(s_e.trail().take(t0.len() as int)[i] == s_e.trail()[i]);
                    }
                    Solver::lemma_covers_mono(&*old(self), &s_e, f);
                }
            }
            let confl = self.propagate();
            let ghost s_p = *self;
            if confl.is_some() {
                self.ok = false;
            }
            proof {
                lemma_take_take(self.assignment.trail_spec(), t1, t0);
                assert(self.assignment.values()[lit.var()@ as int] == vals1[lit.var()@ as int]);
                assert forall|f: Seq<Seq<Lit>>| #[trigger] old(self).derived_from(f) && entails(f, lits@) implies self.derived_from(f) by {
                    assert(s_e.derived_from(f));
                    assert(s_p.derived_from(f));
                    if confl is Some {
                        let c = confl->0;
                        let cl = s_p.ca@[c@ as int]@;
                        assert(entails(f, s_p.clauses_spec()[c@ as int]@));
                        assert(lits_in_range(cl, s_p.next_var as nat));
                        assert(clause_false(cl, s_p.values()));
                        Solver::lemma_false_clause_refutes(&s_p, f, cl);
                    }
                    assert forall|c: int| 0 <= c < self.clauses_spec().len() implies entails(f, #[trigger] self.clauses_spec()[c]@) by {
                        assert(entails(f, s_p.clauses_spec()[c]@));
                    }
                    Solver::lemma_derived_grow(&s_p, &*self, f);
                }
            }
        } else {
            let ghost ca0 = self.ca@;
            let ghost db0 = self.db;
            let cref = self.db.new_clause(vstd::slice::slice_to_vec(lits), true, &mut self.ca);
            proof {
                lemma_push_clause_keeps(ca0, self.ca@, self.assignment.values(), self.assignment.data(), self.assignment.trail_spec(), self.watchlist.lists(), self.next_var as nat);
                lemma_push_clause_watched(ca0, self.ca@, self.watchlist.lists(), self.assignment.values(), self.assignment.data(), self.next_var as nat);
                if old(self).watches_sound() && old(self).not_fixed_false(lits@[0]) && old(self).not_fixed_false(lits@[1]) {
                    let vals = self.assignment.values();
                    let t = self.assignment.trail_spec();
                    assert forall|k: int| 0 <= k < 2 && lit_value(vals, #[trigger] self.ca@[ca0.len() as int]@[k]) == LBool::False implies false by {
                        let l = lits@[k];
                        assert(self.ca@[ca0.len() as int]@[k] == l);
                        let v = l.var()@;
                        assert(vals[v as int] != LBool::Undef);
                        let i = choose|i: int| 0 <= i < t.len() && (#[trigger] t[i]).var()@ == v;
                        assert(level_fits(self.assignment.lim_spec(), self.assignment.data()[t[i].var()@ as int].level_spec() as int, i));
                        assert(old(self).not_fixed_false(l));
                    }
                    lemma_complete_push(ca0, self.ca@, vals, self.assignment.data(), t, self.assignment.qhead_spec() as int);
                }
            }
            self.attach_clause(cref);
            self.events.push(ActivityEvent::BumpClause(cref));
            proof {
                assert(self.db.learnts_spec().take(db0.learnts_spec().len() as int) =~= db0.learnts_spec());
                assert forall|f: Seq<Seq<Lit>>| #[trigger] old(self).derived_from(f) && entails(f, lits@) implies self.derived_from(f) by {
                    assert forall|c: int| 0 <= c < self.clauses_spec().len() implies entails(f, #[trigger] self.clauses_spec()[c]@) by {
                        if c < ca0.len() {
                            assert(entails(f, old(self).clauses_spec()[c]@));
                        } else {
                            assert(self.clauses_spec()[c]@ == lits@);
                        }
                    }
                    Solver::lemma_derived_grow(&*old(self), &*self, f);
                }
            }
        }
        let ghost s_pre = *self;
        self.simplify();
        proof {
            assert forall|f: Seq<Seq<Lit>>| #[trigger] old(self).derived_from(f) && entails(f, lits@) implies self.derived_from(f) by {
                assert(s_pre.derived_from(f));
            }
        }
        self.ok
    }

    /// Simplifies the clause database at level 0: deletes the clauses with a literal fixed to
    /// true and drops the literals fixed to false from the others (see
    /// [`ClauseDatabase::simplify`]).
    pub fn simplify(&mut self)
        requires
            old(self).inv(),
            old(self).level_count() == 0,
        ensures
            final(self).inv(),
            old(self).watches_sound() ==> final(self).watches_sound(),
            forall|c: int, l: Lit|
                0 <= c < old(self).clauses_spec().len() && #[trigger] final(self).clauses_spec()[c]@.contains(l) ==> old(
                    self,
                ).clauses_spec()[c]@.contains(l),
            final(self).simplifies_spec() == old(self).simplifies_spec() + 1 || final(self).simplifies_spec() == usize::MAX,
            final(self).num_vars_spec() == old(self).num_vars_spec(),
            final(self).assignment_spec() == old(self).assignment_spec(),
            final(self).conflicts_spec() == old(self).conflicts_spec(),
            final(self).ok_spec() == old(self).ok_spec(),
            final(self).values() == old(self).values(),
            final(self).trail() == old(self).trail(),
            final(self).level_count() == 0,
            final(self).original_spec() == old(self).original_spec(),
            final(self).learnt_spec() == old(self).learnt_spec(),
            final(self).events_spec() == old(self).events_spec(),
            final(self).clauses_spec().len() == old(self).clauses_spec().len(),
            forall|c: int|
                0 <= c < old(self).clauses_spec().len() ==> {
                    &&& (#[trigger] final(self).clauses_spec()[c])@ == old(self).clauses_spec()[c]@
                        || lit_value(old(self).values(), old(self).clauses_spec()[c]@[0]) == LBool::Undef
                    &&& final(self).clauses_spec()[c]@[0] == old(self).clauses_spec()[c]@[0]
                    &&& final(self).clauses_spec()[c].learnt_spec() == old(self).clauses_spec()[c].learnt_spec()
                },
            forall|k: int| 0 <= k < old(self).original_spec().len() ==> simplified(
                final(self).clauses_spec()[(#[trigger] old(self).original_spec()[k])@ as int],
                old(self).assignment_spec(),
            ),
            forall|k: int| 0 <= k < old(self).learnt_spec().len() ==> simplified(
                final(self).clauses_spec()[(#[trigger] old(self).learnt_spec()[k])@ as int],
                old(self).assignment_spec(),
            ),
            forall|f: Seq<Seq<Lit>>| #[trigger] old(self).derived_from(f) ==> final(self).derived_from(f),
    {
        self.simplifies = self.simplifies.saturating_add(1);
        let ghost ca0 = self.ca@;
        self.db.simplify(&self.assignment, &mut self.ca);
        proof {
            lemma_shrink_keeps_watches(ca0, self.ca@, self.watchlist.lists(), &self.assignment, self.next_var as nat);
            lemma_simplify_keeps_originals(ca0, self.ca@, self.db.clauses_spec(), self.db.learnts_spec(), &self.assignment);
            assert forall|c: int, l: Lit| 0 <= c < ca0.len() && #[trigger] self.ca@[c]@.contains(l) implies ca0[c]@.contains(l) by {
                assert(shrunk(self.ca@[c]@, ca0[c]@, &self.assignment));
            }
            if old(self).watches_sound() {
                lemma_complete_shrink(ca0, self.ca@, &self.assignment, self.assignment.qhead_spec() as int);
            }
            let ca = self.ca@;
            let vals = self.assignment.values();
            let data = self.assignment.data();
            let t = self.assignment.trail_spec();
            assert forall|i: int| 0 <= i < t.len() implies #[trigger] reason_ok(ca, vals, data, t, i) by {
                assert(reason_ok(ca0, vals, data, t, i));
                match data[t[i].var()@ as int].reason_spec() {
                    None => {},
                    Some(c) => {
                        assert(lit_value(vals, t[i]) == LBool::True);
                        assert(ca[c@ as int]@ == ca0[c@ as int]@);
                    },
                }
            }
            assert forall|c: int| 0 <= c < ca0.len() implies shrunk(#[trigger] self.clauses_spec()[c]@, ca0[c]@, &self.assignment) by {
                assert(shrunk(self.ca@[c]@, ca0[c]@, &self.assignment));
            }
            assert forall|f: Seq<Seq<Lit>>| #[trigger] old(self).derived_from(f) implies self.derived_from(f) by {
                Solver::lemma_derived_shrunk(&*old(self), &*self, f);
            }
        }
    }
}

impl Solver {
    /// The decision level at which `v` was assigned.
    pub open spec fn level_of(&self, v: Var) -> nat {
        self.assignment_spec().data()[v@ as int].level_spec()
    }

    /// [`Solver::analyze`], for callers that only need the learnt clause to be sound and
    /// asserting.
    fn analyze_learn(&mut self, conflict: ClauseRef) -> (res: (Vec<Lit>, usize))
        requires
            old(self).inv(),
            old(self).level_count() > 0,
            conflict@ < old(self).clauses_spec().len(),
            forall|k: int| 0 <= k < old(self).clauses_spec()[conflict@ as int]@.len() ==> lit_value(
                old(self).values(),
                #[trigger] old(self).clauses_spec()[conflict@ as int]@[k],
            ) == LBool::False,
            exists|k: int| 0 <= k < old(self).clauses_spec()[conflict@ as int]@.len()
                && old(self).level_of((#[trigger] old(self).clauses_spec()[conflict@ as int]@[k]).var()) == old(self).level_count(),
        ensures
            final(self).inv(),
            final(self).clauses_spec() == old(self).clauses_spec(),
            final(self).original_spec() == old(self).original_spec(),
            final(self).learnt_spec() == old(self).learnt_spec(),
            final(self).assignment_spec() == old(self).assignment_spec(),
            final(self).polarity_spec() == old(self).polarity_spec(),
            final(self).num_vars_spec() == old(self).num_vars_spec(),
            final(self).ok_spec() == old(self).ok_spec(),
            final(self).watches_spec() == old(self).watches_spec(),
            final(self).conflicts_spec() == old(self).conflicts_spec(),
            final(self).decisions_spec() == old(self).decisions_spec(),
            final(self).restarts_spec() == old(self).restarts_spec(),
            final(self).simplifies_spec() == old(self).simplifies_spec(),
            final(self).reduces_spec() == old(self).reduces_spec(),
            final(self).propagations_spec() == old(self).propagations_spec(),
            final(self).events_spec().len() >= old(self).events_spec().len(),
            final(self).events_spec().take(old(self).events_spec().len() as int) == old(self).events_spec(),
            bump_events(final(self).events_spec().skip(old(self).events_spec().len() as int)),
            res.0@.len() >= 1,
            lit_value(old(self).values(), res.0@[0]) == LBool::False,
            old(self).level_of(res.0@[0].var()) == old(self).level_count(),
            forall|k: int| 0 <= k < res.0@.len() ==> (#[trigger] res.0@[k]).var()@ < old(self).num_vars_spec(),
            forall|k: int|
                1 <= k < res.0@.len() ==> lit_value(old(self).values(), #[trigger] res.0@[k]) == LBool::False && 0
                    < old(self).level_of(res.0@[k].var()) < old(self).level_count(),
            res.0@.len() == 1 ==> res.1 == 0,
            res.0@.len() > 1 ==> res.1 == old(self).level_of(res.0@[1].var()) && forall|k: int|
                1 <= k < res.0@.len() ==> old(self).level_of((#[trigger] res.0@[k]).var()) <= res.1,
            implied(old(self).clauses_spec(), old(self).trail().take(old(self).ground_len() as int), res.0@),
            forall|f: Seq<Seq<Lit>>| #[trigger] old(self).derived_from(f) ==> final(self).derived_from(f) && entails(f, res.0@),
    {
        self.analyze(conflict)
    }

    /// Analyzes a conflict at the current (non-zero) decision level: resolves the conflict
    /// clause with the reasons of the current-level literals, in reverse trail order, until a
    /// single current-level literal is left (the first unique implication point). Returns the
    /// learnt clause, with the negation of that literal first and, when there are others, a
    /// literal of the highest lower level second, and the level to go back to (that level,
    /// or 0 for a unit clause). Literals whose reason clause is subsumed by the learnt clause
    /// are dropped. Each clause used and each variable met is reported for an activity bump.
    /// The contract states the unique implication point ([`uip_front`]) and the literals kept:
    /// of the lower-level variables met ([`uip_low`]), exactly those not redundant
    /// ([`minimized_learnt`]).
    pub fn analyze(&mut self, conflict: ClauseRef) -> (res: (Vec<Lit>, usize))
        requires
            old(self).inv(),
            old(self).level_count() > 0,
            conflict@ < old(self).clauses_spec().len(),
            forall|k: int| 0 <= k < old(self).clauses_spec()[conflict@ as int]@.len() ==> lit_value(
                old(self).values(),
                #[trigger] old(self).clauses_spec()[conflict@ as int]@[k],
            ) == LBool::False,
            exists|k: int| 0 <= k < old(self).clauses_spec()[conflict@ as int]@.len()
                && old(self).level_of((#[trigger] old(self).clauses_spec()[conflict@ as int]@[k]).var()) == old(self).level_count(),
        ensures
            final(self).inv(),
            final(self).clauses_spec() == old(self).clauses_spec(),
            final(self).original_spec() == old(self).original_spec(),
            final(self).learnt_spec() == old(self).learnt_spec(),
            final(self).assignment_spec() == old(self).assignment_spec(),
            final(self).polarity_spec() == old(self).polarity_spec(),
            final(self).num_vars_spec() == old(self).num_vars_spec(),
            final(self).ok_spec() == old(self).ok_spec(),
            final(self).watches_spec() == old(self).watches_spec(),
            final(self).conflicts_spec() == old(self).conflicts_spec(),
            final(self).decisions_spec() == old(self).decisions_spec(),
            final(self).restarts_spec() == old(self).restarts_spec(),
            final(self).simplifies_spec() == old(self).simplifies_spec(),
            final(self).reduces_spec() == old(self).reduces_spec(),
            final(self).propagations_spec() == old(self).propagations_spec(),
            final(self).events_spec().len() >= old(self).events_spec().len(),
            final(self).events_spec().take(old(self).events_spec().len() as int) == old(self).events_spec(),
            bump_events(final(self).events_spec().skip(old(self).events_spec().len() as int)),
            res.0@.len() >= 1,
            lit_value(old(self).values(), res.0@[0]) == LBool::False,
            old(self).level_of(res.0@[0].var()) == old(self).level_count(),
            forall|k: int| 0 <= k < res.0@.len() ==> (#[trigger] res.0@[k]).var()@ < old(self).num_vars_spec(),
            forall|k: int|
                1 <= k < res.0@.len() ==> lit_value(old(self).values(), #[trigger] res.0@[k]) == LBool::False && 0
                    < old(self).level_of(res.0@[k].var()) < old(self).level_count(),
            res.0@.len() == 1 ==> res.1 == 0,
            res.0@.len() > 1 ==> res.1 == old(self).level_of(res.0@[1].var()) && forall|k: int|
                1 <= k < res.0@.len() ==> old(self).level_of((#[trigger] res.0@[k]).var()) <= res.1,
            implied(old(self).clauses_spec(), old(self).trail().take(old(self).ground_len() as int), res.0@),
            forall|f: Seq<Seq<Lit>>| #[trigger] old(self).derived_from(f) ==> final(self).derived_from(f) && entails(f, res.0@),
            uip_front(
                old(self).clauses_spec(),
                old(self).assignment_spec().data(),
                old(self).trail(),
                old(self).level_count(),
                conflict@ as int,
                old(self).assignment_spec().lim_spec()[old(self).level_count() - 1] as nat,
            ) == set![res.0@[0].var()@ as int],
            minimized_learnt(
                res.0@,
                old(self).clauses_spec(),
                old(self).assignment_spec().data(),
                old(self).values(),
                old(self).num_vars_spec(),
                old(self).level_count(),
                uip_low(
                    old(self).clauses_spec(),
                    old(self).assignment_spec().data(),
                    old(self).trail(),
                    old(self).level_count(),
                    conflict@ as int,
                    old(self).assignment_spec().lim_spec()[old(self).level_count() - 1] as nat,
                ),
            ),
    {
        let ghost t = self.assignment.trail_spec();
        let ghost vals = self.assignment.values();
        let ghost data = self.assignment.data();
        let ghost lim = self.assignment.lim_spec();
        let ghost ca = self.ca@;
        let ghost ev0 = self.events@;
        let ghost n = self.next_var as nat;
        let ghost asg = self.assignment;
        let top = self.assignment.decision_level();
        let ghost start = lim[top - 1] as int;
        proof {
            assert(lim[top - 1] <= t.len());
        }
        let mut seen: IdxVec<Var, bool> = IdxVec::from_vec(vec![false; self.num_vars()]);
        let mut lemma: Vec<Lit> = Vec::new();
        let mut active: u32 = 0;
        let mut reason = conflict;
        let mut index = self.assignment.trail_len();
        let mut first = true;
        let ghost mut cur: Set<int> = Set::empty();
        let ghost units = t.take(lim[0] as int);
        proof {
            lemma_resolve_start(ca, units, vals, conflict@ as int);
            assert(ca[conflict@ as int]@.skip(0) =~= ca[conflict@ as int]@);
            assert(Set::<int>::empty().union(level_vars(ca[conflict@ as int]@, data, top as nat)) =~= level_vars(ca[conflict@ as int]@, data, top as nat));
            assert(lit_vars(lemma@) =~= Set::<int>::empty());
            assert(Set::<int>::empty().union(mid_vars(ca[conflict@ as int]@, data, top as nat)) =~= mid_vars(ca[conflict@ as int]@, data, top as nat));
            assert forall|v: int| 0 <= v < n implies !seen@[v] by {}
            assert(self.events@.skip(ev0.len() as int) =~= Seq::<ActivityEvent>::empty());
            assert(self.events@.take(ev0.len() as int) =~= ev0);
        }
        loop
            invariant_except_break
                self.inv(),
                self.assignment == asg,
                self.ca == old(self).ca,
                self.db == old(self).db,
                self.watchlist == old(self).watchlist,
                self.polarity == old(self).polarity,
                self.next_var == old(self).next_var,
                self.ok == old(self).ok,
                self.num_dec_vars == old(self).num_dec_vars,
                self.conflicts == old(self).conflicts,
                self.decisions == old(self).decisions,
                self.restarts == old(self).restarts,
                self.simplifies == old(self).simplifies,
                self.reduces == old(self).reduces,
                self.propagations == old(self).propagations,
                t == asg.trail_spec(),
                vals == asg.values(),
                data == asg.data(),
                lim == asg.lim_spec(),
                ca == self.ca@,
                n == self.next_var,
                top == lim.len(),
                top > 0,
                start == lim[top - 1],
                start <= index <= t.len(),
                reason@ < ca.len(),
                self.events@.len() >= ev0.len(),
                self.events@.take(ev0.len() as int) == ev0,
                bump_events(self.events@.skip(ev0.len() as int)),
                analysis_ok(data, t, vals, n, top as nat, start, seen@, cur, active as nat, lemma@, index as int),
                first ==> reason == conflict && index == t.len() && cur.len() == 0,
                !first ==> active > 0 && index < t.len() && data[t[index as int].var()@ as int].reason_spec() == Some(reason),
                first ==> exists|k: int| 0 <= k < ca[conflict@ as int]@.len()
                    && data[(#[trigger] ca[conflict@ as int]@[k]).var()@ as int].level_spec() == top,
                first ==> forall|k: int| 0 <= k < ca[conflict@ as int]@.len() ==> lit_value(vals, #[trigger] ca[conflict@ as int]@[k]) == LBool::False,
                units == t.take(lim[0] as int),
                resolvent_implied(ca, units, vals, lemma@, cur, ca[reason@ as int]@.skip(if first { 0 } else { 1 })),
                forall|v: int|
                    0 <= v < n && #[trigger] seen@[v] && data[v].level_spec() < top ==> exists|k: int|
                        0 <= k < lemma@.len() && (#[trigger] lemma@[k]).var()@ == v,
                cur.union(level_vars(ca[reason@ as int]@.skip(if first { 0int } else { 1int }), data, top as nat)) == uip_front(
                    ca,
                    data,
                    t,
                    top as nat,
                    conflict@ as int,
                    index as nat,
                ),
                lit_vars(lemma@).union(mid_vars(ca[reason@ as int]@.skip(if first { 0int } else { 1int }), data, top as nat)) == uip_low(
                    ca,
                    data,
                    t,
                    top as nat,
                    conflict@ as int,
                    index as nat,
                ),
            ensures
                uip_front(ca, data, t, top as nat, conflict@ as int, start as nat) == set![lemma@[0].var()@ as int],
                lit_vars(lemma@.skip(1)) == uip_low(ca, data, t, top as nat, conflict@ as int, start as nat),
                self.inv(),
                self.assignment == asg,
                self.ca == old(self).ca,
                self.db == old(self).db,
                self.watchlist == old(self).watchlist,
                self.polarity == old(self).polarity,
                self.next_var == old(self).next_var,
                self.ok == old(self).ok,
                self.conflicts == old(self).conflicts,
                self.decisions == old(self).decisions,
                self.restarts == old(self).restarts,
                self.simplifies == old(self).simplifies,
                self.reduces == old(self).reduces,
                self.propagations == old(self).propagations,
                self.events@.len() >= ev0.len(),
                self.events@.take(ev0.len() as int) == ev0,
                bump_events(self.events@.skip(ev0.len() as int)),
                lemma@.len() >= 1,
                lit_value(vals, lemma@[0]) == LBool::False,
                data[lemma@[0].var()@ as int].level_spec() == top,
                lemma@[0].var()@ < n,
                forall|k: int|
                    1 <= k < lemma@.len() ==> lemma_lit_ok(data, vals, n, top as nat, seen@, #[trigger] lemma@[k]),
                seen@.len() == n,
                units == t.take(lim[0] as int),
                implied(ca, units, lemma@),
                forall|v: int| 0 <= v < n && #[trigger] seen@[v] ==> exists|k: int| 1 <= k < lemma@.len() && (#[trigger] lemma@[k]).var()@ == v,
            decreases index,
        {
            let ghost e0 = self.events@;
            self.events.push(ActivityEvent::BumpClause(reason));
            proof {
                lemma_push_bump(ev0, e0, ActivityEvent::BumpClause(reason));
            }
            let ghost cl = ca[reason@ as int]@;
            proof {
                assert(lits_in_range(cl, n) && cl.len() >= 2);
                if !first {
                    assert(reason_ok(ca, vals, data, t, index as int));
                }
            }
            let len = self.ca.clause(reason).len();
            let mut j: usize = if first { 0 } else { 1 };
            let ghost j0 = j as int;
            let ghost cur0 = cur;
            let ghost lemma_c0 = lemma@;
            proof {
                assert forall|k: int| j0 <= k < len implies lit_value(vals, #[trigger] cl[k]) == LBool::False
                    && var_on_trail_before(t, cl[k].var()@, index as int) by {
                    if first {
                        assert(lit_value(vals, cl[k]) == LBool::False);
                        assert(vals[cl[k].var()@ as int] != LBool::Undef);
                    }
                }
            }
            while j < len
                invariant
                    self.inv(),
                    self.assignment == asg,
                    self.ca == old(self).ca,
                    self.db == old(self).db,
                    self.watchlist == old(self).watchlist,
                    self.polarity == old(self).polarity,
                    self.next_var == old(self).next_var,
                    self.ok == old(self).ok,
                    self.num_dec_vars == old(self).num_dec_vars,
                    self.conflicts == old(self).conflicts,
                    self.decisions == old(self).decisions,
                    self.restarts == old(self).restarts,
                    self.simplifies == old(self).simplifies,
                    self.reduces == old(self).reduces,
                    self.propagations == old(self).propagations,
                    t == asg.trail_spec(),
                    vals == asg.values(),
                    data == asg.data(),
                    lim == asg.lim_spec(),
                    ca == self.ca@,
                    n == self.next_var,
                    top == lim.len(),
                    top > 0,
                    start == lim[top - 1],
                    start <= index <= t.len(),
                    reason@ < ca.len(),
                    cl == ca[reason@ as int]@,
                    len == cl.len(),
                    lits_in_range(cl, n),
                    j0 <= j <= len,
                    self.events@.len() >= ev0.len(),
                    self.events@.take(ev0.len() as int) == ev0,
                    bump_events(self.events@.skip(ev0.len() as int)),
                    analysis_ok(data, t, vals, n, top as nat, start, seen@, cur, active as nat, lemma@, index as int),
                    forall|k: int| j0 <= k < len ==> lit_value(vals, #[trigger] cl[k]) == LBool::False
                        && var_on_trail_before(t, cl[k].var()@, index as int),
                    forall|k: int| j0 <= k < j ==> data[(#[trigger] cl[k]).var()@ as int].level_spec() > 0 ==> seen@[cl[k].var()@ as int],
                    cur0.subset_of(cur),
                    first ==> reason == conflict && index == t.len() && cur0.len() == 0 && j0 == 0,
                    !first ==> active > 0 && index < t.len() && data[t[index as int].var()@ as int].reason_spec() == Some(reason),
                    units == t.take(lim[0] as int),
                    resolvent_implied(ca, units, vals, lemma@, cur, cl.skip(j as int)),
                    forall|v: int|
                        0 <= v < n && #[trigger] seen@[v] && data[v].level_spec() < top ==> exists|k: int|
                            0 <= k < lemma@.len() && (#[trigger] lemma@[k]).var()@ == v,
                    cur.union(level_vars(cl.skip(j as int), data, top as nat)) == cur0.union(level_vars(cl.skip(j0), data, top as nat)),
                    lit_vars(lemma@).union(mid_vars(cl.skip(j as int), data, top as nat)) == lit_vars(lemma_c0).union(
                        mid_vars(cl.skip(j0), data, top as nat),
                    ),
                decreases len - j,
            {
                let ghost cur_it = cur;
                let ghost lemma_it = lemma@;
                proof {
                    lemma_level_vars_skip(cl, data, top as nat, j as int);
                    lemma_mid_vars_skip(cl, data, top as nat, j as int);
                }
                let q = self.ca.clause(reason).get(j);
                let v = q.var();
                proof {
                    assert(v@ < n);
                }
                let lv = self.assignment.level(v);
                if !*seen.at(&v) && lv > 0 {
                    let ghost s0 = seen@;
                    seen.set(&v, true);
                    let ghost e0 = self.events@;
                    self.events.push(ActivityEvent::BumpVar(v));
                    proof {
                        lemma_push_bump(ev0, e0, ActivityEvent::BumpVar(v));
                        let i = choose|i: int| 0 <= i < index && (#[trigger] t[i]).var()@ == v@;
                        lemma_top_level(vals, data, t, lim, asg.qhead_spec(), i);
                    }
                    if lv < top {
                        let ghost lemma0 = lemma@;
                        lemma.push(q);
                        proof {
                            lemma_resolve_keep(ca, units, vals, lemma0, cur, cl, j as int);
                            assert forall|w: int|
                                0 <= w < n && #[trigger] seen@[w] && data[w].level_spec() < top implies exists|kk: int|
                                    0 <= kk < lemma@.len() && (#[trigger] lemma@[kk]).var()@ == w by {
                                if w == v@ as int {
                                    assert(lemma@[lemma@.len() - 1] == q);
                                } else {
                                    assert(s0[w]);
                                    let kk = choose|kk: int| 0 <= kk < lemma0.len() && (#[trigger] lemma0[kk]).var()@ == w;
                                    assert(lemma@[kk] == lemma0[kk]);
                                }
                            }
                            assert forall|k: int| 0 <= k < lemma@.len() implies lemma_lit_ok(data, vals, n, top as nat, seen@, #[trigger] lemma@[k]) by {
                                if k < lemma@.len() - 1 {
                                    assert(lemma_lit_ok(data, vals, n, top as nat, s0, lemma@[k]));
                                }
                            }
                            assert forall|w: int| #[trigger] cur.contains(w) implies 0 <= w < n && seen@[w] && data[w].level_spec() == top
                                && exists|i: int| start <= i < index && (#[trigger] t[i]).var()@ == w by {
                                assert(s0[w]);
                            }
                        }
                    } else {
                        proof {
                            assert(!cur.contains(v@ as int));
                            vstd::set_lib::lemma_int_range(0, n as int);
                            assert(cur.insert(v@ as int).subset_of(vstd::set_lib::set_int_range(0, n as int)));
                            vstd::set_lib::lemma_len_subset(cur.insert(v@ as int), vstd::set_lib::set_int_range(0, n as int));
                            let i = choose|i: int| 0 <= i < index && (#[trigger] t[i]).var()@ == v@;
                            lemma_top_level(vals, data, t, lim, asg.qhead_spec(), i);
                            assert(start <= i);
                        }
                        active = active + 1;
                        proof {
                            let c1 = cur.insert(v@ as int);
                            assert forall|w: int| #[trigger] c1.contains(w) implies 0 <= w < n && seen@[w] && data[w].level_spec() == top
                                && exists|i: int| start <= i < index && (#[trigger] t[i]).var()@ == w by {
                                if w != v@ as int {
                                    assert(cur.contains(w));
                                    assert(s0[w]);
                                } else {
                                    let i = choose|i: int| 0 <= i < index && (#[trigger] t[i]).var()@ == v@;
                                    lemma_top_level(vals, data, t, lim, asg.qhead_spec(), i);
                                }
                            }
                            assert forall|k: int| 0 <= k < lemma@.len() implies lemma_lit_ok(data, vals, n, top as nat, seen@, #[trigger] lemma@[k]) by {
                                assert(lemma_lit_ok(data, vals, n, top as nat, s0, lemma@[k]));
                            }
                            lemma_resolve_cur(ca, units, vals, lemma@, cur, cl, j as int);
                            assert(q.var()@ as int == v@ as int);
                            assert forall|w: int|
                                0 <= w < n && #[trigger] seen@[w] && data[w].level_spec() < top implies exists|kk: int|
                                    0 <= kk < lemma@.len() && (#[trigger] lemma@[kk]).var()@ == w by {
                                assert(s0[w]);
                            }
                            cur = c1;
                        }
                    }
                } else {
                    proof {
                        lemma_skip_accounted(&asg, lemma@, cur, seen@, n, q, index as int);
                        lemma_resolve_skip(ca, units, vals, lemma@, cur, cl, j as int);
                    }
                }
                proof {
                    let w = cl[j as int].var()@ as int;
                    if data[w].level_spec() == top {
                        assert(cur.contains(w));
                    }
                    assert(cur.union(level_vars(cl.skip(j + 1), data, top as nat)) =~= cur_it.union(level_vars(cl.skip(j as int), data, top as nat)));
                    if 0 < data[w].level_spec() < top {
                        assert(seen@[w]);
                        let kk = choose|kk: int| 0 <= kk < lemma@.len() && (#[trigger] lemma@[kk]).var()@ == w;
                        assert(lit_vars(lemma@).contains(w));
                    }
                    assert forall|x: int| #[trigger] lit_vars(lemma@).contains(x) <==> (lit_vars(lemma_it).contains(x) || (x == w && 0 < data[w].level_spec() < top)) by {
                        if lit_vars(lemma@).contains(x) {
                            let kk = choose|kk: int| 0 <= kk < lemma@.len() && (#[trigger] lemma@[kk]).var()@ as int == x;
                            if kk < lemma_it.len() {
                                assert(lemma_it[kk] == lemma@[kk]);
                            }
                        }
                        if lit_vars(lemma_it).contains(x) {
                            let kk = choose|kk: int| 0 <= kk < lemma_it.len() && (#[trigger] lemma_it[kk]).var()@ as int == x;
                            assert(lemma_it[kk] == lemma@[kk]);
                        }
                    }
                    assert(lit_vars(lemma@).union(mid_vars(cl.skip(j + 1), data, top as nat)) =~= lit_vars(lemma_it).union(mid_vars(cl.skip(j as int), data, top as nat)));
                }
                j = j + 1;
            }
            proof {
                lemma_level_vars_end(cl, data, top as nat);
                assert(cur.union(Set::<int>::empty()) =~= cur);
                assert(cur == uip_front(ca, data, t, top as nat, conflict@ as int, index as nat));
                assert(lit_vars(lemma@).union(Set::<int>::empty()) =~= lit_vars(lemma@));
                assert(lit_vars(lemma@) == uip_low(ca, data, t, top as nat, conflict@ as int, index as nat));
                assert(cl.skip(len as int) =~= Seq::<Lit>::empty());
                assert(resolvent_implied(ca, units, vals, lemma@, cur, Seq::<Lit>::empty()));
            }
            proof {
                if first {
                    let k0 = choose|k: int| 0 <= k < ca[conflict@ as int]@.len()
                        && data[(#[trigger] ca[conflict@ as int]@[k]).var()@ as int].level_spec() == top;
                    assert(seen@[cl[k0].var()@ as int]);
                    assert(cur.contains(cl[k0].var()@ as int));
                }
                assert(cur.len() > 0);
            }
            // Select the next seen literal on the trail, going backwards.
            let ghost index0 = index;
            proof {
                let w = cur.choose();
                assert(cur.contains(w));
                let iw = choose|i: int| start <= i < index0 && (#[trigger] t[i]).var()@ == w;
            }
            loop
                invariant_except_break
                    0 < index <= index0,
                    index0 <= t.len(),
                    forall|i: int| index <= i < index0 ==> !seen@[(#[trigger] t[i]).var()@ as int],
                    cur.len() > 0,
                    analysis_ok(data, t, vals, n, top as nat, start, seen@, cur, active as nat, lemma@, index0 as int),
                    t == self.assignment.trail_spec(),
                    asg == self.assignment,
                    self.inv(),
                    t == asg.trail_spec(),
                    vals == asg.values(),
                    data == asg.data(),
                    lim == asg.lim_spec(),
                    n == self.next_var,
                    top == lim.len(),
                    top > 0,
                    start == lim[top - 1],
                ensures
                    0 <= index < index0,
                    index0 <= t.len(),
                    forall|i: int| index < i < index0 ==> !seen@[(#[trigger] t[i]).var()@ as int],
                    seen@[t[index as int].var()@ as int],
                decreases index,
            {
                index = index - 1;
                let lit = self.assignment.trail_at(index);
                proof {
                    assert(t[index as int].var()@ < n);
                }
                if *seen.at(&lit.var()) {
                    break;
                }
                proof {
                    let w = cur.choose();
                    assert(cur.contains(w));
                    let iw = choose|i: int| start <= i < index0 && (#[trigger] t[i]).var()@ == w;
                    if iw >= index {
                        assert(!seen@[t[iw].var()@ as int]);
                    }
                }
            }
            let p = self.assignment.trail_at(index);
            let ghost pv = p.var()@ as int;
            proof {
                let w = cur.choose();
                assert(cur.contains(w));
                let iw = choose|i: int| start <= i < index0 && (#[trigger] t[i]).var()@ == w;
                if iw > index {
                    assert(!seen@[t[iw].var()@ as int]);
                }
                lemma_top_level(vals, data, t, lim, asg.qhead_spec(), index as int);
                assert(seen@[pv]);
                assert(cur.contains(pv));
                assert forall|i: int| index + 1 <= i < index0 implies !uip_front(ca, data, t, top as nat, conflict@ as int, index0 as nat).contains(
                    (#[trigger] t[i]).var()@ as int,
                ) by {
                    assert(!seen@[t[i].var()@ as int]);
                }
                lemma_front_scan(ca, data, t, top as nat, conflict@ as int, (index + 1) as nat, index0 as nat);
            }
            let ghost s0 = seen@;
            let ghost cur_b = cur;
            let ghost lemma_b = lemma@;
            proof {
                crate::lit::lemma_lit_var_view(p);
                assert(lit_value(vals, p) == LBool::True);
            }
            seen.set(&p.var(), false);
            active = active - 1;
            proof {
                let c1 = cur.remove(pv);
                assert forall|w: int| #[trigger] c1.contains(w) implies 0 <= w < n && seen@[w] && data[w].level_spec() == top
                    && exists|i: int| start <= i < index && (#[trigger] t[i]).var()@ == w by {
                    assert(cur.contains(w));
                    let iw = choose|i: int| start <= i < index0 && (#[trigger] t[i]).var()@ == w;
                    if iw > index {
                        assert(!s0[t[iw].var()@ as int]);
                    }
                    assert(iw != index);
                }
                assert forall|k: int| 0 <= k < lemma@.len() implies lemma_lit_ok(data, vals, n, top as nat, seen@, #[trigger] lemma@[k]) by {
                    assert(lemma_lit_ok(data, vals, n, top as nat, s0, lemma@[k]));
                }
                cur = c1;
            }
            if active == 0 {
                let np = p.negate();
                proof {
                    crate::lit::lemma_lit_var_view(p);
                    crate::lit::lemma_lit_var_view(np);
                    assert(lit_value(vals, p) == LBool::True);
                }
                lemma.insert(0, np);
                proof {
                    assert forall|k: int| 1 <= k < lemma@.len() implies lemma_lit_ok(data, vals, n, top as nat, seen@, #[trigger] lemma@[k]) by {
                        assert(lemma@[k] == lemma@.subrange(1, lemma@.len() as int)[k - 1]);
                    }
                    assert(cur.len() == 0);
                    lemma_resolve_uip(ca, units, vals, lemma_b, cur_b, p, np);
                    assert(cur_b.remove(pv).len() == 0);
                    assert(cur_b =~= set![pv]) by {
                        assert forall|w: int| #[trigger] cur_b.contains(w) implies w == pv by {
                            if w != pv {
                                assert(cur_b.remove(pv).contains(w));
                            }
                        }
                    }
                    assert(uip_front(ca, data, t, top as nat, conflict@ as int, index as nat) == cur_b);
                    lemma_front_single(ca, data, t, top as nat, conflict@ as int, start as nat, index as nat);
                    assert(np.var()@ == p.var()@);
                    assert(lit_vars(lemma@.skip(1)) =~= lit_vars(lemma_b)) by {
                        assert(lemma@.skip(1) =~= lemma_b);
                    }
                    assert(lemma@ == lemma_b.insert(0, np));
                    assert forall|v: int| 0 <= v < n && #[trigger] seen@[v] implies exists|k: int|
                        1 <= k < lemma@.len() && (#[trigger] lemma@[k]).var()@ == v by {
                        assert(s0[v] && v != pv);
                        if cur_b.contains(v) {
                            assert(cur.contains(v));
                            assert(cur.remove(v).len() + 1 == cur.len());
                        }
                        let k = choose|k: int| 0 <= k < lemma_b.len() && (#[trigger] lemma_b[k]).var()@ == v;
                        assert(lemma@[k + 1] == lemma_b[k]);
                    }
                }
                break;
            }
            proof {
                assert(decisions_ok(data, t, lim));
                let w = cur.choose();
                assert(cur.contains(w));
                if data[t[index as int].var()@ as int].reason_spec() is None {
                    assert(index == start);
                    let iw = choose|i: int| start <= i < index && (#[trigger] t[i]).var()@ == w;
                    assert(false);
                }
                assert(reason_ok(ca, vals, data, t, index as int));
            }
            reason = match self.assignment.reason(p.var()) {
                Some(r) => r,
                None => {
                    return (lemma, 0);
                },
            };
            first = false;
            proof {
                assert(ca[reason@ as int]@[0] == p);
                assert(lits_in_range(ca[reason@ as int]@, n) && ca[reason@ as int]@.len() >= 2);
                lemma_resolve_reason(ca, units, vals, lemma_b, cur_b, reason@ as int, p);
                assert(cur == cur_b.remove(pv));
                assert(cur_b.len() > 1);
                assert(data[pv].reason_spec() == Some(reason));
                assert(lit_vars(lemma@) == lit_vars(lemma_b));
            }
        }
        let ghost lemma_f = lemma@;
        let mut out = self.minimize_lemma(&lemma, &seen, Ghost(top as nat));
        let ghost out0 = out@;
        let bt = self.order_lemma(&mut out, Ghost(top as nat));
        proof {
            lemma_learnt_implied(ca, &asg, lemma_f, out0, seen@, n);
            lemma_implied_perm(ca, units, out0, out@);
            assert(seen@ =~= later_vars(lemma_f, n as nat)) by {
                assert forall|v: int| 0 <= v < n implies seen@[v] == later_vars(lemma_f, n as nat)[v] by {
                    if later_vars(lemma_f, n as nat)[v] {
                        let j = choose|j: int| 1 <= j < lemma_f.len() && (#[trigger] lemma_f[j]).var()@ == v;
                        assert(lemma_lit_ok(data, vals, n as nat, top as nat, seen@, lemma_f[j]));
                    }
                }
            }
            lemma_perm_contains(out0, out@);
            assert forall|j: int| 1 <= j < lemma_f.len() implies (out@.contains(#[trigger] lemma_f[j]) <==> !redundant_in(
                ca,
                data,
                lemma_f[j],
                later_vars(lemma_f, n as nat),
            )) by {
                assert(lemma_lit_ok(data, vals, n as nat, top as nat, seen@, lemma_f[j]));
                if out@.contains(lemma_f[j]) {
                    assert(out0.contains(lemma_f[j]));
                    let y = choose|y: int| 0 <= y < out0.len() && out0[y] == lemma_f[j];
                    if y == 0 {
                        assert(data[lemma_f[0].var()@ as int].level_spec() == top);
                        assert(false);
                    }
                    assert(!redundant_in(ca, data, out0[y], seen@));
                } else {
                    assert(!out0.contains(lemma_f[j]));
                }
            }
            assert forall|k: int| 1 <= k < out@.len() implies exists|j: int| 1 <= j < lemma_f.len() && lemma_f[j] == #[trigger] out@[k] by {
                let y = choose|y: int| 1 <= y < out0.len() && #[trigger] out@[k] == out0[y];
                assert(!redundant_in(ca, data, out0[y], seen@) && exists|j: int| 1 <= j < lemma_f.len() && lemma_f[j] == out0[y]);
            }
            assert forall|j: int| 1 <= j < lemma_f.len() implies lit_value(vals, #[trigger] lemma_f[j]) == LBool::False && 0 < data[lemma_f[j].var()@ as int].level_spec()
                < top by {
                assert(lemma_lit_ok(data, vals, n as nat, top as nat, seen@, lemma_f[j]));
            }
            assert(minimized_from(out@, lemma_f, ca, data, n as nat));
            assert forall|v: int| 0 <= v < n implies (#[trigger] later_vars(lemma_f, n as nat)[v] <==> uip_low(
                ca,
                data,
                t,
                top as nat,
                conflict@ as int,
                start as nat,
            ).contains(v)) by {
                if later_vars(lemma_f, n as nat)[v] {
                    let jj = choose|jj: int| 1 <= jj < lemma_f.len() && (#[trigger] lemma_f[jj]).var()@ == v;
                    assert(lemma_f.skip(1)[jj - 1] == lemma_f[jj]);
                }
                if lit_vars(lemma_f.skip(1)).contains(v) {
                    let kk = choose|kk: int| 0 <= kk < lemma_f.skip(1).len() && (#[trigger] lemma_f.skip(1)[kk]).var()@ as int == v;
                    assert(lemma_f[kk + 1] == lemma_f.skip(1)[kk]);
                }
            }
            reveal(minimized_learnt);
            assert forall|f: Seq<Seq<Lit>>| #[trigger] old(self).derived_from(f) implies self.derived_from(f) && entails(f, out@) by {
                Solver::lemma_derived_same_ground(&*old(self), &*self, f);
                Solver::lemma_derived_implied(&*old(self), f, out@);
            }
        }
        (out, bt)
    }

    /// Whether the reason clause of `lit`'s variable exists and each of its other literals is
    /// marked in `seen` or assigned at level 0.
    spec fn redundant(&self, lit: Lit, seen: Seq<bool>) -> bool {
        match self.assignment.data()[lit.var()@ as int].reason_spec() {
            None => false,
            Some(c) => self.covered(c, seen),
        }
    }

    /// Whether each literal of clause `c` after the first is marked in `seen` or assigned at
    /// level 0.
    spec fn covered(&self, c: ClauseRef, seen: Seq<bool>) -> bool {
        forall|k: int|
            1 <= k < self.ca@[c@ as int]@.len() ==> #[trigger] seen[self.ca@[c@ as int]@[k].var()@ as int]
                || self.assignment.data()[self.ca@[c@ as int]@[k].var()@ as int].level_spec() == 0
    }

    /// Whether `lit` (a false literal) is implied by the other learnt literals: its reason
    /// clause exists and each of its other literals is marked `seen` or assigned at level 0.
    fn lit_redundant_basic(&self, lit: Lit, seen: &IdxVec<Var, bool>) -> (res: bool)
        requires
            self.inv(),
            lit.var()@ < self.next_var,
            lit_value(self.assignment.values(), lit) == LBool::False,
            seen@.len() == self.next_var,
        ensures
            res == self.redundant(lit, seen@),
    {
        match self.assignment.reason(lit.var()) {
            None => false,
            Some(cref) => {
                proof {
                    crate::assignment::lemma_false_on_trail(&self.assignment, lit);
                    let t = self.assignment.trail_spec();
                    let i = choose|i: int| 0 <= i < t.len() && (#[trigger] t[i]).var()@ == lit.var()@;
                    assert(reason_ok(self.ca@, self.assignment.values(), self.assignment.data(), t, i));
                    assert(lits_in_range(self.ca@[cref@ as int]@, self.next_var as nat));
                }
                let ghost cl = self.ca@[cref@ as int]@;
                let len = self.ca.clause(cref).len();
                let mut k: usize = 1;
                while k < len
                    invariant
                        1 <= k <= len,
                        len == cl.len(),
                        cref@ < self.ca@.len(),
                        cl == self.ca@[cref@ as int]@,
                        self.inv(),
                        seen@.len() == self.next_var,
                        lits_in_range(cl, self.next_var as nat),
                        self.assignment.data()[lit.var()@ as int].reason_spec() == Some(cref),
                        forall|j: int| 1 <= j < k ==> #[trigger] seen@[cl[j].var()@ as int]
                            || self.assignment.data()[cl[j].var()@ as int].level_spec() == 0,
                    decreases len - k,
                {
                    let v = self.ca.clause(cref).get(k).var();
                    if !*seen.at(&v) && self.assignment.level(v) > 0 {
                        proof {
                            assert(!(seen@[cl[k as int].var()@ as int] || self.assignment.data()[cl[k as int].var()@ as int].level_spec() == 0));
                            assert(!self.covered(cref, seen@));
                        }
                        return false;
                    }
                    k = k + 1;
                }
                true
            },
        }
    }

    /// Keeps the first literal of `lemma` and each other literal that is not redundant.
    fn minimize_lemma(&self, lemma: &Vec<Lit>, seen: &IdxVec<Var, bool>, Ghost(top): Ghost<nat>) -> (res: Vec<Lit>)
        requires
            self.inv(),
            lemma@.len() >= 1,
            seen@.len() == self.next_var,
            lemma@[0].var()@ < self.next_var,
            forall|k: int| 1 <= k < lemma@.len() ==> lemma_lit_ok(self.assignment.data(), self.assignment.values(), self.next_var as nat, top, seen@, #[trigger] lemma@[k]),
        ensures
            res@.len() >= 1,
            res@[0] == lemma@[0],
            forall|k: int| 1 <= k < res@.len() ==> lemma_lit_ok(self.assignment.data(), self.assignment.values(), self.next_var as nat, top, seen@, #[trigger] res@[k]),
            forall|k: int| 1 <= k < lemma@.len() ==> res@.contains(#[trigger] lemma@[k]) || redundant_in(self.ca@, self.assignment.data(), lemma@[k], seen@),
            forall|k: int|
                1 <= k < res@.len() ==> !redundant_in(self.ca@, self.assignment.data(), #[trigger] res@[k], seen@) && exists|j: int|
                    1 <= j < lemma@.len() && lemma@[j] == res@[k],
    {
        let mut out: Vec<Lit> = Vec::new();
        out.push(lemma[0]);
        let mut k: usize = 1;
        while k < lemma.len()
            invariant
                1 <= k <= lemma@.len(),
                out@.len() >= 1,
                out@[0] == lemma@[0],
                self.inv(),
                seen@.len() == self.next_var,
                forall|i: int| 1 <= i < lemma@.len() ==> lemma_lit_ok(self.assignment.data(), self.assignment.values(), self.next_var as nat, top, seen@, #[trigger] lemma@[i]),
                forall|i: int| 1 <= i < out@.len() ==> lemma_lit_ok(self.assignment.data(), self.assignment.values(), self.next_var as nat, top, seen@, #[trigger] out@[i]),
                forall|i: int| 1 <= i < k ==> out@.contains(#[trigger] lemma@[i]) || redundant_in(self.ca@, self.assignment.data(), lemma@[i], seen@),
                forall|i: int|
                    1 <= i < out@.len() ==> !redundant_in(self.ca@, self.assignment.data(), #[trigger] out@[i], seen@) && exists|j: int|
                        1 <= j < k && lemma@[j] == out@[i],
            decreases lemma@.len() - k,
        {
            let lit = lemma[k];
            proof {
                assert(lemma_lit_ok(self.assignment.data(), self.assignment.values(), self.next_var as nat, top, seen@, lemma@[k as int]));
            }
            let ghost out0 = out@;
            if !self.lit_redundant_basic(lit, seen) {
                out.push(lit);
                proof {
                    assert(!redundant_in(self.ca@, self.assignment.data(), lit, seen@));
                    assert forall|i: int| 1 <= i < out@.len() implies !redundant_in(self.ca@, self.assignment.data(), #[trigger] out@[i], seen@)
                        && exists|j: int| 1 <= j < k + 1 && lemma@[j] == out@[i] by {
                        if i < out@.len() - 1 {
                            assert(out@[i] == out0[i]);
                        } else {
                            assert(lemma@[k as int] == out@[i]);
                        }
                    }
                    assert(out@[out@.len() - 1] == lit);
                    assert forall|i: int| 1 <= i < k implies out@.contains(#[trigger] lemma@[i]) || redundant_in(self.ca@, self.assignment.data(), lemma@[i], seen@) by {
                        if out0.contains(lemma@[i]) {
                            let y = choose|y: int| 0 <= y < out0.len() && out0[y] == lemma@[i];
                            assert(out@[y] == lemma@[i]);
                        }
                    }
                }
            }
            k = k + 1;
        }
        out
    }

    /// Moves a literal of the highest level among positions 1 and later to position 1, and
    /// returns that level (0 when the clause is a unit).
    fn order_lemma(&self, lemma: &mut Vec<Lit>, Ghost(top): Ghost<nat>) -> (res: usize)
        requires
            self.inv(),
            old(lemma)@.len() >= 1,
            old(lemma)@[0].var()@ < self.next_var,
            forall|k: int| 1 <= k < old(lemma)@.len() ==> (#[trigger] old(lemma)@[k]).var()@ < self.next_var,
        ensures
            final(lemma)@.len() == old(lemma)@.len(),
            final(lemma)@[0] == old(lemma)@[0],
            final(lemma)@.to_multiset() == old(lemma)@.to_multiset(),
            forall|k: int| 1 <= k < final(lemma)@.len() ==> exists|j: int| 1 <= j < old(lemma)@.len() && #[trigger] final(lemma)@[k] == old(lemma)@[j],
            final(lemma)@.len() == 1 ==> res == 0,
            final(lemma)@.len() > 1 ==> res == self.assignment.data()[final(lemma)@[1].var()@ as int].level_spec()
                && forall|k: int| 1 <= k < final(lemma)@.len() ==> self.assignment.data()[(#[trigger] final(lemma)@[k]).var()@ as int].level_spec() <= res,
    {
        if lemma.len() == 1 {
            return 0;
        }
        let mut max_i: usize = 1;
        let mut i: usize = 2;
        while i < lemma.len()
            invariant
                2 <= i <= lemma@.len(),
                1 <= max_i < lemma@.len(),
                lemma@ == old(lemma)@,
                self.inv(),
                forall|k: int| 1 <= k < lemma@.len() ==> (#[trigger] lemma@[k]).var()@ < self.next_var,
                forall|k: int| 1 <= k < i ==> self.assignment.data()[(#[trigger] lemma@[k]).var()@ as int].level_spec()
                    <= self.assignment.data()[lemma@[max_i as int].var()@ as int].level_spec(),
            decreases lemma@.len() - i,
        {
            if self.assignment.level(lemma[i].var()) > self.assignment.level(lemma[max_i].var()) {
                max_i = i;
            }
            i = i + 1;
        }
        let a = lemma[1];
        let b = lemma[max_i];
        lemma.set(1, b);
        lemma.set(max_i, a);
        proof {
            lemma_swap_to_multiset(old(lemma)@, 1, max_i as int);
            assert(lemma@ =~= old(lemma)@.update(1, old(lemma)@[max_i as int]).update(max_i as int, old(lemma)@[1]));
            assert forall|k: int| 1 <= k < lemma@.len() implies exists|j: int| 1 <= j < old(lemma)@.len() && #[trigger] lemma@[k] == old(lemma)@[j] by {
                if k == 1 {
                    assert(lemma@[k] == old(lemma)@[max_i as int]);
                } else if k == max_i {
                    assert(lemma@[k] == old(lemma)@[1]);
                } else {
                    assert(lemma@[k] == old(lemma)@[k]);
                }
            }
            assert forall|k: int| 1 <= k < lemma@.len() implies self.assignment.data()[(#[trigger] lemma@[k]).var()@ as int].level_spec()
                <= self.assignment.data()[lemma@[1].var()@ as int].level_spec() by {
                if k == max_i {
                    assert(lemma@[k] == old(lemma)@[1]);
                } else if k != 1 {
                    assert(lemma@[k] == old(lemma)@[k]);
                }
            }
        }
        self.assignment.level(lemma[1].var())
    }
}

impl Solver {
    /// Propagates, and handles every conflict found: counts it; at level 0 stops with
    /// `false`; otherwise analyzes it, backjumps, and learns the clause (a unit is assigned at
    /// level 0; a longer clause is stored as learnt, watched, reported for a bump, and its
    /// first literal assigned with it as reason), then reports a decay. Returns `true` when
    /// propagation ends without conflict (or the conflict counter is exhausted). Every
    /// conflict counted above level 0 leaves a new learnt clause or a new literal at level 0.
    #[verifier::spinoff_prover]
    #[verifier::rlimit(100)]
    pub fn propagate_analyze_backtrack(&mut self) -> (res: bool)
        requires
            old(self).inv(),
        ensures
            final(self).inv(),
            final(self).num_vars_spec() == old(self).num_vars_spec(),
            final(self).ok_spec() == old(self).ok_spec(),
            final(self).original_spec() == old(self).original_spec(),
            final(self).learnt_spec().len() >= old(self).learnt_spec().len(),
            final(self).learnt_spec().take(old(self).learnt_spec().len() as int) == old(self).learnt_spec(),
            final(self).clauses_spec().len() >= old(self).clauses_spec().len(),
            final(self).conflicts_spec() >= old(self).conflicts_spec(),
            final(self).level_count() <= old(self).level_count(),
            final(self).events_spec().len() >= old(self).events_spec().len(),
            final(self).events_spec().take(old(self).events_spec().len() as int) == old(self).events_spec(),
            res ==> final(self).assignment_spec().qhead_spec() == final(self).trail().len() || final(self).conflicts_spec() == usize::MAX,
            !res ==> final(self).level_count() == 0 && final(self).conflicts_spec() > old(self).conflicts_spec() && exists|c: int|
                0 <= c < final(self).clauses_spec().len() && #[trigger] clause_false(final(self).clauses_spec()[c]@, final(self).values()),
            old(self).watches_sound() && res && final(self).conflicts_spec() < usize::MAX ==> final(self).watches_sound(),
            forall|f: Seq<Seq<Lit>>| #[trigger] old(self).derived_from(f) ==> final(self).derived_from(f) && (!res ==> unsatisfiable(f)),
            final(self).ground_len() >= old(self).ground_len(),
            final(self).conflicts_spec() <= old(self).conflicts_spec() + (final(self).learnt_spec().len() - old(self).learnt_spec().len())
                + (final(self).ground_len() - old(self).ground_len()) + (if res { 0int } else { 1int }),
    {
        let ghost ev0 = self.events@;
        let ghost sound0 = old(self).watches_sound();
        loop
            invariant
                self.inv(),
                sound0 ==> self.watches_sound(),
                sound0 == old(self).watches_sound(),
                self.next_var == old(self).next_var,
                self.ok == old(self).ok,
                self.db.clauses_spec() == old(self).db.clauses_spec(),
                self.db.learnts_spec().len() >= old(self).db.learnts_spec().len(),
                self.db.learnts_spec().take(old(self).db.learnts_spec().len() as int) == old(self).db.learnts_spec(),
                self.ca@.len() >= old(self).ca@.len(),
                self.conflicts >= old(self).conflicts,
                self.assignment.lim_spec().len() <= old(self).assignment.lim_spec().len(),
                self.events@.len() >= ev0.len(),
                self.events@.take(ev0.len() as int) == ev0,
                ev0 == old(self).events@,
                forall|f: Seq<Seq<Lit>>| #[trigger] old(self).derived_from(f) ==> self.derived_from(f),
                self.ground_len() >= old(self).ground_len(),
                self.conflicts <= old(self).conflicts + (self.db.learnts_spec().len() - old(self).db.learnts_spec().len()) + (
                self.ground_len() - old(self).ground_len()),
            decreases usize::MAX - self.conflicts,
        {
            let ghost s_top = *self;
            let ghost e_start = self.events@;
            let ghost q_before = self.assignment.qhead_spec();
            proof {
                let lim = self.assignment.lim_spec();
                assert(lim.len() > 0 ==> lim[lim.len() - 1] <= q_before);
            }
            let conflict = match self.propagate() {
                None => {
                    return true;
                },
                Some(c) => c,
            };
            let ghost s_prop = *self;
            proof {
                if s_top.level_count() == 0 {
                    assert(s_prop.trail().len() >= s_top.trail().len());
                } else {
                    assert(s_prop.assignment_spec().lim_spec()[0] == s_top.assignment_spec().lim_spec()[0]);
                }
                assert(s_prop.ground_len() >= s_top.ground_len());
            }
            if self.conflicts == usize::MAX {
                return true;
            }
            self.conflicts = self.conflicts + 1;
            let ghost s_c = *self;
            proof {
                assert forall|f: Seq<Seq<Lit>>| #[trigger] old(self).derived_from(f) implies s_c.derived_from(f) by {
                    assert(s_top.derived_from(f));
                    assert(s_prop.derived_from(f));
                    Solver::lemma_derived_same_ground(&s_prop, &s_c, f);
                }
            }
            if self.assignment.decision_level() == 0 {
                proof {
                    assert forall|f: Seq<Seq<Lit>>| #[trigger] old(self).derived_from(f) implies self.derived_from(f) && unsatisfiable(f) by {
                        assert(s_c.derived_from(f));
                        let cl = self.ca@[conflict@ as int]@;
                        assert(entails(f, self.clauses_spec()[conflict@ as int]@));
                        assert(lits_in_range(cl, self.next_var as nat));
                        assert(clause_false(cl, self.assignment.values()));
                        Solver::lemma_false_clause_refutes(&*self, f, cl);
                    }
                    assert(clause_false(self.ca@[conflict@ as int]@, self.assignment.values()));
                    assert(self.clauses_spec()[conflict@ as int]@ == self.ca@[conflict@ as int]@);
                    assert(self.values() == self.assignment.values());
                    assert(clause_false(self.clauses_spec()[conflict@ as int]@, self.values()));
                }
                return false;
            }
            let ghost e1 = self.events@;
            let (lemma, bt) = self.analyze_learn(conflict);
            proof {
                lemma_take_take(self.events@, e1, ev0);
            }
            let ghost s_an = *self;
            proof {
                assert forall|f: Seq<Seq<Lit>>| #[trigger] old(self).derived_from(f) implies s_an.derived_from(f) && entails(f, lemma@) by {
                    assert(s_c.derived_from(f));
                    Solver::lemma_derived_same_ground(&s_c, &s_an, f);
                    let units = s_c.trail().take(s_c.ground_len() as int);
                    assert forall|i: int| 0 <= i < units.len() implies entails_lit(f, #[trigger] units[i]) by {
                        assert(units[i] == s_c.trail()[i]);
                    }
                    assert forall|c: int| 0 <= c < s_c.ca@.len() implies entails(f, #[trigger] s_c.ca@[c]@) by {
                        assert(entails(f, s_c.clauses_spec()[c]@));
                    }
                    lemma_implied_entailed(f, s_c.ca@, units, lemma@);
                }
            }
            let ghost vals1 = self.assignment.values();
            let ghost data1 = self.assignment.data();
            let ghost t1 = self.assignment.trail_spec();
            let ghost lim1 = self.assignment.lim_spec();
            let ghost q1 = self.assignment.qhead_spec();
            let ghost ev1 = self.events@;
            proof {
                if sound0 {
                    assert(lim1[bt as int] <= lim1[lim1.len() - 1]);
                    lemma_complete_mono(self.ca@, vals1, data1, t1, q_before as int, lim1[bt as int] as int);
                }
            }
            self.backtrack(bt);
            let ghost s_bt = *self;
            proof {
                lemma_backjump(vals1, data1, t1, lim1, q1, self.assignment.values(), bt as int, lemma@);
                let e2 = self.events@;
                assert(e2.take(ev1.len() as int) =~= ev1);
                lemma_take_take(e2, ev1, ev0);
            }
            if lemma.len() == 1 {
                let lit = lemma[0];
                let ghost vals = self.assignment.values();
                let ghost data = self.assignment.data();
                let ghost t0 = self.assignment.trail_spec();
                self.assignment.unchecked_enqueue(lit, None);
                proof {
                    crate::assignment::lemma_lim_len_bound(&self.assignment);
                    lemma_enqueue_keeps_old_reasons(self.ca@, vals, data, t0, self.assignment.lim_spec(), self.assignment.qhead_spec(), lit, None);
                    lemma_enqueue_keeps_decisions(vals, data, t0, self.assignment.lim_spec(), self.assignment.qhead_spec(), lit, None);
                    if sound0 {
                        assert(self.assignment.trail_spec().take(t0.len() as int) =~= t0);
                        lemma_complete_assign(
                            self.ca@,
                            vals,
                            data,
                            t0,
                            self.assignment.values(),
                            self.assignment.data(),
                            self.assignment.trail_spec(),
                            self.assignment.qhead_spec() as int,
                            self.next_var as nat,
                        );
                    }
                }
            } else {
                let asserting = lemma[0];
                let ghost ca0 = self.ca@;
                let ghost db0 = self.db;
                let cref = self.db.new_clause(lemma, true, &mut self.ca);
                proof {
                    lemma_push_clause_keeps(ca0, self.ca@, self.assignment.values(), self.assignment.data(), self.assignment.trail_spec(), self.watchlist.lists(), self.next_var as nat);
                    lemma_push_clause_watched(ca0, self.ca@, self.watchlist.lists(), self.assignment.values(), self.assignment.data(), self.next_var as nat);
                }
                self.attach_clause(cref);
                let ghost e3 = self.events@;
                self.events.push(ActivityEvent::BumpClause(cref));
                let ghost vals = self.assignment.values();
                let ghost data = self.assignment.data();
                let ghost t0 = self.assignment.trail_spec();
                proof {
                    assert(self.events@.take(e3.len() as int) =~= e3);
                    lemma_take_take(self.events@, e3, ev0);
                    assert(self.db.learnts_spec().take(db0.learnts_spec().len() as int) =~= db0.learnts_spec());
                    lemma_take_take(self.db.learnts_spec(), db0.learnts_spec(), old(self).db.learnts_spec());
                    assert(lits_in_range(self.ca@[cref@ as int]@, self.next_var as nat));
                }
                self.assignment.unchecked_enqueue(asserting, Some(cref));
                proof {
                    crate::assignment::lemma_lim_len_bound(&self.assignment);
                    lemma_enqueue_keeps_reasons(self.ca@, vals, data, t0, self.assignment.lim_spec(), self.assignment.qhead_spec(), asserting, cref);
                    lemma_enqueue_keeps_decisions(vals, data, t0, self.assignment.lim_spec(), self.assignment.qhead_spec(), asserting, Some(cref));
                    if sound0 {
                        assert(self.assignment.trail_spec().take(t0.len() as int) =~= t0);
                        assert(self.ca@[ca0.len() as int]@[0] == asserting);
                        lemma_learnt_complete(
                            ca0,
                            self.ca@,
                            vals,
                            data,
                            t0,
                            self.assignment.values(),
                            self.assignment.data(),
                            self.assignment.trail_spec(),
                            self.assignment.qhead_spec() as int,
                            self.next_var as nat,
                            asserting,
                            bt as nat,
                        );
                    }
                }
            }
            proof {
                assert(s_an.ground_len() == s_c.ground_len());
                if bt == 0 {
                    assert(s_bt.trail().len() == s_an.assignment_spec().lim_spec()[0]);
                } else {
                    assert(s_bt.assignment_spec().lim_spec()[0] == s_an.assignment_spec().lim_spec()[0]);
                }
                assert(s_bt.ground_len() == s_c.ground_len());
                if lemma@.len() == 1 {
                    assert(self.trail().len() == s_bt.trail().len() + 1);
                    assert(self.ground_len() == s_bt.ground_len() + 1);
                } else {
                    assert(self.db.learnts_spec().len() == s_bt.db.learnts_spec().len() + 1);
                    if s_bt.level_count() > 0 {
                        assert(self.assignment_spec().lim_spec()[0] == s_bt.assignment_spec().lim_spec()[0]);
                    }
                    assert(self.ground_len() >= s_bt.ground_len());
                }
            }
            let ghost e4 = self.events@;
            self.events.push(ActivityEvent::Decay);
            proof {
                assert(self.events@.take(e4.len() as int) =~= e4);
                lemma_take_take(self.events@, e4, ev0);
                assert(self.inv());
                assert forall|f: Seq<Seq<Lit>>| #[trigger] old(self).derived_from(f) implies self.derived_from(f) by {
                    assert(s_an.derived_from(f) && entails(f, lemma@));
                    assert(s_bt.derived_from(f));
                    let g0 = s_bt.ground_len();
                    if lemma@.len() == 1 {
                        assert(self.trail() == s_bt.trail().push(lemma@[0]));
                        assert(self.clauses_spec() == s_bt.clauses_spec());
                        assert forall|i: int| 0 <= i < self.ground_len() implies entails_lit(f, #[trigger] self.trail()[i]) by {
                            if i < g0 {
                                assert(self.trail()[i] == s_bt.trail()[i]);
                                assert(entails_lit(f, s_bt.trail()[i]));
                            } else {
                                assert(self.trail()[i] == lemma@[0]);
                                assert forall|m: spec_fn(int) -> bool| #[trigger] formula_model(m, f) implies model_lit(m, lemma@[0]) by {
                                    assert(model_clause(m, lemma@));
                                }
                            }
                        }
                        assert forall|i: int| 0 <= i < g0 implies #[trigger] self.trail()[i] == s_bt.trail()[i] by {}
                        Solver::lemma_covers_mono(&s_bt, &*self, f);
                    } else {
                        assert forall|c: int| 0 <= c < self.clauses_spec().len() implies entails(f, #[trigger] self.clauses_spec()[c]@) by {
                            if c < s_bt.clauses_spec().len() {
                                assert(self.clauses_spec()[c] == s_bt.clauses_spec()[c]);
                                assert(entails(f, s_bt.clauses_spec()[c]@));
                            } else {
                                assert(self.clauses_spec()[c]@ == lemma@);
                            }
                        }
                        assert(self.trail() == s_bt.trail().push(lemma@[0]));
                        assert forall|i: int| 0 <= i < g0 implies #[trigger] self.trail()[i] == s_bt.trail()[i] by {}
                        Solver::lemma_derived_grow(&s_bt, &*self, f);
                    }
                }
            }
        }
    }
}

/// The search: each step takes the decisions of one round of the CDCL loop; the caller runs
/// the loop, picks branching variables and reduces the learnt clauses between steps.
impl Solver {
    /// Propagates and learns from every conflict ([`Solver::propagate_analyze_backtrack`]). A
    /// conflict at level 0 gives `Unsat`. When the conflict count reached `confl_limit` (or
    /// propagation stopped short) the search restarts and the result is `Restart`. Otherwise
    /// the clause database is simplified at level 0 and the result is `Continue`.
    pub fn search_propagate(&mut self, confl_limit: usize) -> (res: SearchStep)
        requires
            old(self).inv(),
            old(self).ok_spec(),
        ensures
            final(self).inv(),
            final(self).ok_spec(),
            final(self).num_vars_spec() == old(self).num_vars_spec(),
            final(self).original_spec() == old(self).original_spec(),
            final(self).level_count() <= old(self).level_count(),
            res is Unsat || res is Restart || res is Continue,
            res is Unsat ==> final(self).level_count() == 0 && forall|f: Seq<Seq<Lit>>| #[trigger] old(self).derived_from(f) ==> unsatisfiable(f),
            !(res is Unsat) ==> (res is Restart <==> final(self).conflicts_spec() >= confl_limit),
            res is Restart ==> final(self).level_count() == 0,
            res is Continue ==> final(self).propagated(),
            old(self).watches_sound() && !(res is Unsat) && final(self).conflicts_spec() < usize::MAX ==> final(self).watches_sound(),
            forall|f: Seq<Seq<Lit>>| #[trigger] old(self).derived_from(f) ==> final(self).derived_from(f),
    {
        let ok = self.propagate_analyze_backtrack();
        if !ok {
            return SearchStep::Unsat;
        }
        if self.conflicts >= confl_limit || !self.is_propagated() {
            self.restart();
            return SearchStep::Restart;
        }
        if self.assignment.decision_level() == 0 {
            self.simplify();
        }
        SearchStep::Continue
    }

    /// Decides on the assumptions ([`Solver::decide`]): the first assumption that is not yet
    /// true is assigned as the decision of a new level (`Continue`); a false one gives
    /// `AssumptionsConflict` with a clause that follows from the formula and starts with its
    /// negation; when every assumption has its level, the result is `Branch`.
    pub fn search_assume(&mut self, assumptions: &[Lit]) -> (res: SearchStep)
        requires
            old(self).inv(),
            old(self).propagated(),
            forall|k: int| 0 <= k < assumptions@.len() ==> (#[trigger] assumptions@[k]).var()@ < old(self).num_vars_spec(),
        ensures
            final(self).inv(),
            final(self).num_vars_spec() == old(self).num_vars_spec(),
            final(self).ok_spec() == old(self).ok_spec(),
            final(self).clauses_spec() == old(self).clauses_spec(),
            final(self).original_spec() == old(self).original_spec(),
            final(self).learnt_spec() == old(self).learnt_spec(),
            res is Continue || res is Branch || res is AssumptionsConflict,
            res is Branch ==> {
                &&& final(self).values() == old(self).values()
                &&& final(self).trail() == old(self).trail()
                &&& final(self).propagated()
                &&& final(self).level_count() >= assumptions@.len()
                &&& forall|j: int| old(self).level_count() <= j < assumptions@.len() ==> lit_value(final(self).values(), #[trigger] assumptions@[j]) == LBool::True
            },
            res is Continue ==> {
                let l = final(self).level_count() - 1;
                &&& old(self).level_count() <= l < assumptions@.len()
                &&& lit_value(old(self).values(), assumptions@[l]) == LBool::Undef
                &&& final(self).trail() == old(self).trail().push(assumptions@[l])
                &&& forall|j: int| old(self).level_count() <= j < l ==> lit_value(old(self).values(), #[trigger] assumptions@[j]) == LBool::True
            },
            res matches SearchStep::AssumptionsConflict(c) ==> {
                let l = final(self).level_count() as int;
                &&& old(self).level_count() <= l < assumptions@.len()
                &&& lit_value(old(self).values(), assumptions@[l]) == LBool::False
                &&& forall|j: int| old(self).level_count() <= j < l ==> lit_value(old(self).values(), #[trigger] assumptions@[j]) == LBool::True
                &&& c@.len() >= 1
                &&& c@[0] == assumptions@[l].negate_spec()
                &&& forall|f: Seq<Seq<Lit>>| #[trigger] old(self).derived_from(f) ==> entails(f, c@)
            },
            old(self).watches_sound() ==> final(self).watches_sound(),
            forall|f: Seq<Seq<Lit>>| #[trigger] old(self).derived_from(f) ==> final(self).derived_from(f),
    {
        let ghost s0 = *self;
        match self.decide(assumptions) {
            Ok(Some(p)) => {
                self.push_decision(p);
                SearchStep::Continue
            },
            Ok(None) => SearchStep::Branch,
            Err(c) => {
                proof {
                    assert forall|f: Seq<Seq<Lit>>| #[trigger] old(self).derived_from(f) implies entails(f, c@) by {
                        assert(self.derived_from(f));
                        let units = self.trail().take(self.ground_len() as int);
                        assert forall|i: int| 0 <= i < units.len() implies entails_lit(f, #[trigger] units[i]) by {
                            assert(units[i] == self.trail()[i]);
                        }
                        assert forall|c2: int| 0 <= c2 < self.clauses_spec().len() implies entails(f, #[trigger] self.clauses_spec()[c2]@) by {}
                        lemma_implied_entailed(f, self.clauses_spec(), units, c@);
                    }
                }
                SearchStep::AssumptionsConflict(c)
            },
        }
    }

    /// Branches on `branch` when it is an unassigned variable, otherwise on the first
    /// unassigned variable, with its saved phase, as the decision of a new level
    /// (`Continue`). When every variable is assigned the result is `Sat`: with propagation
    /// complete, the assignment is then a model of every formula the solver holds.
    pub fn search_branch(&mut self, branch: Option<Var>) -> (res: SearchStep)
        requires
            old(self).inv(),
            old(self).propagated(),
            old(self).ok_spec(),
            branch matches Some(v) ==> v@ < old(self).num_vars_spec(),
        ensures
            final(self).inv(),
            final(self).num_vars_spec() == old(self).num_vars_spec(),
            final(self).ok_spec() == old(self).ok_spec(),
            final(self).clauses_spec() == old(self).clauses_spec(),
            final(self).original_spec() == old(self).original_spec(),
            final(self).learnt_spec() == old(self).learnt_spec(),
            res is Continue || res is Sat,
            (res is Sat) == (forall|v: int| 0 <= v < old(self).num_vars_spec() ==> #[trigger] old(self).values()[v] != LBool::Undef),
            res is Sat ==> final(self).values() == old(self).values() && final(self).trail() == old(self).trail()
                && final(self).level_count() == old(self).level_count(),
            res is Sat && old(self).watches_sound() ==> forall|f: Seq<Seq<Lit>>| #[trigger] old(self).derived_from(f) ==> formula_model(
                value_model(final(self).values()),
                f,
            ),
            res is Continue ==> {
                let lit = final(self).trail().last();
                &&& final(self).level_count() == old(self).level_count() + 1
                &&& final(self).trail() == old(self).trail().push(lit)
                &&& lit.var()@ < old(self).num_vars_spec()
                &&& lit_value(old(self).values(), lit) == LBool::Undef
                &&& lit.negated() == old(self).polarity_spec()[lit.var()@ as int]
                &&& (branch matches Some(v) ==> (old(self).values()[v@ as int] == LBool::Undef ==> lit.var() == v))
            },
            old(self).watches_sound() ==> final(self).watches_sound(),
            forall|f: Seq<Seq<Lit>>| #[trigger] old(self).derived_from(f) ==> final(self).derived_from(f),
    {
        let mut var: Option<Var> = None;
        if let Some(v) = branch {
            if self.value_var(v).is_undef() {
                var = Some(v);
            }
        }
        if var.is_none() {
            let n = self.num_vars();
            let mut i: usize = 0;
            while i < n
                invariant
                    self.inv(),
                    *self == *old(self),
                    n == self.num_vars_spec(),
                    i <= n,
                    var matches Some(v) ==> v@ < n && self.values()[v@ as int] == LBool::Undef,
                    var is None ==> forall|u: int| 0 <= u < i ==> #[trigger] self.values()[u] != LBool::Undef,
                    var is None ==> (branch matches Some(v) ==> self.values()[v@ as int] != LBool::Undef),
                ensures
                    self.inv(),
                    *self == *old(self),
                    var matches Some(v) ==> v@ < n && self.values()[v@ as int] == LBool::Undef,
                    var is None ==> forall|u: int| 0 <= u < n ==> #[trigger] self.values()[u] != LBool::Undef,
                decreases n - i,
            {
                let v = Var::new(i as u32);
                if self.value_var(v).is_undef() {
                    var = Some(v);
                    break;
                }
                i = i + 1;
            }
        }
        let ghost s0 = *self;
        match self.branch(var) {
            Some(lit) => {
                proof {
                    assert(lit.var()@ < self.num_vars_spec());
                    assert(lit_value(self.values(), lit) == LBool::Undef);
                    assert(old(self).values()[lit.var()@ as int] == LBool::Undef);
                }
                self.push_decision(lit);
                SearchStep::Continue
            },
            None => {
                proof {
                    if old(self).watches_sound() {
                        assert forall|f: Seq<Seq<Lit>>| #[trigger] old(self).derived_from(f) implies formula_model(value_model(self.values()), f) by {
                            assert(self.derived_from(f));
                            self.lemma_model_of_formula(f);
                        }
                    }
                }
                SearchStep::Sat
            },
        }
    }
}

impl Solver {
    /// While walking the cube tree: propagation is complete up to the propagation head, or,
    /// when about to go back up, up to the start of the current level.
    spec fn walk_sound(&self, ascending: bool) -> bool {
        if ascending {
            self.level_count() > 0 && self.complete_upto(
                self.assignment_spec().lim_spec()[self.level_count() - 1] as int,
            )
        } else {
            self.watches_sound()
        }
    }

    /// Propagation complete up to a position at or after the start of the current (non-zero)
    /// level lets the walk go back up.
    proof fn lemma_walk_up(&self, q: int)
        requires
            self.inv(),
            self.level_count() > 0,
            self.complete_upto(q),
            self.assignment.lim_spec()[self.level_count() - 1] <= q,
        ensures
            self.walk_sound(true),
    {
        let lim = self.assignment.lim_spec();
        lemma_complete_mono(
            self.ca@,
            self.assignment.values(),
            self.assignment.data(),
            self.assignment.trail_spec(),
            q,
            lim[lim.len() - 1] as int,
        );
    }

    /// Going back up to level `j` from a walk about to go up keeps propagation complete up to
    /// the start of level `j + 1`.
    proof fn lemma_walk_back(&self, j: int)
        requires
            self.inv(),
            self.walk_sound(true),
            0 <= j < self.level_count(),
        ensures
            self.complete_upto(self.assignment.lim_spec()[j] as int),
    {
        let lim = self.assignment.lim_spec();
        assert(lim[j] <= lim[lim.len() - 1]);
        lemma_complete_mono(
            self.ca@,
            self.assignment.values(),
            self.assignment.data(),
            self.assignment.trail_spec(),
            lim[lim.len() - 1] as int,
            lim[j] as int,
        );
    }
}

impl Solver {
    /// With propagation complete and nothing left to propagate, no clause (not deleted) is
    /// falsified or unit: each has a true literal, or its first two literals are not false.
    pub proof fn lemma_nothing_to_propagate(&self)
        requires
            self.inv(),
            self.watches_sound(),
            self.propagated(),
        ensures
            forall|c: int|
                0 <= c < self.clauses_spec().len() && !(#[trigger] self.clauses_spec()[c]).deleted_spec() ==> clause_true(
                    self.clauses_spec()[c]@,
                    self.values(),
                ) || (lit_value(self.values(), self.clauses_spec()[c]@[0]) != LBool::False && lit_value(
                    self.values(),
                    self.clauses_spec()[c]@[1],
                ) != LBool::False),
    {
        let ca = self.ca@;
        let vals = self.assignment.values();
        let t = self.assignment.trail_spec();
        assert forall|c: int| 0 <= c < ca.len() && !(#[trigger] ca[c]).deleted_spec() implies clause_true(ca[c]@, vals) || (lit_value(
            vals,
            ca[c]@[0],
        ) != LBool::False && lit_value(vals, ca[c]@[1]) != LBool::False) by {
            assert(lits_in_range(ca[c]@, self.next_var as nat));
            assert forall|k: int| 0 <= k < 2 && lit_value(vals, #[trigger] ca[c]@[k]) == LBool::False implies clause_true(ca[c]@, vals) by {
                let v = ca[c]@[k].var()@;
                assert(vals[v as int] != LBool::Undef);
                assert(var_on_trail_before(t, v, t.len() as int));
                let j = choose|j: int|
                    0 <= j < ca[c]@.len() && lit_value(vals, #[trigger] ca[c]@[j]) == LBool::True
                        && self.assignment.data()[ca[c]@[j].var()@ as int].level_spec() <= self.assignment.data()[v as int].level_spec();
                assert(lit_value(vals, ca[c]@[j]) == LBool::True);
            }
        }
    }

    /// A model: with propagation complete, nothing left to propagate and every variable
    /// assigned, every clause (not deleted) has a true literal.
    pub proof fn lemma_model(&self)
        requires
            self.inv(),
            self.watches_sound(),
            self.propagated(),
            forall|v: int| 0 <= v < self.num_vars_spec() ==> #[trigger] self.values()[v] != LBool::Undef,
        ensures
            forall|c: int|
                0 <= c < self.clauses_spec().len() && !(#[trigger] self.clauses_spec()[c]).deleted_spec() ==> clause_true(
                    self.clauses_spec()[c]@,
                    self.values(),
                ),
    {
        self.lemma_nothing_to_propagate();
        let ca = self.ca@;
        let vals = self.assignment.values();
        assert forall|c: int| 0 <= c < ca.len() && !(#[trigger] ca[c]).deleted_spec() implies clause_true(ca[c]@, vals) by {
            assert(lits_in_range(ca[c]@, self.next_var as nat));
            let v = ca[c]@[0].var()@;
            assert(vals[v as int] != LBool::Undef);
            if !clause_true(ca[c]@, vals) {
                assert(lit_value(vals, ca[c]@[0]) != LBool::False);
                assert(lit_value(vals, ca[c]@[0]) == LBool::True);
            }
        }
    }

    /// A model of the original clauses: with propagation complete, nothing left to propagate
    /// and every variable assigned, every original clause has a true literal (a deleted one
    /// was deleted for a literal fixed to true).
    pub proof fn lemma_model_originals(&self)
        requires
            self.inv(),
            self.watches_sound(),
            self.propagated(),
            forall|v: int| 0 <= v < self.num_vars_spec() ==> #[trigger] self.values()[v] != LBool::Undef,
        ensures
            forall|k: int|
                0 <= k < self.original_spec().len() ==> clause_true(
                    self.clauses_spec()[(#[trigger] self.original_spec()[k])@ as int]@,
                    self.values(),
                ),
    {
        self.lemma_model();
        let ca = self.ca@;
        let vals = self.assignment.values();
        let refs = self.db.clauses_spec();
        assert forall|k: int| 0 <= k < refs.len() implies clause_true(ca[(#[trigger] refs[k])@ as int]@, vals) by {
            let c = refs[k]@ as int;
            assert(c < ca.len());
            if ca[c].deleted_spec() {
                assert(fixed_true_in(ca[c]@, vals, self.assignment.data()));
                let j = choose|j: int|
                    0 <= j < ca[c]@.len() && lit_value(vals, #[trigger] ca[c]@[j]) == LBool::True
                        && self.assignment.data()[ca[c]@[j].var()@ as int].level_spec() == 0;
                assert(lit_value(vals, ca[c]@[j]) == LBool::True);
            }
        }
    }

    /// A model of the formula: once every variable is assigned, with propagation complete
    /// and nothing left to propagate, the assignment satisfies every clause of a formula that
    /// the (consistent) solver holds.
    pub proof fn lemma_model_of_formula(&self, f: Seq<Seq<Lit>>)
        requires
            self.inv(),
            self.watches_sound(),
            self.propagated(),
            forall|v: int| 0 <= v < self.num_vars_spec() ==> #[trigger] self.values()[v] != LBool::Undef,
            self.derived_from(f),
            self.ok_spec(),
        ensures
            formula_model(value_model(self.values()), f),
    {
        self.lemma_model_originals();
        let vals = self.values();
        let m = value_model(vals);
        let ca = self.clauses_spec();
        let orig = self.original_spec();
        let t = self.trail();
        let g = self.ground_len() as int;
        assert forall|k: int| 0 <= k < orig.len() implies model_clause(m, #[trigger] ca[orig[k]@ as int]@) by {
            let cl = ca[orig[k]@ as int]@;
            assert(clause_true(cl, vals));
            let j = choose|j: int| 0 <= j < cl.len() && lit_value(vals, #[trigger] cl[j]) == LBool::True;
            assert(model_lit(m, cl[j]));
        }
        if self.level_count() > 0 {
            assert(self.assignment.lim_spec()[0] <= self.assignment.trail_spec().len());
        }
        assert forall|i: int| 0 <= i < g implies model_lit(m, #[trigger] t[i]) by {
            assert(lit_value(vals, t[i]) == LBool::True);
        }
        assert(state_model(m, ca, orig, t, g));
        assert forall|c: int| 0 <= c < f.len() implies model_clause(m, #[trigger] f[c]) by {
            assert(follows_from(ca, orig, t, g, f[c]));
        }
    }

    /// With an empty trail, no variable is assigned.
    pub proof fn lemma_empty_trail_unassigned(&self)
        requires
            self.inv(),
            self.trail().len() == 0,
        ensures
            forall|v: int| 0 <= v < self.num_vars_spec() ==> #[trigger] self.values()[v] == LBool::Undef,
    {
        assert forall|v: int| 0 <= v < self.num_vars_spec() implies #[trigger] self.values()[v] == LBool::Undef by {
            if self.values()[v] != LBool::Undef {
                assert(self.assignment.values()[v as u32 as int] != LBool::Undef);
                assert(var_on_trail_before(self.assignment.trail_spec(), v as u32, 0));
            }
        }
    }

    /// Propagation complete up to the propagation head is complete up to the end of level 0.
    pub proof fn lemma_sound_root(&self)
        requires
            self.inv(),
            self.watches_sound(),
        ensures
            self.root_sound(),
    {
        let lim = self.assignment.lim_spec();
        if lim.len() > 0 {
            assert(lim[0] <= lim[lim.len() - 1]);
            lemma_complete_mono(
                self.ca@,
                self.assignment.values(),
                self.assignment.data(),
                self.assignment.trail_spec(),
                self.assignment.qhead_spec() as int,
                lim[0] as int,
            );
        }
    }
}

impl Solver {
    /// Whether every trail literal has been propagated.
    pub open spec fn propagated(&self) -> bool {
        self.assignment_spec().qhead_spec() == self.trail().len()
    }

    /// Whether every trail literal has been propagated.
    pub fn is_propagated(&self) -> (res: bool)
        ensures
            res == self.propagated(),
    {
        self.assignment.qhead() == self.assignment.trail_len()
    }

    /// Goes back to level 0 and counts a restart.
    pub fn restart(&mut self)
        requires
            old(self).inv(),
        ensures
            final(self).inv(),
            final(self).level_count() == 0,
            final(self).trail() == old(self).trail().take(old(self).ground_len() as int),
            final(self).restarts_spec() == old(self).restarts_spec() + 1 || final(self).restarts_spec() == usize::MAX,
            final(self).clauses_spec() == old(self).clauses_spec(),
            final(self).original_spec() == old(self).original_spec(),
            final(self).learnt_spec() == old(self).learnt_spec(),
            final(self).num_vars_spec() == old(self).num_vars_spec(),
            final(self).ok_spec() == old(self).ok_spec(),
            final(self).conflicts_spec() == old(self).conflicts_spec(),
            old(self).watches_sound() ==> final(self).watches_sound(),
            forall|f: Seq<Seq<Lit>>| #[trigger] old(self).derived_from(f) ==> final(self).derived_from(f),
    {
        self.restarts = self.restarts.saturating_add(1);
        proof {
            assert forall|f: Seq<Seq<Lit>>| #[trigger] old(self).derived_from(f) implies self.derived_from(f) by {
                Solver::lemma_derived_same_ground(&*old(self), &*self, f);
            }
        }
        let ghost s1 = *self;
        self.backtrack(0);
        proof {
            assert forall|f: Seq<Seq<Lit>>| #[trigger] old(self).derived_from(f) implies self.derived_from(f) by {
                assert(s1.derived_from(f));
            }
        }
    }

    /// Simplifies the clause database as a reduction does first (see
    /// [`ClauseDatabase::simplify`]); unlike [`Solver::simplify`] it works at any level and is
    /// not counted.
    pub fn simplify_database(&mut self)
        requires
            old(self).inv(),
        ensures
            final(self).inv(),
            old(self).watches_sound() ==> final(self).watches_sound(),
            forall|c: int, l: Lit|
                0 <= c < old(self).clauses_spec().len() && #[trigger] final(self).clauses_spec()[c]@.contains(l) ==> old(
                    self,
                ).clauses_spec()[c]@.contains(l),
            final(self).num_vars_spec() == old(self).num_vars_spec(),
            final(self).ok_spec() == old(self).ok_spec(),
            final(self).values() == old(self).values(),
            final(self).trail() == old(self).trail(),
            final(self).level_count() == old(self).level_count(),
            final(self).original_spec() == old(self).original_spec(),
            final(self).learnt_spec() == old(self).learnt_spec(),
            final(self).clauses_spec().len() == old(self).clauses_spec().len(),
            forall|c: int|
                0 <= c < old(self).clauses_spec().len() ==> {
                    &&& (#[trigger] final(self).clauses_spec()[c])@ == old(self).clauses_spec()[c]@
                        || lit_value(old(self).values(), old(self).clauses_spec()[c]@[0]) == LBool::Undef
                    &&& final(self).clauses_spec()[c]@[0] == old(self).clauses_spec()[c]@[0]
                    &&& final(self).clauses_spec()[c].learnt_spec() == old(self).clauses_spec()[c].learnt_spec()
                },
            forall|k: int| 0 <= k < old(self).learnt_spec().len() ==> simplified(
                final(self).clauses_spec()[(#[trigger] old(self).learnt_spec()[k])@ as int],
                old(self).assignment_spec(),
            ),
            forall|f: Seq<Seq<Lit>>| #[trigger] old(self).derived_from(f) ==> final(self).derived_from(f),
    {
        let ghost ca0 = self.ca@;
        self.db.simplify(&self.assignment, &mut self.ca);
        proof {
            lemma_shrink_keeps_watches(ca0, self.ca@, self.watchlist.lists(), &self.assignment, self.next_var as nat);
            lemma_simplify_keeps_originals(ca0, self.ca@, self.db.clauses_spec(), self.db.learnts_spec(), &self.assignment);
            assert forall|c: int, l: Lit| 0 <= c < ca0.len() && #[trigger] self.ca@[c]@.contains(l) implies ca0[c]@.contains(l) by {
                assert(shrunk(self.ca@[c]@, ca0[c]@, &self.assignment));
            }
            if old(self).watches_sound() {
                lemma_complete_shrink(ca0, self.ca@, &self.assignment, self.assignment.qhead_spec() as int);
            }
            let ca = self.ca@;
            let vals = self.assignment.values();
            let data = self.assignment.data();
            let t = self.assignment.trail_spec();
            assert forall|i: int| 0 <= i < t.len() implies #[trigger] reason_ok(ca, vals, data, t, i) by {
                assert(reason_ok(ca0, vals, data, t, i));
                match data[t[i].var()@ as int].reason_spec() {
                    None => {},
                    Some(c) => {
                        assert(lit_value(vals, t[i]) == LBool::True);
                        assert(ca[c@ as int]@ == ca0[c@ as int]@);
                    },
                }
            }
            assert forall|c: int| 0 <= c < ca0.len() implies shrunk(#[trigger] self.clauses_spec()[c]@, ca0[c]@, &self.assignment) by {
                assert(shrunk(self.ca@[c]@, ca0[c]@, &self.assignment));
            }
            assert forall|f: Seq<Seq<Lit>>| #[trigger] old(self).derived_from(f) implies self.derived_from(f) by {
                Solver::lemma_derived_shrunk(&*old(self), &*self, f);
            }
        }
    }

    /// Reduces the learnt clauses: going through them in the order `sorted` (a permutation
    /// of them), frees those that are removable (`candidate` marks them, they have more than
    /// two literals and are nobody's reason) and keeps the others in that order (see
    /// [`ClauseDatabase::retain_learnts`]). Counts a reduction.
    pub fn reduce_db(&mut self, sorted: &[ClauseRef], candidate: &[bool])
        requires
            old(self).inv(),
            sorted@.len() == candidate@.len(),
            sorted@.to_multiset() == old(self).learnt_spec().to_multiset(),
            forall|a: int, b: int| 0 <= a < b < sorted@.len() ==> sorted@[a] != sorted@[b],
        ensures
            final(self).inv(),
            old(self).watches_sound() ==> final(self).watches_sound(),
            final(self).reduces_spec() == old(self).reduces_spec() + 1 || final(self).reduces_spec() == usize::MAX,
            final(self).num_vars_spec() == old(self).num_vars_spec(),
            final(self).ok_spec() == old(self).ok_spec(),
            final(self).values() == old(self).values(),
            final(self).trail() == old(self).trail(),
            final(self).level_count() == old(self).level_count(),
            final(self).original_spec() == old(self).original_spec(),
            final(self).clauses_spec().len() == old(self).clauses_spec().len(),
            final(self).learnt_spec() == kept_learnts(sorted@, candidate@, old(self).clauses_spec(), old(self).assignment_spec()),
            forall|c: int| 0 <= c < old(self).clauses_spec().len() ==> (#[trigger] final(self).clauses_spec()[c])@
                == old(self).clauses_spec()[c]@,
            forall|f: Seq<Seq<Lit>>| #[trigger] old(self).derived_from(f) ==> final(self).derived_from(f),
    {
        self.reduces = self.reduces.saturating_add(1);
        let ghost ca1 = self.ca@;
        proof {
            let ca = self.ca@;
            assert forall|k: int| 0 <= k < sorted@.len() implies (#[trigger] sorted@[k])@ < ca.len() by {
                assert(sorted@.to_multiset().count(sorted@[k]) > 0) by {
                    sorted@.to_multiset_ensures();
                    assert(sorted@.contains(sorted@[k]));
                }
                self.db.learnts_spec().to_multiset_ensures();
                assert(self.db.learnts_spec().contains(sorted@[k]));
                let j = choose|j: int| 0 <= j < self.db.learnts_spec().len() && self.db.learnts_spec()[j] == sorted@[k];
                assert(refs_in(self.db.learnts_spec(), ca.len()));
            }
        }
        self.db.retain_learnts(sorted, candidate, &self.assignment, &mut self.ca);
        proof {
            lemma_reduce_keeps_originals(
                sorted@,
                candidate@,
                ca1,
                self.ca@,
                old(self).db.clauses_spec(),
                old(self).db.learnts_spec(),
                &self.assignment,
            );
            if old(self).watches_sound() {
                lemma_complete_delete(
                    ca1,
                    self.ca@,
                    self.assignment.values(),
                    self.assignment.data(),
                    self.assignment.trail_spec(),
                    self.assignment.qhead_spec() as int,
                );
            }
            let ca = self.ca@;
            let vals = self.assignment.values();
            let data = self.assignment.data();
            let t = self.assignment.trail_spec();
            assert forall|i: int| 0 <= i < t.len() implies #[trigger] reason_ok(ca, vals, data, t, i) by {
                assert(reason_ok(ca1, vals, data, t, i));
                match data[t[i].var()@ as int].reason_spec() {
                    None => {},
                    Some(c) => {
                        assert(ca[c@ as int]@ == ca1[c@ as int]@);
                    },
                }
            }
            assert forall|x: int| 0 <= x < ca.len() implies (#[trigger] ca[x])@.len() >= 2 && lits_in_range(ca[x]@, self.next_var as nat) by {
                assert(ca[x]@ == ca1[x]@);
            }
            lemma_kept_refs(sorted@, candidate@, ca1, &self.assignment, ca.len());
            assert forall|c: int| 0 <= c < ca1.len() implies (#[trigger] self.clauses_spec()[c])@ == old(self).clauses_spec()[c]@ by {
                assert(ca[c]@ == ca1[c]@);
            }
            assert forall|f: Seq<Seq<Lit>>| #[trigger] old(self).derived_from(f) implies self.derived_from(f) by {
                Solver::lemma_derived_same_ground(&*old(self), &*self, f);
            }
        }
    }

    /// Handles the assumptions from the current level on: an assumption that is already true
    /// opens an empty decision level; a false one ends with the assumptions that explain it
    /// ([`Solver::analyze_final`]); an unassigned one is returned as the next decision.
    /// `Ok(None)`: every assumption holds, so a branching variable has to be picked.
    pub fn decide(&mut self, assumptions: &[Lit]) -> (res: Result<Option<Lit>, Vec<Lit>>)
        requires
            old(self).inv(),
            old(self).propagated(),
            forall|k: int| 0 <= k < assumptions@.len() ==> (#[trigger] assumptions@[k]).var()@ < old(self).num_vars_spec(),
        ensures
            final(self).inv(),
            final(self).propagated(),
            final(self).values() == old(self).values(),
            final(self).trail() == old(self).trail(),
            final(self).clauses_spec() == old(self).clauses_spec(),
            final(self).original_spec() == old(self).original_spec(),
            final(self).learnt_spec() == old(self).learnt_spec(),
            final(self).num_vars_spec() == old(self).num_vars_spec(),
            final(self).ok_spec() == old(self).ok_spec(),
            final(self).level_count() >= old(self).level_count(),
            final(self).assignment_spec().lim_spec().take(old(self).level_count() as int) == old(self).assignment_spec().lim_spec(),
            forall|j: int| old(self).level_count() <= j < final(self).level_count() ==> j < assumptions@.len()
                && lit_value(final(self).values(), #[trigger] assumptions@[j]) == LBool::True
                && final(self).assignment_spec().lim_spec()[j] == final(self).trail().len(),
            match res {
                Ok(Some(p)) => final(self).level_count() < assumptions@.len() && p == assumptions@[final(self).level_count() as int]
                    && lit_value(final(self).values(), p) == LBool::Undef,
                Ok(None) => final(self).level_count() >= assumptions@.len(),
                Err(c) => final(self).level_count() < assumptions@.len() && lit_value(
                    final(self).values(),
                    assumptions@[final(self).level_count() as int],
                ) == LBool::False && c@.len() >= 1 && c@[0] == assumptions@[final(self).level_count() as int].negate_spec(),
            },
            res matches Err(c) ==> implied(final(self).clauses_spec(), final(self).trail().take(final(self).ground_len() as int), c@),
            old(self).watches_sound() ==> final(self).watches_sound(),
            forall|f: Seq<Seq<Lit>>| #[trigger] old(self).derived_from(f) ==> final(self).derived_from(f),
    {
        loop
            invariant
                self.inv(),
                self.assignment.qhead_spec() == self.assignment.trail_spec().len(),
                old(self).assignment.qhead_spec() == old(self).assignment.trail_spec().len(),
                self.assignment.values() == old(self).assignment.values(),
                self.assignment.trail_spec() == old(self).assignment.trail_spec(),
                self.assignment.data() == old(self).assignment.data(),
                self.ca == old(self).ca,
                self.db == old(self).db,
                self.next_var == old(self).next_var,
                self.ok == old(self).ok,
                self.assignment.lim_spec().len() >= old(self).assignment.lim_spec().len(),
                self.assignment.lim_spec().take(old(self).assignment.lim_spec().len() as int) == old(self).assignment.lim_spec(),
                forall|k: int| 0 <= k < assumptions@.len() ==> (#[trigger] assumptions@[k]).var()@ < self.next_var,
                forall|j: int| old(self).assignment.lim_spec().len() <= j < self.assignment.lim_spec().len() ==> j < assumptions@.len()
                    && lit_value(self.assignment.values(), #[trigger] assumptions@[j]) == LBool::True
                    && self.assignment.lim_spec()[j] == self.assignment.trail_spec().len(),
                forall|f: Seq<Seq<Lit>>| #[trigger] old(self).derived_from(f) ==> self.derived_from(f),
            decreases assumptions@.len() - self.assignment.lim_spec().len(),
        {
            let level = self.assignment.decision_level();
            if level >= assumptions.len() {
                return Ok(None);
            }
            let p = assumptions[level];
            match self.assignment.value(p) {
                LBool::True => {
                    proof {
                        crate::assignment::lemma_trail_len_bound(&self.assignment);
                    }
                    let ghost lim0 = self.assignment.lim_spec();
                    let ghost s_prev = *self;
                    self.assignment.new_decision_level();
                    proof {
                        assert forall|f: Seq<Seq<Lit>>| #[trigger] old(self).derived_from(f) implies self.derived_from(f) by {
                            assert(s_prev.derived_from(f));
                            if lim0.len() > 0 {
                                assert(self.assignment.lim_spec()[0] == lim0[0]);
                            }
                            Solver::lemma_derived_same_ground(&s_prev, &*self, f);
                        }
                        assert(self.assignment.lim_spec().take(old(self).assignment.lim_spec().len() as int)
                            =~= lim0.take(old(self).assignment.lim_spec().len() as int));
                        let lim1 = self.assignment.lim_spec();
                        assert forall|j: int| old(self).assignment.lim_spec().len() <= j < lim1.len() implies j < assumptions@.len()
                            && lit_value(self.assignment.values(), #[trigger] assumptions@[j]) == LBool::True
                            && lim1[j] == self.assignment.trail_spec().len() by {
                            if j < lim0.len() {
                                assert(lim1[j] == lim0[j]);
                            } else {
                                assert(j == level);
                            }
                        }
                    }
                },
                LBool::False => {
                    let np = p.negate();
                    proof {
                        crate::lit::lemma_lit_var_view(p);
                        crate::lit::lemma_lit_var_view(np);
                    }
                    let conflict = self.analyze_final(np);
                    return Err(conflict);
                },
                LBool::Undef => {
                    return Ok(Some(p));
                },
            }
        }
    }

    /// The literal of `var` with its saved phase.
    pub fn pick_phase(&self, var: Var) -> (res: Lit)
        requires
            self.inv(),
            var@ < self.num_vars_spec(),
        ensures
            res.var() == var,
            res.negated() == self.polarity_spec()[var@ as int],
    {
        Lit::new(var, *self.polarity.at(&var))
    }

    /// Turns the branching variable picked by the decision order into a decision: counts it
    /// and gives it its saved phase. `None` (nothing left to pick) stays `None`.
    pub fn branch(&mut self, var: Option<Var>) -> (res: Option<Lit>)
        requires
            old(self).inv(),
            var matches Some(v) ==> v@ < old(self).num_vars_spec(),
        ensures
            final(self).inv(),
            final(self).values() == old(self).values(),
            final(self).trail() == old(self).trail(),
            final(self).assignment_spec() == old(self).assignment_spec(),
            final(self).clauses_spec() == old(self).clauses_spec(),
            final(self).num_vars_spec() == old(self).num_vars_spec(),
            final(self).polarity_spec() == old(self).polarity_spec(),
            final(self).ok_spec() == old(self).ok_spec(),
            final(self).original_spec() == old(self).original_spec(),
            final(self).learnt_spec() == old(self).learnt_spec(),
            old(self).propagated() ==> final(self).propagated(),
            old(self).watches_sound() ==> final(self).watches_sound(),
            var is None ==> res is None && final(self).decisions_spec() == old(self).decisions_spec(),
            var matches Some(v) ==> res matches Some(l) && l.var() == v && l.negated() == old(self).polarity_spec()[v@ as int]
                && (final(self).decisions_spec() == old(self).decisions_spec() + 1 || final(self).decisions_spec() == usize::MAX),
            forall|f: Seq<Seq<Lit>>| #[trigger] old(self).derived_from(f) ==> final(self).derived_from(f),
    {
        let res = match var {
            None => None,
            Some(v) => {
                let lit = self.pick_phase(v);
                self.decisions = self.decisions.saturating_add(1);
                Some(lit)
            },
        };
        proof {
            assert forall|f: Seq<Seq<Lit>>| #[trigger] old(self).derived_from(f) implies self.derived_from(f) by {
                Solver::lemma_derived_same_ground(&*old(self), &*self, f);
            }
        }
        res
    }

    /// Opens a new decision level and assigns `lit` as its decision.
    pub fn push_decision(&mut self, lit: Lit)
        requires
            old(self).inv(),
            old(self).propagated(),
            lit.var()@ < old(self).num_vars_spec(),
            lit_value(old(self).values(), lit) == LBool::Undef,
        ensures
            final(self).inv(),
            final(self).level_count() == old(self).level_count() + 1,
            final(self).assignment_spec().lim_spec() == old(self).assignment_spec().lim_spec().push(old(self).trail().len() as usize),
            final(self).trail() == old(self).trail().push(lit),
            final(self).values() == old(self).values().update(lit.var()@ as int, lbool_of(!lit.negated())),
            final(self).assignment_spec().data() == old(self).assignment_spec().data().update(
                lit.var()@ as int,
                VarData::new_spec(None, old(self).level_count() + 1),
            ),
            lit_value(final(self).values(), lit) == LBool::True,
            final(self).clauses_spec() == old(self).clauses_spec(),
            final(self).original_spec() == old(self).original_spec(),
            final(self).learnt_spec() == old(self).learnt_spec(),
            final(self).num_vars_spec() == old(self).num_vars_spec(),
            final(self).ok_spec() == old(self).ok_spec(),
            final(self).polarity_spec() == old(self).polarity_spec(),
            final(self).events_spec() == old(self).events_spec(),
            final(self).conflicts_spec() == old(self).conflicts_spec(),
            old(self).watches_sound() ==> final(self).watches_sound(),
            forall|f: Seq<Seq<Lit>>| #[trigger] old(self).derived_from(f) ==> final(self).derived_from(f),
    {
        proof {
            crate::assignment::lemma_trail_len_bound(&self.assignment);
        }
        self.assignment.new_decision_level();
        let ghost vals = self.assignment.values();
        let ghost data = self.assignment.data();
        let ghost t0 = self.assignment.trail_spec();
        proof {
            let lim = self.assignment.lim_spec();
            assert(lim[lim.len() - 1] == t0.len());
        }
        self.assignment.unchecked_enqueue(lit, None);
        proof {
            crate::assignment::lemma_lim_len_bound(&self.assignment);
            lemma_enqueue_keeps_old_reasons(self.ca@, vals, data, t0, self.assignment.lim_spec(), self.assignment.qhead_spec(), lit, None);
            lemma_enqueue_keeps_decisions(vals, data, t0, self.assignment.lim_spec(), self.assignment.qhead_spec(), lit, None);
            if old(self).watches_sound() {
                assert(self.assignment.trail_spec().take(t0.len() as int) =~= t0);
                lemma_complete_assign(
                    self.ca@,
                    vals,
                    data,
                    t0,
                    self.assignment.values(),
                    self.assignment.data(),
                    self.assignment.trail_spec(),
                    self.assignment.qhead_spec() as int,
                    self.next_var as nat,
                );
            }
            assert forall|f: Seq<Seq<Lit>>| #[trigger] old(self).derived_from(f) implies self.derived_from(f) by {
                assert forall|i: int| 0 <= i < old(self).ground_len() implies #[trigger] self.trail()[i] == old(self).trail()[i] by {
                    assert(self.trail() == old(self).trail().push(lit));
                }
                Solver::lemma_derived_same_ground(&*old(self), &*self, f);
            }
        }
    }

    /// Explains why the true literal `p` holds in terms of decisions: `p` first, then the
    /// negation of each decision (a literal assigned without reason above level 0) that `p`
    /// depends on through reason clauses. At level 0 it is `p` alone.
    pub fn analyze_final(&self, p: Lit) -> (res: Vec<Lit>)
        requires
            self.inv(),
            p.var()@ < self.num_vars_spec(),
            lit_value(self.values(), p) == LBool::True,
        ensures
            res@.len() >= 1,
            res@[0] == p,
            self.level_count() == 0 ==> res@.len() == 1,
            forall|k: int| 1 <= k < res@.len() ==> #[trigger] negated_decision(
                self.assignment_spec().data(),
                self.trail(),
                self.ground_len() as int,
                res@[k],
            ),
            implied(self.clauses_spec(), self.trail().take(self.ground_len() as int), res@),
            forall|k: int| 1 <= k < res@.len() ==> #[trigger] negated_cone_decision(
                self.clauses_spec(),
                self.assignment_spec().data(),
                self.trail(),
                self.ground_len() as int,
                p,
                res@[k],
            ),
    {
        let mut conflict: Vec<Lit> = Vec::new();
        conflict.push(p);
        let ghost t = self.assignment.trail_spec();
        let ghost data = self.assignment.data();
        let ghost lim = self.assignment.lim_spec();
        let ghost vals = self.assignment.values();
        let ghost ca = self.ca@;
        let ghost n = self.next_var as nat;
        proof {
            assert(vals[p.var()@ as int] != LBool::Undef);
            assert(var_on_trail_before(t, p.var()@, t.len() as int));
        }
        if self.assignment.decision_level() == 0 {
            proof {
                let units = t.take(self.ground_len() as int);
                let j = choose|j: int| 0 <= j < t.len() && (#[trigger] t[j]).var()@ == p.var()@;
                Var::lemma_view_injective(t[j].var(), p.var());
                assert(lit_value(vals, t[j]) == LBool::True);
                assert(t[j].negated() == p.negated());
                Lit::lemma_var_negated_determine(t[j], p);
                assert(units[j] == p);
                assert forall|m: spec_fn(int) -> bool| #[trigger] model_of(m, ca, units) implies model_clause(m, conflict@) by {
                    assert(model_lit(m, units[j]));
                    assert(conflict@[0] == p);
                }
            }
            return conflict;
        }
        let mut seen: IdxVec<Var, bool> = IdxVec::from_vec(vec![false; self.num_vars()]);
        seen.set(&p.var(), true);
        let base = self.assignment.lim_at(0);
        let mut i = self.assignment.trail_len();
        let ghost units = t.take(lim[0] as int);
        let ghost mut cur: Set<int> = Set::empty().insert(p.var()@ as int);
        proof {
            let pv = p.var()@ as int;
            assert(reason_path(ca, data, seq![pv]));
            assert(reason_reach(ca, data, pv, pv));
            assert(lim[0] <= t.len());
            crate::lit::lemma_lit_var_view(p);
            assert forall|m: spec_fn(int) -> bool| #[trigger] model_of(m, ca, units) implies model_clause(m, conflict@) || model_clause(
                m,
                Seq::<Lit>::empty(),
            ) || exists|w: int| #[trigger] cur.contains(w) && m(w) != (vals[w] == LBool::True) by {
                let v = p.var()@ as int;
                if m(v) == (vals[v] == LBool::True) {
                    assert(model_lit(m, p));
                    assert(conflict@[0] == p);
                } else {
                    assert(cur.contains(v));
                }
            }
        }
        while i > base
            invariant
                base <= i <= t.len(),
                base == lim[0],
                lim.len() > 0,
                t == self.assignment.trail_spec(),
                data == self.assignment.data(),
                lim == self.assignment.lim_spec(),
                vals == self.assignment.values(),
                ca == self.ca@,
                n == self.next_var,
                self.inv(),
                seen@.len() == self.next_var,
                conflict@.len() >= 1,
                conflict@[0] == p,
                forall|k: int| 1 <= k < conflict@.len() ==> #[trigger] negated_decision(data, t, base as int, conflict@[k]),
                units == t.take(lim[0] as int),
                cur.finite(),
                forall|v: int| 0 <= v < n ==> (seen@[v] <==> #[trigger] cur.contains(v)),
                forall|v: int| #[trigger] cur.contains(v) ==> 0 <= v < n && var_on_trail_before(t, v as u32, i as int),
                resolvent_implied(ca, units, vals, conflict@, cur, Seq::<Lit>::empty()),
                forall|v: int| #[trigger] cur.contains(v) ==> reason_reach(ca, data, p.var()@ as int, v),
                forall|k: int| 1 <= k < conflict@.len() ==> #[trigger] negated_cone_decision(ca, data, t, base as int, p, conflict@[k]),
            decreases i,
        {
            i = i - 1;
            let lit = self.assignment.trail_at(i);
            let var = lit.var();
            proof {
                assert(var@ < self.next_var);
                assert(lit_value(vals, lit) == LBool::True);
            }
            if *seen.at(&var) {
                proof {
                    assert(level_fits(lim, data[var@ as int].level_spec() as int, i as int));
                    assert(cur.contains(var@ as int));
                }
                let ghost cur0 = cur;
                match self.assignment.reason(var) {
                    Some(r) => {
                        proof {
                            assert(reason_ok(self.ca@, self.assignment.values(), data, t, i as int));
                            assert(lits_in_range(self.ca@[r@ as int]@, self.next_var as nat));
                            assert(ca[r@ as int]@.len() >= 2);
                            lemma_resolve_reason(ca, units, vals, conflict@, cur, r@ as int, lit);
                            cur = cur.remove(var@ as int);
                        }
                        let ghost cl = ca[r@ as int]@;
                        let len = self.ca.clause(r).len();
                        let mut k: usize = 1;
                        while k < len
                            invariant
                                1 <= k <= len,
                                r@ < self.ca@.len(),
                                len == self.ca@[r@ as int]@.len(),
                                cl == ca[r@ as int]@,
                                ca == self.ca@,
                                lits_in_range(self.ca@[r@ as int]@, self.next_var as nat),
                                self.inv(),
                                seen@.len() == self.next_var,
                                n == self.next_var,
                                t == self.assignment.trail_spec(),
                                data == self.assignment.data(),
                                lim == self.assignment.lim_spec(),
                                vals == self.assignment.values(),
                                base == lim[0],
                                lim.len() > 0,
                                base <= i < t.len(),
                                units == t.take(lim[0] as int),
                                reason_ok(ca, vals, data, t, i as int),
                                data[t[i as int].var()@ as int].reason_spec() == Some(r),
                                cur.finite(),
                                !cur.contains(var@ as int),
                                t[i as int].var() == var,
                                forall|v: int| 0 <= v < n ==> (seen@[v] <==> #[trigger] cur.contains(v)) || v == var@,
                                forall|v: int| #[trigger] cur.contains(v) ==> 0 <= v < n && var_on_trail_before(t, v as u32, i as int),
                                resolvent_implied(ca, units, vals, conflict@, cur, cl.skip(k as int)),
                                reason_reach(ca, data, p.var()@ as int, var@ as int),
                                forall|v: int| #[trigger] cur.contains(v) ==> reason_reach(ca, data, p.var()@ as int, v),
                                forall|kk: int| 1 <= kk < conflict@.len() ==> #[trigger] negated_cone_decision(ca, data, t, base as int, p, conflict@[kk]),
                            decreases len - k,
                        {
                            let q = self.ca.clause(r).get(k);
                            let v = q.var();
                            proof {
                                assert(lit_value(vals, cl[k as int]) == LBool::False && var_on_trail_before(t, cl[k as int].var()@, i as int));
                            }
                            if self.assignment.level(v) > 0 {
                                proof {
                                    let j = choose|j: int| 0 <= j < i && (#[trigger] t[j]).var()@ == v@;
                                    if v@ == var@ {
                                        Var::lemma_view_injective(t[j].var(), var);
                                        assert(t[j].var() == t[i as int].var());
                                        assert(false);
                                    }
                                }
                                seen.set(&v, true);
                                proof {
                                    assert(reason_step(ca, data, var@ as int, v@ as int)) by {
                                        assert(cl[k as int].var()@ as int == v@ as int);
                                    }
                                    lemma_reach_step(ca, data, p.var()@ as int, var@ as int, v@ as int);
                                    lemma_resolve_cur(ca, units, vals, conflict@, cur, cl, k as int);
                                    cur = cur.insert(v@ as int);
                                }
                            } else {
                                proof {
                                    let j = choose|j: int| 0 <= j < i && (#[trigger] t[j]).var()@ == v@;
                                    Var::lemma_view_injective(t[j].var(), v);
                                    assert(level_fits(lim, data[t[j].var()@ as int].level_spec() as int, j));
                                    assert(units[j] == t[j]);
                                    assert(lit_value(vals, t[j]) == LBool::True);
                                    lemma_resolve_skip(ca, units, vals, conflict@, cur, cl, k as int);
                                }
                            }
                            k = k + 1;
                        }
                        proof {
                            assert(cl.skip(len as int) =~= Seq::<Lit>::empty());
                        }
                    },
                    None => {
                        let nl = lit.negate();
                        let ghost c0 = conflict@;
                        conflict.push(nl);
                        proof {
                            let last = conflict@.len() - 1;
                            assert(data[t[i as int].var()@ as int].reason_spec() is None);
                            assert(data[t[i as int].var()@ as int].level_spec() > 0);
                            assert(negated_decision(data, t, base as int, nl)) by {
                                assert(nl == t[i as int].negate_spec());
                            }
                            assert forall|k: int| 1 <= k < conflict@.len() implies #[trigger] negated_decision(data, t, base as int, conflict@[k]) by {
                                if k < last {
                                    assert(conflict@[k] == c0[k]);
                                }
                            }
                            assert(reason_reach(ca, data, p.var()@ as int, var@ as int));
                            assert(negated_cone_decision(ca, data, t, base as int, p, nl)) by {
                                assert(nl == t[i as int].negate_spec());
                                assert(t[i as int].var() == var);
                            }
                            assert forall|k: int| 1 <= k < conflict@.len() implies #[trigger] negated_cone_decision(ca, data, t, base as int, p, conflict@[k]) by {
                                if k < last {
                                    assert(conflict@[k] == c0[k]);
                                }
                            }
                            crate::lit::lemma_lit_var_view(lit);
                            lemma_resolve_decision(ca, units, vals, c0, cur, lit, nl);
                            cur = cur.remove(var@ as int);
                        }
                    },
                }
                seen.set(&var, false);
                proof {
                    assert forall|v: int| #[trigger] cur.contains(v) implies 0 <= v < n && var_on_trail_before(t, v as u32, i as int) by {
                        let j = choose|j: int| 0 <= j < i + 1 && (#[trigger] t[j]).var()@ == v as u32;
                        if j == i {
                            Var::lemma_view_injective(t[j].var(), var);
                            assert(false);
                        }
                    }
                }
            } else {
                proof {
                    assert forall|v: int| #[trigger] cur.contains(v) implies 0 <= v < n && var_on_trail_before(t, v as u32, i as int) by {
                        let j = choose|j: int| 0 <= j < i + 1 && (#[trigger] t[j]).var()@ == v as u32;
                        if j == i {
                            assert(seen@[v]);
                            assert(false);
                        }
                    }
                }
            }
        }
        proof {
            assert forall|v: int| #[trigger] cur.contains(v) implies exists|j: int|
                0 <= j < units.len() && (#[trigger] units[j]).var()@ == v && lit_value(vals, units[j]) == LBool::True by {
                let j = choose|j: int| 0 <= j < i && (#[trigger] t[j]).var()@ == v as u32;
                let lvl = data[t[j].var()@ as int].level_spec() as int;
                assert(level_fits(lim, lvl, j));
                if lvl > 0 {
                    assert(lim[0] <= lim[lvl - 1]);
                }
                assert(units[j] == t[j]);
                assert(lit_value(vals, t[j]) == LBool::True);
            }
            lemma_resolve_finish(ca, units, vals, conflict@, cur);
        }
        conflict
    }

}

impl Solver {
    /// Checks the assumptions by unit propagation (see [`Solver::propcheck`]), returning
    /// whether no conflict arose, the literals assigned above the current level (the last one
    /// of the conflict clause appended on a conflict), and their number.
    #[verifier::spinoff_prover]
    #[verifier::rlimit(100)]
    fn propcheck_core(&mut self, assumptions: &[Lit]) -> (res: (bool, Vec<Lit>, u64))
        requires
            old(self).inv(),
            forall|k: int| 0 <= k < assumptions@.len() ==> (#[trigger] assumptions@[k]).var()@ < old(self).num_vars_spec(),
        ensures
            final(self).inv(),
            final(self).propagated(),
            old(self).watches_sound() && final(self).ok_spec() ==> final(self).watches_sound(),
            final(self).level_count() == old(self).level_count(),
            final(self).assignment_spec().lim_spec() == old(self).assignment_spec().lim_spec(),
            final(self).trail().take(old(self).trail().len() as int) == old(self).trail(),
            final(self).trail().len() >= old(self).trail().len(),
            final(self).clauses_spec().len() == old(self).clauses_spec().len(),
            final(self).original_spec() == old(self).original_spec(),
            final(self).learnt_spec() == old(self).learnt_spec(),
            final(self).num_vars_spec() == old(self).num_vars_spec(),
            final(self).ok_spec() ==> old(self).ok_spec(),
            res.0 ==> final(self).ok_spec(),
            res.0 ==> forall|k: int| 0 <= k < assumptions@.len() ==> lit_value(final(self).values(), #[trigger] assumptions@[k]) == LBool::True
                || res.1@.contains(assumptions@[k]),
            res.0 ==> forall|k: int| 0 <= k < res.1@.len() ==> lit_value(final(self).values(), #[trigger] res.1@[k]) == LBool::Undef,
            res.2 == res.1@.len(),
            forall|f: Seq<Seq<Lit>>| #[trigger] old(self).derived_from(f) && old(self).level_count() == 0 ==> final(self).derived_from(f),
            forall|f: Seq<Seq<Lit>>| #[trigger] old(self).derived_from(f) && old(self).level_count() == 0 && !res.0 ==> unsatisfiable(
                with_units(f, assumptions@),
            ),
            res.0 && old(self).watches_sound() ==> up_consistent(final(self).clauses_spec(), old(self).trail() + assumptions@, final(self).num_vars_spec()),
            same_clauses(old(self).clauses_spec(), final(self).clauses_spec()),
            !res.0 && old(self).ok_spec() && old(self).level_count() == 0 ==> !up_consistent(
                final(self).clauses_spec(),
                old(self).trail() + assumptions@,
                final(self).num_vars_spec(),
            ),
            old(self).level_count() == 0 ==> assigned_kept(
                old(self).values(),
                old(self).assignment_spec().data(),
                final(self).values(),
                final(self).assignment_spec().data(),
            ),
            old(self).level_count() == 0 ==> live_reasons_from(
                final(self).clauses_spec(),
                final(self).assignment_spec().data(),
                final(self).trail(),
                old(self).trail().len() as int,
            ),
            old(self).ok_spec() && !final(self).ok_spec() && old(self).level_count() == 0 ==> !up_consistent(
                final(self).clauses_spec(),
                old(self).trail(),
                final(self).num_vars_spec(),
            ),
            res.0 && old(self).level_count() == 0 && old(self).watches_sound() ==> forced_unassigned(
                res.1@,
                final(self).clauses_spec(),
                old(self).trail() + assumptions@,
                final(self).num_vars_spec(),
                final(self).values(),
            ),
    {
        let mut propagated: Vec<Lit> = Vec::new();
        let confl0 = self.propagate();
        let ghost s_p = *self;
        proof {
            assert(same_clauses(old(self).clauses_spec(), s_p.clauses_spec()));
        }
        if confl0.is_some() {
            self.ok = false;
        }
        if !self.ok {
            proof {
                assert forall|f: Seq<Seq<Lit>>| #[trigger] old(self).derived_from(f) && old(self).level_count() == 0 implies self.derived_from(f) by {
                    assert(s_p.derived_from(f));
                    if confl0 is Some {
                        let c = confl0->0;
                        let cl = s_p.ca@[c@ as int]@;
                        assert(entails(f, s_p.clauses_spec()[c@ as int]@));
                        assert(lits_in_range(cl, s_p.next_var as nat));
                        assert(clause_false(cl, s_p.values()));
                        Solver::lemma_false_clause_refutes(&s_p, f, cl);
                    }
                    assert forall|c: int| 0 <= c < self.clauses_spec().len() implies entails(f, #[trigger] self.clauses_spec()[c]@) by {
                        assert(entails(f, s_p.clauses_spec()[c]@));
                    }
                    Solver::lemma_derived_grow(&s_p, &*self, f);
                }
                assert forall|f: Seq<Seq<Lit>>| #[trigger] old(self).derived_from(f) && old(self).level_count() == 0 implies unsatisfiable(
                    with_units(f, assumptions@),
                ) by {
                    assert(self.derived_from(f));
                    lemma_with_units(f, assumptions@);
                }
                if old(self).ok && old(self).level_count() == 0 {
                    let c = confl0->0;
                    let units = old(self).trail() + assumptions@;
                    let t = s_p.trail();
                    let ot = old(self).trail();
                    assert forall|j: int| 0 <= j < ot.len() implies units.contains(#[trigger] t[j]) by {
                        assert(t.take(ot.len() as int)[j] == t[j]);
                        assert(units[j] == t[j]);
                    }
                    assert forall|j: int|
                        ot.len() <= j < t.len() && (#[trigger] s_p.assignment_spec().data()[t[j].var()@ as int]).reason_spec() is None implies units.contains(
                        t[j],
                    ) by {
                        reveal(live_reasons_from);
                        assert(level_fits(s_p.assignment.lim_spec(), s_p.assignment.data()[t[j].var()@ as int].level_spec() as int, j));
                    }
                    lemma_trail_refutes(&s_p, ot.len() as int, units, Some(c@ as int), None);
                    assert forall|j: int| 0 <= j < ot.len() implies ot.contains(#[trigger] t[j]) by {
                        assert(t.take(ot.len() as int)[j] == t[j]);
                        assert(ot[j] == t[j]);
                    }
                    assert forall|j: int|
                        ot.len() <= j < t.len() && (#[trigger] s_p.assignment_spec().data()[t[j].var()@ as int]).reason_spec() is None implies ot.contains(
                        t[j],
                    ) by {
                        reveal(live_reasons_from);
                        assert(level_fits(s_p.assignment.lim_spec(), s_p.assignment.data()[t[j].var()@ as int].level_spec() as int, j));
                    }
                    lemma_trail_refutes(&s_p, ot.len() as int, ot, Some(c@ as int), None);
                }
            }
            return (false, propagated, 0);
        }
        let ghost s0 = *self;
        let ghost sound0 = old(self).watches_sound();
        let level = self.assignment.decision_level();
        let ghost t1 = self.assignment.trail_spec();
        let ghost v1 = self.assignment.values();
        let ghost lim1 = self.assignment.lim_spec();
        let mut conflicting_assignment = false;
        let mut conflict: Option<ClauseRef> = None;
        let mut k: usize = 0;
        while k < assumptions.len()
            invariant_except_break
                conflict is None && !conflicting_assignment,
                self.propagated(),
            invariant
                self.inv(),
                self.ok,
                k <= assumptions@.len(),
                forall|j: int| 0 <= j < assumptions@.len() ==> (#[trigger] assumptions@[j]).var()@ < self.next_var,
                self.next_var == old(self).next_var,
                self.db.clauses_spec() == old(self).db.clauses_spec(),
                self.db.learnts_spec() == old(self).db.learnts_spec(),
                self.ca@.len() == old(self).ca@.len(),
                level == lim1.len(),
                self.assignment.lim_spec().len() >= level,
                self.assignment.lim_spec().take(level as int) == lim1,
                self.assignment.trail_spec().len() >= t1.len(),
                self.assignment.trail_spec().take(t1.len() as int) == t1,
                conflict is None && !conflicting_assignment ==> forall|j: int| 0 <= j < k ==> lit_value(self.assignment.values(), #[trigger] assumptions@[j]) == LBool::True,
                self.assignment.lim_spec().len() > level ==> self.assignment.lim_spec()[level as int] == t1.len(),
                self.assignment.lim_spec().len() == level ==> self.assignment.trail_spec() == t1,
                self.assignment.values().len() == v1.len(),
                conflict matches Some(c) ==> c@ < self.ca@.len(),
                sound0 == old(self).watches_sound(),
                sound0 && conflict is None ==> self.watches_sound(),
                sound0 && conflict is Some ==> self.assignment.lim_spec().len() > level && self.complete_upto(
                    self.assignment.lim_spec()[level as int] as int,
                ),
                forall|f: Seq<Seq<Lit>>| #[trigger] s0.derived_from(f) ==> self.derived_from(f),
                conflict matches Some(c) ==> forall|kk: int|
                    0 <= kk < self.ca@[c@ as int]@.len() ==> lit_value(self.assignment.values(), #[trigger] self.ca@[c@ as int]@[kk]) == LBool::False,
                conflicting_assignment ==> k < assumptions@.len() && lit_value(self.assignment.values(), assumptions@[k as int]) == LBool::False,
                decisions_in(self.assignment.trail_spec(), self.assignment.lim_spec(), level as int, assumptions@),
                same_clauses(old(self).clauses_spec(), self.clauses_spec()),
                old(self).level_count() == 0 ==> live_reasons_from(self.ca@, self.assignment.data(), self.assignment.trail_spec(), old(self).trail().len() as int),
                conflict matches Some(c) ==> !self.ca@[c@ as int].deleted_spec(),
                self.assignment.trail_spec().take(old(self).trail().len() as int) == old(self).trail(),
                self.assignment.trail_spec().len() >= old(self).trail().len(),
                old(self).level_count() == 0 ==> assigned_kept(old(self).values(), old(self).assignment_spec().data(), self.assignment.values(), self.assignment.data()),
            ensures
                old(self).level_count() == 0 ==> assigned_kept(old(self).values(), old(self).assignment_spec().data(), self.assignment.values(), self.assignment.data()),
                old(self).level_count() == 0 ==> live_reasons_from(self.ca@, self.assignment.data(), self.assignment.trail_spec(), old(self).trail().len() as int),
                conflict matches Some(c) ==> !self.ca@[c@ as int].deleted_spec(),
                self.assignment.trail_spec().take(old(self).trail().len() as int) == old(self).trail(),
                self.assignment.trail_spec().len() >= old(self).trail().len(),
                same_clauses(old(self).clauses_spec(), self.clauses_spec()),
                self.inv(),
                self.ok,
                forall|f: Seq<Seq<Lit>>| #[trigger] s0.derived_from(f) ==> self.derived_from(f),
                conflict matches Some(c) ==> forall|kk: int|
                    0 <= kk < self.ca@[c@ as int]@.len() ==> lit_value(self.assignment.values(), #[trigger] self.ca@[c@ as int]@[kk]) == LBool::False,
                conflicting_assignment ==> k < assumptions@.len() && lit_value(self.assignment.values(), assumptions@[k as int]) == LBool::False,
                decisions_in(self.assignment.trail_spec(), self.assignment.lim_spec(), level as int, assumptions@),
                self.next_var == old(self).next_var,
                self.db.clauses_spec() == old(self).db.clauses_spec(),
                self.db.learnts_spec() == old(self).db.learnts_spec(),
                self.ca@.len() == old(self).ca@.len(),
                self.assignment.lim_spec().len() >= level,
                self.assignment.lim_spec().take(level as int) == lim1,
                self.assignment.trail_spec().len() >= t1.len(),
                self.assignment.trail_spec().take(t1.len() as int) == t1,
                conflict is None && !conflicting_assignment ==> forall|j: int| 0 <= j < assumptions@.len() ==> lit_value(self.assignment.values(), #[trigger] assumptions@[j]) == LBool::True,
                self.assignment.lim_spec().len() > level ==> self.assignment.lim_spec()[level as int] == t1.len(),
                conflict is None ==> self.propagated(),
                self.assignment.lim_spec().len() == level ==> self.assignment.trail_spec() == t1,
                self.assignment.lim_spec().len() == level ==> self.propagated(),
                conflict matches Some(c) ==> c@ < self.ca@.len(),
                sound0 && conflict is None ==> self.watches_sound(),
                sound0 && conflict is Some ==> self.assignment.lim_spec().len() > level && self.complete_upto(
                    self.assignment.lim_spec()[level as int] as int,
                ),
            decreases assumptions@.len() - k,
        {
            let p = assumptions[k];
            match self.assignment.value(p) {
                LBool::True => {},
                LBool::False => {
                    conflicting_assignment = true;
                    break;
                },
                LBool::Undef => {
                    let ghost lim0 = self.assignment.lim_spec();
                    let ghost tb = self.assignment.trail_spec();
                    let ghost vb = self.assignment.values();
                    proof {
                        assert forall|j: int| 0 <= j < k implies lit_value(vb, #[trigger] assumptions@[j]) == LBool::True by {}
                        crate::assignment::lemma_trail_len_bound(&self.assignment);
                    }
                    let ghost sd0 = *self;
                    self.push_decision(p);
                    proof {
                        if old(self).level_count() == 0 {
                            assert(assigned_kept(vb, sd0.assignment.data(), self.assignment.values(), self.assignment.data())) by {
                                assert forall|v: int| 0 <= v < vb.len() && vb[v] != LBool::Undef implies #[trigger] self.assignment.values()[v]
                                    == vb[v] && self.assignment.data()[v] == sd0.assignment.data()[v] by {
                                    assert(vb[p.var()@ as int] == LBool::Undef);
                                }
                            }
                            lemma_assigned_kept_trans(
                                old(self).values(),
                                old(self).assignment_spec().data(),
                                vb,
                                sd0.assignment.data(),
                                self.assignment.values(),
                                self.assignment.data(),
                            );
                            reveal(live_reasons_from);
                            VarData::lemma_new_spec(None, (lim0.len() + 1) as nat);
                            let td = self.assignment.trail_spec();
                            let dd = self.assignment.data();
                            assert forall|i: int| old(self).trail().len() <= i < td.len() implies match (#[trigger] dd[td[i].var()@ as int]).reason_spec() {
                                Some(c) => c@ < self.ca@.len() && !self.ca@[c@ as int].deleted_spec(),
                                None => dd[td[i].var()@ as int].level_spec() > 0,
                            } by {
                                if i < tb.len() {
                                    assert(td[i] == tb[i]);
                                    assert(lit_value(vb, tb[i]) == LBool::True);
                                    assert(vb[tb[i].var()@ as int] != LBool::Undef);
                                    assert(vb[p.var()@ as int] == LBool::Undef);
                                    assert(tb[i].var()@ != p.var()@);
                                }
                            }
                        }
                        assert(self.assignment.trail_spec().take(old(self).trail().len() as int) =~= old(self).trail()) by {
                            assert forall|q: int| 0 <= q < old(self).trail().len() implies self.assignment.trail_spec()[q] == old(self).trail()[q] by {
                                assert(tb.take(old(self).trail().len() as int)[q] == tb[q]);
                            }
                        }
                        assert(self.assignment.lim_spec().take(level as int) =~= lim0.take(level as int));
                        assert(self.assignment.trail_spec().take(tb.len() as int) =~= tb);
                        lemma_take_take(self.assignment.trail_spec(), tb, t1);
                        if lim0.len() == level {
                            assert(tb == t1);
                        } else {
                            assert(self.assignment.lim_spec()[level as int] == lim0[level as int]);
                        }
                        assert(assumptions@[k as int] == p);
                        assert(decisions_in(tb, lim0, level as int, assumptions@));
                        assert forall|j: int| level <= j < self.assignment.lim_spec().len() implies self.assignment.lim_spec()[j]
                            < self.assignment.trail_spec().len() && assumptions@.contains(
                            #[trigger] self.assignment.trail_spec()[self.assignment.lim_spec()[j] as int],
                        ) by {
                            if j < lim0.len() {
                                assert(self.assignment.lim_spec()[j] == lim0[j]);
                                assert(self.assignment.trail_spec()[lim0[j] as int] == tb[lim0[j] as int]);
                            } else {
                                assert(self.assignment.lim_spec()[j] == tb.len());
                                assert(self.assignment.trail_spec()[tb.len() as int] == p);
                            }
                        }
                        assert(decisions_in(self.assignment.trail_spec(), self.assignment.lim_spec(), level as int, assumptions@));
                    }
                    let ghost tc = self.assignment.trail_spec();
                    let ghost vc = self.assignment.values();
                    let ghost qc = self.assignment.qhead_spec();
                    proof {
                        let lim = self.assignment.lim_spec();
                        assert(lim[level as int] <= lim[lim.len() - 1]);
                    }
                    let ghost limc = self.assignment.lim_spec();
                    proof {
                        assert(decisions_in(tc, limc, level as int, assumptions@));
                    }
                    let ghost ca_b = self.clauses_spec();
                    let ghost vals_b = self.assignment.values();
                    let ghost data_b = self.assignment.data();
                    let ghost trail_b = self.assignment.trail_spec();
                    let pr = self.propagate();
                    proof {
                        if old(self).level_count() == 0 {
                            assert forall|i: int| 0 <= i < trail_b.len() implies lit_value(vals_b, #[trigger] trail_b[i]) == LBool::True
                                && trail_b[i].var()@ < vals_b.len() by {}
                            lemma_live_reasons_extend(
                                ca_b,
                                vals_b,
                                data_b,
                                trail_b,
                                self.ca@,
                                self.assignment.values(),
                                self.assignment.data(),
                                self.assignment.trail_spec(),
                                old(self).trail().len() as int,
                            );
                        }
                        lemma_take_take(self.assignment.trail_spec(), trail_b, old(self).trail());
                        if old(self).level_count() == 0 {
                            lemma_assigned_kept_trans(
                                old(self).values(),
                                old(self).assignment_spec().data(),
                                vals_b,
                                data_b,
                                self.assignment.values(),
                                self.assignment.data(),
                            );
                        }
                        assert(same_clauses(ca_b, self.clauses_spec()));
                        assert forall|c: int| 0 <= c < old(self).clauses_spec().len() implies (#[trigger] self.clauses_spec()[c]).deleted_spec()
                            == old(self).clauses_spec()[c].deleted_spec() && self.clauses_spec()[c]@.to_multiset()
                            == old(self).clauses_spec()[c]@.to_multiset() by {
                            assert(ca_b[c].deleted_spec() == old(self).clauses_spec()[c].deleted_spec());
                        }
                        let lim = self.assignment.lim_spec();
                        assert forall|j: int| level <= j < lim.len() implies lim[j] < self.assignment.trail_spec().len() && assumptions@.contains(
                            #[trigger] self.assignment.trail_spec()[lim[j] as int],
                        ) by {
                            assert(lim[j] == limc[j]);
                            assert(self.assignment.trail_spec().take(tc.len() as int)[lim[j] as int] == self.assignment.trail_spec()[lim[j] as int]);
                        }
                        assert(decisions_in(self.assignment.trail_spec(), lim, level as int, assumptions@));
                    }
                    match pr {
                        Some(c) => {
                            conflict = Some(c);
                            proof {
                                lemma_take_take(self.assignment.trail_spec(), tc, t1);
                                if sound0 {
                                    let lim = self.assignment.lim_spec();
                                    lemma_complete_mono(
                                        self.ca@,
                                        self.assignment.values(),
                                        self.assignment.data(),
                                        self.assignment.trail_spec(),
                                        qc as int,
                                        lim[level as int] as int,
                                    );
                                }
                            }
                            break;
                        },
                        None => {
                            proof {
                                lemma_take_take(self.assignment.trail_spec(), tc, t1);
                                assert forall|j: int| 0 <= j <= k implies lit_value(self.assignment.values(), #[trigger] assumptions@[j]) == LBool::True by {
                                    let v = assumptions@[j].var()@ as int;
                                    assert(vc[v] != LBool::Undef);
                                }
                            }
                        },
                    }
                },
            }
            k = k + 1;
        }
        proof {
            if level == 0 {
                let t = self.assignment.trail_spec();
                let data = self.assignment.data();
                let lim = self.assignment.lim_spec();
                assert forall|f: Seq<Seq<Lit>>| #[trigger] old(self).derived_from(f) && old(self).level_count() == 0 && (conflict is Some
                    || conflicting_assignment) implies unsatisfiable(with_units(f, assumptions@)) by {
                    assert(s_p.derived_from(f));
                    assert(s0.derived_from(f));
                    assert(self.derived_from(f));
                    let f2 = with_units(f, assumptions@);
                    lemma_with_units(f, assumptions@);
                    assert forall|i: int| 0 <= i < t1.len() implies entails_lit(f2, #[trigger] t[i]) by {
                        assert(t.take(t1.len() as int)[i] == t[i]);
                        assert(entails_lit(f, s0.trail()[i]));
                    }
                    assert forall|c: int| 0 <= c < self.ca@.len() implies entails(f2, #[trigger] self.ca@[c]@) by {
                        assert(entails(f, self.clauses_spec()[c]@));
                    }
                    assert forall|i: int| t1.len() <= i < t.len() implies (#[trigger] data[t[i].var()@ as int]).reason_spec() is Some
                        || entails_lit(f2, t[i]) by {
                        if data[t[i].var()@ as int].reason_spec() is None {
                            let lvl = data[t[i].var()@ as int].level_spec() as int;
                            assert(level_fits(lim, lvl, i));
                            if lvl == 0 {
                                if lim.len() > 0 {
                                    assert(lim[0] == t1.len());
                                } else {
                                    assert(t == t1);
                                }
                                assert(false);
                            }
                            assert(decisions_ok(data, t, lim));
                            assert(i == lim[lvl - 1]);
                            assert(decisions_in(t, lim, 0, assumptions@));
                            assert(assumptions@.contains(t[lim[lvl - 1] as int]));
                            let kk = choose|kk: int| 0 <= kk < assumptions@.len() && assumptions@[kk] == t[i];
                            assert(entails_lit(f2, assumptions@[kk]));
                        }
                    }
                    lemma_trail_entailed(f2, self.ca@, &self.assignment, t1.len() as int, t.len() as int);
                    if conflict is Some {
                        let c = conflict->0;
                        let cl = self.ca@[c@ as int]@;
                        assert(lits_in_range(cl, self.next_var as nat));
                        lemma_false_clause_unsat(f2, &self.assignment, cl);
                    } else {
                        let p = assumptions@[k as int];
                        let cl = seq![p];
                        assert(entails_lit(f2, p));
                        assert forall|m: spec_fn(int) -> bool| #[trigger] formula_model(m, f2) implies model_clause(m, cl) by {
                            assert(model_lit(m, p));
                            assert(cl[0] == p);
                        }
                        lemma_false_clause_unsat(f2, &self.assignment, cl);
                    }
                }
            }
        }
        proof {
            if conflict is None && !conflicting_assignment && sound0 {
                lemma_values_up_closed(&*self);
                let units = old(self).trail() + assumptions@;
                let t = self.assignment.trail_spec();
                assert forall|i: int| 0 <= i < units.len() implies lit_value(self.values(), #[trigger] units[i]) == LBool::True by {
                    if i < old(self).trail().len() {
                        assert(s_p.trail().take(old(self).trail().len() as int) == old(self).trail());
                        assert(t.take(t1.len() as int)[i] == t[i]);
                        assert(units[i] == t[i]);
                    } else {
                        assert(units[i] == assumptions@[i - old(self).trail().len()]);
                    }
                }
                assert(up_consistent(self.clauses_spec(), units, self.num_vars_spec()));
            }
        }
        proof {
            if old(self).ok && old(self).level_count() == 0 && (conflict is Some || conflicting_assignment) {
                let units = old(self).trail() + assumptions@;
                let t = self.trail();
                let ot = old(self).trail();
                let data = self.assignment.data();
                let lim = self.assignment.lim_spec();
                assert forall|j: int| 0 <= j < ot.len() implies units.contains(#[trigger] t[j]) by {
                    assert(t.take(ot.len() as int)[j] == t[j]);
                    assert(units[j] == t[j]);
                }
                assert forall|j: int| ot.len() <= j < t.len() && (#[trigger] data[t[j].var()@ as int]).reason_spec() is None implies units.contains(
                    t[j],
                ) by {
                    reveal(live_reasons_from);
                    let lvl = data[t[j].var()@ as int].level_spec() as int;
                    assert(lvl > 0);
                    assert(level_fits(lim, lvl, j));
                    assert(decisions_ok(data, t, lim));
                    assert(j == lim[lvl - 1]);
                    assert(assumptions@.contains(t[lim[lvl - 1] as int]));
                    let kk = choose|kk: int| 0 <= kk < assumptions@.len() && assumptions@[kk] == t[j];
                    assert(units[ot.len() + kk] == t[j]);
                }
                if conflict is Some {
                    let c = conflict->0;
                    lemma_trail_refutes(&*self, ot.len() as int, units, Some(c@ as int), None);
                } else {
                    let p = assumptions@[k as int];
                    assert(units[ot.len() + k] == p);
                    lemma_trail_refutes(&*self, ot.len() as int, units, None, Some(p));
                }
            }
        }
        proof {
            if conflict is None && !conflicting_assignment && sound0 && level == 0 {
                lemma_success_forced(&*self, old(self).trail(), assumptions@);
            }
        }
        let ghost ca_end = self.clauses_spec();
        let mut num: u64 = 0;
        if self.assignment.decision_level() > level {
            let start = self.assignment.lim_at(level);
            let len = self.assignment.trail_len();
            let mut i = start;
            while i < len
                invariant
                    start <= i <= len,
                    len == self.assignment.trail_spec().len(),
                    start == t1.len(),
                    propagated@ == self.assignment.trail_spec().subrange(start as int, i as int),
                decreases len - i,
            {
                propagated.push(self.assignment.trail_at(i));
                proof {
                    assert(propagated@ =~= self.assignment.trail_spec().subrange(start as int, i + 1));
                }
                i = i + 1;
            }
            match conflict {
                Some(c) => {
                    proof {
                        assert(self.ca@[c@ as int]@.len() >= 2);
                    }
                    let first = self.ca.clause(c).get(0);
                    propagated.push(first);
                },
                None => {},
            }
            proof {
                crate::assignment::lemma_trail_len_bound(&self.assignment);
            }
            num = propagated.len() as u64;
            let ghost tb = self.assignment.trail_spec();
            let ghost vb = self.assignment.values();
            let ghost datab = self.assignment.data();
            let ghost limb = self.assignment.lim_spec();
            let ghost qb = self.assignment.qhead_spec();
            self.backtrack(level);
            proof {
                if conflict is None && !conflicting_assignment && sound0 && level == 0 {
                    lemma_backtrack_forced(
                        vb,
                        datab,
                        tb,
                        limb,
                        qb,
                        self.assignment.values(),
                        propagated@,
                        self.clauses_spec(),
                        old(self).trail() + assumptions@,
                        self.num_vars_spec(),
                    );
                }
            }
            proof {
                if level == 0 {
                    lemma_cut_keeps_ground(
                        old(self).values(),
                        old(self).assignment_spec().data(),
                        old(self).trail(),
                        old(self).assignment_spec().qhead_spec(),
                        vb,
                        datab,
                        tb,
                        limb,
                        qb,
                        self.assignment.values(),
                    );
                    lemma_live_reasons_prefix(self.ca@, datab, tb, limb[0] as int, old(self).trail().len() as int);
                }
                if conflict is None && !conflicting_assignment {
                    lemma_backtrack_assumptions(vb, datab, tb, limb, qb, self.assignment.values(), level as int, assumptions@, propagated@);
                }
            }
        }
        proof {
            assert forall|f: Seq<Seq<Lit>>| #[trigger] old(self).derived_from(f) && old(self).level_count() == 0 implies self.derived_from(f) by {
                assert(s_p.derived_from(f));
                assert(s0.derived_from(f));
            }
        }
        (conflict.is_none() && !conflicting_assignment, propagated, num)
    }
}

impl Solver {
    /// Checks the assumptions by unit propagation: first propagates what is pending (a
    /// conflict there makes the solver unsatisfiable), then assigns each assumption in turn
    /// on a new decision level and propagates it, stopping at the first false assumption or
    /// conflict; finally goes back to the starting level. Returns whether no conflict arose.
    /// When decision levels were opened, `out_propagated` receives the literals assigned above
    /// the starting level (and the first literal of the conflict clause, on a conflict) and
    /// `out_num_propagated` their number.
    pub fn propcheck(&mut self, assumptions: &[Lit], out_propagated: Option<&mut Vec<Lit>>, out_num_propagated: Option<&mut u64>) -> (res: bool)
        requires
            old(self).inv(),
            forall|k: int| 0 <= k < assumptions@.len() ==> (#[trigger] assumptions@[k]).var()@ < old(self).num_vars_spec(),
        ensures
            final(self).inv(),
            final(self).propagated(),
            old(self).watches_sound() && final(self).ok_spec() ==> final(self).watches_sound(),
            final(self).level_count() == old(self).level_count(),
            final(self).trail().take(old(self).trail().len() as int) == old(self).trail(),
            final(self).trail().len() >= old(self).trail().len(),
            final(self).original_spec() == old(self).original_spec(),
            final(self).learnt_spec() == old(self).learnt_spec(),
            final(self).num_vars_spec() == old(self).num_vars_spec(),
            final(self).ok_spec() ==> old(self).ok_spec(),
            res ==> final(self).ok_spec(),
            forall|f: Seq<Seq<Lit>>| #[trigger] old(self).derived_from(f) && old(self).level_count() == 0 ==> final(self).derived_from(f),
            forall|f: Seq<Seq<Lit>>| #[trigger] old(self).derived_from(f) && old(self).level_count() == 0 && !res ==> unsatisfiable(
                with_units(f, assumptions@),
            ),
            res && old(self).watches_sound() ==> up_consistent(final(self).clauses_spec(), old(self).trail() + assumptions@, final(self).num_vars_spec()),
            old(self).ok_spec() && old(self).level_count() == 0 && old(self).watches_sound() ==> (res == up_consistent(
                final(self).clauses_spec(),
                old(self).trail() + assumptions@,
                final(self).num_vars_spec(),
            )),
            same_clauses(old(self).clauses_spec(), final(self).clauses_spec()),
            old(self).level_count() == 0 ==> assigned_kept(
                old(self).values(),
                old(self).assignment_spec().data(),
                final(self).values(),
                final(self).assignment_spec().data(),
            ),
            old(self).level_count() == 0 ==> live_reasons_from(
                final(self).clauses_spec(),
                final(self).assignment_spec().data(),
                final(self).trail(),
                old(self).trail().len() as int,
            ),
            old(self).ok_spec() && !final(self).ok_spec() && old(self).level_count() == 0 ==> !up_consistent(
                final(self).clauses_spec(),
                old(self).trail(),
                final(self).num_vars_spec(),
            ),
            res && old(self).level_count() == 0 && old(self).watches_sound() ==> (out_propagated matches Some(o) ==> if some_forced_unassigned(
                final(self).clauses_spec(),
                old(self).trail() + assumptions@,
                final(self).num_vars_spec(),
                final(self).values(),
            ) {
                forced_unassigned(
                    (*final(o))@,
                    final(self).clauses_spec(),
                    old(self).trail() + assumptions@,
                    final(self).num_vars_spec(),
                    final(self).values(),
                )
            } else {
                *final(o) == *o
            }),
            res && old(self).level_count() == 0 && old(self).watches_sound() ==> (out_num_propagated matches Some(k) ==> if some_forced_unassigned(
                final(self).clauses_spec(),
                old(self).trail() + assumptions@,
                final(self).num_vars_spec(),
                final(self).values(),
            ) {
                exists|ls: Seq<Lit>|
                    #[trigger] forced_unassigned(
                        ls,
                        final(self).clauses_spec(),
                        old(self).trail() + assumptions@,
                        final(self).num_vars_spec(),
                        final(self).values(),
                    ) && *final(k) == ls.len()
            } else {
                *final(k) == *k
            }),
            out_propagated matches Some(o) ==> (out_num_propagated matches Some(k) ==> (*final(o) == *o && *final(k) == *k) || (*final(k)
                > 0 && *final(k) == (*final(o))@.len())),
    {
        let (res, propagated, num) = self.propcheck_core(assumptions);
        proof {
            if res && old(self).level_count() == 0 && old(self).watches_sound() {
                let ca = self.clauses_spec();
                let units = old(self).trail() + assumptions@;
                let nv = self.num_vars_spec();
                if propagated@.len() > 0 {
                    let l = propagated@[0];
                    assert(propagated@.contains(l));
                    assert(up_forced(ca, units, nv, l));
                } else if some_forced_unassigned(ca, units, nv, self.values()) {
                    let l = choose|l: Lit|
                        l.var()@ < nv && lit_value(self.values(), l) == LBool::Undef && #[trigger] up_forced(ca, units, nv, l);
                    assert(propagated@.contains(l));
                }
            }
        }
        if num > 0 {
            if let Some(out) = out_propagated {
                out.clear();
                let mut i: usize = 0;
                while i < propagated.len()
                    invariant
                        i <= propagated@.len(),
                        out@ == propagated@.take(i as int),
                    decreases propagated@.len() - i,
                {
                    out.push(propagated[i]);
                    proof {
                        assert(out@ =~= propagated@.take(i + 1));
                    }
                    i = i + 1;
                }
                proof {
                    assert(out@ =~= propagated@);
                }
            }
            if let Some(n) = out_num_propagated {
                *n = num;
            }
        }
        res
    }

    /// [`Solver::propcheck`] returning the number of literals assigned above the current level
    /// (one more on a conflict). From level 0, with sound watches and no conflict, that is the
    /// number of literals that unit propagation of the trail and the assumptions forces and
    /// that are left unassigned.
    pub fn propcheck_num_propagated(&mut self, assumptions: &[Lit]) -> (res: (bool, u64))
        requires
            old(self).inv(),
            forall|k: int| 0 <= k < assumptions@.len() ==> (#[trigger] assumptions@[k]).var()@ < old(self).num_vars_spec(),
        ensures
            final(self).inv(),
            final(self).propagated(),
            old(self).watches_sound() && final(self).ok_spec() ==> final(self).watches_sound(),
            final(self).level_count() == old(self).level_count(),
            final(self).trail().take(old(self).trail().len() as int) == old(self).trail(),
            final(self).num_vars_spec() == old(self).num_vars_spec(),
            final(self).ok_spec() ==> old(self).ok_spec(),
            res.0 ==> final(self).ok_spec(),
            forall|f: Seq<Seq<Lit>>| #[trigger] old(self).derived_from(f) && old(self).level_count() == 0 ==> final(self).derived_from(f),
            forall|f: Seq<Seq<Lit>>| #[trigger] old(self).derived_from(f) && old(self).level_count() == 0 && !res.0 ==> unsatisfiable(
                with_units(f, assumptions@),
            ),
            res.0 && old(self).level_count() == 0 && old(self).watches_sound() ==> exists|ls: Seq<Lit>|
                #[trigger] forced_unassigned(
                    ls,
                    final(self).clauses_spec(),
                    old(self).trail() + assumptions@,
                    final(self).num_vars_spec(),
                    final(self).values(),
                ) && res.1 == ls.len(),
    {
        let (res, propagated, num) = self.propcheck_core(assumptions);
        proof {
            if res && old(self).level_count() == 0 && old(self).watches_sound() {
                assert(forced_unassigned(
                    propagated@,
                    self.clauses_spec(),
                    old(self).trail() + assumptions@,
                    self.num_vars_spec(),
                    self.values(),
                ));
            }
        }
        (res, num)
    }

    /// [`Solver::propcheck`] returning the literals assigned above the current level (and the
    /// first literal of the conflict clause, on a conflict): when it succeeds, each assumption
    /// is true at the current level or among them, and none of them is assigned any more. From
    /// level 0, with sound watches and no conflict, they are, once each, exactly the literals
    /// that unit propagation of the trail and the assumptions forces and that are left
    /// unassigned.
    pub fn propcheck_save_propagated(&mut self, assumptions: &[Lit]) -> (res: (bool, Vec<Lit>))
        requires
            old(self).inv(),
            forall|k: int| 0 <= k < assumptions@.len() ==> (#[trigger] assumptions@[k]).var()@ < old(self).num_vars_spec(),
        ensures
            final(self).inv(),
            final(self).propagated(),
            old(self).watches_sound() && final(self).ok_spec() ==> final(self).watches_sound(),
            final(self).level_count() == old(self).level_count(),
            final(self).trail().take(old(self).trail().len() as int) == old(self).trail(),
            final(self).num_vars_spec() == old(self).num_vars_spec(),
            final(self).ok_spec() ==> old(self).ok_spec(),
            res.0 ==> final(self).ok_spec(),
            res.0 ==> forall|k: int| 0 <= k < assumptions@.len() ==> lit_value(final(self).values(), #[trigger] assumptions@[k]) == LBool::True
                || res.1@.contains(assumptions@[k]),
            res.0 ==> forall|k: int| 0 <= k < res.1@.len() ==> lit_value(final(self).values(), #[trigger] res.1@[k]) == LBool::Undef,
            forall|f: Seq<Seq<Lit>>| #[trigger] old(self).derived_from(f) && old(self).level_count() == 0 ==> final(self).derived_from(f),
            forall|f: Seq<Seq<Lit>>| #[trigger] old(self).derived_from(f) && old(self).level_count() == 0 && !res.0 ==> unsatisfiable(
                with_units(f, assumptions@),
            ),
            res.0 && old(self).level_count() == 0 && old(self).watches_sound() ==> forced_unassigned(
                res.1@,
                final(self).clauses_spec(),
                old(self).trail() + assumptions@,
                final(self).num_vars_spec(),
                final(self).values(),
            ),
    {
        let (res, propagated, _num) = self.propcheck_core(assumptions);
        (res, propagated)
    }
}

impl Solver {
    /// Counts the sign vectors (cubes) over `variables` whose assumptions pass
    /// [`Solver::propcheck`], trying all `2^n` of them in increasing binary order (the first
    /// variable's sign most significant, `false` before `true`). From a consistent state with
    /// sound watches, that is the number of cubes whose unit propagation, with the trail,
    /// reaches no conflict.
    pub fn propcheck_all(&mut self, variables: &[Var]) -> (res: u64)
        requires
            old(self).inv(),
            old(self).level_count() == 0,
            variables@.len() < 30,
            forall|k: int| 0 <= k < variables@.len() ==> (#[trigger] variables@[k])@ < old(self).num_vars_spec(),
        ensures
            final(self).inv(),
            final(self).level_count() == 0,
            final(self).num_vars_spec() == old(self).num_vars_spec(),
            final(self).original_spec() == old(self).original_spec(),
            final(self).learnt_spec() == old(self).learnt_spec(),
            final(self).ok_spec() ==> old(self).ok_spec(),
            res <= two_pow(variables@.len()),
            old(self).watches_sound() && final(self).ok_spec() ==> final(self).watches_sound(),
            forall|f: Seq<Seq<Lit>>| #[trigger] old(self).derived_from(f) ==> final(self).derived_from(f),
            forall|f: Seq<Seq<Lit>>| #[trigger] old(self).derived_from(f) ==> res >= num_sat_cubes(
                f,
                variables@,
                two_pow(variables@.len()),
            ),
            old(self).watches_sound() ==> res <= num_up_cubes(
                old(self).clauses_spec(),
                old(self).trail(),
                variables@,
                old(self).num_vars_spec(),
                two_pow(variables@.len()),
            ),
            old(self).ok_spec() && old(self).watches_sound() ==> res == num_up_cubes(
                old(self).clauses_spec(),
                old(self).trail(),
                variables@,
                old(self).num_vars_spec(),
                two_pow(variables@.len()),
            ),
    {
        let n = variables.len();
        let mut cube: Vec<bool> = vec![false; n];
        let mut total_count: u64 = 0;
        proof {
            lemma_two_pow_mono(n as nat, 30);
            lemma_two_pow_30();
            lemma_cube_value_bound(cube@);
        }
        proof {
            lemma_cube_value_all_false(cube@);
            reveal(live_reasons_from);
        }
        loop
            invariant_except_break
                total_count <= cube_value(cube@),
                forall|f: Seq<Seq<Lit>>| #[trigger] old(self).derived_from(f) ==> total_count >= num_sat_cubes(
                    f,
                    variables@,
                    cube_value(cube@),
                ),
                old(self).watches_sound() ==> total_count <= num_up_cubes(
                    old(self).clauses_spec(),
                    old(self).trail(),
                    variables@,
                    old(self).num_vars_spec(),
                    cube_value(cube@),
                ),
                old(self).ok_spec() && old(self).watches_sound() ==> total_count == num_up_cubes(
                    old(self).clauses_spec(),
                    old(self).trail(),
                    variables@,
                    old(self).num_vars_spec(),
                    cube_value(cube@),
                ),
            invariant
                old(self).ok_spec() && old(self).watches_sound() ==> live_reasons_from(
                    self.clauses_spec(),
                    self.assignment_spec().data(),
                    self.trail(),
                    old(self).trail().len() as int,
                ),
                old(self).ok_spec() && old(self).watches_sound() && !self.ok ==> !up_consistent(
                    old(self).clauses_spec(),
                    old(self).trail(),
                    old(self).num_vars_spec(),
                ),
                same_clauses(old(self).clauses_spec(), self.clauses_spec()),
                self.trail().len() >= old(self).trail().len(),
                self.trail().take(old(self).trail().len() as int) == old(self).trail(),
                self.inv(),
                self.assignment.lim_spec().len() == 0,
                cube@.len() == n,
                n == variables@.len(),
                n < 30,
                self.next_var == old(self).next_var,
                self.db.clauses_spec() == old(self).db.clauses_spec(),
                self.db.learnts_spec() == old(self).db.learnts_spec(),
                self.ok ==> old(self).ok,
                old(self).watches_sound() && self.ok ==> self.watches_sound(),
                forall|k: int| 0 <= k < variables@.len() ==> (#[trigger] variables@[k])@ < self.next_var,
                total_count <= cube_value(cube@) + 1,
                cube_value(cube@) < two_pow(n as nat),
                two_pow(n as nat) <= 0x4000_0000,
                forall|f: Seq<Seq<Lit>>| #[trigger] old(self).derived_from(f) ==> self.derived_from(f),
            ensures
                forall|f: Seq<Seq<Lit>>| #[trigger] old(self).derived_from(f) ==> total_count >= num_sat_cubes(
                    f,
                    variables@,
                    two_pow(n as nat),
                ),
                old(self).watches_sound() ==> total_count <= num_up_cubes(
                    old(self).clauses_spec(),
                    old(self).trail(),
                    variables@,
                    old(self).num_vars_spec(),
                    two_pow(n as nat),
                ),
                old(self).ok_spec() && old(self).watches_sound() ==> total_count == num_up_cubes(
                    old(self).clauses_spec(),
                    old(self).trail(),
                    variables@,
                    old(self).num_vars_spec(),
                    two_pow(n as nat),
                ),
            decreases two_pow(n as nat) - cube_value(cube@),
        {
            proof {
                lemma_cube_value_bound(cube@);
                assert(self.level_count() == 0);
            }
            let ghost v = cube_value(cube@);
            let ghost c0 = cube@;
            let ghost s_b = *self;
            let assumptions = cube_lits(variables, cube.as_slice(), n);
            proof {
                assert forall|k: int| 0 <= k < assumptions@.len() implies (#[trigger] assumptions@[k]).var()@ < self.next_var by {
                    assert(variables@[k]@ < self.next_var);
                }
                lemma_cube_at_value(c0);
                assert(c0.take(n as int) =~= c0);
                assert(assumptions@ == cube_lits_spec(variables@, cube_at(variables@.len(), v)));
            }
            let passed = self.propcheck(&assumptions, None, None);
            if passed {
                total_count = total_count + 1;
            }
            proof {
                let ca0 = old(self).clauses_spec();
                let t0 = old(self).trail();
                assert forall|c: int| 0 <= c < ca0.len() implies (#[trigger] self.clauses_spec()[c]).deleted_spec() == ca0[c].deleted_spec()
                    && self.clauses_spec()[c]@.to_multiset() == ca0[c]@.to_multiset() by {
                    assert(s_b.clauses_spec()[c].deleted_spec() == ca0[c].deleted_spec());
                }
                lemma_take_take(self.trail(), s_b.trail(), t0);
                if old(self).ok_spec() && old(self).watches_sound() {
                    lemma_cube_check_step(ca0, t0, s_b, *self, assumptions@, passed);
                }
                if old(self).watches_sound() {
                    let u0 = t0 + assumptions@;
                    let u1 = s_b.trail() + assumptions@;
                    if passed {
                        assert(s_b.ok);
                        assert(s_b.watches_sound());
                        assert forall|i: int| 0 <= i < u0.len() implies u1.contains(#[trigger] u0[i]) by {
                            if i < t0.len() {
                                assert(s_b.trail().take(t0.len() as int)[i] == s_b.trail()[i]);
                                assert(u1[i] == u0[i]);
                            } else {
                                assert(u1[i - t0.len() + s_b.trail().len()] == u0[i]);
                            }
                        }
                        lemma_up_consistent_same(ca0, self.clauses_spec(), u0, u1, self.num_vars_spec());
                    }
                    assert(num_up_cubes(ca0, t0, variables@, old(self).num_vars_spec(), (v + 1) as nat) == num_up_cubes(
                        ca0,
                        t0,
                        variables@,
                        old(self).num_vars_spec(),
                        v,
                    ) + (if up_consistent(ca0, t0 + cube_lits_spec(variables@, cube_at(variables@.len(), v)), old(self).num_vars_spec()) {
                        1nat
                    } else {
                        0nat
                    }));
                }
            }
            proof {
                assert forall|f: Seq<Seq<Lit>>| #[trigger] old(self).derived_from(f) implies total_count >= num_sat_cubes(
                    f,
                    variables@,
                    (v + 1) as nat,
                ) by {
                    assert(s_b.derived_from(f));
                    if !passed {
                        assert(unsatisfiable(with_units(f, assumptions@)));
                    }
                    assert(num_sat_cubes(f, variables@, (v + 1) as nat) == num_sat_cubes(f, variables@, v) + (if unsatisfiable(
                        with_units(f, cube_lits_spec(variables@, cube_at(variables@.len(), v))),
                    ) {
                        0nat
                    } else {
                        1nat
                    }));
                }
            }
            let j = increment_cube(&mut cube, n);
            proof {
                lemma_cube_value_bound(cube@);
                if j > 0 {
                    lemma_cube_value_next(c0, cube@, j - 1);
                } else {
                    lemma_cube_value_all_true(c0);
                }
            }
            if j == 0 {
                break;
            }
        }
        total_count
    }
}

/// The phase of a walk over the cube tree.
#[derive(Debug, Copy, Clone, Eq, PartialEq, Structural)]
enum Walk {
    /// Go one level deeper (or count the cube at full depth).
    Descending,
    /// Move to the next cube and go back up to where it differs.
    Ascending,
    /// Propagate the decision just made.
    Propagating,
}

/// The rank of a walk phase in the termination measure.
spec fn walk_rank(w: Walk) -> nat {
    match w {
        Walk::Ascending => 0,
        Walk::Descending => 1,
        Walk::Propagating => 2,
    }
}

/// Whether `lemma` equals one of `learnts`.
fn contains_lemma(learnts: &Vec<Vec<Lit>>, lemma: &Vec<Lit>) -> (res: bool)
    ensures
        res == exists|i: int| 0 <= i < learnts@.len() && (#[trigger] learnts@[i])@ == lemma@,
{
    let mut i: usize = 0;
    while i < learnts.len()
        invariant
            i <= learnts@.len(),
            forall|k: int| 0 <= k < i ==> (#[trigger] learnts@[k])@ != lemma@,
        decreases learnts@.len() - i,
    {
        let other = &learnts[i];
        if other.len() == lemma.len() {
            let mut k: usize = 0;
            let mut same = true;
            while k < lemma.len()
                invariant
                    k <= lemma@.len(),
                    other@.len() == lemma@.len(),
                    same == forall|m: int| 0 <= m < k ==> other@[m] == lemma@[m],
                decreases lemma@.len() - k,
            {
                if other[k] != lemma[k] {
                    same = false;
                }
                k = k + 1;
            }
            if same {
                proof {
                    assert(learnts@[i as int]@ =~= lemma@);
                }
                return true;
            }
        }
        i = i + 1;
    }
    false
}

impl Solver {
    /// Opens an empty decision level.
    fn open_level(&mut self)
        requires
            old(self).inv(),
            old(self).propagated(),
        ensures
            final(self).inv(),
            final(self).propagated(),
            final(self).assignment.lim_spec() == old(self).assignment.lim_spec().push(old(self).assignment.trail_spec().len() as usize),
            final(self).assignment.lim_spec()[final(self).assignment.lim_spec().len() - 1] == final(self).assignment.trail_spec().len(),
            final(self).assignment.values() == old(self).assignment.values(),
            final(self).assignment.data() == old(self).assignment.data(),
            final(self).assignment.trail_spec() == old(self).assignment.trail_spec(),
            final(self).ca == old(self).ca,
            final(self).db == old(self).db,
            final(self).next_var == old(self).next_var,
            final(self).ok == old(self).ok,
            final(self).events == old(self).events,
            old(self).watches_sound() ==> final(self).watches_sound(),
            forall|f: Seq<Seq<Lit>>| #[trigger] old(self).derived_from(f) ==> final(self).derived_from(f),
    {
        proof {
            crate::assignment::lemma_trail_len_bound(&self.assignment);
        }
        self.assignment.new_decision_level();
        proof {
            assert forall|f: Seq<Seq<Lit>>| #[trigger] old(self).derived_from(f) implies self.derived_from(f) by {
                if old(self).level_count() > 0 {
                    assert(self.assignment.lim_spec()[0] == old(self).assignment.lim_spec()[0]);
                }
                Solver::lemma_derived_same_ground(&*old(self), &*self, f);
            }
        }
    }

    /// Walks the tree of cubes over `variables` depth first, one variable per decision level,
    /// pruning a subtree as soon as its decisions are refuted (a decision literal is already
    /// false, or propagation conflicts). Counts the cubes reached at full depth, stopping once
    /// the count exceeds a non-zero `limit`. With `add_learnts`, each conflict is analyzed
    /// and each new learnt clause is stored (units are assigned at level 0 after the walk)
    /// and appended to `out_learnts`. Ends at level 0, propagated; a conflict there makes the
    /// solver unsatisfiable and the result 0. Without a limit and without learning, from
    /// sound watches, a result of a solver still consistent is the number of cubes whose unit
    /// propagation, with the trail, reaches no conflict.
    #[verifier::spinoff_prover]
    #[verifier::rlimit(80)]
    pub fn propcheck_all_tree(&mut self, variables: &[Var], limit: u64, add_learnts: bool, out_learnts: &mut Vec<Vec<Lit>>) -> (res: u64)
        requires
            old(self).inv(),
            old(self).level_count() == 0,
            variables@.len() < 30,
            forall|k: int| 0 <= k < variables@.len() ==> (#[trigger] variables@[k])@ < old(self).num_vars_spec(),
        ensures
            final(self).inv(),
            final(self).level_count() == 0,
            final(self).num_vars_spec() == old(self).num_vars_spec(),
            final(self).original_spec() == old(self).original_spec(),
            final(self).ok_spec() ==> old(self).ok_spec(),
            !final(self).ok_spec() ==> res == 0,
            !add_learnts && old(self).watches_sound() && final(self).ok_spec() ==> final(self).watches_sound(),
            res <= two_pow(variables@.len()),
            limit > 0 ==> res <= limit + 1,
            !add_learnts ==> final(out_learnts)@ == old(out_learnts)@ && final(self).learnt_spec() == old(self).learnt_spec(),
            add_learnts ==> units_listed(
                final(self).assignment_spec().data(),
                final(self).trail(),
                old(self).trail().len() as int,
                final(out_learnts)@,
                old(out_learnts)@.len() as int,
            ),
            add_learnts ==> refs_covered(
                final(self).clauses_spec(),
                final(self).learnt_spec(),
                old(self).learnt_spec().len() as int,
                final(out_learnts)@,
                old(out_learnts)@.len() as int,
            ),
            final(out_learnts)@.len() >= old(out_learnts)@.len(),
            final(out_learnts)@.take(old(out_learnts)@.len() as int) == old(out_learnts)@,
            forall|i: int| old(out_learnts)@.len() <= i < final(out_learnts)@.len() ==> (#[trigger] final(out_learnts)@[i])@.len() >= 1
                && forall|k: int| 0 <= k < final(out_learnts)@[i]@.len() ==> (#[trigger] final(out_learnts)@[i]@[k]).var()@ < final(self).num_vars_spec(),
            forall|i: int, j: int|
                old(out_learnts)@.len() <= i < j < final(out_learnts)@.len() ==> (#[trigger] final(out_learnts)@[i])@
                    != (#[trigger] final(out_learnts)@[j])@,
            forall|f: Seq<Seq<Lit>>| #[trigger] old(self).derived_from(f) ==> final(self).derived_from(f),
            forall|f: Seq<Seq<Lit>>| #[trigger] old(self).derived_from(f) ==> forall|i: int|
                old(out_learnts)@.len() <= i < final(out_learnts)@.len() ==> entails(f, #[trigger] final(out_learnts)@[i]@),
            forall|f: Seq<Seq<Lit>>| #[trigger] old(self).derived_from(f) && variables@.len() > 0 ==> res >= num_sat_cubes(
                f,
                variables@,
                two_pow(variables@.len()),
            ) || (limit > 0 && res == limit + 1),
            !add_learnts && old(self).watches_sound() ==> res <= num_up_cubes(
                old(self).clauses_spec(),
                old(self).trail(),
                variables@,
                old(self).num_vars_spec(),
                two_pow(variables@.len()),
            ),
            !add_learnts && limit == 0 && old(self).watches_sound() && final(self).ok_spec() && variables@.len() > 0 ==> res == num_up_cubes(
                old(self).clauses_spec(),
                old(self).trail(),
                variables@,
                old(self).num_vars_spec(),
                two_pow(variables@.len()),
            ),
    {
        let confl0 = self.propagate();
        let ghost s_p = *self;
        if confl0.is_some() {
            self.ok = false;
        }
        if !self.ok {
            proof {
                assert forall|f: Seq<Seq<Lit>>| #[trigger] old(self).derived_from(f) implies self.derived_from(f) by {
                    assert(s_p.derived_from(f));
                    if confl0 is Some {
                        let c = confl0->0;
                        let cl = s_p.ca@[c@ as int]@;
                        assert(entails(f, s_p.clauses_spec()[c@ as int]@));
                        assert(lits_in_range(cl, s_p.next_var as nat));
                        assert(clause_false(cl, s_p.values()));
                        Solver::lemma_false_clause_refutes(&s_p, f, cl);
                    }
                    assert forall|c: int| 0 <= c < self.clauses_spec().len() implies entails(f, #[trigger] self.clauses_spec()[c]@) by {
                        assert(entails(f, s_p.clauses_spec()[c]@));
                    }
                    Solver::lemma_derived_grow(&s_p, &*self, f);
                }
                assert forall|f: Seq<Seq<Lit>>| #[trigger] old(self).derived_from(f) && variables@.len() > 0 implies 0 >= num_sat_cubes(f, variables@, two_pow(variables@.len())) by {
                    assert(self.derived_from(f));
                    lemma_num_sat_unsat(f, variables@, two_pow(variables@.len()));
                }
            }
            proof {
                lemma_ground_reasons(&*self, old(self).trail().len() as int);
            }
            return 0;
        }
        let ghost s0 = *self;
        proof {
            lemma_ground_reasons(&*self, old(self).trail().len() as int);
        }
        if variables.len() == 0 {
            return 0;
        }
        let n = variables.len();
        let mut cube: Vec<bool> = vec![false; n];
        let mut total_count: u64 = 0;
        let mut learnts: Vec<Vec<Lit>> = Vec::new();
        let mut state = Walk::Descending;
        let ghost sound0 = !add_learnts && old(self).watches_sound();
        proof {
            reveal(refs_listed);
            lemma_two_pow_mono(n as nat, 30);
            lemma_two_pow_30();
            lemma_cube_value_bound(cube@);
            lemma_cube_value_all_false(cube@);
            let t = self.assignment.trail_spec();
            assert forall|p: int| 0 <= p < t.len() implies (#[trigger] self.assignment.data()[t[p].var()@ as int]).level_spec() == 0 by {
                assert(level_fits(self.assignment.lim_spec(), self.assignment.data()[t[p].var()@ as int].level_spec() as int, p));
            }
            assert(same_clauses(old(self).clauses_spec(), self.clauses_spec()));
        }
        loop
            invariant_except_break
                total_count <= cube_value(cube@) + (if state == Walk::Ascending { 1nat } else { 0nat }),
                limit > 0 ==> total_count <= limit,
                forall|i: int| self.assignment.lim_spec().len() + (if state == Walk::Descending { 1int } else { 0int }) <= i < n ==> !cube@[i],
                decided_by(self.assignment.trail_spec(), self.assignment.data(), cube_lits_spec(variables@, cube@)),
                forall|f: Seq<Seq<Lit>>| #[trigger] s0.derived_from(f) ==> total_count >= num_sat_cubes(
                    f,
                    variables@,
                    (if state == Walk::Ascending { cube_value(cube@) + two_pow((n - self.assignment.lim_spec().len()) as nat) } else { cube_value(cube@) }),
                ),
                cube_held(
                    self.assignment.values(),
                    self.assignment.data(),
                    cube_lits_spec(variables@, cube@),
                    self.assignment.lim_spec().len() - (if state == Walk::Ascending { 1int } else { 0int }),
                ),
                !add_learnts ==> same_clauses(old(self).clauses_spec(), self.clauses_spec()),
                self.trail().len() >= old(self).trail().len(),
                self.trail().take(old(self).trail().len() as int) == old(self).trail(),
                self.assignment.lim_spec().len() > 0 ==> self.assignment.lim_spec()[0] >= old(self).trail().len(),
                sound0 ==> total_count <= num_up_cubes(old(self).clauses_spec(), old(self).trail(), variables@, old(self).num_vars_spec(), (if state == Walk::Ascending {
                    cube_value(cube@) + two_pow((n - self.assignment.lim_spec().len()) as nat)
                } else {
                    cube_value(cube@)
                })),
                sound0 && limit == 0 ==> total_count == num_up_cubes(old(self).clauses_spec(), old(self).trail(), variables@, old(self).num_vars_spec(), (if state == Walk::Ascending {
                    cube_value(cube@) + two_pow((n - self.assignment.lim_spec().len()) as nat)
                } else {
                    cube_value(cube@)
                })),
            invariant
                live_reasons_from(self.clauses_spec(), self.assignment_spec().data(), self.trail(), old(self).trail().len() as int),
                self.db.learnts_spec().len() >= old(self).db.learnts_spec().len(),
                add_learnts ==> refs_listed(self.ca@, self.db.learnts_spec(), old(self).db.learnts_spec().len() as int, learnts@),
                self.inv(),
                self.ok,
                state != Walk::Propagating ==> self.propagated(),
                sound0 ==> self.walk_sound(state == Walk::Ascending),
                sound0 == (!add_learnts && old(self).watches_sound()),
                cube@.len() == n,
                n == variables@.len(),
                0 < n < 30,
                self.next_var == old(self).next_var,
                self.db.clauses_spec() == old(self).db.clauses_spec(),
                !add_learnts ==> self.db.learnts_spec() == old(self).db.learnts_spec() && learnts@.len() == 0,
                forall|k: int| 0 <= k < variables@.len() ==> (#[trigger] variables@[k])@ < self.next_var,
                self.assignment.lim_spec().len() <= n,
                state != Walk::Descending ==> self.assignment.lim_spec().len() > 0,
                total_count <= cube_value(cube@) + 1,
                limit > 0 ==> total_count <= limit + 1,
                cube_value(cube@) < two_pow(n as nat),
                two_pow(n as nat) <= 0x4000_0000,
                forall|i: int| 0 <= i < learnts@.len() ==> (#[trigger] learnts@[i])@.len() >= 1
                    && forall|k: int| 0 <= k < learnts@[i]@.len() ==> (#[trigger] learnts@[i]@[k]).var()@ < self.next_var,
                forall|i: int, j: int| 0 <= i < j < learnts@.len() ==> (#[trigger] learnts@[i])@ != (#[trigger] learnts@[j])@,
                forall|f: Seq<Seq<Lit>>| #[trigger] s0.derived_from(f) ==> self.derived_from(f) && forall|i: int|
                    0 <= i < learnts@.len() ==> entails(f, #[trigger] learnts@[i]@),
            ensures
                forall|f: Seq<Seq<Lit>>| #[trigger] s0.derived_from(f) ==> total_count >= num_sat_cubes(
                    f,
                    variables@,
                    two_pow(n as nat),
                ) || (limit > 0 && total_count == limit + 1),
                sound0 ==> total_count <= num_up_cubes(old(self).clauses_spec(), old(self).trail(), variables@, old(self).num_vars_spec(), two_pow(n as nat)),
                sound0 && limit == 0 ==> total_count == num_up_cubes(old(self).clauses_spec(), old(self).trail(), variables@, old(self).num_vars_spec(), two_pow(n as nat)),
            decreases two_pow(n as nat) - cube_value(cube@), n - self.assignment.lim_spec().len(), walk_rank(state),
        {
            match state {
                Walk::Descending => {
                    let level = self.assignment.decision_level();
                    if level == n {
                        let ghost v = cube_value(cube@);
                        proof {
                            let ca0 = old(self).clauses_spec();
                            let t0 = old(self).trail();
                            let nv = old(self).num_vars_spec();
                            let lits = cube_lits_spec(variables@, cube@);
                            let u = t0 + lits;
                            lemma_cube_at_value(cube@);
                            if sound0 {
                                lemma_values_up_closed(&*self);
                                let t = self.trail();
                                assert forall|i: int| 0 <= i < u.len() implies lit_value(self.values(), #[trigger] u[i]) == LBool::True by {
                                    if i < t0.len() {
                                        assert(t.take(t0.len() as int)[i] == t[i]);
                                        assert(u[i] == t[i]);
                                    } else {
                                        assert(u[i] == lits[i - t0.len()]);
                                    }
                                }
                                assert(up_consistent(self.clauses_spec(), u, nv));
                                assert forall|i: int| 0 <= i < u.len() implies u.contains(#[trigger] u[i]) by {}
                                lemma_up_consistent_same(ca0, self.clauses_spec(), u, u, nv);
                                assert(num_up_cubes(ca0, t0, variables@, nv, (v + 1) as nat) == num_up_cubes(ca0, t0, variables@, nv, v) + 1);
                                lemma_num_up_mono(ca0, t0, variables@, nv, (v + 1) as nat, two_pow(n as nat));
                            }
                        }
                        total_count = total_count + 1;
                        if limit > 0 && total_count > limit {
                            break;
                        }
                        proof {
                            assert(two_pow(0) == 1);
                            assert forall|f: Seq<Seq<Lit>>| #[trigger] s0.derived_from(f) implies total_count >= num_sat_cubes(
                                f,
                                variables@,
                                (cube_value(cube@) + two_pow((n - self.assignment.lim_spec().len()) as nat)) as nat,
                            ) by {
                                assert(num_sat_cubes(f, variables@, (cube_value(cube@) + 1) as nat) <= num_sat_cubes(f, variables@, cube_value(cube@)) + 1);
                            }
                            if sound0 {
                                self.lemma_walk_up(self.assignment.qhead_spec() as int);
                            }
                        }
                        state = Walk::Ascending;
                    } else {
                        let p = Lit::new(variables[level], cube[level]);
                        proof {
                            assert(variables@[level as int]@ < self.next_var);
                        }
                        match self.assignment.value(p) {
                            LBool::True => {
                                self.open_level();
                                proof {
                                    let lits = cube_lits_spec(variables@, cube@);
                                    Lit::lemma_from_code_view(lit_code(variables@[level as int]@, cube@[level as int]));
                                    Lit::lemma_view_injective(lits[level as int], p);
                                    lemma_assigned_level(&self.assignment, p.var()@);
                                    assert(lits[level as int].var()@ < self.assignment.values().len());
                                }
                            },
                            LBool::False => {
                                self.open_level();
                                proof {
                                    let pre = cube_lits_spec(variables@, cube@.take(level as int + 1));
                                    assert(cube@.take(level as int + 1)[level as int] == cube@[level as int]);
                                    Lit::lemma_from_code_view(lit_code(variables@[level as int]@, cube@[level as int]));
                                    assert(pre[level as int]@ == p@);
                                    Lit::lemma_view_injective(pre[level as int], p);
                                    assert(p.var()@ < self.assignment.values().len());
                                    assert forall|f: Seq<Seq<Lit>>| #[trigger] s0.derived_from(f) implies total_count >= num_sat_cubes(
                                        f,
                                        variables@,
                                        (cube_value(cube@) + two_pow((n - self.assignment.lim_spec().len()) as nat)) as nat,
                                    ) by {
                                        let w = with_units(f, pre);
                                        lemma_with_units(f, pre);
                                        assert(entails_lit(w, pre[level as int]));
                                        assert forall|m: spec_fn(int) -> bool| #[trigger] formula_model(m, w) implies model_clause(m, seq![p]) by {
                                            assert(model_lit(m, seq![p][0]));
                                        }
                                        Solver::lemma_walk_refutes(&*self, f, variables@, cube@, level as int + 1, seq![p]);
                                        lemma_num_sat_skip(
                                            f,
                                            variables@,
                                            cube@,
                                            level as int + 1,
                                            (cube_value(cube@) + two_pow((n - (level + 1)) as nat)) as nat,
                                        );
                                    }
                                    lemma_num_up_mono(
                                        old(self).clauses_spec(),
                                        old(self).trail(),
                                        variables@,
                                        old(self).num_vars_spec(),
                                        cube_value(cube@),
                                        (cube_value(cube@) + two_pow((n - (level + 1)) as nat)) as nat,
                                    );
                                    if sound0 {
                                        self.lemma_walk_up(self.assignment.qhead_spec() as int);
                                        assert(pre.contains(p)) by {
                                            assert(pre[level as int] == p);
                                        }
                                        lemma_walk_up_refutes(&*self, old(self).trail(), variables@, cube@, level as int + 1, None, Some(p));
                                        lemma_up_consistent_eq(old(self).clauses_spec(), self.clauses_spec(), old(self).trail() + pre, old(self).num_vars_spec());
                                        lemma_num_up_skip(
                                            old(self).clauses_spec(),
                                            old(self).trail(),
                                            variables@,
                                            old(self).num_vars_spec(),
                                            cube@,
                                            level as int + 1,
                                            (cube_value(cube@) + two_pow((n - (level + 1)) as nat)) as nat,
                                        );
                                    }
                                }
                                state = Walk::Ascending;
                            },
                            LBool::Undef => {
                                let ghost a0 = self.assignment;
                                let ghost ca_d = self.clauses_spec();
                                proof {
                                    assert forall|i: int| 0 <= i < a0.trail_spec().len() implies lit_value(a0.values(), #[trigger] a0.trail_spec()[i])
                                        == LBool::True && a0.trail_spec()[i].var()@ < a0.values().len() by {}
                                    lemma_live_reasons_decide(
                                        ca_d,
                                        a0.values(),
                                        a0.data(),
                                        a0.trail_spec(),
                                        p,
                                        (level + 1) as nat,
                                        old(self).trail().len() as int,
                                    );
                                }
                                self.push_decision(p);
                                proof {
                                    let lits = cube_lits_spec(variables@, cube@);
                                    Lit::lemma_from_code_view(lit_code(variables@[level as int]@, cube@[level as int]));
                                    Lit::lemma_view_injective(lits[level as int], p);
                                    lemma_decided_push(&a0, &self.assignment, lits, p, (level + 1) as nat);
                                    VarData::lemma_new_spec(None, (level + 1) as nat);
                                    assert forall|i: int| 0 <= i < level + 1 implies lits[i].var()@ < self.assignment.values().len() && lit_value(
                                        self.assignment.values(),
                                        #[trigger] lits[i],
                                    ) == LBool::True && self.assignment.data()[lits[i].var()@ as int].level_spec() <= i + 1 by {
                                        if i < level {
                                            assert(lit_value(a0.values(), lits[i]) == LBool::True);
                                            assert(a0.values()[lits[i].var()@ as int] != LBool::Undef);
                                            assert(a0.values()[p.var()@ as int] == LBool::Undef);
                                            assert(lits[i].var()@ != p.var()@);
                                        }
                                    }
                                }
                                state = Walk::Propagating;
                            },
                        }
                    }
                },
                Walk::Ascending => {
                    let level = self.assignment.decision_level();
                    let ghost c0 = cube@;
                    let j = increment_cube(&mut cube, level);
                    proof {
                        lemma_cube_value_bound(cube@);
                    }
                    if j == 0 {
                        proof {
                            lemma_cube_value_ones_then_zeros(c0, level as int);
                        }
                        break;
                    }
                    let ghost sa0 = *self;
                    proof {
                        lemma_cube_value_step(c0, cube@, j - 1, level as int);
                        if sound0 {
                            self.lemma_walk_back(j - 1);
                        }
                    }
                    let ghost a0 = self.assignment;
                    self.backtrack(j - 1);
                    proof {
                        let lits0 = cube_lits_spec(variables@, c0);
                        let lits1 = cube_lits_spec(variables@, cube@);
                        assert forall|i: int| 0 <= i < j - 1 implies lits1[i] == lits0[i] by {}
                        lemma_decided_cut(&a0, &self.assignment, lits0, lits1, j - 1);
                        let lim0 = a0.lim_spec();
                        assert(lim0[0] <= lim0[j - 1]);
                        assert(lim0[j - 1] <= a0.trail_spec().len());
                        assert forall|i: int| 0 <= i < j - 1 implies lits1[i].var()@ < self.assignment.values().len() && lit_value(
                            self.assignment.values(),
                            #[trigger] lits1[i],
                        ) == LBool::True && self.assignment.data()[lits1[i].var()@ as int].level_spec() <= i + 1 by {
                            assert(lits1[i] == lits0[i]);
                            assert(lit_value(a0.values(), lits0[i]) == LBool::True);
                            lemma_true_kept_cut(
                                a0.values(),
                                a0.data(),
                                a0.trail_spec(),
                                lim0,
                                a0.qhead_spec(),
                                self.assignment.values(),
                                j - 1,
                                lits0[i],
                            );
                        }
                        assert(self.trail().take(old(self).trail().len() as int) =~= old(self).trail()) by {
                            assert forall|q: int| 0 <= q < old(self).trail().len() implies self.trail()[q] == old(self).trail()[q] by {
                                assert(sa0.trail().take(old(self).trail().len() as int)[q] == sa0.trail()[q]);
                            }
                        }
                        if j - 1 > 0 {
                            assert(self.assignment.lim_spec()[0] == lim0[0]);
                        }
                        lemma_live_reasons_prefix(self.clauses_spec(), a0.data(), a0.trail_spec(), lim0[j - 1] as int, old(self).trail().len() as int);
                    }
                    state = Walk::Descending;
                },
                Walk::Propagating => {
                    let ghost q_before = self.assignment.qhead_spec();
                    proof {
                        let lim = self.assignment.lim_spec();
                        assert(lim[lim.len() - 1] <= q_before);
                    }
                    let ghost a0 = self.assignment;
                    let ghost sp0 = *self;
                    let confl = self.propagate();
                    proof {
                        lemma_decided_extend(&a0, &self.assignment, cube_lits_spec(variables@, cube@));
                        let lits = cube_lits_spec(variables@, cube@);
                        assert forall|i: int| 0 <= i < a0.lim_spec().len() implies lits[i].var()@ < self.assignment.values().len() && lit_value(
                            self.assignment.values(),
                            #[trigger] lits[i],
                        ) == LBool::True && self.assignment.data()[lits[i].var()@ as int].level_spec() <= i + 1 by {
                            assert(lit_value(a0.values(), lits[i]) == LBool::True);
                            assert(lits[i].var()@ < a0.values().len());
                            let vv = lits[i].var()@ as int;
                            assert(a0.values()[vv] != LBool::Undef);
                            assert(self.assignment.values()[vv] == a0.values()[vv]);
                        }
                        if !add_learnts {
                            assert forall|c: int| 0 <= c < old(self).clauses_spec().len() implies (#[trigger] self.clauses_spec()[c]).deleted_spec()
                                == old(self).clauses_spec()[c].deleted_spec() && self.clauses_spec()[c]@.to_multiset()
                                == old(self).clauses_spec()[c]@.to_multiset() by {
                                assert(sp0.clauses_spec()[c].deleted_spec() == old(self).clauses_spec()[c].deleted_spec());
                            }
                        }
                        lemma_take_take(self.trail(), sp0.trail(), old(self).trail());
                        if add_learnts {
                            assert forall|r: int| old(self).db.learnts_spec().len() <= r < self.db.learnts_spec().len() implies (
                            #[trigger] self.db.learnts_spec()[r])@ < sp0.ca@.len() by {
                                assert(refs_in(sp0.db.learnts_spec(), sp0.ca@.len()));
                            }
                            assert forall|c: int| 0 <= c < sp0.ca@.len() implies (#[trigger] self.ca@[c])@.to_multiset() == sp0.ca@[c]@.to_multiset() by {
                                assert(self.clauses_spec()[c]@.to_multiset() == sp0.clauses_spec()[c]@.to_multiset());
                            }
                            lemma_refs_listed_same(sp0.ca@, self.ca@, self.db.learnts_spec(), old(self).db.learnts_spec().len() as int, learnts@);
                        }
                        {
                            assert forall|i: int| 0 <= i < a0.trail_spec().len() implies lit_value(a0.values(), #[trigger] a0.trail_spec()[i])
                                == LBool::True && a0.trail_spec()[i].var()@ < a0.values().len() by {}
                            lemma_live_reasons_extend(
                                sp0.clauses_spec(),
                                a0.values(),
                                a0.data(),
                                a0.trail_spec(),
                                self.clauses_spec(),
                                self.assignment.values(),
                                self.assignment.data(),
                                self.assignment.trail_spec(),
                                old(self).trail().len() as int,
                            );
                        }
                    }
                    match confl {
                        Some(conflict) => {
                            proof {
                                let lv = self.assignment.lim_spec().len();
                                let cl = self.clauses_spec()[conflict@ as int]@;
                                assert(lits_in_range(self.ca@[conflict@ as int]@, self.next_var as nat));
                                assert forall|k: int| 0 <= k < cl.len() implies lit_value(self.values(), #[trigger] cl[k]) == LBool::False
                                    && cl[k].var()@ < self.values().len() by {}
                                assert forall|f: Seq<Seq<Lit>>| #[trigger] s0.derived_from(f) implies total_count >= num_sat_cubes(
                                    f,
                                    variables@,
                                    (cube_value(cube@) + two_pow((n - lv) as nat)) as nat,
                                ) by {
                                    let pre = cube_lits_spec(variables@, cube@.take(lv as int));
                                    assert(self.derived_from(f));
                                    assert(entails(f, cl));
                                    lemma_with_units(f, pre);
                                    Solver::lemma_walk_refutes(&*self, f, variables@, cube@, lv as int, cl);
                                    lemma_num_sat_skip(f, variables@, cube@, lv as int, (cube_value(cube@) + two_pow((n - lv) as nat)) as nat);
                                }
                                lemma_num_up_mono(
                                    old(self).clauses_spec(),
                                    old(self).trail(),
                                    variables@,
                                    old(self).num_vars_spec(),
                                    cube_value(cube@),
                                    (cube_value(cube@) + two_pow((n - lv) as nat)) as nat,
                                );
                                if sound0 {
                                    lemma_walk_up_refutes(&*self, old(self).trail(), variables@, cube@, lv as int, Some(conflict@ as int), None);
                                    lemma_up_consistent_eq(
                                        old(self).clauses_spec(),
                                        self.clauses_spec(),
                                        old(self).trail() + cube_lits_spec(variables@, cube@.take(lv as int)),
                                        old(self).num_vars_spec(),
                                    );
                                    lemma_num_up_skip(
                                        old(self).clauses_spec(),
                                        old(self).trail(),
                                        variables@,
                                        old(self).num_vars_spec(),
                                        cube@,
                                        lv as int,
                                        (cube_value(cube@) + two_pow((n - lv) as nat)) as nat,
                                    );
                                }
                            }
                            if add_learnts {
                                let ghost s_a0 = *self;
                                let (lemma, _bt) = self.analyze_learn(conflict);
                                let ghost s_a1 = *self;
                                let ghost lemma_v = lemma@;
                                let ghost l0 = learnts@;
                                proof {
                                    assert forall|f: Seq<Seq<Lit>>| #[trigger] s0.derived_from(f) implies s_a1.derived_from(f) && entails(f, lemma_v) by {
                                        assert(s_a0.derived_from(f));
                                        Solver::lemma_derived_same_ground(&s_a0, &s_a1, f);
                                        Solver::lemma_derived_implied(&s_a0, f, lemma_v);
                                    }
                                }
                                if !contains_lemma(&learnts, &lemma) {
                                    let ghost ca_pre = self.ca@;
                                    let ghost refs_pre = self.db.learnts_spec();
                                    proof {
                                        assert(refs_in(refs_pre, ca_pre.len()));
                                    }
                                    if lemma.len() > 1 {
                                        let ghost ca0 = self.ca@;
                                        let cref = self.db.new_clause(vstd::slice::slice_to_vec(lemma.as_slice()), true, &mut self.ca);
                                        proof {
                                            lemma_push_clause_keeps(ca0, self.ca@, self.assignment.values(), self.assignment.data(), self.assignment.trail_spec(), self.watchlist.lists(), self.next_var as nat);
                                            lemma_push_clause_watched(ca0, self.ca@, self.watchlist.lists(), self.assignment.values(), self.assignment.data(), self.next_var as nat);
                                        }
                                        self.attach_clause(cref);
                                        self.events.push(ActivityEvent::BumpClause(cref));
                                        proof {
                                            assert forall|f: Seq<Seq<Lit>>| #[trigger] s0.derived_from(f) implies self.derived_from(f) by {
                                                assert(s_a1.derived_from(f) && entails(f, lemma_v));
                                                assert forall|c: int| 0 <= c < self.clauses_spec().len() implies entails(f, #[trigger] self.clauses_spec()[c]@) by {
                                                    if c < ca0.len() {
                                                        assert(self.clauses_spec()[c] == s_a1.clauses_spec()[c]);
                                                        assert(entails(f, s_a1.clauses_spec()[c]@));
                                                    } else {
                                                        assert(self.clauses_spec()[c]@ == lemma_v);
                                                    }
                                                }
                                                Solver::lemma_derived_grow(&s_a1, &*self, f);
                                            }
                                        }
                                    }
                                    learnts.push(lemma);
                                    self.events.push(ActivityEvent::Decay);
                                    proof {
                                        assert forall|r: int| old(self).db.learnts_spec().len() <= r < refs_pre.len() implies (#[trigger] refs_pre[r])@
                                            < ca_pre.len() by {}
                                        assert forall|i: int| 0 <= i < l0.len() implies #[trigger] learnts@[i] == l0[i] by {}
                                        assert(learnts@[l0.len() as int]@ == lemma_v);
                                        lemma_live_reasons_more_clauses(
                                            ca_pre,
                                            self.ca@,
                                            self.assignment.data(),
                                            self.assignment.trail_spec(),
                                            old(self).trail().len() as int,
                                        );
                                        lemma_refs_listed_grow(
                                            ca_pre,
                                            self.ca@,
                                            refs_pre,
                                            self.db.learnts_spec(),
                                            old(self).db.learnts_spec().len() as int,
                                            l0,
                                            learnts@,
                                        );
                                        assert forall|i: int, j: int| 0 <= i < j < learnts@.len() implies (#[trigger] learnts@[i])@ != (#[trigger] learnts@[j])@ by {
                                            if j == l0.len() {
                                                assert(learnts@[i] == l0[i]);
                                                assert(l0[i]@ != lemma_v);
                                            } else {
                                                assert(learnts@[i] == l0[i]);
                                                assert(learnts@[j] == l0[j]);
                                            }
                                        }
                                        assert forall|f: Seq<Seq<Lit>>| #[trigger] s0.derived_from(f) implies forall|i: int|
                                            0 <= i < learnts@.len() ==> entails(f, #[trigger] learnts@[i]@) by {
                                            assert(s_a1.derived_from(f) && entails(f, lemma_v));
                                            assert forall|i: int| 0 <= i < learnts@.len() implies entails(f, #[trigger] learnts@[i]@) by {
                                                if i < l0.len() {
                                                    assert(learnts@[i] == l0[i]);
                                                } else {
                                                    assert(learnts@[i]@ == lemma_v);
                                                }
                                            }
                                        }
                                    }
                                }
                            }
                            proof {
                                if sound0 {
                                    self.lemma_walk_up(q_before as int);
                                }
                            }
                            state = Walk::Ascending;
                        },
                        None => {
                            state = Walk::Descending;
                        },
                    }
                },
            }
        }
        proof {
            if sound0 && state == Walk::Ascending {
                self.lemma_walk_back(0);
            }
        }
        let ghost a_w = self.assignment;
        self.backtrack(0);
        proof {
            if a_w.lim_spec().len() > 0 {
                lemma_live_reasons_prefix(self.clauses_spec(), a_w.data(), a_w.trail_spec(), a_w.lim_spec()[0] as int, old(self).trail().len() as int);
            }
            lemma_ground_reasons(&*self, old(self).trail().len() as int);
        }
        if add_learnts {
            let mut i: usize = 0;
            while i < learnts.len()
                invariant
                    units_listed(
                        self.assignment.data(),
                        self.assignment.trail_spec(),
                        old(self).trail().len() as int,
                        out_learnts@,
                        old(out_learnts)@.len() as int,
                    ),
                    self.inv(),
                    self.assignment.lim_spec().len() == 0,
                    i <= learnts@.len(),
                    self.next_var == old(self).next_var,
                    self.db.clauses_spec() == old(self).db.clauses_spec(),
                    self.ok,
                    forall|i2: int| 0 <= i2 < learnts@.len() ==> (#[trigger] learnts@[i2])@.len() >= 1
                        && forall|k: int| 0 <= k < learnts@[i2]@.len() ==> (#[trigger] learnts@[i2]@[k]).var()@ < self.next_var,
                    out_learnts@.len() == old(out_learnts)@.len() + i,
                    self.db.learnts_spec().len() >= old(self).db.learnts_spec().len(),
                    refs_listed(self.ca@, self.db.learnts_spec(), old(self).db.learnts_spec().len() as int, learnts@),
                    out_learnts@.take(old(out_learnts)@.len() as int) == old(out_learnts)@,
                    forall|i2: int| old(out_learnts)@.len() <= i2 < out_learnts@.len() ==> (#[trigger] out_learnts@[i2])@.len() >= 1
                        && forall|k: int| 0 <= k < out_learnts@[i2]@.len() ==> (#[trigger] out_learnts@[i2]@[k]).var()@ < self.next_var,
                    forall|f: Seq<Seq<Lit>>| #[trigger] s0.derived_from(f) ==> self.derived_from(f) && forall|i2: int|
                        0 <= i2 < learnts@.len() ==> entails(f, #[trigger] learnts@[i2]@),
                    forall|k: int| 0 <= k < i ==> (#[trigger] out_learnts@[old(out_learnts)@.len() + k])@ == learnts@[k]@,
                    forall|i2: int, j2: int| 0 <= i2 < j2 < learnts@.len() ==> (#[trigger] learnts@[i2])@ != (#[trigger] learnts@[j2])@,
                decreases learnts@.len() - i,
            {
                let ghost d_it = self.assignment.data();
                let ghost t_it = self.assignment.trail_spec();
                let ghost v_it = self.assignment.values();
                let ghost out_it = out_learnts@;
                let lemma = vstd::slice::slice_to_vec(learnts[i].as_slice());
                if lemma.len() == 1 {
                    let lit = lemma[0];
                    let ghost vals = self.assignment.values();
                    let ghost data = self.assignment.data();
                    let ghost t0 = self.assignment.trail_spec();
                    let ghost q = self.assignment.qhead_spec();
                    let ghost s_b = *self;
                    let _ = self.assignment.enqueue(lit, None);
                    proof {
                        if crate::assignment::lit_value(vals, lit) == LBool::Undef {
                            crate::assignment::lemma_lim_len_bound(&self.assignment);
                            lemma_enqueue_keeps_old_reasons(self.ca@, vals, data, t0, self.assignment.lim_spec(), q, lit, None);
                            lemma_enqueue_keeps_decisions(vals, data, t0, self.assignment.lim_spec(), q, lit, None);
                        }
                        assert forall|f: Seq<Seq<Lit>>| #[trigger] s0.derived_from(f) implies self.derived_from(f) by {
                            assert(s_b.derived_from(f));
                            assert(entails(f, learnts@[i as int]@));
                            assert(lemma@ == learnts@[i as int]@);
                            assert forall|m: spec_fn(int) -> bool| #[trigger] formula_model(m, f) implies model_lit(m, lit) by {
                                assert(model_clause(m, lemma@));
                            }
                            assert forall|j: int| 0 <= j < self.ground_len() implies entails_lit(f, #[trigger] self.trail()[j]) by {
                                if j < t0.len() {
                                    assert(self.trail()[j] == s_b.trail()[j]);
                                    assert(entails_lit(f, s_b.trail()[j]));
                                } else {
                                    assert(self.trail()[j] == lit);
                                }
                            }
                            assert forall|c: int| 0 <= c < self.clauses_spec().len() implies entails(f, #[trigger] self.clauses_spec()[c]@) by {
                                assert(entails(f, s_b.clauses_spec()[c]@));
                            }
                            assert forall|j: int| 0 <= j < s_b.ground_len() implies #[trigger] self.trail()[j] == s_b.trail()[j] by {}
                            Solver::lemma_covers_mono(&s_b, &*self, f);
                        }
                    }
                }
                let ghost ol = out_learnts@;
                out_learnts.push(lemma);
                proof {
                    assert(out_learnts@.take(old(out_learnts)@.len() as int) =~= ol.take(old(out_learnts)@.len() as int));
                    assert forall|k: int| 0 <= k < i + 1 implies (#[trigger] out_learnts@[old(out_learnts)@.len() + k])@ == learnts@[k]@ by {
                        if k < i {
                            assert(out_learnts@[old(out_learnts)@.len() + k] == ol[old(out_learnts)@.len() + k]);
                        }
                    }
                    let t1 = self.assignment.trail_spec();
                    let d1 = self.assignment.data();
                    assert forall|i0: int| 0 <= i0 < t_it.len() implies lit_value(v_it, #[trigger] t_it[i0]) == LBool::True && t_it[i0].var()@ < v_it.len() by {}
                    assert forall|jj: int| old(self).trail().len() <= jj < t1.len() && (#[trigger] d1[t1[jj].var()@ as int]).reason_spec() is None implies exists|k: int|
                        #![trigger out_learnts@[k]]
                        old(out_learnts)@.len() <= k < out_learnts@.len() && out_learnts@[k]@ == seq![t1[jj]] by {
                        if jj < t_it.len() {
                            assert(t1[jj] == t_it[jj]);
                            let v = t_it[jj].var()@ as int;
                            assert(lit_value(v_it, t_it[jj]) == LBool::True);
                            assert(v_it[v] != LBool::Undef);
                            assert(d1[v] == d_it[v]);
                            let k = choose|k: int| #![trigger out_it[k]] old(out_learnts)@.len() <= k < out_it.len() && out_it[k]@ == seq![t_it[jj]];
                            assert(out_learnts@[k] == out_it[k]);
                        } else {
                            assert(lemma@.len() == 1);
                            assert(t1[jj] == lemma@[0]);
                            assert(lemma@ =~= seq![t1[jj]]);
                            assert(out_learnts@[out_learnts@.len() - 1]@ == lemma@);
                        }
                    }
                }
                i = i + 1;
            }
            proof {
                let o = old(out_learnts)@.len();
                assert forall|i2: int, j2: int| o <= i2 < j2 < out_learnts@.len() implies (#[trigger] out_learnts@[i2])@
                    != (#[trigger] out_learnts@[j2])@ by {
                    assert(out_learnts@[o + (i2 - o)]@ == learnts@[i2 - o]@);
                    assert(out_learnts@[o + (j2 - o)]@ == learnts@[j2 - o]@);
                }
                assert forall|f: Seq<Seq<Lit>>| #[trigger] s0.derived_from(f) implies forall|i2: int|
                    o <= i2 < out_learnts@.len() ==> entails(f, #[trigger] out_learnts@[i2]@) by {
                    assert forall|i2: int| o <= i2 < out_learnts@.len() implies entails(f, #[trigger] out_learnts@[i2]@) by {
                        assert(out_learnts@[o + (i2 - o)]@ == learnts@[i2 - o]@);
                        assert(entails(f, learnts@[i2 - o]@));
                    }
                }
            }
            proof {
                lemma_refs_listed_out(
                    self.ca@,
                    self.db.learnts_spec(),
                    old(self).db.learnts_spec().len() as int,
                    learnts@,
                    out_learnts@,
                    old(out_learnts)@.len() as int,
                );
            }
            let ghost s_u = *self;
            self.events.push(ActivityEvent::Decay);
            proof {
                assert forall|f: Seq<Seq<Lit>>| #[trigger] s0.derived_from(f) implies self.derived_from(f) by {
                    assert(s_u.derived_from(f));
                    Solver::lemma_derived_same_ground(&s_u, &*self, f);
                }
            }
        }
        proof {
            assert forall|f: Seq<Seq<Lit>>| #[trigger] s0.derived_from(f) implies self.derived_from(f) by {}
        }
        proof {
            assert forall|f: Seq<Seq<Lit>>| #[trigger] old(self).derived_from(f) implies forall|i: int|
                old(out_learnts)@.len() <= i < out_learnts@.len() ==> entails(f, #[trigger] out_learnts@[i]@) by {
                assert(s_p.derived_from(f));
                assert(s0.derived_from(f));
            }
        }
        let ghost s_pq = *self;
        let confl1 = self.propagate();
        let ghost s_q = *self;
        proof {
            if add_learnts {
                lemma_ground_reasons(&*self, s_pq.trail().len() as int);
                assert forall|i0: int| 0 <= i0 < s_pq.trail().len() implies lit_value(s_pq.values(), #[trigger] s_pq.trail()[i0]) == LBool::True
                    && s_pq.trail()[i0].var()@ < s_pq.values().len() by {
                    assert(s_pq.assignment.wf());
                }
                lemma_units_listed_extend(
                    s_pq.values(),
                    s_pq.assignment_spec().data(),
                    s_pq.trail(),
                    self.assignment_spec().data(),
                    self.values(),
                    self.trail(),
                    old(self).trail().len() as int,
                    out_learnts@,
                    old(out_learnts)@.len() as int,
                );
                assert forall|r: int| old(self).db.learnts_spec().len() <= r < s_pq.db.learnts_spec().len() implies (
                #[trigger] s_pq.db.learnts_spec()[r])@ < s_pq.ca@.len() by {
                    assert(refs_in(s_pq.db.learnts_spec(), s_pq.ca@.len()));
                }
                assert forall|c: int, l: Lit| 0 <= c < s_pq.ca@.len() && #[trigger] self.ca@[c]@.contains(l) implies s_pq.ca@[c]@.contains(l) by {
                    assert(self.clauses_spec()[c]@.to_multiset() == s_pq.clauses_spec()[c]@.to_multiset());
                    lemma_perm_contains(self.ca@[c]@, s_pq.ca@[c]@);
                }
                lemma_refs_covered_shrink(
                    s_pq.ca@,
                    self.ca@,
                    self.db.learnts_spec(),
                    old(self).db.learnts_spec().len() as int,
                    out_learnts@,
                    old(out_learnts)@.len() as int,
                );
            }
        }
        if confl1.is_some() {
            self.ok = false;
            proof {
                assert forall|f: Seq<Seq<Lit>>| #[trigger] old(self).derived_from(f) implies self.derived_from(f) by {
                    assert(s_p.derived_from(f));
                    assert(s0.derived_from(f));
                    assert(s_q.derived_from(f));
                    let c = confl1->0;
                    let cl = s_q.ca@[c@ as int]@;
                    assert(entails(f, s_q.clauses_spec()[c@ as int]@));
                    assert(lits_in_range(cl, s_q.next_var as nat));
                    assert(clause_false(cl, s_q.values()));
                    Solver::lemma_false_clause_refutes(&s_q, f, cl);
                    assert forall|c2: int| 0 <= c2 < self.clauses_spec().len() implies entails(f, #[trigger] self.clauses_spec()[c2]@) by {
                        assert(entails(f, s_q.clauses_spec()[c2]@));
                    }
                    Solver::lemma_derived_grow(&s_q, &*self, f);
                }
                assert forall|f: Seq<Seq<Lit>>| #[trigger] old(self).derived_from(f) && variables@.len() > 0 implies 0 >= num_sat_cubes(f, variables@, two_pow(variables@.len())) by {
                    assert(self.derived_from(f));
                    lemma_num_sat_unsat(f, variables@, two_pow(variables@.len()));
                }
            }
            return 0;
        }
        if add_learnts {
            self.simplify();
            proof {
                assert forall|r: int| old(self).db.learnts_spec().len() <= r < s_q.db.learnts_spec().len() implies (
                #[trigger] s_q.db.learnts_spec()[r])@ < s_q.ca@.len() by {
                    assert(refs_in(s_q.db.learnts_spec(), s_q.ca@.len()));
                }
                assert forall|c: int, l: Lit| 0 <= c < s_q.ca@.len() && #[trigger] self.ca@[c]@.contains(l) implies s_q.ca@[c]@.contains(l) by {
                    assert(self.clauses_spec()[c]@.contains(l));
                }
                lemma_refs_covered_shrink(
                    s_q.ca@,
                    self.ca@,
                    self.db.learnts_spec(),
                    old(self).db.learnts_spec().len() as int,
                    out_learnts@,
                    old(out_learnts)@.len() as int,
                );
            }
        }
        proof {
            assert forall|f: Seq<Seq<Lit>>| #[trigger] old(self).derived_from(f) implies self.derived_from(f) by {
                assert(s_p.derived_from(f));
                assert(s0.derived_from(f));
                assert(s_q.derived_from(f));
            }
            assert forall|f: Seq<Seq<Lit>>| #[trigger] old(self).derived_from(f) && variables@.len() > 0 implies total_count >= num_sat_cubes(
                f,
                variables@,
                two_pow(variables@.len()),
            ) || (limit > 0 && total_count == limit + 1) by {
                assert(s_p.derived_from(f));
                assert(s0.derived_from(f));
            }
        }
        total_count
    }

    /// Walks the tree of cubes over `variables` like [`Solver::propcheck_all_tree`], without
    /// learning and only along the paths of `trie` (a cube prefix that leaves the trie is
    /// pruned). Each cube reached at full depth is appended to `valid` as its literals.
    /// Returns their number: from sound watches, when the solver stays consistent, that of
    /// the cubes on the trie whose unit propagation, with the trail, reaches no conflict.
    #[verifier::spinoff_prover]
    #[verifier::rlimit(80)]
    pub fn propcheck_all_trie(&mut self, variables: &[Var], trie: &Trie, valid: &mut Vec<Vec<Lit>>) -> (res: u64)
        requires
            old(self).inv(),
            old(self).level_count() == 0,
            trie.wf(),
            variables@.len() < 64,
            variables@.len() > 0 || trie.nodes_spec().len() == 1,
            forall|k: int| 0 <= k < variables@.len() ==> (#[trigger] variables@[k])@ < old(self).num_vars_spec(),
        ensures
            final(self).inv(),
            final(self).level_count() == 0,
            final(self).num_vars_spec() == old(self).num_vars_spec(),
            final(self).original_spec() == old(self).original_spec(),
            final(self).learnt_spec() == old(self).learnt_spec(),
            final(self).ok_spec() ==> old(self).ok_spec(),
            !final(self).ok_spec() ==> res == 0,
            old(self).watches_sound() && final(self).ok_spec() ==> final(self).watches_sound(),
            res <= two_pow(variables@.len()),
            final(valid)@.len() >= old(valid)@.len(),
            final(valid)@.take(old(valid)@.len() as int) == old(valid)@,
            final(self).ok_spec() ==> final(valid)@.len() == old(valid)@.len() + res,
            forall|i: int| old(valid)@.len() <= i < final(valid)@.len() ==> trie_cube(trie, variables@, #[trigger] final(valid)@[i]@),
            old(self).watches_sound() ==> forall|i: int|
                old(valid)@.len() <= i < final(valid)@.len() ==> up_consistent(
                    old(self).clauses_spec(),
                    old(self).trail() + #[trigger] final(valid)@[i]@,
                    old(self).num_vars_spec(),
                ),
            forall|f: Seq<Seq<Lit>>| #[trigger] old(self).derived_from(f) ==> final(self).derived_from(f),
            forall|f: Seq<Seq<Lit>>| #[trigger] old(self).derived_from(f) && variables@.len() > 0 ==> res >= num_sat_trie_cubes(
                f,
                variables@,
                trie,
                two_pow(variables@.len()),
            ),
            old(self).watches_sound() ==> res <= num_up_trie_cubes(
                old(self).clauses_spec(),
                old(self).trail(),
                variables@,
                old(self).num_vars_spec(),
                trie,
                two_pow(variables@.len()),
            ),
            old(self).watches_sound() && final(self).ok_spec() && variables@.len() > 0 ==> res == num_up_trie_cubes(
                old(self).clauses_spec(),
                old(self).trail(),
                variables@,
                old(self).num_vars_spec(),
                trie,
                two_pow(variables@.len()),
            ),
    {
        let confl0 = self.propagate();
        let ghost s_p = *self;
        if confl0.is_some() {
            self.ok = false;
        }
        if !self.ok {
            proof {
                assert forall|f: Seq<Seq<Lit>>| #[trigger] old(self).derived_from(f) implies self.derived_from(f) by {
                    assert(s_p.derived_from(f));
                    if confl0 is Some {
                        let c = confl0->0;
                        let cl = s_p.ca@[c@ as int]@;
                        assert(entails(f, s_p.clauses_spec()[c@ as int]@));
                        assert(lits_in_range(cl, s_p.next_var as nat));
                        assert(clause_false(cl, s_p.values()));
                        Solver::lemma_false_clause_refutes(&s_p, f, cl);
                    }
                    assert forall|c: int| 0 <= c < self.clauses_spec().len() implies entails(f, #[trigger] self.clauses_spec()[c]@) by {
                        assert(entails(f, s_p.clauses_spec()[c]@));
                    }
                    Solver::lemma_derived_grow(&s_p, &*self, f);
                }
                assert forall|f: Seq<Seq<Lit>>| #[trigger] old(self).derived_from(f) && variables@.len() > 0 implies 0 >= num_sat_trie_cubes(f, variables@, trie, two_pow(variables@.len())) by {
                    assert(self.derived_from(f));
                    lemma_num_trie_unsat(f, variables@, trie, two_pow(variables@.len()));
                }
            }
            return 0;
        }
        let ghost s0 = *self;
        if trie.is_empty() {
            proof {
                assert forall|f: Seq<Seq<Lit>>| #[trigger] old(self).derived_from(f) && variables@.len() > 0 implies 0 >= num_sat_trie_cubes(f, variables@, trie, two_pow(variables@.len())) by {
                    assert forall|w: Seq<bool>| w.len() == variables@.len() implies follow(trie.nodes_spec(), trie.root_spec(), w) == 0 by {
                        trie.lemma_lone_root_follow(w);
                    }
                    lemma_num_trie_dead(f, variables@, trie, two_pow(variables@.len()));
                }
                if variables@.len() > 0 {
                    assert forall|w: Seq<bool>| w.len() == variables@.len() implies follow(trie.nodes_spec(), trie.root_spec(), w) == 0
                        || !up_consistent(old(self).clauses_spec(), old(self).trail() + #[trigger] cube_lits_spec(variables@, w), old(self).num_vars_spec()) by {
                        trie.lemma_lone_root_follow(w);
                    }
                    lemma_num_up_trie_none(old(self).clauses_spec(), old(self).trail(), variables@, old(self).num_vars_spec(), trie, two_pow(variables@.len()));
                }
            }
            return 0;
        }
        let n = variables.len();
        let mut cube: Vec<bool> = vec![false; n];
        let mut total_count: u64 = 0;
        let mut state = Walk::Descending;
        let ghost sound0 = old(self).watches_sound();
        let ghost v0 = valid@;
        proof {
            lemma_two_pow_mono(n as nat, 63);
            lemma_two_pow_63();
            lemma_cube_value_bound(cube@);
            assert(valid@.take(v0.len() as int) =~= v0);
            lemma_cube_value_all_false(cube@);
            let t = self.assignment.trail_spec();
            assert forall|p: int| 0 <= p < t.len() implies (#[trigger] self.assignment.data()[t[p].var()@ as int]).level_spec() == 0 by {
                assert(level_fits(self.assignment.lim_spec(), self.assignment.data()[t[p].var()@ as int].level_spec() as int, p));
            }
            assert(same_clauses(old(self).clauses_spec(), self.clauses_spec()));
        }
        loop
            invariant_except_break
                total_count <= cube_value(cube@) + (if state == Walk::Ascending { 1nat } else { 0nat }),
                forall|i: int| self.assignment.lim_spec().len() + (if state == Walk::Descending { 1int } else { 0int }) <= i < n ==> !cube@[i],
                decided_by(self.assignment.trail_spec(), self.assignment.data(), cube_lits_spec(variables@, cube@)),
                forall|f: Seq<Seq<Lit>>| #[trigger] s0.derived_from(f) ==> total_count >= num_sat_trie_cubes(
                    f,
                    variables@,
                    trie,
                    (if state == Walk::Ascending { cube_value(cube@) + two_pow((n - self.assignment.lim_spec().len()) as nat) } else { cube_value(cube@) }),
                ),
                cube_held(
                    self.assignment.values(),
                    self.assignment.data(),
                    cube_lits_spec(variables@, cube@),
                    self.assignment.lim_spec().len() - (if state == Walk::Ascending { 1int } else { 0int }),
                ),
                same_clauses(old(self).clauses_spec(), self.clauses_spec()),
                self.trail().len() >= old(self).trail().len(),
                self.trail().take(old(self).trail().len() as int) == old(self).trail(),
                self.assignment.lim_spec().len() > 0 ==> self.assignment.lim_spec()[0] >= old(self).trail().len(),
                sound0 ==> total_count == num_up_trie_cubes(old(self).clauses_spec(), old(self).trail(), variables@, old(self).num_vars_spec(), trie, (if state == Walk::Ascending {
                    cube_value(cube@) + two_pow((n - self.assignment.lim_spec().len()) as nat)
                } else {
                    cube_value(cube@)
                })),
            invariant
                self.inv(),
                self.ok,
                state != Walk::Propagating ==> self.propagated(),
                sound0 ==> self.walk_sound(state == Walk::Ascending),
                sound0 == (old(self).watches_sound()),
                trie.wf(),
                v0 == old(valid)@,
                cube@.len() == n,
                n == variables@.len(),
                0 < n < 64,
                self.next_var == old(self).next_var,
                self.db.clauses_spec() == old(self).db.clauses_spec(),
                self.db.learnts_spec() == old(self).db.learnts_spec(),
                forall|k: int| 0 <= k < variables@.len() ==> (#[trigger] variables@[k])@ < self.next_var,
                self.assignment.lim_spec().len() <= n,
                state != Walk::Descending ==> self.assignment.lim_spec().len() > 0,
                forall|l: int| 0 < l < self.assignment.lim_spec().len() ==> follow(trie.nodes_spec(), trie.root_spec(), #[trigger] cube@.take(l)) != 0,
                state != Walk::Ascending && self.assignment.lim_spec().len() > 0 ==> follow(
                    trie.nodes_spec(),
                    trie.root_spec(),
                    cube@.take(self.assignment.lim_spec().len() as int),
                ) != 0,
                total_count <= cube_value(cube@) + 1,
                cube_value(cube@) < two_pow(n as nat),
                two_pow(n as nat) <= 0x8000_0000_0000_0000,
                valid@.len() == v0.len() + total_count,
                valid@.take(v0.len() as int) == v0,
                forall|i: int| v0.len() <= i < valid@.len() ==> trie_cube(trie, variables@, #[trigger] valid@[i]@),
                sound0 ==> forall|i: int|
                    v0.len() <= i < valid@.len() ==> up_consistent(
                        old(self).clauses_spec(),
                        old(self).trail() + #[trigger] valid@[i]@,
                        old(self).num_vars_spec(),
                    ),
                forall|f: Seq<Seq<Lit>>| #[trigger] s0.derived_from(f) ==> self.derived_from(f),
                sound0 ==> live_reasons_from(self.clauses_spec(), self.assignment_spec().data(), self.trail(), old(self).trail().len() as int),
            ensures
                forall|f: Seq<Seq<Lit>>| #[trigger] s0.derived_from(f) ==> total_count >= num_sat_trie_cubes(
                    f,
                    variables@,
                    trie,
                    two_pow(n as nat),
                ),
                sound0 ==> total_count == num_up_trie_cubes(old(self).clauses_spec(), old(self).trail(), variables@, old(self).num_vars_spec(), trie, two_pow(n as nat)),
            decreases two_pow(n as nat) - cube_value(cube@), n - self.assignment.lim_spec().len(), walk_rank(state),
        {
            match state {
                Walk::Descending => {
                    let level = self.assignment.decision_level();
                    if level == n {
                        let ghost v = cube_value(cube@);
                        proof {
                            let ca0 = old(self).clauses_spec();
                            let t0 = old(self).trail();
                            let nv = old(self).num_vars_spec();
                            let lits = cube_lits_spec(variables@, cube@);
                            let u = t0 + lits;
                            lemma_cube_at_value(cube@);
                            assert(cube@.take(n as int) =~= cube@);
                            if sound0 {
                                lemma_values_up_closed(&*self);
                                let t = self.trail();
                                assert forall|i: int| 0 <= i < u.len() implies lit_value(self.values(), #[trigger] u[i]) == LBool::True by {
                                    if i < t0.len() {
                                        assert(t.take(t0.len() as int)[i] == t[i]);
                                        assert(u[i] == t[i]);
                                    } else {
                                        assert(u[i] == lits[i - t0.len()]);
                                    }
                                }
                                assert(up_consistent(self.clauses_spec(), u, nv));
                                assert forall|i: int| 0 <= i < u.len() implies u.contains(#[trigger] u[i]) by {}
                                lemma_up_consistent_same(ca0, self.clauses_spec(), u, u, nv);
                                assert(num_up_trie_cubes(ca0, t0, variables@, nv, trie, (v + 1) as nat) == num_up_trie_cubes(
                                    ca0,
                                    t0,
                                    variables@,
                                    nv,
                                    trie,
                                    v,
                                ) + 1);
                            }
                        }
                        let lits = cube_lits(variables, cube.as_slice(), level);
                        let ghost vb = valid@;
                        valid.push(lits);
                        proof {
                            assert(cube@.take(n as int) =~= cube@);
                            assert(follow(trie.nodes_spec(), trie.root_spec(), cube@) != 0);
                            assert(valid@.take(v0.len() as int) =~= vb.take(v0.len() as int));
                            assert forall|i: int| v0.len() <= i < valid@.len() implies trie_cube(trie, variables@, #[trigger] valid@[i]@) by {
                                if i < vb.len() {
                                    assert(valid@[i] == vb[i]);
                                } else {
                                    assert(valid@[i]@ == cube_lits_spec(variables@, cube@));
                                    assert(cube@.len() == variables@.len());
                                }
                            }
                            if sound0 {
                                assert(up_consistent(old(self).clauses_spec(), old(self).trail() + cube_lits_spec(variables@, cube@), old(self).num_vars_spec()));
                                assert forall|i: int| v0.len() <= i < valid@.len() implies up_consistent(
                                    old(self).clauses_spec(),
                                    old(self).trail() + #[trigger] valid@[i]@,
                                    old(self).num_vars_spec(),
                                ) by {
                                    if i < vb.len() {
                                        assert(valid@[i] == vb[i]);
                                    } else {
                                        assert(valid@[i]@ == cube_lits_spec(variables@, cube@));
                                    }
                                }
                            }
                        }
                        total_count = total_count + 1;
                        proof {
                            assert(two_pow(0) == 1);
                            assert forall|f: Seq<Seq<Lit>>| #[trigger] s0.derived_from(f) implies total_count >= num_sat_trie_cubes(
                                f,
                                variables@,
                                trie,
                                (cube_value(cube@) + two_pow((n - self.assignment.lim_spec().len()) as nat)) as nat,
                            ) by {
                                assert(num_sat_trie_cubes(f, variables@, trie, (cube_value(cube@) + 1) as nat) <= num_sat_trie_cubes(
                                    f,
                                    variables@,
                                    trie,
                                    cube_value(cube@),
                                ) + 1);
                            }
                            if sound0 {
                                self.lemma_walk_up(self.assignment.qhead_spec() as int);
                            }
                        }
                        state = Walk::Ascending;
                    } else {
                        self.open_level();
                        let prefix = vstd::slice::slice_subrange(cube.as_slice(), 0, level + 1);
                        let current = trie.search(prefix);
                        proof {
                            assert(prefix@ =~= cube@.take(level + 1));
                        }
                        proof {
                            if sound0 {
                                self.lemma_walk_up(self.assignment.qhead_spec() as int);
                            }
                        }
                        if current == 0 {
                            proof {
                                lemma_num_up_trie_skip(
                                    old(self).clauses_spec(),
                                    old(self).trail(),
                                    variables@,
                                    old(self).num_vars_spec(),
                                    trie,
                                    cube@,
                                    level as int + 1,
                                    (cube_value(cube@) + two_pow((n - (level + 1)) as nat)) as nat,
                                );
                                assert forall|f: Seq<Seq<Lit>>| #[trigger] s0.derived_from(f) implies total_count >= num_sat_trie_cubes(
                                    f,
                                    variables@,
                                    trie,
                                    (cube_value(cube@) + two_pow((n - self.assignment.lim_spec().len()) as nat)) as nat,
                                ) by {
                                    lemma_num_trie_skip(
                                        f,
                                        variables@,
                                        trie,
                                        cube@,
                                        level as int + 1,
                                        (cube_value(cube@) + two_pow((n - (level + 1)) as nat)) as nat,
                                    );
                                }
                            }
                            state = Walk::Ascending;
                        } else {
                            let p = Lit::new(variables[level], cube[level]);
                            proof {
                                assert(variables@[level as int]@ < self.next_var);
                            }
                            match self.assignment.value(p) {
                                LBool::True => {
                                    proof {
                                        let lits = cube_lits_spec(variables@, cube@);
                                        Lit::lemma_from_code_view(lit_code(variables@[level as int]@, cube@[level as int]));
                                        Lit::lemma_view_injective(lits[level as int], p);
                                        lemma_assigned_level(&self.assignment, p.var()@);
                                        assert(lits[level as int].var()@ < self.assignment.values().len());
                                    }
                                },
                                LBool::False => {
                                    proof {
                                        let pre = cube_lits_spec(variables@, cube@.take(level as int + 1));
                                        assert(cube@.take(level as int + 1)[level as int] == cube@[level as int]);
                                        Lit::lemma_from_code_view(lit_code(variables@[level as int]@, cube@[level as int]));
                                        assert(pre[level as int]@ == p@);
                                        Lit::lemma_view_injective(pre[level as int], p);
                                        assert(p.var()@ < self.assignment.values().len());
                                        assert forall|f: Seq<Seq<Lit>>| #[trigger] s0.derived_from(f) implies total_count >= num_sat_trie_cubes(
                                            f,
                                            variables@,
                                            trie,
                                            (cube_value(cube@) + two_pow((n - self.assignment.lim_spec().len()) as nat)) as nat,
                                        ) by {
                                            let w = with_units(f, pre);
                                            lemma_with_units(f, pre);
                                            assert(entails_lit(w, pre[level as int]));
                                            assert forall|m: spec_fn(int) -> bool| #[trigger] formula_model(m, w) implies model_clause(m, seq![p]) by {
                                                assert(model_lit(m, seq![p][0]));
                                            }
                                            Solver::lemma_walk_refutes(&*self, f, variables@, cube@, level as int + 1, seq![p]);
                                            lemma_num_trie_skip(
                                                f,
                                                variables@,
                                                trie,
                                                cube@,
                                                level as int + 1,
                                                (cube_value(cube@) + two_pow((n - (level + 1)) as nat)) as nat,
                                            );
                                        }
                                        if sound0 {
                                            assert(pre.contains(p)) by {
                                                assert(pre[level as int] == p);
                                            }
                                            lemma_walk_up_refutes(&*self, old(self).trail(), variables@, cube@, level as int + 1, None, Some(p));
                                            lemma_up_consistent_eq(old(self).clauses_spec(), self.clauses_spec(), old(self).trail() + pre, old(self).num_vars_spec());
                                            lemma_num_up_trie_skip(
                                                old(self).clauses_spec(),
                                                old(self).trail(),
                                                variables@,
                                                old(self).num_vars_spec(),
                                                trie,
                                                cube@,
                                                level as int + 1,
                                                (cube_value(cube@) + two_pow((n - (level + 1)) as nat)) as nat,
                                            );
                                        }
                                    }
                                    state = Walk::Ascending;
                                },
                                LBool::Undef => {
                                    let ghost a0 = self.assignment;
                                    let ghost ca_d = self.clauses_spec();
                                    proof {
                                        assert forall|i: int| 0 <= i < a0.trail_spec().len() implies lit_value(a0.values(), #[trigger] a0.trail_spec()[i])
                                            == LBool::True && a0.trail_spec()[i].var()@ < a0.values().len() by {}
                                        if sound0 {
                                            lemma_live_reasons_decide(
                                                ca_d,
                                                a0.values(),
                                                a0.data(),
                                                a0.trail_spec(),
                                                p,
                                                (level + 1) as nat,
                                                old(self).trail().len() as int,
                                            );
                                        }
                                    }
                                    self.assign_decision(p);
                                    proof {
                                        let lits = cube_lits_spec(variables@, cube@);
                                        Lit::lemma_from_code_view(lit_code(variables@[level as int]@, cube@[level as int]));
                                        Lit::lemma_view_injective(lits[level as int], p);
                                        lemma_decided_push(&a0, &self.assignment, lits, p, (level + 1) as nat);
                                        VarData::lemma_new_spec(None, (level + 1) as nat);
                                        assert forall|i: int| 0 <= i < level + 1 implies lits[i].var()@ < self.assignment.values().len() && lit_value(
                                            self.assignment.values(),
                                            #[trigger] lits[i],
                                        ) == LBool::True && self.assignment.data()[lits[i].var()@ as int].level_spec() <= i + 1 by {
                                            if i < level {
                                                assert(lit_value(a0.values(), lits[i]) == LBool::True);
                                                assert(a0.values()[lits[i].var()@ as int] != LBool::Undef);
                                                assert(a0.values()[p.var()@ as int] == LBool::Undef);
                                                assert(lits[i].var()@ != p.var()@);
                                            }
                                        }
                                    }
                                    state = Walk::Propagating;
                                },
                            }
                        }
                    }
                },
                Walk::Ascending => {
                    let level = self.assignment.decision_level();
                    let ghost c0 = cube@;
                    let j = increment_cube(&mut cube, level);
                    proof {
                        lemma_cube_value_bound(cube@);
                    }
                    if j == 0 {
                        proof {
                            lemma_cube_value_ones_then_zeros(c0, level as int);
                        }
                        break;
                    }
                    let ghost sa0 = *self;
                    proof {
                        lemma_cube_value_step(c0, cube@, j - 1, level as int);
                        if sound0 {
                            self.lemma_walk_back(j - 1);
                        }
                    }
                    let ghost a0 = self.assignment;
                    self.backtrack(j - 1);
                    proof {
                        let lits0 = cube_lits_spec(variables@, c0);
                        let lits1 = cube_lits_spec(variables@, cube@);
                        assert forall|i: int| 0 <= i < j - 1 implies lits1[i] == lits0[i] by {}
                        lemma_decided_cut(&a0, &self.assignment, lits0, lits1, j - 1);
                        let lim0 = a0.lim_spec();
                        assert(lim0[0] <= lim0[j - 1]);
                        assert(lim0[j - 1] <= a0.trail_spec().len());
                        assert forall|i: int| 0 <= i < j - 1 implies lits1[i].var()@ < self.assignment.values().len() && lit_value(
                            self.assignment.values(),
                            #[trigger] lits1[i],
                        ) == LBool::True && self.assignment.data()[lits1[i].var()@ as int].level_spec() <= i + 1 by {
                            assert(lits1[i] == lits0[i]);
                            assert(lit_value(a0.values(), lits0[i]) == LBool::True);
                            lemma_true_kept_cut(
                                a0.values(),
                                a0.data(),
                                a0.trail_spec(),
                                lim0,
                                a0.qhead_spec(),
                                self.assignment.values(),
                                j - 1,
                                lits0[i],
                            );
                        }
                        assert(self.trail().take(old(self).trail().len() as int) =~= old(self).trail()) by {
                            assert forall|q: int| 0 <= q < old(self).trail().len() implies self.trail()[q] == old(self).trail()[q] by {
                                assert(sa0.trail().take(old(self).trail().len() as int)[q] == sa0.trail()[q]);
                            }
                        }
                        if j - 1 > 0 {
                            assert(self.assignment.lim_spec()[0] == lim0[0]);
                        }
                        if sound0 {
                            lemma_live_reasons_prefix(self.clauses_spec(), a0.data(), a0.trail_spec(), lim0[j - 1] as int, old(self).trail().len() as int);
                        }
                        assert forall|l: int| 0 < l <= j - 1 implies follow(trie.nodes_spec(), trie.root_spec(), #[trigger] cube@.take(l)) != 0 by {
                            assert(cube@.take(l) =~= c0.take(l));
                        }
                    }
                    state = Walk::Descending;
                },
                Walk::Propagating => {
                    let ghost q_before = self.assignment.qhead_spec();
                    proof {
                        let lim = self.assignment.lim_spec();
                        assert(lim[lim.len() - 1] <= q_before);
                    }
                    let ghost a0 = self.assignment;
                    let ghost sp0 = *self;
                    let confl = self.propagate();
                    proof {
                        lemma_decided_extend(&a0, &self.assignment, cube_lits_spec(variables@, cube@));
                        let lits = cube_lits_spec(variables@, cube@);
                        assert forall|i: int| 0 <= i < a0.lim_spec().len() implies lits[i].var()@ < self.assignment.values().len() && lit_value(
                            self.assignment.values(),
                            #[trigger] lits[i],
                        ) == LBool::True && self.assignment.data()[lits[i].var()@ as int].level_spec() <= i + 1 by {
                            assert(lit_value(a0.values(), lits[i]) == LBool::True);
                            assert(lits[i].var()@ < a0.values().len());
                            let vv = lits[i].var()@ as int;
                            assert(a0.values()[vv] != LBool::Undef);
                            assert(self.assignment.values()[vv] == a0.values()[vv]);
                        }
                        assert forall|c: int| 0 <= c < old(self).clauses_spec().len() implies (#[trigger] self.clauses_spec()[c]).deleted_spec()
                            == old(self).clauses_spec()[c].deleted_spec() && self.clauses_spec()[c]@.to_multiset()
                            == old(self).clauses_spec()[c]@.to_multiset() by {
                            assert(sp0.clauses_spec()[c].deleted_spec() == old(self).clauses_spec()[c].deleted_spec());
                        }
                        lemma_take_take(self.trail(), sp0.trail(), old(self).trail());
                        if sound0 {
                            assert forall|i: int| 0 <= i < a0.trail_spec().len() implies lit_value(a0.values(), #[trigger] a0.trail_spec()[i])
                                == LBool::True && a0.trail_spec()[i].var()@ < a0.values().len() by {}
                            lemma_live_reasons_extend(
                                sp0.clauses_spec(),
                                a0.values(),
                                a0.data(),
                                a0.trail_spec(),
                                self.clauses_spec(),
                                self.assignment.values(),
                                self.assignment.data(),
                                self.assignment.trail_spec(),
                                old(self).trail().len() as int,
                            );
                        }
                    }
                    match confl {
                        Some(conflict) => {
                            proof {
                                let lv = self.assignment.lim_spec().len();
                                let cl = self.clauses_spec()[conflict@ as int]@;
                                assert(lits_in_range(self.ca@[conflict@ as int]@, self.next_var as nat));
                                assert forall|k: int| 0 <= k < cl.len() implies lit_value(self.values(), #[trigger] cl[k]) == LBool::False
                                    && cl[k].var()@ < self.values().len() by {}
                                assert forall|f: Seq<Seq<Lit>>| #[trigger] s0.derived_from(f) implies total_count >= num_sat_trie_cubes(
                                    f,
                                    variables@,
                                    trie,
                                    (cube_value(cube@) + two_pow((n - lv) as nat)) as nat,
                                ) by {
                                    let pre = cube_lits_spec(variables@, cube@.take(lv as int));
                                    assert(self.derived_from(f));
                                    assert(entails(f, cl));
                                    lemma_with_units(f, pre);
                                    Solver::lemma_walk_refutes(&*self, f, variables@, cube@, lv as int, cl);
                                    lemma_num_trie_skip(f, variables@, trie, cube@, lv as int, (cube_value(cube@) + two_pow((n - lv) as nat)) as nat);
                                }
                                if sound0 {
                                    lemma_walk_up_refutes(&*self, old(self).trail(), variables@, cube@, lv as int, Some(conflict@ as int), None);
                                    lemma_up_consistent_eq(
                                        old(self).clauses_spec(),
                                        self.clauses_spec(),
                                        old(self).trail() + cube_lits_spec(variables@, cube@.take(lv as int)),
                                        old(self).num_vars_spec(),
                                    );
                                    lemma_num_up_trie_skip(
                                        old(self).clauses_spec(),
                                        old(self).trail(),
                                        variables@,
                                        old(self).num_vars_spec(),
                                        trie,
                                        cube@,
                                        lv as int,
                                        (cube_value(cube@) + two_pow((n - lv) as nat)) as nat,
                                    );
                                }
                            }
                            proof {
                                if sound0 {
                                    self.lemma_walk_up(q_before as int);
                                }
                            }
                            state = Walk::Ascending;
                        },
                        None => {
                            state = Walk::Descending;
                        },
                    }
                },
            }
        }
        proof {
            if sound0 && state == Walk::Ascending {
                self.lemma_walk_back(0);
            }
        }
        self.backtrack(0);
        let confl1 = self.propagate();
        let ghost s_q = *self;
        if confl1.is_some() {
            self.ok = false;
            proof {
                assert forall|f: Seq<Seq<Lit>>| #[trigger] old(self).derived_from(f) implies self.derived_from(f) by {
                    assert(s_p.derived_from(f));
                    assert(s0.derived_from(f));
                    assert(s_q.derived_from(f));
                    let c = confl1->0;
                    let cl = s_q.ca@[c@ as int]@;
                    assert(entails(f, s_q.clauses_spec()[c@ as int]@));
                    assert(lits_in_range(cl, s_q.next_var as nat));
                    assert(clause_false(cl, s_q.values()));
                    Solver::lemma_false_clause_refutes(&s_q, f, cl);
                    assert forall|c2: int| 0 <= c2 < self.clauses_spec().len() implies entails(f, #[trigger] self.clauses_spec()[c2]@) by {
                        assert(entails(f, s_q.clauses_spec()[c2]@));
                    }
                    Solver::lemma_derived_grow(&s_q, &*self, f);
                }
                assert forall|f: Seq<Seq<Lit>>| #[trigger] old(self).derived_from(f) && variables@.len() > 0 implies 0 >= num_sat_trie_cubes(f, variables@, trie, two_pow(variables@.len())) by {
                    assert(self.derived_from(f));
                    lemma_num_trie_unsat(f, variables@, trie, two_pow(variables@.len()));
                }
            }
            return 0;
        }
        proof {
            assert forall|f: Seq<Seq<Lit>>| #[trigger] old(self).derived_from(f) implies self.derived_from(f) by {
                assert(s_p.derived_from(f));
                assert(s0.derived_from(f));
                assert(s_q.derived_from(f));
            }
            assert forall|f: Seq<Seq<Lit>>| #[trigger] old(self).derived_from(f) && variables@.len() > 0 implies total_count >= num_sat_trie_cubes(f, variables@, trie, two_pow(variables@.len())) by {
                assert(s_p.derived_from(f));
                assert(s0.derived_from(f));
            }
        }
        total_count
    }

    /// Assigns `lit` as the decision of the level just opened.
    fn assign_decision(&mut self, lit: Lit)
        requires
            old(self).inv(),
            old(self).propagated(),
            old(self).assignment.lim_spec().len() > 0,
            old(self).assignment.lim_spec()[old(self).assignment.lim_spec().len() - 1] == old(self).assignment.trail_spec().len(),
            lit.var()@ < old(self).next_var,
            lit_value(old(self).assignment.values(), lit) == LBool::Undef,
        ensures
            final(self).inv(),
            final(self).assignment.lim_spec() == old(self).assignment.lim_spec(),
            final(self).assignment.trail_spec() == old(self).assignment.trail_spec().push(lit),
            final(self).assignment.data() == old(self).assignment.data().update(
                lit.var()@ as int,
                VarData::new_spec(None, old(self).assignment.lim_spec().len()),
            ),
            final(self).assignment.values() == old(self).assignment.values().update(lit.var()@ as int, lbool_of(!lit.negated())),
            lit_value(final(self).assignment.values(), lit) == LBool::True,
            final(self).ca == old(self).ca,
            final(self).db == old(self).db,
            final(self).next_var == old(self).next_var,
            final(self).ok == old(self).ok,
            final(self).events == old(self).events,
            old(self).watches_sound() ==> final(self).watches_sound(),
            forall|f: Seq<Seq<Lit>>| #[trigger] old(self).derived_from(f) ==> final(self).derived_from(f),
    {
        let ghost vals = self.assignment.values();
        let ghost data = self.assignment.data();
        let ghost t0 = self.assignment.trail_spec();
        self.assignment.unchecked_enqueue(lit, None);
        proof {
            crate::assignment::lemma_lim_len_bound(&self.assignment);
            lemma_enqueue_keeps_old_reasons(self.ca@, vals, data, t0, self.assignment.lim_spec(), self.assignment.qhead_spec(), lit, None);
            lemma_enqueue_keeps_decisions(vals, data, t0, self.assignment.lim_spec(), self.assignment.qhead_spec(), lit, None);
            if old(self).watches_sound() {
                assert(self.assignment.trail_spec().take(t0.len() as int) =~= t0);
                lemma_complete_assign(
                    self.ca@,
                    vals,
                    data,
                    t0,
                    self.assignment.values(),
                    self.assignment.data(),
                    self.assignment.trail_spec(),
                    self.assignment.qhead_spec() as int,
                    self.next_var as nat,
                );
            }
            assert forall|f: Seq<Seq<Lit>>| #[trigger] old(self).derived_from(f) implies self.derived_from(f) by {
                assert forall|i: int| 0 <= i < old(self).ground_len() implies #[trigger] self.trail()[i] == old(self).trail()[i] by {
                    assert(self.trail() == old(self).trail().push(lit));
                }
                Solver::lemma_derived_same_ground(&*old(self), &*self, f);
            }
        }
    }
}

impl Solver {
    /// Handles watch `w` of `false_literal` (its clause not deleted, its blocker not true):
    /// moves `false_literal` to position 1 of the clause, then keeps the watch if the first
    /// literal is true, moves it to a non-false literal if there is one, and otherwise
    /// assigns the first literal (unit) or records the clause as a conflict. `rest` stands for
    /// the watches of `false_literal` not gone through yet.
    #[verifier::spinoff_prover]
    #[verifier::rlimit(100)]
    fn propagate_watch(
        &mut self,
        w: Watcher,
        false_literal: Lit,
        kept: &mut Vec<Watcher>,
        conflict: &mut Option<ClauseRef>,
        Ghost(rest): Ghost<Seq<Watcher>>,
        Ghost(sound): Ghost<bool>,
    )
        requires
            old(self).inv_core(),
            w.cref_spec()@ < old(self).ca@.len(),
            !old(self).ca@[w.cref_spec()@ as int].deleted_spec(),
            w.blocker_spec().var()@ < old(self).next_var,
            lit_value(old(self).assignment.values(), w.blocker_spec()) != LBool::True,
            false_literal.var()@ < old(self).next_var,
            lit_value(old(self).assignment.values(), false_literal) == LBool::False,
            (false_literal@ as int) < old(self).watchlist.lists().len(),
            old(self).watchlist.lists()[false_literal@ as int] == Seq::<Watcher>::empty(),
            forall|k: int| 0 <= k < old(kept)@.len() ==> watch_ok(#[trigger] old(kept)@[k], old(self).ca@.len(), old(self).next_var as nat),
            forall|k: int| 0 <= k < rest.len() ==> watch_ok(#[trigger] rest[k], old(self).ca@.len(), old(self).next_var as nat),
            *old(conflict) is None,
            clauses_watched_except(
                old(self).ca@,
                old(self).watchlist.lists().update(false_literal@ as int, old(kept)@.push(w) + rest),
                -1,
            ),
            blocker_ok(old(self).ca@, w, old(self).assignment.values(), old(self).assignment.data()),
            forall|k: int|
                0 <= k < old(kept)@.len() ==> blocker_ok(old(self).ca@, #[trigger] old(kept)@[k], old(self).assignment.values(), old(self).assignment.data()),
            forall|k: int| 0 <= k < rest.len() ==> blocker_ok(old(self).ca@, #[trigger] rest[k], old(self).assignment.values(), old(self).assignment.data()),
            old(self).assignment.data()[false_literal.var()@ as int].level_spec() == old(self).assignment.lim_spec().len(),
            sound ==> watches_complete(
                old(self).ca@,
                old(self).assignment.values(),
                old(self).assignment.data(),
                old(self).assignment.trail_spec(),
                old(self).assignment.qhead_spec() - 1,
            ),
            sound ==> fl_handled(
                old(self).ca@,
                old(self).assignment.values(),
                old(self).assignment.data(),
                old(self).assignment.lim_spec().len(),
                false_literal,
                old(kept)@,
                seq![w] + rest,
            ),
        ensures
            final(self).inv_core(),
            forall|k: int| 0 <= k < final(kept)@.len() ==> watch_ok(#[trigger] final(kept)@[k], final(self).ca@.len(), final(self).next_var as nat),
            clauses_watched_except(
                final(self).ca@,
                final(self).watchlist.lists().update(false_literal@ as int, final(kept)@ + rest),
                -1,
            ),
            forall|k: int|
                0 <= k < final(kept)@.len() ==> blocker_ok(
                    final(self).ca@,
                    #[trigger] final(kept)@[k],
                    final(self).assignment.values(),
                    final(self).assignment.data(),
                ),
            forall|k: int|
                0 <= k < rest.len() ==> blocker_ok(final(self).ca@, #[trigger] rest[k], final(self).assignment.values(), final(self).assignment.data()),
            assigned_kept(old(self).assignment.values(), old(self).assignment.data(), final(self).assignment.values(), final(self).assignment.data()),
            sound ==> watches_complete(
                final(self).ca@,
                final(self).assignment.values(),
                final(self).assignment.data(),
                final(self).assignment.trail_spec(),
                old(self).assignment.qhead_spec() - 1,
            ),
            sound && *final(conflict) is None ==> fl_handled(
                final(self).ca@,
                final(self).assignment.values(),
                final(self).assignment.data(),
                old(self).assignment.lim_spec().len(),
                false_literal,
                final(kept)@,
                rest,
            ),
            final(self).watchlist.lists()[false_literal@ as int] == Seq::<Watcher>::empty(),
            final(self).ca@.len() == old(self).ca@.len(),
            forall|c: int| 0 <= c < old(self).ca@.len() ==> (#[trigger] final(self).ca@[c]).learnt_spec() == old(self).ca@[c].learnt_spec()
                && final(self).ca@[c].deleted_spec() == old(self).ca@[c].deleted_spec()
                && final(self).ca@[c]@.to_multiset() == old(self).ca@[c]@.to_multiset(),
            final(self).db == old(self).db,
            final(self).next_var == old(self).next_var,
            final(self).ok == old(self).ok,
            final(self).assignment.lim_spec() == old(self).assignment.lim_spec(),
            final(self).assignment.trail_spec().take(old(self).assignment.trail_spec().len() as int) == old(self).assignment.trail_spec(),
            final(self).polarity == old(self).polarity,
            final(self).events == old(self).events,
            final(self).conflicts == old(self).conflicts,
            final(self).decisions == old(self).decisions,
            final(self).restarts == old(self).restarts,
            final(self).simplifies == old(self).simplifies,
            final(self).reduces == old(self).reduces,
            lit_value(final(self).assignment.values(), false_literal) == LBool::False,
            final(self).assignment.values().len() == old(self).assignment.values().len(),
            forall|v: int| 0 <= v < old(self).assignment.values().len() && old(self).assignment.values()[v] != LBool::Undef
                ==> #[trigger] final(self).assignment.values()[v] == old(self).assignment.values()[v],
            *final(conflict) is None ==> final(self).assignment.qhead_spec() == old(self).assignment.qhead_spec(),
            final(self).assignment.qhead_spec() >= old(self).assignment.qhead_spec(),
            final(self).assignment.trail_spec().len() >= old(self).assignment.trail_spec().len(),
            *final(conflict) matches Some(c) ==> final(self).ca@[c@ as int]@[1] == false_literal,
            reasons_from(final(self).assignment.data(), final(self).assignment.trail_spec(), old(self).assignment.trail_spec().len() as int),
            live_reasons_from(final(self).ca@, final(self).assignment.data(), final(self).assignment.trail_spec(), old(self).assignment.trail_spec().len() as int),
            *final(conflict) matches Some(c) ==> c@ < final(self).ca@.len() && !final(self).ca@[c@ as int].deleted_spec(),
            *final(conflict) matches Some(c) ==> c == w.cref_spec() && final(self).assignment.qhead_spec() == final(self).assignment.trail_spec().len()
                && forall|k: int| 0 <= k < final(self).ca@[c@ as int]@.len() ==> lit_value(final(self).assignment.values(), #[trigger] final(self).ca@[c@ as int]@[k]) == LBool::False,
    {
        proof {
            reveal(live_reasons_from);
        }
        let cref = w.cref();
        let blocker = w.blocker();
        let ghost c = cref@ as int;
        let ghost n = self.next_var as nat;
        let ghost cl0 = self.ca@[c]@;
        let ghost vals = self.assignment.values();
        let ghost data = self.assignment.data();
        let ghost t = self.assignment.trail_spec();
        let ghost fli = false_literal@ as int;
        let ghost lists0 = self.watchlist.lists();
        let ghost lvl = self.assignment.lim_spec().len();
        let ghost qm = self.assignment.qhead_spec() - 1;
        let ghost ca0 = self.ca@;
        let ghost v0 = lists0.update(fli, kept@.push(w) + rest);
        proof {
            assert(lits_in_range(cl0, n) && cl0.len() >= 2);
        }
        let c0 = self.ca.clause(cref).get(0);
        if c0 == false_literal {
            proof {
                lemma_not_reason(self.ca@, vals, data, t, cref);
            }
            let c1 = self.ca.clause(cref).get(1);
            self.ca.set_lit(cref, 0, c1);
            self.ca.set_lit(cref, 1, false_literal);
            proof {
                lemma_swap_to_multiset(cl0, 0, 1);
                assert(self.ca@[c]@ =~= cl0.update(0, cl0[1]).update(1, cl0[0]));
                assert(self.ca@ =~= old(self).ca@.update(c, self.ca@[c]));
                lemma_clause_change_keeps(old(self).ca@, self.ca@, vals, data, t, self.watchlist.lists(), n, cref);
            }
        }
        let ghost ca1 = self.ca@;
        let ghost cl1 = ca1[c]@;
        proof {
            if c0 != false_literal {
                assert(ca1 =~= ca0.update(c, ca1[c]));
            }
            lemma_perm_contains(cl0, cl1);
            if sound {
                lemma_complete_clause_change(ca0, ca1, vals, data, t, qm, c, n);
            }
            lemma_watched_firsts(ca0, ca1, v0, c);
            lemma_blockers_perm(ca0, ca1, lists0, vals, data, c, n);
            lemma_blocker_perm(ca0, ca1, w, vals, data, c);
            assert forall|k: int| 0 <= k < kept@.len() implies blocker_ok(ca1, #[trigger] kept@[k], vals, data) by {
                lemma_blocker_perm(ca0, ca1, kept@[k], vals, data, c);
            }
            assert forall|k: int| 0 <= k < rest.len() implies blocker_ok(ca1, #[trigger] rest[k], vals, data) by {
                lemma_blocker_perm(ca0, ca1, rest[k], vals, data, c);
            }
            if sound {
                lemma_fl_handled_perm(ca0, ca1, vals, data, lvl, false_literal, kept@, w, rest, c, n);
            }
        }
        let c1 = self.ca.clause(cref).get(1);
        if c1 != false_literal {
            kept.push(w);
            proof {
                assert(ca1 == ca0);
                assert(kept@ + rest == old(kept)@.push(w) + rest);
                if sound {
                    lemma_fl_handled_keep(ca1, vals, data, lvl, false_literal, old(kept)@, w, w, rest, c, n);
                }
            }
            return;
        }
        let first = self.ca.clause(cref).get(0);
        if first != blocker && self.assignment.value(first) == LBool::True {
            let w2 = Watcher::new(cref, first);
            kept.push(w2);
            proof {
                assert(cl1.contains(first));
                assert(blocker_ok(ca1, w2, vals, data));
                lemma_watched_replace(ca1, lists0, fli, old(kept)@, w, w2, rest, n);
                lemma_level_bound(&self.assignment, first);
                assert(satisfied_by_level(cl1, vals, data, lvl)) by {
                    assert(lit_value(vals, cl1[0]) == LBool::True);
                }
                if sound {
                    lemma_fl_handled_keep(ca1, vals, data, lvl, false_literal, old(kept)@, w, w2, rest, c, n);
                }
            }
            return;
        }
        proof {
            assert(lit_value(vals, first) != LBool::True);
            lemma_not_reason(self.ca@, vals, data, t, cref);
        }
        match self.find_non_false(cref) {
            Some(k) => {
                let other = self.ca.clause(cref).get(k);
                let ghost mid_ca = self.ca@;
                self.ca.set_lit(cref, 1, other);
                self.ca.set_lit(cref, k, false_literal);
                proof {
                    lemma_swap_to_multiset(cl1, 1, k as int);
                    assert(self.ca@[c]@ =~= cl1.update(1, cl1[k as int]).update(k as int, cl1[1]));
                    assert(self.ca@ =~= mid_ca.update(c, self.ca@[c]));
                    lemma_clause_change_keeps(mid_ca, self.ca@, vals, data, t, self.watchlist.lists(), n, cref);
                    crate::lit::lemma_lit_var_view(other);
                    lemma_lit_slot(other, n);
                    assert(other != false_literal);
                    Lit::lemma_view_injective(other, false_literal);
                }
                let ghost before_lists = self.watchlist.lists();
                let w3 = Watcher::new(cref, first);
                self.watchlist.insert(other, w3);
                proof {
                    let lists = self.watchlist.lists();
                    let ca2 = self.ca@;
                    assert(lists[false_literal@ as int] == before_lists[false_literal@ as int]);
                    assert forall|l: int, kk: int| 0 <= l < lists.len() && 0 <= kk < lists[l].len() implies watch_ok(#[trigger] lists[l][kk], self.ca@.len(), n) by {
                        if l == other@ as int && kk == before_lists[l].len() {
                        } else {
                            assert(lists[l][kk] == before_lists[l][kk]);
                        }
                    }
                    lemma_perm_contains(cl1, ca2[c]@);
                    if sound {
                        lemma_complete_clause_change(ca1, ca2, vals, data, t, qm, c, n);
                    }
                    lemma_blockers_perm(ca1, ca2, lists0, vals, data, c, n);
                    assert(ca2[c]@.contains(first)) by {
                        assert(ca2[c]@[0] == first);
                    }
                    assert forall|l: int, kk: int| 0 <= l < lists.len() && 0 <= kk < lists[l].len() implies blocker_ok(ca2, #[trigger] lists[l][kk], vals, data) by {
                        if l == other@ as int && kk == before_lists[l].len() {
                        } else {
                            assert(lists[l][kk] == lists0[l][kk]);
                        }
                    }
                    assert forall|kk: int| 0 <= kk < kept@.len() implies blocker_ok(ca2, #[trigger] kept@[kk], vals, data) by {
                        lemma_blocker_perm(ca1, ca2, kept@[kk], vals, data, c);
                    }
                    assert forall|kk: int| 0 <= kk < rest.len() implies blocker_ok(ca2, #[trigger] rest[kk], vals, data) by {
                        lemma_blocker_perm(ca1, ca2, rest[kk], vals, data, c);
                    }
                    lemma_watched_move(ca1, ca2, lists0, false_literal, kept@, w, rest, other, w3, c, n);
                    if sound {
                        lemma_fl_handled_move(ca1, ca2, lists0, vals, data, lvl, false_literal, kept@, w, rest, other, w3, c, n);
                    }
                }
            },
            None => {
                let w2 = Watcher::new(cref, first);
                kept.push(w2);
                proof {
                    assert(cl1.contains(first));
                    assert(blocker_ok(ca1, w2, vals, data));
                    lemma_watched_replace(ca1, lists0, fli, old(kept)@, w, w2, rest, n);
                }
                match self.assignment.value(first) {
                    LBool::Undef => {
                        proof {
                            assert forall|k: int| 1 <= k < cl1.len() implies lit_value(vals, #[trigger] cl1[k]) == LBool::False by {}
                        }
                        self.assignment.unchecked_enqueue(first, Some(cref));
                        proof {
                            VarData::lemma_new_spec(Some(cref), self.assignment.lim_spec().len());
                            assert(self.assignment.trail_spec()[t.len() as int] == first);
                            lemma_enqueue_keeps_reasons(self.ca@, vals, data, t, self.assignment.lim_spec(), old(self).assignment.qhead_spec(), first, cref);
                            assert(self.assignment.trail_spec().take(t.len() as int) =~= t);
                            crate::assignment::lemma_lim_len_bound(&self.assignment);
                            lemma_enqueue_keeps_decisions(vals, data, t, self.assignment.lim_spec(), old(self).assignment.qhead_spec(), first, Some(cref));
                            let vals1 = self.assignment.values();
                            let data1 = self.assignment.data();
                            lemma_fixed_keeps_blockers(ca1, lists0, vals, data, vals1, data1);
                            assert forall|kk: int| 0 <= kk < kept@.len() implies blocker_ok(ca1, #[trigger] kept@[kk], vals1, data1) by {
                                lemma_fixed_keeps_blocker(ca1, kept@[kk], vals, data, vals1, data1);
                            }
                            assert forall|kk: int| 0 <= kk < rest.len() implies blocker_ok(ca1, #[trigger] rest[kk], vals1, data1) by {
                                lemma_fixed_keeps_blocker(ca1, rest[kk], vals, data, vals1, data1);
                            }
                            assert forall|i: int| 0 <= i < t.len() implies lit_value(vals, #[trigger] t[i]) == LBool::True && t[i].var()@ < n by {}
                            if sound {
                                lemma_complete_assign(ca1, vals, data, t, vals1, data1, self.assignment.trail_spec(), qm, n);
                                lemma_fl_handled_assign(ca1, vals, data, vals1, data1, lvl, false_literal, old(kept)@, seq![w] + rest, n);
                                assert(satisfied_by_level(cl1, vals1, data1, lvl)) by {
                                    assert(lit_value(vals1, cl1[0]) == LBool::True);
                                }
                                lemma_fl_handled_keep(ca1, vals1, data1, lvl, false_literal, old(kept)@, w, w2, rest, c, n);
                            }
                        }
                    },
                    LBool::False => {
                        *conflict = Some(cref);
                        self.assignment.skip_propagation();
                    },
                    LBool::True => {},
                }
            },
        }
    }

    /// The first position from 2 on holding a literal that is not false, if any.
    fn find_non_false(&self, cref: ClauseRef) -> (res: Option<usize>)
        requires
            self.inv_core(),
            cref@ < self.ca@.len(),
        ensures
            res matches Some(k) ==> 2 <= k < self.ca@[cref@ as int]@.len() && lit_value(self.assignment.values(), self.ca@[cref@ as int]@[k as int]) != LBool::False,
            res is None ==> forall|j: int| 2 <= j < self.ca@[cref@ as int]@.len() ==> lit_value(self.assignment.values(), #[trigger] self.ca@[cref@ as int]@[j]) == LBool::False,
    {
        let ghost cl = self.ca@[cref@ as int]@;
        proof {
            assert(lits_in_range(cl, self.next_var as nat));
        }
        let len = self.ca.clause(cref).len();
        let mut k: usize = 2;
        while k < len
            invariant
                2 <= k <= len,
                len == cl.len(),
                cref@ < self.ca@.len(),
                cl == self.ca@[cref@ as int]@,
                self.inv_core(),
                lits_in_range(cl, self.next_var as nat),
                forall|j: int| 2 <= j < k ==> lit_value(self.assignment.values(), #[trigger] cl[j]) == LBool::False,
            decreases len - k,
        {
            let other = self.ca.clause(cref).get(k);
            if self.assignment.value(other) != LBool::False {
                return Some(k);
            }
            k = k + 1;
        }
        None
    }
}

/// A clause whose first literal is not true is nobody's reason.
proof fn lemma_not_reason(ca: Seq<Clause>, values: Seq<LBool>, data: Seq<VarData>, trail: Seq<Lit>, cref: ClauseRef)
    requires
        reasons_ok(ca, values, data, trail),
        trail_wf_values(values, trail),
        cref@ < ca.len(),
        ca[cref@ as int]@.len() >= 1,
        lit_value(values, ca[cref@ as int]@[0]) != LBool::True,
    ensures
        forall|i: int| 0 <= i < trail.len() ==> data[(#[trigger] trail[i]).var()@ as int].reason_spec() != Some(cref),
{
    assert forall|i: int| 0 <= i < trail.len() implies data[(#[trigger] trail[i]).var()@ as int].reason_spec() != Some(cref) by {
        assert(reason_ok(ca, values, data, trail, i));
    }
}

/// Every trail literal is true.
pub open spec fn trail_wf_values(values: Seq<LBool>, trail: Seq<Lit>) -> bool {
    forall|i: int| 0 <= i < trail.len() ==> lit_value(values, #[trigger] trail[i]) == LBool::True
}

/// Changing the literals of a clause that is nobody's reason, into at least two in-range
/// literals, keeps the clause invariants.
proof fn lemma_clause_change_keeps(
    ca0: Seq<Clause>,
    ca1: Seq<Clause>,
    values: Seq<LBool>,
    data: Seq<VarData>,
    trail: Seq<Lit>,
    lists: Seq<Seq<Watcher>>,
    n: nat,
    cref: ClauseRef,
)
    requires
        arena_wf(ca0, n),
        watches_ok(lists, ca0.len(), n),
        reasons_ok(ca0, values, data, trail),
        cref@ < ca0.len(),
        ca1 == ca0.update(cref@ as int, ca1[cref@ as int]),
        ca1[cref@ as int]@.to_multiset() == ca0[cref@ as int]@.to_multiset(),
        ca1[cref@ as int]@.len() == ca0[cref@ as int]@.len(),
        forall|i: int| 0 <= i < trail.len() ==> data[(#[trigger] trail[i]).var()@ as int].reason_spec() != Some(cref),
    ensures
        arena_wf(ca1, n),
        watches_ok(lists, ca1.len(), n),
        reasons_ok(ca1, values, data, trail),
{
    let c = cref@ as int;
    assert forall|x: int| 0 <= x < ca1.len() implies (#[trigger] ca1[x])@.len() >= 2 && lits_in_range(ca1[x]@, n) by {
        if x == c {
            assert forall|k: int| 0 <= k < ca1[c]@.len() implies (#[trigger] ca1[c]@[k]).var()@ < n by {
                let l = ca1[c]@[k];
                ca1[c]@.to_multiset_ensures();
                ca0[c]@.to_multiset_ensures();
                assert(ca1[c]@.contains(l));
                assert(ca1[c]@.to_multiset().count(l) > 0);
                assert(ca0[c]@.to_multiset().count(l) > 0);
                assert(ca0[c]@.contains(l));
                let j = choose|j: int| 0 <= j < ca0[c]@.len() && ca0[c]@[j] == l;
                assert(lits_in_range(ca0[c]@, n));
            }
        }
    }
    assert forall|i: int| 0 <= i < trail.len() implies #[trigger] reason_ok(ca1, values, data, trail, i) by {
        assert(reason_ok(ca0, values, data, trail, i));
        match data[trail[i].var()@ as int].reason_spec() {
            None => {},
            Some(r) => {
                assert(r != cref);
                if r@ == cref@ {
                    ClauseRef::lemma_view_injective(r, cref);
                }
                assert(ca1[r@ as int] == ca0[r@ as int]);
            },
        }
    }
}

/// Assigning an unassigned literal with a reason clause whose other literals are false
/// keeps every reason sound.
proof fn lemma_enqueue_keeps_reasons(
    ca: Seq<Clause>,
    values: Seq<LBool>,
    data: Seq<VarData>,
    trail: Seq<Lit>,
    lim: Seq<usize>,
    qhead: nat,
    first: Lit,
    cref: ClauseRef,
)
    requires
        reasons_ok(ca, values, data, trail),
        trail_wf(values, data, trail, lim, qhead),
        first.var()@ < values.len(),
        lit_value(values, first) == LBool::Undef,
        cref@ < ca.len(),
        ca[cref@ as int]@.len() >= 2,
        ca[cref@ as int]@[0] == first,
        lits_in_range(ca[cref@ as int]@, values.len()),
        forall|k: int| 1 <= k < ca[cref@ as int]@.len() ==> lit_value(values, #[trigger] ca[cref@ as int]@[k]) == LBool::False,
    ensures
        reasons_ok(
            ca,
            values.update(first.var()@ as int, lbool_of(!first.negated())),
            data.update(first.var()@ as int, VarData::new_spec(Some(cref), lim.len())),
            trail.push(first),
        ),
{
    let v1 = values.update(first.var()@ as int, lbool_of(!first.negated()));
    let d1 = data.update(first.var()@ as int, VarData::new_spec(Some(cref), lim.len()));
    let t1 = trail.push(first);
    let fv = first.var()@;
    assert forall|i: int| 0 <= i < t1.len() implies #[trigger] reason_ok(ca, v1, d1, t1, i) by {
        if i < trail.len() {
            assert(t1[i] == trail[i]);
            assert(reason_ok(ca, values, data, trail, i));
            assert(lit_value(values, trail[i]) == LBool::True);
            assert(trail[i].var()@ != fv);
            assert(d1[trail[i].var()@ as int] == data[trail[i].var()@ as int]);
            match data[trail[i].var()@ as int].reason_spec() {
                None => {},
                Some(r) => {
                    assert forall|k: int| 1 <= k < ca[r@ as int]@.len() implies lit_value(v1, #[trigger] ca[r@ as int]@[k]) == LBool::False
                        && var_on_trail_before(t1, ca[r@ as int]@[k].var()@, i) by {
                        let l = ca[r@ as int]@[k];
                        assert(lit_value(values, l) == LBool::False);
                        assert(l.var()@ != fv);
                        assert(var_on_trail_before(trail, l.var()@, i));
                        let j = choose|j: int| 0 <= j < i && (#[trigger] trail[j]).var()@ == l.var()@;
                        assert(t1[j] == trail[j]);
                    }
                },
            }
        } else {
            assert(t1[i] == first);
            VarData::lemma_new_spec(Some(cref), lim.len());
            assert(d1[fv as int].reason_spec() == Some(cref));
            assert forall|k: int| 1 <= k < ca[cref@ as int]@.len() implies lit_value(v1, #[trigger] ca[cref@ as int]@[k]) == LBool::False
                && var_on_trail_before(t1, ca[cref@ as int]@[k].var()@, i) by {
                let l = ca[cref@ as int]@[k];
                assert(lit_value(values, l) == LBool::False);
                assert(l.var()@ != fv);
                assert(values[l.var()@ as int] != LBool::Undef);
                assert(var_on_trail_before(trail, l.var()@, trail.len() as int));
                let j = choose|j: int| 0 <= j < trail.len() && (#[trigger] trail[j]).var()@ == l.var()@;
                assert(t1[j] == trail[j]);
            }
        }
    }
}

/// Assigning an unassigned literal keeps every reasonless literal above level 0 at the start
/// of its level, when the literal has a reason or starts the current level.
proof fn lemma_enqueue_keeps_decisions(
    values: Seq<LBool>,
    data: Seq<VarData>,
    trail: Seq<Lit>,
    lim: Seq<usize>,
    qhead: nat,
    lit: Lit,
    reason: Option<ClauseRef>,
)
    requires
        decisions_ok(data, trail, lim),
        trail_wf(values, data, trail, lim, qhead),
        lit.var()@ < values.len(),
        lit_value(values, lit) == LBool::Undef,
        reason is Some || lim.len() == 0 || lim[lim.len() - 1] == trail.len(),
        lim.len() <= usize::MAX,
    ensures
        decisions_ok(
            data.update(lit.var()@ as int, VarData::new_spec(reason, lim.len())),
            trail.push(lit),
            lim,
        ),
{
    let d1 = data.update(lit.var()@ as int, VarData::new_spec(reason, lim.len()));
    let t1 = trail.push(lit);
    VarData::lemma_new_spec(reason, lim.len());
    assert forall|i: int|
        0 <= i < t1.len() && (#[trigger] d1[t1[i].var()@ as int]).reason_spec() is None
            && d1[t1[i].var()@ as int].level_spec() > 0 implies i == lim[d1[t1[i].var()@ as int].level_spec() - 1] by {
        if i < trail.len() {
            assert(t1[i] == trail[i]);
            assert(lit_value(values, trail[i]) == LBool::True);
            assert(trail[i].var()@ != lit.var()@);
        }
    }
}

/// Assigning an unassigned literal keeps the reasons of the literals already on the trail
/// sound, and a literal assigned without reason needs none.
proof fn lemma_enqueue_keeps_old_reasons(
    ca: Seq<Clause>,
    values: Seq<LBool>,
    data: Seq<VarData>,
    trail: Seq<Lit>,
    lim: Seq<usize>,
    qhead: nat,
    lit: Lit,
    reason: Option<ClauseRef>,
)
    requires
        reasons_ok(ca, values, data, trail),
        trail_wf(values, data, trail, lim, qhead),
        lit.var()@ < values.len(),
        lit_value(values, lit) == LBool::Undef,
        reason is None,
    ensures
        reasons_ok(
            ca,
            values.update(lit.var()@ as int, lbool_of(!lit.negated())),
            data.update(lit.var()@ as int, VarData::new_spec(reason, lim.len())),
            trail.push(lit),
        ),
{
    let v1 = values.update(lit.var()@ as int, lbool_of(!lit.negated()));
    let d1 = data.update(lit.var()@ as int, VarData::new_spec(reason, lim.len()));
    let t1 = trail.push(lit);
    let fv = lit.var()@;
    VarData::lemma_new_spec(reason, lim.len());
    assert forall|i: int| 0 <= i < t1.len() implies #[trigger] reason_ok(ca, v1, d1, t1, i) by {
        if i < trail.len() {
            assert(t1[i] == trail[i]);
            assert(reason_ok(ca, values, data, trail, i));
            assert(lit_value(values, trail[i]) == LBool::True);
            assert(trail[i].var()@ != fv);
            match data[trail[i].var()@ as int].reason_spec() {
                None => {},
                Some(r) => {
                    assert forall|k: int| 1 <= k < ca[r@ as int]@.len() implies lit_value(v1, #[trigger] ca[r@ as int]@[k]) == LBool::False
                        && var_on_trail_before(t1, ca[r@ as int]@[k].var()@, i) by {
                        let l = ca[r@ as int]@[k];
                        assert(lit_value(values, l) == LBool::False);
                        assert(l.var()@ != fv);
                        let j = choose|j: int| 0 <= j < i && (#[trigger] trail[j]).var()@ == l.var()@;
                        assert(t1[j] == trail[j]);
                    }
                },
            }
        }
    }
}

/// Appending a clause with at least two in-range literals keeps the clause invariants.
proof fn lemma_push_clause_keeps(
    ca0: Seq<Clause>,
    ca1: Seq<Clause>,
    values: Seq<LBool>,
    data: Seq<VarData>,
    trail: Seq<Lit>,
    lists: Seq<Seq<Watcher>>,
    n: nat,
)
    requires
        arena_wf(ca0, n),
        watches_ok(lists, ca0.len(), n),
        reasons_ok(ca0, values, data, trail),
        ca1.len() == ca0.len() + 1,
        forall|c: int| 0 <= c < ca0.len() ==> ca1[c] == ca0[c],
        ca1[ca0.len() as int]@.len() >= 2,
        lits_in_range(ca1[ca0.len() as int]@, n),
    ensures
        arena_wf(ca1, n),
        watches_ok(lists, ca1.len(), n),
        reasons_ok(ca1, values, data, trail),
{
    assert forall|x: int| 0 <= x < ca1.len() implies (#[trigger] ca1[x])@.len() >= 2 && lits_in_range(ca1[x]@, n) by {
        if x < ca0.len() {
            assert(ca1[x] == ca0[x]);
        }
    }
    assert forall|i: int| 0 <= i < trail.len() implies #[trigger] reason_ok(ca1, values, data, trail, i) by {
        assert(reason_ok(ca0, values, data, trail, i));
        match data[trail[i].var()@ as int].reason_spec() {
            None => {},
            Some(r) => {
                assert(ca1[r@ as int] == ca0[r@ as int]);
            },
        }
    }
    let ll = lists;
    assert forall|l: int, k: int| 0 <= l < ll.len() && 0 <= k < ll[l].len() implies watch_ok(#[trigger] ll[l][k], ca1.len(), n) by {
        assert(watch_ok(ll[l][k], ca0.len(), n));
    }
}

/// Assignments that keep every fixed variable keep every blocker sound.
proof fn lemma_fixed_keeps_blockers(
    ca: Seq<Clause>,
    lists: Seq<Seq<Watcher>>,
    values0: Seq<LBool>,
    data0: Seq<VarData>,
    values1: Seq<LBool>,
    data1: Seq<VarData>,
)
    requires
        blockers_ok(ca, lists, values0, data0),
        fixed_kept(values0, data0, values1, data1),
        watches_ok(lists, ca.len(), values0.len()),
    ensures
        blockers_ok(ca, lists, values1, data1),
{
    assert forall|l: int, k: int| 0 <= l < lists.len() && 0 <= k < lists[l].len() implies blocker_ok(ca, #[trigger] lists[l][k], values1, data1) by {
        let w = lists[l][k];
        assert(blocker_ok(ca, w, values0, data0));
        assert(watch_ok(w, ca.len(), values0.len()));
        let u = w.blocker_spec().var()@;
        if values0[u as int] != LBool::Undef && data0[u as int].level_spec() == 0 {
            assert(values1[u as int] == values0[u as int]);
        }
    }
}

/// Appending a clause keeps the watches of the other clauses and their blockers.
proof fn lemma_push_clause_watched(
    ca0: Seq<Clause>,
    ca1: Seq<Clause>,
    lists: Seq<Seq<Watcher>>,
    values: Seq<LBool>,
    data: Seq<VarData>,
    n: nat,
)
    requires
        clauses_watched_except(ca0, lists, -1),
        blockers_ok(ca0, lists, values, data),
        watches_ok(lists, ca0.len(), n),
        ca1.len() == ca0.len() + 1,
        forall|c: int| 0 <= c < ca0.len() ==> ca1[c] == ca0[c],
    ensures
        clauses_watched_except(ca1, lists, ca0.len() as int),
        blockers_ok(ca1, lists, values, data),
{
    assert forall|c: int| 0 <= c < ca1.len() && c != ca0.len() && !(#[trigger] ca1[c]).deleted_spec() implies clause_watched(ca1, lists, c) by {
        assert(ca1[c] == ca0[c]);
        assert(clause_watched(ca0, lists, c));
    }
    assert forall|l: int, k: int| 0 <= l < lists.len() && 0 <= k < lists[l].len() implies blocker_ok(ca1, #[trigger] lists[l][k], values, data) by {
        assert(blocker_ok(ca0, lists[l][k], values, data));
        assert(watch_ok(lists[l][k], ca0.len(), n));
    }
}

/// Shrinking clauses (see [`shrunk`]) with their first literal in place, and deleting
/// clauses, keeps the watches and the blockers.
proof fn lemma_shrink_keeps_watches(ca0: Seq<Clause>, ca1: Seq<Clause>, lists: Seq<Seq<Watcher>>, a: &Assignment, n: nat)
    requires
        clauses_watched_except(ca0, lists, -1),
        blockers_ok(ca0, lists, a.values(), a.data()),
        watches_ok(lists, ca0.len(), n),
        ca1.len() == ca0.len(),
        forall|c: int|
            0 <= c < ca0.len() ==> {
                &&& (#[trigger] ca1[c])@[0] == ca0[c]@[0]
                &&& shrunk(ca1[c]@, ca0[c]@, a)
                &&& ca0[c].deleted_spec() ==> ca1[c].deleted_spec()
            },
    ensures
        clauses_watched_except(ca1, lists, -1),
        blockers_ok(ca1, lists, a.values(), a.data()),
{
    assert forall|c: int| 0 <= c < ca1.len() && c != -1 && !(#[trigger] ca1[c]).deleted_spec() implies clause_watched(ca1, lists, c) by {
        assert(clause_watched(ca0, lists, c));
        assert(ca1[c]@[0] == ca0[c]@[0]);
        assert(shrunk(ca1[c]@, ca0[c]@, a));
    }
    assert forall|l: int, k: int| 0 <= l < lists.len() && 0 <= k < lists[l].len() implies blocker_ok(ca1, #[trigger] lists[l][k], a.values(), a.data()) by {
        let w = lists[l][k];
        assert(blocker_ok(ca0, w, a.values(), a.data()));
        assert(watch_ok(w, ca0.len(), n));
        let c = w.cref_spec()@ as int;
        assert(shrunk(ca1[c]@, ca0[c]@, a));
    }
}

/// Pushing a watch adds one to the count of its clause.
proof fn lemma_count_push(ws: Seq<Watcher>, w: Watcher, c: int)
    ensures
        watch_count(ws.push(w), c) == watch_count(ws, c) + if w.cref_spec()@ == c {
            1nat
        } else {
            0nat
        },
{
    assert(ws.push(w).drop_last() =~= ws);
}

/// The watches of a concatenation are counted part by part.
proof fn lemma_count_add(a: Seq<Watcher>, b: Seq<Watcher>, c: int)
    ensures
        watch_count(a + b, c) == watch_count(a, c) + watch_count(b, c),
    decreases b.len(),
{
    if b.len() == 0 {
        assert(a + b =~= a);
    } else {
        lemma_count_add(a, b.drop_last(), c);
        assert((a + b).drop_last() =~= a + b.drop_last());
        assert((a + b).last() == b.last());
    }
}

/// A clause satisfied at a level stays so when assigned variables keep their values and
/// data and no literal is lost.
proof fn lemma_satisfied_kept(
    cl0: Seq<Lit>,
    cl1: Seq<Lit>,
    values0: Seq<LBool>,
    data0: Seq<VarData>,
    values1: Seq<LBool>,
    data1: Seq<VarData>,
    lvl: nat,
)
    requires
        satisfied_by_level(cl0, values0, data0, lvl),
        lits_in_range(cl0, values0.len()),
        assigned_kept(values0, data0, values1, data1),
        forall|l: Lit| cl0.contains(l) ==> #[trigger] cl1.contains(l),
    ensures
        satisfied_by_level(cl1, values1, data1, lvl),
{
    let j = choose|j: int|
        0 <= j < cl0.len() && lit_value(values0, #[trigger] cl0[j]) == LBool::True && data0[cl0[j].var()@ as int].level_spec() <= lvl;
    let l = cl0[j];
    assert(cl0.contains(l));
    assert(cl1.contains(l));
    let j1 = choose|j1: int| 0 <= j1 < cl1.len() && cl1[j1] == l;
    let v = l.var()@ as int;
    assert(v < values0.len());
    assert(values0[v] != LBool::Undef);
    assert(values1[v] == values0[v]);
    assert(lit_value(values1, cl1[j1]) == LBool::True);
}

/// Changing one clause, keeping its literals and deletion mark and taking its first two
/// literals among the old first two or among the non-false literals, keeps propagation
/// complete.
proof fn lemma_complete_clause_change(
    ca0: Seq<Clause>,
    ca1: Seq<Clause>,
    values: Seq<LBool>,
    data: Seq<VarData>,
    trail: Seq<Lit>,
    p: int,
    x: int,
    n: nat,
)
    requires
        watches_complete(ca0, values, data, trail, p),
        arena_wf(ca0, n),
        values.len() == n,
        0 <= x < ca0.len(),
        ca1 == ca0.update(x, ca1[x]),
        ca1[x].deleted_spec() == ca0[x].deleted_spec(),
        ca1[x]@.len() >= 2,
        forall|l: Lit| ca0[x]@.contains(l) ==> #[trigger] ca1[x]@.contains(l),
        forall|k: int|
            0 <= k < 2 ==> #[trigger] ca1[x]@[k] == ca0[x]@[0] || ca1[x]@[k] == ca0[x]@[1] || lit_value(values, ca1[x]@[k])
                != LBool::False,
    ensures
        watches_complete(ca1, values, data, trail, p),
{
    assert forall|c: int, k: int|
        0 <= c < ca1.len() && 0 <= k < 2 && !ca1[c].deleted_spec() && lit_value(values, #[trigger] ca1[c]@[k]) == LBool::False
            && var_on_trail_before(trail, ca1[c]@[k].var()@, p) implies satisfied_by_level(
        ca1[c]@,
        values,
        data,
        data[ca1[c]@[k].var()@ as int].level_spec(),
    ) by {
        if c != x {
            assert(ca1[c] == ca0[c]);
            assert(lit_value(values, ca0[c]@[k]) == LBool::False);
        } else {
            let k0: int = if ca1[x]@[k] == ca0[x]@[0] { 0 } else { 1 };
            assert(ca0[x]@[k0] == ca1[x]@[k]);
            assert(lit_value(values, ca0[x]@[k0]) == LBool::False);
            assert(lits_in_range(ca0[x]@, n));
            assert(assigned_kept(values, data, values, data));
            lemma_satisfied_kept(ca0[x]@, ca1[x]@, values, data, values, data, data[ca1[c]@[k].var()@ as int].level_spec());
        }
    }
}

/// Extending the assignment (assigned variables keep their values and data, the trail only
/// grows) keeps propagation complete up to the same position.
proof fn lemma_complete_assign(
    ca: Seq<Clause>,
    values0: Seq<LBool>,
    data0: Seq<VarData>,
    trail0: Seq<Lit>,
    values1: Seq<LBool>,
    data1: Seq<VarData>,
    trail1: Seq<Lit>,
    p: int,
    n: nat,
)
    requires
        watches_complete(ca, values0, data0, trail0, p),
        arena_wf(ca, n),
        values0.len() == n,
        assigned_kept(values0, data0, values1, data1),
        trail1.len() >= trail0.len(),
        trail1.take(trail0.len() as int) == trail0,
        p <= trail0.len(),
        forall|i: int| 0 <= i < trail0.len() ==> lit_value(values0, #[trigger] trail0[i]) == LBool::True && trail0[i].var()@ < n,
    ensures
        watches_complete(ca, values1, data1, trail1, p),
{
    assert forall|c: int, k: int|
        0 <= c < ca.len() && 0 <= k < 2 && !ca[c].deleted_spec() && lit_value(values1, #[trigger] ca[c]@[k]) == LBool::False
            && var_on_trail_before(trail1, ca[c]@[k].var()@, p) implies satisfied_by_level(
        ca[c]@,
        values1,
        data1,
        data1[ca[c]@[k].var()@ as int].level_spec(),
    ) by {
        let v = ca[c]@[k].var()@;
        let j = choose|j: int| 0 <= j < p && (#[trigger] trail1[j]).var()@ == v;
        assert(trail1.take(trail0.len() as int)[j] == trail1[j]);
        assert(trail0[j] == trail1[j]);
        assert(lit_value(values0, trail0[j]) == LBool::True);
        assert(values0[v as int] != LBool::Undef);
        assert(values1[v as int] == values0[v as int]);
        assert(data1[v as int] == data0[v as int]);
        assert(var_on_trail_before(trail0, v, p));
        assert(lits_in_range(ca[c]@, n));
        lemma_satisfied_kept(ca[c]@, ca[c]@, values0, data0, values1, data1, data0[v as int].level_spec());
    }
}

/// Propagation complete up to a position is complete up to any earlier one.
pub proof fn lemma_complete_mono(ca: Seq<Clause>, values: Seq<LBool>, data: Seq<VarData>, trail: Seq<Lit>, p: int, p2: int)
    requires
        watches_complete(ca, values, data, trail, p),
        p2 <= p,
    ensures
        watches_complete(ca, values, data, trail, p2),
{
    assert forall|c: int, k: int|
        0 <= c < ca.len() && 0 <= k < 2 && !ca[c].deleted_spec() && lit_value(values, #[trigger] ca[c]@[k]) == LBool::False
            && var_on_trail_before(trail, ca[c]@[k].var()@, p2) implies satisfied_by_level(
        ca[c]@,
        values,
        data,
        data[ca[c]@[k].var()@ as int].level_spec(),
    ) by {
        let j = choose|j: int| 0 <= j < p2 && (#[trigger] trail[j]).var()@ == ca[c]@[k].var()@;
        assert(var_on_trail_before(trail, ca[c]@[k].var()@, p));
    }
}

/// Once every watch of `fl`, the negation of the trail literal at position `q - 1`, is gone
/// through, propagation is complete up to `q`.
proof fn lemma_fl_done(
    ca: Seq<Clause>,
    values: Seq<LBool>,
    data: Seq<VarData>,
    trail: Seq<Lit>,
    q: int,
    fl: Lit,
    kept: Seq<Watcher>,
)
    requires
        watches_complete(ca, values, data, trail, q - 1),
        fl_handled(ca, values, data, data[fl.var()@ as int].level_spec(), fl, kept, Seq::empty()),
        1 <= q <= trail.len(),
        trail[q - 1].var() == fl.var(),
        lit_value(values, trail[q - 1]) == LBool::True,
        lit_value(values, fl) == LBool::False,
    ensures
        watches_complete(ca, values, data, trail, q),
{
    assert forall|c: int, k: int|
        0 <= c < ca.len() && 0 <= k < 2 && !ca[c].deleted_spec() && lit_value(values, #[trigger] ca[c]@[k]) == LBool::False
            && var_on_trail_before(trail, ca[c]@[k].var()@, q) implies satisfied_by_level(
        ca[c]@,
        values,
        data,
        data[ca[c]@[k].var()@ as int].level_spec(),
    ) by {
        let l = ca[c]@[k];
        let j = choose|j: int| 0 <= j < q && (#[trigger] trail[j]).var()@ == l.var()@;
        if j < q - 1 {
            assert(var_on_trail_before(trail, l.var()@, q - 1));
        } else {
            Var::lemma_view_injective(l.var(), fl.var());
            assert(l.var() == fl.var());
            assert(l.negated() == fl.negated());
            Lit::lemma_var_negated_determine(l, fl);
            assert(l == fl);
            assert(watch_count(Seq::<Watcher>::empty(), c) == 0);
        }
    }
}

/// A positive count means some watch is on the clause.
proof fn lemma_count_pos(ws: Seq<Watcher>, c: int)
    requires
        watch_count(ws, c) > 0,
    ensures
        exists|j: int| 0 <= j < ws.len() && (#[trigger] ws[j]).cref_spec()@ == c,
    decreases ws.len(),
{
    if ws.last().cref_spec()@ == c {
        assert(ws[ws.len() - 1].cref_spec()@ == c);
    } else {
        lemma_count_pos(ws.drop_last(), c);
        let j = choose|j: int| 0 <= j < ws.drop_last().len() && (#[trigger] ws.drop_last()[j]).cref_spec()@ == c;
        assert(ws[j] == ws.drop_last()[j]);
    }
}

/// The watches of `kept`, then `w`, then `rest`, counted part by part.
proof fn lemma_count_split(kept: Seq<Watcher>, w: Watcher, rest: Seq<Watcher>, c: int)
    ensures
        watch_count(kept.push(w) + rest, c) == watch_count(kept, c) + watch_count(rest, c) + if w.cref_spec()@ == c {
            1nat
        } else {
            0nat
        },
        watch_count(seq![w] + rest, c) == watch_count(rest, c) + if w.cref_spec()@ == c {
            1nat
        } else {
            0nat
        },
        watch_count(kept + rest, c) == watch_count(kept, c) + watch_count(rest, c),
{
    lemma_count_add(kept.push(w), rest, c);
    lemma_count_push(kept, w, c);
    lemma_count_add(seq![w], rest, c);
    lemma_count_push(Seq::<Watcher>::empty(), w, c);
    assert(Seq::<Watcher>::empty().push(w) =~= seq![w]);
    lemma_count_add(kept, rest, c);
}

/// Replacing the watch list of literal `l` by one with at least as many watches of every
/// clause keeps every clause watched.
proof fn lemma_watched_update(ca: Seq<Clause>, lists: Seq<Seq<Watcher>>, l: int, s1: Seq<Watcher>, n: nat)
    requires
        clauses_watched_except(ca, lists, -1),
        arena_wf(ca, n),
        lists.len() == 2 * n,
        0 <= l < lists.len(),
        forall|c: int| 0 <= c < ca.len() ==> #[trigger] watch_count(s1, c) >= watch_count(lists[l], c),
    ensures
        clauses_watched_except(ca, lists.update(l, s1), -1),
{
    let l2 = lists.update(l, s1);
    assert forall|c: int| 0 <= c < ca.len() && c != -1 && !(#[trigger] ca[c]).deleted_spec() implies clause_watched(ca, l2, c) by {
        assert(clause_watched(ca, lists, c));
        assert(watch_count(s1, c) >= watch_count(lists[l], c));
        assert(lits_in_range(ca[c]@, n));
        lemma_lit_slot(ca[c]@[0], n);
        lemma_lit_slot(ca[c]@[1], n);
    }
}

/// Reordering the literals of clause `x` keeping its first two (as a pair) keeps every
/// clause watched.
proof fn lemma_watched_firsts(ca0: Seq<Clause>, ca1: Seq<Clause>, lists: Seq<Seq<Watcher>>, x: int)
    requires
        clauses_watched_except(ca0, lists, -1),
        0 <= x < ca0.len(),
        ca1 == ca0.update(x, ca1[x]),
        ca1[x].deleted_spec() == ca0[x].deleted_spec(),
        ca0[x]@.len() >= 2,
        ca1[x]@.len() >= 2,
        (ca1[x]@[0] == ca0[x]@[0] && ca1[x]@[1] == ca0[x]@[1]) || (ca1[x]@[0] == ca0[x]@[1] && ca1[x]@[1] == ca0[x]@[0]),
    ensures
        clauses_watched_except(ca1, lists, -1),
{
    assert forall|c: int| 0 <= c < ca1.len() && c != -1 && !(#[trigger] ca1[c]).deleted_spec() implies clause_watched(ca1, lists, c) by {
        assert(clause_watched(ca0, lists, c));
        if c == x {
            assert(watch_need(ca1[x]@, ca0[x]@[0]@ as int) == watch_need(ca0[x]@, ca0[x]@[0]@ as int));
            assert(watch_need(ca1[x]@, ca0[x]@[1]@ as int) == watch_need(ca0[x]@, ca0[x]@[1]@ as int));
        } else {
            assert(ca1[c] == ca0[c]);
        }
    }
}

/// Changing clause `x` into one with (at least) the same literals keeps a watch's blocker
/// sound.
proof fn lemma_blocker_perm(ca0: Seq<Clause>, ca1: Seq<Clause>, w: Watcher, values: Seq<LBool>, data: Seq<VarData>, x: int)
    requires
        blocker_ok(ca0, w, values, data),
        w.cref_spec()@ < ca0.len(),
        0 <= x < ca0.len(),
        ca1 == ca0.update(x, ca1[x]),
        ca1[x].deleted_spec() == ca0[x].deleted_spec(),
        forall|l: Lit| ca0[x]@.contains(l) ==> #[trigger] ca1[x]@.contains(l),
    ensures
        blocker_ok(ca1, w, values, data),
{
    if w.cref_spec()@ as int != x {
        assert(ca1[w.cref_spec()@ as int] == ca0[w.cref_spec()@ as int]);
    } else {
        if ca0[x]@.contains(w.blocker_spec()) {
            assert(ca1[x]@.contains(w.blocker_spec()));
        }
    }
}

/// [`lemma_blocker_perm`] for every watch of some lists.
proof fn lemma_blockers_perm(
    ca0: Seq<Clause>,
    ca1: Seq<Clause>,
    lists: Seq<Seq<Watcher>>,
    values: Seq<LBool>,
    data: Seq<VarData>,
    x: int,
    n: nat,
)
    requires
        blockers_ok(ca0, lists, values, data),
        watches_ok(lists, ca0.len(), n),
        0 <= x < ca0.len(),
        ca1 == ca0.update(x, ca1[x]),
        ca1[x].deleted_spec() == ca0[x].deleted_spec(),
        forall|l: Lit| ca0[x]@.contains(l) ==> #[trigger] ca1[x]@.contains(l),
    ensures
        blockers_ok(ca1, lists, values, data),
{
    assert forall|l: int, k: int| 0 <= l < lists.len() && 0 <= k < lists[l].len() implies blocker_ok(ca1, #[trigger] lists[l][k], values, data) by {
        assert(blocker_ok(ca0, lists[l][k], values, data));
        assert(watch_ok(lists[l][k], ca0.len(), n));
        lemma_blocker_perm(ca0, ca1, lists[l][k], values, data, x);
    }
}

/// Assignments that keep every fixed variable keep a watch's blocker sound.
proof fn lemma_fixed_keeps_blocker(
    ca: Seq<Clause>,
    w: Watcher,
    values0: Seq<LBool>,
    data0: Seq<VarData>,
    values1: Seq<LBool>,
    data1: Seq<VarData>,
)
    requires
        blocker_ok(ca, w, values0, data0),
        fixed_kept(values0, data0, values1, data1),
        w.blocker_spec().var()@ < values0.len(),
    ensures
        blocker_ok(ca, w, values1, data1),
{
    let u = w.blocker_spec().var()@;
    if values0[u as int] != LBool::Undef && data0[u as int].level_spec() == 0 {
        assert(values1[u as int] == values0[u as int]);
    }
}

/// Extending the assignment keeps the progress through the watches of `fl`.
proof fn lemma_fl_handled_assign(
    ca: Seq<Clause>,
    values0: Seq<LBool>,
    data0: Seq<VarData>,
    values1: Seq<LBool>,
    data1: Seq<VarData>,
    lvl: nat,
    fl: Lit,
    kept: Seq<Watcher>,
    pending: Seq<Watcher>,
    n: nat,
)
    requires
        fl_handled(ca, values0, data0, lvl, fl, kept, pending),
        arena_wf(ca, n),
        values0.len() == n,
        assigned_kept(values0, data0, values1, data1),
        forall|k: int| 0 <= k < kept.len() ==> watch_ok(#[trigger] kept[k], ca.len(), n),
    ensures
        fl_handled(ca, values1, data1, lvl, fl, kept, pending),
{
    assert forall|c: int, k: int|
        0 <= c < ca.len() && 0 <= k < 2 && !ca[c].deleted_spec() && #[trigger] ca[c]@[k] == fl implies satisfied_by_level(
        ca[c]@,
        values1,
        data1,
        lvl,
    ) || watch_count(pending, c) > 0 by {
        if satisfied_by_level(ca[c]@, values0, data0, lvl) {
            assert(lits_in_range(ca[c]@, n));
            lemma_satisfied_kept(ca[c]@, ca[c]@, values0, data0, values1, data1, lvl);
        }
    }
    assert forall|j: int| 0 <= j < kept.len() && !ca[(#[trigger] kept[j]).cref_spec()@ as int].deleted_spec() implies (ca[kept[j].cref_spec()@ as int]@[0]
        != fl && ca[kept[j].cref_spec()@ as int]@[1] != fl) || satisfied_by_level(ca[kept[j].cref_spec()@ as int]@, values1, data1, lvl) by {
        let c = kept[j].cref_spec()@ as int;
        assert(watch_ok(kept[j], ca.len(), n));
        if satisfied_by_level(ca[c]@, values0, data0, lvl) {
            assert(lits_in_range(ca[c]@, n));
            lemma_satisfied_kept(ca[c]@, ca[c]@, values0, data0, values1, data1, lvl);
        }
    }
}

/// Sequences with the same elements (as multisets) contain the same values.
proof fn lemma_perm_contains<A>(a: Seq<A>, b: Seq<A>)
    requires
        a.to_multiset() == b.to_multiset(),
    ensures
        forall|x: A| #[trigger] a.contains(x) <==> b.contains(x),
{
    a.to_multiset_ensures();
    b.to_multiset_ensures();
    assert forall|x: A| #[trigger] a.contains(x) <==> b.contains(x) by {
        assert(a.contains(x) <==> a.to_multiset().count(x) > 0);
        assert(b.contains(x) <==> b.to_multiset().count(x) > 0);
    }
}

/// A true literal was assigned at a level no higher than the current one.
proof fn lemma_level_bound(a: &Assignment, l: Lit)
    requires
        a.wf(),
        l.var()@ < a.num_vars(),
        lit_value(a.values(), l) == LBool::True,
    ensures
        a.data()[l.var()@ as int].level_spec() <= a.lim_spec().len(),
{
    let v = l.var()@;
    assert(a.values()[v as int] != LBool::Undef);
    let i = choose|i: int| 0 <= i < a.trail_spec().len() && (#[trigger] a.trail_spec()[i]).var()@ == v;
    Var::lemma_view_injective(a.trail_spec()[i].var(), l.var());
    assert(level_fits(a.lim_spec(), a.data()[a.trail_spec()[i].var()@ as int].level_spec() as int, i));
}

/// Reordering the literals of the clause of watch `w` (keeping its first two as a pair)
/// keeps the progress through the watches of `fl` while `w` is pending.
proof fn lemma_fl_handled_perm(
    ca0: Seq<Clause>,
    ca1: Seq<Clause>,
    values: Seq<LBool>,
    data: Seq<VarData>,
    lvl: nat,
    fl: Lit,
    kept: Seq<Watcher>,
    w: Watcher,
    rest: Seq<Watcher>,
    c: int,
    n: nat,
)
    requires
        fl_handled(ca0, values, data, lvl, fl, kept, seq![w] + rest),
        w.cref_spec()@ == c,
        0 <= c < ca0.len(),
        arena_wf(ca0, n),
        values.len() == n,
        ca1 == ca0.update(c, ca1[c]),
        ca1[c].deleted_spec() == ca0[c].deleted_spec(),
        ca1[c]@.len() >= 2,
        forall|l: Lit| ca0[c]@.contains(l) ==> #[trigger] ca1[c]@.contains(l),
        (ca1[c]@[0] == ca0[c]@[0] && ca1[c]@[1] == ca0[c]@[1]) || (ca1[c]@[0] == ca0[c]@[1] && ca1[c]@[1] == ca0[c]@[0]),
        forall|k: int| 0 <= k < kept.len() ==> watch_ok(#[trigger] kept[k], ca0.len(), n),
    ensures
        fl_handled(ca1, values, data, lvl, fl, kept, seq![w] + rest),
{
    lemma_count_split(kept, w, rest, c);
    assert(assigned_kept(values, data, values, data));
    assert(lits_in_range(ca0[c]@, n));
    assert forall|x: int, k: int|
        0 <= x < ca1.len() && 0 <= k < 2 && !ca1[x].deleted_spec() && #[trigger] ca1[x]@[k] == fl implies satisfied_by_level(
        ca1[x]@,
        values,
        data,
        lvl,
    ) || watch_count(seq![w] + rest, x) > 0 by {
        if x != c {
            assert(ca1[x] == ca0[x]);
        }
    }
    assert forall|j: int| 0 <= j < kept.len() && !ca1[(#[trigger] kept[j]).cref_spec()@ as int].deleted_spec() implies (ca1[kept[j].cref_spec()@ as int]@[0]
        != fl && ca1[kept[j].cref_spec()@ as int]@[1] != fl) || satisfied_by_level(ca1[kept[j].cref_spec()@ as int]@, values, data, lvl) by {
        let x = kept[j].cref_spec()@ as int;
        assert(watch_ok(kept[j], ca0.len(), n));
        if x != c {
            assert(ca1[x] == ca0[x]);
        } else if satisfied_by_level(ca0[c]@, values, data, lvl) {
            lemma_satisfied_kept(ca0[c]@, ca1[c]@, values, data, values, data, lvl);
        }
    }
}

/// Keeping a watch `w2` of the clause of the pending watch `w`, when that clause no longer
/// watches `fl` or is satisfied, keeps the progress through the watches of `fl`.
proof fn lemma_fl_handled_keep(
    ca: Seq<Clause>,
    values: Seq<LBool>,
    data: Seq<VarData>,
    lvl: nat,
    fl: Lit,
    kept: Seq<Watcher>,
    w: Watcher,
    w2: Watcher,
    rest: Seq<Watcher>,
    c: int,
    n: nat,
)
    requires
        fl_handled(ca, values, data, lvl, fl, kept, seq![w] + rest),
        w.cref_spec()@ == c,
        w2.cref_spec()@ == c,
        0 <= c < ca.len(),
        (ca[c]@[0] != fl && ca[c]@[1] != fl) || satisfied_by_level(ca[c]@, values, data, lvl),
        forall|k: int| 0 <= k < kept.len() ==> watch_ok(#[trigger] kept[k], ca.len(), n),
    ensures
        fl_handled(ca, values, data, lvl, fl, kept.push(w2), rest),
{
    assert forall|x: int, k: int|
        0 <= x < ca.len() && 0 <= k < 2 && !ca[x].deleted_spec() && #[trigger] ca[x]@[k] == fl implies satisfied_by_level(
        ca[x]@,
        values,
        data,
        lvl,
    ) || watch_count(rest, x) > 0 by {
        lemma_count_split(kept, w, rest, x);
    }
    let k2 = kept.push(w2);
    assert forall|j: int| 0 <= j < k2.len() && !ca[(#[trigger] k2[j]).cref_spec()@ as int].deleted_spec() implies (ca[k2[j].cref_spec()@ as int]@[0]
        != fl && ca[k2[j].cref_spec()@ as int]@[1] != fl) || satisfied_by_level(ca[k2[j].cref_spec()@ as int]@, values, data, lvl) by {
        if j < kept.len() {
            assert(k2[j] == kept[j]);
        }
    }
}

/// Replacing the pending watch `w` by a kept watch `w2` of the same clause keeps every
/// clause watched.
proof fn lemma_watched_replace(
    ca: Seq<Clause>,
    lists: Seq<Seq<Watcher>>,
    l: int,
    kept: Seq<Watcher>,
    w: Watcher,
    w2: Watcher,
    rest: Seq<Watcher>,
    n: nat,
)
    requires
        clauses_watched_except(ca, lists.update(l, kept.push(w) + rest), -1),
        w.cref_spec() == w2.cref_spec(),
        arena_wf(ca, n),
        lists.len() == 2 * n,
        0 <= l < lists.len(),
    ensures
        clauses_watched_except(ca, lists.update(l, kept.push(w2) + rest), -1),
{
    let v0 = lists.update(l, kept.push(w) + rest);
    let s1 = kept.push(w2) + rest;
    assert forall|c: int| 0 <= c < ca.len() implies #[trigger] watch_count(s1, c) >= watch_count(v0[l], c) by {
        lemma_count_split(kept, w, rest, c);
        lemma_count_split(kept, w2, rest, c);
    }
    lemma_watched_update(ca, v0, l, s1, n);
    assert(v0.update(l, s1) =~= lists.update(l, s1));
}

/// Moving the pending watch `w` of `fl` to the list of `other`, the clause's new second
/// literal (its first staying), keeps every clause watched.
proof fn lemma_watched_move(
    ca1: Seq<Clause>,
    ca2: Seq<Clause>,
    lists: Seq<Seq<Watcher>>,
    fl: Lit,
    kept: Seq<Watcher>,
    w: Watcher,
    rest: Seq<Watcher>,
    other: Lit,
    w3: Watcher,
    c: int,
    n: nat,
)
    requires
        clauses_watched_except(ca1, lists.update(fl@ as int, kept.push(w) + rest), -1),
        arena_wf(ca1, n),
        arena_wf(ca2, n),
        lists.len() == 2 * n,
        fl.var()@ < n,
        other.var()@ < n,
        w.cref_spec()@ == c,
        w3.cref_spec()@ == c,
        0 <= c < ca1.len(),
        ca2 == ca1.update(c, ca2[c]),
        ca2[c].deleted_spec() == ca1[c].deleted_spec(),
        ca1[c]@[1] == fl,
        ca2[c]@[0] == ca1[c]@[0],
        ca2[c]@[1] == other,
        other != fl,
    ensures
        clauses_watched_except(ca2, lists.update(other@ as int, lists[other@ as int].push(w3)).update(fl@ as int, kept + rest), -1),
{
    let fli = fl@ as int;
    let oi = other@ as int;
    let v0 = lists.update(fli, kept.push(w) + rest);
    let v2 = lists.update(oi, lists[oi].push(w3)).update(fli, kept + rest);
    lemma_lit_slot(fl, n);
    lemma_lit_slot(other, n);
    Lit::lemma_view_injective(fl, other);
    assert forall|x: int| 0 <= x < ca2.len() && x != -1 && !(#[trigger] ca2[x]).deleted_spec() implies clause_watched(ca2, v2, x) by {
        assert(clause_watched(ca1, v0, x));
        assert(lits_in_range(ca1[x]@, n));
        assert(lits_in_range(ca2[x]@, n));
        lemma_lit_slot(ca1[x]@[0], n);
        lemma_lit_slot(ca1[x]@[1], n);
        lemma_count_split(kept, w, rest, x);
        lemma_count_push(lists[oi], w3, x);
        if x != c {
            assert(ca2[x] == ca1[x]);
            let l0 = ca1[x]@[0]@ as int;
            let l1 = ca1[x]@[1]@ as int;
            assert(watch_count(v2[l0], x) == watch_count(v0[l0], x));
            assert(watch_count(v2[l1], x) == watch_count(v0[l1], x));
        } else {
            let f = ca1[c]@[0];
            let fi = f@ as int;
            Lit::lemma_view_injective(f, other);
            Lit::lemma_view_injective(f, fl);
            assert(v2[oi] == lists[oi].push(w3));
            assert(v2[fli] == kept + rest);
            if f == other {
            } else if f == fl {
            } else {
                assert(v2[fi] == v0[fi]);
            }
        }
    }
}

/// After moving the pending watch `w` (see [`lemma_watched_move`]), the progress through
/// the watches of `fl` holds with the remaining pending watches.
proof fn lemma_fl_handled_move(
    ca1: Seq<Clause>,
    ca2: Seq<Clause>,
    lists: Seq<Seq<Watcher>>,
    values: Seq<LBool>,
    data: Seq<VarData>,
    lvl: nat,
    fl: Lit,
    kept: Seq<Watcher>,
    w: Watcher,
    rest: Seq<Watcher>,
    other: Lit,
    w3: Watcher,
    c: int,
    n: nat,
)
    requires
        fl_handled(ca1, values, data, lvl, fl, kept, seq![w] + rest),
        clauses_watched_except(ca2, lists.update(other@ as int, lists[other@ as int].push(w3)).update(fl@ as int, kept + rest), -1),
        arena_wf(ca1, n),
        values.len() == n,
        lists.len() == 2 * n,
        fl.var()@ < n,
        other.var()@ < n,
        w.cref_spec()@ == c,
        0 <= c < ca1.len(),
        ca2 == ca1.update(c, ca2[c]),
        ca2[c].deleted_spec() == ca1[c].deleted_spec(),
        !ca1[c].deleted_spec(),
        ca1[c]@[1] == fl,
        ca2[c]@[0] == ca1[c]@[0],
        ca2[c]@[1] == other,
        other != fl,
        forall|l: Lit| ca1[c]@.contains(l) ==> #[trigger] ca2[c]@.contains(l),
        forall|k: int| 0 <= k < kept.len() ==> watch_ok(#[trigger] kept[k], ca1.len(), n),
    ensures
        fl_handled(ca2, values, data, lvl, fl, kept, rest),
{
    let fli = fl@ as int;
    lemma_lit_slot(fl, n);
    lemma_lit_slot(other, n);
    assert(assigned_kept(values, data, values, data));
    assert(lits_in_range(ca1[c]@, n));
    assert(fl_handled(ca1, values, data, lvl, fl, kept, seq![w] + rest));
    // The clause of `w` is satisfied when a kept watch is on it.
    assert(watch_count(kept, c) > 0 ==> satisfied_by_level(ca2[c]@, values, data, lvl)) by {
        if watch_count(kept, c) > 0 {
            lemma_count_pos(kept, c);
            let j = choose|j: int| 0 <= j < kept.len() && (#[trigger] kept[j]).cref_spec()@ == c;
            assert(satisfied_by_level(ca1[c]@, values, data, lvl));
            lemma_satisfied_kept(ca1[c]@, ca2[c]@, values, data, values, data, lvl);
        }
    }
    assert forall|x: int, k: int|
        0 <= x < ca2.len() && 0 <= k < 2 && !ca2[x].deleted_spec() && #[trigger] ca2[x]@[k] == fl implies satisfied_by_level(
        ca2[x]@,
        values,
        data,
        lvl,
    ) || watch_count(rest, x) > 0 by {
        lemma_count_split(kept, w, rest, x);
        if x != c {
            assert(ca2[x] == ca1[x]);
            assert(ca1[x]@[k] == fl);
        } else {
            let v2 = lists.update(other@ as int, lists[other@ as int].push(w3)).update(fli, kept + rest);
            assert(clause_watched(ca2, v2, c));
            assert(v2[fli] == kept + rest);
            assert(k == 0);
            assert(watch_need(ca2[c]@, fli) >= 1);
        }
    }
    assert forall|j: int| 0 <= j < kept.len() && !ca2[(#[trigger] kept[j]).cref_spec()@ as int].deleted_spec() implies (ca2[kept[j].cref_spec()@ as int]@[0]
        != fl && ca2[kept[j].cref_spec()@ as int]@[1] != fl) || satisfied_by_level(ca2[kept[j].cref_spec()@ as int]@, values, data, lvl) by {
        let x = kept[j].cref_spec()@ as int;
        assert(watch_ok(kept[j], ca1.len(), n));
        if x != c {
            assert(ca2[x] == ca1[x]);
        } else {
            lemma_count_pos_of(kept, j, c);
        }
    }
}

/// A list holding a watch of a clause counts it.
proof fn lemma_count_pos_of(ws: Seq<Watcher>, j: int, c: int)
    requires
        0 <= j < ws.len(),
        ws[j].cref_spec()@ == c,
    ensures
        watch_count(ws, c) > 0,
    decreases ws.len(),
{
    if j < ws.len() - 1 {
        assert(ws.drop_last()[j] == ws[j]);
        lemma_count_pos_of(ws.drop_last(), j, c);
    }
}

/// Going back to decision level `level` keeps propagation complete up to the start of
/// level `level + 1`, the new end of the trail.
proof fn lemma_complete_backtrack(ca: Seq<Clause>, a0: &Assignment, a1: &Assignment, level: int, n: nat)
    requires
        a0.wf(),
        arena_wf(ca, n),
        a0.values().len() == n,
        0 <= level < a0.lim_spec().len(),
        watches_complete(ca, a0.values(), a0.data(), a0.trail_spec(), a0.lim_spec()[level] as int),
        a1.trail_spec() == a0.trail_spec().take(a0.lim_spec()[level] as int),
        a1.data() == a0.data(),
        a1.values().len() == a0.values().len(),
        forall|v: u32|
            v < a0.values().len() ==> #[trigger] a1.values()[v as int] == (if var_on_removed(
                a0.trail_spec(),
                v,
                a0.lim_spec()[level] as int,
            ) {
                LBool::Undef
            } else {
                a0.values()[v as int]
            }),
    ensures
        watches_complete(ca, a1.values(), a1.data(), a1.trail_spec(), a0.lim_spec()[level] as int),
{
    let cut = a0.lim_spec()[level] as int;
    let t0 = a0.trail_spec();
    let v0 = a0.values();
    let v1 = a1.values();
    let d = a0.data();
    let lim = a0.lim_spec();
    assert forall|c: int, k: int|
        0 <= c < ca.len() && 0 <= k < 2 && !ca[c].deleted_spec() && lit_value(v1, #[trigger] ca[c]@[k]) == LBool::False
            && var_on_trail_before(a1.trail_spec(), ca[c]@[k].var()@, cut) implies satisfied_by_level(
        ca[c]@,
        v1,
        d,
        d[ca[c]@[k].var()@ as int].level_spec(),
    ) by {
        assert(lits_in_range(ca[c]@, n));
        let u = ca[c]@[k].var()@;
        let iu = choose|j: int| 0 <= j < cut && (#[trigger] a1.trail_spec()[j]).var()@ == u;
        assert(a1.trail_spec()[iu] == t0[iu]);
        assert(v1[u as int] != LBool::Undef);
        assert(v1[u as int] == v0[u as int]);
        assert(var_on_trail_before(t0, u, cut));
        assert(lit_value(v0, ca[c]@[k]) == LBool::False);
        let lu = d[u as int].level_spec();
        assert(level_fits(lim, d[t0[iu].var()@ as int].level_spec() as int, iu));
        if lu > level {
            assert(lim[lu - 1] >= lim[level]);
        }
        let j = choose|j: int|
            0 <= j < ca[c]@.len() && lit_value(v0, #[trigger] ca[c]@[j]) == LBool::True && d[ca[c]@[j].var()@ as int].level_spec() <= lu;
        let x = ca[c]@[j].var()@;
        assert(v0[x as int] != LBool::Undef);
        let ix = choose|i: int| 0 <= i < t0.len() && (#[trigger] t0[i]).var()@ == x;
        assert(level_fits(lim, d[t0[ix].var()@ as int].level_spec() as int, ix));
        let lx = d[x as int].level_spec();
        assert(lim[lx as int] <= lim[level]);
        if var_on_removed(t0, x, cut) {
            let jr = choose|jr: int| cut <= jr < t0.len() && (#[trigger] t0[jr]).var()@ == x;
            Var::lemma_view_injective(t0[jr].var(), t0[ix].var());
            assert(t0[jr].var() == t0[ix].var());
        }
        assert(v1[x as int] == v0[x as int]);
        assert(lit_value(v1, ca[c]@[j]) == LBool::True);
    }
}

/// Shrinking clauses (see [`shrunk`]) with their first literal in place, and deleting
/// clauses, keeps propagation complete.
proof fn lemma_complete_shrink(ca0: Seq<Clause>, ca1: Seq<Clause>, a: &Assignment, p: int)
    requires
        watches_complete(ca0, a.values(), a.data(), a.trail_spec(), p),
        ca1.len() == ca0.len(),
        forall|c: int|
            0 <= c < ca0.len() ==> {
                &&& (#[trigger] ca1[c])@[0] == ca0[c]@[0]
                &&& shrunk(ca1[c]@, ca0[c]@, a)
                &&& ca0[c].deleted_spec() ==> ca1[c].deleted_spec()
            },
    ensures
        watches_complete(ca1, a.values(), a.data(), a.trail_spec(), p),
{
    let v = a.values();
    let d = a.data();
    assert forall|c: int, k: int|
        0 <= c < ca1.len() && 0 <= k < 2 && !ca1[c].deleted_spec() && lit_value(v, #[trigger] ca1[c]@[k]) == LBool::False
            && var_on_trail_before(a.trail_spec(), ca1[c]@[k].var()@, p) implies satisfied_by_level(
        ca1[c]@,
        v,
        d,
        d[ca1[c]@[k].var()@ as int].level_spec(),
    ) by {
        assert(shrunk(ca1[c]@, ca0[c]@, a));
        assert(ca0[c]@[k] == ca1[c]@[k]);
        assert(lit_value(v, ca0[c]@[k]) == LBool::False);
        let lvl = d[ca1[c]@[k].var()@ as int].level_spec();
        let j = choose|j: int|
            0 <= j < ca0[c]@.len() && lit_value(v, #[trigger] ca0[c]@[j]) == LBool::True && d[ca0[c]@[j].var()@ as int].level_spec() <= lvl;
        let x = ca0[c]@[j];
        assert(ca0[c]@.contains(x));
        assert(a.fixed_spec(x) != LBool::False);
        assert(ca1[c]@.contains(x));
        let j1 = choose|j1: int| 0 <= j1 < ca1[c]@.len() && ca1[c]@[j1] == x;
        assert(lit_value(v, ca1[c]@[j1]) == LBool::True);
    }
}

/// Appending a clause whose first two literals, when false by one of the first `p` trail
/// literals, leave it satisfied at their level keeps propagation complete.
proof fn lemma_complete_push(
    ca0: Seq<Clause>,
    ca1: Seq<Clause>,
    values: Seq<LBool>,
    data: Seq<VarData>,
    trail: Seq<Lit>,
    p: int,
)
    requires
        watches_complete(ca0, values, data, trail, p),
        ca1.len() == ca0.len() + 1,
        forall|c: int| 0 <= c < ca0.len() ==> ca1[c] == ca0[c],
        forall|k: int|
            0 <= k < 2 && lit_value(values, #[trigger] ca1[ca0.len() as int]@[k]) == LBool::False && var_on_trail_before(
                trail,
                ca1[ca0.len() as int]@[k].var()@,
                p,
            ) ==> satisfied_by_level(ca1[ca0.len() as int]@, values, data, data[ca1[ca0.len() as int]@[k].var()@ as int].level_spec()),
    ensures
        watches_complete(ca1, values, data, trail, p),
{
    assert forall|c: int, k: int|
        0 <= c < ca1.len() && 0 <= k < 2 && !ca1[c].deleted_spec() && lit_value(values, #[trigger] ca1[c]@[k]) == LBool::False
            && var_on_trail_before(trail, ca1[c]@[k].var()@, p) implies satisfied_by_level(
        ca1[c]@,
        values,
        data,
        data[ca1[c]@[k].var()@ as int].level_spec(),
    ) by {
        if c < ca0.len() {
            assert(ca1[c] == ca0[c]);
        }
    }
}

/// Deleting clauses (their literals unchanged) keeps propagation complete.
proof fn lemma_complete_delete(ca0: Seq<Clause>, ca1: Seq<Clause>, values: Seq<LBool>, data: Seq<VarData>, trail: Seq<Lit>, p: int)
    requires
        watches_complete(ca0, values, data, trail, p),
        ca1.len() == ca0.len(),
        forall|c: int| 0 <= c < ca0.len() ==> (#[trigger] ca1[c])@ == ca0[c]@ && (!ca1[c].deleted_spec() ==> !ca0[c].deleted_spec()),
    ensures
        watches_complete(ca1, values, data, trail, p),
{
    assert forall|c: int, k: int|
        0 <= c < ca1.len() && 0 <= k < 2 && !ca1[c].deleted_spec() && lit_value(values, #[trigger] ca1[c]@[k]) == LBool::False
            && var_on_trail_before(trail, ca1[c]@[k].var()@, p) implies satisfied_by_level(
        ca1[c]@,
        values,
        data,
        data[ca1[c]@[k].var()@ as int].level_spec(),
    ) by {
        assert(ca1[c]@ == ca0[c]@);
        assert(lit_value(values, ca0[c]@[k]) == LBool::False);
    }
}

/// Storing a learnt clause whose first literal was just assigned at level `bt`, and whose
/// second literal is false at level `bt`, keeps propagation complete.
proof fn lemma_learnt_complete(
    ca0: Seq<Clause>,
    ca1: Seq<Clause>,
    values0: Seq<LBool>,
    data0: Seq<VarData>,
    trail0: Seq<Lit>,
    values1: Seq<LBool>,
    data1: Seq<VarData>,
    trail1: Seq<Lit>,
    q: int,
    n: nat,
    asserting: Lit,
    bt: nat,
)
    requires
        watches_complete(ca0, values0, data0, trail0, q),
        arena_wf(ca0, n),
        values0.len() == n,
        assigned_kept(values0, data0, values1, data1),
        trail1.len() >= trail0.len(),
        trail1.take(trail0.len() as int) == trail0,
        q <= trail0.len(),
        forall|i: int| 0 <= i < trail0.len() ==> lit_value(values0, #[trigger] trail0[i]) == LBool::True && trail0[i].var()@ < n,
        ca1.len() == ca0.len() + 1,
        forall|c: int| 0 <= c < ca0.len() ==> ca1[c] == ca0[c],
        ca1[ca0.len() as int]@.len() >= 2,
        ca1[ca0.len() as int]@[0] == asserting,
        lit_value(values1, asserting) == LBool::True,
        data1[asserting.var()@ as int].level_spec() == bt,
        ca1[ca0.len() as int]@[1].var()@ < n,
        values0[ca1[ca0.len() as int]@[1].var()@ as int] != LBool::Undef,
        data0[ca1[ca0.len() as int]@[1].var()@ as int].level_spec() == bt,
    ensures
        watches_complete(ca1, values1, data1, trail1, q),
{
    lemma_complete_assign(ca0, values0, data0, trail0, values1, data1, trail1, q, n);
    let nc = ca1[ca0.len() as int]@;
    assert(values1[nc[1].var()@ as int] == values0[nc[1].var()@ as int]);
    assert(data1[nc[1].var()@ as int] == data0[nc[1].var()@ as int]);
    assert(satisfied_by_level(nc, values1, data1, data1[nc[1].var()@ as int].level_spec())) by {
        assert(lit_value(values1, nc[0]) == LBool::True);
    }
    lemma_complete_push(ca0, ca1, values1, data1, trail1, q);
}

/// Simplifying keeps the learnt marks, and a clause it deletes has a literal fixed to true.
proof fn lemma_simplify_keeps_originals(
    ca0: Seq<Clause>,
    ca1: Seq<Clause>,
    refs_c: Seq<ClauseRef>,
    refs_l: Seq<ClauseRef>,
    a: &Assignment,
)
    requires
        refs_flag(refs_c, ca0, false),
        refs_flag(refs_l, ca0, true),
        deleted_satisfied(refs_c, ca0, a.values(), a.data()),
        refs_in(refs_c, ca0.len()),
        refs_in(refs_l, ca0.len()),
        ca1.len() == ca0.len(),
        forall|c: int|
            0 <= c < ca0.len() ==> {
                &&& (#[trigger] ca1[c]).learnt_spec() == ca0[c].learnt_spec()
                &&& ca0[c].deleted_spec() ==> ca1[c].deleted_spec() && ca1[c]@ == ca0[c]@
                &&& ca1[c].deleted_spec() && !ca0[c].deleted_spec() ==> exists|j: int|
                    0 <= j < ca1[c]@.len() && a.fixed_spec(#[trigger] ca1[c]@[j]) == LBool::True
            },
    ensures
        refs_flag(refs_c, ca1, false),
        refs_flag(refs_l, ca1, true),
        deleted_satisfied(refs_c, ca1, a.values(), a.data()),
{
    assert forall|k: int| 0 <= k < refs_c.len() implies ca1[(#[trigger] refs_c[k])@ as int].learnt_spec() == false by {
        assert(refs_c[k]@ < ca0.len());
    }
    assert forall|k: int| 0 <= k < refs_l.len() implies ca1[(#[trigger] refs_l[k])@ as int].learnt_spec() == true by {
        assert(refs_l[k]@ < ca0.len());
    }
    assert forall|k: int| 0 <= k < refs_c.len() && ca1[(#[trigger] refs_c[k])@ as int].deleted_spec() implies fixed_true_in(
        ca1[refs_c[k]@ as int]@,
        a.values(),
        a.data(),
    ) by {
        let c = refs_c[k]@ as int;
        assert(c < ca0.len());
        if ca0[c].deleted_spec() {
            assert(fixed_true_in(ca0[c]@, a.values(), a.data()));
        } else {
            let j = choose|j: int| 0 <= j < ca1[c]@.len() && a.fixed_spec(#[trigger] ca1[c]@[j]) == LBool::True;
            assert(lit_value(a.values(), ca1[c]@[j]) == LBool::True);
        }
    }
}

/// The clauses kept by a reduction are among the sorted ones.
proof fn lemma_kept_in(sorted: Seq<ClauseRef>, candidate: Seq<bool>, ca: Seq<Clause>, assignment: &Assignment)
    ensures
        forall|i: int| 0 <= i < kept_learnts(sorted, candidate, ca, assignment).len() ==> sorted.contains(
            #[trigger] kept_learnts(sorted, candidate, ca, assignment)[i],
        ),
    decreases sorted.len(),
{
    if sorted.len() > 0 {
        lemma_kept_in(sorted.drop_last(), candidate.drop_last(), ca, assignment);
        let rest = kept_learnts(sorted.drop_last(), candidate.drop_last(), ca, assignment);
        let kept = kept_learnts(sorted, candidate, ca, assignment);
        assert forall|i: int| 0 <= i < kept.len() implies sorted.contains(#[trigger] kept[i]) by {
            if i < rest.len() {
                assert(kept[i] == rest[i]);
                assert(sorted.drop_last().contains(rest[i]));
                let j = choose|j: int| 0 <= j < sorted.drop_last().len() && sorted.drop_last()[j] == rest[i];
                assert(sorted[j] == rest[i]);
            } else {
                assert(kept[i] == sorted.last());
                assert(sorted[sorted.len() - 1] == sorted.last());
            }
        }
    }
}

/// A reduction (deleting learnt clauses named in `sorted`, a permutation of the learnt list,
/// and keeping some of them as the new learnt list) keeps the learnt marks and deletes no
/// original clause.
proof fn lemma_reduce_keeps_originals(
    sorted: Seq<ClauseRef>,
    candidate: Seq<bool>,
    ca1: Seq<Clause>,
    ca2: Seq<Clause>,
    refs_c: Seq<ClauseRef>,
    refs_l: Seq<ClauseRef>,
    a: &Assignment,
)
    requires
        refs_flag(refs_c, ca1, false),
        refs_flag(refs_l, ca1, true),
        deleted_satisfied(refs_c, ca1, a.values(), a.data()),
        refs_in(refs_c, ca1.len()),
        refs_in(sorted, ca1.len()),
        sorted.to_multiset() == refs_l.to_multiset(),
        ca2.len() == ca1.len(),
        forall|c: int| 0 <= c < ca1.len() ==> (#[trigger] ca2[c])@ == ca1[c]@ && ca2[c].learnt_spec() == ca1[c].learnt_spec()
            && (ca2[c].deleted_spec() <==> (ca1[c].deleted_spec() || exists|k: int| 0 <= k < sorted.len()
                && (#[trigger] sorted[k])@ == c && removable(sorted[k], candidate[k], ca1, a))),
    ensures
        refs_flag(refs_c, ca2, false),
        refs_flag(kept_learnts(sorted, candidate, ca1, a), ca2, true),
        deleted_satisfied(refs_c, ca2, a.values(), a.data()),
{
    sorted.to_multiset_ensures();
    refs_l.to_multiset_ensures();
    assert forall|k: int| 0 <= k < sorted.len() implies ca1[(#[trigger] sorted[k])@ as int].learnt_spec() by {
        assert(sorted.contains(sorted[k]));
        assert(sorted.to_multiset().count(sorted[k]) > 0);
        assert(refs_l.contains(sorted[k]));
        let j = choose|j: int| 0 <= j < refs_l.len() && refs_l[j] == sorted[k];
        assert(ca1[refs_l[j]@ as int].learnt_spec());
    }
    assert forall|k: int| 0 <= k < refs_c.len() implies ca2[(#[trigger] refs_c[k])@ as int].learnt_spec() == false by {
        assert(refs_c[k]@ < ca1.len());
    }
    let kept = kept_learnts(sorted, candidate, ca1, a);
    lemma_kept_in(sorted, candidate, ca1, a);
    assert forall|i: int| 0 <= i < kept.len() implies ca2[(#[trigger] kept[i])@ as int].learnt_spec() == true by {
        assert(sorted.contains(kept[i]));
        let k = choose|k: int| 0 <= k < sorted.len() && sorted[k] == kept[i];
        assert(ca1[sorted[k]@ as int].learnt_spec());
        assert(sorted[k]@ < ca1.len());
        assert(ca2[kept[i]@ as int].learnt_spec() == ca1[kept[i]@ as int].learnt_spec());
    }
    assert forall|k: int| 0 <= k < refs_c.len() && ca2[(#[trigger] refs_c[k])@ as int].deleted_spec() implies fixed_true_in(
        ca2[refs_c[k]@ as int]@,
        a.values(),
        a.data(),
    ) by {
        let c = refs_c[k]@ as int;
        assert(c < ca1.len());
        assert(!ca1[c].learnt_spec());
        if !ca1[c].deleted_spec() {
            let k2 = choose|k2: int| 0 <= k2 < sorted.len() && (#[trigger] sorted[k2])@ == c && removable(sorted[k2], candidate[k2], ca1, a);
            assert(ca1[sorted[k2]@ as int].learnt_spec());
        }
        assert(ca2[c]@ == ca1[c]@);
    }
}

/// The largest variable index among `lits`.
fn max_var_of(lits: &[Lit]) -> (res: u32)
    requires
        lits@.len() > 0,
    ensures
        forall|j: int| 0 <= j < lits@.len() ==> (#[trigger] lits@[j]).var()@ <= res,
        exists|j: int| 0 <= j < lits@.len() && (#[trigger] lits@[j]).var()@ == res,
{
    let mut max_var: u32 = lits[0].var().inner();
    let mut k: usize = 1;
    while k < lits.len()
        invariant
            1 <= k <= lits@.len(),
            forall|j: int| 0 <= j < k ==> (#[trigger] lits@[j]).var()@ <= max_var,
            exists|j: int| 0 <= j < k && (#[trigger] lits@[j]).var()@ == max_var,
        decreases lits@.len() - k,
    {
        let v = lits[k].var().inner();
        if v > max_var {
            max_var = v;
        }
        k = k + 1;
    }
    max_var
}

/// After going back to level 0, what is assigned was assigned at level 0 before, with the
/// same value.
proof fn lemma_root_assigned(a0: &Assignment, a1: &Assignment)
    requires
        a0.wf(),
        a1.wf(),
        a0.values().len() < 0x7fff_ffff,
        a1.lim_spec().len() == 0,
        a1.data() == a0.data(),
        a1.values().len() == a0.values().len(),
        a0.lim_spec().len() == 0 ==> a1.values() == a0.values(),
        a0.lim_spec().len() > 0 ==> forall|v: u32|
            v < a0.values().len() ==> #[trigger] a1.values()[v as int] == (if var_on_removed(a0.trail_spec(), v, a0.lim_spec()[0] as int) {
                LBool::Undef
            } else {
                a0.values()[v as int]
            }),
    ensures
        forall|v: int|
            0 <= v < a1.values().len() && a1.values()[v] != LBool::Undef ==> a1.values()[v] == a0.values()[v]
                && #[trigger] a0.data()[v].level_spec() == 0,
{
    let t1 = a1.trail_spec();
    assert forall|v: int| 0 <= v < a1.values().len() && a1.values()[v] != LBool::Undef implies a1.values()[v] == a0.values()[v]
        && #[trigger] a0.data()[v].level_spec() == 0 by {
        let u = v as u32;
        assert(var_on_trail_before(t1, u, t1.len() as int));
        let i = choose|i: int| 0 <= i < t1.len() && (#[trigger] t1[i]).var()@ == u;
        assert(level_fits(a1.lim_spec(), a1.data()[t1[i].var()@ as int].level_spec() as int, i));
    }
}

/// A literal not fixed to false before going back to level 0 (and creating variables) is
/// not false after.
proof fn lemma_root_lit_not_false(a0: &Assignment, vb: Seq<LBool>, vals: Seq<LBool>, l: Lit)
    requires
        forall|v: int| 0 <= v < vb.len() && vb[v] != LBool::Undef ==> vb[v] == a0.values()[v] && #[trigger] a0.data()[v].level_spec() == 0,
        vb.len() == a0.values().len(),
        forall|v: int| 0 <= v < vb.len() ==> #[trigger] vals[v] == vb[v],
        forall|v: int| vb.len() <= v < vals.len() ==> #[trigger] vals[v] == LBool::Undef,
        l.var()@ < vals.len(),
        l.var()@ >= a0.num_vars() || a0.fixed_spec(l) != LBool::False,
    ensures
        lit_value(vals, l) != LBool::False,
{
    let v = l.var()@ as int;
    if v < vb.len() {
        assert(vals[v] == vb[v]);
        if vb[v] != LBool::Undef {
            assert(a0.data()[v].level_spec() == 0);
        }
    } else {
        assert(vals[v] == LBool::Undef);
    }
}

/// During conflict analysis, the current resolvent (`lemma`, the false literals of the
/// variables in `cur`, and `rest`) follows from the clauses and the units.
spec fn resolvent_implied(ca: Seq<Clause>, units: Seq<Lit>, values: Seq<LBool>, lemma: Seq<Lit>, cur: Set<int>, rest: Seq<Lit>) -> bool {
    forall|m: spec_fn(int) -> bool|
        #[trigger] model_of(m, ca, units) ==> model_clause(m, lemma) || model_clause(m, rest) || exists|v: int|
            #[trigger] cur.contains(v) && m(v) != (values[v] == LBool::True)
}

/// A false literal is made true exactly by the assignments that differ from `values` on its
/// variable.
proof fn lemma_false_lit_model(m: spec_fn(int) -> bool, values: Seq<LBool>, l: Lit)
    requires
        lit_value(values, l) == LBool::False,
    ensures
        model_lit(m, l) == (m(l.var()@ as int) != (values[l.var()@ as int] == LBool::True)),
{
}

/// The conflict clause starts the resolution.
proof fn lemma_resolve_start(ca: Seq<Clause>, units: Seq<Lit>, values: Seq<LBool>, c: int)
    requires
        0 <= c < ca.len(),
    ensures
        resolvent_implied(ca, units, values, Seq::empty(), Set::empty(), ca[c]@.skip(0)),
{
    assert(ca[c]@.skip(0) =~= ca[c]@);
}

/// Moving the first literal of `rest` into the learnt clause keeps the resolvent.
proof fn lemma_resolve_keep(ca: Seq<Clause>, units: Seq<Lit>, values: Seq<LBool>, lemma: Seq<Lit>, cur: Set<int>, cl: Seq<Lit>, j: int)
    requires
        resolvent_implied(ca, units, values, lemma, cur, cl.skip(j)),
        0 <= j < cl.len(),
    ensures
        resolvent_implied(ca, units, values, lemma.push(cl[j]), cur, cl.skip(j + 1)),
{
    assert forall|m: spec_fn(int) -> bool| #[trigger] model_of(m, ca, units) implies model_clause(m, lemma.push(cl[j])) || model_clause(
        m,
        cl.skip(j + 1),
    ) || exists|v: int| #[trigger] cur.contains(v) && m(v) != (values[v] == LBool::True) by {
        if model_clause(m, lemma) {
            let x = choose|x: int| 0 <= x < lemma.len() && model_lit(m, #[trigger] lemma[x]);
            assert(lemma.push(cl[j])[x] == lemma[x]);
        } else if model_clause(m, cl.skip(j)) {
            let x = choose|x: int| 0 <= x < cl.skip(j).len() && model_lit(m, #[trigger] cl.skip(j)[x]);
            if x == 0 {
                assert(lemma.push(cl[j])[lemma.len() as int] == cl[j]);
            } else {
                assert(cl.skip(j + 1)[x - 1] == cl.skip(j)[x]);
            }
        }
    }
}

/// Moving the first literal of `rest`, false and of variable `v`, to the current-level set
/// keeps the resolvent.
proof fn lemma_resolve_cur(ca: Seq<Clause>, units: Seq<Lit>, values: Seq<LBool>, lemma: Seq<Lit>, cur: Set<int>, cl: Seq<Lit>, j: int)
    requires
        resolvent_implied(ca, units, values, lemma, cur, cl.skip(j)),
        0 <= j < cl.len(),
        lit_value(values, cl[j]) == LBool::False,
    ensures
        resolvent_implied(ca, units, values, lemma, cur.insert(cl[j].var()@ as int), cl.skip(j + 1)),
{
    let c1 = cur.insert(cl[j].var()@ as int);
    assert forall|m: spec_fn(int) -> bool| #[trigger] model_of(m, ca, units) implies model_clause(m, lemma) || model_clause(m, cl.skip(j + 1))
        || exists|v: int| #[trigger] c1.contains(v) && m(v) != (values[v] == LBool::True) by {
        lemma_false_lit_model(m, values, cl[j]);
        if exists|v: int| #[trigger] cur.contains(v) && m(v) != (values[v] == LBool::True) {
            let v = choose|v: int| #[trigger] cur.contains(v) && m(v) != (values[v] == LBool::True);
            assert(c1.contains(v));
        } else if model_clause(m, cl.skip(j)) && !model_clause(m, lemma) {
            let x = choose|x: int| 0 <= x < cl.skip(j).len() && model_lit(m, #[trigger] cl.skip(j)[x]);
            if x == 0 {
                assert(c1.contains(cl[j].var()@ as int));
            } else {
                assert(cl.skip(j + 1)[x - 1] == cl.skip(j)[x]);
            }
        }
    }
}

/// Dropping the first literal of `rest` when it is already accounted for (its variable is in
/// the current-level set, or it is in the learnt clause) or false by a unit keeps the
/// resolvent.
proof fn lemma_resolve_skip(ca: Seq<Clause>, units: Seq<Lit>, values: Seq<LBool>, lemma: Seq<Lit>, cur: Set<int>, cl: Seq<Lit>, j: int)
    requires
        resolvent_implied(ca, units, values, lemma, cur, cl.skip(j)),
        0 <= j < cl.len(),
        lit_value(values, cl[j]) == LBool::False,
        cur.contains(cl[j].var()@ as int) || lemma.contains(cl[j]) || exists|i: int|
            0 <= i < units.len() && (#[trigger] units[i]).var() == cl[j].var() && lit_value(values, units[i]) == LBool::True,
    ensures
        resolvent_implied(ca, units, values, lemma, cur, cl.skip(j + 1)),
{
    assert forall|m: spec_fn(int) -> bool| #[trigger] model_of(m, ca, units) implies model_clause(m, lemma) || model_clause(m, cl.skip(j + 1))
        || exists|v: int| #[trigger] cur.contains(v) && m(v) != (values[v] == LBool::True) by {
        lemma_false_lit_model(m, values, cl[j]);
        if model_clause(m, cl.skip(j)) && !model_clause(m, lemma) && !(exists|v: int|
            #[trigger] cur.contains(v) && m(v) != (values[v] == LBool::True)) {
            let x = choose|x: int| 0 <= x < cl.skip(j).len() && model_lit(m, #[trigger] cl.skip(j)[x]);
            if x == 0 {
                if cur.contains(cl[j].var()@ as int) {
                } else if lemma.contains(cl[j]) {
                    let y = choose|y: int| 0 <= y < lemma.len() && lemma[y] == cl[j];
                    assert(model_lit(m, lemma[y]));
                } else {
                    let i = choose|i: int|
                        0 <= i < units.len() && (#[trigger] units[i]).var() == cl[j].var() && lit_value(values, units[i]) == LBool::True;
                    assert(model_lit(m, units[i]));
                }
            } else {
                assert(cl.skip(j + 1)[x - 1] == cl.skip(j)[x]);
            }
        }
    }
}

/// Resolving with the reason of the trail literal `p` (its first literal), whose variable is
/// in the current-level set and nothing is left in `rest`, gives the resolvent without `p`'s
/// variable and with the rest of the reason.
proof fn lemma_resolve_reason(ca: Seq<Clause>, units: Seq<Lit>, values: Seq<LBool>, lemma: Seq<Lit>, cur: Set<int>, r: int, p: Lit)
    requires
        resolvent_implied(ca, units, values, lemma, cur, Seq::empty()),
        0 <= r < ca.len(),
        ca[r]@.len() >= 1,
        ca[r]@[0] == p,
        lit_value(values, p) == LBool::True,
    ensures
        resolvent_implied(ca, units, values, lemma, cur.remove(p.var()@ as int), ca[r]@.skip(1)),
{
    let pv = p.var()@ as int;
    let c1 = cur.remove(pv);
    assert forall|m: spec_fn(int) -> bool| #[trigger] model_of(m, ca, units) implies model_clause(m, lemma) || model_clause(m, ca[r]@.skip(1))
        || exists|v: int| #[trigger] c1.contains(v) && m(v) != (values[v] == LBool::True) by {
        if !model_clause(m, lemma) && !model_clause(m, Seq::<Lit>::empty()) {
            let v = choose|v: int| #[trigger] cur.contains(v) && m(v) != (values[v] == LBool::True);
            if v != pv {
                assert(c1.contains(v));
            } else {
                assert(model_clause(m, ca[r]@));
                let x = choose|x: int| 0 <= x < ca[r]@.len() && model_lit(m, #[trigger] ca[r]@[x]);
                if x == 0 {
                    assert(values[pv] == LBool::True) by {
                        assert(lit_value(values, p) == LBool::True);
                    }
                    assert(false);
                } else {
                    assert(ca[r]@.skip(1)[x - 1] == ca[r]@[x]);
                }
            }
        }
    }
}

/// When the current-level set is the single variable of the true trail literal `p`, the
/// learnt clause with the negation of `p` in front follows.
proof fn lemma_resolve_uip(ca: Seq<Clause>, units: Seq<Lit>, values: Seq<LBool>, lemma: Seq<Lit>, cur: Set<int>, p: Lit, np: Lit)
    requires
        resolvent_implied(ca, units, values, lemma, cur, Seq::empty()),
        cur.remove(p.var()@ as int).len() == 0,
        cur.finite(),
        lit_value(values, p) == LBool::True,
        np.var() == p.var(),
        np.negated() == !p.negated(),
    ensures
        implied(ca, units, lemma.insert(0, np)),
{
    let l2 = lemma.insert(0, np);
    assert forall|m: spec_fn(int) -> bool| #[trigger] model_of(m, ca, units) implies model_clause(m, l2) by {
        if model_clause(m, lemma) {
            let x = choose|x: int| 0 <= x < lemma.len() && model_lit(m, #[trigger] lemma[x]);
            assert(l2[x + 1] == lemma[x]);
        } else {
            assert(!model_clause(m, Seq::<Lit>::empty()));
            let v = choose|v: int| #[trigger] cur.contains(v) && m(v) != (values[v] == LBool::True);
            if v != p.var()@ as int {
                assert(cur.remove(p.var()@ as int).contains(v));
                assert(false);
            }
            assert(l2[0] == np);
            assert(model_lit(m, np));
        }
    }
}

/// Whether the reason clause of `l`'s variable exists and each of its other literals is marked
/// in `seen` or assigned at level 0.
pub open spec fn redundant_in(ca: Seq<Clause>, data: Seq<VarData>, l: Lit, seen: Seq<bool>) -> bool {
    match data[l.var()@ as int].reason_spec() {
        None => false,
        Some(c) => forall|k: int|
            1 <= k < ca[c@ as int]@.len() ==> #[trigger] seen[ca[c@ as int]@[k].var()@ as int] || data[ca[c@ as int]@[k].var()@ as int].level_spec()
                == 0,
    }
}

/// Two false literals of the same variable are equal.
proof fn lemma_false_same_var(values: Seq<LBool>, a: Lit, b: Lit)
    requires
        lit_value(values, a) == LBool::False,
        lit_value(values, b) == LBool::False,
        a.var() == b.var(),
    ensures
        a == b,
{
    Lit::lemma_var_negated_determine(a, b);
}

/// Dropping redundant literals from a learnt clause keeps it implied: an assignment making
/// true a learnt literal of the variable at trail position `i` makes true a kept literal.
proof fn lemma_minimized(
    ca: Seq<Clause>,
    a: &Assignment,
    lemma: Seq<Lit>,
    out: Seq<Lit>,
    seen: Seq<bool>,
    n: nat,
    m: spec_fn(int) -> bool,
    i: int,
)
    requires
        a.wf(),
        a.lim_spec().len() > 0,
        model_of(m, ca, a.trail_spec().take(a.lim_spec()[0] as int)),
        reasons_ok(ca, a.values(), a.data(), a.trail_spec()),
        arena_wf(ca, n),
        a.values().len() == n,
        seen.len() == n,
        forall|v: int| 0 <= v < n && #[trigger] seen[v] ==> exists|k: int| 1 <= k < lemma.len() && (#[trigger] lemma[k]).var()@ == v,
        forall|k: int| 1 <= k < lemma.len() ==> lit_value(a.values(), #[trigger] lemma[k]) == LBool::False && lemma[k].var()@ < n,
        forall|k: int| 1 <= k < lemma.len() ==> out.contains(#[trigger] lemma[k]) || redundant_in(ca, a.data(), lemma[k], seen),
        0 <= i < a.trail_spec().len(),
        exists|k: int| 1 <= k < lemma.len() && (#[trigger] lemma[k]).var() == a.trail_spec()[i].var() && model_lit(m, lemma[k]),
    ensures
        model_clause(m, out),
    decreases i,
{
    let t = a.trail_spec();
    let vals = a.values();
    let data = a.data();
    let units = t.take(a.lim_spec()[0] as int);
    let k = choose|k: int| 1 <= k < lemma.len() && (#[trigger] lemma[k]).var() == t[i].var() && model_lit(m, lemma[k]);
    let l = lemma[k];
    if out.contains(l) {
        let y = choose|y: int| 0 <= y < out.len() && out[y] == l;
        assert(model_lit(m, out[y]));
    } else {
        assert(redundant_in(ca, data, l, seen));
        let c = data[l.var()@ as int].reason_spec()->0;
        assert(reason_ok(ca, vals, data, t, i));
        assert(data[t[i].var()@ as int].reason_spec() == Some(c));
        assert(ca[c@ as int]@[0] == t[i]);
        assert(model_clause(m, ca[c@ as int]@));
        let cl = ca[c@ as int]@;
        let x = choose|x: int| 0 <= x < cl.len() && model_lit(m, #[trigger] cl[x]);
        assert(lit_value(vals, t[i]) == LBool::True);
        if x == 0 {
            assert(l.negated() != t[i].negated());
            assert(false);
        } else {
            let y = cl[x];
            assert(lit_value(vals, y) == LBool::False && var_on_trail_before(t, y.var()@, i));
            let j = choose|j: int| 0 <= j < i && (#[trigger] t[j]).var()@ == y.var()@;
            Var::lemma_view_injective(t[j].var(), y.var());
            if seen[y.var()@ as int] {
                assert(lits_in_range(cl, n));
                let k2 = choose|k2: int| 1 <= k2 < lemma.len() && (#[trigger] lemma[k2]).var()@ == y.var()@;
                Var::lemma_view_injective(lemma[k2].var(), y.var());
                lemma_false_same_var(vals, lemma[k2], y);
                lemma_minimized(ca, a, lemma, out, seen, n, m, j);
            } else {
                assert(data[y.var()@ as int].level_spec() == 0);
                assert(level_fits(a.lim_spec(), data[t[j].var()@ as int].level_spec() as int, j));
                assert(units[j] == t[j]);
                assert(model_lit(m, units[j]));
                assert(lit_value(vals, t[j]) == LBool::True);
                assert(y.negated() != t[j].negated());
                assert(false);
            }
        }
    }
}

/// A literal of a reason clause skipped by the analysis is accounted for: its variable is in
/// the current-level set, or it is in the learnt clause, or it is false by a unit.
proof fn lemma_skip_accounted(
    a: &Assignment,
    lemma: Seq<Lit>,
    cur: Set<int>,
    seen: Seq<bool>,
    n: nat,
    q: Lit,
    index: int,
)
    requires
        a.wf(),
        a.lim_spec().len() > 0,
        a.values().len() == n,
        seen.len() == n,
        q.var()@ < n,
        index <= a.trail_spec().len(),
        lit_value(a.values(), q) == LBool::False,
        var_on_trail_before(a.trail_spec(), q.var()@, index),
        (seen[q.var()@ as int] && (a.data()[q.var()@ as int].level_spec() < a.lim_spec().len() || cur.contains(q.var()@ as int)))
            || a.data()[q.var()@ as int].level_spec() == 0,
        forall|v: int|
            0 <= v < n && #[trigger] seen[v] && a.data()[v].level_spec() < a.lim_spec().len() ==> exists|k: int|
                0 <= k < lemma.len() && (#[trigger] lemma[k]).var()@ == v,
        forall|k: int| 0 <= k < lemma.len() ==> lit_value(a.values(), #[trigger] lemma[k]) == LBool::False,
    ensures
        cur.contains(q.var()@ as int) || lemma.contains(q) || exists|i: int|
            0 <= i < a.trail_spec().take(a.lim_spec()[0] as int).len() && (#[trigger] a.trail_spec().take(a.lim_spec()[0] as int)[i]).var()
                == q.var() && lit_value(a.values(), a.trail_spec().take(a.lim_spec()[0] as int)[i]) == LBool::True,
{
    let t = a.trail_spec();
    let v = q.var()@ as int;
    let units = t.take(a.lim_spec()[0] as int);
    if seen[v] && a.data()[v].level_spec() < a.lim_spec().len() && !cur.contains(v) && a.data()[v].level_spec() != 0 {
        let k = choose|k: int| 0 <= k < lemma.len() && (#[trigger] lemma[k]).var()@ == v;
        Var::lemma_view_injective(lemma[k].var(), q.var());
        lemma_false_same_var(a.values(), lemma[k], q);
        assert(lemma.contains(q));
    } else if a.data()[v].level_spec() == 0 && !cur.contains(v) && !lemma.contains(q) {
        let i = choose|i: int| 0 <= i < index && (#[trigger] t[i]).var()@ == q.var()@;
        Var::lemma_view_injective(t[i].var(), q.var());
        assert(level_fits(a.lim_spec(), a.data()[t[i].var()@ as int].level_spec() as int, i));
        assert(units[i] == t[i]);
        assert(lit_value(a.values(), t[i]) == LBool::True);
    }
}

/// Dropping redundant literals (see [`lemma_minimized`]) keeps a learnt clause implied.
proof fn lemma_learnt_implied(ca: Seq<Clause>, a: &Assignment, lemma: Seq<Lit>, out: Seq<Lit>, seen: Seq<bool>, n: nat)
    requires
        a.wf(),
        a.lim_spec().len() > 0,
        implied(ca, a.trail_spec().take(a.lim_spec()[0] as int), lemma),
        reasons_ok(ca, a.values(), a.data(), a.trail_spec()),
        arena_wf(ca, n),
        a.values().len() == n,
        seen.len() == n,
        lemma.len() >= 1,
        out.len() >= 1,
        out[0] == lemma[0],
        forall|v: int| 0 <= v < n && #[trigger] seen[v] ==> exists|k: int| 1 <= k < lemma.len() && (#[trigger] lemma[k]).var()@ == v,
        forall|k: int| 1 <= k < lemma.len() ==> lit_value(a.values(), #[trigger] lemma[k]) == LBool::False && lemma[k].var()@ < n,
        forall|k: int| 1 <= k < lemma.len() ==> out.contains(#[trigger] lemma[k]) || redundant_in(ca, a.data(), lemma[k], seen),
    ensures
        implied(ca, a.trail_spec().take(a.lim_spec()[0] as int), out),
{
    let units = a.trail_spec().take(a.lim_spec()[0] as int);
    assert forall|m: spec_fn(int) -> bool| #[trigger] model_of(m, ca, units) implies model_clause(m, out) by {
        let x = choose|x: int| 0 <= x < lemma.len() && model_lit(m, #[trigger] lemma[x]);
        if x == 0 {
            assert(model_lit(m, out[0]));
        } else {
            let v = lemma[x].var()@;
            assert(a.values()[v as int] != LBool::Undef);
            let t = a.trail_spec();
            let i = choose|i: int| 0 <= i < t.len() && (#[trigger] t[i]).var()@ == v;
            Var::lemma_view_injective(t[i].var(), lemma[x].var());
            lemma_minimized(ca, a, lemma, out, seen, n, m, i);
        }
    }
}

/// A clause with the same literals as an implied one is implied.
proof fn lemma_implied_perm(ca: Seq<Clause>, units: Seq<Lit>, a: Seq<Lit>, b: Seq<Lit>)
    requires
        implied(ca, units, a),
        a.to_multiset() == b.to_multiset(),
    ensures
        implied(ca, units, b),
{
    lemma_perm_contains(a, b);
    assert forall|m: spec_fn(int) -> bool| #[trigger] model_of(m, ca, units) implies model_clause(m, b) by {
        let x = choose|x: int| 0 <= x < a.len() && model_lit(m, #[trigger] a[x]);
        assert(a.contains(a[x]));
        assert(b.contains(a[x]));
        let y = choose|y: int| 0 <= y < b.len() && b[y] == a[x];
        assert(model_lit(m, b[y]));
    }
}

/// Prefixes compose: a prefix of a prefix is a prefix.
proof fn lemma_take_take<A>(t2: Seq<A>, t1: Seq<A>, t0: Seq<A>)
    requires
        t1.len() <= t2.len(),
        t0.len() <= t1.len(),
        t2.take(t1.len() as int) == t1,
        t1.take(t0.len() as int) == t0,
    ensures
        t2.take(t0.len() as int) == t0,
{
    assert forall|j: int| 0 <= j < t0.len() implies t2[j] == t0[j] by {
        assert(t2.take(t1.len() as int)[j] == t2[j]);
        assert(t1.take(t0.len() as int)[j] == t1[j]);
    }
    assert(t2.take(t0.len() as int) =~= t0);
}

/// Going back to level `bt` unassigns the literal of the highest level of a learnt clause
/// and keeps false its literals of levels up to `bt`.
proof fn lemma_backjump(
    values0: Seq<LBool>,
    data: Seq<VarData>,
    trail0: Seq<Lit>,
    lim0: Seq<usize>,
    qhead0: nat,
    values1: Seq<LBool>,
    bt: int,
    lits: Seq<Lit>,
)
    requires
        trail_wf(values0, data, trail0, lim0, qhead0),
        0 <= bt < lim0.len(),
        values1.len() == values0.len(),
        forall|v: u32| v < values0.len() ==> #[trigger] values1[v as int] == (if var_on_removed(trail0, v, lim0[bt] as int) {
            LBool::Undef
        } else {
            values0[v as int]
        }),
        lits.len() >= 1,
        lits[0].var()@ < values0.len(),
        lit_value(values0, lits[0]) == LBool::False,
        data[lits[0].var()@ as int].level_spec() == lim0.len(),
        forall|k: int| 1 <= k < lits.len() ==> (#[trigger] lits[k]).var()@ < values0.len() && lit_value(values0, lits[k]) == LBool::False
            && data[lits[k].var()@ as int].level_spec() <= bt,
    ensures
        lit_value(values1, lits[0]) == LBool::Undef,
        forall|k: int| 1 <= k < lits.len() ==> lit_value(values1, #[trigger] lits[k]) == LBool::False,
{
    let cut = lim0[bt] as int;
    let v0 = lits[0].var()@;
    assert(values0[v0 as int] != LBool::Undef);
    assert(var_on_trail_before(trail0, v0, trail0.len() as int));
    let i0 = choose|j: int| 0 <= j < trail0.len() && (#[trigger] trail0[j]).var()@ == v0;
    assert(level_fits(lim0, lim0.len() as int, i0));
    assert(lim0[bt] <= lim0[lim0.len() - 1]);
    assert(var_on_removed(trail0, v0, cut));
    assert(values1[v0 as int] == LBool::Undef);
    assert forall|k: int| 1 <= k < lits.len() implies lit_value(values1, #[trigger] lits[k]) == LBool::False by {
        let v = lits[k].var()@;
        assert(values0[v as int] != LBool::Undef);
        assert(var_on_trail_before(trail0, v, trail0.len() as int));
        let i = choose|j: int| 0 <= j < trail0.len() && (#[trigger] trail0[j]).var()@ == v;
        let l = data[v as int].level_spec() as int;
        assert(level_fits(lim0, l, i));
        assert(lim0[l] <= lim0[bt]);
        if var_on_removed(trail0, v, cut) {
            let j = choose|j: int| cut <= j < trail0.len() && (#[trigger] trail0[j]).var()@ == v;
            crate::var::Var::lemma_view_injective(trail0[i].var(), trail0[j].var());
            assert(trail0[i].var() == trail0[j].var());
        }
        assert(values1[v as int] == values0[v as int]);
    }
}

/// The learnt clauses kept by a reduction exist when all the candidates do.
proof fn lemma_kept_refs(sorted: Seq<ClauseRef>, candidate: Seq<bool>, ca: Seq<Clause>, assignment: &Assignment, len: nat)
    requires
        refs_in(sorted, len),
    ensures
        refs_in(kept_learnts(sorted, candidate, ca, assignment), len),
    decreases sorted.len(),
{
    if sorted.len() > 0 {
        assert(refs_in(sorted.drop_last(), len)) by {
            assert forall|k: int| 0 <= k < sorted.drop_last().len() implies (#[trigger] sorted.drop_last()[k])@ < len by {
                assert(sorted.drop_last()[k] == sorted[k]);
            }
        }
        lemma_kept_refs(sorted.drop_last(), candidate.drop_last(), ca, assignment, len);
        let rest = kept_learnts(sorted.drop_last(), candidate.drop_last(), ca, assignment);
        assert(sorted.last() == sorted[sorted.len() - 1]);
        assert forall|k: int| 0 <= k < rest.push(sorted.last()).len() implies (#[trigger] rest.push(sorted.last())[k])@ < len by {
            if k < rest.len() {
                assert(rest.push(sorted.last())[k] == rest[k]);
            }
        }
    }
}

/// Whether `l` is the negation of a decision at trail position `from` or later: a literal
/// assigned without reason above level 0.
/// Every literal of `a` is a literal of `b`.
pub open spec fn lits_subset(a: Seq<Lit>, b: Seq<Lit>) -> bool {
    forall|l: Lit| #[trigger] a.contains(l) ==> b.contains(l)
}

/// The clause that `refs[r]` refers to holds, up to the order of its literals, the literals of
/// one of `lits`.
pub open spec fn listed_at(ca: Seq<Clause>, refs: Seq<ClauseRef>, r: int, lits: Seq<Vec<Lit>>) -> bool {
    exists|i: int| 0 <= i < lits.len() && #[trigger] lits[i]@.to_multiset() == ca[refs[r]@ as int]@.to_multiset()
}

/// Each clause that `refs` lists from position `from` on holds, up to the order of its
/// literals, the literals of one of `lits`.
#[verifier::opaque]
pub open spec fn refs_listed(ca: Seq<Clause>, refs: Seq<ClauseRef>, from: int, lits: Seq<Vec<Lit>>) -> bool {
    forall|r: int| from <= r < refs.len() ==> #[trigger] listed_at(ca, refs, r, lits)
}

/// Listing is kept when the listed clauses keep their literals (up to order).
proof fn lemma_refs_listed_same(ca0: Seq<Clause>, ca1: Seq<Clause>, refs: Seq<ClauseRef>, from: int, lits: Seq<Vec<Lit>>)
    requires
        refs_listed(ca0, refs, from, lits),
        forall|r: int| from <= r < refs.len() ==> (#[trigger] refs[r])@ < ca0.len(),
        forall|c: int| 0 <= c < ca0.len() ==> (#[trigger] ca1[c])@.to_multiset() == ca0[c]@.to_multiset(),
    ensures
        refs_listed(ca1, refs, from, lits),
{
    reveal(refs_listed);
    assert forall|r: int| from <= r < refs.len() implies #[trigger] listed_at(ca1, refs, r, lits) by {
        assert(listed_at(ca0, refs, r, lits));
        let i = choose|i: int| 0 <= i < lits.len() && #[trigger] lits[i]@.to_multiset() == ca0[refs[r]@ as int]@.to_multiset();
        assert(refs[r]@ < ca0.len());
        assert(ca1[refs[r]@ as int]@.to_multiset() == ca0[refs[r]@ as int]@.to_multiset());
        assert(lits[i]@.to_multiset() == ca1[refs[r]@ as int]@.to_multiset());
    }
}

/// Listing is kept when more clauses are listed against, and a new clause holding the
/// literals of a new entry of `lits` can be listed.
proof fn lemma_refs_listed_grow(
    ca0: Seq<Clause>,
    ca1: Seq<Clause>,
    refs0: Seq<ClauseRef>,
    refs1: Seq<ClauseRef>,
    from: int,
    lits0: Seq<Vec<Lit>>,
    lits1: Seq<Vec<Lit>>,
)
    requires
        refs_listed(ca0, refs0, from, lits0),
        0 <= from <= refs0.len(),
        forall|r: int| from <= r < refs0.len() ==> (#[trigger] refs0[r])@ < ca0.len(),
        ca0.len() <= ca1.len(),
        forall|c: int| 0 <= c < ca0.len() ==> #[trigger] ca1[c] == ca0[c],
        lits1.len() == lits0.len() + 1,
        forall|i: int| 0 <= i < lits0.len() ==> #[trigger] lits1[i] == lits0[i],
        refs1 == refs0 || (refs1 == refs0.push(refs1[refs1.len() - 1]) && ca1[refs1[refs1.len() - 1]@ as int]@ == lits1[lits0.len() as int]@),
    ensures
        refs_listed(ca1, refs1, from, lits1),
{
    reveal(refs_listed);
    assert forall|r: int| from <= r < refs1.len() implies #[trigger] listed_at(ca1, refs1, r, lits1) by {
        if r < refs0.len() {
            assert(refs1[r] == refs0[r]);
            assert(listed_at(ca0, refs0, r, lits0));
            let i = choose|i: int| 0 <= i < lits0.len() && #[trigger] lits0[i]@.to_multiset() == ca0[refs0[r]@ as int]@.to_multiset();
            assert(lits1[i] == lits0[i]);
            assert(ca1[refs0[r]@ as int] == ca0[refs0[r]@ as int]);
            assert(lits1[i]@.to_multiset() == ca1[refs1[r]@ as int]@.to_multiset());
        } else {
            let i = lits0.len() as int;
            assert(lits1[i]@.to_multiset() == ca1[refs1[r]@ as int]@.to_multiset());
        }
    }
}

/// The clause that `refs[r]` refers to has only literals of one clause of `out` from position
/// `o` on.
pub open spec fn covered_at(ca: Seq<Clause>, refs: Seq<ClauseRef>, r: int, out: Seq<Vec<Lit>>, o: int) -> bool {
    exists|i: int| o <= i < out.len() && #[trigger] lits_subset(ca[refs[r]@ as int]@, out[i]@)
}

/// Each clause that `refs` lists from position `from` on has only literals of one clause of
/// `out` from position `o` on.
pub open spec fn refs_covered(ca: Seq<Clause>, refs: Seq<ClauseRef>, from: int, out: Seq<Vec<Lit>>, o: int) -> bool {
    forall|r: int| from <= r < refs.len() ==> #[trigger] covered_at(ca, refs, r, out, o)
}

/// Covering is kept when clauses only lose literals.
proof fn lemma_refs_covered_shrink(ca0: Seq<Clause>, ca1: Seq<Clause>, refs: Seq<ClauseRef>, from: int, out: Seq<Vec<Lit>>, o: int)
    requires
        refs_covered(ca0, refs, from, out, o),
        forall|r: int| from <= r < refs.len() ==> (#[trigger] refs[r])@ < ca0.len(),
        forall|c: int, l: Lit| 0 <= c < ca0.len() && #[trigger] ca1[c]@.contains(l) ==> ca0[c]@.contains(l),
    ensures
        refs_covered(ca1, refs, from, out, o),
{
    assert forall|r: int| from <= r < refs.len() implies #[trigger] covered_at(ca1, refs, r, out, o) by {
        assert(covered_at(ca0, refs, r, out, o));
        let i = choose|i: int| o <= i < out.len() && #[trigger] lits_subset(ca0[refs[r]@ as int]@, out[i]@);
        assert(refs[r]@ < ca0.len());
        assert forall|l: Lit| #[trigger] ca1[refs[r]@ as int]@.contains(l) implies out[i]@.contains(l) by {
            assert(ca0[refs[r]@ as int]@.contains(l));
        }
        assert(lits_subset(ca1[refs[r]@ as int]@, out[i]@));
    }
}

/// Listed clauses have only literals of the listing entries copied to `out` from position `o`.
proof fn lemma_refs_listed_out(ca: Seq<Clause>, refs: Seq<ClauseRef>, from: int, lits: Seq<Vec<Lit>>, out: Seq<Vec<Lit>>, o: int)
    requires
        refs_listed(ca, refs, from, lits),
        0 <= o,
        out.len() == o + lits.len(),
        forall|k: int| 0 <= k < lits.len() ==> (#[trigger] out[o + k])@ == lits[k]@,
    ensures
        refs_covered(ca, refs, from, out, o),
{
    reveal(refs_listed);
    assert forall|r: int| from <= r < refs.len() implies #[trigger] covered_at(ca, refs, r, out, o) by {
        assert(listed_at(ca, refs, r, lits));
        let i = choose|i: int| 0 <= i < lits.len() && #[trigger] lits[i]@.to_multiset() == ca[refs[r]@ as int]@.to_multiset();
        let cl = ca[refs[r]@ as int]@;
        assert(out[o + i]@ == lits[i]@);
        lemma_perm_contains(cl, lits[i]@);
        assert(lits_subset(cl, out[o + i]@));
    }
}

/// Variable `b` is one of the other variables, assigned above level 0, of the reason clause of
/// variable `a`: `a` was implied by unit propagation in part because of `b`.
pub open spec fn reason_step(ca: Seq<Clause>, data: Seq<VarData>, a: int, b: int) -> bool {
    match data[a].reason_spec() {
        Some(c) => exists|k: int|
            1 <= k < ca[c@ as int]@.len() && (#[trigger] ca[c@ as int]@[k]).var()@ as int == b && data[b].level_spec() > 0,
        None => false,
    }
}

/// Each variable of `path` after the first is one step through a reason clause from the one
/// before (see [`reason_step`]).
pub open spec fn reason_path(ca: Seq<Clause>, data: Seq<VarData>, path: Seq<int>) -> bool {
    forall|i: int| 0 <= i < path.len() - 1 ==> reason_step(ca, data, #[trigger] path[i], path[i + 1])
}

/// Variable `b` is in the implication cone of variable `a`: reached from `a` through reason
/// clauses.
pub open spec fn reason_reach(ca: Seq<Clause>, data: Seq<VarData>, a: int, b: int) -> bool {
    exists|path: Seq<int>| #[trigger] reason_path(ca, data, path) && path.len() >= 1 && path[0] == a && path[path.len() - 1] == b
}

/// `l` is the negation of a decision (a literal of `trail` from `from` on, assigned without
/// reason above level 0) in the implication cone of `p`'s variable.
pub open spec fn negated_cone_decision(ca: Seq<Clause>, data: Seq<VarData>, trail: Seq<Lit>, from: int, p: Lit, l: Lit) -> bool {
    exists|j: int|
        from <= j < trail.len() && l == (#[trigger] trail[j]).negate_spec() && data[trail[j].var()@ as int].reason_spec() is None
            && data[trail[j].var()@ as int].level_spec() > 0 && reason_reach(ca, data, p.var()@ as int, trail[j].var()@ as int)
}

/// Extending a path through reason clauses by one step.
proof fn lemma_reach_step(ca: Seq<Clause>, data: Seq<VarData>, a: int, b: int, c: int)
    requires
        reason_reach(ca, data, a, b),
        reason_step(ca, data, b, c),
    ensures
        reason_reach(ca, data, a, c),
{
    let path = choose|path: Seq<int>| #[trigger] reason_path(ca, data, path) && path.len() >= 1 && path[0] == a && path[path.len() - 1] == b;
    let p2 = path.push(c);
    assert forall|i: int| 0 <= i < p2.len() - 1 implies reason_step(ca, data, #[trigger] p2[i], p2[i + 1]) by {
        if i < path.len() - 1 {
            assert(p2[i] == path[i] && p2[i + 1] == path[i + 1]);
        } else {
            assert(p2[i] == b && p2[i + 1] == c);
        }
    }
    assert(reason_path(ca, data, p2));
}

pub open spec fn negated_decision(data: Seq<VarData>, trail: Seq<Lit>, from: int, l: Lit) -> bool {
    exists|j: int|
        from <= j < trail.len() && l == (#[trigger] trail[j]).negate_spec() && data[trail[j].var()@ as int].reason_spec() is None
            && data[trail[j].var()@ as int].level_spec() > 0
}

/// Going back to `level` after assigning true assumptions above it: each assumption stays
/// true or was assigned above the level (so it is among the removed literals), and every
/// removed literal is unassigned.
proof fn lemma_backtrack_assumptions(
    values0: Seq<LBool>,
    data: Seq<VarData>,
    trail0: Seq<Lit>,
    lim0: Seq<usize>,
    qhead0: nat,
    values1: Seq<LBool>,
    level: int,
    assumptions: Seq<Lit>,
    props: Seq<Lit>,
)
    requires
        trail_wf(values0, data, trail0, lim0, qhead0),
        0 <= level < lim0.len(),
        values1.len() == values0.len(),
        forall|v: u32| v < values0.len() ==> #[trigger] values1[v as int] == (if var_on_removed(trail0, v, lim0[level] as int) {
            LBool::Undef
        } else {
            values0[v as int]
        }),
        forall|k: int| 0 <= k < assumptions.len() ==> (#[trigger] assumptions[k]).var()@ < values0.len() && lit_value(values0, assumptions[k]) == LBool::True,
        props == trail0.subrange(lim0[level] as int, trail0.len() as int),
    ensures
        forall|k: int| 0 <= k < assumptions.len() ==> lit_value(values1, #[trigger] assumptions[k]) == LBool::True || props.contains(assumptions[k]),
        forall|k: int| 0 <= k < props.len() ==> lit_value(values1, #[trigger] props[k]) == LBool::Undef,
{
    let cut = lim0[level] as int;
    assert(lim0[level] <= trail0.len());
    assert forall|k: int| 0 <= k < assumptions.len() implies lit_value(values1, #[trigger] assumptions[k]) == LBool::True || props.contains(assumptions[k]) by {
        let a = assumptions[k];
        let v = a.var()@;
        if var_on_removed(trail0, v, cut) {
            let j = choose|j: int| cut <= j < trail0.len() && (#[trigger] trail0[j]).var()@ == v;
            crate::var::Var::lemma_view_injective(trail0[j].var(), a.var());
            assert(lit_value(values0, trail0[j]) == LBool::True);
            Lit::lemma_var_negated_determine(trail0[j], a);
            assert(props[j - cut] == trail0[j]);
        } else {
            assert(values1[v as int] == values0[v as int]);
        }
    }
    assert forall|k: int| 0 <= k < props.len() implies lit_value(values1, #[trigger] props[k]) == LBool::Undef by {
        assert(props[k] == trail0[cut + k]);
        let v = props[k].var()@;
        assert(var_on_removed(trail0, v, cut));
        assert(values1[v as int] == LBool::Undef);
    }
}

/// After a check by unit propagation from a level-0 state with trail `ot` that ended without
/// conflict, with every decision a literal of `cube`: every literal of the trail is forced by
/// `ot` and `cube`, and every literal they force is true.
proof fn lemma_success_forced(s: &Solver, ot: Seq<Lit>, cube: Seq<Lit>)
    requires
        s.inv(),
        s.watches_sound(),
        s.propagated(),
        ot.len() <= s.trail().len(),
        s.trail().take(ot.len() as int) == ot,
        live_reasons_from(s.clauses_spec(), s.assignment_spec().data(), s.trail(), ot.len() as int),
        decisions_in(s.trail(), s.assignment_spec().lim_spec(), 0, cube),
        forall|i: int| 0 <= i < (ot + cube).len() ==> lit_value(s.values(), #[trigger] (ot + cube)[i]) == LBool::True,
    ensures
        forall|j: int|
            0 <= j < s.trail().len() ==> up_forced(s.clauses_spec(), ot + cube, s.num_vars_spec(), #[trigger] s.trail()[j]) && s.trail()[j].var()@
                < s.num_vars_spec(),
        forall|l: Lit| #[trigger] up_forced(s.clauses_spec(), ot + cube, s.num_vars_spec(), l) ==> lit_value(s.values(), l) == LBool::True,
{
    let units = ot + cube;
    let t = s.trail();
    let data = s.assignment_spec().data();
    let lim = s.assignment_spec().lim_spec();
    assert forall|j: int| 0 <= j < ot.len() implies units.contains(#[trigger] t[j]) by {
        assert(t.take(ot.len() as int)[j] == t[j]);
        assert(units[j] == t[j]);
    }
    assert forall|j: int| ot.len() <= j < t.len() && (#[trigger] data[t[j].var()@ as int]).reason_spec() is None implies units.contains(
        t[j],
    ) by {
        reveal(live_reasons_from);
        let lvl = data[t[j].var()@ as int].level_spec() as int;
        assert(lvl > 0);
        assert(level_fits(lim, lvl, j));
        assert(decisions_ok(data, t, lim));
        assert(j == lim[lvl - 1]);
        assert(cube.contains(t[lim[lvl - 1] as int]));
        let kk = choose|kk: int| 0 <= kk < cube.len() && cube[kk] == t[j];
        assert(units[ot.len() + kk] == t[j]);
    }
    assert forall|j: int| 0 <= j < t.len() implies up_forced(s.clauses_spec(), units, s.num_vars_spec(), #[trigger] t[j]) && t[j].var()@
        < s.num_vars_spec() by {
        lemma_trail_forced(s, ot.len() as int, units, j);
    }
    lemma_values_up_closed(s);
    assert forall|l: Lit| #[trigger] up_forced(s.clauses_spec(), units, s.num_vars_spec(), l) implies lit_value(s.values(), l) == LBool::True by {
        assert(up_closed(s.clauses_spec(), s.values()));
    }
}

/// Going back to level 0 after a check whose trail from the start of level 1 on (`props`)
/// is forced by `units`, from an assignment closed under unit propagation that makes `units`
/// true: `props` holds, once each, exactly the literals forced by `units` that are left
/// unassigned.
proof fn lemma_backtrack_forced(
    values0: Seq<LBool>,
    data: Seq<VarData>,
    trail0: Seq<Lit>,
    lim0: Seq<usize>,
    qhead0: nat,
    values1: Seq<LBool>,
    props: Seq<Lit>,
    ca: Seq<Clause>,
    units: Seq<Lit>,
    n: nat,
)
    requires
        trail_wf(values0, data, trail0, lim0, qhead0),
        0 < lim0.len(),
        values1.len() == values0.len(),
        values0.len() == n,
        forall|v: u32| v < values0.len() ==> #[trigger] values1[v as int] == (if var_on_removed(trail0, v, lim0[0] as int) {
            LBool::Undef
        } else {
            values0[v as int]
        }),
        props == trail0.subrange(lim0[0] as int, trail0.len() as int),
        forall|j: int| 0 <= j < trail0.len() ==> up_forced(ca, units, n, #[trigger] trail0[j]),
        forall|l: Lit| #[trigger] up_forced(ca, units, n, l) ==> lit_value(values0, l) == LBool::True,
    ensures
        props.no_duplicates(),
        forall|l: Lit|
            #![trigger props.contains(l)]
            #![trigger up_forced(ca, units, n, l)]
            props.contains(l) <==> (l.var()@ < n && lit_value(values1, l) == LBool::Undef && up_forced(ca, units, n, l)),
{
    lemma_backtrack_removed(values0, data, trail0, lim0, qhead0, values1, 0, props);
    let cut = lim0[0] as int;
    assert(lim0[0] <= trail0.len());
    assert forall|l: Lit| props.contains(l) implies (l.var()@ < n && lit_value(values1, l) == LBool::Undef && up_forced(ca, units, n, l)) by {
        let k = choose|k: int| 0 <= k < props.len() && props[k] == l;
        assert(props[k] == trail0[cut + k]);
        assert(var_on_removed(trail0, l.var()@, cut));
        assert(up_forced(ca, units, n, trail0[cut + k]));
    }
    assert forall|l: Lit| #![trigger up_forced(ca, units, n, l)] (l.var()@ < n && lit_value(values1, l) == LBool::Undef && up_forced(ca, units, n, l))
        implies props.contains(l) by {
        assert(lit_value(values0, l) == LBool::True);
    }
}

/// Going back to `level` leaves unassigned exactly the literals of the trail from the start
/// of level `level + 1` on: each literal true before and unassigned after is among them, and
/// none of them occurs twice.
proof fn lemma_backtrack_removed(
    values0: Seq<LBool>,
    data: Seq<VarData>,
    trail0: Seq<Lit>,
    lim0: Seq<usize>,
    qhead0: nat,
    values1: Seq<LBool>,
    level: int,
    props: Seq<Lit>,
)
    requires
        trail_wf(values0, data, trail0, lim0, qhead0),
        0 <= level < lim0.len(),
        values1.len() == values0.len(),
        forall|v: u32| v < values0.len() ==> #[trigger] values1[v as int] == (if var_on_removed(trail0, v, lim0[level] as int) {
            LBool::Undef
        } else {
            values0[v as int]
        }),
        props == trail0.subrange(lim0[level] as int, trail0.len() as int),
    ensures
        props.no_duplicates(),
        forall|l: Lit|
            l.var()@ < values0.len() && lit_value(values0, l) == LBool::True && lit_value(values1, l) == LBool::Undef ==> #[trigger] props.contains(l),
{
    let cut = lim0[level] as int;
    assert(lim0[level] <= trail0.len());
    assert forall|i: int, j: int| 0 <= i < props.len() && 0 <= j < props.len() && i != j implies props[i] != props[j] by {
        assert(props[i] == trail0[cut + i]);
        assert(props[j] == trail0[cut + j]);
        assert(trail0[cut + i].var() != trail0[cut + j].var());
    }
    assert forall|l: Lit|
        l.var()@ < values0.len() && lit_value(values0, l) == LBool::True && lit_value(values1, l) == LBool::Undef implies #[trigger] props.contains(l) by {
        let v = l.var()@;
        assert(values0[v as int] != LBool::Undef);
        assert(values1[v as int] == LBool::Undef);
        assert(var_on_removed(trail0, v, cut));
        let j = choose|j: int| cut <= j < trail0.len() && (#[trigger] trail0[j]).var()@ == v;
        crate::var::Var::lemma_view_injective(trail0[j].var(), l.var());
        assert(lit_value(values0, trail0[j]) == LBool::True);
        Lit::lemma_var_negated_determine(trail0[j], l);
        assert(props[j - cut] == trail0[j]);
    }
}

/// Whether `lits` assigns to `vars` a sign vector that is a path of `trie`.
pub open spec fn trie_cube(trie: &Trie, vars: Seq<Var>, lits: Seq<Lit>) -> bool {
    exists|w: Seq<bool>|
        w.len() == vars.len() && follow(trie.nodes_spec(), trie.root_spec(), w) != 0 && lits == #[trigger] cube_lits_spec(vars, w)
}

/// Whether every literal of a clause is false.
pub open spec fn clause_false(lits: Seq<Lit>, values: Seq<LBool>) -> bool {
    forall|k: int| 0 <= k < lits.len() ==> lit_value(values, #[trigger] lits[k]) == LBool::False
}

/// Whether some literal of `lits` is true under `values`.
pub open spec fn clause_true(lits: Seq<Lit>, values: Seq<LBool>) -> bool {
    exists|k: int| 0 <= k < lits.len() && lit_value(values, #[trigger] lits[k]) == LBool::True
}

/// Every event is an activity bump of a variable or a clause.
pub open spec fn bump_events(s: Seq<ActivityEvent>) -> bool {
    forall|i: int| 0 <= i < s.len() ==> (#[trigger] s[i] is BumpVar || s[i] is BumpClause)
}

/// `out` is the clause `m` minimized: the same first literal, and of the others exactly
/// those that are not redundant, a literal being redundant when its reason clause exists and
/// each other literal of that clause is one of the later literals of `m` or assigned at level 0.
pub open spec fn minimized_from(out: Seq<Lit>, m: Seq<Lit>, ca: Seq<Clause>, data: Seq<VarData>, n: nat) -> bool {
    &&& m.len() >= 1
    &&& out.len() >= 1
    &&& out[0] == m[0]
    &&& forall|k: int| 1 <= k < out.len() ==> exists|j: int| 1 <= j < m.len() && m[j] == #[trigger] out[k]
    &&& forall|j: int| 1 <= j < m.len() ==> (out.contains(#[trigger] m[j]) <==> !redundant_in(ca, data, m[j], later_vars(m, n)))
}

/// `out` is a clause `m` minimized (see [`minimized_from`]) whose later literals are false,
/// assigned above level 0 and below level `top`, and of the variables `low`.
#[verifier::opaque]
pub open spec fn minimized_learnt(
    out: Seq<Lit>,
    ca: Seq<Clause>,
    data: Seq<VarData>,
    values: Seq<LBool>,
    n: nat,
    top: nat,
    low: Set<int>,
) -> bool {
    exists|m: Seq<Lit>|
        #[trigger] minimized_from(out, m, ca, data, n) && (forall|j: int|
            1 <= j < m.len() ==> lit_value(values, #[trigger] m[j]) == LBool::False && 0 < data[m[j].var()@ as int].level_spec() < top) && forall|v: int|
            0 <= v < n ==> (#[trigger] later_vars(m, n)[v] <==> low.contains(v))
}

/// The variables below `n` of the literals of `lits` after the first.
pub open spec fn later_vars(lits: Seq<Lit>, n: nat) -> Seq<bool> {
    Seq::new(n, |v: int| exists|j: int| 1 <= j < lits.len() && (#[trigger] lits[j]).var()@ == v)
}

/// A literal that the learnt clause keeps besides the asserting literal: false, marked
/// `seen`, and assigned at a level strictly between 0 and `top`.
spec fn lemma_lit_ok(data: Seq<VarData>, values: Seq<LBool>, n: nat, top: nat, seen: Seq<bool>, l: Lit) -> bool {
    &&& l.var()@ < n
    &&& lit_value(values, l) == LBool::False
    &&& seen[l.var()@ as int]
    &&& 0 < data[l.var()@ as int].level_spec() < top
}

/// The state of a conflict analysis: `seen` marks the variables met, `cur` holds the
/// current-level ones still to resolve (all on the trail below `index`), `active` counts
/// them, and `lemma` holds the lower-level literals met.
/// The variables of the literals of `cl` assigned at level `top`.
pub open spec fn level_vars(cl: Seq<Lit>, data: Seq<VarData>, top: nat) -> Set<int> {
    Set::new(|v: int| exists|k: int| 0 <= k < cl.len() && (#[trigger] cl[k]).var()@ as int == v && data[v].level_spec() == top)
}

/// First-UIP resolution of the conflict clause `confl` along the trail `t`, from its end down
/// to position `i`: the variables of level `top` still to resolve. Going down the trail, a
/// variable met that is still to resolve, while others are too, is replaced by the level-`top`
/// variables of the other literals of its reason clause. When one variable is left, it is the
/// first unique implication point.
pub open spec fn uip_front(ca: Seq<Clause>, data: Seq<VarData>, t: Seq<Lit>, top: nat, confl: int, i: nat) -> Set<int>
    decreases t.len() - i,
{
    if i >= t.len() {
        level_vars(ca[confl]@, data, top)
    } else {
        let f = uip_front(ca, data, t, top, confl, i + 1);
        let v = t[i as int].var()@ as int;
        if f.contains(v) && f.len() > 1 {
            match data[v].reason_spec() {
                Some(c) => f.remove(v).union(level_vars(ca[c@ as int]@.skip(1), data, top)),
                None => f.remove(v),
            }
        } else {
            f
        }
    }
}

/// The variables of the literals of `cl` assigned above level 0 and below level `top`.
pub open spec fn mid_vars(cl: Seq<Lit>, data: Seq<VarData>, top: nat) -> Set<int> {
    Set::new(|v: int| exists|k: int| 0 <= k < cl.len() && (#[trigger] cl[k]).var()@ as int == v && 0 < data[v].level_spec() < top)
}

/// The variables of the literals of `lits`.
pub open spec fn lit_vars(lits: Seq<Lit>) -> Set<int> {
    Set::new(|v: int| exists|k: int| 0 <= k < lits.len() && (#[trigger] lits[k]).var()@ as int == v)
}

/// The variables assigned above level 0 and below level `top` met by the first-UIP resolution
/// (see [`uip_front`]) from the end of the trail down to position `i`: those of the conflict
/// clause and of the reason clauses resolved.
pub open spec fn uip_low(ca: Seq<Clause>, data: Seq<VarData>, t: Seq<Lit>, top: nat, confl: int, i: nat) -> Set<int>
    decreases t.len() - i,
{
    if i >= t.len() {
        mid_vars(ca[confl]@, data, top)
    } else {
        let lo = uip_low(ca, data, t, top, confl, i + 1);
        let f = uip_front(ca, data, t, top, confl, i + 1);
        let v = t[i as int].var()@ as int;
        if f.contains(v) && f.len() > 1 {
            match data[v].reason_spec() {
                Some(c) => lo.union(mid_vars(ca[c@ as int]@.skip(1), data, top)),
                None => lo,
            }
        } else {
            lo
        }
    }
}

/// The variables of `cl` above level 0 and below level `top` from position `j` on.
proof fn lemma_mid_vars_skip(cl: Seq<Lit>, data: Seq<VarData>, top: nat, j: int)
    requires
        0 <= j < cl.len(),
    ensures
        mid_vars(cl.skip(j), data, top) == (if 0 < data[cl[j].var()@ as int].level_spec() < top {
            set![cl[j].var()@ as int]
        } else {
            Set::<int>::empty()
        }).union(mid_vars(cl.skip(j + 1), data, top)),
        mid_vars(cl.skip(cl.len() as int), data, top) == Set::<int>::empty(),
{
    let a = cl.skip(j);
    let b = cl.skip(j + 1);
    let h = if 0 < data[cl[j].var()@ as int].level_spec() < top {
        set![cl[j].var()@ as int]
    } else {
        Set::<int>::empty()
    };
    assert forall|v: int| #[trigger] mid_vars(a, data, top).contains(v) <==> h.union(mid_vars(b, data, top)).contains(v) by {
        if mid_vars(a, data, top).contains(v) {
            let k = choose|k: int| 0 <= k < a.len() && (#[trigger] a[k]).var()@ as int == v && 0 < data[v].level_spec() < top;
            if k > 0 {
                assert(b[k - 1] == a[k]);
            } else {
                assert(a[0] == cl[j]);
            }
        }
        if mid_vars(b, data, top).contains(v) {
            let k = choose|k: int| 0 <= k < b.len() && (#[trigger] b[k]).var()@ as int == v && 0 < data[v].level_spec() < top;
            assert(a[k + 1] == b[k]);
        }
        if h.contains(v) {
            assert(a[0] == cl[j]);
        }
    }
    assert(mid_vars(a, data, top) =~= h.union(mid_vars(b, data, top)));
    assert(mid_vars(cl.skip(cl.len() as int), data, top) =~= Set::<int>::empty());
}

/// The level-`top` variables of `cl` from position `j` on: those of `cl[j]`, then the rest.
proof fn lemma_level_vars_skip(cl: Seq<Lit>, data: Seq<VarData>, top: nat, j: int)
    requires
        0 <= j < cl.len(),
    ensures
        level_vars(cl.skip(j), data, top) == (if data[cl[j].var()@ as int].level_spec() == top {
            set![cl[j].var()@ as int]
        } else {
            Set::<int>::empty()
        }).union(level_vars(cl.skip(j + 1), data, top)),
{
    let a = cl.skip(j);
    let b = cl.skip(j + 1);
    assert forall|v: int| #[trigger] level_vars(a, data, top).contains(v) <==> ((if data[cl[j].var()@ as int].level_spec() == top {
        set![cl[j].var()@ as int]
    } else {
        Set::<int>::empty()
    }).union(level_vars(b, data, top))).contains(v) by {
        if level_vars(a, data, top).contains(v) {
            let k = choose|k: int| 0 <= k < a.len() && (#[trigger] a[k]).var()@ as int == v && data[v].level_spec() == top;
            if k > 0 {
                assert(b[k - 1] == a[k]);
            } else {
                assert(a[0] == cl[j]);
            }
        }
        if level_vars(b, data, top).contains(v) {
            let k = choose|k: int| 0 <= k < b.len() && (#[trigger] b[k]).var()@ as int == v && data[v].level_spec() == top;
            assert(a[k + 1] == b[k]);
        }
        if data[cl[j].var()@ as int].level_spec() == top && v == cl[j].var()@ as int {
            assert(a[0] == cl[j]);
        }
    }
    assert(level_vars(a, data, top) =~= (if data[cl[j].var()@ as int].level_spec() == top {
        set![cl[j].var()@ as int]
    } else {
        Set::<int>::empty()
    }).union(level_vars(b, data, top)));
}

/// Past the end of a clause there is no variable left.
proof fn lemma_level_vars_end(cl: Seq<Lit>, data: Seq<VarData>, top: nat)
    ensures
        level_vars(cl.skip(cl.len() as int), data, top) == Set::<int>::empty(),
{
    assert(level_vars(cl.skip(cl.len() as int), data, top) =~= Set::<int>::empty());
}

/// Going down over trail positions whose variables are not to resolve changes nothing.
proof fn lemma_front_scan(ca: Seq<Clause>, data: Seq<VarData>, t: Seq<Lit>, top: nat, confl: int, lo: nat, hi: nat)
    requires
        lo <= hi <= t.len(),
        forall|i: int| lo <= i < hi ==> !uip_front(ca, data, t, top, confl, hi).contains((#[trigger] t[i]).var()@ as int),
    ensures
        uip_front(ca, data, t, top, confl, lo) == uip_front(ca, data, t, top, confl, hi),
        uip_low(ca, data, t, top, confl, lo) == uip_low(ca, data, t, top, confl, hi),
    decreases hi - lo,
{
    if lo < hi {
        lemma_front_scan(ca, data, t, top, confl, lo + 1, hi);
        assert(!uip_front(ca, data, t, top, confl, hi).contains(t[lo as int].var()@ as int));
    }
}

/// Once one variable is left, it stays.
proof fn lemma_front_single(ca: Seq<Clause>, data: Seq<VarData>, t: Seq<Lit>, top: nat, confl: int, lo: nat, hi: nat)
    requires
        lo <= hi <= t.len(),
        uip_front(ca, data, t, top, confl, hi).finite(),
        uip_front(ca, data, t, top, confl, hi).len() == 1,
    ensures
        uip_front(ca, data, t, top, confl, lo) == uip_front(ca, data, t, top, confl, hi),
        uip_low(ca, data, t, top, confl, lo) == uip_low(ca, data, t, top, confl, hi),
    decreases hi - lo,
{
    if lo < hi {
        lemma_front_single(ca, data, t, top, confl, lo + 1, hi);
    }
}

spec fn analysis_ok(
    data: Seq<VarData>,
    trail: Seq<Lit>,
    values: Seq<LBool>,
    n: nat,
    top: nat,
    start: int,
    seen: Seq<bool>,
    cur: Set<int>,
    active: nat,
    lemma: Seq<Lit>,
    index: int,
) -> bool {
    &&& seen.len() == n
    &&& cur.finite()
    &&& active == cur.len()
    &&& forall|v: int| 0 <= v < n && #[trigger] seen[v] ==> data[v].level_spec() > 0 && (data[v].level_spec() < top || cur.contains(v))
    &&& forall|v: int|
        #[trigger] cur.contains(v) ==> 0 <= v < n && seen[v] && data[v].level_spec() == top && exists|i: int|
            start <= i < index && (#[trigger] trail[i]).var()@ == v
    &&& forall|k: int| 0 <= k < lemma.len() ==> lemma_lit_ok(data, values, n, top, seen, #[trigger] lemma[k])
}

/// Appending a bump event keeps the events after `ev0` bumps.
proof fn lemma_push_bump(ev0: Seq<ActivityEvent>, e0: Seq<ActivityEvent>, e: ActivityEvent)
    requires
        e0.len() >= ev0.len(),
        e0.take(ev0.len() as int) == ev0,
        bump_events(e0.skip(ev0.len() as int)),
        e is BumpVar || e is BumpClause,
    ensures
        e0.push(e).len() >= ev0.len(),
        e0.push(e).take(ev0.len() as int) == ev0,
        bump_events(e0.push(e).skip(ev0.len() as int)),
{
    assert(e0.push(e).skip(ev0.len() as int) =~= e0.skip(ev0.len() as int).push(e));
    assert(e0.push(e).take(ev0.len() as int) =~= e0.take(ev0.len() as int));
    let s = e0.push(e).skip(ev0.len() as int);
    assert forall|i: int| 0 <= i < s.len() implies (#[trigger] s[i] is BumpVar || s[i] is BumpClause) by {
        if i < s.len() - 1 {
            assert(s[i] == e0.skip(ev0.len() as int)[i]);
        }
    }
}

/// Above level 0, a trail literal is assigned at the current level exactly when it lies at
/// or after the start of that level, and never above it.
proof fn lemma_top_level(values: Seq<LBool>, data: Seq<VarData>, trail: Seq<Lit>, lim: Seq<usize>, qhead: nat, i: int)
    requires
        trail_wf(values, data, trail, lim, qhead),
        lim.len() > 0,
        0 <= i < trail.len(),
    ensures
        data[trail[i].var()@ as int].level_spec() <= lim.len(),
        (data[trail[i].var()@ as int].level_spec() == lim.len()) <==> (lim[lim.len() - 1] <= i),
{
    let l = data[trail[i].var()@ as int].level_spec() as int;
    assert(level_fits(lim, l, i));
    if l < lim.len() {
        assert(lim[l] <= lim[lim.len() - 1]);
    }
}

/// A literal whose variable is below `n` has a slot among `2 * n` watch lists.
proof fn lemma_lit_slot(l: Lit, n: nat)
    requires
        l.var()@ < n,
    ensures
        (l@ as int) < 2 * n,
{
    let c = l@;
    assert(c <= 2 * (c >> 1u32) + 1) by (bit_vector);
    crate::lit::lemma_lit_var_view(l);
}


/// A clause or literal that follows from a formula follows from it with one more clause.
proof fn lemma_entails_push(f: Seq<Seq<Lit>>, extra: Seq<Lit>)
    ensures
        forall|cl: Seq<Lit>| #[trigger] entails(f, cl) ==> entails(f.push(extra), cl),
        forall|l: Lit| #[trigger] entails_lit(f, l) ==> entails_lit(f.push(extra), l),
        unsatisfiable(f) ==> unsatisfiable(f.push(extra)),
        entails(f.push(extra), extra),
{
    assert forall|m: spec_fn(int) -> bool| #[trigger] formula_model(m, f.push(extra)) implies formula_model(m, f) && model_clause(m, extra) by {
        assert forall|c: int| 0 <= c < f.len() implies model_clause(m, #[trigger] f[c]) by {
            assert(f.push(extra)[c] == f[c]);
        }
        assert(f.push(extra)[f.len() as int] == extra);
    }
}

/// A clause with the same literals as an entailed one is entailed.
proof fn lemma_entails_perm(f: Seq<Seq<Lit>>, a: Seq<Lit>, b: Seq<Lit>)
    requires
        entails(f, a),
        a.to_multiset() == b.to_multiset(),
    ensures
        entails(f, b),
{
    lemma_perm_contains(a, b);
    assert forall|m: spec_fn(int) -> bool| #[trigger] formula_model(m, f) implies model_clause(m, b) by {
        let x = choose|x: int| 0 <= x < a.len() && model_lit(m, #[trigger] a[x]);
        assert(a.contains(a[x]));
        assert(b.contains(a[x]));
        let y = choose|y: int| 0 <= y < b.len() && b[y] == a[x];
        assert(model_lit(m, b[y]));
    }
}

/// A clause implied by entailed clauses and entailed units is entailed.
/// Unit propagation without conflict stays so over the same clauses reordered, and for fewer
/// units.
proof fn lemma_up_consistent_same(ca0: Seq<Clause>, ca1: Seq<Clause>, u0: Seq<Lit>, u1: Seq<Lit>, n: nat)
    requires
        same_clauses(ca0, ca1),
        up_consistent(ca1, u1, n),
        forall|i: int| 0 <= i < u0.len() ==> u1.contains(#[trigger] u0[i]),
    ensures
        up_consistent(ca0, u0, n),
{
    let a = choose|a: Seq<LBool>|
        a.len() == n && #[trigger] up_closed(ca1, a) && forall|i: int| 0 <= i < u1.len() ==> lit_value(a, #[trigger] u1[i]) == LBool::True;
    reveal(up_closed);
    assert forall|c: int, l: Lit|
        0 <= c < ca0.len() && !ca0[c].deleted_spec() && #[trigger] ca0[c]@.to_multiset().count(l) > 0 && (forall|l2: Lit|
            #[trigger] ca0[c]@.to_multiset().remove(l).count(l2) > 0 ==> lit_value(a, l2) == LBool::False) implies lit_value(a, l)
        == LBool::True by {
        assert(ca1[c]@.to_multiset() == ca0[c]@.to_multiset());
        assert(ca1[c]@.to_multiset().count(l) > 0);
    }
    assert(up_closed(ca0, a));
    assert forall|i: int| 0 <= i < u0.len() implies lit_value(a, #[trigger] u0[i]) == LBool::True by {
        let j = choose|j: int| 0 <= j < u1.len() && u1[j] == u0[i];
        assert(lit_value(a, u1[j]) == LBool::True);
    }
}

/// With propagation complete and nothing left to propagate, the assignment is closed under
/// unit propagation.
proof fn lemma_values_up_closed(s: &Solver)
    requires
        s.inv(),
        s.watches_sound(),
        s.propagated(),
    ensures
        up_closed(s.clauses_spec(), s.values()),
{
    reveal(up_closed);
    let ca = s.clauses_spec();
    let vals = s.values();
    let t = s.trail();
    assert forall|c: int, l: Lit|
        0 <= c < ca.len() && !ca[c].deleted_spec() && #[trigger] ca[c]@.to_multiset().count(l) > 0 && (forall|l2: Lit|
            #[trigger] ca[c]@.to_multiset().remove(l).count(l2) > 0 ==> lit_value(vals, l2) == LBool::False) implies lit_value(vals, l)
        == LBool::True by {
        let cl = ca[c]@;
        cl.to_multiset_ensures();
        assert(cl.contains(l));
        let k = choose|k: int| 0 <= k < cl.len() && cl[k] == l;
        vstd::seq_lib::to_multiset_remove(cl, k);
        let rest = cl.remove(k);
        rest.to_multiset_ensures();
        assert forall|j: int| 0 <= j < cl.len() && j != k implies lit_value(vals, #[trigger] cl[j]) == LBool::False by {
            let jj = if j < k { j } else { j - 1 };
            assert(rest[jj] == cl[j]);
            assert(rest.contains(cl[j]));
            assert(cl.to_multiset().remove(l).count(cl[j]) > 0);
        }
        assert(cl.len() >= 2);
        let w: int = if k == 0 { 1 } else { 0 };
        assert(lit_value(vals, cl[w]) == LBool::False);
        let v = cl[w].var();
        assert(lits_in_range(cl, s.num_vars_spec()));
        assert(vals[v@ as int] != LBool::Undef);
        assert(var_on_trail_before(t, v@, t.len() as int));
        assert(satisfied_by_level(cl, vals, s.assignment_spec().data(), s.assignment_spec().data()[v@ as int].level_spec()));
        let j = choose|j: int| 0 <= j < cl.len() && lit_value(vals, #[trigger] cl[j]) == LBool::True && s.assignment_spec().data()[cl[j].var()@ as int].level_spec() <= s.assignment_spec().data()[v@ as int].level_spec();
        if j != k {
            assert(lit_value(vals, cl[j]) == LBool::False);
        }
    }
}

proof fn lemma_implied_entailed(f: Seq<Seq<Lit>>, ca: Seq<Clause>, units: Seq<Lit>, cl: Seq<Lit>)
    requires
        forall|c: int| 0 <= c < ca.len() ==> entails(f, #[trigger] ca[c]@),
        forall|i: int| 0 <= i < units.len() ==> entails_lit(f, #[trigger] units[i]),
        implied(ca, units, cl),
    ensures
        entails(f, cl),
{
    assert forall|m: spec_fn(int) -> bool| #[trigger] formula_model(m, f) implies model_clause(m, cl) by {
        assert forall|c: int| 0 <= c < ca.len() implies model_clause(m, #[trigger] ca[c]@) by {
            assert(entails(f, ca[c]@));
        }
        assert forall|i: int| 0 <= i < units.len() implies model_lit(m, #[trigger] units[i]) by {
            assert(entails_lit(f, units[i]));
        }
        assert(model_of(m, ca, units));
    }
}

/// Trail literals assigned with a reason follow from the formula when the clauses and the
/// literals before them do.
proof fn lemma_units_by_reasons(f: Seq<Seq<Lit>>, ca: Seq<Clause>, a: &Assignment, from: int, g: int)
    requires
        a.wf(),
        forall|c: int| 0 <= c < ca.len() ==> entails(f, #[trigger] ca[c]@),
        reasons_ok(ca, a.values(), a.data(), a.trail_spec()),
        0 <= from <= g <= a.trail_spec().len(),
        forall|i: int| 0 <= i < from ==> entails_lit(f, #[trigger] a.trail_spec()[i]),
        forall|i: int| from <= i < g ==> (#[trigger] a.data()[a.trail_spec()[i].var()@ as int]).reason_spec() is Some,
    ensures
        forall|i: int| 0 <= i < g ==> entails_lit(f, #[trigger] a.trail_spec()[i]),
    decreases g - from,
{
    if from < g {
        let t = a.trail_spec();
        let vals = a.values();
        let i = from;
        assert(a.data()[t[i].var()@ as int].reason_spec() is Some);
        assert(reason_ok(ca, vals, a.data(), t, i));
        let c = a.data()[t[i].var()@ as int].reason_spec()->0;
        let cl = ca[c@ as int]@;
        assert forall|m: spec_fn(int) -> bool| #[trigger] formula_model(m, f) implies model_lit(m, t[i]) by {
            assert(entails(f, cl));
            assert(model_clause(m, cl));
            let x = choose|x: int| 0 <= x < cl.len() && model_lit(m, #[trigger] cl[x]);
            if x > 0 {
                let y = cl[x];
                assert(lit_value(vals, y) == LBool::False && var_on_trail_before(t, y.var()@, i));
                let j = choose|j: int| 0 <= j < i && (#[trigger] t[j]).var()@ == y.var()@;
                assert(entails_lit(f, t[j]));
                assert(model_lit(m, t[j]));
                Var::lemma_view_injective(t[j].var(), y.var());
                assert(lit_value(vals, t[j]) == LBool::True);
                assert(y.negated() != t[j].negated());
                assert(false);
            }
        }
        lemma_units_by_reasons(f, ca, a, from + 1, g);
    }
}

/// Each literal of `trail` from position `from` on assigned without a reason is, as a unit
/// clause, one of the entries of `out` from position `o` on.
pub open spec fn units_listed(data: Seq<VarData>, trail: Seq<Lit>, from: int, out: Seq<Vec<Lit>>, o: int) -> bool {
    forall|j: int|
        from <= j < trail.len() && (#[trigger] data[trail[j].var()@ as int]).reason_spec() is None ==> exists|i: int|
            #![trigger out[i]]
            o <= i < out.len() && out[i]@ == seq![trail[j]]
}

/// Listing is kept when the trail grows by literals with reasons and assigned variables keep
/// their data.
proof fn lemma_units_listed_extend(
    vals0: Seq<LBool>,
    data0: Seq<VarData>,
    t0: Seq<Lit>,
    data1: Seq<VarData>,
    vals1: Seq<LBool>,
    t1: Seq<Lit>,
    from: int,
    out: Seq<Vec<Lit>>,
    o: int,
)
    requires
        units_listed(data0, t0, from, out, o),
        0 <= from,
        t0.len() <= t1.len(),
        t1.take(t0.len() as int) == t0,
        assigned_kept(vals0, data0, vals1, data1),
        forall|i: int| 0 <= i < t0.len() ==> lit_value(vals0, #[trigger] t0[i]) == LBool::True && t0[i].var()@ < vals0.len(),
        forall|j: int| t0.len() <= j < t1.len() ==> (#[trigger] data1[t1[j].var()@ as int]).reason_spec() is Some,
    ensures
        units_listed(data1, t1, from, out, o),
{
    assert forall|j: int| from <= j < t1.len() && (#[trigger] data1[t1[j].var()@ as int]).reason_spec() is None implies exists|i: int|
        #![trigger out[i]]
        o <= i < out.len() && out[i]@ == seq![t1[j]] by {
        assert(j < t0.len());
        assert(t1.take(t0.len() as int)[j] == t1[j]);
        let v = t0[j].var()@ as int;
        assert(lit_value(vals0, t0[j]) == LBool::True);
        assert(vals0[v] != LBool::Undef);
        assert(0 <= v < vals0.len());
        assert(vals1[v] == vals0[v]);
        assert(data1[v] == data0[v]);
    }
}

/// Live reasons stay live when clauses are added.
proof fn lemma_live_reasons_more_clauses(ca0: Seq<Clause>, ca1: Seq<Clause>, data: Seq<VarData>, t: Seq<Lit>, from: int)
    requires
        live_reasons_from(ca0, data, t, from),
        ca0.len() <= ca1.len(),
        forall|c: int| 0 <= c < ca0.len() ==> #[trigger] ca1[c] == ca0[c],
    ensures
        live_reasons_from(ca1, data, t, from),
{
    reveal(live_reasons_from);
    assert forall|i: int| from <= i < t.len() implies match (#[trigger] data[t[i].var()@ as int]).reason_spec() {
        Some(c) => c@ < ca1.len() && !ca1[c@ as int].deleted_spec(),
        None => data[t[i].var()@ as int].level_spec() > 0,
    } by {
        match data[t[i].var()@ as int].reason_spec() {
            Some(c) => {
                assert(ca1[c@ as int] == ca0[c@ as int]);
            },
            None => {},
        }
    }
}

/// At level 0, literals from `from` on with live reasons all have a reason.
proof fn lemma_ground_reasons(s: &Solver, from: int)
    requires
        s.inv(),
        s.level_count() == 0,
        0 <= from,
        live_reasons_from(s.clauses_spec(), s.assignment_spec().data(), s.trail(), from),
    ensures
        forall|j: int| from <= j < s.trail().len() ==> (#[trigger] s.assignment_spec().data()[s.trail()[j].var()@ as int]).reason_spec() is Some,
{
    reveal(live_reasons_from);
    assert forall|j: int| from <= j < s.trail().len() implies (#[trigger] s.assignment_spec().data()[s.trail()[j].var()@ as int]).reason_spec() is Some by {
        assert(level_fits(s.assignment.lim_spec(), s.assignment.data()[s.trail()[j].var()@ as int].level_spec() as int, j));
    }
}

/// Reasons on the trail from `from` on stay when the trail grows with reasoned literals and/// Reasons on the trail from `from` on stay when the trail grows with reasoned literals and
/// the data of assigned variables is kept.
proof fn lemma_live_reasons_extend(
    ca0: Seq<Clause>,
    vals0: Seq<LBool>,
    data0: Seq<VarData>,
    t0: Seq<Lit>,
    ca1: Seq<Clause>,
    vals1: Seq<LBool>,
    data1: Seq<VarData>,
    t1: Seq<Lit>,
    from: int,
)
    requires
        0 <= from,
        live_reasons_from(ca0, data0, t0, from),
        live_reasons_from(ca1, data1, t1, t0.len() as int),
        ca0.len() == ca1.len(),
        forall|c: int| 0 <= c < ca0.len() ==> (#[trigger] ca1[c]).deleted_spec() == ca0[c].deleted_spec(),
        t1.len() >= t0.len(),
        t1.take(t0.len() as int) == t0,
        assigned_kept(vals0, data0, vals1, data1),
        forall|i: int| 0 <= i < t0.len() ==> lit_value(vals0, #[trigger] t0[i]) == LBool::True && t0[i].var()@ < vals0.len(),
    ensures
        live_reasons_from(ca1, data1, t1, from),
{
    reveal(live_reasons_from);
    assert forall|i: int| from <= i < t1.len() implies match (#[trigger] data1[t1[i].var()@ as int]).reason_spec() {
        Some(c) => c@ < ca1.len() && !ca1[c@ as int].deleted_spec(),
        None => data1[t1[i].var()@ as int].level_spec() > 0,
    } by {
        if i < t0.len() {
            assert(t1.take(t0.len() as int)[i] == t1[i]);
            let v = t0[i].var()@ as int;
            assert(lit_value(vals0, t0[i]) == LBool::True);
            assert(vals0[v] != LBool::Undef);
            assert(vals1[v] == vals0[v]);
            assert(data1[v] == data0[v]);
            assert(match data0[t0[i].var()@ as int].reason_spec() {
                Some(c) => c@ < ca0.len() && !ca0[c@ as int].deleted_spec(),
                None => data0[t0[i].var()@ as int].level_spec() > 0,
            });
        }
    }
}

proof fn lemma_reasons_from_extend(
    vals0: Seq<LBool>,
    data0: Seq<VarData>,
    t0: Seq<Lit>,
    vals1: Seq<LBool>,
    data1: Seq<VarData>,
    t1: Seq<Lit>,
    from: int,
)
    requires
        0 <= from,
        reasons_from(data0, t0, from),
        reasons_from(data1, t1, t0.len() as int),
        t1.len() >= t0.len(),
        t1.take(t0.len() as int) == t0,
        assigned_kept(vals0, data0, vals1, data1),
        forall|i: int| 0 <= i < t0.len() ==> lit_value(vals0, #[trigger] t0[i]) == LBool::True && t0[i].var()@ < vals0.len(),
    ensures
        reasons_from(data1, t1, from),
{
    assert forall|i: int| from <= i < t1.len() implies (#[trigger] data1[t1[i].var()@ as int]).reason_spec() is Some by {
        if i < t0.len() {
            assert(t1.take(t0.len() as int)[i] == t1[i]);
            let v = t0[i].var()@ as int;
            assert(lit_value(vals0, t0[i]) == LBool::True);
            assert(vals0[v] != LBool::Undef);
            assert(vals1[v] == vals0[v]);
            assert(data1[v] == data0[v]);
            assert(data0[v].reason_spec() is Some);
        }
    }
}


/// A clause that follows from a state follows from one whose original clauses only lost
/// literals (and grew in number) and whose first literals extend the first ones.
proof fn lemma_follows_mono(
    ca: Seq<Clause>,
    orig: Seq<ClauseRef>,
    t: Seq<Lit>,
    g: int,
    ca2: Seq<Clause>,
    orig2: Seq<ClauseRef>,
    t2: Seq<Lit>,
    g2: int,
    cl: Seq<Lit>,
)
    requires
        follows_from(ca, orig, t, g, cl),
        orig.len() <= orig2.len(),
        forall|k: int| 0 <= k < orig.len() ==> #[trigger] orig2[k] == orig[k] && orig[k]@ < ca.len(),
        forall|c: int, l: Lit| 0 <= c < ca.len() && #[trigger] ca2[c]@.contains(l) ==> ca[c]@.contains(l),
        g <= g2,
        forall|i: int| 0 <= i < g ==> #[trigger] t2[i] == t[i],
    ensures
        follows_from(ca2, orig2, t2, g2, cl),
{
    assert forall|m: spec_fn(int) -> bool| #[trigger] state_model(m, ca2, orig2, t2, g2) implies model_clause(m, cl) by {
        assert forall|k: int| 0 <= k < orig.len() implies model_clause(m, #[trigger] ca[orig[k]@ as int]@) by {
            let r = orig[k]@ as int;
            assert(orig2[k] == orig[k]);
            assert(model_clause(m, ca2[orig2[k]@ as int]@));
            let x = choose|x: int| 0 <= x < ca2[r]@.len() && model_lit(m, #[trigger] ca2[r]@[x]);
            assert(ca2[r]@.contains(ca2[r]@[x]));
            assert(ca[r]@.contains(ca2[r]@[x]));
            let y = choose|y: int| 0 <= y < ca[r]@.len() && ca[r]@[y] == ca2[r]@[x];
            assert(model_lit(m, ca[r]@[y]));
        }
        assert forall|i: int| 0 <= i < g implies model_lit(m, #[trigger] t[i]) by {
            assert(t2[i] == t[i]);
        }
        assert(state_model(m, ca, orig, t, g));
    }
}


/// The unit clauses added to a formula follow from it, and so does whatever followed from
/// the formula alone.
proof fn lemma_with_units(f: Seq<Seq<Lit>>, lits: Seq<Lit>)
    ensures
        forall|k: int| 0 <= k < lits.len() ==> entails_lit(with_units(f, lits), #[trigger] lits[k]),
        forall|cl: Seq<Lit>| #[trigger] entails(f, cl) ==> entails(with_units(f, lits), cl),
        forall|l: Lit| #[trigger] entails_lit(f, l) ==> entails_lit(with_units(f, lits), l),
        unsatisfiable(f) ==> unsatisfiable(with_units(f, lits)),
{
    let w = with_units(f, lits);
    assert forall|m: spec_fn(int) -> bool| #[trigger] formula_model(m, w) implies formula_model(m, f) && forall|k: int|
        0 <= k < lits.len() ==> model_lit(m, #[trigger] lits[k]) by {
        assert forall|c: int| 0 <= c < f.len() implies model_clause(m, #[trigger] f[c]) by {
            assert(w[c] == f[c]);
        }
        assert forall|k: int| 0 <= k < lits.len() implies model_lit(m, #[trigger] lits[k]) by {
            assert(w[f.len() + k] == seq![lits[k]]);
            assert(model_clause(m, w[f.len() + k]));
            assert(seq![lits[k]][0] == lits[k]);
        }
    }
}

/// Trail literals assigned with a reason follow from the formula when the clauses and the
/// literals before them do; those without a reason must follow from it themselves.
proof fn lemma_trail_entailed(f: Seq<Seq<Lit>>, ca: Seq<Clause>, a: &Assignment, from: int, g: int)
    requires
        a.wf(),
        forall|c: int| 0 <= c < ca.len() ==> entails(f, #[trigger] ca[c]@),
        reasons_ok(ca, a.values(), a.data(), a.trail_spec()),
        0 <= from <= g <= a.trail_spec().len(),
        forall|i: int| 0 <= i < from ==> entails_lit(f, #[trigger] a.trail_spec()[i]),
        forall|i: int|
            from <= i < g ==> (#[trigger] a.data()[a.trail_spec()[i].var()@ as int]).reason_spec() is Some || entails_lit(f, a.trail_spec()[i]),
    ensures
        forall|i: int| 0 <= i < g ==> entails_lit(f, #[trigger] a.trail_spec()[i]),
    decreases g - from,
{
    if from < g {
        let t = a.trail_spec();
        let vals = a.values();
        let i = from;
        if a.data()[t[i].var()@ as int].reason_spec() is Some {
            assert(reason_ok(ca, vals, a.data(), t, i));
            let c = a.data()[t[i].var()@ as int].reason_spec()->0;
            let cl = ca[c@ as int]@;
            assert forall|m: spec_fn(int) -> bool| #[trigger] formula_model(m, f) implies model_lit(m, t[i]) by {
                assert(entails(f, cl));
                assert(model_clause(m, cl));
                let x = choose|x: int| 0 <= x < cl.len() && model_lit(m, #[trigger] cl[x]);
                if x > 0 {
                    let y = cl[x];
                    assert(lit_value(vals, y) == LBool::False && var_on_trail_before(t, y.var()@, i));
                    let j = choose|j: int| 0 <= j < i && (#[trigger] t[j]).var()@ == y.var()@;
                    assert(entails_lit(f, t[j]));
                    assert(model_lit(m, t[j]));
                    Var::lemma_view_injective(t[j].var(), y.var());
                    assert(lit_value(vals, t[j]) == LBool::True);
                    assert(y.negated() != t[j].negated());
                    assert(false);
                }
            }
        }
        lemma_trail_entailed(f, ca, a, from + 1, g);
    }
}

/// A clause that follows from `f` and is false under an assignment whose trail literals all
/// follow from `f` refutes `f`.
proof fn lemma_false_clause_unsat(f: Seq<Seq<Lit>>, a: &Assignment, cl: Seq<Lit>)
    requires
        a.wf(),
        entails(f, cl),
        forall|i: int| 0 <= i < a.trail_spec().len() ==> entails_lit(f, #[trigger] a.trail_spec()[i]),
        forall|k: int| 0 <= k < cl.len() ==> lit_value(a.values(), #[trigger] cl[k]) == LBool::False && cl[k].var()@ < a.values().len(),
    ensures
        unsatisfiable(f),
{
    let t = a.trail_spec();
    let vals = a.values();
    assert forall|m: spec_fn(int) -> bool| !#[trigger] formula_model(m, f) by {
        if formula_model(m, f) {
            assert(model_clause(m, cl));
            let x = choose|x: int| 0 <= x < cl.len() && model_lit(m, #[trigger] cl[x]);
            let lit = cl[x];
            assert(lit_value(vals, lit) == LBool::False);
            assert(vals[lit.var()@ as int] != LBool::Undef);
            assert(var_on_trail_before(t, lit.var()@, t.len() as int));
            let j = choose|j: int| 0 <= j < t.len() && (#[trigger] t[j]).var()@ == lit.var()@;
            Var::lemma_view_injective(t[j].var(), lit.var());
            assert(lit_value(vals, t[j]) == LBool::True);
            assert(lit.negated() != t[j].negated());
            assert(entails_lit(f, t[j]));
            assert(model_lit(m, t[j]));
        }
    }
}


/// Adding the negation of the decision `d` (true, of a variable in the current set) to the
/// clause and dropping its variable from the set keeps the resolvent.
proof fn lemma_resolve_decision(ca: Seq<Clause>, units: Seq<Lit>, values: Seq<LBool>, lemma: Seq<Lit>, cur: Set<int>, d: Lit, nd: Lit)
    requires
        resolvent_implied(ca, units, values, lemma, cur, Seq::empty()),
        lit_value(values, d) == LBool::True,
        nd.var() == d.var(),
        nd.negated() == !d.negated(),
    ensures
        resolvent_implied(ca, units, values, lemma.push(nd), cur.remove(d.var()@ as int), Seq::empty()),
{
    let v = d.var()@ as int;
    let c1 = cur.remove(v);
    let l2 = lemma.push(nd);
    assert forall|m: spec_fn(int) -> bool| #[trigger] model_of(m, ca, units) implies model_clause(m, l2) || model_clause(m, Seq::<Lit>::empty())
        || exists|w: int| #[trigger] c1.contains(w) && m(w) != (values[w] == LBool::True) by {
        if model_clause(m, lemma) {
            let x = choose|x: int| 0 <= x < lemma.len() && model_lit(m, #[trigger] lemma[x]);
            assert(l2[x] == lemma[x]);
        } else {
            assert(!model_clause(m, Seq::<Lit>::empty()));
            let w = choose|w: int| #[trigger] cur.contains(w) && m(w) != (values[w] == LBool::True);
            if w == v {
                assert(l2[lemma.len() as int] == nd);
                assert(model_lit(m, nd));
            } else {
                assert(c1.contains(w));
            }
        }
    }
}

/// When every variable left in the current set is that of a true unit, the clause follows.
proof fn lemma_resolve_finish(ca: Seq<Clause>, units: Seq<Lit>, values: Seq<LBool>, lemma: Seq<Lit>, cur: Set<int>)
    requires
        resolvent_implied(ca, units, values, lemma, cur, Seq::empty()),
        forall|v: int| #[trigger] cur.contains(v) ==> exists|i: int|
            0 <= i < units.len() && (#[trigger] units[i]).var()@ == v && lit_value(values, units[i]) == LBool::True,
    ensures
        implied(ca, units, lemma),
{
    assert forall|m: spec_fn(int) -> bool| #[trigger] model_of(m, ca, units) implies model_clause(m, lemma) by {
        assert(!model_clause(m, Seq::<Lit>::empty()));
        if !model_clause(m, lemma) {
            let w = choose|w: int| #[trigger] cur.contains(w) && m(w) != (values[w] == LBool::True);
            let i = choose|i: int| 0 <= i < units.len() && (#[trigger] units[i]).var()@ == w && lit_value(values, units[i]) == LBool::True;
            assert(model_lit(m, units[i]));
        }
    }
}


/// Adding units that include those of `a` to a formula keeps it unsatisfiable.
proof fn lemma_with_units_sub(f: Seq<Seq<Lit>>, a: Seq<Lit>, b: Seq<Lit>)
    requires
        unsatisfiable(with_units(f, a)),
        forall|i: int| 0 <= i < a.len() ==> b.contains(#[trigger] a[i]),
    ensures
        unsatisfiable(with_units(f, b)),
{
    lemma_with_units(f, a);
    lemma_with_units(f, b);
    assert forall|m: spec_fn(int) -> bool| !#[trigger] formula_model(m, with_units(f, b)) by {
        if formula_model(m, with_units(f, b)) {
            let wa = with_units(f, a);
            let wb = with_units(f, b);
            assert forall|c: int| 0 <= c < wa.len() implies model_clause(m, #[trigger] wa[c]) by {
                if c < f.len() {
                    assert(wa[c] == f[c]);
                    assert(wb[c] == f[c]);
                } else {
                    let i = c - f.len();
                    assert(wa[c] == seq![a[i]]);
                    let y = choose|y: int| 0 <= y < b.len() && b[y] == a[i];
                    assert(entails_lit(wb, b[y]));
                    assert(model_lit(m, a[i]));
                    assert(seq![a[i]][0] == a[i]);
                }
            }
            assert(formula_model(m, wa));
        }
    }
}

/// An unsatisfiable formula has no consistent cube.
proof fn lemma_num_sat_unsat(f: Seq<Seq<Lit>>, vars: Seq<Var>, k: nat)
    requires
        unsatisfiable(f),
    ensures
        num_sat_cubes(f, vars, k) == 0,
    decreases k,
{
    if k > 0 {
        lemma_num_sat_unsat(f, vars, (k - 1) as nat);
        lemma_with_units(f, cube_lits_spec(vars, cube_at(vars.len(), (k - 1) as nat)));
    }
}

/// When the first `l` signs of `c` (the later ones `false`) give a cube inconsistent with
/// `f`, no sign vector from the number of `c` up to `2^(n - l)` more gives a consistent cube.
proof fn lemma_num_sat_skip(f: Seq<Seq<Lit>>, vars: Seq<Var>, c: Seq<bool>, l: int, k: nat)
    requires
        vars.len() == c.len(),
        0 <= l <= c.len(),
        forall|i: int| l <= i < c.len() ==> !c[i],
        unsatisfiable(with_units(f, cube_lits_spec(vars, c.take(l)))),
        cube_value(c) <= k <= cube_value(c) + two_pow((c.len() - l) as nat),
    ensures
        num_sat_cubes(f, vars, k) == num_sat_cubes(f, vars, cube_value(c)),
    decreases k,
{
    if k > cube_value(c) {
        let w = (k - 1) as nat;
        lemma_num_sat_skip(f, vars, c, l, w);
        lemma_cube_at_prefix(c, l, w);
        let cw = cube_at(vars.len(), w);
        let pre = cube_lits_spec(vars, c.take(l));
        let full = cube_lits_spec(vars, cw);
        assert forall|i: int| 0 <= i < pre.len() implies full.contains(#[trigger] pre[i]) by {
            assert(cw.take(l)[i] == c.take(l)[i]);
            assert(full[i] == pre[i]);
        }
        lemma_with_units_sub(f, pre, full);
    }
}


/// An unsatisfiable formula has no consistent cube on a path of a trie.
proof fn lemma_num_trie_unsat(f: Seq<Seq<Lit>>, vars: Seq<Var>, trie: &Trie, k: nat)
    requires
        unsatisfiable(f),
    ensures
        num_sat_trie_cubes(f, vars, trie, k) == 0,
    decreases k,
{
    if k > 0 {
        lemma_num_trie_unsat(f, vars, trie, (k - 1) as nat);
        lemma_with_units(f, cube_lits_spec(vars, cube_at(vars.len(), (k - 1) as nat)));
    }
}

/// When no sign vector over `vars` lies on a path of `trie`, none is counted.
proof fn lemma_num_trie_dead(f: Seq<Seq<Lit>>, vars: Seq<Var>, trie: &Trie, k: nat)
    requires
        forall|w: Seq<bool>| w.len() == vars.len() ==> follow(trie.nodes_spec(), trie.root_spec(), w) == 0,
    ensures
        num_sat_trie_cubes(f, vars, trie, k) == 0,
    decreases k,
{
    if k > 0 {
        lemma_num_trie_dead(f, vars, trie, (k - 1) as nat);
        lemma_cube_at_len(vars.len(), (k - 1) as nat);
    }
}

/// When the first `l` signs of `c` (the later ones `false`) leave `trie` or give a cube
/// inconsistent with `f`, no sign vector from the number of `c` up to `2^(n - l)` more is
/// counted.
proof fn lemma_num_trie_skip(f: Seq<Seq<Lit>>, vars: Seq<Var>, trie: &Trie, c: Seq<bool>, l: int, k: nat)
    requires
        vars.len() == c.len(),
        0 <= l <= c.len(),
        forall|i: int| l <= i < c.len() ==> !c[i],
        unsatisfiable(with_units(f, cube_lits_spec(vars, c.take(l)))) || follow(trie.nodes_spec(), trie.root_spec(), c.take(l)) == 0,
        cube_value(c) <= k <= cube_value(c) + two_pow((c.len() - l) as nat),
    ensures
        num_sat_trie_cubes(f, vars, trie, k) == num_sat_trie_cubes(f, vars, trie, cube_value(c)),
    decreases k,
{
    if k > cube_value(c) {
        let w = (k - 1) as nat;
        lemma_num_trie_skip(f, vars, trie, c, l, w);
        lemma_cube_at_prefix(c, l, w);
        let cw = cube_at(vars.len(), w);
        if follow(trie.nodes_spec(), trie.root_spec(), c.take(l)) == 0 {
            lemma_follow_zero_extends(trie.nodes_spec(), trie.root_spec(), cw, l);
        } else {
            let pre = cube_lits_spec(vars, c.take(l));
            let full = cube_lits_spec(vars, cw);
            assert forall|i: int| 0 <= i < pre.len() implies full.contains(#[trigger] pre[i]) by {
                assert(cw.take(l)[i] == c.take(l)[i]);
                assert(full[i] == pre[i]);
            }
            lemma_with_units_sub(f, pre, full);
        }
    }
}

/// When the first `l` signs of `c` (the later ones `false`) leave `trie`, or unit propagation
/// of `units` with their literals over `ca` conflicts, no sign vector from the number of `c`
/// up to `2^(n - l)` more is counted.
proof fn lemma_num_up_trie_skip(
    ca: Seq<Clause>,
    units: Seq<Lit>,
    vars: Seq<Var>,
    n: nat,
    trie: &Trie,
    c: Seq<bool>,
    l: int,
    k: nat,
)
    requires
        vars.len() == c.len(),
        0 <= l <= c.len(),
        forall|i: int| l <= i < c.len() ==> !c[i],
        !up_consistent(ca, units + cube_lits_spec(vars, c.take(l)), n) || follow(trie.nodes_spec(), trie.root_spec(), c.take(l)) == 0,
        cube_value(c) <= k <= cube_value(c) + two_pow((c.len() - l) as nat),
    ensures
        num_up_trie_cubes(ca, units, vars, n, trie, k) == num_up_trie_cubes(ca, units, vars, n, trie, cube_value(c)),
    decreases k,
{
    if k > cube_value(c) {
        let w = (k - 1) as nat;
        lemma_num_up_trie_skip(ca, units, vars, n, trie, c, l, w);
        lemma_cube_at_prefix(c, l, w);
        let cw = cube_at(vars.len(), w);
        if follow(trie.nodes_spec(), trie.root_spec(), c.take(l)) == 0 {
            lemma_follow_zero_extends(trie.nodes_spec(), trie.root_spec(), cw, l);
        } else {
            let pl = cube_lits_spec(vars, c.take(l));
            let fl = cube_lits_spec(vars, cw);
            let pre = units + pl;
            let full = units + fl;
            assert forall|i: int| 0 <= i < pre.len() implies full.contains(#[trigger] pre[i]) by {
                if i < units.len() {
                    assert(full[i] == pre[i]);
                } else {
                    let q = i - units.len();
                    assert(cw.take(l)[q] == c.take(l)[q]);
                    assert(fl[q] == pl[q]);
                    assert(full[i] == pre[i]);
                }
            }
            if up_consistent(ca, full, n) {
                assert(same_clauses(ca, ca));
                lemma_up_consistent_same(ca, ca, pre, full, n);
            }
        }
    }
}

/// When unit propagation of `units` with the literals of the first `l` signs of `c` (the
/// later ones `false`) over `ca` conflicts, no sign vector from the number of `c` up to
/// `2^(n - l)` more is counted.
proof fn lemma_num_up_skip(ca: Seq<Clause>, units: Seq<Lit>, vars: Seq<Var>, n: nat, c: Seq<bool>, l: int, k: nat)
    requires
        vars.len() == c.len(),
        0 <= l <= c.len(),
        forall|i: int| l <= i < c.len() ==> !c[i],
        !up_consistent(ca, units + cube_lits_spec(vars, c.take(l)), n),
        cube_value(c) <= k <= cube_value(c) + two_pow((c.len() - l) as nat),
    ensures
        num_up_cubes(ca, units, vars, n, k) == num_up_cubes(ca, units, vars, n, cube_value(c)),
    decreases k,
{
    if k > cube_value(c) {
        let w = (k - 1) as nat;
        lemma_num_up_skip(ca, units, vars, n, c, l, w);
        lemma_cube_at_prefix(c, l, w);
        let cw = cube_at(vars.len(), w);
        let pl = cube_lits_spec(vars, c.take(l));
        let fl = cube_lits_spec(vars, cw);
        let pre = units + pl;
        let full = units + fl;
        assert forall|i: int| 0 <= i < pre.len() implies full.contains(#[trigger] pre[i]) by {
            if i < units.len() {
                assert(full[i] == pre[i]);
            } else {
                let q = i - units.len();
                assert(cw.take(l)[q] == c.take(l)[q]);
                assert(fl[q] == pl[q]);
                assert(full[i] == pre[i]);
            }
        }
        if up_consistent(ca, full, n) {
            assert(same_clauses(ca, ca));
            lemma_up_consistent_same(ca, ca, pre, full, n);
        }
    }
}

/// When every sign vector over `vars` leaves `trie` or conflicts, none is counted.
proof fn lemma_num_up_trie_none(ca: Seq<Clause>, units: Seq<Lit>, vars: Seq<Var>, n: nat, trie: &Trie, k: nat)
    requires
        forall|w: Seq<bool>|
            w.len() == vars.len() ==> follow(trie.nodes_spec(), trie.root_spec(), w) == 0 || !up_consistent(
                ca,
                units + #[trigger] cube_lits_spec(vars, w),
                n,
            ),
    ensures
        num_up_trie_cubes(ca, units, vars, n, trie, k) == 0,
    decreases k,
{
    if k > 0 {
        lemma_num_up_trie_none(ca, units, vars, n, trie, (k - 1) as nat);
        lemma_cube_at_len(vars.len(), (k - 1) as nat);
    }
}

/// Deciding an unassigned literal above level 0 keeps the reasons from `from` on live.
proof fn lemma_live_reasons_decide(ca: Seq<Clause>, vals: Seq<LBool>, data: Seq<VarData>, t: Seq<Lit>, lit: Lit, lvl: nat, from: int)
    requires
        live_reasons_from(ca, data, t, from),
        forall|i: int| 0 <= i < t.len() ==> lit_value(vals, #[trigger] t[i]) == LBool::True && t[i].var()@ < vals.len(),
        lit.var()@ < vals.len(),
        lit_value(vals, lit) == LBool::Undef,
        0 < lvl <= usize::MAX,
        0 <= from,
        data.len() == vals.len(),
    ensures
        live_reasons_from(ca, data.update(lit.var()@ as int, VarData::new_spec(None, lvl)), t.push(lit), from),
{
    reveal(live_reasons_from);
    let d1 = data.update(lit.var()@ as int, VarData::new_spec(None, lvl));
    let t1 = t.push(lit);
    VarData::lemma_new_spec(None, lvl);
    assert forall|i: int| from <= i < t1.len() implies match (#[trigger] d1[t1[i].var()@ as int]).reason_spec() {
        Some(c) => c@ < ca.len() && !ca[c@ as int].deleted_spec(),
        None => d1[t1[i].var()@ as int].level_spec() > 0,
    } by {
        if i < t.len() {
            assert(t1[i] == t[i]);
            assert(lit_value(vals, t[i]) == LBool::True);
            assert(vals[t[i].var()@ as int] != LBool::Undef);
            assert(vals[lit.var()@ as int] == LBool::Undef);
            assert(t[i].var()@ != lit.var()@);
            assert(d1[t[i].var()@ as int] == data[t[i].var()@ as int]);
            assert(match data[t[i].var()@ as int].reason_spec() {
                Some(c) => c@ < ca.len() && !ca[c@ as int].deleted_spec(),
                None => data[t[i].var()@ as int].level_spec() > 0,
            });
        } else {
            assert(t1[i] == lit);
            assert(d1[lit.var()@ as int] == VarData::new_spec(None, lvl));
            assert(VarData::new_spec(None, lvl).reason_spec() is None);
            assert(VarData::new_spec(None, lvl).level_spec() == lvl);
        }
    }
}

/// Extending the trail by literals with reasons, keeping the data of assigned variables,
/// keeps every decision of a walk.
proof fn lemma_decided_extend(a0: &Assignment, a1: &Assignment, lits: Seq<Lit>)
    requires
        a0.wf(),
        decided_by(a0.trail_spec(), a0.data(), lits),
        a0.trail_spec().len() <= a1.trail_spec().len(),
        a1.trail_spec().take(a0.trail_spec().len() as int) == a0.trail_spec(),
        reasons_from(a1.data(), a1.trail_spec(), a0.trail_spec().len() as int),
        assigned_kept(a0.values(), a0.data(), a1.values(), a1.data()),
    ensures
        decided_by(a1.trail_spec(), a1.data(), lits),
{
    let t0 = a0.trail_spec();
    let t1 = a1.trail_spec();
    let d1 = a1.data();
    assert forall|p: int|
        0 <= p < t1.len() && (#[trigger] d1[t1[p].var()@ as int]).reason_spec() is None && d1[t1[p].var()@ as int].level_spec() > 0 implies t1[p]
            == lits[d1[t1[p].var()@ as int].level_spec() - 1] by {
        if p < t0.len() {
            assert(t1.take(t0.len() as int)[p] == t1[p]);
            assert(t0[p].var()@ < a0.values().len());
            assert(lit_value(a0.values(), t0[p]) == LBool::True);
            let v = t0[p].var()@ as int;
            assert(a1.values()[v] == a0.values()[v]);
        } else {
            assert(d1[t1[p].var()@ as int].reason_spec() is Some);
        }
    }
}

/// Deciding the literal of `lits` at the next level keeps every decision of a walk.
proof fn lemma_decided_push(a0: &Assignment, a1: &Assignment, lits: Seq<Lit>, lit: Lit, level: nat)
    requires
        a0.wf(),
        decided_by(a0.trail_spec(), a0.data(), lits),
        lit.var()@ < a0.values().len(),
        lit_value(a0.values(), lit) == LBool::Undef,
        a1.trail_spec() == a0.trail_spec().push(lit),
        a1.data() == a0.data().update(lit.var()@ as int, VarData::new_spec(None, level)),
        0 < level <= lits.len(),
        level <= usize::MAX,
        lits[level - 1] == lit,
    ensures
        decided_by(a1.trail_spec(), a1.data(), lits),
{
    let t0 = a0.trail_spec();
    let t1 = a1.trail_spec();
    let d0 = a0.data();
    let d1 = a1.data();
    VarData::lemma_new_spec(None, level);
    assert forall|p: int|
        0 <= p < t1.len() && (#[trigger] d1[t1[p].var()@ as int]).reason_spec() is None && d1[t1[p].var()@ as int].level_spec() > 0 implies t1[p]
            == lits[d1[t1[p].var()@ as int].level_spec() - 1] by {
        if p < t0.len() {
            assert(t1[p] == t0[p]);
            assert(t0[p].var()@ < a0.values().len());
            assert(lit_value(a0.values(), t0[p]) == LBool::True);
            assert(t0[p].var() != lit.var());
            assert(d1[t1[p].var()@ as int] == d0[t0[p].var()@ as int]);
        } else {
            assert(t1[p] == lit);
        }
    }
}

/// Going back to an earlier level keeps every decision below it, for any literals that agree
/// with `lits0` on those levels.
proof fn lemma_decided_cut(a0: &Assignment, a1: &Assignment, lits0: Seq<Lit>, lits1: Seq<Lit>, level: int)
    requires
        a0.wf(),
        decided_by(a0.trail_spec(), a0.data(), lits0),
        0 <= level < a0.lim_spec().len(),
        a1.trail_spec() == a0.trail_spec().take(a0.lim_spec()[level] as int),
        a1.data() == a0.data(),
        forall|i: int| 0 <= i < level ==> lits1[i] == lits0[i],
    ensures
        decided_by(a1.trail_spec(), a1.data(), lits1),
{
    let t0 = a0.trail_spec();
    let t1 = a1.trail_spec();
    let d1 = a1.data();
    let lim = a0.lim_spec();
    assert forall|p: int|
        0 <= p < t1.len() && (#[trigger] d1[t1[p].var()@ as int]).reason_spec() is None && d1[t1[p].var()@ as int].level_spec() > 0 implies t1[p]
            == lits1[d1[t1[p].var()@ as int].level_spec() - 1] by {
        assert(t1[p] == t0[p]);
        let lvl = d1[t1[p].var()@ as int].level_spec() as int;
        assert(level_fits(lim, lvl, p));
        if lvl > level {
            assert(lim[level] <= lim[lvl - 1]);
        }
    }
}

/// Counting consistent cubes over a longer range counts at least as many.
proof fn lemma_num_up_mono(ca: Seq<Clause>, units: Seq<Lit>, vars: Seq<Var>, n: nat, k1: nat, k2: nat)
    requires
        k1 <= k2,
    ensures
        num_up_cubes(ca, units, vars, n, k1) <= num_up_cubes(ca, units, vars, n, k2),
    decreases k2,
{
    if k1 < k2 {
        lemma_num_up_mono(ca, units, vars, n, k1, (k2 - 1) as nat);
    }
}

/// Over a trie that holds a path for every sign vector over `vars` (such as the trie built
/// from all of them), the cubes counted on its paths are all the cubes counted: a walk along
/// the trie counts what the plain enumeration counts.
pub proof fn lemma_full_trie_counts(ca: Seq<Clause>, units: Seq<Lit>, vars: Seq<Var>, n: nat, trie: &Trie, k: nat)
    requires
        forall|w: Seq<bool>| w.len() == vars.len() ==> #[trigger] follow(trie.nodes_spec(), trie.root_spec(), w) != 0,
    ensures
        num_up_trie_cubes(ca, units, vars, n, trie, k) == num_up_cubes(ca, units, vars, n, k),
    decreases k,
{
    if k > 0 {
        lemma_full_trie_counts(ca, units, vars, n, trie, (k - 1) as nat);
        lemma_cube_at_len(vars.len(), (k - 1) as nat);
        assert(follow(trie.nodes_spec(), trie.root_spec(), cube_at(vars.len(), (k - 1) as nat)) != 0);
    }
}

/// Counting consistent cubes on trie paths over a longer range counts at least as many.
proof fn lemma_num_up_trie_mono(ca: Seq<Clause>, units: Seq<Lit>, vars: Seq<Var>, n: nat, trie: &Trie, k1: nat, k2: nat)
    requires
        k1 <= k2,
    ensures
        num_up_trie_cubes(ca, units, vars, n, trie, k1) <= num_up_trie_cubes(ca, units, vars, n, trie, k2),
    decreases k2,
{
    if k1 < k2 {
        lemma_num_up_trie_mono(ca, units, vars, n, trie, k1, (k2 - 1) as nat);
    }
}

/// An assigned variable has a level no deeper than the current one.
proof fn lemma_assigned_level(a: &Assignment, v: u32)
    requires
        a.wf(),
        v < a.values().len(),
        a.values()[v as int] != LBool::Undef,
    ensures
        a.data()[v as int].level_spec() <= a.lim_spec().len(),
{
    assert(var_on_trail_before(a.trail_spec(), v, a.trail_spec().len() as int));
    let j = choose|j: int| 0 <= j < a.trail_spec().len() && (#[trigger] a.trail_spec()[j]).var()@ == v;
    assert(level_fits(a.lim_spec(), a.data()[a.trail_spec()[j].var()@ as int].level_spec() as int, j));
}

/// Going back to `level` keeps every true literal assigned at a level at most `level`.
proof fn lemma_true_kept_cut(
    values0: Seq<LBool>,
    data: Seq<VarData>,
    trail0: Seq<Lit>,
    lim0: Seq<usize>,
    qhead0: nat,
    values1: Seq<LBool>,
    level: int,
    lit: Lit,
)
    requires
        trail_wf(values0, data, trail0, lim0, qhead0),
        0 <= level < lim0.len(),
        values1.len() == values0.len(),
        forall|v: u32| v < values0.len() ==> #[trigger] values1[v as int] == (if var_on_removed(trail0, v, lim0[level] as int) {
            LBool::Undef
        } else {
            values0[v as int]
        }),
        lit.var()@ < values0.len(),
        lit_value(values0, lit) == LBool::True,
        data[lit.var()@ as int].level_spec() <= level,
    ensures
        lit_value(values1, lit) == LBool::True,
{
    let v = lit.var()@;
    assert(values0[v as int] != LBool::Undef);
    assert(var_on_trail_before(trail0, v, trail0.len() as int));
    let p = choose|p: int| 0 <= p < trail0.len() && (#[trigger] trail0[p]).var()@ == v;
    let lvl = data[v as int].level_spec() as int;
    assert(level_fits(lim0, data[trail0[p].var()@ as int].level_spec() as int, p));
    assert(lim0[lvl] <= lim0[level]);
    if var_on_removed(trail0, v, lim0[level] as int) {
        let q = choose|q: int| lim0[level] <= q < trail0.len() && (#[trigger] trail0[q]).var()@ == v;
        assert(trail0[p].var() != trail0[q].var());
    }
    assert(values1[v as int] == values0[v as int]);
}

/// Every literal on the trail is true in an assignment closed under unit propagation over the
/// clauses of `ca`, when the assignment makes the first `from` trail literals and every
/// literal decided after them true.
proof fn lemma_closed_trail(a: &Assignment, ca: Seq<Clause>, from: int, x: Seq<LBool>, i: int)
    requires
        a.wf(),
        reasons_ok(ca, a.values(), a.data(), a.trail_spec()),
        forall|c: int| 0 <= c < ca.len() ==> (#[trigger] ca[c])@.len() >= 1,
        0 <= from <= a.trail_spec().len(),
        live_reasons_from(ca, a.data(), a.trail_spec(), from),
        up_closed(ca, x),
        x.len() == a.values().len(),
        forall|j: int| 0 <= j < from ==> lit_value(x, #[trigger] a.trail_spec()[j]) == LBool::True,
        forall|j: int|
            from <= j < a.trail_spec().len() && (#[trigger] a.data()[a.trail_spec()[j].var()@ as int]).reason_spec() is None ==> lit_value(
                x,
                a.trail_spec()[j],
            ) == LBool::True,
        0 <= i < a.trail_spec().len(),
    ensures
        lit_value(x, a.trail_spec()[i]) == LBool::True,
    decreases i,
{
    let t = a.trail_spec();
    let vals = a.values();
    let data = a.data();
    if i >= from && data[t[i].var()@ as int].reason_spec() is Some {
        reveal(live_reasons_from);
        reveal(up_closed);
        let c = data[t[i].var()@ as int].reason_spec()->0;
        assert(reason_ok(ca, vals, data, t, i));
        assert(c@ < ca.len() && !ca[c@ as int].deleted_spec());
        let cl = ca[c@ as int]@;
        assert forall|k: int| 1 <= k < cl.len() implies lit_value(x, #[trigger] cl[k]) == LBool::False by {
            assert(lit_value(vals, cl[k]) == LBool::False && var_on_trail_before(t, cl[k].var()@, i));
            let j = choose|j: int| 0 <= j < i && (#[trigger] t[j]).var()@ == cl[k].var()@;
            lemma_closed_trail(a, ca, from, x, j);
            assert(lit_value(vals, t[j]) == LBool::True);
            assert(t[j].var()@ < vals.len());
            Var::lemma_view_injective(t[j].var(), cl[k].var());
        }
        cl.to_multiset_ensures();
        assert(cl.contains(cl[0]));
        vstd::seq_lib::to_multiset_remove(cl, 0);
        let rest = cl.remove(0);
        rest.to_multiset_ensures();
        assert forall|l2: Lit| #[trigger] cl.to_multiset().remove(cl[0]).count(l2) > 0 implies lit_value(x, l2) == LBool::False by {
            assert(rest.contains(l2));
            let kk = choose|kk: int| 0 <= kk < rest.len() && rest[kk] == l2;
            assert(rest[kk] == cl[kk + 1]);
        }
        assert(ca[c@ as int]@.to_multiset().count(cl[0]) > 0);
    }
}

/// A clause of `ca`, not deleted, whose literals are all false cannot hold in an assignment
/// closed under unit propagation that makes the whole trail true.
proof fn lemma_false_clause_not_closed(a: &Assignment, ca: Seq<Clause>, c: int, x: Seq<LBool>)
    requires
        a.wf(),
        x.len() == a.values().len(),
        forall|j: int| 0 <= j < a.trail_spec().len() ==> lit_value(x, #[trigger] a.trail_spec()[j]) == LBool::True,
        0 <= c < ca.len(),
        !ca[c].deleted_spec(),
        ca[c]@.len() >= 1,
        lits_in_range(ca[c]@, a.values().len()),
        forall|k: int| 0 <= k < ca[c]@.len() ==> lit_value(a.values(), #[trigger] ca[c]@[k]) == LBool::False,
    ensures
        !up_closed(ca, x),
{
    reveal(up_closed);
    let cl = ca[c]@;
    let vals = a.values();
    let t = a.trail_spec();
    assert forall|k: int| 0 <= k < cl.len() implies lit_value(x, #[trigger] cl[k]) == LBool::False by {
        let v = cl[k].var()@;
        assert(vals[v as int] != LBool::Undef);
        assert(var_on_trail_before(t, v, t.len() as int));
        let j = choose|j: int| 0 <= j < t.len() && (#[trigger] t[j]).var()@ == v;
        assert(lit_value(vals, t[j]) == LBool::True);
        assert(lit_value(x, t[j]) == LBool::True);
        Var::lemma_view_injective(t[j].var(), cl[k].var());
    }
    cl.to_multiset_ensures();
    assert(cl.contains(cl[0]));
    vstd::seq_lib::to_multiset_remove(cl, 0);
    let rest = cl.remove(0);
    rest.to_multiset_ensures();
    assert forall|l2: Lit| #[trigger] cl.to_multiset().remove(cl[0]).count(l2) > 0 implies lit_value(x, l2) == LBool::False by {
        assert(rest.contains(l2));
        let kk = choose|kk: int| 0 <= kk < rest.len() && rest[kk] == l2;
        assert(rest[kk] == cl[kk + 1]);
    }
    assert(ca[c]@.to_multiset().count(cl[0]) > 0);
    assert(lit_value(x, cl[0]) == LBool::False);
}

/// A solver state refutes `units` by unit propagation when every trail literal from `from` on
/// has a live reason or is a decision among `units`, the first `from` trail literals are among
/// `units`, and a clause not deleted is false (or a unit is false).
/// Every literal of the trail is forced by unit propagation of `units` when `units` holds the
/// trail up to `from` and every literal decided after it, and the other literals after it
/// have live reasons.
proof fn lemma_trail_forced(s: &Solver, from: int, units: Seq<Lit>, i: int)
    requires
        s.inv(),
        0 <= from <= s.trail().len(),
        live_reasons_from(s.clauses_spec(), s.assignment_spec().data(), s.trail(), from),
        forall|j: int| 0 <= j < from ==> units.contains(#[trigger] s.trail()[j]),
        forall|j: int|
            from <= j < s.trail().len() && (#[trigger] s.assignment_spec().data()[s.trail()[j].var()@ as int]).reason_spec() is None
                ==> units.contains(s.trail()[j]),
        0 <= i < s.trail().len(),
    ensures
        up_forced(s.clauses_spec(), units, s.num_vars_spec(), s.trail()[i]),
{
    let a = s.assignment_spec();
    let t = s.trail();
    assert forall|x: Seq<LBool>|
        x.len() == s.num_vars_spec() && #[trigger] up_closed(s.clauses_spec(), x) && (forall|k: int|
            0 <= k < units.len() ==> lit_value(x, #[trigger] units[k]) == LBool::True) implies lit_value(x, t[i]) == LBool::True by {
        assert forall|j: int| 0 <= j < from implies lit_value(x, #[trigger] t[j]) == LBool::True by {
            let k = choose|k: int| 0 <= k < units.len() && units[k] == t[j];
        }
        assert forall|j: int| from <= j < t.len() && (#[trigger] a.data()[t[j].var()@ as int]).reason_spec() is None implies lit_value(
            x,
            t[j],
        ) == LBool::True by {
            let k = choose|k: int| 0 <= k < units.len() && units[k] == t[j];
        }
        assert forall|c: int| 0 <= c < s.ca@.len() implies (#[trigger] s.ca@[c])@.len() >= 1 by {}
        lemma_closed_trail(a, s.clauses_spec(), from, x, i);
    }
}

/// In a walk over the cubes of `vars` from a level-0 state with trail `t0`: when every
/// decision is the literal of `cube` at its level and the other literals after `t0` have live
/// reasons, a false clause or a false literal of the first `l` literals of the cube makes unit
/// propagation of `t0` with those literals conflict.
proof fn lemma_walk_up_refutes(s: &Solver, t0: Seq<Lit>, vars: Seq<Var>, cube: Seq<bool>, l: int, confl: Option<int>, bad: Option<Lit>)
    requires
        s.inv(),
        s.level_count() <= l <= cube.len(),
        vars.len() == cube.len(),
        decided_by(s.trail(), s.assignment_spec().data(), cube_lits_spec(vars, cube)),
        t0.len() <= s.trail().len(),
        s.trail().take(t0.len() as int) == t0,
        live_reasons_from(s.clauses_spec(), s.assignment_spec().data(), s.trail(), t0.len() as int),
        confl matches Some(c) ==> 0 <= c < s.clauses_spec().len() && !s.clauses_spec()[c].deleted_spec() && forall|k: int|
            0 <= k < s.clauses_spec()[c]@.len() ==> lit_value(s.values(), #[trigger] s.clauses_spec()[c]@[k]) == LBool::False,
        bad matches Some(p) ==> cube_lits_spec(vars, cube.take(l)).contains(p) && p.var()@ < s.num_vars_spec() && lit_value(s.values(), p)
            == LBool::False,
        confl is Some || bad is Some,
    ensures
        !up_consistent(s.clauses_spec(), t0 + cube_lits_spec(vars, cube.take(l)), s.num_vars_spec()),
{
    let pre = cube_lits_spec(vars, cube.take(l));
    let units = t0 + pre;
    let t = s.trail();
    let data = s.assignment_spec().data();
    let lim = s.assignment_spec().lim_spec();
    assert forall|j: int| 0 <= j < t0.len() implies units.contains(#[trigger] t[j]) by {
        assert(t.take(t0.len() as int)[j] == t[j]);
        assert(units[j] == t[j]);
    }
    assert forall|j: int| t0.len() <= j < t.len() && (#[trigger] data[t[j].var()@ as int]).reason_spec() is None implies units.contains(
        t[j],
    ) by {
        reveal(live_reasons_from);
        let lvl = data[t[j].var()@ as int].level_spec() as int;
        assert(lvl > 0);
        assert(level_fits(lim, lvl, j));
        assert(t[j] == cube_lits_spec(vars, cube)[lvl - 1]);
        assert(cube.take(l)[lvl - 1] == cube[lvl - 1]);
        assert(pre[lvl - 1] == t[j]);
        assert(units[t0.len() + lvl - 1] == t[j]);
    }
    match bad {
        Some(p) => {
            let k = choose|k: int| 0 <= k < pre.len() && pre[k] == p;
            assert(units[t0.len() + k] == p);
        },
        None => {},
    }
    lemma_trail_refutes(s, t0.len() as int, units, confl, bad);
}

proof fn lemma_trail_refutes(s: &Solver, from: int, units: Seq<Lit>, confl: Option<int>, bad: Option<Lit>)
    requires
        s.inv(),
        0 <= from <= s.trail().len(),
        live_reasons_from(s.clauses_spec(), s.assignment_spec().data(), s.trail(), from),
        forall|j: int| 0 <= j < from ==> units.contains(#[trigger] s.trail()[j]),
        forall|j: int|
            from <= j < s.trail().len() && (#[trigger] s.assignment_spec().data()[s.trail()[j].var()@ as int]).reason_spec() is None
                ==> units.contains(s.trail()[j]),
        confl matches Some(c) ==> 0 <= c < s.clauses_spec().len() && !s.clauses_spec()[c].deleted_spec() && forall|k: int|
            0 <= k < s.clauses_spec()[c]@.len() ==> lit_value(s.values(), #[trigger] s.clauses_spec()[c]@[k]) == LBool::False,
        bad matches Some(p) ==> units.contains(p) && p.var()@ < s.num_vars_spec() && lit_value(s.values(), p) == LBool::False,
        confl is Some || bad is Some,
    ensures
        !up_consistent(s.clauses_spec(), units, s.num_vars_spec()),
{
    if up_consistent(s.clauses_spec(), units, s.num_vars_spec()) {
        let x = choose|x: Seq<LBool>|
            x.len() == s.num_vars_spec() && #[trigger] up_closed(s.clauses_spec(), x) && forall|i: int|
                0 <= i < units.len() ==> lit_value(x, #[trigger] units[i]) == LBool::True;
        let a = s.assignment_spec();
        let t = s.trail();
        assert forall|j: int| 0 <= j < from implies lit_value(x, #[trigger] t[j]) == LBool::True by {
            let k = choose|k: int| 0 <= k < units.len() && units[k] == t[j];
        }
        assert forall|j: int| from <= j < t.len() && (#[trigger] a.data()[t[j].var()@ as int]).reason_spec() is None implies lit_value(
            x,
            t[j],
        ) == LBool::True by {
            let k = choose|k: int| 0 <= k < units.len() && units[k] == t[j];
        }
        assert forall|c: int| 0 <= c < s.ca@.len() implies (#[trigger] s.ca@[c])@.len() >= 1 by {}
        assert forall|j: int| 0 <= j < t.len() implies lit_value(x, #[trigger] t[j]) == LBool::True by {
            lemma_closed_trail(a, s.clauses_spec(), from, x, j);
        }
        match confl {
            Some(c) => {
                assert(lits_in_range(s.ca@[c]@, s.next_var as nat));
                lemma_false_clause_not_closed(a, s.clauses_spec(), c, x);
            },
            None => {
                let p = bad->0;
                let k = choose|k: int| 0 <= k < units.len() && units[k] == p;
                assert(lit_value(x, p) == LBool::True);
                let v = p.var()@;
                assert(a.values()[v as int] != LBool::Undef);
                assert(var_on_trail_before(t, v, t.len() as int));
                let j = choose|j: int| 0 <= j < t.len() && (#[trigger] t[j]).var()@ == v;
                assert(lit_value(a.values(), t[j]) == LBool::True);
                assert(lit_value(x, t[j]) == LBool::True);
                Var::lemma_view_injective(t[j].var(), p.var());
            },
        }
    }
}

/// Going back to level 0 keeps the values and data of the variables assigned in a level-0
/// state whose trail starts the trail that is cut.
proof fn lemma_cut_keeps_ground(
    ov: Seq<LBool>,
    od: Seq<VarData>,
    ot: Seq<Lit>,
    oq: nat,
    vb: Seq<LBool>,
    datab: Seq<VarData>,
    tb: Seq<Lit>,
    limb: Seq<usize>,
    qb: nat,
    v1: Seq<LBool>,
)
    requires
        trail_wf(ov, od, ot, Seq::<usize>::empty(), oq),
        trail_wf(vb, datab, tb, limb, qb),
        0 < limb.len(),
        v1.len() == vb.len(),
        forall|v: u32| v < vb.len() ==> #[trigger] v1[v as int] == (if var_on_removed(tb, v, limb[0] as int) {
            LBool::Undef
        } else {
            vb[v as int]
        }),
        assigned_kept(ov, od, vb, datab),
        ov.len() < 0x7fff_ffff,
    ensures
        assigned_kept(ov, od, v1, datab),
{
    assert forall|v: int| 0 <= v < ov.len() && ov[v] != LBool::Undef implies #[trigger] v1[v] == ov[v] && datab[v] == od[v] by {
        assert(ov[v as u32 as int] != LBool::Undef);
        assert(var_on_trail_before(ot, v as u32, ot.len() as int));
        let q = choose|q: int| 0 <= q < ot.len() && (#[trigger] ot[q]).var()@ == v as u32;
        assert(level_fits(Seq::<usize>::empty(), od[ot[q].var()@ as int].level_spec() as int, q));
        assert(lit_value(ov, ot[q]) == LBool::True);
        assert(vb[v] == ov[v]);
        lemma_true_kept_cut(vb, datab, tb, limb, qb, v1, 0, ot[q]);
    }
}

/// Live reasons from `from` on stay so on a prefix of the trail.
proof fn lemma_live_reasons_prefix(ca: Seq<Clause>, data: Seq<VarData>, t: Seq<Lit>, cut: int, from: int)
    requires
        live_reasons_from(ca, data, t, from),
        0 <= from,
        0 <= cut <= t.len(),
    ensures
        live_reasons_from(ca, data, t.take(cut), from),
{
    reveal(live_reasons_from);
    let tf = t.take(cut);
    assert forall|i: int| from <= i < tf.len() implies match (#[trigger] data[tf[i].var()@ as int]).reason_spec() {
        Some(c) => c@ < ca.len() && !ca[c@ as int].deleted_spec(),
        None => data[tf[i].var()@ as int].level_spec() > 0,
    } by {
        assert(tf[i] == t[i]);
    }
}

/// Unit propagation of `t0` with `u` reaches no conflict exactly when that of the whole trail
/// with `u` does, at level 0, when the trail extends `t0` by literals with live reasons.
proof fn lemma_up_extend(s: &Solver, t0: Seq<Lit>, u: Seq<Lit>)
    requires
        s.inv(),
        s.level_count() == 0,
        t0.len() <= s.trail().len(),
        s.trail().take(t0.len() as int) == t0,
        live_reasons_from(s.clauses_spec(), s.assignment_spec().data(), s.trail(), t0.len() as int),
    ensures
        up_consistent(s.clauses_spec(), t0 + u, s.num_vars_spec()) == up_consistent(s.clauses_spec(), s.trail() + u, s.num_vars_spec()),
{
    let ca = s.clauses_spec();
    let n = s.num_vars_spec();
    let t = s.trail();
    let a = s.assignment_spec();
    let u0 = t0 + u;
    let u1 = t + u;
    if up_consistent(ca, u0, n) {
        let x = choose|x: Seq<LBool>| x.len() == n && #[trigger] up_closed(ca, x) && forall|i: int| 0 <= i < u0.len() ==> lit_value(x, #[trigger] u0[i]) == LBool::True;
        assert forall|j: int| 0 <= j < t0.len() implies lit_value(x, #[trigger] t[j]) == LBool::True by {
            assert(t.take(t0.len() as int)[j] == t[j]);
            assert(u0[j] == t[j]);
        }
        assert forall|j: int| t0.len() <= j < t.len() && (#[trigger] a.data()[t[j].var()@ as int]).reason_spec() is None implies lit_value(
            x,
            t[j],
        ) == LBool::True by {
            reveal(live_reasons_from);
            assert(level_fits(s.assignment.lim_spec(), s.assignment.data()[t[j].var()@ as int].level_spec() as int, j));
        }
        assert forall|c: int| 0 <= c < s.ca@.len() implies (#[trigger] s.ca@[c])@.len() >= 1 by {}
        assert forall|j: int| 0 <= j < t.len() implies lit_value(x, #[trigger] t[j]) == LBool::True by {
            lemma_closed_trail(a, ca, t0.len() as int, x, j);
        }
        assert forall|i: int| 0 <= i < u1.len() implies lit_value(x, #[trigger] u1[i]) == LBool::True by {
            if i < t.len() {
                assert(u1[i] == t[i]);
            } else {
                assert(u1[i] == u0[i - t.len() + t0.len()]);
            }
        }
        assert(up_consistent(ca, u1, n));
    }
    if up_consistent(ca, u1, n) {
        assert forall|i: int| 0 <= i < u0.len() implies u1.contains(#[trigger] u0[i]) by {
            if i < t0.len() {
                assert(t.take(t0.len() as int)[i] == t[i]);
                assert(u1[i] == u0[i]);
            } else {
                assert(u1[i - t0.len() + t.len()] == u0[i]);
            }
        }
        assert(same_clauses(ca, ca));
        lemma_up_consistent_same(ca, ca, u0, u1, n);
    }
}

/// Unit propagation without conflict is the same over the same clauses reordered.
proof fn lemma_up_consistent_eq(ca0: Seq<Clause>, ca1: Seq<Clause>, u: Seq<Lit>, n: nat)
    requires
        same_clauses(ca0, ca1),
    ensures
        up_consistent(ca0, u, n) == up_consistent(ca1, u, n),
{
    assert forall|i: int| 0 <= i < u.len() implies u.contains(#[trigger] u[i]) by {}
    if up_consistent(ca1, u, n) {
        lemma_up_consistent_same(ca0, ca1, u, u, n);
    }
    if up_consistent(ca0, u, n) {
        assert forall|c: int| 0 <= c < ca1.len() implies (#[trigger] ca0[c]).deleted_spec() == ca1[c].deleted_spec()
            && ca0[c]@.to_multiset() == ca1[c]@.to_multiset() by {
            assert(ca1[c].deleted_spec() == ca0[c].deleted_spec());
        }
        assert(same_clauses(ca1, ca0));
        lemma_up_consistent_same(ca1, ca0, u, u, n);
    }
}

/// One cube checked by [`Solver::propcheck`] from a level-0 state `sb` reached from a state
/// with trail `t0` and clauses `ca0` (the same clauses, reordered): the check passes exactly
/// when unit propagation of `t0` with the cube over `ca0` reaches no conflict, the new state
/// is still reached from `t0` by live reasons, and it is unsatisfiable only when `t0` alone
/// conflicts.
proof fn lemma_cube_check_step(ca0: Seq<Clause>, t0: Seq<Lit>, sb: Solver, sf: Solver, cube_units: Seq<Lit>, passed: bool)
    requires
        sb.inv(),
        sf.inv(),
        sb.level_count() == 0,
        sf.level_count() == 0,
        t0.len() <= sb.trail().len(),
        sb.trail().take(t0.len() as int) == t0,
        sf.trail().len() >= sb.trail().len(),
        sf.trail().take(sb.trail().len() as int) == sb.trail(),
        live_reasons_from(sb.clauses_spec(), sb.assignment_spec().data(), sb.trail(), t0.len() as int),
        live_reasons_from(sf.clauses_spec(), sf.assignment_spec().data(), sf.trail(), sb.trail().len() as int),
        assigned_kept(sb.values(), sb.assignment_spec().data(), sf.values(), sf.assignment_spec().data()),
        same_clauses(ca0, sb.clauses_spec()),
        same_clauses(sb.clauses_spec(), sf.clauses_spec()),
        sf.num_vars_spec() == sb.num_vars_spec(),
        sb.ok_spec() ==> sb.watches_sound(),
        !sb.ok_spec() ==> !up_consistent(ca0, t0, sb.num_vars_spec()),
        passed ==> sf.ok_spec(),
        sf.ok_spec() ==> sb.ok_spec(),
        sb.ok_spec() && sb.watches_sound() ==> (passed == up_consistent(sf.clauses_spec(), sb.trail() + cube_units, sb.num_vars_spec())),
        sb.ok_spec() && !sf.ok_spec() ==> !up_consistent(sf.clauses_spec(), sb.trail(), sb.num_vars_spec()),
    ensures
        passed == up_consistent(ca0, t0 + cube_units, sb.num_vars_spec()),
        live_reasons_from(sf.clauses_spec(), sf.assignment_spec().data(), sf.trail(), t0.len() as int),
        same_clauses(ca0, sf.clauses_spec()),
        !sf.ok_spec() ==> !up_consistent(ca0, t0, sb.num_vars_spec()),
{
    let n = sb.num_vars_spec();
    let cab = sb.clauses_spec();
    let caf = sf.clauses_spec();
    let tb = sb.trail();
    let vb = sb.values();
    assert forall|i: int| 0 <= i < tb.len() implies lit_value(vb, #[trigger] tb[i]) == LBool::True && tb[i].var()@ < vb.len() by {}
    lemma_live_reasons_extend(
        cab,
        vb,
        sb.assignment_spec().data(),
        tb,
        caf,
        sf.values(),
        sf.assignment_spec().data(),
        sf.trail(),
        t0.len() as int,
    );
    assert forall|c: int| 0 <= c < ca0.len() implies (#[trigger] caf[c]).deleted_spec() == ca0[c].deleted_spec()
        && caf[c]@.to_multiset() == ca0[c]@.to_multiset() by {
        assert(cab[c].deleted_spec() == ca0[c].deleted_spec());
    }
    assert(same_clauses(ca0, caf));
    let ua = t0 + cube_units;
    assert forall|i: int| 0 <= i < t0.len() implies ua.contains(#[trigger] t0[i]) by {
        assert(ua[i] == t0[i]);
    }
    if sb.ok_spec() {
        lemma_up_extend(&sb, t0, cube_units);
        lemma_up_consistent_eq(ca0, cab, ua, n);
        lemma_up_consistent_eq(cab, caf, tb + cube_units, n);
        if !sf.ok_spec() {
            let e = Seq::<Lit>::empty();
            lemma_up_extend(&sb, t0, e);
            assert(t0 + e =~= t0);
            assert(tb + e =~= tb);
            lemma_up_consistent_eq(ca0, cab, t0, n);
            lemma_up_consistent_eq(cab, caf, tb, n);
        }
    }
    if up_consistent(ca0, ua, n) {
        assert(same_clauses(ca0, ca0));
        lemma_up_consistent_same(ca0, ca0, t0, ua, n);
    }
}

/// Keeping the values and data of assigned variables composes.
#[verifier::spinoff_prover]
proof fn lemma_assigned_kept_trans(
    v0: Seq<LBool>,
    d0: Seq<VarData>,
    v1: Seq<LBool>,
    d1: Seq<VarData>,
    v2: Seq<LBool>,
    d2: Seq<VarData>,
)
    requires
        assigned_kept(v0, d0, v1, d1),
        assigned_kept(v1, d1, v2, d2),
    ensures
        assigned_kept(v0, d0, v2, d2),
{
    assert forall|v: int| 0 <= v < v0.len() && v0[v] != LBool::Undef implies #[trigger] v2[v] == v0[v] && d2[v] == d0[v] by {
        assert(v1[v] == v0[v] && d1[v] == d0[v]);
        assert(0 <= v < v1.len() && v1[v] != LBool::Undef);
        assert(v2[v] == v1[v]);
        assert(d2[v] == d1[v]);
    }
}

} // verus!
