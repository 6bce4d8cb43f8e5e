use vstd::prelude::*;

use crate::cref::ClauseRef;
use crate::idx::{Idx, IdxVec};
use crate::lbool::{lbool_of, lbool_xor, LBool};
use crate::lit::Lit;
use crate::var::Var;

verus! {

broadcast use crate::var::lemma_var_from_index_view;

/// Per-variable data: the reason clause and the decision level of the assignment.
#[derive(Debug, Copy, Clone)]
pub struct VarData {
    pub(crate) reason: Option<ClauseRef>,
    pub(crate) level: usize,
}

impl VarData {
    /// The reason clause (spec form).
    pub closed spec fn reason_spec(self) -> Option<ClauseRef> {
        self.reason
    }

    /// The decision level (spec form).
    pub closed spec fn level_spec(self) -> nat {
        self.level as nat
    }

    /// Data with the given reason and level.
    pub fn new(reason: Option<ClauseRef>, level: usize) -> (res: Self)
        ensures
            res.reason_spec() == reason,
            res.level_spec() == level,
            res == VarData::new_spec(reason, level as nat),
    {
        VarData { reason, level }
    }
}

/// The value of `lit` under the variable values `values`.
pub open spec fn lit_value(values: Seq<LBool>, lit: Lit) -> LBool {
    lbool_xor(values[lit.var()@ as int], lit.negated())
}

/// Whether variable `v` is assigned by one of the first `i` literals of the trail.
pub open spec fn var_on_trail_before(trail: Seq<Lit>, v: u32, i: int) -> bool {
    exists|j: int| 0 <= j < i && (#[trigger] trail[j]).var()@ == v
}

/// Whether decision level `l` is the level of trail position `i` under the level starts `lim`.
pub open spec fn level_fits(lim: Seq<usize>, l: int, i: int) -> bool {
    &&& 0 <= l <= lim.len()
    &&& (l == 0 || lim[l - 1] <= i)
    &&& (l == lim.len() || i < lim[l])
}

/// Whether the level starts are sorted and within the trail.
pub open spec fn lim_wf(lim: Seq<usize>, trail_len: nat) -> bool {
    &&& forall|a: int, b: int| 0 <= a <= b < lim.len() ==> lim[a] <= lim[b]
    &&& forall|k: int| 0 <= k < lim.len() ==> #[trigger] lim[k] <= trail_len
}

/// Consistency of an assignment: every trail literal is true and has a level matching its
/// position, trail variables are distinct, every assigned variable is on the trail.
pub open spec fn trail_wf(
    values: Seq<LBool>,
    data: Seq<VarData>,
    trail: Seq<Lit>,
    lim: Seq<usize>,
    qhead: nat,
) -> bool {
    &&& values.len() == data.len()
    &&& forall|i: int|
        0 <= i < trail.len() ==> {
            &&& (#[trigger] trail[i]).var()@ < values.len()
            &&& lit_value(values, trail[i]) == LBool::True
            &&& level_fits(lim, data[trail[i].var()@ as int].level_spec() as int, i)
        }
    &&& forall|i: int, j: int|
        0 <= i < trail.len() && 0 <= j < trail.len() && i != j ==> (#[trigger] trail[i]).var()
            != (#[trigger] trail[j]).var()
    &&& forall|v: u32|
        v < values.len() && #[trigger] values[v as int] != LBool::Undef ==> var_on_trail_before(
            trail,
            v,
            trail.len() as int,
        )
    &&& lim_wf(lim, trail.len())
    &&& qhead <= trail.len()
}

/// Every variable assigned at level 0 in the first assignment keeps its value and level in
/// the second.
pub open spec fn fixed_kept(values0: Seq<LBool>, data0: Seq<VarData>, values1: Seq<LBool>, data1: Seq<VarData>) -> bool {
    forall|v: u32|
        v < values0.len() && values0[v as int] != LBool::Undef && (#[trigger] data0[v as int]).level_spec() == 0 ==> v
            < values1.len() && values1[v as int] == values0[v as int] && data1[v as int].level_spec() == 0
}

/// Every variable assigned in the first assignment keeps its value and data in the second.
pub open spec fn assigned_kept(values0: Seq<LBool>, data0: Seq<VarData>, values1: Seq<LBool>, data1: Seq<VarData>) -> bool {
    &&& values0.len() <= values1.len()
    &&& forall|v: int| 0 <= v < values0.len() && values0[v] != LBool::Undef ==> #[trigger] values1[v] == values0[v] && data1[v] == data0[v]
}

/// The current assignment: variable values, per-variable data, the trail of assigned
/// literals, the trail positions where decision levels start, and the propagation head.
#[derive(Debug)]
pub struct Assignment {
    pub(crate) assignment: IdxVec<Var, LBool>,
    pub(crate) var_data: IdxVec<Var, VarData>,
    pub(crate) trail: Vec<Lit>,
    pub(crate) trail_lim: Vec<usize>,
    pub(crate) qhead: usize,
}

impl Assignment {
    /// The value of each variable.
    pub closed spec fn values(&self) -> Seq<LBool> {
        self.assignment@
    }

    /// The data of each variable.
    pub closed spec fn data(&self) -> Seq<VarData> {
        self.var_data@
    }

    /// The trail of assigned literals, in assignment order.
    pub closed spec fn trail_spec(&self) -> Seq<Lit> {
        self.trail@
    }

    /// The trail positions at which decision levels start.
    pub closed spec fn lim_spec(&self) -> Seq<usize> {
        self.trail_lim@
    }

    /// The trail position of the next literal to propagate.
    pub closed spec fn qhead_spec(&self) -> nat {
        self.qhead as nat
    }

    /// Number of variables.
    pub open spec fn num_vars(&self) -> nat {
        self.values().len()
    }

    /// The assignment is consistent (see [`trail_wf`]).
    pub open spec fn wf(&self) -> bool {
        trail_wf(self.values(), self.data(), self.trail_spec(), self.lim_spec(), self.qhead_spec())
    }

    /// The value of `lit` (spec form).
    pub open spec fn value_spec(&self, lit: Lit) -> LBool {
        lit_value(self.values(), lit)
    }

    /// The decision level of `lit`'s variable (spec form).
    pub open spec fn level_spec(&self, v: Var) -> nat {
        self.data()[v@ as int].level_spec()
    }

    /// `lit`'s value if it was assigned at level 0, `Undef` otherwise (spec form).
    pub open spec fn fixed_spec(&self, lit: Lit) -> LBool {
        if self.level_spec(lit.var()) > 0 {
            LBool::Undef
        } else {
            self.value_spec(lit)
        }
    }

    /// An empty assignment over no variable.
    pub fn new() -> (res: Self)
        ensures
            res.values() == Seq::<LBool>::empty(),
            res.data() == Seq::<VarData>::empty(),
            res.trail_spec() == Seq::<Lit>::empty(),
            res.lim_spec() == Seq::<usize>::empty(),
            res.qhead_spec() == 0,
            res.wf(),
    {
        Assignment {
            assignment: IdxVec::new(),
            var_data: IdxVec::new(),
            trail: Vec::new(),
            trail_lim: Vec::new(),
            qhead: 0,
        }
    }

    /// Adds an unassigned variable (at the next index) with no reason, at level 0.
    pub fn push_var(&mut self)
        requires
            old(self).wf(),
        ensures
            final(self).wf(),
            final(self).values() == old(self).values().push(LBool::Undef),
            final(self).data().len() == old(self).data().len() + 1,
            forall|v: int| 0 <= v < old(self).data().len() ==> final(self).data()[v] == old(self).data()[v],
            final(self).data().last().reason_spec() is None,
            final(self).data().last().level_spec() == 0,
            fixed_kept(old(self).values(), old(self).data(), final(self).values(), final(self).data()),
            final(self).trail_spec() == old(self).trail_spec(),
            final(self).lim_spec() == old(self).lim_spec(),
            final(self).qhead_spec() == old(self).qhead_spec(),
    {
        self.assignment.push(LBool::Undef);
        self.var_data.push(VarData::new(None, 0));
        proof {
            let vals = self.assignment@;
            let t = self.trail@;
            assert forall|i: int| 0 <= i < t.len() implies lit_value(vals, #[trigger] t[i]) == LBool::True by {
                assert(vals[t[i].var()@ as int] == old(self).assignment@[t[i].var()@ as int]);
            }
            assert forall|v: u32| v < vals.len() && #[trigger] vals[v as int] != LBool::Undef implies var_on_trail_before(t, v, t.len() as int) by {
                assert(vals[v as int] == old(self).assignment@[v as int]);
            }
        }
    }

    /// The value of `lit`.
    pub fn value(&self, lit: Lit) -> (res: LBool)
        requires
            lit.var()@ < self.num_vars(),
        ensures
            res == self.value_spec(lit),
    {
        let v = *self.assignment.at(&lit.var());
        v ^ lit.negated()
    }

    /// The value of `var`.
    pub fn value_var(&self, var: Var) -> (res: LBool)
        requires
            var@ < self.num_vars(),
        ensures
            res == self.values()[var@ as int],
    {
        *self.assignment.at(&var)
    }

    /// Sets the value of `var`, leaving the rest of the assignment alone.
    pub fn assign(&mut self, var: Var, value: LBool)
        requires
            var@ < old(self).num_vars(),
        ensures
            final(self).values() == old(self).values().update(var@ as int, value),
            final(self).data() == old(self).data(),
            final(self).trail_spec() == old(self).trail_spec(),
            final(self).lim_spec() == old(self).lim_spec(),
            final(self).qhead_spec() == old(self).qhead_spec(),
    {
        self.assignment.set(&var, value);
    }

    /// Sets `var` to `Undef`, leaving the rest of the assignment alone.
    pub fn unassign(&mut self, var: Var)
        requires
            var@ < old(self).num_vars(),
        ensures
            final(self).values() == old(self).values().update(var@ as int, LBool::Undef),
            final(self).data() == old(self).data(),
            final(self).trail_spec() == old(self).trail_spec(),
            final(self).lim_spec() == old(self).lim_spec(),
            final(self).qhead_spec() == old(self).qhead_spec(),
    {
        self.assignment.set(&var, LBool::Undef);
    }

    /// The data of `var`.
    pub fn var_data(&self, var: Var) -> (res: &VarData)
        requires
            var@ < self.data().len(),
        ensures
            *res == self.data()[var@ as int],
    {
        self.var_data.at(&var)
    }

    /// The reason clause of `var`'s assignment.
    pub fn reason(&self, var: Var) -> (res: Option<ClauseRef>)
        requires
            var@ < self.data().len(),
        ensures
            res == self.data()[var@ as int].reason_spec(),
    {
        self.var_data.at(&var).reason
    }

    /// The decision level of `var`'s assignment.
    pub fn level(&self, var: Var) -> (res: usize)
        requires
            var@ < self.data().len(),
        ensures
            res == self.data()[var@ as int].level_spec(),
    {
        self.var_data.at(&var).level
    }

    /// The value of `lit` if it was assigned at level 0, otherwise `Undef`.
    pub fn fixed(&self, lit: Lit) -> (res: LBool)
        requires
            lit.var()@ < self.num_vars(),
            self.num_vars() == self.data().len(),
        ensures
            res == self.fixed_spec(lit),
    {
        if self.level(lit.var()) > 0 {
            LBool::Undef
        } else {
            self.value(lit)
        }
    }

    /// The value of `var` if it was assigned at level 0, otherwise `Undef`.
    pub fn fixed_var(&self, var: Var) -> (res: LBool)
        requires
            var@ < self.num_vars(),
            self.num_vars() == self.data().len(),
        ensures
            res == (if self.level_spec(var) > 0 { LBool::Undef } else { self.values()[var@ as int] }),
    {
        if self.level(var) > 0 {
            LBool::Undef
        } else {
            self.value_var(var)
        }
    }

    /// The current decision level.
    pub fn decision_level(&self) -> (res: usize)
        ensures
            res == self.lim_spec().len(),
    {
        self.trail_lim.len()
    }

    /// Opens a new decision level at the end of the trail.
    pub fn new_decision_level(&mut self)
        requires
            old(self).wf(),
        ensures
            final(self).wf(),
            final(self).lim_spec() == old(self).lim_spec().push(old(self).trail_spec().len() as usize),
            final(self).values() == old(self).values(),
            final(self).data() == old(self).data(),
            final(self).trail_spec() == old(self).trail_spec(),
            final(self).qhead_spec() == old(self).qhead_spec(),
    {
        let len = self.trail.len();
        self.trail_lim.push(len);
        proof {
            let lim = self.trail_lim@;
            let t = self.trail@;
            assert forall|i: int| 0 <= i < t.len() implies level_fits(lim, self.var_data@[(#[trigger] t[i]).var()@ as int].level_spec() as int, i) by {
                assert(level_fits(old(self).trail_lim@, self.var_data@[t[i].var()@ as int].level_spec() as int, i));
            }
        }
    }

    /// Assigns `lit` true at the current level with the given reason and appends it to the trail.
    pub fn unchecked_enqueue(&mut self, lit: Lit, reason: Option<ClauseRef>)
        requires
            old(self).wf(),
            lit.var()@ < old(self).num_vars(),
            old(self).value_spec(lit) == LBool::Undef,
        ensures
            final(self).wf(),
            final(self).values() == old(self).values().update(lit.var()@ as int, lbool_of(!lit.negated())),
            final(self).data() == old(self).data().update(lit.var()@ as int, VarData::new_spec(reason, old(self).lim_spec().len())),
            final(self).trail_spec() == old(self).trail_spec().push(lit),
            final(self).lim_spec() == old(self).lim_spec(),
            final(self).qhead_spec() == old(self).qhead_spec(),
            final(self).value_spec(lit) == LBool::True,
            fixed_kept(old(self).values(), old(self).data(), final(self).values(), final(self).data()),
            assigned_kept(old(self).values(), old(self).data(), final(self).values(), final(self).data()),
    {
        let var = lit.var();
        let level = self.decision_level();
        self.assignment.set(&var, LBool::from(!lit.negated()));
        self.var_data.set(&var, VarData::new(reason, level));
        self.trail.push(lit);
        proof {
            let vals = self.assignment@;
            let ovals = old(self).assignment@;
            let t = self.trail@;
            let ot = old(self).trail@;
            let lim = self.trail_lim@;
            // The literal's variable was unassigned, so it is not on the old trail.
            assert forall|i: int| 0 <= i < ot.len() implies (#[trigger] ot[i]).var() != var by {
                if ot[i].var() == var {
                    assert(lit_value(ovals, ot[i]) == LBool::True);
                }
            }
            assert forall|i: int| 0 <= i < t.len() implies {
                &&& (#[trigger] t[i]).var()@ < vals.len()
                &&& lit_value(vals, t[i]) == LBool::True
                &&& level_fits(lim, self.var_data@[t[i].var()@ as int].level_spec() as int, i)
            } by {
                if i < ot.len() {
                    assert(t[i] == ot[i]);
                    assert(t[i].var() != var);
                    crate::var::Var::lemma_view_injective(t[i].var(), var);
                } else {
                    assert(t[i] == lit);
                }
            }
            assert forall|v: u32| v < vals.len() && #[trigger] vals[v as int] != LBool::Undef implies var_on_trail_before(t, v, t.len() as int) by {
                if v == var@ {
                    assert(t[ot.len() as int] == lit);
                } else {
                    assert(vals[v as int] == ovals[v as int]);
                    let j = choose|j: int| 0 <= j < ot.len() && (#[trigger] ot[j]).var()@ == v;
                    assert(t[j] == ot[j]);
                }
            }
            assert forall|k: int| 0 <= k < lim.len() implies #[trigger] lim[k] <= t.len() by {}
        }
    }

    /// Assigns `lit` if it is unassigned; returns `false` exactly when `lit` is already false.
    pub fn enqueue(&mut self, lit: Lit, reason: Option<ClauseRef>) -> (res: bool)
        requires
            old(self).wf(),
            lit.var()@ < old(self).num_vars(),
        ensures
            final(self).wf(),
            res == (old(self).value_spec(lit) != LBool::False),
            old(self).value_spec(lit) == LBool::Undef ==> {
                &&& final(self).values() == old(self).values().update(lit.var()@ as int, lbool_of(!lit.negated()))
                &&& final(self).data() == old(self).data().update(lit.var()@ as int, VarData::new_spec(reason, old(self).lim_spec().len()))
                &&& final(self).trail_spec() == old(self).trail_spec().push(lit)
            },
            old(self).value_spec(lit) != LBool::Undef ==> {
                &&& final(self).values() == old(self).values()
                &&& final(self).data() == old(self).data()
                &&& final(self).trail_spec() == old(self).trail_spec()
            },
            final(self).lim_spec() == old(self).lim_spec(),
            final(self).qhead_spec() == old(self).qhead_spec(),
            fixed_kept(old(self).values(), old(self).data(), final(self).values(), final(self).data()),
            assigned_kept(old(self).values(), old(self).data(), final(self).values(), final(self).data()),
    {
        match self.value(lit) {
            LBool::Undef => {
                self.unchecked_enqueue(lit, reason);
                true
            },
            LBool::True => true,
            LBool::False => false,
        }
    }

    /// The next literal to propagate, if any; advances the propagation head.
    pub fn dequeue(&mut self) -> (res: Option<Lit>)
        requires
            old(self).wf(),
        ensures
            final(self).wf(),
            final(self).values() == old(self).values(),
            final(self).data() == old(self).data(),
            final(self).trail_spec() == old(self).trail_spec(),
            final(self).lim_spec() == old(self).lim_spec(),
            old(self).qhead_spec() < old(self).trail_spec().len() ==> res == Some(old(self).trail_spec()[old(self).qhead_spec() as int])
                && final(self).qhead_spec() == old(self).qhead_spec() + 1,
            old(self).qhead_spec() >= old(self).trail_spec().len() ==> res is None && final(self).qhead_spec() == old(self).qhead_spec(),
            res matches Some(l) ==> final(self).trail_spec().take(final(self).qhead_spec() as int) == old(self).trail_spec().take(
                old(self).qhead_spec() as int,
            ).push(l),
    {
        proof {
            if self.qhead < self.trail@.len() {
                assert(self.trail@.take(self.qhead + 1) =~= self.trail@.take(self.qhead as int).push(self.trail@[self.qhead as int]));
            }
        }
        if self.qhead < self.trail.len() {
            let p = self.trail[self.qhead];
            self.qhead = self.qhead + 1;
            Some(p)
        } else {
            None
        }
    }

    /// Marks the whole trail as propagated.
    pub fn skip_propagation(&mut self)
        requires
            old(self).wf(),
        ensures
            final(self).wf(),
            final(self).values() == old(self).values(),
            final(self).data() == old(self).data(),
            final(self).trail_spec() == old(self).trail_spec(),
            final(self).lim_spec() == old(self).lim_spec(),
            final(self).qhead_spec() == old(self).trail_spec().len(),
    {
        self.qhead = self.trail.len();
    }

    /// Number of literals on the trail.
    pub fn trail_len(&self) -> (res: usize)
        ensures
            res == self.trail_spec().len(),
    {
        self.trail.len()
    }

    /// The trail position of the next literal to propagate.
    pub fn qhead(&self) -> (res: usize)
        ensures
            res == self.qhead_spec(),
    {
        self.qhead
    }

    /// The trail literal at position `i`.
    pub fn trail_at(&self, i: usize) -> (res: Lit)
        requires
            i < self.trail_spec().len(),
        ensures
            res == self.trail_spec()[i as int],
    {
        self.trail[i]
    }

    /// The trail position where decision level `level + 1` starts.
    pub fn lim_at(&self, level: usize) -> (res: usize)
        requires
            level < self.lim_spec().len(),
        ensures
            res == self.lim_spec()[level as int],
    {
        self.trail_lim[level]
    }

    /// Undoes every assignment above decision level `level`; returns the removed trail
    /// literals, last assigned first. Nothing changes when the current level is not above
    /// `level`.
    pub fn backtrack(&mut self, level: usize) -> (removed: Vec<Lit>)
        requires
            old(self).wf(),
        ensures
            final(self).wf(),
            final(self).data() == old(self).data(),
            fixed_kept(old(self).values(), old(self).data(), final(self).values(), final(self).data()),
            old(self).lim_spec().len() <= level ==> {
                &&& final(self).values() == old(self).values()
                &&& final(self).trail_spec() == old(self).trail_spec()
                &&& final(self).lim_spec() == old(self).lim_spec()
                &&& final(self).qhead_spec() == old(self).qhead_spec()
                &&& removed@.len() == 0
            },
            level < old(self).lim_spec().len() ==> {
                let cut = old(self).lim_spec()[level as int] as int;
                &&& final(self).trail_spec() == old(self).trail_spec().take(cut)
                &&& final(self).lim_spec() == old(self).lim_spec().take(level as int)
                &&& final(self).qhead_spec() == cut
                &&& removed@ == old(self).trail_spec().skip(cut).reverse()
                &&& forall|v: u32|
                    v < old(self).values().len() ==> #[trigger] final(self).values()[v as int] == (if var_on_removed(
                        old(self).trail_spec(),
                        v,
                        cut,
                    ) { LBool::Undef } else { old(self).values()[v as int] })
                &&& final(self).values().len() == old(self).values().len()
            },
    {
        let mut removed: Vec<Lit> = Vec::new();
        if self.trail_lim.len() > level {
            let cut = self.trail_lim[level];
            let ghost ot = self.trail@;
            let ghost ovals = self.assignment@;
            let mut i = self.trail.len();
            while i > cut
                invariant
                    cut <= i <= ot.len(),
                    self.trail@ == ot,
                    self.trail_lim@ == old(self).trail_lim@,
                    self.var_data@ == old(self).var_data@,
                    self.qhead == old(self).qhead,
                    cut == old(self).trail_lim@[level as int],
                    level < old(self).trail_lim@.len(),
                    trail_wf(ovals, self.var_data@, ot, self.trail_lim@, self.qhead as nat),
                    self.assignment@.len() == ovals.len(),
                    forall|v: u32|
                        v < ovals.len() ==> #[trigger] self.assignment@[v as int] == (if var_on_removed(ot, v, i as int) {
                            LBool::Undef
                        } else {
                            ovals[v as int]
                        }),
                    removed@ == ot.skip(i as int).reverse(),
                decreases i,
            {
                i = i - 1;
                let lit = self.trail[i];
                let var = lit.var();
                self.assignment.set(&var, LBool::Undef);
                removed.push(lit);
                proof {
                    assert forall|v: u32| v < ovals.len() implies #[trigger] self.assignment@[v as int] == (if var_on_removed(ot, v, i as int) {
                            LBool::Undef
                        } else {
                            ovals[v as int]
                        }) by {
                        if v == var@ {
                            assert(ot[i as int].var()@ == v);
                        } else {
                            if var_on_removed(ot, v, i as int) {
                                let j = choose|j: int| i <= j < ot.len() && (#[trigger] ot[j]).var()@ == v;
                                if j == i {
                                    assert(ot[i as int].var()@ == var@);
                                } else {
                                    assert(var_on_removed(ot, v, i + 1));
                                }
                            }
                        }
                    }
                    assert(ot.skip(i as int).reverse() =~= ot.skip(i + 1).reverse().push(lit));
                }
            }
            self.qhead = cut;
            self.trail.truncate(cut);
            self.trail_lim.truncate(level);
            proof {
                let vals = self.assignment@;
                let t = self.trail@;
                let lim = self.trail_lim@;
                let olim = old(self).trail_lim@;
                let data = self.var_data@;
                assert(t =~= ot.take(cut as int));
                assert(lim =~= olim.take(level as int));
                assert forall|k: int| 0 <= k < t.len() implies {
                    &&& (#[trigger] t[k]).var()@ < vals.len()
                    &&& lit_value(vals, t[k]) == LBool::True
                    &&& level_fits(lim, data[t[k].var()@ as int].level_spec() as int, k)
                } by {
                    assert(t[k] == ot[k]);
                    let vk = t[k].var()@;
                    if var_on_removed(ot, vk, cut as int) {
                        let j = choose|j: int| cut <= j < ot.len() && (#[trigger] ot[j]).var()@ == vk;
                        assert(ot[j].var() == ot[k].var());
                    }
                    assert(vals[vk as int] == ovals[vk as int]);
                    let l = data[vk as int].level_spec() as int;
                    assert(level_fits(olim, l, k));
                    if l > level {
                        assert(olim[l - 1] >= olim[level as int]);
                    }
                }
                assert forall|v: u32| v < vals.len() && #[trigger] vals[v as int] != LBool::Undef implies var_on_trail_before(t, v, t.len() as int) by {
                    assert(!var_on_removed(ot, v, cut as int));
                    assert(ovals[v as int] != LBool::Undef);
                    let j = choose|j: int| 0 <= j < ot.len() && (#[trigger] ot[j]).var()@ == v;
                    if j >= cut {
                        assert(var_on_removed(ot, v, cut as int));
                    }
                    assert(t[j] == ot[j]);
                }
                assert forall|k: int| 0 <= k < lim.len() implies #[trigger] lim[k] <= t.len() by {
                    assert(olim[k] <= olim[level as int]);
                }
                assert forall|u: u32|
                    u < ovals.len() && ovals[u as int] != LBool::Undef && (#[trigger] data[u as int]).level_spec() == 0 implies u
                        < vals.len() && vals[u as int] == ovals[u as int] && data[u as int].level_spec() == 0 by {
                    assert(var_on_trail_before(ot, u, ot.len() as int));
                    if var_on_removed(ot, u, cut as int) {
                        let j = choose|j: int| cut <= j < ot.len() && (#[trigger] ot[j]).var()@ == u;
                        assert(level_fits(olim, data[ot[j].var()@ as int].level_spec() as int, j));
                        assert(olim[0] <= olim[level as int]);
                    }
                    assert(vals[u as int] == ovals[u as int]);
                }
            }
        }
        removed
    }
}

impl VarData {
    /// Data with the given reason and level (spec form).
    pub closed spec fn new_spec(reason: Option<ClauseRef>, level: nat) -> VarData {
        VarData { reason, level: level as usize }
    }

    /// `new_spec` builds data with the given reason and level.
    pub broadcast proof fn lemma_new_spec(reason: Option<ClauseRef>, level: nat)
        ensures
            #[trigger] VarData::new_spec(reason, level).reason_spec() == reason,
            level <= usize::MAX ==> VarData::new_spec(reason, level).level_spec() == level,
    {
    }
}

/// The number of decision levels fits in `usize`.
pub proof fn lemma_lim_len_bound(a: &Assignment)
    ensures
        a.lim_spec().len() <= usize::MAX,
{
    assert(a.trail_lim.len() == a.trail_lim@.len());
}

/// A consistent trail assigns each variable at most once, so it is no longer than the
/// number of variables.
pub proof fn lemma_trail_len_bound(a: &Assignment)
    requires
        a.wf(),
    ensures
        a.trail_spec().len() <= a.num_vars(),
{
    let t = a.trail_spec();
    let vars = t.map_values(|l: Lit| l.var()@ as int);
    assert forall|i: int, j: int| 0 <= i < vars.len() && 0 <= j < vars.len() && i != j implies vars[i] != vars[j] by {
        assert(t[i].var() != t[j].var());
        crate::var::Var::lemma_view_injective(t[i].var(), t[j].var());
    }
    assert(vars.no_duplicates());
    vars.unique_seq_to_set();
    let range = vstd::set_lib::set_int_range(0, a.num_vars() as int);
    vstd::set_lib::lemma_int_range(0, a.num_vars() as int);
    assert forall|x: int| vars.to_set().contains(x) implies range.contains(x) by {
        let i = choose|i: int| 0 <= i < vars.len() && vars[i] == x;
        assert(t[i].var()@ < a.num_vars());
    }
    vstd::set_lib::lemma_len_subset(vars.to_set(), range);
}

/// A false literal's variable is on the trail.
pub proof fn lemma_false_on_trail(a: &Assignment, lit: Lit)
    requires
        a.wf(),
        lit.var()@ < a.num_vars(),
        lit_value(a.values(), lit) == LBool::False,
    ensures
        var_on_trail_before(a.trail_spec(), lit.var()@, a.trail_spec().len() as int),
{
    assert(a.values()[lit.var()@ as int] != LBool::Undef);
}

/// Whether variable `v` is assigned by a trail literal at position `cut` or later.
pub open spec fn var_on_removed(trail: Seq<Lit>, v: u32, cut: int) -> bool {
    exists|j: int| cut <= j < trail.len() && (#[trigger] trail[j]).var()@ == v
}

} // verus!
