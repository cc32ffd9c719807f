//! Incremental difference-constraint systems.
//!
//! A difference constraint `v - u <= c` relates two integer variables. The
//! library keeps a set of such constraints together with an assignment that
//! satisfies all of them, adds new constraints one by one (repairing the
//! assignment with a Dijkstra search over reduced costs), and reports the
//! first constraint that cannot be added.
use vstd::prelude::*;

pub mod common;
pub mod feasible_system;
pub mod prioritized_multi_constraints;
pub mod priority_queues;
pub mod solution;

use crate::common::{value_of, Constraint, ConstraintPriority, VarId};
use crate::common::MultiConstraint;
use crate::feasible_system::{path_weight, values_within, AddOutcome, FeasibleSystem};
use crate::prioritized_multi_constraints::{least_of, PrioritizedMulticConstraints};
use crate::solution::{with_missing_vars, Solution};

verus! {

/// Where a system stands.
#[derive(Clone, Copy, PartialEq, Eq, Structural, Debug)]
pub enum Status {
    /// Every constraint was added to the feasible part.
    Feasible,
    /// A constraint could not be added: the system has no solution.
    Infeasible,
    /// Some constraints wait to be added.
    Undetermined,
}

/// The constraint `v - u <= c`, as the triple `(u, v, c)`, holds under the
/// assignment (unassigned variables count as 0).
pub open spec fn triple_holds(t: (VarId, VarId, i64), m: Map<VarId, i64>) -> bool {
    value_of(m, t.1) - value_of(m, t.0) <= t.2
}

/// For the pair of variables of `e`, `e` has the least bound among the
/// constraints of `pmc`, with the priority of that bound.
pub open spec fn is_least_waiting(pmc: PrioritizedMulticConstraints, e: Constraint) -> bool {
    &&& least_of(pmc.bounds_at(e.u, e.v), e.c)
    &&& e.priority == pmc.bound_priorities_at(e.u, e.v)[e.c]
}

/// The pair `(u, v)` had constraints in `before` and has none in `after`.
pub open spec fn taken_out(
    before: PrioritizedMulticConstraints,
    after: PrioritizedMulticConstraints,
    u: VarId,
    v: VarId,
) -> bool {
    !before.bounds_at(u, v).dom().is_empty() && after.bounds_at(u, v).dom().is_empty()
}

/// The constraint `v - u <= c`, as the triple `(u, v, c)`, is satisfied by
/// the partial assignment: it is broken only when both variables have
/// values that break it.
pub open spec fn triple_satisfied_by(t: (VarId, VarId, i64), m: Map<VarId, i64>) -> bool {
    m.contains_key(t.0) && m.contains_key(t.1) ==> m[t.1] - m[t.0] <= t.2
}

/// The priority under which each pair of variables waits once the listed
/// constraints have been taken in, in order: a pair waits under the greatest
/// priority given to it so far.
pub open spec fn pair_priorities_of(cs: Seq<Constraint>) -> Map<(VarId, VarId), ConstraintPriority>
    decreases cs.len(),
{
    if cs.len() == 0 {
        Map::empty()
    } else {
        let before = pair_priorities_of(cs.drop_last());
        let e = cs.last();
        if !before.contains_key((e.u, e.v)) || before[(e.u, e.v)] < e.priority {
            before.insert((e.u, e.v), e.priority)
        } else {
            before
        }
    }
}

/// The priority of each bound between `u` and `v` once the listed constraints
/// have been taken in, in order: the priority of the last one listed with
/// that bound.
pub open spec fn bound_priorities_of(cs: Seq<Constraint>, u: VarId, v: VarId) -> Map<i64, ConstraintPriority>
    decreases cs.len(),
{
    if cs.len() == 0 {
        Map::empty()
    } else {
        let before = bound_priorities_of(cs.drop_last(), u, v);
        let e = cs.last();
        if e.u == u && e.v == v {
            before.insert(e.c, e.priority)
        } else {
            before
        }
    }
}

/// A bound on the values of the feasible part after `k` additions, from
/// values within `[-b, b]` of `n` variables and bounds within `[-m, m]`:
/// the addition made with `n'` variables with values may take the bound
/// from `B` to `B + m(n' + 1)`, and each addition gives values to at most two
/// more variables, so that `k` of them add at most `m k (n + k)`.
pub open spec fn value_bound(b: int, m: int, n: int, k: nat) -> int {
    b + m * k * (n + k)
}

/// The bound of `value_bound` grows with the number of additions, by
/// `m(n + 2k + 1)` at the addition after `k` of them.
pub proof fn lemma_value_bound_grows(b: int, m: int, n: int, k1: nat, k2: nat)
    requires
        0 <= b,
        0 <= m,
        0 <= n,
        k1 <= k2,
    ensures
        b <= value_bound(b, m, n, k1) <= value_bound(b, m, n, k2),
        value_bound(b, m, n, k1 + 1) == value_bound(b, m, n, k1) + m * (n + 2 * k1 + 1),
{
    let x1 = k1 as int;
    let x2 = k2 as int;
    assert(0 <= m * x1 * (n + x1) <= m * x2 * (n + x2)) by (nonlinear_arith)
        requires
            0 <= m,
            0 <= n,
            0 <= x1 <= x2,
    ;
    assert(m * (x1 + 1) * (n + x1 + 1) == m * x1 * (n + x1) + m * (n + 2 * x1 + 1)) by (nonlinear_arith);
}

/// A difference-constraint system that takes constraints in, and on `solve`
/// adds them, pair of variables by pair of variables in the order of
/// priority, to a feasible part that keeps a satisfying assignment, until
/// one cannot be added.
pub struct DCS {
    feasible_subsystem: FeasibleSystem,
    infeasible_constraints: PrioritizedMulticConstraints,
    undetermined_constraints: PrioritizedMulticConstraints,
    added: Ghost<Set<(VarId, VarId, i64)>>,
}

impl DCS {
    /// Every constraint taken in so far, as `(u, v, c)` for `v - u <= c`.
    pub closed spec fn added(&self) -> Set<(VarId, VarId, i64)> {
        self.added@
    }

    /// The feasible part.
    pub closed spec fn feasible(&self) -> FeasibleSystem {
        self.feasible_subsystem
    }

    /// The constraints found infeasible.
    pub closed spec fn infeasible(&self) -> PrioritizedMulticConstraints {
        self.infeasible_constraints
    }

    /// The constraints that wait to be added.
    pub closed spec fn undetermined(&self) -> PrioritizedMulticConstraints {
        self.undetermined_constraints
    }

    /// Where the system stands: infeasible when some constraint was found
    /// infeasible, feasible when none waits, undetermined otherwise.
    pub open spec fn status_of(&self) -> Status {
        if !self.infeasible().pair_priorities().dom().is_empty() {
            Status::Infeasible
        } else if self.undetermined().pair_priorities().dom().is_empty() {
            Status::Feasible
        } else {
            Status::Undetermined
        }
    }

    /// The parts are well-formed; every constraint taken in is waiting,
    /// found infeasible, or covered by a constraint of the feasible part
    /// with the same variables and a bound no greater; the parts hold only
    /// constraints taken in; only variables of the constraints of the
    /// feasible part have values there; and a constraint found infeasible
    /// closes a negative cycle of the feasible part.
    pub closed spec fn wf(&self) -> bool {
        let fs = self.feasible_subsystem;
        let inf = self.infeasible_constraints;
        let und = self.undetermined_constraints;
        &&& fs.wf()
        &&& inf.wf()
        &&& und.wf()
        &&& forall|u: VarId, v: VarId, c: i64| #[trigger]
            und.bounds_at(u, v).contains_key(c) ==> self.added@.contains((u, v, c))
        &&& forall|u: VarId, v: VarId, c: i64| #[trigger]
            inf.bounds_at(u, v).contains_key(c) ==> self.added@.contains((u, v, c))
        &&& forall|e: Constraint| #[trigger]
            fs.has_constraint(e) ==> self.added@.contains((e.u, e.v, e.c))
        &&& fs.values_of_constraints()
        &&& forall|t: (VarId, VarId, i64)| #[trigger]
            self.added@.contains(t) ==> {
                ||| und.bounds_at(t.0, t.1).contains_key(t.2)
                ||| inf.bounds_at(t.0, t.1).contains_key(t.2)
                ||| exists|e: Constraint|
                    #![trigger fs.has_constraint(e)]
                    fs.has_constraint(e) && e.u == t.0 && e.v == t.1 && e.c <= t.2
            }
        &&& !inf.pair_priorities().dom().is_empty() ==> exists|u: VarId, v: VarId, c: i64|
            #![trigger least_of(inf.bounds_at(u, v), c)]
            least_of(inf.bounds_at(u, v), c) && fs.closes_negative_cycle(
                (Constraint { v, u, c, priority: 0 }),
            )
    }

    /// An empty system.
    pub fn new() -> (r: Self)
        ensures
            r.wf(),
            r.added() == Set::<(VarId, VarId, i64)>::empty(),
            r.status_of() == Status::Feasible,
            r.feasible().constraint_set() == Set::<Constraint>::empty(),
            r.feasible().values() == Map::<VarId, i64>::empty(),
            r.infeasible().pair_priorities().dom().is_empty(),
            forall|u: VarId, v: VarId| #[trigger] r.undetermined().bounds_at(u, v).dom().is_empty(),
            r.undetermined().pair_priorities() == Map::<(VarId, VarId), ConstraintPriority>::empty(),
            forall|u: VarId, v: VarId| #[trigger] r.undetermined().bound_priorities_at(u, v) == Map::<i64, ConstraintPriority>::empty(),
    {
        let r = DCS {
            feasible_subsystem: FeasibleSystem::new(),
            infeasible_constraints: PrioritizedMulticConstraints::new(),
            undetermined_constraints: PrioritizedMulticConstraints::new(),
            added: Ghost(Set::empty()),
        };
        proof {
            assert forall|e: Constraint| #[trigger] r.feasible_subsystem.has_constraint(e) implies r.added@.contains((e.u, e.v, e.c)) by {
                assert(!r.feasible_subsystem.constraint_set().contains(e));
            }
            assert forall|u: VarId, v: VarId, c: i64| #[trigger]
                r.undetermined_constraints.bounds_at(u, v).contains_key(c) implies r.added@.contains((u, v, c)) by {
                assert(r.undetermined_constraints.bounds_at(u, v).dom().is_empty());
            }
            assert forall|u: VarId, v: VarId, c: i64| #[trigger]
                r.infeasible_constraints.bounds_at(u, v).contains_key(c) implies r.added@.contains((u, v, c)) by {
                assert(r.infeasible_constraints.bounds_at(u, v).dom().is_empty());
            }
        }
        r
    }

    /// The feasible part.
    pub fn feasible_subsystem(&self) -> (r: &FeasibleSystem)
        ensures
            *r == self.feasible(),
    {
        &self.feasible_subsystem
    }

    /// Whether no constraint waits to be added.
    pub fn is_fully_determined(&self) -> (r: bool)
        requires
            self.wf(),
        ensures
            r == self.undetermined().pair_priorities().dom().is_empty(),
    {
        self.undetermined_constraints.is_empty()
    }

    /// Where the system stands.
    pub fn status(&self) -> (r: Status)
        requires
            self.wf(),
        ensures
            r == self.status_of(),
    {
        if !self.infeasible_constraints.is_empty() {
            return Status::Infeasible;
        }
        if self.undetermined_constraints.is_empty() {
            return Status::Feasible;
        }
        Status::Undetermined
    }

    /// Whether the assignment could be a solution as far as the system can
    /// tell: never for an infeasible system; otherwise when it satisfies the
    /// constraints of the feasible part and, for each waiting pair, the one
    /// with the least bound (a constraint with an unassigned variable counts
    /// as satisfied), that is, every constraint taken in.
    pub fn check_solution(&self, sol: &Solution) -> (r: bool)
        requires
            self.wf(),
        ensures
            r == (self.status_of() != Status::Infeasible && forall|t: (VarId, VarId, i64)| #[trigger]
                self.added().contains(t) ==> triple_satisfied_by(t, sol@)),
            r == match self.status_of() {
                Status::Feasible => forall|e: Constraint| #[trigger]
                    self.feasible().has_constraint(e) ==> e.satisfied_by(sol@),
                Status::Infeasible => false,
                Status::Undetermined => {
                    &&& forall|u: VarId, v: VarId, c: i64|
                        #![trigger least_of(self.undetermined().bounds_at(u, v), c)]
                        least_of(self.undetermined().bounds_at(u, v), c) ==> (sol@.contains_key(u)
                            && sol@.contains_key(v) ==> sol@[v] - sol@[u] <= c)
                    &&& forall|e: Constraint| #[trigger]
                        self.feasible().has_constraint(e) ==> e.satisfied_by(sol@)
                },
            },
    {
        proof {
            assert(self.undetermined() == self.undetermined_constraints);
            assert(self.feasible() == self.feasible_subsystem);
        }
        proof {
            self.lemma_check_covers_added(sol@);
            if self.status_of() == Status::Feasible {
                self.undetermined_constraints.lemma_wf();
                assert forall|u: VarId, v: VarId, c: i64|
                    #![trigger least_of(self.undetermined().bounds_at(u, v), c)]
                    least_of(self.undetermined().bounds_at(u, v), c) && sol@.contains_key(u)
                    && sol@.contains_key(v) implies sol@[v] - sol@[u] <= c by {
                    assert(!self.undetermined_constraints.pair_priorities().contains_key((u, v)));
                    assert(self.undetermined_constraints.bounds_at(u, v).dom().is_empty());
                }
            }
        }
        match self.status() {
            Status::Feasible => self.feasible_subsystem.check_solution(sol),
            Status::Infeasible => false,
            Status::Undetermined => {
                let a = self.undetermined_constraints.check_solution(sol);
                let b = self.feasible_subsystem.check_solution(sol);
                a && b
            },
        }
    }

    /// For a system that is not infeasible, the constraints of the feasible
    /// part and the least bound of each waiting pair hold exactly when every
    /// constraint taken in holds.
    proof fn lemma_check_covers_added(&self, m: Map<VarId, i64>)
        requires
            self.wf(),
        ensures
            self.status_of() != Status::Infeasible ==> ((forall|t: (VarId, VarId, i64)| #[trigger]
                self.added().contains(t) ==> triple_satisfied_by(t, m)) <==> {
                &&& forall|u: VarId, v: VarId, c: i64|
                    #![trigger least_of(self.undetermined().bounds_at(u, v), c)]
                    least_of(self.undetermined().bounds_at(u, v), c) ==> (m.contains_key(u)
                        && m.contains_key(v) ==> m[v] - m[u] <= c)
                &&& forall|e: Constraint| #[trigger]
                    self.feasible().has_constraint(e) ==> e.satisfied_by(m)
            }),
    {
        let fs = self.feasible();
        let und = self.undetermined();
        let inf = self.infeasible();
        let all_added = forall|t: (VarId, VarId, i64)| #[trigger]
            self.added().contains(t) ==> triple_satisfied_by(t, m);
        let least_ok = forall|u: VarId, v: VarId, c: i64|
            #![trigger least_of(und.bounds_at(u, v), c)]
            least_of(und.bounds_at(u, v), c) ==> (m.contains_key(u) && m.contains_key(v) ==> m[v]
                - m[u] <= c);
        let fs_ok = forall|e: Constraint| #[trigger] fs.has_constraint(e) ==> e.satisfied_by(m);
        if self.status_of() != Status::Infeasible {
            inf.lemma_wf();
            und.lemma_wf();
            assert(all_added ==> least_ok && fs_ok) by {
                if all_added {
                    assert forall|u: VarId, v: VarId, c: i64|
                        #![trigger least_of(und.bounds_at(u, v), c)]
                        least_of(und.bounds_at(u, v), c) && m.contains_key(u) && m.contains_key(v)
                        implies m[v] - m[u] <= c by {
                        assert(self.added().contains((u, v, c)));
                    }
                    assert forall|e: Constraint| #[trigger] fs.has_constraint(e) implies e.satisfied_by(m) by {
                        assert(self.added().contains((e.u, e.v, e.c)));
                    }
                }
            }
            assert(least_ok && fs_ok ==> all_added) by {
                if least_ok && fs_ok {
                    assert forall|t: (VarId, VarId, i64)| #[trigger] self.added().contains(t) implies triple_satisfied_by(t, m) by {
                        if und.bounds_at(t.0, t.1).contains_key(t.2) {
                            und.lemma_least_exists(t.0, t.1);
                            let c = choose|c: i64| least_of(und.bounds_at(t.0, t.1), c);
                            assert(least_of(und.bounds_at(t.0, t.1), c));
                        } else if inf.bounds_at(t.0, t.1).contains_key(t.2) {
                            assert(inf.pair_priorities().contains_key((t.0, t.1)));
                        } else {
                            let e = choose|e: Constraint|
                                fs.has_constraint(e) && e.u == t.0 && e.v == t.1 && e.c <= t.2;
                            assert(e.satisfied_by(m));
                        }
                    }
                }
            }
        }
    }

    /// Takes the constraint in; it waits until the next `solve`.
    pub fn add_constraint(&mut self, constraint: Constraint)
        requires
            old(self).wf(),
            old(self).undetermined().bounds_at(constraint.u, constraint.v).contains_key(
                constraint.c,
            ) ==> old(self).undetermined().bounds_at(constraint.u, constraint.v)[constraint.c]
                < usize::MAX,
        ensures
            final(self).wf(),
            final(self).added() == old(self).added().insert(
                (constraint.u, constraint.v, constraint.c),
            ),
            final(self).feasible() == old(self).feasible(),
            final(self).infeasible() == old(self).infeasible(),
            final(self).undetermined().bounds_at(constraint.u, constraint.v) == old(self).undetermined().bounds_at(
                constraint.u,
                constraint.v,
            ).insert(
                constraint.c,
                if old(self).undetermined().bounds_at(constraint.u, constraint.v).contains_key(
                    constraint.c,
                ) {
                    (old(self).undetermined().bounds_at(constraint.u, constraint.v)[constraint.c]
                        + 1) as usize
                } else {
                    1
                },
            ),
            forall|u: VarId, v: VarId|
                (u, v) != (constraint.u, constraint.v) ==> #[trigger] final(self).undetermined().bounds_at(u, v)
                    == old(self).undetermined().bounds_at(u, v),
            forall|u: VarId, v: VarId|
                (u, v) != (constraint.u, constraint.v) ==> #[trigger] final(self).undetermined().bound_priorities_at(u, v)
                    == old(self).undetermined().bound_priorities_at(u, v),
            final(self).undetermined().pair_priorities() == (if !old(self).undetermined().pair_priorities().contains_key(
                (constraint.u, constraint.v),
            ) || old(self).undetermined().pair_priorities()[(constraint.u, constraint.v)]
                < constraint.priority {
                old(self).undetermined().pair_priorities().insert(
                    (constraint.u, constraint.v),
                    constraint.priority,
                )
            } else {
                old(self).undetermined().pair_priorities()
            }),
            final(self).undetermined().pair_priorities().contains_key((constraint.u, constraint.v)),
            final(self).undetermined().bound_priorities_at(constraint.u, constraint.v) == old(
                self,
            ).undetermined().bound_priorities_at(constraint.u, constraint.v).insert(
                constraint.c,
                constraint.priority,
            ),
            final(self).status_of() == (if old(self).status_of() == Status::Infeasible {
                Status::Infeasible
            } else {
                Status::Undetermined
            }),
    {
        self.undetermined_constraints.push(constraint);
        proof {
            self.added@ = self.added@.insert((constraint.u, constraint.v, constraint.c));
            self.undetermined_constraints.lemma_wf();
            let und = self.undetermined_constraints;
            let old_und = old(self).undetermined_constraints;
            assert(und.pair_priorities().contains_key((constraint.u, constraint.v)));
            assert forall|u: VarId, v: VarId|
                (u, v) != (constraint.u, constraint.v) implies #[trigger] und.bound_priorities_at(u, v)
                    == old_und.bound_priorities_at(u, v) by {
                assert(und.bounds_at(u, v) == old_und.bounds_at(u, v));
            }
            assert forall|u: VarId, v: VarId, c: i64| #[trigger]
                und.bounds_at(u, v).contains_key(c) implies self.added@.contains((u, v, c)) by {
                if (u, v) != (constraint.u, constraint.v) {
                    assert(und.bounds_at(u, v) == old_und.bounds_at(u, v));
                } else if c != constraint.c {
                    assert(old_und.bounds_at(u, v).contains_key(c));
                }
            }
            let fs = self.feasible_subsystem;
            let inf = self.infeasible_constraints;
            assert forall|t: (VarId, VarId, i64)| #[trigger] self.added@.contains(t) implies {
                ||| und.bounds_at(t.0, t.1).contains_key(t.2)
                ||| inf.bounds_at(t.0, t.1).contains_key(t.2)
                ||| exists|e: Constraint|
                    #![trigger fs.has_constraint(e)]
                    fs.has_constraint(e) && e.u == t.0 && e.v == t.1 && e.c <= t.2
            } by {
                if t != (constraint.u, constraint.v, constraint.c) {
                    assert(old(self).added@.contains(t));
                    if old_und.bounds_at(t.0, t.1).contains_key(t.2) {
                        if (t.0, t.1) != (constraint.u, constraint.v) {
                            assert(und.bounds_at(t.0, t.1) == old_und.bounds_at(t.0, t.1));
                        }
                    }
                }
            }
        }
    }


    /// After a pair was taken out and its least bound added to the feasible
    /// part, the system is well-formed again.
    proof fn lemma_accepted(&self, before: Self, m: MultiConstraint, con: Constraint)
        requires
            before.wf(),
            m.c.wf(),
            m.c.bounds() == before.undetermined_constraints.bounds_at(m.u, m.v),
            !m.c.bounds().dom().is_empty(),
            m.c.is_least_bound(con.c),
            con.u == m.u,
            con.v == m.v,
            self.undetermined_constraints.wf(),
            self.undetermined_constraints.bounds_at(m.u, m.v).dom().is_empty(),
            forall|u: VarId, v: VarId|
                (u, v) != (m.u, m.v) ==> #[trigger] self.undetermined_constraints.bounds_at(u, v)
                    == before.undetermined_constraints.bounds_at(u, v),
            self.infeasible_constraints == before.infeasible_constraints,
            before.infeasible_constraints.pair_priorities().dom().is_empty(),
            self.feasible_subsystem.wf(),
            self.feasible_subsystem.constraint_set() == before.feasible_subsystem.constraint_set().insert(
                con,
            ),
            self.feasible_subsystem.values().dom() == before.feasible_subsystem.values().dom().insert(
                con.u,
            ).insert(con.v),
            self.added@ == before.added@,
        ensures
            self.wf(),
    {
        FeasibleSystem::lemma_values_of_constraints_added(
            before.feasible_subsystem,
            self.feasible_subsystem,
            con,
        );
        let fs = self.feasible_subsystem;
        let inf = self.infeasible_constraints;
        let und = self.undetermined_constraints;
        let old_und = before.undetermined_constraints;
        assert forall|u: VarId, v: VarId, c: i64| #[trigger]
            und.bounds_at(u, v).contains_key(c) implies self.added@.contains((u, v, c)) by {
            if (u, v) == (m.u, m.v) {
                assert(und.bounds_at(u, v).dom().contains(c));
            } else {
                assert(old_und.bounds_at(u, v).contains_key(c));
            }
        }
        assert forall|e: Constraint| #[trigger] fs.has_constraint(e) implies self.added@.contains(
            (e.u, e.v, e.c),
        ) by {
            if e == con {
                assert(old_und.bounds_at(m.u, m.v).contains_key(con.c));
            } else {
                assert(before.feasible_subsystem.has_constraint(e));
            }
        }
        assert forall|t: (VarId, VarId, i64)| #[trigger] self.added@.contains(t) implies {
            ||| und.bounds_at(t.0, t.1).contains_key(t.2)
            ||| inf.bounds_at(t.0, t.1).contains_key(t.2)
            ||| exists|e: Constraint|
                #![trigger fs.has_constraint(e)]
                fs.has_constraint(e) && e.u == t.0 && e.v == t.1 && e.c <= t.2
        } by {
            assert(before.added@.contains(t));
            if old_und.bounds_at(t.0, t.1).contains_key(t.2) {
                if (t.0, t.1) == (m.u, m.v) {
                    assert(m.c.bounds().contains_key(t.2));
                    assert(con.c <= t.2);
                    assert(fs.has_constraint(con));
                } else {
                    assert(und.bounds_at(t.0, t.1) == old_und.bounds_at(t.0, t.1));
                }
            } else if inf.bounds_at(t.0, t.1).contains_key(t.2) {
            } else {
                let e = choose|e: Constraint|
                    before.feasible_subsystem.has_constraint(e) && e.u == t.0 && e.v == t.1 && e.c <= t.2;
                assert(fs.has_constraint(e));
            }
        }
    }

    /// After a pair was taken out and its least bound refused by the
    /// feasible part, and the pair was filed as infeasible, the system is
    /// well-formed again.
    proof fn lemma_refused(&self, before: Self, m: MultiConstraint, con: Constraint)
        requires
            before.wf(),
            m.c.wf(),
            m.c.bounds() == before.undetermined_constraints.bounds_at(m.u, m.v),
            !m.c.bounds().dom().is_empty(),
            m.c.is_least_bound(con.c),
            con.u == m.u,
            con.v == m.v,
            self.undetermined_constraints.wf(),
            self.undetermined_constraints.bounds_at(m.u, m.v).dom().is_empty(),
            forall|u: VarId, v: VarId|
                (u, v) != (m.u, m.v) ==> #[trigger] self.undetermined_constraints.bounds_at(u, v)
                    == before.undetermined_constraints.bounds_at(u, v),
            before.infeasible_constraints.pair_priorities().dom().is_empty(),
            self.infeasible_constraints.wf(),
            self.infeasible_constraints.bounds_at(m.u, m.v).dom() == before.infeasible_constraints.bounds_at(
                m.u,
                m.v,
            ).dom().union(m.c.bounds().dom()),
            forall|u: VarId, v: VarId|
                (u, v) != (m.u, m.v) ==> #[trigger] self.infeasible_constraints.bounds_at(u, v)
                    == before.infeasible_constraints.bounds_at(u, v),
            self.feasible_subsystem.wf(),
            forall|e: Constraint| #[trigger]
                self.feasible_subsystem.has_constraint(e) <==> before.feasible_subsystem.has_constraint(e),
            self.feasible_subsystem.constraint_set() == before.feasible_subsystem.constraint_set(),
            self.feasible_subsystem.values() == before.feasible_subsystem.values(),
            before.feasible_subsystem.closes_negative_cycle(con),
            self.added@ == before.added@,
        ensures
            self.wf(),
    {
        FeasibleSystem::lemma_values_of_constraints_kept(before.feasible_subsystem, self.feasible_subsystem);
        let fs = self.feasible_subsystem;
        let inf = self.infeasible_constraints;
        let und = self.undetermined_constraints;
        let old_und = before.undetermined_constraints;
        let old_inf = before.infeasible_constraints;
        old_inf.lemma_wf();
        assert forall|u: VarId, v: VarId| #[trigger] old_inf.bounds_at(u, v).dom().is_empty() by {
            assert(!old_inf.pair_priorities().contains_key((u, v)));
        }
        assert forall|u: VarId, v: VarId, c: i64| #[trigger]
            und.bounds_at(u, v).contains_key(c) implies self.added@.contains((u, v, c)) by {
            if (u, v) == (m.u, m.v) {
                assert(und.bounds_at(u, v).dom().contains(c));
            } else {
                assert(old_und.bounds_at(u, v).contains_key(c));
            }
        }
        assert forall|u: VarId, v: VarId, c: i64| #[trigger]
            inf.bounds_at(u, v).contains_key(c) implies self.added@.contains((u, v, c)) by {
            if (u, v) == (m.u, m.v) {
                assert(inf.bounds_at(u, v).dom().contains(c));
                assert(old_inf.bounds_at(u, v).dom().is_empty());
                assert(!old_inf.bounds_at(u, v).dom().contains(c));
                assert(m.c.bounds().contains_key(c));
                assert(old_und.bounds_at(u, v).contains_key(c));
            } else {
                assert(old_inf.bounds_at(u, v).dom().contains(c));
            }
        }
        assert forall|e: Constraint| #[trigger] fs.has_constraint(e) implies self.added@.contains(
            (e.u, e.v, e.c),
        ) by {
            assert(before.feasible_subsystem.has_constraint(e));
        }
        assert forall|t: (VarId, VarId, i64)| #[trigger] self.added@.contains(t) implies {
            ||| und.bounds_at(t.0, t.1).contains_key(t.2)
            ||| inf.bounds_at(t.0, t.1).contains_key(t.2)
            ||| exists|e: Constraint|
                #![trigger fs.has_constraint(e)]
                fs.has_constraint(e) && e.u == t.0 && e.v == t.1 && e.c <= t.2
        } by {
            assert(before.added@.contains(t));
            if old_und.bounds_at(t.0, t.1).contains_key(t.2) {
                if (t.0, t.1) == (m.u, m.v) {
                    assert(m.c.bounds().contains_key(t.2));
                    assert(inf.bounds_at(t.0, t.1).dom().contains(t.2));
                } else {
                    assert(und.bounds_at(t.0, t.1) == old_und.bounds_at(t.0, t.1));
                }
            } else if old_inf.bounds_at(t.0, t.1).contains_key(t.2) {
                assert(old_inf.bounds_at(t.0, t.1).dom().contains(t.2));
            } else {
                let e = choose|e: Constraint|
                    before.feasible_subsystem.has_constraint(e) && e.u == t.0 && e.v == t.1 && e.c <= t.2;
                assert(fs.has_constraint(e));
            }
        }
        FeasibleSystem::lemma_same_paths_pub(before.feasible_subsystem, fs);
        let key = Constraint { v: m.v, u: m.u, c: con.c, priority: 0 };
        assert(fs.closes_negative_cycle(key)) by {
            let p = choose|p: Seq<Constraint>|
                before.feasible_subsystem.is_path(p, con.v, con.u) && path_weight(p) + con.c < 0;
            assert(fs.is_path(p, key.v, key.u));
        }
        assert(least_of(inf.bounds_at(m.u, m.v), con.c)) by {
            assert forall|d: i64| #[trigger] inf.bounds_at(m.u, m.v).contains_key(d) implies con.c
                <= d by {
                assert(inf.bounds_at(m.u, m.v).dom().contains(d));
                assert(old_inf.bounds_at(m.u, m.v).dom().is_empty());
                assert(!old_inf.bounds_at(m.u, m.v).dom().contains(d));
                assert(m.c.bounds().contains_key(d));
            }
            assert(inf.bounds_at(m.u, m.v).dom().contains(con.c));
        }
    }

    /// After a pair was taken out and put back to wait, the system is
    /// well-formed again.
    proof fn lemma_put_back(&self, before: Self, m: MultiConstraint, con: Constraint)
        requires
            before.wf(),
            m.c.wf(),
            m.c.bounds() == before.undetermined_constraints.bounds_at(m.u, m.v),
            !m.c.bounds().dom().is_empty(),
            self.undetermined_constraints.wf(),
            self.undetermined_constraints.bounds_at(m.u, m.v).dom() == m.c.bounds().dom(),
            forall|u: VarId, v: VarId|
                (u, v) != (m.u, m.v) ==> #[trigger] self.undetermined_constraints.bounds_at(u, v)
                    == before.undetermined_constraints.bounds_at(u, v),
            self.infeasible_constraints == before.infeasible_constraints,
            self.feasible_subsystem.wf(),
            self.feasible_subsystem.constraint_set() == before.feasible_subsystem.constraint_set(),
            self.feasible_subsystem.values() == before.feasible_subsystem.values(),
            self.added@ == before.added@,
        ensures
            self.wf(),
    {
        FeasibleSystem::lemma_same_paths_pub(before.feasible_subsystem, self.feasible_subsystem);
        FeasibleSystem::lemma_values_of_constraints_kept(before.feasible_subsystem, self.feasible_subsystem);
        let fs = self.feasible_subsystem;
        let b_fs = before.feasible_subsystem;
        assert forall|e: Constraint| #[trigger] fs.has_constraint(e) implies self.added@.contains(
            (e.u, e.v, e.c),
        ) by {
            assert(b_fs.has_constraint(e));
        }
        let inf = self.infeasible_constraints;
        if !inf.pair_priorities().dom().is_empty() {
            let (u, v, c) = choose|u: VarId, v: VarId, c: i64|
                #![trigger least_of(inf.bounds_at(u, v), c)]
                least_of(inf.bounds_at(u, v), c) && b_fs.closes_negative_cycle(
                    (Constraint { v, u, c, priority: 0 }),
                );
            let key = Constraint { v, u, c, priority: 0 };
            let p = choose|p: Seq<Constraint>| b_fs.is_path(p, key.v, key.u) && path_weight(p) + key.c < 0;
            assert(fs.is_path(p, key.v, key.u));
            assert(fs.closes_negative_cycle(key));
        }
        let und = self.undetermined_constraints;
        let old_und = before.undetermined_constraints;
        assert forall|u: VarId, v: VarId, c: i64| #[trigger]
            und.bounds_at(u, v).contains_key(c) implies self.added@.contains((u, v, c)) by {
            if (u, v) == (m.u, m.v) {
                assert(und.bounds_at(u, v).dom().contains(c));
                assert(old_und.bounds_at(u, v).contains_key(c));
            } else {
                assert(old_und.bounds_at(u, v).contains_key(c));
            }
        }
        assert forall|t: (VarId, VarId, i64)| #[trigger] self.added@.contains(t) implies {
            ||| und.bounds_at(t.0, t.1).contains_key(t.2)
            ||| self.infeasible_constraints.bounds_at(t.0, t.1).contains_key(t.2)
            ||| exists|e: Constraint|
                #![trigger self.feasible_subsystem.has_constraint(e)]
                self.feasible_subsystem.has_constraint(e) && e.u == t.0 && e.v == t.1 && e.c <= t.2
        } by {
            assert(before.added@.contains(t));
            if old_und.bounds_at(t.0, t.1).contains_key(t.2) {
                if (t.0, t.1) == (m.u, m.v) {
                    assert(und.bounds_at(t.0, t.1).dom().contains(t.2));
                } else {
                    assert(und.bounds_at(t.0, t.1) == old_und.bounds_at(t.0, t.1));
                }
            } else if !before.infeasible_constraints.bounds_at(t.0, t.1).contains_key(t.2) {
                let e = choose|e: Constraint|
                    before.feasible_subsystem.has_constraint(e) && e.u == t.0 && e.v == t.1 && e.c <= t.2;
                assert(self.feasible_subsystem.has_constraint(e));
            }
        }
    }


    /// Taking out a pair of greatest priority keeps the pairs taken out so
    /// far ahead, in priority, of those still waiting.
    proof fn lemma_taken_in_order(
        old_und: PrioritizedMulticConstraints,
        b_und: PrioritizedMulticConstraints,
        und: PrioritizedMulticConstraints,
        mu: VarId,
        mv: VarId,
    )
        requires
            b_und.wf(),
            forall|u: VarId, v: VarId| #[trigger]
                b_und.bounds_at(u, v).dom().is_empty() || (b_und.bounds_at(u, v)
                    == old_und.bounds_at(u, v) && b_und.pair_priorities()[(u, v)]
                    == old_und.pair_priorities()[(u, v)]),
            forall|u1: VarId, v1: VarId, u2: VarId, v2: VarId|
                #![trigger taken_out(old_und, b_und, u1, v1), b_und.bounds_at(u2, v2)]
                taken_out(old_und, b_und, u1, v1) && !b_und.bounds_at(u2, v2).dom().is_empty()
                    ==> old_und.pair_priorities()[(u1, v1)] >= old_und.pair_priorities()[(u2, v2)],
            !b_und.bounds_at(mu, mv).dom().is_empty(),
            forall|p: (VarId, VarId)| #[trigger]
                b_und.pair_priorities().contains_key(p) ==> b_und.pair_priorities()[p]
                    <= b_und.pair_priorities()[(mu, mv)],
            und.bounds_at(mu, mv).dom().is_empty(),
            forall|u: VarId, v: VarId|
                (u, v) != (mu, mv) ==> #[trigger] und.bounds_at(u, v) == b_und.bounds_at(u, v),
        ensures
            forall|u1: VarId, v1: VarId, u2: VarId, v2: VarId|
                #![trigger taken_out(old_und, und, u1, v1), und.bounds_at(u2, v2)]
                taken_out(old_und, und, u1, v1) && !und.bounds_at(u2, v2).dom().is_empty()
                    ==> old_und.pair_priorities()[(u1, v1)] >= old_und.pair_priorities()[(u2, v2)],
    {
        b_und.lemma_wf();
        assert forall|u1: VarId, v1: VarId, u2: VarId, v2: VarId|
            taken_out(old_und, und, u1, v1) && !und.bounds_at(u2, v2).dom().is_empty() implies
            old_und.pair_priorities()[(u1, v1)] >= old_und.pair_priorities()[(u2, v2)] by {
            assert((u2, v2) != (mu, mv));
            assert(und.bounds_at(u2, v2) == b_und.bounds_at(u2, v2));
            assert(b_und.pair_priorities().contains_key((u2, v2)));
            if (u1, v1) == (mu, mv) {
                assert(b_und.bounds_at(mu, mv) == old_und.bounds_at(mu, mv));
            } else {
                assert(und.bounds_at(u1, v1) == b_und.bounds_at(u1, v1));
                assert(taken_out(old_und, b_und, u1, v1));
                assert(!b_und.bounds_at(u2, v2).dom().is_empty());
            }
        }
    }

    /// The assignment of the feasible part gives values exactly to the
    /// variables of its constraints.
    pub proof fn lemma_assigned_are_constrained(&self)
        requires
            self.wf(),
        ensures
            forall|x: VarId| #[trigger]
                self.feasible().values().contains_key(x) <==> exists|e: Constraint|
                    #![trigger self.feasible().has_constraint(e)]
                    self.feasible().has_constraint(e) && (e.u == x || e.v == x),
    {
        self.feasible_subsystem.lemma_values_of_constraints();
    }

    /// Every waiting bound is that of a constraint taken in.
    pub proof fn lemma_waiting_were_added(&self)
        requires
            self.wf(),
        ensures
            forall|u: VarId, v: VarId, c: i64| #[trigger]
                self.undetermined().bounds_at(u, v).contains_key(c) ==> self.added().contains((u, v, c)),
    {
    }

    /// When the system is feasible, the assignment of the feasible part
    /// satisfies every constraint taken in.
    pub proof fn lemma_feasible_solution_satisfies_all(&self)
        requires
            self.wf(),
            self.status_of() == Status::Feasible,
        ensures
            forall|t: (VarId, VarId, i64)| #[trigger]
                self.added().contains(t) ==> triple_holds(t, self.feasible().values()),
    {
        let fs = self.feasible_subsystem;
        self.undetermined_constraints.lemma_wf();
        self.infeasible_constraints.lemma_wf();
        assert forall|t: (VarId, VarId, i64)| #[trigger]
            self.added().contains(t) implies triple_holds(t, self.feasible().values()) by {
            assert(!self.undetermined_constraints.pair_priorities().contains_key((t.0, t.1)));
            assert(!self.infeasible_constraints.pair_priorities().contains_key((t.0, t.1)));
            assert(self.undetermined_constraints.bounds_at(t.0, t.1).dom().is_empty());
            assert(!self.undetermined_constraints.bounds_at(t.0, t.1).dom().contains(t.2));
            assert(self.infeasible_constraints.bounds_at(t.0, t.1).dom().is_empty());
            assert(!self.infeasible_constraints.bounds_at(t.0, t.1).dom().contains(t.2));
            let e = choose|e: Constraint|
                fs.has_constraint(e) && e.u == t.0 && e.v == t.1 && e.c <= t.2;
            fs.lemma_values_satisfy();
            assert(e.holds_under(fs.values()));
        }
    }

    /// When the system is infeasible, no assignment satisfies all the
    /// constraints taken in.
    pub proof fn lemma_infeasible_has_no_solution(&self, m: Map<VarId, i64>)
        requires
            self.wf(),
            self.status_of() == Status::Infeasible,
        ensures
            !(forall|t: (VarId, VarId, i64)| #[trigger]
                self.added().contains(t) ==> triple_holds(t, m)),
    {
        let fs = self.feasible_subsystem;
        let inf = self.infeasible_constraints;
        let (u, v, c) = choose|u: VarId, v: VarId, c: i64|
            least_of(inf.bounds_at(u, v), c) && fs.closes_negative_cycle(
                (Constraint { v, u, c, priority: 0 }),
            );
        let refused = Constraint { v, u, c, priority: 0 };
        if forall|t: (VarId, VarId, i64)| #[trigger] self.added().contains(t) ==> triple_holds(t, m) {
            assert(fs.all_hold_under(m)) by {
                assert forall|e: Constraint| #[trigger] fs.has_constraint(e) implies e.holds_under(m) by {
                    assert(self.added().contains((e.u, e.v, e.c)));
                }
            }
            assert(self.added().contains((u, v, c)));
            assert(refused.holds_under(m));
            fs.lemma_negative_cycle_unsatisfiable(refused, m);
        }
    }


    /// A system that has taken in the constraints of the list, none of them
    /// added yet.
    pub fn from_iter(constraints: Vec<Constraint>) -> (r: Self)
        ensures
            r.wf(),
            r.feasible().values() == Map::<VarId, i64>::empty(),
            r.undetermined().pair_priorities() == pair_priorities_of(constraints@),
            forall|u: VarId, v: VarId| #[trigger] r.undetermined().bound_priorities_at(u, v) == bound_priorities_of(constraints@, u, v),
            r.feasible().constraint_set() == Set::<Constraint>::empty(),
            r.infeasible().pair_priorities().dom().is_empty(),
            r.added() == Set::new(
                |t: (VarId, VarId, i64)|
                    exists|i: int|
                        0 <= i < constraints@.len() && t == (
                            constraints@[i].u,
                            constraints@[i].v,
                            constraints@[i].c,
                        ),
            ),
    {
        let mut system = DCS::new();
        let mut i: usize = 0;
        while i < constraints.len()
            invariant
                0 <= i <= constraints@.len(),
                system.wf(),
                system.feasible().constraint_set() == Set::<Constraint>::empty(),
                system.feasible().values() == Map::<VarId, i64>::empty(),
                system.infeasible().pair_priorities().dom().is_empty(),
                system.added() == Set::new(
                    |t: (VarId, VarId, i64)|
                        exists|k: int|
                            0 <= k < i && t == (constraints@[k].u, constraints@[k].v, constraints@[k].c),
                ),
                forall|u: VarId, v: VarId, c: i64| #[trigger]
                    system.undetermined().bounds_at(u, v).contains_key(c) ==> system.undetermined().bounds_at(
                        u,
                        v,
                    )[c] <= i,
                system.undetermined().pair_priorities() == pair_priorities_of(constraints@.take(i as int)),
                forall|u: VarId, v: VarId| #[trigger] system.undetermined().bound_priorities_at(u, v)
                    == bound_priorities_of(constraints@.take(i as int), u, v),
            decreases constraints@.len() - i,
        {
            let con = constraints[i];
            let ghost before = system;
            system.add_constraint(con);
            proof {
                let taken = constraints@.take(i + 1);
                assert(taken.drop_last() =~= constraints@.take(i as int));
                assert(taken.last() == con);
                assert forall|u: VarId, v: VarId| #[trigger] system.undetermined().bound_priorities_at(u, v)
                    == bound_priorities_of(taken, u, v) by {
                    if (u, v) != (con.u, con.v) {
                        assert(system.undetermined().bound_priorities_at(u, v) == before.undetermined().bound_priorities_at(u, v));
                    }
                }
                assert(system.added() =~= Set::new(
                    |t: (VarId, VarId, i64)|
                        exists|k: int|
                            0 <= k < i + 1 && t == (constraints@[k].u, constraints@[k].v, constraints@[k].c),
                )) by {
                    assert forall|t: (VarId, VarId, i64)| system.added().contains(t) implies exists|k: int|
                        0 <= k < i + 1 && t == (constraints@[k].u, constraints@[k].v, constraints@[k].c) by {
                        if t == (con.u, con.v, con.c) {
                            assert(constraints@[i as int] == con);
                        }
                    }
                }
                assert forall|u: VarId, v: VarId, c: i64| #[trigger]
                    system.undetermined().bounds_at(u, v).contains_key(c) implies system.undetermined().bounds_at(
                        u,
                        v,
                    )[c] <= i + 1 by {
                    if (u, v) != (con.u, con.v) {
                        assert(system.undetermined().bounds_at(u, v) == before.undetermined().bounds_at(u, v));
                    } else if c != con.c {
                        assert(before.undetermined().bounds_at(u, v).contains_key(c));
                    }
                }
            }
            i = i + 1;
        }
        proof {
            assert(constraints@.take(constraints@.len() as int) =~= constraints@);
            assert(system.added() =~= Set::new(
                |t: (VarId, VarId, i64)|
                    exists|i: int|
                        0 <= i < constraints@.len() && t == (
                            constraints@[i].u,
                            constraints@[i].v,
                            constraints@[i].c,
                        ),
            ));
        }
        system
    }

    /// `solve` needs no value outside `i64`: the feasible part's values lie
    /// within `[-b, b]`, its bounds and the waiting ones within `[-m, m]`,
    /// and the bound after as many additions as there are waiting pairs
    /// (see `value_bound`) fits `i64`.
    pub open spec fn solve_fits(&self, b: int, m: int) -> bool {
        &&& 0 <= b
        &&& 0 <= m
        &&& self.feasible().values_within(b)
        &&& self.feasible().bounds_within(m)
        &&& forall|u: VarId, v: VarId, c: i64| #[trigger]
            self.undetermined().bounds_at(u, v).contains_key(c) ==> -m <= c <= m
        &&& value_bound(
            b,
            m,
            self.feasible().values().dom().len() as int,
            self.undetermined().pair_priorities().dom().len(),
        ) <= i64::MAX
    }

    /// Values within the bound after `k` additions are within the bound
    /// after `pairs` of them, for `k <= pairs`.
    proof fn lemma_within_later(s: DCS, fs: FeasibleSystem, k: nat, pairs: nat)
        requires
            k <= pairs,
            forall|b: int, m: int| #[trigger] s.solve_fits(b, m) ==> fs.values_within(
                value_bound(b, m, s.feasible().values().dom().len() as int, k),
            ),
        ensures
            forall|b: int, m: int| #[trigger] s.solve_fits(b, m) ==> fs.values_within(
                value_bound(b, m, s.feasible().values().dom().len() as int, pairs),
            ),
    {
        assert forall|b: int, m: int| #[trigger] s.solve_fits(b, m) implies fs.values_within(
            value_bound(b, m, s.feasible().values().dom().len() as int, pairs),
        ) by {
            lemma_value_bound_grows(b, m, s.feasible().values().dom().len() as int, k, pairs);
        }
    }

    /// A waiting constraint of `s` fits the feasible part `fs` when `fs`
    /// holds values within the bound after `k` of the waiting pairs were
    /// added, with at most two more variables with values for each, and `k`
    /// is below their number; the part that adding it leaves has values
    /// within the bound after `k + 1` additions.
    proof fn lemma_within_step(s: DCS, fs: FeasibleSystem, con: Constraint, k: nat, after: FeasibleSystem)
        requires
            fs.wf(),
            k < s.undetermined().pair_priorities().dom().len(),
            s.undetermined().bounds_at(con.u, con.v).contains_key(con.c),
            fs.values().dom().len() <= s.feasible().values().dom().len() + 2 * k,
            forall|b: int, m: int| #[trigger] s.solve_fits(b, m) ==> fs.values_within(
                value_bound(b, m, s.feasible().values().dom().len() as int, k),
            ) && fs.bounds_within(m),
        ensures
            forall|b: int, m: int| #[trigger] s.solve_fits(b, m) ==> fs.add_fits(con),
            (after.values() == with_missing_vars(fs.values(), con) || (exists|diff: Map<VarId, i64>|
                fs.repairs(con, diff) && after.values() == fs.repaired(diff)))
                && after.constraint_set() == fs.constraint_set().insert(con)
                ==> forall|b: int, m: int| #[trigger] s.solve_fits(b, m) ==> after.values_within(
                value_bound(b, m, s.feasible().values().dom().len() as int, k + 1),
            ) && after.bounds_within(m),
    {
        let n0 = s.feasible().values().dom().len() as int;
        let n = fs.values().dom().len() as int;
        let pairs = s.undetermined().pair_priorities().dom().len();
        assert forall|b: int, m: int| #[trigger] s.solve_fits(b, m) implies fs.add_fits(con)
            && ((after.values() == with_missing_vars(fs.values(), con) || (exists|diff: Map<VarId, i64>|
                fs.repairs(con, diff) && after.values() == fs.repaired(diff)))
                && after.constraint_set() == fs.constraint_set().insert(con)
                ==> after.values_within(value_bound(b, m, n0, k + 1)) && after.bounds_within(m)) by {
            let big = value_bound(b, m, n0, k);
            let kk = k as int;
            lemma_value_bound_grows(b, m, n0, k + 1, pairs);
            lemma_value_bound_grows(b, m, n0, k, pairs);
            assert(value_bound(b, m, n0, k + 1) == big + m * (n0 + 2 * kk + 1));
            assert(m * (n + 1) <= m * (n0 + 2 * kk + 1)) by (nonlinear_arith)
                requires
                    0 <= m,
                    n <= n0 + 2 * kk,
            ;
            fs.lemma_add_fits_within(con, big, m);
            if (after.values() == with_missing_vars(fs.values(), con) || (exists|diff: Map<VarId, i64>|
                fs.repairs(con, diff) && after.values() == fs.repaired(diff)))
                && after.constraint_set() == fs.constraint_set().insert(con) {
                fs.lemma_added_within(con, big, m, after.values());
                assert forall|e: Constraint| #[trigger] after.has_constraint(e) implies -m <= e.c <= m by {
                    if e != con {
                        assert(fs.has_constraint(e));
                    }
                }
            }
        }
    }

    /// Adds the waiting constraints to the feasible part, a pair of
    /// variables at a time in the order of priority, each pair through its
    /// constraint with the least bound (which implies the others), until one
    /// cannot be added: that pair is then found infeasible. An infeasible
    /// system is left as it is. At a pair whose constraint could only be
    /// added with a value outside `i64`, the pair waits again, under the
    /// priority it had, and `solve` stops with the system undetermined. That
    /// cannot happen when `solve_fits(b, m)` holds for some `b` and `m`: the
    /// system then ends feasible or infeasible, with the values of the
    /// feasible part within the bound of `value_bound`. Starting from a
    /// system that is not infeasible, the feasible part gains exactly, for each
    /// pair that no longer waits and was not found infeasible, the
    /// constraint with its least bound and that bound's priority; the pairs
    /// still waiting keep their bounds; and every pair taken out had, when
    /// `solve` began, a priority at least that of every pair still waiting.
    /// In every case the pairs still waiting keep their priorities.
    pub fn solve(&mut self)
        requires
            old(self).wf(),
        ensures
            final(self).wf(),
            final(self).added() == old(self).added(),
            old(self).status_of() == Status::Infeasible ==> final(self).feasible() == old(self).feasible() && final(self).infeasible() == old(self).infeasible() && final(self).undetermined() == old(self).undetermined(),
            final(self).status_of() == Status::Undetermined ==> exists|u: VarId, v: VarId, c: i64|
                #![trigger least_of(final(self).undetermined().bounds_at(u, v), c)]
                least_of(final(self).undetermined().bounds_at(u, v), c)
                    && !final(self).feasible().add_fits((Constraint { v, u, c, priority: 0 })),
            old(self).status_of() != Status::Infeasible ==> {
                &&& final(self).feasible().constraint_set() == old(self).feasible().constraint_set().union(
                    Set::new(
                        |e: Constraint|
                            is_least_waiting(old(self).undetermined(), e)
                                && final(self).undetermined().bounds_at(e.u, e.v).dom().is_empty()
                                && final(self).infeasible().bounds_at(e.u, e.v).dom().is_empty(),
                    ),
                )
                &&& forall|u: VarId, v: VarId| #[trigger]
                    final(self).undetermined().bounds_at(u, v).dom().is_empty()
                        || final(self).undetermined().bounds_at(u, v).dom() == old(self).undetermined().bounds_at(u, v).dom()
                &&& forall|u1: VarId, v1: VarId, u2: VarId, v2: VarId|
                    #![trigger taken_out(old(self).undetermined(), final(self).undetermined(), u1, v1), final(self).undetermined().bounds_at(u2, v2)]
                    taken_out(old(self).undetermined(), final(self).undetermined(), u1, v1)
                        && !final(self).undetermined().bounds_at(u2, v2).dom().is_empty()
                        ==> old(self).undetermined().pair_priorities()[(u1, v1)]
                            >= old(self).undetermined().pair_priorities()[(u2, v2)]
            },
            forall|u: VarId, v: VarId| #[trigger]
                final(self).undetermined().pair_priorities().contains_key((u, v)) ==> final(self).undetermined().pair_priorities()[(u, v)]
                    == old(self).undetermined().pair_priorities()[(u, v)],
            old(self).status_of() != Status::Infeasible ==> forall|u: VarId, v: VarId| #[trigger]
                final(self).infeasible().bounds_at(u, v).dom().is_empty() || {
                    &&& final(self).undetermined().bounds_at(u, v).dom().is_empty()
                    &&& final(self).infeasible().bounds_at(u, v) == old(self).undetermined().bounds_at(u, v)
                    &&& final(self).infeasible().bound_priorities_at(u, v) == old(self).undetermined().bound_priorities_at(u, v)
                    &&& forall|c: i64| #[trigger] least_of(final(self).infeasible().bounds_at(u, v), c)
                        ==> final(self).infeasible().pair_priorities()[(u, v)] == final(self).infeasible().bound_priorities_at(u, v)[c]
                        && final(self).feasible().closes_negative_cycle((Constraint { v, u, c, priority: 0 }))
                },
            forall|b: int, m: int| #[trigger] old(self).solve_fits(b, m) ==> {
                &&& final(self).status_of() != Status::Undetermined
                &&& final(self).feasible().values_within(
                    value_bound(
                        b,
                        m,
                        old(self).feasible().values().dom().len() as int,
                        old(self).undetermined().pair_priorities().dom().len(),
                    ),
                )
            },
    {
        let ghost old_und = self.undetermined_constraints;
        let ghost old_set = self.feasible_subsystem.constraint_set();
        let ghost pairs = old_und.pair_priorities().dom().len();
        let ghost n0 = self.feasible_subsystem.values().dom().len() as int;
        proof {
            old_und.lemma_wf();
            assert forall|b: int, m: int| #[trigger] old(self).solve_fits(b, m) implies self.feasible().values_within(
                value_bound(b, m, n0, 0),
            ) && self.feasible().bounds_within(m) by {}
        }
        while self.infeasible_constraints.is_empty()
            invariant
                self.wf(),
                pairs == old_und.pair_priorities().dom().len(),
                self.undetermined_constraints.pair_priorities().dom().len() <= pairs,
                n0 == old(self).feasible().values().dom().len(),
                self.feasible_subsystem.values().dom().len() <= n0 + 2 * (pairs
                    - self.undetermined_constraints.pair_priorities().dom().len()),
                forall|b: int, m: int| #[trigger] old(self).solve_fits(b, m) ==> self.feasible().values_within(
                    value_bound(b, m, n0, (pairs - self.undetermined_constraints.pair_priorities().dom().len()) as nat),
                ) && self.feasible().bounds_within(m),
                self.added@ == old(self).added@,
                old_und == old(self).undetermined(),
                old_und.wf(),
                old_set == old(self).feasible().constraint_set(),
                self.infeasible() == old(self).infeasible(),
                old(self).status_of() == Status::Infeasible ==> self.feasible() == old(self).feasible() && self.infeasible() == old(self).infeasible()
                    && self.undetermined() == old(self).undetermined(),
                forall|u: VarId, v: VarId| #[trigger]
                    self.undetermined_constraints.bounds_at(u, v).dom().is_empty() || (
                    self.undetermined_constraints.bounds_at(u, v) == old_und.bounds_at(u, v)
                        && self.undetermined_constraints.bound_priorities_at(u, v)
                        == old_und.bound_priorities_at(u, v)
                        && self.undetermined_constraints.pair_priorities()[(u, v)]
                        == old_und.pair_priorities()[(u, v)]),
                forall|u1: VarId, v1: VarId, u2: VarId, v2: VarId|
                    #![trigger taken_out(old_und, self.undetermined_constraints, u1, v1), self.undetermined_constraints.bounds_at(u2, v2)]
                    taken_out(old_und, self.undetermined_constraints, u1, v1)
                        && !self.undetermined_constraints.bounds_at(u2, v2).dom().is_empty()
                        ==> old_und.pair_priorities()[(u1, v1)] >= old_und.pair_priorities()[(u2, v2)],
                old(self).status_of() != Status::Infeasible ==> self.feasible_subsystem.constraint_set()
                    == old_set.union(
                    Set::new(
                        |e: Constraint|
                            is_least_waiting(old_und, e)
                                && self.undetermined_constraints.bounds_at(e.u, e.v).dom().is_empty(),
                    ),
                ),
            decreases self.undetermined_constraints.pair_priorities().dom().len(),
        {
            proof {
                self.undetermined_constraints.lemma_wf();
                self.infeasible_constraints.lemma_wf();
            }
            let ghost before = *self;
            let popped = self.undetermined_constraints.pop_with_priority();
            let (multi, priority): (MultiConstraint, ConstraintPriority) = match popped {
                None => {
                    proof {
                        let und = self.undetermined_constraints;
                        let inf = self.infeasible_constraints;
                        und.lemma_wf();
                        inf.lemma_wf();
                        assert forall|u: VarId, v: VarId| #[trigger] und.bounds_at(u, v).dom().is_empty() by {
                            assert(!und.pair_priorities().contains_key((u, v)));
                        }
                        if old(self).status_of() != Status::Infeasible {
                            assert forall|u: VarId, v: VarId| #[trigger] inf.bounds_at(u, v).dom().is_empty() by {
                                assert(!inf.pair_priorities().contains_key((u, v)));
                            }
                            assert(Set::new(
                                |e: Constraint|
                                    is_least_waiting(old_und, e) && und.bounds_at(e.u, e.v).dom().is_empty()
                                        && inf.bounds_at(e.u, e.v).dom().is_empty(),
                            ) =~= Set::new(
                                |e: Constraint|
                                    is_least_waiting(old_und, e) && und.bounds_at(e.u, e.v).dom().is_empty(),
                            ));
                        }
                        Self::lemma_within_later(
                            *old(self),
                            self.feasible_subsystem,
                            (pairs - und.pair_priorities().dom().len()) as nat,
                            pairs,
                        );
                    }
                    return;
                },
                Some(mp) => mp,
            };
            proof {
                assert(before.undetermined_constraints.pair_priorities().contains_key(
                    (multi.u, multi.v),
                ));
                assert(!multi.c.bounds().dom().is_empty());
                multi.c.lemma_wf();
            }
            let first = multi.to_constraint();
            let con = match first {
                None => {
                    assert(false);
                    return;
                },
                Some(c) => c,
            };
            let ghost n = (pairs - before.undetermined_constraints.pair_priorities().dom().len()) as nat;
            proof {
                assert(multi.c.bounds().contains_key(con.c));
                let b_pairs = before.undetermined_constraints.pair_priorities();
                assert(b_pairs.dom().remove((multi.u, multi.v)) =~= self.undetermined_constraints.pair_priorities().dom());
                assert(self.undetermined_constraints.pair_priorities().dom().len() == b_pairs.dom().len() - 1);
                assert(before.undetermined_constraints.bounds_at(multi.u, multi.v).contains_key(con.c));
                assert(old_und.bounds_at(con.u, con.v).contains_key(con.c));
            }
            let ghost fs_before = self.feasible_subsystem;
            let outcome = if con.u == con.v && con.c < 0 {
                // `x - x <= c` with `c < 0` closes a negative cycle by itself.
                proof {
                    assert(self.feasible_subsystem.is_path(Seq::<Constraint>::empty(), con.v, con.u));
                }
                AddOutcome::Refused
            } else {
                self.feasible_subsystem.try_add_constraint(con)
            };
            proof {
                Self::lemma_within_step(*old(self), fs_before, con, n, self.feasible_subsystem);
            }
            if outcome == AddOutcome::Overflow {
                let ghost mg = multi;
                let ghost mid = self.undetermined_constraints;
                let mu: VarId = multi.u;
                let mv: VarId = multi.v;
                self.undetermined_constraints.add_multi_constraint(multi);
                proof {
                    self.undetermined_constraints.lemma_wf();
                    assert(self.undetermined_constraints.bounds_at(mg.u, mg.v).dom() =~= mg.c.bounds().dom());
                    assert(self.undetermined_constraints.pair_priorities().contains_key((mu, mv)));
                }
                let ghost added_back = self.undetermined_constraints;
                // The pair waits again under the priority it was taken out with.
                self.undetermined_constraints.set_pair_priority(mu, mv, priority);
                proof {
                    assert(forall|u: VarId, v: VarId| #[trigger] self.undetermined_constraints.bounds_at(u, v)
                        == added_back.bounds_at(u, v));
                    assert(self.undetermined_constraints.bounds_at(mg.u, mg.v).dom() =~= mg.c.bounds().dom());
                    self.lemma_put_back(before, mg, con);
                    assert(least_of(self.undetermined().bounds_at(con.u, con.v), con.c)) by {
                        assert forall|d: i64| #[trigger] self.undetermined().bounds_at(con.u, con.v).contains_key(d)
                            implies con.c <= d by {
                            assert(self.undetermined_constraints.bounds_at(mg.u, mg.v).dom().contains(d));
                            assert(mg.c.bounds().contains_key(d));
                        }
                        assert(self.undetermined_constraints.bounds_at(mg.u, mg.v).dom().contains(con.c));
                    }
                    let key = Constraint { v: con.v, u: con.u, c: con.c, priority: 0 };
                    assert(!self.feasible().add_fits(key)) by {
                        assert(!fs_before.add_fits(con));
                        FeasibleSystem::lemma_same_paths_pub(fs_before, self.feasible_subsystem);
                        if fs_before.values().contains_key(con.v) && fs_before.values().contains_key(con.u) {
                            let (x, p) = choose|x: VarId, p: Seq<Constraint>|
                                fs_before.is_path(p, con.v, x) && value_of(fs_before.values(), con.u) + con.c
                                    + path_weight(p) < value_of(fs_before.values(), x) && !(i64::MIN
                                    <= value_of(fs_before.values(), con.u) + con.c + path_weight(p));
                            assert(self.feasible_subsystem.is_path(p, key.v, x));
                        }
                    }
                    self.undetermined_constraints.lemma_wf();
                    assert(self.undetermined_constraints.bounds_at(mg.u, mg.v).dom().contains(con.c));
                    assert(self.undetermined().pair_priorities().contains_key((mg.u, mg.v)));
                    let und = self.undetermined_constraints;
                    let b_und = before.undetermined_constraints;
                    let inf = self.infeasible_constraints;
                    if old(self).status_of() != Status::Infeasible {
                        inf.lemma_wf();
                        assert forall|u: VarId, v: VarId| #[trigger] inf.bounds_at(u, v).dom().is_empty() by {
                            assert(!inf.pair_priorities().contains_key((u, v)));
                        }
                        assert(Set::new(
                            |e: Constraint|
                                is_least_waiting(old_und, e) && und.bounds_at(e.u, e.v).dom().is_empty()
                                    && inf.bounds_at(e.u, e.v).dom().is_empty(),
                        ) =~= Set::new(
                            |e: Constraint|
                                is_least_waiting(old_und, e) && b_und.bounds_at(e.u, e.v).dom().is_empty(),
                        )) by {
                            assert forall|e: Constraint| is_least_waiting(old_und, e) implies #[trigger] und.bounds_at(e.u, e.v).dom().is_empty()
                                == b_und.bounds_at(e.u, e.v).dom().is_empty() by {
                                if (e.u, e.v) != (mg.u, mg.v) {
                                    assert(und.bounds_at(e.u, e.v) == mid.bounds_at(e.u, e.v));
                                }
                            }
                        }
                    }
                    assert forall|u: VarId, v: VarId| #[trigger] und.bounds_at(u, v).dom().is_empty()
                        || und.bounds_at(u, v).dom() == old_und.bounds_at(u, v).dom() by {
                        if (u, v) != (mg.u, mg.v) {
                            assert(und.bounds_at(u, v) == mid.bounds_at(u, v));
                        }
                    }
                    assert forall|u1: VarId, v1: VarId, u2: VarId, v2: VarId|
                        taken_out(old_und, und, u1, v1) && !und.bounds_at(u2, v2).dom().is_empty()
                        implies old_und.pair_priorities()[(u1, v1)] >= old_und.pair_priorities()[(u2, v2)] by {
                        assert((u1, v1) != (mg.u, mg.v));
                        assert(und.bounds_at(u1, v1) == mid.bounds_at(u1, v1));
                        assert(taken_out(old_und, b_und, u1, v1));
                        if (u2, v2) != (mg.u, mg.v) {
                            assert(und.bounds_at(u2, v2) == mid.bounds_at(u2, v2));
                        }
                        assert(!b_und.bounds_at(u2, v2).dom().is_empty());
                    }
                    assert forall|b: int, m: int| #[trigger] old(self).solve_fits(b, m) implies false by {
                        assert(fs_before.add_fits(con));
                    }
                }
                return;
            }
            if outcome == AddOutcome::Refused {
                let ghost mg = multi;
                proof {
                    assert(!self.infeasible_constraints.pair_priorities().contains_key((mg.u, mg.v)));
                    assert(self.infeasible_constraints.bounds_at(mg.u, mg.v).dom().is_empty());
                    assert(!self.infeasible_constraints.bounds_at(mg.u, mg.v).dom().contains(con.c));
                }
                self.infeasible_constraints.add_multi_constraint(multi);
                proof {
                    self.lemma_refused(before, mg, con);
                    self.infeasible_constraints.lemma_wf();
                    assert(self.infeasible_constraints.bounds_at(mg.u, mg.v).dom().contains(con.c));
                    assert(self.infeasible().pair_priorities().contains_key((mg.u, mg.v)));
                    let und = self.undetermined_constraints;
                    let b_und = before.undetermined_constraints;
                    let inf = self.infeasible_constraints;
                    let b_inf = before.infeasible_constraints;
                    Self::lemma_taken_in_order(old_und, b_und, und, mg.u, mg.v);
                    b_inf.lemma_wf();
                    assert(Set::new(
                        |e: Constraint|
                            is_least_waiting(old_und, e) && und.bounds_at(e.u, e.v).dom().is_empty()
                                && inf.bounds_at(e.u, e.v).dom().is_empty(),
                    ) =~= Set::new(
                        |e: Constraint|
                            is_least_waiting(old_und, e) && b_und.bounds_at(e.u, e.v).dom().is_empty(),
                    )) by {
                        assert forall|e: Constraint| is_least_waiting(old_und, e) implies (#[trigger] und.bounds_at(e.u, e.v).dom().is_empty()
                            && inf.bounds_at(e.u, e.v).dom().is_empty())
                            == b_und.bounds_at(e.u, e.v).dom().is_empty() by {
                            if (e.u, e.v) != (mg.u, mg.v) {
                                assert(und.bounds_at(e.u, e.v) == b_und.bounds_at(e.u, e.v));
                                assert(inf.bounds_at(e.u, e.v) == b_inf.bounds_at(e.u, e.v));
                                assert(!b_inf.pair_priorities().contains_key((e.u, e.v)));
                            }
                        }
                    }
                    assert forall|u: VarId, v: VarId| #[trigger] und.bounds_at(u, v).dom().is_empty()
                        || und.bounds_at(u, v).dom() == old_und.bounds_at(u, v).dom() by {
                        if (u, v) != (mg.u, mg.v) {
                            assert(und.bounds_at(u, v) == b_und.bounds_at(u, v));
                        }
                    }
                    assert(self.feasible().values() == fs_before.values());
                    Self::lemma_within_later(*old(self), self.feasible_subsystem, n, pairs);
                    assert(self.status_of() == Status::Infeasible);
                    assert forall|c: i64| #[trigger] least_of(inf.bounds_at(mg.u, mg.v), c)
                        implies self.feasible().closes_negative_cycle((Constraint { v: mg.v, u: mg.u, c, priority: 0 })) by {
                        let u = mg.u;
                        let v = mg.v;
                        assert forall|u2: VarId, v2: VarId| (u2, v2) != (mg.u, mg.v) implies #[trigger] inf.bounds_at(u2, v2).dom().is_empty() by {
                            assert(inf.bounds_at(u2, v2) == b_inf.bounds_at(u2, v2));
                            assert(!b_inf.pair_priorities().contains_key((u2, v2)));
                        }
                        assert(self.wf());
                        assert(!inf.pair_priorities().dom().is_empty());
                        assert(exists|u1: VarId, v1: VarId, c1: i64|
                            #![trigger least_of(inf.bounds_at(u1, v1), c1)]
                            least_of(inf.bounds_at(u1, v1), c1) && self.feasible_subsystem.closes_negative_cycle(
                                (Constraint { v: v1, u: u1, c: c1, priority: 0 }),
                            ));
                        let (u1, v1, c1) = choose|u1: VarId, v1: VarId, c1: i64|
                            #![trigger least_of(inf.bounds_at(u1, v1), c1)]
                            least_of(inf.bounds_at(u1, v1), c1) && self.feasible_subsystem.closes_negative_cycle(
                                (Constraint { v: v1, u: u1, c: c1, priority: 0 }),
                            );
                        if (u1, v1) != (mg.u, mg.v) {
                            assert(inf.bounds_at(u1, v1).dom().is_empty());
                            assert(false);
                        }
                        assert(c1 <= c && c <= c1);
                        assert(u1 == u && v1 == v && c1 == c);
                        assert((Constraint { v: v1, u: u1, c: c1, priority: 0 }) == (Constraint { v, u, c, priority: 0 }));
                        assert(self.feasible().closes_negative_cycle((Constraint { v, u, c, priority: 0 })));
                    }
                    assert forall|u: VarId, v: VarId| #[trigger]
                        inf.bounds_at(u, v).dom().is_empty() || {
                            &&& und.bounds_at(u, v).dom().is_empty()
                            &&& inf.bounds_at(u, v) == old_und.bounds_at(u, v)
                            &&& inf.bound_priorities_at(u, v) == old_und.bound_priorities_at(u, v)
                            &&& forall|c: i64| #[trigger] least_of(inf.bounds_at(u, v), c)
                                ==> inf.pair_priorities()[(u, v)] == inf.bound_priorities_at(u, v)[c]
                                && self.feasible().closes_negative_cycle((Constraint { v, u, c, priority: 0 }))
                        } by {
                        assert(!b_inf.pair_priorities().contains_key((u, v)));
                        assert(b_inf.bounds_at(u, v).dom().is_empty());
                        assert(b_inf.bound_priorities_at(u, v).dom().is_empty());
                        if (u, v) == (mg.u, mg.v) {
                            mg.c.lemma_wf();
                            assert(inf.bounds_at(u, v) =~= mg.c.bounds());
                            assert(b_inf.bound_priorities_at(u, v) =~= Map::empty());
                            assert(mg.c.priorities().union_prefer_right(b_inf.bound_priorities_at(u, v)) =~= mg.c.priorities());
                            assert(b_inf.bound_priorities_at(u, v).union_prefer_right(mg.c.priorities()) =~= mg.c.priorities());
                            assert(inf.bound_priorities_at(u, v) == mg.c.priorities());
                            assert(b_und.bounds_at(u, v) == old_und.bounds_at(u, v));
                            assert forall|c: i64| #[trigger] least_of(inf.bounds_at(u, v), c)
                                implies inf.pair_priorities()[(u, v)] == inf.bound_priorities_at(u, v)[c] by {
                                let c0 = choose|c0: i64| #![trigger mg.c.is_least_bound(c0)]
                                    mg.c.is_least_bound(c0) && inf.pair_priorities() == (if !b_inf.pair_priorities().contains_key((mg.u, mg.v)) || b_inf.pair_priorities()[(mg.u, mg.v)] < mg.c.priorities()[c0] {
                                        b_inf.pair_priorities().insert((mg.u, mg.v), mg.c.priorities()[c0])
                                    } else {
                                        b_inf.pair_priorities()
                                    });
                                assert(c <= c0 && c0 <= c);
                            }
                        } else {
                            assert(inf.bounds_at(u, v) == b_inf.bounds_at(u, v));
                        }
                    }
                }
                return;
            }
            proof {
                self.lemma_accepted(before, multi, con);
                let und = self.undetermined_constraints;
                let b_und = before.undetermined_constraints;
                Self::lemma_taken_in_order(old_und, b_und, und, multi.u, multi.v);
                assert(b_und.bounds_at(multi.u, multi.v).contains_key(con.c));
                assert(b_und.bounds_at(multi.u, multi.v) == old_und.bounds_at(multi.u, multi.v));
                assert(is_least_waiting(old_und, con));
                let s_before = Set::new(
                    |e: Constraint|
                        is_least_waiting(old_und, e) && b_und.bounds_at(e.u, e.v).dom().is_empty(),
                );
                let s_now = Set::new(
                    |e: Constraint|
                        is_least_waiting(old_und, e) && und.bounds_at(e.u, e.v).dom().is_empty(),
                );
                assert(s_now =~= s_before.insert(con)) by {
                    assert forall|e: Constraint| #[trigger] s_now.contains(e) implies s_before.insert(
                        con,
                    ).contains(e) by {
                        if (e.u, e.v) == (multi.u, multi.v) {
                            assert(least_of(old_und.bounds_at(e.u, e.v), e.c));
                            assert(e.c <= con.c && con.c <= e.c);
                            assert(e == con);
                        } else {
                            assert(und.bounds_at(e.u, e.v) == b_und.bounds_at(e.u, e.v));
                        }
                    }
                    assert forall|e: Constraint| #[trigger] s_before.insert(con).contains(e) implies s_now.contains(e) by {
                        if e != con {
                            assert(s_before.contains(e));
                            if (e.u, e.v) != (multi.u, multi.v) {
                                assert(und.bounds_at(e.u, e.v) == b_und.bounds_at(e.u, e.v));
                            }
                        }
                    }
                }
                assert forall|u: VarId, v: VarId| #[trigger]
                    und.bounds_at(u, v).dom().is_empty() || (und.bounds_at(u, v) == old_und.bounds_at(u, v)
                        && und.bound_priorities_at(u, v) == old_und.bound_priorities_at(u, v)) by {
                    if (u, v) != (multi.u, multi.v) {
                        assert(und.bounds_at(u, v) == b_und.bounds_at(u, v));
                    }
                }
                assert(pairs - und.pair_priorities().dom().len() == n + 1);
                fs_before.lemma_values_finite();
                let d0 = fs_before.values().dom();
                assert(d0.insert(con.u).len() <= d0.len() + 1);
                assert(d0.insert(con.u).insert(con.v).len() <= d0.len() + 2);
            }
        }
        proof {
            Self::lemma_within_later(
                *old(self),
                self.feasible_subsystem,
                (pairs - self.undetermined_constraints.pair_priorities().dom().len()) as nat,
                pairs,
            );
        }
    }
}

impl Default for DCS {
    fn default() -> (r: Self)
        ensures
            r.wf(),
            r.added() == Set::<(VarId, VarId, i64)>::empty(),
            r.status_of() == Status::Feasible,
    {
        DCS::new()
    }
}

} // verus!
