//! Constraints grouped by their pair of variables, taken out pair by pair
//! by priority.
use std::collections::HashMap;
use vstd::prelude::*;
use vstd::std_specs::iter::IteratorSpec;

use crate::common::{Constraint, ConstraintPriority, EdgeDoesNotExist, MultiConstraint, MultiEdge, VarId};
use crate::priority_queues::{
    pair_queue_is_empty, pair_queue_items, pair_queue_new, pair_queue_pop, pair_queue_push,
    pair_queue_push_increase,
    pair_queue_remove, PairQueue,
};
use crate::solution::Solution;

verus! {

broadcast use vstd::std_specs::hash::group_hash_axioms;

/// The key under which the constraints `v - u <= c` are filed.
pub open spec fn pair_key(u: VarId, v: VarId) -> u128 {
    (u * 0x1_0000_0000_0000_0000 + v) as u128
}

proof fn lemma_pair_key_injective(u1: VarId, v1: VarId, u2: VarId, v2: VarId)
    ensures
        pair_key(u1, v1) == pair_key(u2, v2) ==> u1 == u2 && v1 == v2,
{
    assert(0 <= u1 * 0x1_0000_0000_0000_0000 + v1 < 0x1_0000_0000_0000_0000_0000_0000_0000_0000)
        by (nonlinear_arith);
    assert(0 <= u2 * 0x1_0000_0000_0000_0000 + v2 < 0x1_0000_0000_0000_0000_0000_0000_0000_0000)
        by (nonlinear_arith);
    if pair_key(u1, v1) == pair_key(u2, v2) {
        assert(u1 == u2 && v1 == v2) by (nonlinear_arith)
            requires
                u1 * 0x1_0000_0000_0000_0000 + v1 == u2 * 0x1_0000_0000_0000_0000 + v2,
                0 <= v1 < 0x1_0000_0000_0000_0000,
                0 <= v2 < 0x1_0000_0000_0000_0000,
                0 <= u1,
                0 <= u2,
        ;
    }
}

fn key_of(u: VarId, v: VarId) -> (r: u128)
    ensures
        r == pair_key(u, v),
{
    proof {
        assert(0 <= u * 0x1_0000_0000_0000_0000 + v < 0x1_0000_0000_0000_0000_0000_0000_0000_0000)
            by (nonlinear_arith);
    }
    (u as u128) * 0x1_0000_0000_0000_0000 + (v as u128)
}

/// A finite nonempty set of bounds has a least one.
proof fn lemma_set_has_least(s: Set<i64>)
    requires
        s.finite(),
        !s.is_empty(),
    ensures
        exists|c: i64| s.contains(c) && forall|d: i64| #[trigger] s.contains(d) ==> c <= d,
    decreases s.len(),
{
    let a = s.choose();
    let rest = s.remove(a);
    if rest.is_empty() {
        assert forall|d: i64| #[trigger] s.contains(d) implies a <= d by {
            if d != a {
                assert(rest.contains(d));
            }
        }
    } else {
        lemma_set_has_least(rest);
        let b = choose|c: i64| rest.contains(c) && forall|d: i64| #[trigger] rest.contains(d) ==> c <= d;
        let m = if a <= b { a } else { b };
        assert forall|d: i64| #[trigger] s.contains(d) implies m <= d by {
            if d != a {
                assert(rest.contains(d));
            }
        }
        assert(s.contains(m));
    }
}

/// `c` is the least of the bounds.
pub open spec fn least_of(bounds: Map<i64, usize>, c: i64) -> bool {
    &&& bounds.contains_key(c)
    &&& forall|d: i64| #[trigger] bounds.contains_key(d) ==> c <= d
}

/// Constraints grouped by the pair `(u, v)` of their variables; each pair
/// has the greatest priority of the constraints pushed for it, and `pop`
/// takes out a pair of greatest priority with all its constraints.
pub struct PrioritizedMulticConstraints {
    queue: PairQueue,
    edges: HashMap<u128, MultiConstraint>,
}

impl PrioritizedMulticConstraints {
    /// The priority of each pair that has constraints.
    pub closed spec fn pair_priorities(&self) -> Map<(VarId, VarId), ConstraintPriority> {
        pair_queue_items(self.queue)
    }

    /// The bounds of the constraints between `u` and `v`, with their counts.
    pub closed spec fn bounds_at(&self, u: VarId, v: VarId) -> Map<i64, usize> {
        if self.edges@.contains_key(pair_key(u, v)) {
            self.edges@[pair_key(u, v)].c.bounds()
        } else {
            Map::empty()
        }
    }

    /// The priority of each bound between `u` and `v`.
    pub closed spec fn bound_priorities_at(&self, u: VarId, v: VarId) -> Map<i64, ConstraintPriority> {
        if self.edges@.contains_key(pair_key(u, v)) {
            self.edges@[pair_key(u, v)].c.priorities()
        } else {
            Map::empty()
        }
    }

    /// Each stored group sits under the key of its pair, is well-formed
    /// and not empty, and the queue holds exactly the pairs stored.
    pub closed spec fn wf(&self) -> bool {
        &&& pair_queue_items(self.queue).dom().finite()
        &&& forall|k: u128| #[trigger]
            self.edges@.contains_key(k) ==> {
                &&& pair_key(self.edges@[k].u, self.edges@[k].v) == k
                &&& self.edges@[k].c.wf()
                &&& !self.edges@[k].c.bounds().dom().is_empty()
            }
        &&& forall|p: (VarId, VarId)| #[trigger]
            pair_queue_items(self.queue).contains_key(p) <==> self.edges@.contains_key(
                pair_key(p.0, p.1),
            )
    }

    /// What well-formedness gives to callers: a pair is queued exactly when
    /// it has bounds, and each has a priority.
    pub proof fn lemma_wf(&self)
        requires
            self.wf(),
        ensures
            self.pair_priorities().dom().finite(),
            forall|u: VarId, v: VarId| #[trigger]
                self.pair_priorities().contains_key((u, v)) <==> !self.bounds_at(
                    u,
                    v,
                ).dom().is_empty(),
            forall|u: VarId, v: VarId| #[trigger]
                self.bounds_at(u, v).dom() == self.bound_priorities_at(u, v).dom(),
    {
        assert forall|u: VarId, v: VarId| #[trigger]
            self.bounds_at(u, v).dom() == self.bound_priorities_at(u, v).dom() by {
            if self.edges@.contains_key(pair_key(u, v)) {
                self.edges@[pair_key(u, v)].c.lemma_wf();
            } else {
                assert(self.bounds_at(u, v).dom() =~= self.bound_priorities_at(u, v).dom());
            }
        }
        assert forall|u: VarId, v: VarId| #[trigger]
            self.pair_priorities().contains_key((u, v)) <==> !self.bounds_at(
                u,
                v,
            ).dom().is_empty() by {
            if !self.edges@.contains_key(pair_key(u, v)) {
                assert(self.bounds_at(u, v).dom() =~= Set::empty());
            }
        }
    }

    /// A pair that has constraints has a least bound among them.
    pub proof fn lemma_least_exists(&self, u: VarId, v: VarId)
        requires
            self.wf(),
            !self.bounds_at(u, v).dom().is_empty(),
        ensures
            exists|c: i64| least_of(self.bounds_at(u, v), c),
    {
        self.edges@[pair_key(u, v)].c.lemma_wf();
        lemma_set_has_least(self.bounds_at(u, v).dom());
        let c = choose|c: i64|
            self.bounds_at(u, v).dom().contains(c) && forall|d: i64| #[trigger]
                self.bounds_at(u, v).dom().contains(d) ==> c <= d;
        assert(least_of(self.bounds_at(u, v), c));
    }

    /// No constraints.
    pub fn new() -> (r: Self)
        ensures
            r.wf(),
            r.pair_priorities().dom().is_empty(),
            forall|u: VarId, v: VarId| #[trigger] r.bounds_at(u, v).dom().is_empty(),
            forall|u: VarId, v: VarId| #[trigger] r.bound_priorities_at(u, v) == Map::<i64, ConstraintPriority>::empty(),
    {
        PrioritizedMulticConstraints { queue: pair_queue_new(), edges: HashMap::new() }
    }

    /// Adds the constraint to its pair, raising the pair's priority to the
    /// constraint's when that is greater, and reports whether its bound was
    /// new for the pair.
    pub fn push(&mut self, constraint: Constraint) -> (r: bool)
        requires
            old(self).wf(),
            old(self).bounds_at(constraint.u, constraint.v).contains_key(constraint.c) ==> old(self).bounds_at(constraint.u, constraint.v)[constraint.c] < usize::MAX,
        ensures
            final(self).wf(),
            r == !old(self).bounds_at(constraint.u, constraint.v).contains_key(constraint.c),
            final(self).pair_priorities() == (if !old(self).pair_priorities().contains_key(
                (constraint.u, constraint.v),
            ) || old(self).pair_priorities()[(constraint.u, constraint.v)]
                < constraint.priority {
                old(self).pair_priorities().insert((constraint.u, constraint.v), constraint.priority)
            } else {
                old(self).pair_priorities()
            }),
            final(self).bounds_at(constraint.u, constraint.v) == old(self).bounds_at(
                constraint.u,
                constraint.v,
            ).insert(
                constraint.c,
                if old(self).bounds_at(constraint.u, constraint.v).contains_key(constraint.c) {
                    (old(self).bounds_at(constraint.u, constraint.v)[constraint.c] + 1) as usize
                } else {
                    1
                },
            ),
            final(self).bound_priorities_at(constraint.u, constraint.v) == old(self).bound_priorities_at(constraint.u, constraint.v).insert(
                constraint.c,
                constraint.priority,
            ),
            forall|u: VarId, v: VarId|
                (u, v) != (constraint.u, constraint.v) ==> #[trigger] final(self).bounds_at(u, v)
                    == old(self).bounds_at(u, v) && final(self).bound_priorities_at(u, v) == old(self).bound_priorities_at(u, v),
    {
        let node = (constraint.u, constraint.v);
        pair_queue_push_increase(&mut self.queue, node, constraint.priority);
        let key = key_of(constraint.u, constraint.v);
        let mut multi = match self.edges.remove(&key) {
            Some(m) => m,
            None => MultiConstraint { v: constraint.v, u: constraint.u, c: MultiEdge::new() },
        };
        proof {
            assert(pair_key(multi.u, multi.v) == key);
            lemma_pair_key_injective(multi.u, multi.v, constraint.u, constraint.v);
        }
        let r = multi.c.push(constraint.c, constraint.priority);
        self.edges.insert(key, multi);
        proof {
            assert forall|u: VarId, v: VarId|
                (u, v) != (constraint.u, constraint.v) implies #[trigger] self.bounds_at(u, v)
                    == old(self).bounds_at(u, v) && self.bound_priorities_at(u, v) == old(self).bound_priorities_at(u, v) by {
                lemma_pair_key_injective(u, v, constraint.u, constraint.v);
            }
            assert forall|p: (VarId, VarId)| #[trigger]
                pair_queue_items(self.queue).contains_key(p) <==> self.edges@.contains_key(
                    pair_key(p.0, p.1),
                ) by {
                lemma_pair_key_injective(p.0, p.1, constraint.u, constraint.v);
            }
            if old(self).edges@.contains_key(key) {
                assert(old(self).bounds_at(constraint.u, constraint.v) == old(self).edges@[key].c.bounds());
            }
        }
        r
    }

    /// What `pop` does, giving the pair's priority as well.
    pub(crate) fn pop_with_priority(&mut self) -> (r: Option<(MultiConstraint, ConstraintPriority)>)
        requires
            old(self).wf(),
        ensures
            final(self).wf(),
            match r {
                None => {
                    &&& old(self).pair_priorities().dom().is_empty()
                    &&& final(self).pair_priorities() == old(self).pair_priorities()
                    &&& forall|u: VarId, v: VarId| #[trigger]
                        final(self).bounds_at(u, v) == old(self).bounds_at(u, v)
                            && final(self).bound_priorities_at(u, v) == old(self).bound_priorities_at(u, v)
                },
                Some((m, priority)) => {
                    &&& old(self).pair_priorities().contains_key((m.u, m.v))
                    &&& priority == old(self).pair_priorities()[(m.u, m.v)]
                    &&& forall|p: (VarId, VarId)| #[trigger]
                        old(self).pair_priorities().contains_key(p) ==> old(self).pair_priorities()[p] <= old(self).pair_priorities()[(m.u, m.v)]
                    &&& m.c.wf()
                    &&& m.c.bounds() == old(self).bounds_at(m.u, m.v)
                    &&& m.c.priorities() == old(self).bound_priorities_at(m.u, m.v)
                    &&& final(self).pair_priorities() == old(self).pair_priorities().remove(
                        (m.u, m.v),
                    )
                    &&& final(self).bounds_at(m.u, m.v).dom().is_empty()
                    &&& forall|u: VarId, v: VarId|
                        (u, v) != (m.u, m.v) ==> #[trigger] final(self).bounds_at(u, v) == old(self).bounds_at(u, v) && final(self).bound_priorities_at(u, v) == old(self).bound_priorities_at(u, v)
                },
            },
    {
        match pair_queue_pop(&mut self.queue) {
            None => None,
            Some((node, priority)) => {
                let key = key_of(node.0, node.1);
                let popped = self.edges.remove(&key);
                match popped {
                    None => {
                        assert(false);
                        None
                    },
                    Some(m) => {
                        proof {
                            lemma_pair_key_injective(m.u, m.v, node.0, node.1);
                            assert forall|u: VarId, v: VarId|
                                (u, v) != (m.u, m.v) implies #[trigger] self.bounds_at(u, v)
                                    == old(self).bounds_at(u, v) && self.bound_priorities_at(
                                    u,
                                    v,
                                ) == old(self).bound_priorities_at(u, v) by {
                                lemma_pair_key_injective(u, v, m.u, m.v);
                            }
                            assert forall|p: (VarId, VarId)| #[trigger]
                                pair_queue_items(self.queue).contains_key(p)
                                    <==> self.edges@.contains_key(pair_key(p.0, p.1)) by {
                                lemma_pair_key_injective(p.0, p.1, m.u, m.v);
                            }
                            assert(self.bounds_at(m.u, m.v).dom() =~= Set::empty());
                        }
                        Some((m, priority))
                    },
                }
            },
        }
    }

    /// Gives a waiting pair the priority, leaving its constraints as they
    /// are.
    pub(crate) fn set_pair_priority(&mut self, u: VarId, v: VarId, priority: ConstraintPriority)
        requires
            old(self).wf(),
            old(self).pair_priorities().contains_key((u, v)),
        ensures
            final(self).wf(),
            final(self).pair_priorities() == old(self).pair_priorities().insert((u, v), priority),
            forall|x: VarId, y: VarId| #[trigger] final(self).bounds_at(x, y) == old(self).bounds_at(x, y)
                && final(self).bound_priorities_at(x, y) == old(self).bound_priorities_at(x, y),
    {
        pair_queue_push(&mut self.queue, (u, v), priority);
        proof {
            assert forall|p: (VarId, VarId)| #[trigger]
                pair_queue_items(self.queue).contains_key(p) <==> self.edges@.contains_key(pair_key(p.0, p.1)) by {
                assert(pair_queue_items(old(self).queue).contains_key((u, v)));
            }
        }
    }

    /// Takes out a pair of greatest priority with all its constraints, or
    /// gives `None` when there are none.
    pub fn pop(&mut self) -> (r: Option<MultiConstraint>)
        requires
            old(self).wf(),
        ensures
            final(self).wf(),
            match r {
                None => {
                    &&& old(self).pair_priorities().dom().is_empty()
                    &&& final(self).pair_priorities() == old(self).pair_priorities()
                    &&& forall|u: VarId, v: VarId| #[trigger]
                        final(self).bounds_at(u, v) == old(self).bounds_at(u, v)
                            && final(self).bound_priorities_at(u, v) == old(self).bound_priorities_at(u, v)
                },
                Some(m) => {
                    &&& old(self).pair_priorities().contains_key((m.u, m.v))
                    &&& forall|p: (VarId, VarId)| #[trigger]
                        old(self).pair_priorities().contains_key(p) ==> old(self).pair_priorities()[p] <= old(self).pair_priorities()[(m.u, m.v)]
                    &&& m.c.wf()
                    &&& m.c.bounds() == old(self).bounds_at(m.u, m.v)
                    &&& m.c.priorities() == old(self).bound_priorities_at(m.u, m.v)
                    &&& final(self).pair_priorities() == old(self).pair_priorities().remove(
                        (m.u, m.v),
                    )
                    &&& final(self).bounds_at(m.u, m.v).dom().is_empty()
                    &&& forall|u: VarId, v: VarId|
                        (u, v) != (m.u, m.v) ==> #[trigger] final(self).bounds_at(u, v) == old(self).bounds_at(u, v) && final(self).bound_priorities_at(u, v) == old(self).bound_priorities_at(u, v)
                },
            },
    {
        match self.pop_with_priority() {
            None => None,
            Some((m, _)) => Some(m),
        }
    }

    /// Removes one constraint with the bound of `constraint` between its
    /// variables (the priority plays no part), dropping the pair once it
    /// has no constraints left. Fails when there is no such constraint;
    /// otherwise reports, as `MultiEdge::remove` does, whether the least
    /// bound of the pair went up.
    pub fn remove(&mut self, constraint: Constraint) -> (r: Result<bool, EdgeDoesNotExist>)
        requires
            old(self).wf(),
        ensures
            final(self).wf(),
            r is Err <==> !old(self).bounds_at(constraint.u, constraint.v).contains_key(
                constraint.c,
            ),
            r is Err ==> final(self).pair_priorities() == old(self).pair_priorities(),
            r is Ok ==> {
                let old_bounds = old(self).bounds_at(constraint.u, constraint.v);
                let new_bounds = final(self).bounds_at(constraint.u, constraint.v);
                &&& old_bounds[constraint.c] > 1 ==> {
                    &&& r == Ok::<bool, EdgeDoesNotExist>(false)
                    &&& new_bounds == old_bounds.insert(
                        constraint.c,
                        (old_bounds[constraint.c] - 1) as usize,
                    )
                    &&& final(self).bound_priorities_at(constraint.u, constraint.v) == old(self).bound_priorities_at(constraint.u, constraint.v)
                }
                &&& old_bounds[constraint.c] == 1 ==> {
                    &&& new_bounds == old_bounds.remove(constraint.c)
                    &&& final(self).bound_priorities_at(constraint.u, constraint.v) == old(self).bound_priorities_at(constraint.u, constraint.v).remove(constraint.c)
                    &&& r == Ok::<bool, EdgeDoesNotExist>(
                        forall|d: i64| #[trigger] new_bounds.contains_key(d) ==> constraint.c < d,
                    )
                }
                &&& final(self).pair_priorities() == (if new_bounds.dom().is_empty() {
                    old(self).pair_priorities().remove((constraint.u, constraint.v))
                } else {
                    old(self).pair_priorities()
                })
            },
            forall|u: VarId, v: VarId|
                #![trigger final(self).bounds_at(u, v)]
                (u, v) != (constraint.u, constraint.v) || (r is Err) ==> {
                    &&& final(self).bounds_at(u, v) == old(self).bounds_at(u, v)
                    &&& final(self).bound_priorities_at(u, v) == old(self).bound_priorities_at(u, v)
                },
    {
        let key = key_of(constraint.u, constraint.v);
        let mut multi = match self.edges.remove(&key) {
            None => {
                proof {
                    assert(self.edges@ =~= old(self).edges@);
                }
                return Err(EdgeDoesNotExist);
            },
            Some(m) => m,
        };
        proof {
            lemma_pair_key_injective(multi.u, multi.v, constraint.u, constraint.v);
            assert(old(self).bounds_at(constraint.u, constraint.v) == multi.c.bounds());
            assert(old(self).bound_priorities_at(constraint.u, constraint.v) == multi.c.priorities());
        }
        let out = multi.c.remove(constraint.c);
        if multi.c.is_empty() {
            pair_queue_remove(&mut self.queue, &(constraint.u, constraint.v));
            proof {
                assert(self.bounds_at(constraint.u, constraint.v) =~= multi.c.bounds());
                assert(self.bound_priorities_at(constraint.u, constraint.v) =~= multi.c.priorities()) by {
                    multi.c.lemma_wf();
                }
            }
        } else {
            self.edges.insert(key, multi);
            proof {
                assert(self.bounds_at(constraint.u, constraint.v) == multi.c.bounds());
                assert(self.bound_priorities_at(constraint.u, constraint.v) == multi.c.priorities());
            }
        }
        proof {
            assert forall|u: VarId, v: VarId|
                (u, v) != (constraint.u, constraint.v) implies #[trigger] self.bounds_at(u, v)
                    == old(self).bounds_at(u, v) && self.bound_priorities_at(u, v) == old(self).bound_priorities_at(u, v) by {
                lemma_pair_key_injective(u, v, constraint.u, constraint.v);
            }
            assert forall|p: (VarId, VarId)| #[trigger]
                pair_queue_items(self.queue).contains_key(p) <==> self.edges@.contains_key(
                    pair_key(p.0, p.1),
                ) by {
                lemma_pair_key_injective(p.0, p.1, constraint.u, constraint.v);
            }
        }
        out
    }

    /// Whether there are no constraints.
    pub fn is_empty(&self) -> (r: bool)
        requires
            self.wf(),
        ensures
            r == self.pair_priorities().dom().is_empty(),
    {
        pair_queue_is_empty(&self.queue)
    }

    /// Whether the assignment satisfies, for each pair, the constraint with
    /// the least bound (a constraint with an unassigned variable counts as
    /// satisfied).
    pub fn check_solution(&self, sol: &Solution) -> (r: bool)
        requires
            self.wf(),
        ensures
            r == forall|u: VarId, v: VarId, c: i64|
                #![trigger least_of(self.bounds_at(u, v), c)]
                least_of(self.bounds_at(u, v), c) ==> (sol@.contains_key(u) && sol@.contains_key(v)
                    ==> sol@[v] - sol@[u] <= c),
    {
        let entries = self.edges.iter();
        let ghost all = entries.remaining();
        for pair in it: entries
            invariant
                it.seq() == all,
                self.wf(),
                forall|j: int|
                    0 <= j < all.len() ==> self.edges@.contains_key(*all[j].0) && self.edges@[*all[j].0]
                        == *all[j].1,
                forall|k: u128|
                    self.edges@.contains_key(k) ==> exists|j: int| 0 <= j < all.len() && *all[j].0 == k,
                forall|j: int|
                    0 <= j < it.index() ==> self.least_satisfied(*all[j].0, sol@),
        {
            let multi: &MultiConstraint = pair.1;
            match multi.to_constraint() {
                None => {},
                Some(con) => {
                    if !sol.check_constraint(&con) {
                        proof {
                            let k = *pair.0;
                            assert(self.bounds_at(multi.u, multi.v) == multi.c.bounds());
                            assert(least_of(self.bounds_at(multi.u, multi.v), con.c));
                        }
                        return false;
                    }
                },
            }
            proof {
                let k = *pair.0;
                assert(self.edges@[k] == *multi);
                assert(self.bounds_at(multi.u, multi.v) == multi.c.bounds());
                assert forall|c: i64| #[trigger] least_of(multi.c.bounds(), c) && sol@.contains_key(multi.u) && sol@.contains_key(multi.v)
                    implies sol@[multi.v] - sol@[multi.u] <= c by {
                    multi.c.lemma_wf();
                }
            }
        }
        proof {
            assert forall|u: VarId, v: VarId, c: i64| #[trigger] least_of(self.bounds_at(u, v), c)
                && sol@.contains_key(u) && sol@.contains_key(v) implies sol@[v] - sol@[u] <= c by {
                let k = pair_key(u, v);
                assert(self.edges@.contains_key(k));
                let j = choose|j: int| 0 <= j < all.len() && *all[j].0 == k;
                assert(self.least_satisfied(k, sol@));
                lemma_pair_key_injective(u, v, self.edges@[k].u, self.edges@[k].v);
            }
        }
        true
    }

    /// The group stored under `k` has its least bound satisfied by `m`.
    spec fn least_satisfied(&self, k: u128, m: Map<VarId, i64>) -> bool {
        let multi = self.edges@[k];
        forall|c: i64| #[trigger]
            least_of(multi.c.bounds(), c) ==> (m.contains_key(multi.u) && m.contains_key(multi.v)
                ==> m[multi.v] - m[multi.u] <= c)
    }

    /// Whether the pair of the constraint holds a strictly smaller bound
    /// than the constraint's.
    pub fn includes(&self, constraint: &Constraint) -> (r: bool)
        requires
            self.wf(),
        ensures
            r == exists|c: i64|
                least_of(self.bounds_at(constraint.u, constraint.v), c) && c < constraint.c,
    {
        let key = key_of(constraint.u, constraint.v);
        let multi = match self.edges.get(&key) {
            None => {
                proof {
                    assert(self.bounds_at(constraint.u, constraint.v) =~= Map::empty());
                }
                return false;
            },
            Some(m) => m,
        };
        proof {
            assert(self.bounds_at(constraint.u, constraint.v) == multi.c.bounds());
        }
        match multi.c.peek() {
            None => false,
            Some((c, _)) => {
                proof {
                    assert(least_of(self.bounds_at(constraint.u, constraint.v), *c));
                    assert forall|d: i64| least_of(self.bounds_at(constraint.u, constraint.v), d)
                        implies d == *c by {
                    }
                }
                *c < constraint.c
            },
        }
    }

    /// Adds all the constraints of `multi` to their pair, raising the pair's
    /// priority to that of the least bound of `multi` when that is greater,
    /// and reports whether the least bound of the pair went down; a bound
    /// already there keeps a priority as `MultiEdge::merge` says. Nothing
    /// changes when `multi` has no bounds.
    pub fn add_multi_constraint(&mut self, multi: MultiConstraint) -> (r: bool)
        requires
            old(self).wf(),
            multi.c.wf(),
            forall|c: i64|
                old(self).bounds_at(multi.u, multi.v).contains_key(c) && multi.c.bounds().contains_key(c)
                    ==> old(self).bounds_at(multi.u, multi.v)[c] + multi.c.bounds()[c] <= usize::MAX,
        ensures
            final(self).wf(),
            multi.c.bounds().dom().is_empty() ==> !r && final(self).pair_priorities() == old(self).pair_priorities() && forall|u: VarId, v: VarId| #[trigger]
                final(self).bounds_at(u, v) == old(self).bounds_at(u, v),
            !multi.c.bounds().dom().is_empty() ==> {
                &&& final(self).bounds_at(multi.u, multi.v).dom() == old(self).bounds_at(
                    multi.u,
                    multi.v,
                ).dom().union(multi.c.bounds().dom())
                &&& forall|c: i64| #[trigger]
                    final(self).bounds_at(multi.u, multi.v).contains_key(c) ==> final(self).bounds_at(
                        multi.u,
                        multi.v,
                    )[c] == (if old(self).bounds_at(multi.u, multi.v).contains_key(c) {
                        old(self).bounds_at(multi.u, multi.v)[c] as int
                    } else {
                        0
                    }) + (if multi.c.bounds().contains_key(c) {
                        multi.c.bounds()[c] as int
                    } else {
                        0
                    })
                &&& exists|c0: i64|
                    #![trigger multi.c.is_least_bound(c0)]
                    multi.c.is_least_bound(c0) && final(self).pair_priorities() == (if !old(self).pair_priorities().contains_key((multi.u, multi.v)) || old(self).pair_priorities()[(multi.u, multi.v)] < multi.c.priorities()[c0] {
                        old(self).pair_priorities().insert((multi.u, multi.v), multi.c.priorities()[c0])
                    } else {
                        old(self).pair_priorities()
                    })
                &&& final(self).bound_priorities_at(multi.u, multi.v) == (if old(self).bounds_at(
                    multi.u,
                    multi.v,
                ).dom().len() >= multi.c.bounds().dom().len() {
                    multi.c.priorities().union_prefer_right(
                        old(self).bound_priorities_at(multi.u, multi.v),
                    )
                } else {
                    old(self).bound_priorities_at(multi.u, multi.v).union_prefer_right(
                        multi.c.priorities(),
                    )
                })
                &&& r == exists|c: i64|
                    multi.c.is_least_bound(c) && forall|d: i64| #[trigger]
                        old(self).bounds_at(multi.u, multi.v).contains_key(d) ==> c < d
                &&& forall|u: VarId, v: VarId|
                    (u, v) != (multi.u, multi.v) ==> #[trigger] final(self).bounds_at(u, v)
                        == old(self).bounds_at(u, v) && final(self).bound_priorities_at(u, v)
                        == old(self).bound_priorities_at(u, v)
            },
    {
        let first = multi.to_constraint();
        let priority = match first {
            None => {
                return false;
            },
            Some(con) => con.priority,
        };
        let ghost c0 = first->0.c;
        pair_queue_push_increase(&mut self.queue, (multi.u, multi.v), priority);
        let key = key_of(multi.u, multi.v);
        let mut existing = match self.edges.remove(&key) {
            Some(m) => m,
            None => MultiConstraint { v: multi.v, u: multi.u, c: MultiEdge::new() },
        };
        proof {
            lemma_pair_key_injective(existing.u, existing.v, multi.u, multi.v);
            existing.c.lemma_wf();
            multi.c.lemma_wf();
        }
        let r = existing.c.merge(multi.c);
        proof {
            existing.c.lemma_wf();
            assert(existing.c.bounds().dom().contains(first->0.c));
            assert(!existing.c.bounds().dom().is_empty());
        }
        self.edges.insert(key, existing);
        proof {
            assert forall|k: u128| #[trigger] self.edges@.contains_key(k) implies {
                &&& pair_key(self.edges@[k].u, self.edges@[k].v) == k
                &&& self.edges@[k].c.wf()
                &&& !self.edges@[k].c.bounds().dom().is_empty()
            } by {
                if k != key {
                    assert(old(self).edges@.contains_key(k));
                }
            }
            assert forall|u: VarId, v: VarId|
                (u, v) != (multi.u, multi.v) implies #[trigger] self.bounds_at(u, v)
                    == old(self).bounds_at(u, v) && self.bound_priorities_at(u, v) == old(self).bound_priorities_at(u, v) by {
                lemma_pair_key_injective(u, v, multi.u, multi.v);
            }
            assert forall|p: (VarId, VarId)| #[trigger]
                pair_queue_items(self.queue).contains_key(p) <==> self.edges@.contains_key(
                    pair_key(p.0, p.1),
                ) by {
                lemma_pair_key_injective(p.0, p.1, multi.u, multi.v);
            }
            existing.c.lemma_wf();
            assert(multi.c.is_least_bound(c0));
            assert(self.bounds_at(multi.u, multi.v) == existing.c.bounds());
            assert(self.bound_priorities_at(multi.u, multi.v) == existing.c.priorities());
        }
        r
    }
}

impl Default for PrioritizedMulticConstraints {
    fn default() -> (r: Self)
        ensures
            r.wf(),
            r.pair_priorities().dom().is_empty(),
            forall|u: VarId, v: VarId| #[trigger] r.bounds_at(u, v).dom().is_empty(),
    {
        Self::new()
    }
}

} // verus!
