//! Constraints and the values that they speak of.
use std::collections::HashMap;
use vstd::prelude::*;
use vstd::std_specs::iter::IteratorSpec;

use crate::priority_queues::{
    bound_queue_append, bound_queue_is_empty, bound_queue_items, bound_queue_new, bound_queue_peek,
    bound_queue_push, bound_queue_remove, reversed_lt, BoundQueue,
};

verus! {

/// Identifier of a variable.
pub type VarId = u64;

/// Priority of a constraint: a constraint of higher priority is taken first.
pub type ConstraintPriority = u64;

/// The constraint `v - u <= c`, with a priority.
#[derive(Clone, Copy, PartialEq, Eq, Structural, Hash, Debug, PartialOrd, Ord)]
pub struct Constraint {
    pub v: VarId,
    pub u: VarId,
    pub c: i64,
    pub priority: ConstraintPriority,
}

/// The value of `x` under a partial assignment, with 0 for an unassigned variable.
pub open spec fn value_of(m: Map<VarId, i64>, x: VarId) -> int {
    if m.contains_key(x) {
        m[x] as int
    } else {
        0
    }
}

impl Constraint {
    /// Builds the constraint `v - u <= c`; the two variables must differ.
    pub fn new(v: VarId, u: VarId, c: i64, priority: ConstraintPriority) -> (r: Self)
        requires
            v != u,
        ensures
            r == (Constraint { v, u, c, priority }),
    {
        Constraint { v, u, c, priority }
    }

    /// The constraint holds under a partial assignment: it is violated only
    /// when both of its variables have values and these break the bound.
    pub open spec fn satisfied_by(self, m: Map<VarId, i64>) -> bool {
        m.contains_key(self.u) && m.contains_key(self.v) ==> m[self.v] - m[self.u] <= self.c
    }

    /// The constraint holds when every unassigned variable counts as 0.
    pub open spec fn holds_under(self, m: Map<VarId, i64>) -> bool {
        value_of(m, self.v) - value_of(m, self.u) <= self.c
    }
}

/// Returned when a bound to be removed is not present.
#[derive(Clone, Copy, PartialEq, Eq, Structural, Debug)]
pub struct EdgeDoesNotExist;

broadcast use vstd::std_specs::hash::group_hash_axioms;

/// The counts of bounds after one more constraint with bound `c`.
pub open spec fn bounds_after_push(b: Map<i64, usize>, c: i64) -> Map<i64, usize> {
    b.insert(c, if b.contains_key(c) { (b[c] + 1) as usize } else { 1 })
}

/// The counts of bounds after one constraint with bound `c` fewer: the
/// bound goes when its count was 1.
pub open spec fn bounds_after_remove(b: Map<i64, usize>, c: i64) -> Map<i64, usize> {
    if b[c] > 1 {
        b.insert(c, (b[c] - 1) as usize)
    } else {
        b.remove(c)
    }
}

/// Removing a bound undoes pushing it: the counts are as before.
pub proof fn lemma_remove_undoes_push(b: Map<i64, usize>, c: i64)
    requires
        b.contains_key(c) ==> 1 <= b[c] < usize::MAX,
    ensures
        bounds_after_remove(bounds_after_push(b, c), c) == b,
{
    if b.contains_key(c) {
        assert(bounds_after_remove(bounds_after_push(b, c), c) =~= b);
    } else {
        assert(bounds_after_remove(bounds_after_push(b, c), c) =~= b);
    }
}

/// The bounds `c` of the constraints `v - u <= c` between one pair of
/// variables, each distinct bound with the number of constraints that have
/// it and the priority it was last given, the least bound first.
pub struct MultiEdge {
    queue: BoundQueue,
    counts: HashMap<i64, usize>,
}

impl MultiEdge {
    /// Each bound with the number of constraints that have it.
    pub closed spec fn bounds(&self) -> Map<i64, usize> {
        self.counts@
    }

    /// Each bound with the priority it was last given.
    pub closed spec fn priorities(&self) -> Map<i64, ConstraintPriority> {
        bound_queue_items(self.queue).map_values(|x: (i64, ConstraintPriority)| x.1)
    }

    /// The queue holds exactly the bounds that are counted, each with a
    /// priority built on the bound itself, and counts are positive.
    pub closed spec fn wf(&self) -> bool {
        &&& bound_queue_items(self.queue).dom() == self.counts@.dom()
        &&& bound_queue_items(self.queue).dom().finite()
        &&& forall|c: i64| #[trigger]
            self.counts@.contains_key(c) ==> self.counts@[c] >= 1 && bound_queue_items(
                self.queue,
            )[c].0 == c
    }

    /// What well-formedness gives to callers.
    pub proof fn lemma_wf(&self)
        requires
            self.wf(),
        ensures
            self.bounds().dom() == self.priorities().dom(),
            self.bounds().dom().finite(),
            forall|c: i64| #[trigger] self.bounds().contains_key(c) ==> self.bounds()[c] >= 1,
    {
        assert(self.bounds().dom() =~= self.priorities().dom());
    }

    /// Pushing a bound and then removing it: the removal succeeds, as the
    /// bound is there, and the counts of bounds are those from before the
    /// push, so the least bound and whether any is left are unchanged.
    pub proof fn lemma_push_then_remove(&self, c: i64)
        requires
            self.wf(),
            self.bounds().contains_key(c) ==> self.bounds()[c] < usize::MAX,
        ensures
            bounds_after_push(self.bounds(), c).contains_key(c),
            bounds_after_remove(bounds_after_push(self.bounds(), c), c) == self.bounds(),
    {
        self.lemma_wf();
        lemma_remove_undoes_push(self.bounds(), c);
    }

    /// `c` is the least bound.
    pub open spec fn is_least_bound(&self, c: i64) -> bool {
        &&& self.bounds().contains_key(c)
        &&& forall|d: i64| #[trigger] self.bounds().contains_key(d) ==> c <= d
    }

    /// No bounds.
    pub fn new() -> (r: Self)
        ensures
            r.wf(),
            r.bounds() == Map::<i64, usize>::empty(),
            r.priorities() == Map::<i64, ConstraintPriority>::empty(),
    {
        let r = MultiEdge { queue: bound_queue_new(), counts: HashMap::new() };
        assert(r.priorities() =~= Map::<i64, ConstraintPriority>::empty());
        assert(bound_queue_items(r.queue).dom() =~= r.counts@.dom());
        r
    }

    /// Adds a constraint with bound `c`, giving the bound the priority, and
    /// reports whether the bound was new.
    pub fn push(&mut self, c: i64, priority: ConstraintPriority) -> (r: bool)
        requires
            old(self).wf(),
            old(self).bounds().contains_key(c) ==> old(self).bounds()[c] < usize::MAX,
        ensures
            final(self).wf(),
            r == !old(self).bounds().contains_key(c),
            final(self).bounds() == bounds_after_push(old(self).bounds(), c),
            final(self).priorities() == old(self).priorities().insert(c, priority),
    {
        let ghost items = bound_queue_items(self.queue);
        match bound_queue_push(&mut self.queue, c, priority) {
            None => {
                self.counts.insert(c, 1);
                proof {
                    assert(self.priorities() =~= old(self).priorities().insert(c, priority));
                    assert(bound_queue_items(self.queue).dom() =~= self.counts@.dom());
                }
                true
            },
            Some(old_priority) => {
                let count = match self.counts.get(&c) {
                    Some(n) => *n,
                    None => 0,
                };
                let count = count + 1;
                self.counts.insert(c, count);
                proof {
                    assert(self.priorities() =~= old(self).priorities().insert(c, priority));
                    assert(bound_queue_items(self.queue).dom() =~= self.counts@.dom());
                }
                (old_priority.0 > c) && (count == 1)
            },
        }
    }

    /// The least bound with its priority, or `None` when there is none.
    pub fn peek(&self) -> (r: Option<(&i64, &ConstraintPriority)>)
        requires
            self.wf(),
        ensures
            match r {
                None => self.bounds().dom().is_empty(),
                Some((c, p)) => self.is_least_bound(*c) && self.priorities()[*c] == *p,
            },
    {
        let r = bound_queue_peek(&self.queue);
        proof {
            match r {
                None => {},
                Some((c, p)) => {
                    assert forall|d: i64| #[trigger] self.bounds().contains_key(d) implies *c <= d by {
                        assert(bound_queue_items(self.queue).contains_key(d));
                        assert(!reversed_lt(
                            bound_queue_items(self.queue)[*c],
                            bound_queue_items(self.queue)[d],
                        ));
                    }
                },
            }
        }
        r
    }

    /// Whether there are no bounds.
    pub fn is_empty(&self) -> (r: bool)
        requires
            self.wf(),
        ensures
            r == self.bounds().dom().is_empty(),
    {
        bound_queue_is_empty(&self.queue)
    }

    /// Removes one constraint with bound `c`. Fails when there is none;
    /// otherwise reports whether the bound was the least one, held by that
    /// constraint alone, so that the least bound went up (or none is left).
    pub fn remove(&mut self, c: i64) -> (r: Result<bool, EdgeDoesNotExist>)
        requires
            old(self).wf(),
        ensures
            final(self).wf(),
            r is Err <==> !old(self).bounds().contains_key(c),
            r is Err ==> final(self).bounds() == old(self).bounds() && final(self).priorities()
                == old(self).priorities(),
            r is Ok ==> final(self).bounds() == bounds_after_remove(old(self).bounds(), c),
            r is Ok && old(self).bounds()[c] > 1 ==> {
                &&& r == Ok::<bool, EdgeDoesNotExist>(false)
                &&& final(self).priorities() == old(self).priorities()
            },
            r is Ok && old(self).bounds()[c] == 1 ==> {
                &&& final(self).priorities() == old(self).priorities().remove(c)
                &&& r == Ok::<bool, EdgeDoesNotExist>(
                    forall|d: i64| #[trigger] final(self).bounds().contains_key(d) ==> c < d,
                )
            },
    {
        let count = match self.counts.get(&c) {
            None => {
                return Err(EdgeDoesNotExist);
            },
            Some(n) => *n,
        };
        if count == 0 {
            return Err(EdgeDoesNotExist);
        }
        if count > 1 {
            self.counts.insert(c, count - 1);
            proof {
                assert(bound_queue_items(self.queue).dom() =~= self.counts@.dom());
            }
            return Ok(false);
        }
        self.counts.remove(&c);
        bound_queue_remove(&mut self.queue, &c);
        proof {
            assert(bound_queue_items(self.queue).dom() =~= self.counts@.dom());
            assert(self.priorities() =~= old(self).priorities().remove(c));
        }
        match self.peek() {
            Some((new_min, _)) => {
                let r = *new_min > c;
                proof {
                    if r {
                        assert forall|d: i64| #[trigger] self.bounds().contains_key(d) implies c < d by {
                        }
                    } else {
                        assert(self.bounds().contains_key(*new_min));
                    }
                }
                Ok(r)
            },
            None => Ok(true),
        }
    }

    /// Takes over the constraints of `other`, and reports whether the least
    /// bound went down: `other` has a bound, and this edge has none or only
    /// greater ones than the least of `other`. A bound present in both keeps
    /// the priority it has in the edge with more distinct bounds, in this one
    /// when both have as many.
    pub fn merge(&mut self, mut other: Self) -> (r: bool)
        requires
            old(self).wf(),
            other.wf(),
            forall|c: i64|
                old(self).bounds().contains_key(c) && other.bounds().contains_key(c) ==> old(self).bounds()[c] + other.bounds()[c] <= usize::MAX,
        ensures
            final(self).wf(),
            final(self).bounds().dom() == old(self).bounds().dom().union(other.bounds().dom()),
            forall|c: i64| #[trigger]
                final(self).bounds().contains_key(c) ==> final(self).bounds()[c] == (if old(self).bounds().contains_key(c) {
                    old(self).bounds()[c] as int
                } else {
                    0
                }) + (if other.bounds().contains_key(c) {
                    other.bounds()[c] as int
                } else {
                    0
                }),
            final(self).priorities() == (if old(self).bounds().dom().len() >= other.bounds().dom().len() {
                other.priorities().union_prefer_right(old(self).priorities())
            } else {
                old(self).priorities().union_prefer_right(other.priorities())
            }),
            r == exists|c: i64|
                other.is_least_bound(c) && forall|d: i64| #[trigger]
                    old(self).bounds().contains_key(d) ==> c < d,
    {
        let out = match (self.peek(), other.peek()) {
            (Some((c_self, _)), Some((c_other, _))) => *c_other < *c_self,
            (None, Some(_)) => true,
            (_, None) => false,
        };
        proof {
            other.lemma_wf();
            old(self).lemma_wf();
        }
        let ghost other_counts = other.counts@;
        let ghost old_counts = self.counts@;
        let ghost other_items = bound_queue_items(other.queue);
        let ghost self_items = bound_queue_items(self.queue);
        bound_queue_append(&mut self.queue, &mut other.queue);
        let ghost merged_items = bound_queue_items(self.queue);
        proof {
            assert(self_items.dom() == old_counts.dom());
            assert(other_items.dom() == other_counts.dom());
            let op = self_items.map_values(|x: (i64, ConstraintPriority)| x.1);
            let tp = other_items.map_values(|x: (i64, ConstraintPriority)| x.1);
            assert(op == old(self).priorities());
            if self_items.dom().len() >= other_items.dom().len() {
                assert(merged_items == other_items.union_prefer_right(self_items));
                assert(self.priorities() =~= tp.union_prefer_right(op));
            } else {
                assert(merged_items == self_items.union_prefer_right(other_items));
                assert(self.priorities() =~= op.union_prefer_right(tp));
            }
        }
        let entries = other.counts.iter();
        let ghost all = entries.remaining();
        for pair in it: entries
            invariant
                it.seq() == all,
                bound_queue_items(self.queue) == merged_items,
                all.no_duplicates(),
                all.len() == other_counts.dom().len(),
                forall|j: int|
                    0 <= j < all.len() ==> other_counts.contains_key(*all[j].0) && other_counts[*all[j].0]
                        == *all[j].1,
                forall|k: i64|
                    other_counts.contains_key(k) ==> exists|j: int|
                        0 <= j < all.len() && *all[j].0 == k,
                forall|k: i64|
                    old_counts.contains_key(k) && other_counts.contains_key(k) ==> old_counts[k]
                        + other_counts[k] <= usize::MAX,
                forall|k: i64| #[trigger]
                    self.counts@.contains_key(k) <==> (old_counts.contains_key(k) || exists|j: int|
                        0 <= j < it.index() && *all[j].0 == k),
                forall|k: i64| #[trigger]
                    self.counts@.contains_key(k) ==> self.counts@[k] == (if old_counts.contains_key(
                        k,
                    ) {
                        old_counts[k] as int
                    } else {
                        0
                    }) + (if exists|j: int| 0 <= j < it.index() && *all[j].0 == k {
                        other_counts[k] as int
                    } else {
                        0
                    }),
        {
            let (var, count) = pair;
            proof {
                assert(other_counts.contains_key(*var));
                assert forall|j: int| 0 <= j < it.index() implies *all[j].0 != *var by {
                    assert(all[j] != all[it.index() as int]);
                }
            }
            let cur = match self.counts.get(var) {
                Some(n) => *n,
                None => 0,
            };
            self.counts.insert(*var, cur + *count);
        }
        proof {
            assert forall|k: i64| #[trigger] self.counts@.contains_key(k) <==> (old_counts.contains_key(k) || other_counts.contains_key(k)) by {
                if other_counts.contains_key(k) {
                    let j = choose|j: int| 0 <= j < all.len() && *all[j].0 == k;
                }
            }
            assert(self.counts@.dom() =~= old_counts.dom().union(other_counts.dom()));
            assert(bound_queue_items(self.queue).dom() =~= self.counts@.dom());
            assert forall|c: i64| #[trigger] self.counts@.contains_key(c) implies self.counts@[c] >= 1
                && bound_queue_items(self.queue)[c].0 == c by {
                if other_counts.contains_key(c) {
                    let j = choose|j: int| 0 <= j < all.len() && *all[j].0 == c;
                    assert(other_items.contains_key(c));
                }
                if old_counts.contains_key(c) {
                    assert(self_items.contains_key(c));
                }
                assert(merged_items.contains_key(c));
            }
        }
        out
    }
}

/// The constraints `v - u <= c` between one pair of variables.
pub struct MultiConstraint {
    pub v: VarId,
    pub u: VarId,
    pub c: MultiEdge,
}

impl MultiConstraint {
    /// The constraint with the least bound, with the priority of that
    /// bound, or `None` when there is no bound.
    pub fn to_constraint(&self) -> (r: Option<Constraint>)
        requires
            self.c.wf(),
        ensures
            match r {
                None => self.c.bounds().dom().is_empty(),
                Some(con) => {
                    &&& con.v == self.v
                    &&& con.u == self.u
                    &&& self.c.is_least_bound(con.c)
                    &&& con.priority == self.c.priorities()[con.c]
                },
            },
    {
        match self.c.peek() {
            None => None,
            Some((c, p)) => Some(Constraint { v: self.v, u: self.u, c: *c, priority: *p }),
        }
    }
}

impl Default for MultiEdge {
    fn default() -> (r: Self)
        ensures
            r.wf(),
            r.bounds() == Map::<i64, usize>::empty(),
            r.priorities() == Map::<i64, ConstraintPriority>::empty(),
    {
        MultiEdge::new()
    }
}

} // verus!
