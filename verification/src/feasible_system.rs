//! A system of difference constraints kept together with an assignment
//! that satisfies all of them.
use std::collections::HashMap;
use std::collections::HashSet;
use pathfinding::prelude::dijkstra;
use vstd::prelude::*;
use vstd::std_specs::iter::IteratorSpec;

use crate::common::{value_of, Constraint, ConstraintPriority, VarId};
use crate::priority_queues::{
    edge_queue_items, edge_queue_new, edge_queue_peek, edge_queue_push, edge_queue_remove,
    pair_lt, search_queue_items, search_queue_new, search_queue_pop, search_queue_push,
    search_queue_push_increase, EdgeQueue,
};
use crate::solution::{with_missing_vars, Solution};

verus! {

broadcast use vstd::std_specs::hash::group_hash_axioms;

/// The weight of a path: the sum of the bounds of its constraints.
pub open spec fn path_weight(p: Seq<Constraint>) -> int
    decreases p.len(),
{
    if p.len() == 0 {
        0
    } else {
        path_weight(p.drop_last()) + p.last().c
    }
}

/// The `i`-th variable that a path from `from` goes through: `from`, then
/// the end of each of its constraints in turn.
pub open spec fn path_vertex(p: Seq<Constraint>, from: VarId, i: int) -> VarId {
    if i == 0 {
        from
    } else {
        p[i - 1].v
    }
}

/// The weight of two paths one after the other is the sum of their weights.
pub proof fn lemma_path_weight_add(a: Seq<Constraint>, b: Seq<Constraint>)
    ensures
        path_weight(a + b) == path_weight(a) + path_weight(b),
    decreases b.len(),
{
    if b.len() == 0 {
        assert(a + b =~= a);
    } else {
        lemma_path_weight_add(a, b.drop_last());
        assert((a + b).drop_last() =~= a + b.drop_last());
    }
}

/// A path of constraints whose bounds are at least `-m` weighs at least
/// `-m` times its length.
pub proof fn lemma_path_weight_at_least(p: Seq<Constraint>, m: int)
    requires
        forall|i: int| 0 <= i < p.len() ==> #[trigger] p[i].c >= -m,
    ensures
        path_weight(p) >= -m * p.len(),
    decreases p.len(),
{
    if p.len() > 0 {
        let l = p.len() as int;
        assert forall|i: int| 0 <= i < p.drop_last().len() implies #[trigger] p.drop_last()[i].c >= -m by {
            assert(p.drop_last()[i] == p[i]);
        }
        lemma_path_weight_at_least(p.drop_last(), m);
        assert(p.last().c >= -m);
        assert(-m * l == -m * (l - 1) - m) by (nonlinear_arith);
    }
}

/// Every value of the assignment lies within `[-b, b]`.
pub open spec fn values_within(m: Map<VarId, i64>, b: int) -> bool {
    forall|x: VarId| #[trigger] m.contains_key(x) ==> -b <= m[x] <= b
}

/// The reduced cost of a constraint, seen as an edge `u -> v` of weight `c`,
/// under the assignment `m`: nonnegative exactly when `m` satisfies it.
pub open spec fn reduced_cost(e: Constraint, m: Map<VarId, i64>) -> int {
    e.c + value_of(m, e.u) - value_of(m, e.v)
}

/// The sum of the reduced costs of a path under the assignment `m`.
pub open spec fn reduced_weight(p: Seq<Constraint>, m: Map<VarId, i64>) -> int
    decreases p.len(),
{
    if p.len() == 0 {
        0
    } else {
        reduced_weight(p.drop_last(), m) + reduced_cost(p.last(), m)
    }
}

/// `pathfinding::directed::dijkstra::dijkstra`, run from `from` with the
/// successors that `scaled_succesors` gives (for each neighbour `v` of a
/// variable, the reduced cost of a constraint of least bound that leads
/// there) until `to` is reached, keeping the cost of the path found. The
/// crate documents that it returns a shortest path in that graph with its
/// cost when the costs are nonnegative, and `None` when no path exists;
/// the contract states this over the paths of the system made of
/// constraints of least bound: the cost is the reduced weight of such a
/// path from `from` to `to`, and no such path has a smaller one. Costs are
/// `i128`: each reduced cost is below `3 * 2^63`, and the paths the search
/// sums over visit each variable once, of which there are fewer than
/// `2^62 + 1` (see `within_memory`), so no sum overflows.
#[verifier::external_body]
fn shortest_reduced_distance(sys: &FeasibleSystem, from: VarId, to: VarId) -> (res: Option<i128>)
    requires
        sys.wf(),
        sys.within_memory(),
    ensures
        match res {
            Some(cost) => {
                &&& exists|p: Seq<Constraint>|
                    sys.is_least_path(p, from, to) && reduced_weight(p, sys.values()) == cost
                &&& forall|p: Seq<Constraint>|
                    sys.is_least_path(p, from, to) ==> reduced_weight(p, sys.values()) >= cost
            },
            None => forall|p: Seq<Constraint>| !sys.is_least_path(p, from, to),
        },
{
    dijkstra(&from, |node| sys.scaled_succesors(node), |node| *node == to).map(|found| found.1)
}

/// The value of `x` under an assignment of integers, with 0 for an
/// unassigned variable.
pub open spec fn int_value_of(m: Map<VarId, int>, x: VarId) -> int {
    if m.contains_key(x) {
        m[x]
    } else {
        0
    }
}

/// Among the pairs of a finite nonempty set there is one whose first
/// component is least.
proof fn lemma_least_first(s: Set<(i64, ConstraintPriority)>)
    requires
        s.finite(),
        !s.is_empty(),
    ensures
        exists|t: (i64, ConstraintPriority)|
            s.contains(t) && forall|t2: (i64, ConstraintPriority)| #[trigger] s.contains(t2) ==> t.0 <= t2.0,
    decreases s.len(),
{
    let a = s.choose();
    let rest = s.remove(a);
    if rest.is_empty() {
        assert forall|t2: (i64, ConstraintPriority)| #[trigger] s.contains(t2) implies a.0 <= t2.0 by {
            if t2 != a {
                assert(rest.contains(t2));
            }
        }
    } else {
        lemma_least_first(rest);
        let b = choose|t: (i64, ConstraintPriority)|
            rest.contains(t) && forall|t2: (i64, ConstraintPriority)| #[trigger] rest.contains(t2) ==> t.0 <= t2.0;
        if a.0 <= b.0 {
            assert forall|t2: (i64, ConstraintPriority)| #[trigger] s.contains(t2) implies a.0 <= t2.0 by {
                if t2 != a {
                    assert(rest.contains(t2));
                }
            }
        } else {
            assert forall|t2: (i64, ConstraintPriority)| #[trigger] s.contains(t2) implies b.0 <= t2.0 by {
                if t2 != a {
                    assert(rest.contains(t2));
                }
            }
        }
    }
}

/// In a well-formed system, reduced costs are nonnegative, and so is the
/// reduced weight of any path.
proof fn lemma_reduced_weight_nonneg(sys: FeasibleSystem, p: Seq<Constraint>, from: VarId, to: VarId)
    requires
        sys.wf(),
        sys.is_path(p, from, to),
    ensures
        reduced_weight(p, sys.values()) >= 0,
    decreases p.len(),
{
    if p.len() > 0 {
        assert(sys.has_constraint(p.last()));
        lemma_reduced_weight_nonneg(sys, p.drop_last(), from, p.last().u);
    }
}

/// The constraints `v - u <= c` of a system that share their `u`: for each
/// `v`, the queue of the pairs `(c, priority)`, a least bound first.
struct FromEdges(HashMap<VarId, EdgeQueue>);

impl FromEdges {
    /// For each `v`, what its queue holds.
    spec fn items(&self) -> Map<VarId, Map<(i64, ConstraintPriority), i64>> {
        self.0@.map_values(|q: EdgeQueue| edge_queue_items(q))
    }

    /// The constraint with this `v` and pair `(c, priority)` is held.
    spec fn has(&self, v: VarId, t: (i64, ConstraintPriority)) -> bool {
        self.items().contains_key(v) && self.items()[v].contains_key(t)
    }

    /// Each queue holds finitely many pairs, each with its own bound as
    /// priority.
    spec fn wf(&self) -> bool {
        forall|v: VarId| #[trigger]
            self.items().contains_key(v) ==> {
                &&& self.items()[v].dom().finite()
                &&& forall|t: (i64, ConstraintPriority)| #[trigger]
                    self.items()[v].contains_key(t) ==> self.items()[v][t] == t.0
            }
    }

    /// The pair is held for `v`, and no smaller bound is.
    spec fn is_least(&self, v: VarId, t: (i64, ConstraintPriority)) -> bool {
        &&& self.has(v, t)
        &&& forall|t2: (i64, ConstraintPriority)| #[trigger] self.has(v, t2) ==> t.0 <= t2.0
    }

    /// No constraints.
    fn new() -> (r: Self)
        ensures
            r.wf(),
            forall|v: VarId, t: (i64, ConstraintPriority)| !#[trigger] r.has(v, t),
    {
        FromEdges(HashMap::new())
    }

    /// For each `v` that has a constraint, one `(v, c, priority)` of least
    /// bound, each `v` once, in no particular order.
    fn to_pairs(&self) -> (r: Vec<(VarId, i64, ConstraintPriority)>)
        requires
            self.wf(),
        ensures
            forall|j: int|
                0 <= j < r@.len() ==> self.is_least(#[trigger] r@[j].0, (r@[j].1, r@[j].2)),
            forall|j: int, k: int| 0 <= j < k < r@.len() ==> r@[j].0 != r@[k].0,
            forall|v: VarId, t: (i64, ConstraintPriority)| #[trigger]
                self.has(v, t) ==> exists|j: int| 0 <= j < r@.len() && r@[j].0 == v,
    {
        let mut out: Vec<(VarId, i64, ConstraintPriority)> = Vec::new();
        let entries = self.0.iter();
        let ghost all = entries.remaining();
        for pair in it: entries
            invariant
                it.seq() == all,
                all.no_duplicates(),
                self.wf(),
                forall|j: int|
                    0 <= j < all.len() ==> self.0@.contains_key(*all[j].0) && self.0@[*all[j].0]
                        == *all[j].1,
                forall|v: VarId|
                    self.0@.contains_key(v) ==> exists|j: int| 0 <= j < all.len() && *all[j].0 == v,
                forall|j: int|
                    0 <= j < out@.len() ==> self.is_least(#[trigger] out@[j].0, (out@[j].1, out@[j].2)),
                forall|j: int, k: int|
                    0 <= j < out@.len() && it.index() <= k < all.len() ==> (#[trigger] out@[j]).0
                        != *(#[trigger] all[k]).0,
                forall|j: int, k: int| 0 <= j < k < out@.len() ==> out@[j].0 != out@[k].0,
                forall|k: int|
                    0 <= k < it.index() && !edge_queue_items(*all[k].1).dom().is_empty() ==> exists|
                        j: int,
                    | 0 <= j < out@.len() && out@[j].0 == *all[k].0,
        {
            let (v, q) = pair;
            let ghost idx = it.index();
            let ghost before = out@;
            proof {
                assert(all[idx] == (v, q));
                assert(self.items()[*v] == edge_queue_items(*q));
                assert forall|k: int| idx < k < all.len() implies *v != *all[k].0 by {
                    if *v == *all[k].0 {
                        assert(all[k] == all[idx]);
                    }
                }
            }
            match edge_queue_peek(q) {
                None => {},
                Some(item) => {
                    proof {
                        assert forall|t2: (i64, ConstraintPriority)| #[trigger]
                            self.has(*v, t2) implies item.0 <= t2.0 by {
                            assert(edge_queue_items(*q).contains_key(t2));
                        }
                        assert forall|j: int| 0 <= j < before.len() implies before[j].0 != *v by {
                            assert(before[j].0 != *all[idx].0);
                        }
                    }
                    out.push((*v, item.0, item.1));
                    proof {
                        assert(out@[before.len() as int] == (*v, item.0, item.1));
                        assert forall|j: int| 0 <= j < before.len() implies out@[j] == before[j] by {}
                        assert forall|k: int| 0 <= k < idx + 1 && !edge_queue_items(
                            *all[k].1,
                        ).dom().is_empty() implies exists|j: int|
                            0 <= j < out@.len() && out@[j].0 == *all[k].0 by {
                            if k < idx {
                                let j = choose|j: int| 0 <= j < before.len() && before[j].0 == *all[k].0;
                                assert(out@[j] == before[j]);
                            } else {
                                assert(out@[before.len() as int].0 == *all[k].0);
                            }
                        }
                    }
                },
            }
        }
        proof {
            assert forall|v: VarId, t: (i64, ConstraintPriority)| #[trigger]
                self.has(v, t) implies exists|j: int| 0 <= j < out@.len() && out@[j].0 == v by {
                let k = choose|k: int| 0 <= k < all.len() && *all[k].0 == v;
                assert(edge_queue_items(*all[k].1).contains_key(t));
            }
        }
        out
    }

    /// Files the constraint with this `v` and pair `(val, tag)`.
    fn add(&mut self, var: VarId, val: i64, tag: ConstraintPriority)
        requires
            old(self).wf(),
        ensures
            final(self).wf(),
            forall|v: VarId, t: (i64, ConstraintPriority)| #[trigger]
                final(self).has(v, t) <==> old(self).has(v, t) || (v == var && t == (val, tag)),
    {
        let mut q = match self.0.remove(&var) {
            Some(q) => q,
            None => edge_queue_new(),
        };
        let ghost q0 = edge_queue_items(q);
        edge_queue_push(&mut q, (val, tag), val);
        self.0.insert(var, q);
        proof {
            assert(self.items() =~= old(self).items().insert(var, q0.insert((val, tag), val)));
        }
    }

    /// Takes out the constraint with this `v` and pair `(val, tag)`, and
    /// reports whether it was held.
    fn remove(&mut self, var: &VarId, val: i64, tag: ConstraintPriority) -> (r: bool)
        requires
            old(self).wf(),
        ensures
            final(self).wf(),
            r == old(self).has(*var, (val, tag)),
            forall|v: VarId, t: (i64, ConstraintPriority)| #[trigger]
                final(self).has(v, t) <==> old(self).has(v, t) && !(v == *var && t == (val, tag)),
    {
        match self.0.remove(var) {
            None => {
                proof {
                    assert(self.items() =~= old(self).items());
                }
                false
            },
            Some(mut q) => {
                let ghost q0 = edge_queue_items(q);
                let r = edge_queue_remove(&mut q, &(val, tag));
                self.0.insert(*var, q);
                proof {
                    assert(self.items() =~= old(self).items().insert(*var, q0.remove((val, tag))));
                }
                r
            },
        }
    }
}

/// The constraints of a system, filed by their `u`.
struct Edges(HashMap<VarId, FromEdges>);

impl Edges {
    /// The constraint is filed.
    spec fn has(&self, e: Constraint) -> bool {
        self.0@.contains_key(e.u) && self.0@[e.u].has(e.v, (e.c, e.priority))
    }

    /// Each group of constraints is in order.
    spec fn wf(&self) -> bool {
        forall|u: VarId| #[trigger] self.0@.contains_key(u) ==> self.0@[u].wf()
    }

    /// The constraint is filed, and no other one between its two variables
    /// has a smaller bound.
    spec fn is_least(&self, e: Constraint) -> bool {
        &&& self.has(e)
        &&& forall|f: Constraint| #[trigger]
            self.has(f) && f.u == e.u && f.v == e.v ==> e.c <= f.c
    }

    /// No constraints.
    fn new() -> (r: Self)
        ensures
            r.wf(),
            forall|e: Constraint| !#[trigger] r.has(e),
    {
        Edges(HashMap::new())
    }

    /// One constraint of least bound for each pair of variables that has
    /// any, each pair once, in no particular order.
    fn to_constraints(&self) -> (r: Vec<Constraint>)
        requires
            self.wf(),
        ensures
            forall|j: int| 0 <= j < r@.len() ==> self.is_least(#[trigger] r@[j]),
            forall|j: int, k: int|
                0 <= j < k < r@.len() ==> !(r@[j].u == r@[k].u && r@[j].v == r@[k].v),
            forall|e: Constraint| #[trigger]
                self.has(e) ==> exists|j: int| 0 <= j < r@.len() && r@[j].u == e.u && r@[j].v == e.v,
    {
        let mut out: Vec<Constraint> = Vec::new();
        let entries = self.0.iter();
        let ghost all = entries.remaining();
        for pair in it: entries
            invariant
                it.seq() == all,
                all.no_duplicates(),
                self.wf(),
                forall|j: int|
                    0 <= j < all.len() ==> self.0@.contains_key(*all[j].0) && self.0@[*all[j].0]
                        == *all[j].1,
                forall|u: VarId|
                    self.0@.contains_key(u) ==> exists|j: int| 0 <= j < all.len() && *all[j].0 == u,
                forall|j: int| 0 <= j < out@.len() ==> self.is_least(#[trigger] out@[j]),
                forall|j: int, k: int|
                    0 <= j < out@.len() && it.index() <= k < all.len() ==> (#[trigger] out@[j]).u
                        != *(#[trigger] all[k]).0,
                forall|j: int, k: int|
                    0 <= j < k < out@.len() ==> !(out@[j].u == out@[k].u && out@[j].v == out@[k].v),
                forall|e: Constraint| #[trigger]
                    self.has(e) && (exists|k: int| 0 <= k < it.index() && *all[k].0 == e.u)
                        ==> exists|j: int| 0 <= j < out@.len() && out@[j].u == e.u && out@[j].v == e.v,
        {
            let (u, from) = pair;
            let ghost idx = it.index();
            let ghost before = out@;
            proof {
                assert(all[idx] == (u, from));
                assert(self.0@[*u] == *from);
                assert forall|k: int| idx < k < all.len() implies *u != *all[k].0 by {
                    if *u == *all[k].0 {
                        assert(all[k] == all[idx]);
                    }
                }
                assert forall|j: int| 0 <= j < before.len() implies before[j].u != *u by {
                    assert(before[j].u != *all[idx].0);
                }
            }
            let pairs = from.to_pairs();
            let mut i: usize = 0;
            while i < pairs.len()
                invariant
                    self.wf(),
                    self.0@.contains_key(*u),
                    self.0@[*u] == *from,
                    0 <= i <= pairs@.len(),
                    forall|j: int|
                        0 <= j < pairs@.len() ==> from.is_least(
                            #[trigger] pairs@[j].0,
                            (pairs@[j].1, pairs@[j].2),
                        ),
                    forall|j: int, k: int| 0 <= j < k < pairs@.len() ==> pairs@[j].0 != pairs@[k].0,
                    out@.len() == before.len() + i,
                    forall|j: int| 0 <= j < before.len() ==> out@[j] == before[j],
                    forall|j: int| 0 <= j < before.len() ==> before[j].u != *u,
                    forall|j: int|
                        0 <= j < i ==> out@[before.len() + j] == (Constraint {
                            v: pairs@[j].0,
                            u: *u,
                            c: pairs@[j].1,
                            priority: pairs@[j].2,
                        }),
                decreases pairs@.len() - i,
            {
                let (v, c, p) = pairs[i];
                out.push(Constraint { v, u: *u, c, priority: p });
                i = i + 1;
            }
            proof {
                assert forall|j: int| 0 <= j < out@.len() implies self.is_least(#[trigger] out@[j]) by {
                    if j >= before.len() {
                        let m = j - before.len();
                        assert(from.is_least(pairs@[m].0, (pairs@[m].1, pairs@[m].2)));
                        assert forall|f: Constraint| #[trigger]
                            self.has(f) && f.u == out@[j].u && f.v == out@[j].v implies out@[j].c
                            <= f.c by {
                            assert(from.has(f.v, (f.c, f.priority)));
                        }
                    } else {
                        assert(out@[j] == before[j]);
                    }
                }
                assert forall|j: int, k: int| 0 <= j < k < out@.len() implies !(out@[j].u
                    == out@[k].u && out@[j].v == out@[k].v) by {
                    if k < before.len() {
                        assert(out@[j] == before[j]);
                        assert(out@[k] == before[k]);
                    } else if j < before.len() {
                        assert(out@[j] == before[j]);
                        let m = k - before.len();
                        assert(pairs@[m] == pairs@[m]);
                        assert(out@[before.len() + m].u == *u);
                    } else {
                        assert(pairs@[j - before.len()].0 != pairs@[k - before.len()].0);
                    }
                }
                assert forall|j: int, k: int|
                    0 <= j < out@.len() && idx + 1 <= k < all.len() implies (#[trigger] out@[j]).u
                    != *(#[trigger] all[k]).0 by {
                    if j < before.len() {
                        assert(out@[j] == before[j]);
                    } else {
                        let m = j - before.len();
                        assert(pairs@[m] == pairs@[m]);
                        assert(out@[before.len() + m].u == *u);
                    }
                }
                assert forall|e: Constraint| #[trigger]
                    self.has(e) && (exists|k: int| 0 <= k < idx + 1 && *all[k].0 == e.u) implies exists|
                    j: int,
                | 0 <= j < out@.len() && out@[j].u == e.u && out@[j].v == e.v by {
                    if e.u == *u {
                        assert(from.has(e.v, (e.c, e.priority)));
                        let m = choose|m: int| 0 <= m < pairs@.len() && pairs@[m].0 == e.v;
                        assert(out@[before.len() + m].v == e.v);
                    } else {
                        let k = choose|k: int| 0 <= k < idx + 1 && *all[k].0 == e.u;
                        assert(k != idx);
                        let j = choose|j: int|
                            0 <= j < before.len() && before[j].u == e.u && before[j].v == e.v;
                        assert(out@[j] == before[j]);
                    }
                }
            }
        }
        proof {
            assert forall|e: Constraint| #[trigger] self.has(e) implies exists|j: int|
                0 <= j < out@.len() && out@[j].u == e.u && out@[j].v == e.v by {
                let k = choose|k: int| 0 <= k < all.len() && *all[k].0 == e.u;
            }
        }
        out
    }

    /// Files the constraint under its `u` and `v`.
    fn add(&mut self, constraint: Constraint)
        requires
            old(self).wf(),
        ensures
            final(self).wf(),
            forall|e: Constraint| #[trigger] final(self).has(e) <==> old(self).has(e) || e == constraint,
    {
        let mut from = match self.0.remove(&constraint.u) {
            Some(from) => from,
            None => FromEdges::new(),
        };
        let ghost from0 = from;
        from.add(constraint.v, constraint.c, constraint.priority);
        self.0.insert(constraint.u, from);
        proof {
            assert forall|e: Constraint| #[trigger] self.has(e) <==> old(self).has(e) || e == constraint by {
                if e.u == constraint.u {
                    assert(from.has(e.v, (e.c, e.priority)) <==> from0.has(e.v, (e.c, e.priority))
                        || (e.v == constraint.v && (e.c, e.priority) == (constraint.c, constraint.priority)));
                }
            }
        }
    }

    /// Takes the constraint out, and reports whether it was filed.
    fn remove(&mut self, constraint: Constraint) -> (r: bool)
        requires
            old(self).wf(),
        ensures
            final(self).wf(),
            r == old(self).has(constraint),
            forall|e: Constraint| #[trigger] final(self).has(e) <==> old(self).has(e) && e != constraint,
    {
        match self.0.remove(&constraint.u) {
            None => {
                proof {
                    assert(self.0@ =~= old(self).0@);
                }
                false
            },
            Some(mut from) => {
                let ghost from0 = from;
                let r = from.remove(&constraint.v, constraint.c, constraint.priority);
                self.0.insert(constraint.u, from);
                proof {
                    assert forall|e: Constraint| #[trigger] self.has(e) <==> old(self).has(e) && e != constraint by {
                        if e.u == constraint.u {
                            assert(from.has(e.v, (e.c, e.priority)) <==> from0.has(e.v, (e.c, e.priority))
                                && !(e.v == constraint.v && (e.c, e.priority) == (constraint.c, constraint.priority)));
                        }
                    }
                }
                r
            },
        }
    }
}

/// What the repair search found.
enum Repair {
    /// New values for some variables, under which every constraint holds.
    Fixed(HashMap<VarId, i64>),
    /// A path that closes a negative cycle with the new constraint.
    NegativeCycle,
    /// A value below `i64::MIN` would be needed.
    Overflow,
}

/// What an attempt to add a constraint came to.
#[derive(Clone, Copy, PartialEq, Eq, Structural, Debug)]
pub enum AddOutcome {
    /// The constraint was added.
    Added,
    /// The constraint closes a negative cycle; nothing changed.
    Refused,
    /// Adding it would need a value outside `i64`; nothing changed.
    Overflow,
}

/// A system of difference constraints, seen as a graph with an edge
/// `u -> v` of weight `c` for each constraint `v - u <= c`, together with
/// an assignment that satisfies every constraint of it.
pub struct FeasibleSystem {
    edges: Edges,
    solution: Solution,
}

impl FeasibleSystem {
    /// The constraints of the system.
    pub closed spec fn constraint_set(&self) -> Set<Constraint> {
        Set::new(|e: Constraint| self.edges.has(e))
    }

    /// The assignment kept with the system.
    pub closed spec fn values(&self) -> Map<VarId, i64> {
        self.solution@
    }

    /// The constraint belongs to the system.
    pub open spec fn has_constraint(&self, e: Constraint) -> bool {
        self.constraint_set().contains(e)
    }

    /// The constraint belongs to the system, and no constraint of it between
    /// the same two variables has a smaller bound.
    pub open spec fn is_least_edge(&self, e: Constraint) -> bool {
        &&& self.has_constraint(e)
        &&& forall|f: Constraint| #[trigger]
            self.has_constraint(f) && f.u == e.u && f.v == e.v ==> e.c <= f.c
    }

    /// The queues that hold the constraints are in order.
    pub closed spec fn queues_wf(&self) -> bool {
        self.edges.wf()
    }

    /// Well-formedness: the queues are in order, the variables of each
    /// constraint have values, and the values satisfy the constraints.
    pub open spec fn wf(&self) -> bool {
        &&& self.queues_wf()
        &&& forall|e: Constraint| #[trigger]
            self.has_constraint(e) ==> {
                &&& self.values().contains_key(e.u)
                &&& self.values().contains_key(e.v)
                &&& e.holds_under(self.values())
            }
    }

    /// Fewer than `2^62` variables have values. No process can hold more:
    /// each entry of the map takes 16 bytes of a 64-bit address space.
    pub open spec fn within_memory(&self) -> bool {
        self.values().len() < 0x4000_0000_0000_0000
    }

    /// The assignment gives values exactly to the variables of the
    /// constraints.
    pub closed spec fn values_of_constraints(&self) -> bool {
        forall|x: VarId| #[trigger]
            self.values().contains_key(x) <==> exists|e: Constraint|
                #![trigger self.has_constraint(e)]
                self.has_constraint(e) && (e.u == x || e.v == x)
    }

    /// What `values_of_constraints` says.
    pub proof fn lemma_values_of_constraints(&self)
        ensures
            self.values_of_constraints() <==> forall|x: VarId| #[trigger]
                self.values().contains_key(x) <==> exists|e: Constraint|
                    #![trigger self.has_constraint(e)]
                    self.has_constraint(e) && (e.u == x || e.v == x),
    {
    }

    /// A system with the same constraints and values as one whose values are
    /// those of its constraints has the same property.
    pub proof fn lemma_values_of_constraints_kept(a: Self, b: Self)
        requires
            a.values_of_constraints(),
            b.constraint_set() == a.constraint_set(),
            b.values() == a.values(),
        ensures
            b.values_of_constraints(),
    {
        assert forall|x: VarId| #[trigger] b.values().contains_key(x) <==> exists|e: Constraint|
            #![trigger b.has_constraint(e)]
            b.has_constraint(e) && (e.u == x || e.v == x) by {
            if a.values().contains_key(x) {
                let e = choose|e: Constraint| a.has_constraint(e) && (e.u == x || e.v == x);
                assert(b.has_constraint(e));
            }
            if exists|e: Constraint| b.has_constraint(e) && (e.u == x || e.v == x) {
                let e = choose|e: Constraint| b.has_constraint(e) && (e.u == x || e.v == x);
                assert(a.has_constraint(e));
            }
        }
    }

    /// Adding a constraint and values for its two variables keeps the
    /// values those of the constraints.
    pub proof fn lemma_values_of_constraints_added(a: Self, b: Self, con: Constraint)
        requires
            a.values_of_constraints(),
            b.constraint_set() == a.constraint_set().insert(con),
            b.values().dom() == a.values().dom().insert(con.u).insert(con.v),
        ensures
            b.values_of_constraints(),
    {
        assert forall|x: VarId| #[trigger] b.values().contains_key(x) <==> exists|e: Constraint|
            #![trigger b.has_constraint(e)]
            b.has_constraint(e) && (e.u == x || e.v == x) by {
            if b.values().contains_key(x) {
                if x == con.u || x == con.v {
                    assert(b.has_constraint(con));
                } else {
                    assert(a.values().contains_key(x));
                    let e = choose|e: Constraint| a.has_constraint(e) && (e.u == x || e.v == x);
                    assert(b.has_constraint(e));
                }
            }
            if exists|e: Constraint| b.has_constraint(e) && (e.u == x || e.v == x) {
                let e = choose|e: Constraint| b.has_constraint(e) && (e.u == x || e.v == x);
                if e != con {
                    assert(a.has_constraint(e));
                }
            }
        }
    }

    /// `p` is a path of the system's constraints from `from` to `to`: each
    /// constraint's `u` is the previous one's `v`.
    pub open spec fn is_path(&self, p: Seq<Constraint>, from: VarId, to: VarId) -> bool
        decreases p.len(),
    {
        if p.len() == 0 {
            from == to
        } else {
            &&& self.has_constraint(p.last())
            &&& p.last().v == to
            &&& self.is_path(p.drop_last(), from, p.last().u)
        }
    }

    /// Extending a path by a constraint of the system that starts where it ends.
    pub proof fn lemma_path_push(&self, p: Seq<Constraint>, from: VarId, e: Constraint)
        requires
            self.is_path(p, from, e.u),
            self.has_constraint(e),
        ensures
            self.is_path(p.push(e), from, e.v),
            path_weight(p.push(e)) == path_weight(p) + e.c,
    {
        assert(p.push(e).drop_last() =~= p);
    }

    /// `p` is a path of the system made of constraints of least bound.
    pub open spec fn is_least_path(&self, p: Seq<Constraint>, from: VarId, to: VarId) -> bool {
        &&& self.is_path(p, from, to)
        &&& forall|i: int| 0 <= i < p.len() ==> self.is_least_edge(#[trigger] p[i])
    }

    /// Between the two variables of a constraint of the system there is a
    /// constraint of least bound.
    pub proof fn lemma_least_edge_exists(&self, e: Constraint)
        requires
            self.wf(),
            self.has_constraint(e),
        ensures
            exists|f: Constraint| #[trigger]
                self.is_least_edge(f) && f.u == e.u && f.v == e.v && f.c <= e.c,
    {
        let from = self.edges.0@[e.u];
        let s = from.items()[e.v].dom();
        assert(s.contains((e.c, e.priority)));
        lemma_least_first(s);
        let t = choose|t: (i64, ConstraintPriority)|
            s.contains(t) && forall|t2: (i64, ConstraintPriority)| #[trigger] s.contains(t2) ==> t.0 <= t2.0;
        let f = Constraint { v: e.v, u: e.u, c: t.0, priority: t.1 };
        assert(self.has_constraint(f));
        assert forall|g: Constraint| #[trigger]
            self.has_constraint(g) && g.u == f.u && g.v == f.v implies f.c <= g.c by {
            assert(s.contains((g.c, g.priority)));
        }
        assert(self.is_least_edge(f));
    }

    /// For every path of the system there is one of constraints of least
    /// bound between the same two variables whose weight is no greater.
    pub proof fn lemma_least_path(&self, p: Seq<Constraint>, from: VarId, to: VarId)
        requires
            self.wf(),
            self.is_path(p, from, to),
        ensures
            exists|q: Seq<Constraint>|
                self.is_least_path(q, from, to) && path_weight(q) <= path_weight(p),
        decreases p.len(),
    {
        if p.len() == 0 {
            assert(self.is_least_path(p, from, to));
        } else {
            let e = p.last();
            self.lemma_least_path(p.drop_last(), from, e.u);
            let q0 = choose|q: Seq<Constraint>|
                self.is_least_path(q, from, e.u) && path_weight(q) <= path_weight(p.drop_last());
            self.lemma_least_edge_exists(e);
            let f = choose|f: Constraint|
                self.is_least_edge(f) && f.u == e.u && f.v == e.v && f.c <= e.c;
            self.lemma_path_push(q0, from, f);
            let q = q0.push(f);
            assert forall|i: int| 0 <= i < q.len() implies self.is_least_edge(#[trigger] q[i]) by {
                if i < q0.len() {
                    assert(q[i] == q0[i]);
                }
            }
            assert(self.is_least_path(q, from, to));
        }
    }

    /// The assignment obtained by overriding the kept values with `diff`.
    pub open spec fn repaired(&self, diff: Map<VarId, i64>) -> Map<VarId, i64> {
        self.values().union_prefer_right(diff)
    }

    /// `diff` repairs the kept assignment for the new constraint: with `K` the
    /// value of `u` plus the bound, every changed variable `x` gets a smaller
    /// value, namely `K` plus the weight of some path from `v` to `x`; `u`
    /// keeps its value; and the new assignment satisfies every constraint of
    /// the system and the new one.
    pub open spec fn repairs(&self, constraint: Constraint, diff: Map<VarId, i64>) -> bool {
        let k = value_of(self.values(), constraint.u) + constraint.c;
        &&& !diff.contains_key(constraint.u)
        &&& forall|x: VarId| #[trigger]
            diff.contains_key(x) ==> {
                &&& diff[x] < value_of(self.values(), x)
                &&& exists|p: Seq<Constraint>|
                    self.is_path(p, constraint.v, x) && diff[x] == k + path_weight(p)
            }
        &&& forall|e: Constraint| #[trigger]
            self.has_constraint(e) ==> e.holds_under(self.repaired(diff))
        &&& constraint.holds_under(self.repaired(diff))
    }

    /// The constraint `v - x <= c` with priority `p` for `(v, c, p)`.
    spec fn pair_edge(x: VarId, t: (VarId, i64, ConstraintPriority)) -> Constraint {
        Constraint { v: t.0, u: x, c: t.1, priority: t.2 }
    }

    /// A path from `v` to `y` is on record whose weight corresponds to the
    /// reduced distance `s`.
    spec fn witnessed(
        &self,
        paths: Map<VarId, Seq<Constraint>>,
        v: VarId,
        y: VarId,
        s: int,
    ) -> bool {
        &&& paths.contains_key(y)
        &&& self.is_path(paths[y], v, y)
        &&& path_weight(paths[y]) == s - value_of(self.values(), v) + value_of(self.values(), y)
    }

    /// `y` was settled at a reduced distance of at most `bound`, or waits in
    /// the queue with such a distance.
    spec fn reached(
        popped: Map<VarId, int>,
        q: Map<VarId, (i128, i64)>,
        y: VarId,
        bound: int,
    ) -> bool {
        ||| popped.contains_key(y) && popped[y] <= bound
        ||| q.contains_key(y) && -q[y].0 <= bound
    }

    /// The constraints from `x` to the variables of `handled` lead to
    /// reached variables.
    spec fn out_edges_reached(
        &self,
        popped: Map<VarId, int>,
        q: Map<VarId, (i128, i64)>,
        x: VarId,
        handled: Set<VarId>,
    ) -> bool {
        forall|e: Constraint| #[trigger]
            self.has_constraint(e) && e.u == x && handled.contains(e.v) ==> Self::reached(
                popped,
                q,
                e.v,
                popped[x] + reduced_cost(e, self.values()),
            )
    }

    /// The invariant of the repair search. `current`, when `in_progress`,
    /// is the variable whose constraints are being followed, those to the
    /// variables of `handled` so far.
    spec fn search_inv(
        &self,
        constraint: Constraint,
        q: Map<VarId, (i128, i64)>,
        popped: Map<VarId, int>,
        paths: Map<VarId, Seq<Constraint>>,
        last: int,
        diff: Map<VarId, i64>,
        current: VarId,
        in_progress: bool,
        handled: Set<VarId>,
    ) -> bool {
        let vals = self.values();
        let k = value_of(vals, constraint.u) + constraint.c;
        let delta = value_of(vals, constraint.v) - k;
        let universe = vals.dom().insert(constraint.v);
        &&& 0 <= last
        &&& forall|y: VarId| #[trigger]
            q.contains_key(y) ==> {
                &&& !popped.contains_key(y)
                &&& universe.contains(y)
                &&& last <= -q[y].0 < 6 * 0x8000_0000_0000_0000
                &&& q[y].1 == value_of(vals, y)
                &&& self.witnessed(paths, constraint.v, y, -q[y].0)
            }
        &&& forall|x: VarId| #[trigger]
            popped.contains_key(x) ==> {
                &&& universe.contains(x)
                &&& 0 <= popped[x] <= last
                &&& self.witnessed(paths, constraint.v, x, popped[x])
                &&& (diff.contains_key(x) <==> popped[x] < delta)
            }
        &&& forall|x: VarId| #[trigger]
            diff.contains_key(x) ==> {
                &&& popped.contains_key(x)
                &&& diff[x] == k + popped[x] - value_of(vals, constraint.v) + value_of(vals, x)
                &&& self.out_edges_reached(
                    popped,
                    q,
                    x,
                    if in_progress && x == current {
                        handled
                    } else {
                        Set::full()
                    },
                )
            }
        &&& !diff.contains_key(constraint.u)
        &&& (q.contains_key(constraint.v) && q[constraint.v].0 == 0) || (popped.contains_key(
            constraint.v,
        ) && popped[constraint.v] == 0)
    }


    /// Every value that the repair for the new constraint `v - u <= c` would
    /// give fits `i64`: a variable `x` whose value exceeds `value(u) + c +
    /// weight(p)` for a path `p` from `v` to `x` would get such a value (the
    /// least of them), and none of these is below `i64::MIN`.
    pub open spec fn repair_fits(&self, constraint: Constraint) -> bool {
        let k = value_of(self.values(), constraint.u) + constraint.c;
        forall|x: VarId, p: Seq<Constraint>|
            #[trigger] self.is_path(p, constraint.v, x) && k + path_weight(p) < value_of(
                self.values(),
                x,
            ) ==> i64::MIN <= k + path_weight(p)
    }

    /// Looks for a repair of the kept assignment under which the new
    /// constraint `v - u <= c` holds as well. A Dijkstra search from `v`
    /// over the reduced costs (nonnegative, as the assignment satisfies the
    /// system) visits the variables in the order of their distance from `v`;
    /// each variable `x` whose value exceeds `value(u) + c + dist(v, x)`
    /// gets that value, and the search goes on only past such variables.
    /// Reaching `u` that way means a negative cycle: then there is no
    /// repair, and `None` comes back. The values it gives must fit `i64`.
    pub fn check_and_solve_new_constraint(&self, constraint: &Constraint) -> (r: Option<
        HashMap<VarId, i64>,
    >)
        requires
            self.wf(),
            self.repair_fits(*constraint),
        ensures
            match r {
                Some(diff) => self.repairs(*constraint, diff@),
                None => exists|p: Seq<Constraint>|
                    self.is_path(p, constraint.v, constraint.u) && path_weight(p) + constraint.c
                        < 0,
            },
    {
        match self.repair_search(constraint) {
            Repair::Fixed(diff) => Some(diff),
            Repair::NegativeCycle => None,
            Repair::Overflow => {
                assert(false);
                None
            },
        }
    }

    /// The search of `check_and_solve_new_constraint`, which reports instead
    /// when a value it is about to give is below `i64::MIN`.
    fn repair_search(&self, constraint: &Constraint) -> (r: Repair)
        requires
            self.wf(),
        ensures
            match r {
                Repair::Fixed(diff) => self.repairs(*constraint, diff@),
                Repair::NegativeCycle => exists|p: Seq<Constraint>|
                    self.is_path(p, constraint.v, constraint.u) && path_weight(p) + constraint.c
                        < 0,
                Repair::Overflow => !self.repair_fits(*constraint),
            },
    {
        let ghost vals = self.values();
        let ghost k: int = value_of(vals, constraint.u) + constraint.c;
        let ghost delta: int = value_of(vals, constraint.v) - k;
        let ghost universe = vals.dom().insert(constraint.v);
        let mut sol_diff: HashMap<VarId, i64> = HashMap::new();
        let mut q = search_queue_new();
        let mut visited: HashSet<VarId> = HashSet::new();
        let d_u = self.solution.get_or(&constraint.u, 0);
        let d_v = self.solution.get_or(&constraint.v, 0);
        search_queue_push(&mut q, constraint.v, (0i128, d_v));
        let ghost mut popped: Map<VarId, int> = Map::empty();
        let ghost mut paths: Map<VarId, Seq<Constraint>> = Map::empty().insert(
            constraint.v,
            Seq::empty(),
        );
        let ghost mut last: int = 0;
        proof {
            self.solution.lemma_dom_finite();
            assert(search_queue_items(q) =~= Map::empty().insert(constraint.v, (0i128, d_v)));
            assert(visited@ =~= popped.dom());
        }
        loop
            invariant
                self.wf(),
                vals == self.values(),
                k == value_of(vals, constraint.u) + constraint.c,
                delta == value_of(vals, constraint.v) - k,
                universe == vals.dom().insert(constraint.v),
                universe.finite(),
                d_u == value_of(vals, constraint.u),
                d_v == value_of(vals, constraint.v),
                visited@ == popped.dom(),
                self.search_inv(
                    *constraint,
                    search_queue_items(q),
                    popped,
                    paths,
                    last,
                    sol_diff@,
                    constraint.v,
                    false,
                    Set::empty(),
                ),
            ensures
                search_queue_items(q).dom().is_empty(),
            decreases universe.difference(visited@).len(),
        {
            let ghost q_old = search_queue_items(q);
            let ghost visited_old = visited@;
            let next = search_queue_pop(&mut q);
            match next {
                None => {
                    break ;
                },
                Some(item) => {
                    let (x, key) = item;
                    let (neg, d_x) = key;
                    proof {
                        assert(q_old.contains_key(x));
                        assert forall|y: VarId| #[trigger]
                            search_queue_items(q).contains_key(y) implies -neg <= -search_queue_items(
                                q,
                            )[y].0 by {
                            assert(q_old.contains_key(y));
                            assert(!pair_lt(key, q_old[y]));
                        }
                    }
                    visited.insert(x);
                    proof {
                        popped = popped.insert(x, -neg as int);
                        last = -neg as int;
                        assert(universe.difference(visited@) =~= universe.difference(
                            visited_old,
                        ).remove(x));
                    }
                    let v2x_scaled: i128 = -neg;
                    let v2x_descaled: i128 = v2x_scaled - d_v as i128 + d_x as i128;
                    let new_val: i128 = d_u as i128 + constraint.c as i128 + v2x_descaled;
                    if !(d_x as i128 > new_val) {
                        assert(self.search_inv(
                            *constraint,
                            search_queue_items(q),
                            popped,
                            paths,
                            last,
                            sol_diff@,
                            constraint.v,
                            false,
                            Set::empty(),
                        ));
                        continue ;
                    }
                    if x == constraint.u {
                        return Repair::NegativeCycle;
                    }
                    if new_val < i64::MIN as i128 {
                        proof {
                            assert(self.is_path(paths[x], constraint.v, x));
                        }
                        return Repair::Overflow;
                    }
                    sol_diff.insert(x, new_val as i64);
                    match self.edges.0.get(&x) {
                        None => {
                            proof {
                                assert(self.out_edges_reached(
                                    popped,
                                    search_queue_items(q),
                                    x,
                                    Set::full(),
                                ));
                            }
                        },
                        Some(from) => {
                            let pairs = from.to_pairs();
                            let ghost mut handled: Set<VarId> = Set::empty();
                            proof {
                                assert forall|j: int| 0 <= j < pairs@.len() implies self.is_least_edge(
                                    #[trigger] Self::pair_edge(x, pairs@[j]),
                                ) by {
                                    assert(from.is_least(pairs@[j].0, (pairs@[j].1, pairs@[j].2)));
                                    assert(self.has_constraint(Self::pair_edge(x, pairs@[j])));
                                    assert forall|f: Constraint| #[trigger]
                                        self.has_constraint(f) && f.u == x && f.v == pairs@[j].0
                                        implies pairs@[j].1 <= f.c by {
                                        assert(from.has(f.v, (f.c, f.priority)));
                                    }
                                }
                                assert forall|e: Constraint| #[trigger]
                                    self.has_constraint(e) && e.u == x implies exists|j: int|
                                    0 <= j < pairs@.len() && pairs@[j].0 == e.v by {
                                    assert(from.has(e.v, (e.c, e.priority)));
                                }
                            }
                            let mut i: usize = 0;
                            while i < pairs.len()
                                invariant
                                    self.wf(),
                                    vals == self.values(),
                                    k == value_of(vals, constraint.u) + constraint.c,
                                    delta == value_of(vals, constraint.v) - k,
                                    universe == vals.dom().insert(constraint.v),
                                    d_u == value_of(vals, constraint.u),
                                    d_v == value_of(vals, constraint.v),
                                    visited@ == popped.dom(),
                                    0 <= i <= pairs@.len(),
                                    forall|j: int|
                                        0 <= j < pairs@.len() ==> self.is_least_edge(
                                            #[trigger] Self::pair_edge(x, pairs@[j]),
                                        ),
                                    forall|e: Constraint| #[trigger]
                                        self.has_constraint(e) && e.u == x ==> exists|j: int|
                                            0 <= j < pairs@.len() && pairs@[j].0 == e.v,
                                    handled == Set::new(
                                        |y: VarId| exists|j: int| 0 <= j < i && pairs@[j].0 == y,
                                    ),
                                    popped.contains_key(x),
                                    popped[x] == last,
                                    last == v2x_scaled,
                                    0 <= v2x_scaled < delta,
                                    d_x == value_of(vals, x),
                                    sol_diff@.contains_key(x),
                                    self.search_inv(
                                        *constraint,
                                        search_queue_items(q),
                                        popped,
                                        paths,
                                        last,
                                        sol_diff@,
                                        x,
                                        true,
                                        handled,
                                    ),
                                decreases pairs@.len() - i,
                            {
                                let (y, c, p) = pairs[i];
                                let ghost e = Self::pair_edge(x, pairs@[i as int]);
                                let d_y = self.solution.get_or(&y, 0);
                                proof {
                                    assert(self.is_least_edge(e));
                                    assert(self.has_constraint(e));
                                }
                                let x2y_scaled: i128 = c as i128 + d_x as i128 - d_y as i128;
                                let v2y_scaled: i128 = v2x_scaled + x2y_scaled;
                                let ghost q_start = search_queue_items(q);
                                if !visited.contains(&y) {
                                    let ghost q_before = search_queue_items(q);
                                    let key: (i128, i64) = (-v2y_scaled, d_y);
                                    search_queue_push_increase(&mut q, y, key);
                                    proof {
                                        if !q_before.contains_key(y) || pair_lt(
                                            q_before[y],
                                            key,
                                        ) {
                                            self.lemma_path_push(paths[x], constraint.v, e);
                                            paths = paths.insert(y, paths[x].push(e));
                                        }
                                    }
                                }
                                proof {
                                    let qn = search_queue_items(q);
                                    assert(Self::reached(popped, qn, y, popped[x] + reduced_cost(e, vals)));
                                    assert forall|f: Constraint| #[trigger]
                                        self.has_constraint(f) && f.u == x && f.v == y implies Self::reached(
                                        popped,
                                        qn,
                                        f.v,
                                        popped[x] + reduced_cost(f, vals),
                                    ) by {
                                        assert(e.c <= f.c);
                                    }
                                    handled = handled.insert(y);
                                    assert(handled == Set::new(
                                        |z: VarId| exists|j: int| 0 <= j < i + 1 && pairs@[j].0 == z,
                                    )) by {
                                        assert forall|z: VarId| #[trigger] handled.contains(z) implies exists|j: int|
                                            0 <= j < i + 1 && pairs@[j].0 == z by {
                                            if z == y {
                                                assert(pairs@[i as int].0 == y);
                                            }
                                        }
                                    }
                                }
                                i = i + 1;
                            }
                            proof {
                                assert forall|e: Constraint| #[trigger]
                                    self.has_constraint(e) && e.u == x && Set::<VarId>::full().contains(e.v)
                                    implies Self::reached(
                                    popped,
                                    search_queue_items(q),
                                    e.v,
                                    popped[x] + reduced_cost(e, self.values()),
                                ) by {
                                    let j = choose|j: int| 0 <= j < pairs@.len() && pairs@[j].0 == e.v;
                                    assert(handled.contains(e.v));
                                }
                            }
                        },
                    }
                },
            }
        }
        proof {
            self.lemma_search_done(*constraint, search_queue_items(q), popped, paths, last, sol_diff@);
        }
        Repair::Fixed(sol_diff)
    }


    /// When the search queue runs empty, the values collected repair the
    /// assignment.
    proof fn lemma_search_done(
        &self,
        constraint: Constraint,
        q: Map<VarId, (i128, i64)>,
        popped: Map<VarId, int>,
        paths: Map<VarId, Seq<Constraint>>,
        last: int,
        diff: Map<VarId, i64>,
    )
        requires
            self.wf(),
            q.dom().is_empty(),
            self.search_inv(constraint, q, popped, paths, last, diff, constraint.v, false, Set::empty()),
        ensures
            self.repairs(constraint, diff),
    {
        let vals = self.values();
        let k = value_of(vals, constraint.u) + constraint.c;
        let new_vals = self.repaired(diff);
        assert forall|x: VarId| #[trigger] diff.contains_key(x) implies {
            &&& diff[x] < value_of(self.values(), x)
            &&& exists|p: Seq<Constraint>|
                self.is_path(p, constraint.v, x) && diff[x] == k + path_weight(p)
        } by {
            assert(popped.contains_key(x));
            assert(self.is_path(paths[x], constraint.v, x));
        }
        assert forall|e: Constraint| #[trigger] self.has_constraint(e) implies e.holds_under(
            new_vals,
        ) by {
            let x = e.u;
            let y = e.v;
            if diff.contains_key(x) {
                assert(self.out_edges_reached(popped, q, x, Set::full()));
                assert(Set::<VarId>::full().contains(y));
                assert(!q.contains_key(y));
                assert(popped.contains_key(y));
            } else {
                assert(value_of(new_vals, x) == value_of(vals, x));
                if diff.contains_key(y) {
                    assert(popped.contains_key(y));
                }
            }
        }
        if diff.contains_key(constraint.v) {
        } else {
            assert(!q.contains_key(constraint.v));
        }
    }


    /// The constraints of a system that the assignment `m` satisfies all hold.
    pub open spec fn all_hold_under(&self, m: Map<VarId, i64>) -> bool {
        forall|e: Constraint| #[trigger] self.has_constraint(e) ==> e.holds_under(m)
    }

    /// Along a path of constraints that all hold under `m`, the value of the
    /// end exceeds the value of the start by at most the path's weight.
    pub proof fn lemma_path_bounds_difference(
        &self,
        p: Seq<Constraint>,
        from: VarId,
        to: VarId,
        m: Map<VarId, i64>,
    )
        requires
            self.is_path(p, from, to),
            self.all_hold_under(m),
        ensures
            value_of(m, to) - value_of(m, from) <= path_weight(p),
        decreases p.len(),
    {
        if p.len() > 0 {
            self.lemma_path_bounds_difference(p.drop_last(), from, p.last().u, m);
        }
    }

    /// There is a path from `v` to `u` that closes a negative cycle with the
    /// constraint `v - u <= c`.
    pub open spec fn closes_negative_cycle(&self, constraint: Constraint) -> bool {
        exists|p: Seq<Constraint>|
            self.is_path(p, constraint.v, constraint.u) && path_weight(p) + constraint.c < 0
    }

    /// A constraint that closes a negative cycle cannot hold together with
    /// the system: no assignment satisfies both.
    pub proof fn lemma_negative_cycle_unsatisfiable(
        &self,
        constraint: Constraint,
        m: Map<VarId, i64>,
    )
        requires
            self.closes_negative_cycle(constraint),
        ensures
            !(self.all_hold_under(m) && constraint.holds_under(m)),
    {
        if self.all_hold_under(m) {
            let p = choose|p: Seq<Constraint>|
                self.is_path(p, constraint.v, constraint.u) && path_weight(p) + constraint.c < 0;
            self.lemma_path_bounds_difference(p, constraint.v, constraint.u, m);
        }
    }

    /// Adding the constraint needs no value outside `i64`: a variable
    /// without a value gets `value(u) + c` or `value(v) - c`, and a repair
    /// gives values that fit (see `repair_fits`).
    pub open spec fn add_fits(&self, constraint: Constraint) -> bool {
        let m = self.values();
        &&& !m.contains_key(constraint.v) && m.contains_key(constraint.u) ==> i64::MIN
            <= constraint.c + m[constraint.u] <= i64::MAX
        &&& m.contains_key(constraint.v) && !m.contains_key(constraint.u) ==> i64::MIN
            <= m[constraint.v] - constraint.c <= i64::MAX
        &&& m.contains_key(constraint.v) && m.contains_key(constraint.u) ==> self.repair_fits(
            constraint,
        )
    }

    /// Every value of the kept assignment lies within `[-b, b]`.
    pub open spec fn values_within(&self, b: int) -> bool {
        values_within(self.values(), b)
    }

    /// Finitely many variables have values.
    pub proof fn lemma_values_finite(&self)
        ensures
            self.values().dom().finite(),
    {
        self.solution.lemma_dom_finite();
    }

    /// The bounds of the system's constraints lie within `[-m, m]`.
    pub open spec fn bounds_within(&self, m: int) -> bool {
        forall|e: Constraint| #[trigger] self.has_constraint(e) ==> -m <= e.c <= m
    }

    /// With the bounds of the system within `[-m, m]`, every path weighs at
    /// least `-m` times the number of variables with values.
    pub proof fn lemma_path_weight_floor(&self, p: Seq<Constraint>, from: VarId, to: VarId, m: int)
        requires
            self.wf(),
            self.bounds_within(m),
            0 <= m,
            self.is_path(p, from, to),
        ensures
            path_weight(p) >= -m * self.values().dom().len(),
    {
        self.lemma_short_path(p, from, to);
        let q = choose|q: Seq<Constraint>|
            self.is_path(q, from, to) && path_weight(q) <= path_weight(p) && q.len()
                <= self.values().dom().len();
        self.lemma_path_by_index(q, from, to);
        assert forall|i: int| 0 <= i < q.len() implies #[trigger] q[i].c >= -m by {
            assert(self.has_constraint(q[i]));
        }
        lemma_path_weight_at_least(q, m);
        let n = self.values().dom().len() as int;
        let l = q.len() as int;
        assert(-m * l >= -m * n) by (nonlinear_arith)
            requires
                0 <= m,
                l <= n,
        ;
    }

    /// With the kept values within `[-b, b]`, the bounds of the system and
    /// the new one within `[-m, m]`, and `n` variables with values, adding
    /// the constraint needs no value outside `[-(b + m(n + 1)), b + m(n +
    /// 1)]`: it fits `i64` when that range does.
    pub proof fn lemma_add_fits_within(&self, constraint: Constraint, b: int, m: int)
        requires
            self.wf(),
            self.values_within(b),
            self.bounds_within(m),
            0 <= b,
            0 <= m,
            -m <= constraint.c <= m,
            b + m * (self.values().dom().len() + 1) <= i64::MAX,
        ensures
            self.add_fits(constraint),
    {
        let vals = self.values();
        let n = vals.dom().len() as int;
        assert(m * (n + 1) == m * n + m && m * n >= 0 && -m * n == -(m * n)) by (nonlinear_arith)
            requires
                0 <= m,
                0 <= n,
        ;
        let k = value_of(vals, constraint.u) + constraint.c;
        assert forall|x: VarId, p: Seq<Constraint>|
            #[trigger] self.is_path(p, constraint.v, x) && k + path_weight(p) < value_of(vals, x)
            implies i64::MIN <= k + path_weight(p) by {
            self.lemma_path_weight_floor(p, constraint.v, x, m);
        }
    }

    /// Under the conditions of `lemma_add_fits_within`, the assignment that
    /// adding the constraint leaves, whether it gives values to missing
    /// variables or repairs, lies within `[-(b + m(n + 1)), b + m(n + 1)]`.
    pub proof fn lemma_added_within(&self, constraint: Constraint, b: int, m: int, after: Map<VarId, i64>)
        requires
            self.wf(),
            self.values_within(b),
            self.bounds_within(m),
            0 <= b,
            0 <= m,
            -m <= constraint.c <= m,
            after == with_missing_vars(self.values(), constraint) || exists|diff: Map<VarId, i64>|
                self.repairs(constraint, diff) && after == self.repaired(diff),
        ensures
            values_within(after, b + m * (self.values().dom().len() + 1)),
    {
        let vals = self.values();
        let n = vals.dom().len() as int;
        assert(m * (n + 1) == m * n + m && m * n >= 0 && -m * n == -(m * n)) by (nonlinear_arith)
            requires
                0 <= m,
                0 <= n,
        ;
        if after == with_missing_vars(vals, constraint) {
        } else {
            let diff = choose|diff: Map<VarId, i64>|
                self.repairs(constraint, diff) && after == self.repaired(diff);
            let k = value_of(vals, constraint.u) + constraint.c;
            assert forall|x: VarId| #[trigger] after.contains_key(x) implies -(b + m * (n + 1)) <= after[x]
                <= b + m * (n + 1) by {
                if diff.contains_key(x) {
                    let p = choose|p: Seq<Constraint>|
                        self.is_path(p, constraint.v, x) && diff[x] == k + path_weight(p);
                    self.lemma_path_weight_floor(p, constraint.v, x, m);
                }
            }
        }
    }

    /// Adds the constraint when the system stays satisfiable with it, and
    /// reports whether it did. Variables of the constraint without a value
    /// get one under which it holds; when both have values that break it,
    /// the assignment is repaired (see `check_and_solve_new_constraint`).
    /// The constraint is refused exactly when it closes a negative cycle;
    /// the system is then left as it was. A constraint `x - x <= c` is
    /// added when `c` is not negative (`x` gets 0 when it has no value) and
    /// refused otherwise; one with `c < 0` on a variable without a value is
    /// not admitted, as no assignment satisfies it. The values it gives must
    /// fit `i64`.
    pub fn attempt_add_constraint(&mut self, constraint: Constraint) -> (r: bool)
        requires
            old(self).wf(),
            constraint.u == constraint.v && constraint.c < 0 ==> old(self).values().contains_key(
                constraint.u,
            ),
            old(self).add_fits(constraint),
        ensures
            final(self).wf(),
            r == !old(self).closes_negative_cycle(constraint),
            r ==> final(self).constraint_set() == old(self).constraint_set().insert(constraint),
            r && constraint.satisfied_by(old(self).values()) ==> final(self).values()
                == with_missing_vars(old(self).values(), constraint),
            r && !constraint.satisfied_by(old(self).values()) ==> exists|diff: Map<VarId, i64>|
                old(self).repairs(constraint, diff) && final(self).values() == old(self).repaired(diff),
            !r ==> final(self).constraint_set() == old(self).constraint_set() && final(self).values()
                == old(self).values(),
    {
        match self.try_add_constraint(constraint) {
            AddOutcome::Added => true,
            AddOutcome::Refused => false,
            AddOutcome::Overflow => {
                assert(false);
                false
            },
        }
    }

    /// Does what `attempt_add_constraint` does, and where that would need a
    /// value outside `i64` leaves the system as it is and reports
    /// `Overflow` instead.
    pub fn try_add_constraint(&mut self, constraint: Constraint) -> (r: AddOutcome)
        requires
            old(self).wf(),
            constraint.u == constraint.v && constraint.c < 0 ==> old(self).values().contains_key(
                constraint.u,
            ),
        ensures
            final(self).wf(),
            r == AddOutcome::Overflow ==> !old(self).add_fits(constraint),
            old(self).add_fits(constraint) ==> r != AddOutcome::Overflow,
            r != AddOutcome::Overflow ==> (r == AddOutcome::Added <==> !old(self).closes_negative_cycle(
                constraint,
            )),
            r == AddOutcome::Added ==> final(self).constraint_set() == old(self).constraint_set().insert(
                constraint,
            ),
            r == AddOutcome::Added && constraint.satisfied_by(old(self).values())
                ==> final(self).values() == with_missing_vars(old(self).values(), constraint),
            r == AddOutcome::Added && !constraint.satisfied_by(old(self).values())
                ==> exists|diff: Map<VarId, i64>|
                old(self).repairs(constraint, diff) && final(self).values() == old(self).repaired(diff),
            r == AddOutcome::Added ==> final(self).values().dom() == old(self).values().dom().insert(
                constraint.u,
            ).insert(constraint.v),
            r != AddOutcome::Added ==> final(self).constraint_set() == old(self).constraint_set()
                && final(self).values() == old(self).values(),
    {
        let ghost old_self = *self;
        if constraint.u == constraint.v {
            // `x - x <= c` holds exactly when `c` is not negative.
            proof {
                let x = constraint.u;
                assert(old_self.is_path(Seq::<Constraint>::empty(), x, x));
                assert forall|p: Seq<Constraint>| #[trigger] old_self.is_path(p, x, x) implies path_weight(p) >= 0 by {
                    old_self.lemma_path_bounds_difference(p, x, x, old_self.values());
                }
            }
            if constraint.c < 0 {
                return AddOutcome::Refused;
            }
            self.solution.add_var_if_missing(constraint.u);
            self.edges.add(constraint);
            proof {
                assert forall|e: Constraint| #[trigger] old_self.has_constraint(e) implies e.holds_under(
                    self.values(),
                ) by {
                    assert(e.holds_under(old_self.values()));
                }
                assert(old_self.all_hold_under(self.values()));
                Self::lemma_add_edge_wf(old_self, *self, constraint);
                assert(with_missing_vars(old_self.values(), constraint) =~= self.values());
                assert(self.values().dom() =~= old_self.values().dom().insert(constraint.u).insert(
                    constraint.v,
                ));
            }
            return AddOutcome::Added;
        }
        match (self.solution.get(&constraint.v), self.solution.get(&constraint.u)) {
            (None, Some(d_u)) => {
                let sum: i128 = constraint.c as i128 + *d_u as i128;
                if sum < i64::MIN as i128 || sum > i64::MAX as i128 {
                    return AddOutcome::Overflow;
                }
            },
            (Some(d_v), None) => {
                let diff: i128 = *d_v as i128 - constraint.c as i128;
                if diff < i64::MIN as i128 || diff > i64::MAX as i128 {
                    return AddOutcome::Overflow;
                }
            },
            _ => {},
        }
        if self.solution.check_constraint_and_add_vars_if_missing(&constraint) {
            self.edges.add(constraint);
            proof {
                assert(self.values().dom() =~= old_self.values().dom().insert(constraint.u).insert(
                    constraint.v,
                ));
                assert(old_self.all_hold_under(self.values()));
                Self::lemma_add_edge_wf(old_self, *self, constraint);
                if old_self.closes_negative_cycle(constraint) {
                    old_self.lemma_negative_cycle_unsatisfiable(constraint, self.values());
                }
            }
            return AddOutcome::Added;
        }
        assert(self.values() =~= old_self.values());
        proof {
            Self::lemma_same_content(old_self, *self);
            Self::lemma_same_content_repairs(old_self, *self);
        }
        match self.repair_search(&constraint) {
            Repair::Fixed(diff) => {
                let ghost d = diff@;
                self.edges.add(constraint);
                self.solution.batch_update(diff);
                proof {
                    assert(self.values() == old_self.repaired(d));
                    assert(old_self.repairs(constraint, d));
                    assert forall|x: VarId| d.contains_key(x) implies #[trigger] old_self.values().contains_key(x) by {
                        let p = choose|p: Seq<Constraint>|
                            old_self.is_path(p, constraint.v, x) && d[x] == value_of(old_self.values(), constraint.u)
                                + constraint.c + path_weight(p);
                        if p.len() > 0 {
                            old_self.lemma_path_ends_assigned(p, constraint.v, x);
                        }
                    }
                    assert(self.values().dom() =~= old_self.values().dom().insert(constraint.u).insert(
                        constraint.v,
                    ));
                    assert(old_self.all_hold_under(self.values()));
                    Self::lemma_add_edge_wf(old_self, *self, constraint);
                    if old_self.closes_negative_cycle(constraint) {
                        old_self.lemma_negative_cycle_unsatisfiable(constraint, self.values());
                    }
                }
                AddOutcome::Added
            },
            Repair::NegativeCycle => AddOutcome::Refused,
            Repair::Overflow => AddOutcome::Overflow,
        }
    }

    /// Two systems with the same constraints and values agree on what
    /// holds, bounds, paths, negative cycles and repairs.
    proof fn lemma_same_content(a: Self, b: Self)
        requires
            a.constraint_set() == b.constraint_set(),
            a.values() == b.values(),
        ensures
                        a.queues_wf() == b.queues_wf() ==> a.wf() == b.wf(),
            forall|e: Constraint| #[trigger] a.has_constraint(e) == b.has_constraint(e),
            forall|p: Seq<Constraint>, x: VarId, y: VarId| #[trigger]
                a.is_path(p, x, y) == b.is_path(p, x, y),
    {
        Self::lemma_same_paths_pub(a, b);
        if a.queues_wf() == b.queues_wf() {
            if a.wf() {
                assert forall|e: Constraint| #[trigger] b.has_constraint(e) implies {
                    &&& b.values().contains_key(e.u)
                    &&& b.values().contains_key(e.v)
                    &&& e.holds_under(b.values())
                } by {
                    assert(a.has_constraint(e));
                }
            }
            if b.wf() {
                assert forall|e: Constraint| #[trigger] a.has_constraint(e) implies {
                    &&& a.values().contains_key(e.u)
                    &&& a.values().contains_key(e.v)
                    &&& e.holds_under(a.values())
                } by {
                    assert(b.has_constraint(e));
                }
            }
        }
    }

    /// Two systems with the same constraints and values agree on negative
    /// cycles and repairs.
    proof fn lemma_same_content_repairs(a: Self, b: Self)
        requires
            a.constraint_set() == b.constraint_set(),
            a.values() == b.values(),
        ensures
            forall|c: Constraint| #[trigger]
                a.closes_negative_cycle(c) == b.closes_negative_cycle(c),
            forall|c: Constraint, d: Map<VarId, i64>| #[trigger]
                a.repairs(c, d) == b.repairs(c, d),
            forall|c: Constraint| #[trigger] a.repair_fits(c) == b.repair_fits(c),
    {
        Self::lemma_same_content(a, b);
        assert forall|c: Constraint| #[trigger] a.repair_fits(c) == b.repair_fits(c) by {
            if a.repair_fits(c) {
                assert forall|x: VarId, p: Seq<Constraint>|
                    #[trigger] b.is_path(p, c.v, x) && value_of(b.values(), c.u) + c.c + path_weight(p)
                        < value_of(b.values(), x) implies i64::MIN <= value_of(b.values(), c.u) + c.c
                    + path_weight(p) by {
                    assert(a.is_path(p, c.v, x));
                }
            }
            if b.repair_fits(c) {
                assert forall|x: VarId, p: Seq<Constraint>|
                    #[trigger] a.is_path(p, c.v, x) && value_of(a.values(), c.u) + c.c + path_weight(p)
                        < value_of(a.values(), x) implies i64::MIN <= value_of(a.values(), c.u) + c.c
                    + path_weight(p) by {
                    assert(b.is_path(p, c.v, x));
                }
            }
        }
        assert forall|c: Constraint, d: Map<VarId, i64>| #[trigger]
            a.repairs(c, d) == b.repairs(c, d) by {
            assert(a.repaired(d) == b.repaired(d));
            if a.repairs(c, d) {
                assert forall|e: Constraint| #[trigger] b.has_constraint(e) implies e.holds_under(
                    b.repaired(d),
                ) by {
                    assert(a.has_constraint(e));
                }
                assert forall|x: VarId| #[trigger] d.contains_key(x) implies exists|p: Seq<Constraint>|
                    b.is_path(p, c.v, x) && d[x] == value_of(b.values(), c.u) + c.c + path_weight(p) by {
                    let p = choose|p: Seq<Constraint>|
                        a.is_path(p, c.v, x) && d[x] == value_of(a.values(), c.u) + c.c + path_weight(p);
                    assert(b.is_path(p, c.v, x));
                }
            }
            if b.repairs(c, d) {
                assert forall|e: Constraint| #[trigger] a.has_constraint(e) implies e.holds_under(
                    a.repaired(d),
                ) by {
                    assert(b.has_constraint(e));
                }
                assert forall|x: VarId| #[trigger] d.contains_key(x) implies exists|p: Seq<Constraint>|
                    a.is_path(p, c.v, x) && d[x] == value_of(a.values(), c.u) + c.c + path_weight(p) by {
                    let p = choose|p: Seq<Constraint>|
                        b.is_path(p, c.v, x) && d[x] == value_of(b.values(), c.u) + c.c + path_weight(p);
                    assert(a.is_path(p, c.v, x));
                }
            }
        }
        assert forall|c: Constraint| #[trigger]
            a.closes_negative_cycle(c) == b.closes_negative_cycle(c) by {
            if a.closes_negative_cycle(c) {
                let p = choose|p: Seq<Constraint>|
                    a.is_path(p, c.v, c.u) && path_weight(p) + c.c < 0;
                assert(b.is_path(p, c.v, c.u));
            }
            if b.closes_negative_cycle(c) {
                let p = choose|p: Seq<Constraint>|
                    b.is_path(p, c.v, c.u) && path_weight(p) + c.c < 0;
                assert(a.is_path(p, c.v, c.u));
            }
        }
    }

    /// Two systems with the same constraints have the same paths.
    pub proof fn lemma_same_paths_pub(a: Self, b: Self)
        requires
            a.constraint_set() == b.constraint_set(),
        ensures
            forall|p: Seq<Constraint>, x: VarId, y: VarId| #[trigger]
                a.is_path(p, x, y) == b.is_path(p, x, y),
    {
        assert forall|p: Seq<Constraint>, x: VarId, y: VarId| #[trigger]
            a.is_path(p, x, y) == b.is_path(p, x, y) by {
            Self::lemma_same_paths(a, b, p, x, y);
        }
    }

    proof fn lemma_same_paths(a: Self, b: Self, p: Seq<Constraint>, x: VarId, y: VarId)
        requires
            a.constraint_set() == b.constraint_set(),
        ensures
            a.is_path(p, x, y) == b.is_path(p, x, y),
        decreases p.len(),
    {
        if p.len() > 0 {
            Self::lemma_same_paths(a, b, p.drop_last(), x, p.last().u);
        }
    }

    /// Adding a constraint that holds, together with all the old ones, under
    /// the new assignment keeps the system well-formed.
    proof fn lemma_add_edge_wf(old_sys: Self, new_sys: Self, constraint: Constraint)
        requires
            old_sys.wf(),
            new_sys.queues_wf(),
            forall|e: Constraint| #[trigger]
                new_sys.edges.has(e) <==> old_sys.edges.has(e) || e == constraint,
            old_sys.values().dom().subset_of(new_sys.values().dom()),
            new_sys.values().contains_key(constraint.u),
            new_sys.values().contains_key(constraint.v),
            old_sys.all_hold_under(new_sys.values()),
            constraint.holds_under(new_sys.values()),
        ensures
            new_sys.wf(),
            new_sys.constraint_set() == old_sys.constraint_set().insert(constraint),
    {
        assert(new_sys.constraint_set() =~= old_sys.constraint_set().insert(constraint));
        assert forall|e: Constraint| #[trigger] new_sys.has_constraint(e) implies {
            &&& new_sys.values().contains_key(e.u)
            &&& new_sys.values().contains_key(e.v)
            &&& e.holds_under(new_sys.values())
        } by {
            if e != constraint {
                assert(old_sys.has_constraint(e));
            }
        }
    }

    /// The constraints of the system that matter: for each pair of
    /// variables that has any, one of least bound (the others follow from
    /// it), each pair once, in no particular order.
    pub fn constraints(&self) -> (r: Vec<Constraint>)
        requires
            self.wf(),
        ensures
            forall|j: int| 0 <= j < r@.len() ==> self.is_least_edge(#[trigger] r@[j]),
            forall|j: int, k: int|
                0 <= j < k < r@.len() ==> !(r@[j].u == r@[k].u && r@[j].v == r@[k].v),
            forall|e: Constraint| #[trigger]
                self.has_constraint(e) ==> exists|j: int|
                    0 <= j < r@.len() && r@[j].u == e.u && r@[j].v == e.v,
    {
        let r = self.edges.to_constraints();
        proof {
            assert forall|j: int| 0 <= j < r@.len() implies self.is_least_edge(#[trigger] r@[j]) by {
                assert(self.edges.is_least(r@[j]));
                assert forall|f: Constraint| #[trigger]
                    self.has_constraint(f) && f.u == r@[j].u && f.v == r@[j].v implies r@[j].c <= f.c by {
                    assert(self.edges.has(f));
                }
            }
            assert forall|e: Constraint| #[trigger] self.has_constraint(e) implies exists|j: int|
                0 <= j < r@.len() && r@[j].u == e.u && r@[j].v == e.v by {
                assert(self.edges.has(e));
            }
        }
        r
    }

    /// Whether the assignment satisfies every constraint of the system (a
    /// constraint with an unassigned variable counts as satisfied).
    pub fn check_solution(&self, sol: &Solution) -> (r: bool)
        requires
            self.wf(),
        ensures
            r == (forall|e: Constraint| #[trigger] self.has_constraint(e) ==> e.satisfied_by(sol@)),
    {
        let all = self.constraints();
        let mut i: usize = 0;
        while i < all.len()
            invariant
                0 <= i <= all@.len(),
                forall|j: int| 0 <= j < all@.len() ==> self.is_least_edge(#[trigger] all@[j]),
                forall|j: int| 0 <= j < i ==> (#[trigger] all@[j]).satisfied_by(sol@),
            decreases all@.len() - i,
        {
            if !sol.check_constraint(&all[i]) {
                assert(self.is_least_edge(all@[i as int]));
                return false;
            }
            i = i + 1;
        }
        proof {
            assert forall|e: Constraint| #[trigger] self.has_constraint(e) implies e.satisfied_by(sol@) by {
                let j = choose|j: int| 0 <= j < all@.len() && all@[j].u == e.u && all@[j].v == e.v;
                assert(all@[j].satisfied_by(sol@));
                assert(self.is_least_edge(all@[j]));
            }
        }
        true
    }

    /// Takes the constraint out of the system, and reports whether it was
    /// there. The assignment stays as it is.
    pub fn remove_constraint(&mut self, constraint_to_remove: Constraint) -> (r: bool)
        requires
            old(self).wf(),
        ensures
            final(self).wf(),
            final(self).values() == old(self).values(),
            r == old(self).has_constraint(constraint_to_remove),
            final(self).constraint_set() == old(self).constraint_set().remove(constraint_to_remove),
    {
        let r = self.edges.remove(constraint_to_remove);
        proof {
            assert(self.constraint_set() =~= old(self).constraint_set().remove(constraint_to_remove));
            assert forall|e: Constraint| #[trigger] self.has_constraint(e) implies {
                &&& self.values().contains_key(e.u)
                &&& self.values().contains_key(e.v)
                &&& e.holds_under(self.values())
            } by {
                assert(old(self).has_constraint(e));
            }
        }
        r
    }

    /// Takes each of the constraints out in turn, and reports whether any
    /// was in the system.
    pub fn remove_constraints(&mut self, constraints: Vec<Constraint>) -> (r: bool)
        requires
            old(self).wf(),
        ensures
            final(self).wf(),
            final(self).values() == old(self).values(),
            r == exists|i: int|
                0 <= i < constraints@.len() && old(self).has_constraint(#[trigger] constraints@[i]),
            final(self).constraint_set() == old(self).constraint_set().difference(
                constraints@.to_set(),
            ),
    {
        let ghost old_self = *self;
        let mut any_removed = false;
        let mut i: usize = 0;
        while i < constraints.len()
            invariant
                0 <= i <= constraints@.len(),
                self.wf(),
                self.values() == old_self.values(),
                any_removed == exists|k: int|
                    0 <= k < i && old_self.has_constraint(#[trigger] constraints@[k]),
                self.constraint_set() == old_self.constraint_set().difference(
                    constraints@.take(i as int).to_set(),
                ),
            decreases constraints@.len() - i,
        {
            let ghost before = *self;
            let removed = self.remove_constraint(constraints[i]);
            proof {
                let c = constraints@[i as int];
                let t0 = constraints@.take(i as int);
                let t1 = constraints@.take(i + 1);
                assert(t1 == t0.push(c));
                assert(t1.to_set() =~= t0.to_set().insert(c)) by {
                    assert forall|x: Constraint| #[trigger] t1.to_set().contains(x)
                        implies t0.to_set().contains(x) || x == c by {
                        let j = choose|j: int| 0 <= j < t1.len() && t1[j] == x;
                        if j < i {
                            assert(t0[j] == x);
                        }
                    }
                    assert forall|x: Constraint| t0.to_set().contains(x)
                        implies #[trigger] t1.to_set().contains(x) by {
                        let j = choose|j: int| 0 <= j < t0.len() && t0[j] == x;
                        assert(t1[j] == x);
                    }
                    assert(t1[i as int] == c);
                }
                assert(self.constraint_set() =~= old_self.constraint_set().difference(
                    constraints@.take(i + 1).to_set(),
                ));
                if removed {
                    assert(old_self.has_constraint(c));
                }
                if old_self.has_constraint(c) && !any_removed {
                    assert(!t0.to_set().contains(c)) by {
                        if t0.to_set().contains(c) {
                            let j = choose|j: int| 0 <= j < t0.len() && t0[j] == c;
                            assert(constraints@[j] == c);
                        }
                    }
                }
            }
            any_removed = any_removed || removed;
            i = i + 1;
        }
        proof {
            assert(constraints@.take(constraints@.len() as int) == constraints@);
        }
        any_removed
    }


    /// A constraint of least bound leads from `x` to `y` with reduced cost `w`.
    pub open spec fn is_least_step(&self, x: VarId, y: VarId, w: int) -> bool {
        exists|e: Constraint|
            self.is_least_edge(e) && e.u == x && e.v == y && w == reduced_cost(e, self.values())
    }

    /// The successors of `node`, each once and in no particular order: the
    /// `v` of a constraint of least bound among those from `node` to `v`,
    /// with its reduced cost (nonnegative, as the assignment satisfies the
    /// system).
    pub fn scaled_succesors(&self, node: &VarId) -> (r: Vec<(VarId, i128)>)
        requires
            self.wf(),
        ensures
            forall|j: int|
                0 <= j < r@.len() ==> self.is_least_step(*node, (#[trigger] r@[j]).0, r@[j].1 as int),
            forall|j: int| 0 <= j < r@.len() ==> 0 <= (#[trigger] r@[j]).1 <= 3 * 0x8000_0000_0000_0000,
            forall|j: int, k: int| 0 <= j < k < r@.len() ==> r@[j].0 != r@[k].0,
            forall|e: Constraint| #[trigger]
                self.has_constraint(e) && e.u == *node ==> exists|j: int|
                    0 <= j < r@.len() && r@[j].0 == e.v,
    {
        let mut out: Vec<(VarId, i128)> = Vec::new();
        match self.edges.0.get(node) {
            None => {},
            Some(from) => {
                let pairs = from.to_pairs();
                let d_node = self.solution.get_or(node, 0);
                for i in 0..pairs.len()
                    invariant
                        self.wf(),
                        self.edges.0@.contains_key(*node),
                        self.edges.0@[*node] == *from,
                        d_node == value_of(self.values(), *node),
                        forall|j: int|
                            0 <= j < pairs@.len() ==> from.is_least(
                                #[trigger] pairs@[j].0,
                                (pairs@[j].1, pairs@[j].2),
                            ),
                        forall|j: int, k: int| 0 <= j < k < pairs@.len() ==> pairs@[j].0 != pairs@[k].0,
                        out@.len() == i,
                        forall|j: int|
                            0 <= j < i ==> (#[trigger] out@[j]).0 == pairs@[j].0 && out@[j].1
                                == reduced_cost(Self::pair_edge(*node, pairs@[j]), self.values()),
                        forall|j: int| 0 <= j < out@.len() ==> 0 <= (#[trigger] out@[j]).1 <= 3
                            * 0x8000_0000_0000_0000,
                {
                    let (y, w, _) = pairs[i];
                    let ghost e = Self::pair_edge(*node, pairs@[i as int]);
                    proof {
                        assert(from.has(y, (w, pairs@[i as int].2)));
                        assert(self.has_constraint(e));
                        assert(self.values().contains_key(e.v));
                    }
                    let d_y = self.solution.get_or(&y, 0);
                    out.push((y, d_node as i128 + w as i128 - d_y as i128));
                }
                proof {
                    assert forall|j: int| 0 <= j < out@.len() implies self.is_least_step(
                        *node,
                        (#[trigger] out@[j]).0,
                        out@[j].1 as int,
                    ) by {
                        let e = Self::pair_edge(*node, pairs@[j]);
                        assert(from.is_least(pairs@[j].0, (pairs@[j].1, pairs@[j].2)));
                        assert forall|f: Constraint| #[trigger]
                            self.has_constraint(f) && f.u == e.u && f.v == e.v implies e.c <= f.c by {
                            assert(from.has(f.v, (f.c, f.priority)));
                        }
                        assert(self.is_least_edge(e));
                    }
                    assert forall|e: Constraint| #[trigger]
                        self.has_constraint(e) && e.u == *node implies exists|j: int|
                        0 <= j < out@.len() && out@[j].0 == e.v by {
                        assert(from.has(e.v, (e.c, e.priority)));
                        let j = choose|j: int| 0 <= j < pairs@.len() && pairs@[j].0 == e.v;
                        assert(out@[j].0 == e.v);
                    }
                }
            },
        }
        out
    }

    /// Along a path, the reduced costs add up to the weight corrected by the
    /// values of the two ends.
    pub proof fn lemma_reduced_weight(&self, p: Seq<Constraint>, from: VarId, to: VarId)
        requires
            self.is_path(p, from, to),
        ensures
            reduced_weight(p, self.values()) == path_weight(p) + value_of(self.values(), from)
                - value_of(self.values(), to),
        decreases p.len(),
    {
        if p.len() > 0 {
            self.lemma_reduced_weight(p.drop_last(), from, p.last().u);
        }
    }

    /// `w` is the least weight of a path from `from` to `to`, and some path has it.
    pub open spec fn shortest_path_weight_is(&self, from: VarId, to: VarId, w: int) -> bool {
        &&& exists|p: Seq<Constraint>| self.is_path(p, from, to) && path_weight(p) == w
        &&& forall|p: Seq<Constraint>| self.is_path(p, from, to) ==> path_weight(p) >= w
    }

    /// The least weight of a path between two variables is one number: so
    /// `get_implied_lb(x, y)` is the negation of `get_implied_ub(y, x)`, both
    /// speaking of the least weight of a path from `x` to `y`.
    pub proof fn lemma_shortest_weight_unique(&self, from: VarId, to: VarId, w1: int, w2: int)
        requires
            self.shortest_path_weight_is(from, to, w1),
            self.shortest_path_weight_is(from, to, w2),
        ensures
            w1 == w2,
    {
        let p1 = choose|p: Seq<Constraint>| self.is_path(p, from, to) && path_weight(p) == w1;
        let p2 = choose|p: Seq<Constraint>| self.is_path(p, from, to) && path_weight(p) == w2;
        assert(path_weight(p1) >= w2);
        assert(path_weight(p2) >= w1);
    }

    /// A variable is at least weight 0 from itself: the empty path has
    /// weight 0, and no cycle is negative while the values satisfy the
    /// system. So `get_implied_ub(x, x)` is `Some(0)`.
    pub proof fn lemma_self_distance(&self, x: VarId)
        requires
            self.wf(),
        ensures
            self.shortest_path_weight_is(x, x, 0),
    {
        assert(self.is_path(Seq::<Constraint>::empty(), x, x));
        assert(path_weight(Seq::<Constraint>::empty()) == 0);
        assert forall|p: Seq<Constraint>| self.is_path(p, x, x) implies path_weight(p) >= 0 by {
            self.lemma_path_bounds_difference(p, x, x, self.values());
        }
    }

    /// The least weight of a path from `from` to `to`, as `i64`, or `None`
    /// when there is no path.
    fn dist(&self, from_node: &VarId, to_node: &VarId) -> (r: Option<i64>)
        requires
            self.wf(),
            self.within_memory(),
            forall|w: int|
                self.shortest_path_weight_is(*from_node, *to_node, w) ==> i64::MIN <= w <= i64::MAX,
        ensures
            match r {
                Some(w) => self.shortest_path_weight_is(*from_node, *to_node, w as int),
                None => forall|p: Seq<Constraint>| !self.is_path(p, *from_node, *to_node),
            },
    {
        match shortest_reduced_distance(self, *from_node, *to_node) {
            None => {
                proof {
                    assert forall|p: Seq<Constraint>| !self.is_path(p, *from_node, *to_node) by {
                        if self.is_path(p, *from_node, *to_node) {
                            self.lemma_least_path(p, *from_node, *to_node);
                        }
                    }
                }
                None
            },
            Some(cost) => {
                let ghost w: int = cost - value_of(self.values(), *from_node) + value_of(
                    self.values(),
                    *to_node,
                );
                proof {
                    let p = choose|p: Seq<Constraint>|
                        self.is_least_path(p, *from_node, *to_node) && reduced_weight(p, self.values())
                            == cost;
                    self.lemma_reduced_weight(p, *from_node, *to_node);
                    lemma_reduced_weight_nonneg(*self, p, *from_node, *to_node);
                    assert forall|q: Seq<Constraint>| self.is_path(q, *from_node, *to_node) implies path_weight(q) >= w by {
                        self.lemma_least_path(q, *from_node, *to_node);
                        let q2 = choose|q2: Seq<Constraint>|
                            self.is_least_path(q2, *from_node, *to_node) && path_weight(q2) <= path_weight(q);
                        self.lemma_reduced_weight(q2, *from_node, *to_node);
                    }
                    assert(self.shortest_path_weight_is(*from_node, *to_node, w));
                }
                let d = self.descale_dist(cost, from_node, to_node);
                Some(d as i64)
            },
        }
    }

    /// Turns a distance in reduced costs back into one in the bounds.
    fn descale_dist(&self, scaled_dist: i128, from_node: &VarId, to_node: &VarId) -> (r: i128)
        requires
            -0x4000_0000_0000_0000_0000_0000_0000_0000 <= scaled_dist <= 0x4000_0000_0000_0000_0000_0000_0000_0000,
        ensures
            r == scaled_dist - value_of(self.values(), *from_node) + value_of(self.values(), *to_node),
    {
        -(self.solution.get_or(from_node, 0) as i128) + scaled_dist + self.solution.get_or(to_node, 0) as i128
    }

    /// The constraint `x - y <= a` with the least `a` that the system
    /// implies: `a` is the least weight of a path from `y` to `x`. `None`
    /// when no path leads from `y` to `x`, and the system bounds `x - y` in
    /// no way.
    pub fn get_implied_ub(&self, x: &VarId, y: &VarId) -> (r: Option<i64>)
        requires
            self.wf(),
            self.within_memory(),
            forall|w: int| self.shortest_path_weight_is(*y, *x, w) ==> i64::MIN <= w <= i64::MAX,
        ensures
            match r {
                Some(a) => self.shortest_path_weight_is(*y, *x, a as int),
                None => forall|p: Seq<Constraint>| !self.is_path(p, *y, *x),
            },
    {
        self.dist(y, x)
    }

    /// The constraint `x - y >= a` with the greatest `a` that the system
    /// implies, that is `y - x <= -a`: `-a` is the least weight of a path
    /// from `x` to `y`. `None` when no path leads from `x` to `y`.
    pub fn get_implied_lb(&self, x: &VarId, y: &VarId) -> (r: Option<i64>)
        requires
            self.wf(),
            self.within_memory(),
            forall|w: int| self.shortest_path_weight_is(*x, *y, w) ==> i64::MIN < w <= i64::MAX,
        ensures
            match r {
                Some(a) => self.shortest_path_weight_is(*x, *y, -a),
                None => forall|p: Seq<Constraint>| !self.is_path(p, *x, *y),
            },
    {
        match self.get_implied_ub(y, x) {
            None => None,
            Some(ub) => {
                proof {
                    let p = choose|p: Seq<Constraint>| self.is_path(p, *x, *y) && path_weight(p) == ub;
                    self.lemma_reduced_weight(p, *x, *y);
                    lemma_reduced_weight_nonneg(*self, p, *x, *y);
                }
                Some(-ub)
            },
        }
    }


    /// A repair lowers values only, and to no less than needed: every
    /// variable `x` ends at most at its old value and at most at
    /// `value(u) + c + weight(p)` for every path `p` from `v` to `x`; with
    /// the contract of `repairs`, each changed value attains the second
    /// bound, so the repaired value of `x` is the least of the two.
    pub proof fn lemma_repair_is_least(&self, constraint: Constraint, diff: Map<VarId, i64>)
        requires
            self.wf(),
            self.repairs(constraint, diff),
        ensures
            forall|x: VarId| #[trigger]
                value_of(self.repaired(diff), x) <= value_of(self.values(), x),
            forall|x: VarId, p: Seq<Constraint>| #[trigger]
                self.is_path(p, constraint.v, x) ==> value_of(self.repaired(diff), x)
                    <= value_of(self.values(), constraint.u) + constraint.c + path_weight(p),
    {
        let m = self.repaired(diff);
        assert forall|x: VarId| #[trigger]
            value_of(self.repaired(diff), x) <= value_of(self.values(), x) by {
            if diff.contains_key(x) {
            }
        }
        assert forall|x: VarId, p: Seq<Constraint>| #[trigger]
            self.is_path(p, constraint.v, x) implies value_of(m, x) <= value_of(
            self.values(),
            constraint.u,
        ) + constraint.c + path_weight(p) by {
            assert(self.all_hold_under(m));
            self.lemma_path_bounds_difference(p, constraint.v, x, m);
            assert(value_of(m, constraint.u) == value_of(self.values(), constraint.u));
        }
    }

    /// The bound that `get_implied_ub` gives holds under every assignment
    /// that satisfies the system.
    pub proof fn lemma_implied_bound_holds(
        &self,
        x: VarId,
        y: VarId,
        a: int,
        m: Map<VarId, i64>,
    )
        requires
            self.shortest_path_weight_is(y, x, a),
            self.all_hold_under(m),
        ensures
            value_of(m, x) - value_of(m, y) <= a,
    {
        let p = choose|p: Seq<Constraint>| self.is_path(p, y, x) && path_weight(p) == a;
        self.lemma_path_bounds_difference(p, y, x, m);
    }

    /// When some path leads from `from` to `to`, the weights of such paths
    /// have a least one: none is below the difference of the kept values of
    /// the two ends.
    pub proof fn lemma_shortest_exists(&self, p: Seq<Constraint>, from: VarId, to: VarId)
        requires
            self.wf(),
            self.is_path(p, from, to),
        ensures
            exists|w: int| self.shortest_path_weight_is(from, to, w),
    {
        let vals = self.values();
        let lower = value_of(vals, to) - value_of(vals, from);
        assert forall|q: Seq<Constraint>| self.is_path(q, from, to) implies path_weight(q) >= lower by {
            self.lemma_path_bounds_difference(q, from, to, vals);
        }
        self.lemma_path_bounds_difference(p, from, to, vals);
        self.lemma_least_weight_below(from, to, lower, (path_weight(p) - lower) as nat);
    }

    /// Some path weighs at most `lower + n` and none less than `lower`: then
    /// some weight is least.
    proof fn lemma_least_weight_below(&self, from: VarId, to: VarId, lower: int, n: nat)
        requires
            exists|p: Seq<Constraint>| self.is_path(p, from, to) && path_weight(p) <= lower + n,
            forall|p: Seq<Constraint>| self.is_path(p, from, to) ==> path_weight(p) >= lower,
        ensures
            exists|w: int| self.shortest_path_weight_is(from, to, w),
        decreases n,
    {
        if n > 0 && exists|p: Seq<Constraint>| self.is_path(p, from, to) && path_weight(p) <= lower + n - 1 {
            self.lemma_least_weight_below(from, to, lower, (n - 1) as nat);
        } else {
            let p = choose|p: Seq<Constraint>| self.is_path(p, from, to) && path_weight(p) <= lower + n;
            assert(self.shortest_path_weight_is(from, to, path_weight(p)));
        }
    }

    /// Every constraint of the system holds under the assignment of integers
    /// `m` (unassigned variables count as 0).
    pub open spec fn all_hold_under_int(&self, m: Map<VarId, int>) -> bool {
        forall|e: Constraint| #[trigger]
            self.has_constraint(e) ==> int_value_of(m, e.v) - int_value_of(m, e.u) <= e.c
    }

    /// The bound that `get_implied_ub` gives is the least one that the
    /// system implies: some assignment that satisfies the system gives
    /// `x - y` exactly that value.
    pub proof fn lemma_implied_bound_is_tight(&self, x: VarId, y: VarId, a: int)
        requires
            self.wf(),
            self.shortest_path_weight_is(y, x, a),
        ensures
            exists|m: Map<VarId, int>|
                self.all_hold_under_int(m) && int_value_of(m, x) - int_value_of(m, y) == a,
    {
        let vals = self.values();
        let k = a - value_of(vals, x);
        let reach = |z: VarId| exists|p: Seq<Constraint>| self.is_path(p, y, z);
        let d = |z: VarId| choose|w: int| self.shortest_path_weight_is(y, z, w);
        let pick = |z: VarId|
            if reach(z) && d(z) < value_of(vals, z) + k {
                d(z)
            } else {
                value_of(vals, z) + k
            };
        let m = Map::new(|z: VarId| true, |z: VarId| pick(z));
        let p_a = choose|p: Seq<Constraint>| self.is_path(p, y, x) && path_weight(p) == a;
        self.lemma_path_bounds_difference(p_a, y, x, vals);
        assert forall|z: VarId| reach(z) implies #[trigger] self.shortest_path_weight_is(y, z, d(z)) by {
            let p = choose|p: Seq<Constraint>| self.is_path(p, y, z);
            self.lemma_shortest_exists(p, y, z);
        }
        assert forall|e: Constraint| #[trigger] self.has_constraint(e) implies int_value_of(m, e.v)
            - int_value_of(m, e.u) <= e.c by {
            assert(e.holds_under(vals));
            if reach(e.u) {
                assert(self.shortest_path_weight_is(y, e.u, d(e.u)));
                let pu = choose|p: Seq<Constraint>| self.is_path(p, y, e.u) && path_weight(p) == d(e.u);
                self.lemma_path_push(pu, y, e);
                assert(reach(e.v));
                assert(self.shortest_path_weight_is(y, e.v, d(e.v)));
                assert(d(e.v) <= d(e.u) + e.c);
            }
        }
        assert(self.all_hold_under_int(m));
        // At `y` the value picked is 0, at `x` it is `a`.
        assert(self.is_path(Seq::<Constraint>::empty(), y, y));
        assert(reach(y));
        assert(self.shortest_path_weight_is(y, y, d(y)));
        assert(d(y) == 0) by {
            assert(path_weight(Seq::<Constraint>::empty()) == 0);
            let q = choose|q: Seq<Constraint>| self.is_path(q, y, y) && path_weight(q) == d(y);
            self.lemma_path_bounds_difference(q, y, y, vals);
        }
        assert(reach(x));
        assert(self.shortest_path_weight_is(y, x, d(x)));
        assert(d(x) == a) by {
            let q = choose|q: Seq<Constraint>| self.is_path(q, y, x) && path_weight(q) == d(x);
        }
        assert(int_value_of(m, x) - int_value_of(m, y) == a);
    }

    /// When no path leads from `y` to `x`, the system bounds `x - y` from
    /// above in no way: for any `a`, some assignment that satisfies the
    /// system gives `x - y` a greater value.
    pub proof fn lemma_no_path_no_bound(&self, x: VarId, y: VarId, a: int)
        requires
            self.wf(),
            forall|p: Seq<Constraint>| !self.is_path(p, y, x),
        ensures
            exists|m: Map<VarId, int>|
                self.all_hold_under_int(m) && int_value_of(m, x) - int_value_of(m, y) > a,
    {
        let vals = self.values();
        let shift = if a + 1 - value_of(vals, x) + value_of(vals, y) > 0 {
            a + 1 - value_of(vals, x) + value_of(vals, y)
        } else {
            0
        };
        let reach = |z: VarId| exists|p: Seq<Constraint>| self.is_path(p, y, z);
        let pick = |z: VarId|
            if reach(z) {
                value_of(vals, z) as int
            } else {
                value_of(vals, z) + shift
            };
        let m = Map::new(|z: VarId| true, |z: VarId| pick(z));
        assert forall|e: Constraint| #[trigger] self.has_constraint(e) implies int_value_of(m, e.v)
            - int_value_of(m, e.u) <= e.c by {
            assert(e.holds_under(vals));
            if reach(e.u) {
                let pu = choose|p: Seq<Constraint>| self.is_path(p, y, e.u);
                self.lemma_path_push(pu, y, e);
                assert(reach(e.v));
            }
        }
        assert(self.is_path(Seq::<Constraint>::empty(), y, y));
        assert(reach(y));
        assert(!reach(x));
        assert(self.all_hold_under_int(m));
        assert(int_value_of(m, x) - int_value_of(m, y) > a);
    }

    /// The kept assignment satisfies every constraint of a well-formed system.
    pub proof fn lemma_values_satisfy(&self)
        requires
            self.wf(),
        ensures
            self.all_hold_under(self.values()),
            forall|e: Constraint| #[trigger]
                self.has_constraint(e) ==> e.satisfied_by(self.values()),
    {
    }


    /// Whether the variable has a value in the kept assignment.
    pub fn is_variable(&self, x: &VarId) -> (r: bool)
        ensures
            r == self.values().contains_key(*x),
    {
        self.solution.get(x).is_some()
    }

    /// Gives the variable the value 0 unless it has a value already; the
    /// constraints stay as they are.
    pub fn add_unconstrained_variable(&mut self, x: &VarId)
        requires
            old(self).wf(),
        ensures
            final(self).wf(),
            final(self).constraint_set() == old(self).constraint_set(),
            final(self).values() == (if old(self).values().contains_key(*x) {
                old(self).values()
            } else {
                old(self).values().insert(*x, 0)
            }),
    {
        let ghost old_self = *self;
        if !self.is_variable(x) {
            self.solution.update(x, 0);
            proof {
                assert(self.constraint_set() == old_self.constraint_set());
                assert forall|e: Constraint| #[trigger] self.has_constraint(e) implies {
                    &&& self.values().contains_key(e.u)
                    &&& self.values().contains_key(e.v)
                    &&& e.holds_under(self.values())
                } by {
                    assert(old_self.has_constraint(e));
                }
            }
        }
    }

    /// Whether the constraint can be added without making the system
    /// infeasible. Yes when one of its variables has no value (then, but for
    /// `x - x <= c` with `c < 0`, it closes no negative cycle) or the kept
    /// assignment satisfies it; otherwise when the least weight of a path
    /// from `v` to `u` is at least `-c`, so that `u - v >= -c` is no tighter
    /// than what the system implies, that is, when it closes no negative
    /// cycle.
    pub fn check_new_constraint(&self, constraint: &Constraint) -> (r: bool)
        requires
            self.wf(),
            self.within_memory(),
        ensures
            r == (!self.values().contains_key(constraint.u) || !self.values().contains_key(
                constraint.v,
            ) || !self.closes_negative_cycle(*constraint)),
    {
        if !self.is_variable(&constraint.u) || !self.is_variable(&constraint.v)
            || self.solution.check_constraint(constraint) {
            proof {
                if self.values().contains_key(constraint.u) && self.values().contains_key(constraint.v)
                    && self.closes_negative_cycle(*constraint) {
                    let p = choose|p: Seq<Constraint>|
                        self.is_path(p, constraint.v, constraint.u) && path_weight(p) + constraint.c < 0;
                    if p.len() > 0 {
                        self.lemma_path_ends_assigned(p, constraint.v, constraint.u);
                    }
                    self.lemma_path_bounds_difference(p, constraint.v, constraint.u, self.values());
                }
            }
            return true;
        }
        match shortest_reduced_distance(self, constraint.v, constraint.u) {
            None => {
                proof {
                    if self.closes_negative_cycle(*constraint) {
                        let p = choose|p: Seq<Constraint>|
                            self.is_path(p, constraint.v, constraint.u) && path_weight(p) + constraint.c < 0;
                        self.lemma_least_path(p, constraint.v, constraint.u);
                    }
                }
                true
            },
            Some(cost) => {
                proof {
                    let p = choose|p: Seq<Constraint>|
                        self.is_least_path(p, constraint.v, constraint.u) && reduced_weight(p, self.values())
                            == cost;
                    lemma_reduced_weight_nonneg(*self, p, constraint.v, constraint.u);
                    self.lemma_reduced_weight(p, constraint.v, constraint.u);
                    assert forall|q: Seq<Constraint>| self.is_path(q, constraint.v, constraint.u) implies path_weight(q) >= cost - value_of(self.values(), constraint.v) + value_of(self.values(), constraint.u) by {
                        self.lemma_least_path(q, constraint.v, constraint.u);
                        let q2 = choose|q2: Seq<Constraint>|
                            self.is_least_path(q2, constraint.v, constraint.u) && path_weight(q2) <= path_weight(q);
                        self.lemma_reduced_weight(q2, constraint.v, constraint.u);
                    }
                }
                let d_u = self.solution.get_or(&constraint.u, 0);
                let d_v = self.solution.get_or(&constraint.v, 0);
                cost >= (d_v as i128) - (d_u as i128) - (constraint.c as i128)
            },
        }
    }

    /// A nonempty path starts and ends at assigned variables.
    proof fn lemma_path_ends_assigned(&self, p: Seq<Constraint>, from: VarId, to: VarId)
        requires
            self.wf(),
            self.is_path(p, from, to),
            p.len() > 0,
        ensures
            self.values().contains_key(from),
            self.values().contains_key(to),
        decreases p.len(),
    {
        assert(self.has_constraint(p.last()));
        if p.len() > 1 {
            self.lemma_path_ends_assigned(p.drop_last(), from, p.last().u);
        } else {
            assert(p.drop_last().len() == 0);
        }
    }

    /// `p` is a path from `from` to `to` exactly when each of its
    /// constraints belongs to the system and starts at the variable the path
    /// has reached, and the last variable reached is `to`.
    pub proof fn lemma_path_by_index(&self, p: Seq<Constraint>, from: VarId, to: VarId)
        ensures
            self.is_path(p, from, to) <==> {
                &&& path_vertex(p, from, p.len() as int) == to
                &&& forall|i: int|
                    0 <= i < p.len() ==> self.has_constraint(#[trigger] p[i]) && p[i].u == path_vertex(
                        p,
                        from,
                        i,
                    )
            },
        decreases p.len(),
    {
        if p.len() > 0 {
            let q = p.drop_last();
            let l = p.len() - 1;
            self.lemma_path_by_index(q, from, p.last().u);
            assert forall|i: int| 0 <= i <= l implies path_vertex(q, from, i) == path_vertex(p, from, i) by {
                if i > 0 {
                    assert(q[i - 1] == p[i - 1]);
                }
            }
            if self.is_path(p, from, to) {
                assert forall|i: int| 0 <= i < p.len() implies self.has_constraint(#[trigger] p[i]) && p[i].u
                    == path_vertex(p, from, i) by {
                    if i < l {
                        assert(q[i] == p[i]);
                    }
                }
            }
            if path_vertex(p, from, p.len() as int) == to && forall|i: int|
                0 <= i < p.len() ==> self.has_constraint(#[trigger] p[i]) && p[i].u == path_vertex(p, from, i) {
                assert forall|i: int| 0 <= i < q.len() implies self.has_constraint(#[trigger] q[i]) && q[i].u
                    == path_vertex(q, from, i) by {
                    assert(q[i] == p[i]);
                }
                assert(p[l] == p.last());
            }
        }
    }

    /// Every path can be shortened to one of no greater weight with at most
    /// as many constraints as there are variables with values: a variable
    /// met twice closes a cycle, which weighs at least 0 under the values.
    #[verifier::rlimit(40)]
    pub proof fn lemma_short_path(&self, p: Seq<Constraint>, from: VarId, to: VarId)
        requires
            self.wf(),
            self.is_path(p, from, to),
        ensures
            exists|q: Seq<Constraint>|
                self.is_path(q, from, to) && path_weight(q) <= path_weight(p) && q.len()
                    <= self.values().dom().len(),
        decreases p.len(),
    {
        let dom = self.values().dom();
        self.solution.lemma_dom_finite();
        if p.len() <= dom.len() {
            assert(self.is_path(p, from, to));
        } else {
            let len = p.len() as int;
            self.lemma_path_by_index(p, from, to);
            let vs = Seq::new((len + 1) as nat, |i: int| path_vertex(p, from, i));
            assert forall|i: int| 0 <= i < vs.len() implies dom.contains(#[trigger] vs[i]) by {
                if i < len {
                    assert(self.has_constraint(p[i]));
                } else {
                    assert(self.has_constraint(p[len - 1]));
                }
            }
            assert(vs.to_set().subset_of(dom));
            vstd::set_lib::lemma_len_subset(vs.to_set(), dom);
            if vs.no_duplicates() {
                vs.unique_seq_to_set();
                assert(false);
            }
            let (i0, j0) = choose|i: int, j: int| 0 <= i < vs.len() && 0 <= j < vs.len() && i != j && vs[i] == vs[j];
            let i = if i0 < j0 { i0 } else { j0 };
            let j = if i0 < j0 { j0 } else { i0 };
            assert(vs[i] == vs[j]);
            let x = vs[i];
            let pre = p.subrange(0, i);
            let cyc = p.subrange(i, j);
            let post = p.subrange(j, len);
            let q0 = pre + post;
            // The cycle is a path from `x` back to `x`.
            self.lemma_path_by_index(cyc, x, x);
            assert forall|k: int| 0 <= k <= cyc.len() implies path_vertex(cyc, x, k) == vs[i + k] by {
                if k > 0 {
                    assert(cyc[k - 1] == p[i + k - 1]);
                }
            }
            assert forall|k: int| 0 <= k < cyc.len() implies self.has_constraint(#[trigger] cyc[k]) && cyc[k].u
                == path_vertex(cyc, x, k) by {
                assert(cyc[k] == p[i + k]);
                assert(path_vertex(cyc, x, k) == vs[i + k]);
            }
            assert(path_vertex(cyc, x, cyc.len() as int) == vs[j]);
            assert(self.is_path(cyc, x, x));
            self.lemma_path_bounds_difference(cyc, x, x, self.values());
            // Without the cycle, the path still leads from `from` to `to`.
            self.lemma_path_by_index(q0, from, to);
            let d = j - i;
            assert forall|k: int| 0 <= k < q0.len() implies #[trigger] q0[k] == (if k < i { p[k] } else { p[k + d] }) by {
            }
            assert forall|k: int| 0 <= k <= q0.len() implies path_vertex(q0, from, k) == (if k <= i { vs[k] } else { vs[k + d] }) by {
                if k > 0 {
                    assert(q0[k - 1] == (if k - 1 < i { p[k - 1] } else { p[k - 1 + d] }));
                }
            }
            assert forall|k: int| 0 <= k < q0.len() implies self.has_constraint(#[trigger] q0[k]) && q0[k].u
                == path_vertex(q0, from, k) by {
                assert(path_vertex(q0, from, k) == (if k <= i { vs[k] } else { vs[k + d] }));
                if k < i {
                    assert(q0[k] == p[k]);
                } else {
                    assert(q0[k] == p[k + d]);
                }
            }
            assert(path_vertex(q0, from, q0.len() as int) == to) by {
                assert(path_vertex(q0, from, q0.len() as int) == (if q0.len() <= i { vs[q0.len() as int] } else { vs[q0.len() + d] }));
                assert(vs[len] == to);
            }
            assert(self.is_path(q0, from, to));
            // Its weight is that of the path less the cycle's.
            assert(p =~= (pre + cyc) + post);
            lemma_path_weight_add(pre + cyc, post);
            lemma_path_weight_add(pre, cyc);
            lemma_path_weight_add(pre, post);
            self.lemma_short_path(q0, from, to);
        }
    }

    /// The empty system.
    pub fn new() -> (s: Self)
        ensures
            s.wf(),
            s.constraint_set() == Set::<Constraint>::empty(),
            s.values() == Map::<VarId, i64>::empty(),
            s.values_of_constraints(),
    {
        let s = FeasibleSystem { edges: Edges::new(), solution: Solution::new() };
        assert(s.constraint_set() =~= Set::<Constraint>::empty());
        s
    }

    /// The assignment kept with the system.
    pub fn solution(&self) -> (r: &Solution)
        ensures
            r@ == self.values(),
    {
        &self.solution
    }

}

impl Default for FeasibleSystem {
    fn default() -> (s: Self)
        ensures
            s.wf(),
            s.constraint_set() == Set::<Constraint>::empty(),
            s.values() == Map::<VarId, i64>::empty(),
    {
        FeasibleSystem::new()
    }
}

} // verus!
