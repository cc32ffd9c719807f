//! Assignments of values to variables.
use std::collections::HashMap;
use vstd::prelude::*;
use vstd::std_specs::iter::IteratorSpec;

use crate::common::{Constraint, VarId};

verus! {

broadcast use vstd::std_specs::hash::group_hash_axioms;

/// A partial assignment of integer values to variables.
pub struct Solution(HashMap<VarId, i64>);

impl View for Solution {
    type V = Map<VarId, i64>;

    closed spec fn view(&self) -> Map<VarId, i64> {
        self.0@
    }
}

impl Solution {
    /// Only finitely many variables have values.
    pub proof fn lemma_dom_finite(&self)
        ensures
            self@.dom().finite(),
    {
    }

    /// The number of variables that have a value.
    pub fn len(&self) -> (r: usize)
        ensures
            r == self@.len(),
    {
        self.0.len()
    }

    /// The empty assignment.
    pub fn new() -> (s: Solution)
        ensures
            s@ == Map::<VarId, i64>::empty(),
    {
        Solution(HashMap::new())
    }

    /// Gives `var` the value `val`.
    pub fn update(&mut self, var: &VarId, val: i64)
        ensures
            final(self)@ == old(self)@.insert(*var, val),
    {
        self.0.insert(*var, val);
    }

    /// The value of `var`, if it has one.
    pub fn get(&self, var: &VarId) -> (r: Option<&i64>)
        ensures
            r == (if self@.contains_key(*var) { Some(&self@[*var]) } else { None }),
    {
        self.0.get(var)
    }

    /// The value of `var`, or `default` when it has none.
    pub fn get_or(&self, var: &VarId, default: i64) -> (r: i64)
        ensures
            r == (if self@.contains_key(*var) { self@[*var] } else { default }),
    {
        match self.get(var) {
            Some(x) => *x,
            None => default,
        }
    }

    /// Gives `var` the value 0 unless it has a value already.
    pub fn add_var_if_missing(&mut self, var: VarId)
        ensures
            final(self)@ == (if old(self)@.contains_key(var) {
                old(self)@
            } else {
                old(self)@.insert(var, 0)
            }),
    {
        if !self.0.contains_key(&var) {
            self.update(&var, 0);
        }
    }

    /// Whether the constraint holds, counting it as held when one of its
    /// variables has no value.
    pub fn check_constraint(&self, constraint: &Constraint) -> (r: bool)
        ensures
            r == constraint.satisfied_by(self@),
    {
        match (self.get(&constraint.u), self.get(&constraint.v)) {
            (Some(u), Some(v)) => (*v as i128) - (*u as i128) <= constraint.c as i128,
            _ => true,
        }
    }

    /// The first constraint of the list that does not hold, if any.
    pub fn check_constraints<'a>(&self, constraints: &'a [Constraint]) -> (r: Option<&'a Constraint>)
        ensures
            match r {
                None => forall|i: int|
                    0 <= i < constraints@.len() ==> #[trigger] constraints@[i].satisfied_by(self@),
                Some(c) => exists|i: int|
                    0 <= i < constraints@.len() && *c == constraints@[i] && !c.satisfied_by(self@)
                        && forall|j: int|
                        0 <= j < i ==> #[trigger] constraints@[j].satisfied_by(self@),
            },
    {
        let mut i: usize = 0;
        while i < constraints.len()
            invariant
                0 <= i <= constraints@.len(),
                forall|j: int| 0 <= j < i ==> #[trigger] constraints@[j].satisfied_by(self@),
            decreases constraints@.len() - i,
        {
            if !self.check_constraint(&constraints[i]) {
                return Some(&constraints[i]);
            }
            i = i + 1;
        }
        None
    }

    /// Takes over every value of `map`, replacing the values held for the same variables.
    pub fn batch_update(&mut self, map: HashMap<VarId, i64>)
        ensures
            final(self)@ == old(self)@.union_prefer_right(map@),
    {
        let ghost start = self@;
        for pair in it: map.iter()
            invariant
                self@ == start.union_prefer_right(
                    Map::new(|k: VarId| exists|j: int| 0 <= j < it.index() && *it.seq()[j].0 == k,
                        |k: VarId| map@[k]),
                ),
        {
            self.0.insert(*pair.0, *pair.1);
        }
    }

    /// Checks the constraint when both of its variables have values; when one
    /// or both have none, gives them values under which it holds with equality
    /// (`v := u + c`, `u := v - c`, or `v := c, u := 0`) and reports success.
    pub fn check_constraint_and_add_vars_if_missing(&mut self, constraint: &Constraint) -> (r: bool)
        requires
            !old(self)@.contains_key(constraint.v) && old(self)@.contains_key(constraint.u)
                ==> i64::MIN <= constraint.c + old(self)@[constraint.u] <= i64::MAX,
            old(self)@.contains_key(constraint.v) && !old(self)@.contains_key(constraint.u)
                ==> i64::MIN <= old(self)@[constraint.v] - constraint.c <= i64::MAX,
        ensures
            r == constraint.satisfied_by(old(self)@),
            final(self)@ == with_missing_vars(old(self)@, *constraint),
    {
        match (self.get(&constraint.v), self.get(&constraint.u)) {
            (Some(d_v), Some(d_u)) => (*d_v as i128) - (*d_u as i128) <= constraint.c as i128,
            (None, Some(d_u)) => {
                let val = constraint.c + *d_u;
                self.update(&constraint.v, val);
                true
            },
            (Some(d_v), None) => {
                let val = *d_v - constraint.c;
                self.update(&constraint.u, val);
                true
            },
            (None, None) => {
                self.update(&constraint.v, constraint.c);
                self.update(&constraint.u, 0);
                true
            },
        }
    }

    /// Takes over the values of `other` for the variables that have none yet.
    pub fn merge(&mut self, other: &Solution)
        ensures
            final(self)@ == other@.union_prefer_right(old(self)@),
    {
        let ghost start = self@;
        for pair in it: other.0.iter()
            invariant
                self@ == Map::new(
                    |k: VarId| exists|j: int| 0 <= j < it.index() && *it.seq()[j].0 == k,
                    |k: VarId| other@[k],
                ).union_prefer_right(start),
        {
            if !self.0.contains_key(pair.0) {
                self.0.insert(*pair.0, *pair.1);
            }
        }
    }

    /// The assignment made of the pairs, a later pair for a variable taking
    /// precedence over an earlier one.
    pub fn from_iter(pairs: Vec<(VarId, i64)>) -> (s: Solution)
        ensures
            s@ == pairs_to_map(pairs@),
    {
        let mut s = Solution::new();
        for i in 0..pairs.len()
            invariant
                s@ == pairs_to_map(pairs@.take(i as int)),
        {
            assert(pairs@.take(i + 1).drop_last() == pairs@.take(i as int));
            s.update(&pairs[i].0, pairs[i].1);
        }
        assert(pairs@.take(pairs@.len() as int) == pairs@);
        s
    }
}

/// The assignment after giving values to the variables of the constraint
/// that have none: `v := u + c` when only `u` has a value, `u := v - c` when
/// only `v` has one, and `v := c` then `u := 0` when neither has.
pub open spec fn with_missing_vars(m: Map<VarId, i64>, constraint: Constraint) -> Map<VarId, i64> {
    if m.contains_key(constraint.v) {
        if m.contains_key(constraint.u) {
            m
        } else {
            m.insert(constraint.u, (m[constraint.v] - constraint.c) as i64)
        }
    } else {
        if m.contains_key(constraint.u) {
            m.insert(constraint.v, (constraint.c + m[constraint.u]) as i64)
        } else {
            m.insert(constraint.v, constraint.c).insert(constraint.u, 0)
        }
    }
}

/// The map that a list of pairs gives, a later pair for a key overriding an earlier one.
pub open spec fn pairs_to_map(pairs: Seq<(VarId, i64)>) -> Map<VarId, i64>
    decreases pairs.len(),
{
    if pairs.len() == 0 {
        Map::empty()
    } else {
        pairs_to_map(pairs.drop_last()).insert(pairs.last().0, pairs.last().1)
    }
}

impl Default for Solution {
    fn default() -> (s: Self)
        ensures
            s@ == Map::<VarId, i64>::empty(),
    {
        Solution::new()
    }
}

} // verus!
