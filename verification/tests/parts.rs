use dcs::common::{Constraint, EdgeDoesNotExist, MultiConstraint, MultiEdge};
use dcs::feasible_system::AddOutcome;
use dcs::feasible_system::FeasibleSystem;
use dcs::prioritized_multi_constraints::PrioritizedMulticConstraints;
use dcs::solution::Solution;
use dcs::{Status, DCS};
use std::collections::HashMap;

fn con(v: u64, u: u64, c: i64, priority: u64) -> Constraint {
    Constraint { v, u, c, priority }
}

// ---- Solution ----

#[test]
fn solution_get_update_and_defaults() {
    let mut s = Solution::new();
    assert_eq!(s.get(&3), None);
    assert_eq!(s.get_or(&3, 7), 7);
    s.update(&3, -4);
    assert_eq!(s.get(&3), Some(&-4));
    assert_eq!(s.get_or(&3, 7), -4);
    s.add_var_if_missing(3);
    assert_eq!(s.get_or(&3, 7), -4);
    s.add_var_if_missing(5);
    assert_eq!(s.get(&5), Some(&0));
    assert_eq!(s.len(), 2);
    assert_eq!(Solution::default().len(), 0);
}

#[test]
fn solution_check_constraint_counts_unassigned_as_satisfied() {
    let s = Solution::from_iter(vec![(1, 10), (2, 3)]);
    assert!(s.check_constraint(&con(1, 2, 7, 0)));
    assert!(!s.check_constraint(&con(1, 2, 6, 0)));
    assert!(s.check_constraint(&con(1, 9, -100, 0)));
    assert!(s.check_constraint(&con(9, 2, -100, 0)));
}

#[test]
fn solution_check_constraint_without_overflow() {
    let s = Solution::from_iter(vec![(1, i64::MAX), (2, i64::MIN)]);
    assert!(!s.check_constraint(&con(1, 2, i64::MAX, 0)));
    assert!(s.check_constraint(&con(2, 1, i64::MIN, 0)));
}

#[test]
fn solution_check_constraints_gives_first_violated() {
    let s = Solution::from_iter(vec![(1, 10), (2, 3)]);
    let list = vec![con(1, 2, 8, 0), con(1, 2, 5, 1), con(2, 1, -20, 2)];
    assert_eq!(s.check_constraints(&list), Some(&list[1]));
    assert_eq!(s.check_constraints(&list[..1]), None);
}

#[test]
fn solution_from_iter_later_pairs_win() {
    let s = Solution::from_iter(vec![(1, 1), (2, 2), (1, 3)]);
    assert_eq!(s.get(&1), Some(&3));
    assert_eq!(s.len(), 2);
}

#[test]
fn solution_batch_update_and_merge() {
    let mut s = Solution::from_iter(vec![(1, 1), (2, 2)]);
    let mut map = HashMap::new();
    map.insert(2, 20);
    map.insert(3, 30);
    s.batch_update(map);
    assert_eq!(s.get(&1), Some(&1));
    assert_eq!(s.get(&2), Some(&20));
    assert_eq!(s.get(&3), Some(&30));

    let mut t = Solution::from_iter(vec![(2, -2)]);
    t.merge(&s);
    assert_eq!(t.get(&2), Some(&-2));
    assert_eq!(t.get(&1), Some(&1));
    assert_eq!(t.get(&3), Some(&30));
}

#[test]
fn solution_adds_missing_vars_with_equality() {
    let mut s = Solution::from_iter(vec![(1, 10)]);
    assert!(s.check_constraint_and_add_vars_if_missing(&con(2, 1, 5, 0)));
    assert_eq!(s.get(&2), Some(&15));
    assert!(s.check_constraint_and_add_vars_if_missing(&con(1, 3, 4, 0)));
    assert_eq!(s.get(&3), Some(&6));
    assert!(s.check_constraint_and_add_vars_if_missing(&con(7, 8, -3, 0)));
    assert_eq!(s.get(&7), Some(&-3));
    assert_eq!(s.get(&8), Some(&0));
    assert!(!s.check_constraint_and_add_vars_if_missing(&con(2, 1, 4, 0)));
    assert_eq!(s.len(), 5);
}

#[test]
fn multi_edge_push_peek_and_remove() {
    let mut e = MultiEdge::new();
    assert!(e.is_empty());
    assert_eq!(e.peek(), None);
    assert!(e.push(5, 1));
    assert!(e.push(3, 2));
    assert!(!e.push(5, 9));
    assert_eq!(e.peek(), Some((&3, &2)));
    assert!(!e.is_empty());
    assert!(matches!(e.remove(4), Err(EdgeDoesNotExist)));
    assert_eq!(e.remove(5), Ok(false));
    assert_eq!(e.remove(5), Ok(false));
    assert!(matches!(e.remove(5), Err(EdgeDoesNotExist)));
    assert!(e.push(7, 0));
    assert_eq!(e.remove(3), Ok(true));
    assert_eq!(e.peek(), Some((&7, &0)));
    assert_eq!(e.remove(7), Ok(true));
    assert!(e.is_empty());
}

#[test]
fn multi_edge_merge_keeps_priority_of_larger_edge() {
    let mut a = MultiEdge::new();
    a.push(5, 1);
    let mut b = MultiEdge::new();
    b.push(5, 2);
    b.push(7, 3);
    assert!(!a.merge(b));
    assert_eq!(a.peek(), Some((&5, &2)));

    let mut c = MultiEdge::new();
    c.push(5, 1);
    let mut d = MultiEdge::new();
    d.push(5, 2);
    assert!(!c.merge(d));
    assert_eq!(c.peek(), Some((&5, &1)));
}

#[test]
fn multi_edge_merge_reports_lower_minimum() {
    let mut a = MultiEdge::new();
    a.push(4, 1);
    let mut b = MultiEdge::new();
    b.push(2, 5);
    b.push(4, 1);
    assert!(a.merge(b));
    assert_eq!(a.peek(), Some((&2, &5)));
    assert_eq!(a.remove(4), Ok(false));
    assert_eq!(a.remove(4), Ok(false));
    assert!(matches!(a.remove(4), Err(EdgeDoesNotExist)));

    let mut c = MultiEdge::new();
    c.push(1, 0);
    let mut d = MultiEdge::new();
    d.push(3, 0);
    assert!(!c.merge(d));
    assert!(!c.merge(MultiEdge::new()));
    let mut empty = MultiEdge::default();
    let mut e = MultiEdge::new();
    e.push(9, 4);
    assert!(empty.merge(e));
    assert_eq!(empty.peek(), Some((&9, &4)));
}

#[test]
fn multi_constraint_takes_least_bound() {
    let mut edge = MultiEdge::new();
    edge.push(8, 1);
    edge.push(-2, 6);
    let m = MultiConstraint { v: 4, u: 5, c: edge };
    assert_eq!(m.to_constraint(), Some(con(4, 5, -2, 6)));
    let empty = MultiConstraint { v: 4, u: 5, c: MultiEdge::new() };
    assert_eq!(empty.to_constraint(), None);
}

// ---- PrioritizedMulticConstraints ----

#[test]
fn prioritized_pops_by_priority() {
    let mut p = PrioritizedMulticConstraints::new();
    assert!(p.is_empty());
    assert!(p.push(con(1, 0, 5, 1)));
    assert!(p.push(con(2, 0, 5, 3)));
    assert!(!p.push(con(1, 0, 5, 0)));
    assert!(p.push(con(1, 0, 2, 7)));
    let first = p.pop().unwrap();
    assert_eq!((first.u, first.v), (0, 1));
    assert_eq!(first.to_constraint(), Some(con(1, 0, 2, 7)));
    let second = p.pop().unwrap();
    assert_eq!((second.u, second.v), (0, 2));
    assert!(p.pop().is_none());
    assert!(p.is_empty());
}

#[test]
fn prioritized_remove_and_includes() {
    let mut p = PrioritizedMulticConstraints::default();
    p.push(con(1, 0, 5, 1));
    p.push(con(1, 0, 3, 1));
    assert!(p.includes(&con(1, 0, 4, 0)));
    assert!(!p.includes(&con(1, 0, 3, 0)));
    assert!(!p.includes(&con(0, 1, 9, 0)));
    assert!(matches!(p.remove(con(1, 0, 4, 0)), Err(EdgeDoesNotExist)));
    assert!(matches!(p.remove(con(2, 0, 5, 0)), Err(EdgeDoesNotExist)));
    assert_eq!(p.remove(con(1, 0, 3, 0)), Ok(true));
    assert!(!p.includes(&con(1, 0, 5, 0)));
    assert_eq!(p.remove(con(1, 0, 5, 0)), Ok(true));
    assert!(p.is_empty());
}

#[test]
fn prioritized_check_solution_uses_least_bounds() {
    let mut p = PrioritizedMulticConstraints::new();
    p.push(con(1, 0, 5, 1));
    p.push(con(1, 0, 3, 1));
    let ok = Solution::from_iter(vec![(0, 0), (1, 3)]);
    let bad = Solution::from_iter(vec![(0, 0), (1, 4)]);
    assert!(p.check_solution(&ok));
    assert!(!p.check_solution(&bad));
}

#[test]
fn prioritized_add_multi_constraint_merges() {
    let mut p = PrioritizedMulticConstraints::new();
    p.push(con(1, 0, 5, 1));
    let mut edge = MultiEdge::new();
    edge.push(2, 4);
    assert!(p.add_multi_constraint(MultiConstraint { v: 1, u: 0, c: edge }));
    assert!(!p.add_multi_constraint(MultiConstraint { v: 1, u: 0, c: MultiEdge::new() }));
    assert!(p.includes(&con(1, 0, 3, 0)));
    let m = p.pop().unwrap();
    assert_eq!(m.to_constraint(), Some(con(1, 0, 2, 4)));
}

// ---- FeasibleSystem ----

fn three_var_system() -> FeasibleSystem {
    let mut sys = FeasibleSystem::new();
    assert!(sys.attempt_add_constraint(con(1, 0, 5, 0)));
    assert!(sys.attempt_add_constraint(con(2, 1, 1, 0)));
    sys
}

#[test]
fn feasible_system_assigns_new_variables() {
    let sys = three_var_system();
    assert_eq!(sys.solution().get(&0), Some(&0));
    assert_eq!(sys.solution().get(&1), Some(&5));
    assert_eq!(sys.solution().get(&2), Some(&6));
    assert!(sys.is_variable(&2));
    assert!(!sys.is_variable(&3));
}

#[test]
fn feasible_system_repair_is_exact() {
    let sys = three_var_system();
    let diff = sys.check_and_solve_new_constraint(&con(1, 0, 2, 0)).unwrap();
    assert_eq!(diff.len(), 2);
    assert_eq!(diff.get(&1), Some(&2));
    assert_eq!(diff.get(&2), Some(&3));

    let mut sys = sys;
    assert!(sys.attempt_add_constraint(con(1, 0, 2, 0)));
    assert_eq!(sys.solution().get(&0), Some(&0));
    assert_eq!(sys.solution().get(&1), Some(&2));
    assert_eq!(sys.solution().get(&2), Some(&3));
    assert!(sys.check_solution(sys.solution()));
}

#[test]
fn feasible_system_refuses_negative_cycle_and_stays() {
    let mut sys = three_var_system();
    assert!(sys.attempt_add_constraint(con(1, 0, 2, 0)));
    assert!(sys.check_and_solve_new_constraint(&con(0, 2, -4, 0)).is_none());
    assert!(!sys.check_new_constraint(&con(0, 2, -4, 0)));
    assert!(sys.check_new_constraint(&con(0, 2, -3, 0)));
    assert!(!sys.attempt_add_constraint(con(0, 2, -4, 0)));
    assert_eq!(sys.solution().get(&0), Some(&0));
    assert_eq!(sys.solution().get(&1), Some(&2));
    assert_eq!(sys.solution().get(&2), Some(&3));
    // One constraint of least bound for each of the pairs (0, 1) and (1, 2).
    let mut kept = sys.constraints();
    kept.sort();
    assert_eq!(kept, vec![con(1, 0, 2, 0), con(2, 1, 1, 0)]);
    assert!(sys.attempt_add_constraint(con(0, 2, -3, 0)));
    assert!(sys.check_solution(sys.solution()));
}

#[test]
fn feasible_system_implied_bounds() {
    let mut sys = three_var_system();
    assert!(sys.attempt_add_constraint(con(1, 0, 2, 0)));
    // x2 - x0 <= 3 along 0 -> 1 -> 2.
    assert_eq!(sys.get_implied_ub(&2, &0), Some(3));
    // x2 - x0 >= -3 would need a path from 2 to 0: there is none.
    assert_eq!(sys.get_implied_ub(&0, &2), None);
    assert_eq!(sys.get_implied_lb(&0, &2), Some(-3));
    assert_eq!(sys.get_implied_lb(&2, &0), None);
    assert_eq!(sys.get_implied_ub(&1, &1), Some(0));
}

#[test]
fn feasible_system_implied_bound_is_attained_and_absent_bound_is_unbounded() {
    let mut sys = three_var_system();
    assert!(sys.attempt_add_constraint(con(1, 0, 2, 0)));
    let ub = sys.get_implied_ub(&2, &0).unwrap();
    // An assignment that satisfies the system and reaches the bound.
    let tight = Solution::from_iter(vec![(0, 0), (1, 2), (2, 3)]);
    assert!(sys.check_solution(&tight));
    assert_eq!(tight.get(&2).unwrap() - tight.get(&0).unwrap(), ub);
    // One that goes past it breaks the system.
    let past = Solution::from_iter(vec![(0, 0), (1, 2), (2, 4)]);
    assert!(!sys.check_solution(&past));
    // No path leads from 2 to 0: x0 - x2 can be as large as wished.
    assert_eq!(sys.get_implied_ub(&0, &2), None);
    let far = Solution::from_iter(vec![(0, 1000), (1, 0), (2, 0)]);
    assert!(sys.check_solution(&far));
    assert_eq!(far.get(&0).unwrap() - far.get(&2).unwrap(), 1000);
}

#[test]
fn feasible_system_remove_constraints() {
    let mut sys = three_var_system();
    // The same constraint a second time is held once.
    assert!(sys.attempt_add_constraint(con(2, 1, 1, 0)));
    assert_eq!(sys.constraints().len(), 2);
    assert!(sys.remove_constraint(con(2, 1, 1, 0)));
    assert_eq!(sys.constraints(), vec![con(1, 0, 5, 0)]);
    assert!(!sys.remove_constraint(con(2, 1, 1, 0)));
    assert!(!sys.remove_constraint(con(2, 1, 9, 0)));
    assert!(sys.remove_constraints(vec![con(2, 1, 9, 0), con(1, 0, 5, 0)]));
    assert!(!sys.remove_constraints(vec![con(1, 0, 5, 0)]));
    assert_eq!(sys.constraints(), vec![]);
    assert_eq!(sys.solution().get(&1), Some(&5));
}

#[test]
fn feasible_system_keeps_every_bound_of_a_pair() {
    let mut sys = FeasibleSystem::new();
    assert!(sys.attempt_add_constraint(con(1, 0, 5, 0)));
    assert!(sys.attempt_add_constraint(con(1, 0, 3, 7)));
    assert!(sys.attempt_add_constraint(con(1, 0, 4, 0)));
    assert_eq!(sys.constraints(), vec![con(1, 0, 3, 7)]);
    assert_eq!(sys.get_implied_ub(&1, &0), Some(3));
    // Without the tightest bound, the next one takes its place.
    assert!(sys.remove_constraint(con(1, 0, 3, 7)));
    assert_eq!(sys.constraints(), vec![con(1, 0, 4, 0)]);
    assert_eq!(sys.get_implied_ub(&1, &0), Some(4));
    // The assignment is not loosened.
    assert_eq!(sys.solution().get(&1), Some(&3));
    let succ = sys.scaled_succesors(&0);
    assert_eq!(succ, vec![(1, 1)]);
}

#[test]
fn feasible_system_unconstrained_variable() {
    let mut sys = FeasibleSystem::default();
    sys.add_unconstrained_variable(&4);
    assert_eq!(sys.solution().get(&4), Some(&0));
    assert!(sys.attempt_add_constraint(con(4, 5, -2, 0)));
    assert_eq!(sys.solution().get(&5), Some(&2));
    sys.add_unconstrained_variable(&5);
    assert_eq!(sys.solution().get(&5), Some(&2));
}

// ---- DCS ----

#[test]
fn dcs_statuses_and_check_solution() {
    let mut sys = DCS::default();
    assert_eq!(sys.status(), Status::Feasible);
    assert!(sys.is_fully_determined());
    sys.add_constraint(con(1, 0, 3, 0));
    assert_eq!(sys.status(), Status::Undetermined);
    assert!(!sys.is_fully_determined());
    let good = Solution::from_iter(vec![(0, 0), (1, 3)]);
    let bad = Solution::from_iter(vec![(0, 0), (1, 4)]);
    assert!(sys.check_solution(&good));
    assert!(!sys.check_solution(&bad));
    sys.solve();
    assert_eq!(sys.status(), Status::Feasible);
    assert!(sys.check_solution(&good));
    assert!(!sys.check_solution(&bad));
    sys.add_constraint(con(0, 1, -4, 0));
    sys.solve();
    assert_eq!(sys.status(), Status::Infeasible);
    assert!(!sys.check_solution(&good));
    sys.add_constraint(con(5, 6, 1, 0));
    assert_eq!(sys.status(), Status::Infeasible);
    sys.solve();
    assert_eq!(sys.status(), Status::Infeasible);
    assert_eq!(sys.feasible_subsystem().constraints().len(), 1);
}

#[test]
fn dcs_takes_higher_priority_first() {
    // The two constraints contradict each other; the one of higher
    // priority is added, the other found infeasible.
    let mut sys = DCS::from_iter(vec![con(1, 0, -1, 1), con(0, 1, -1, 9)]);
    sys.solve();
    assert_eq!(sys.status(), Status::Infeasible);
    assert_eq!(sys.feasible_subsystem().constraints(), vec![con(0, 1, -1, 9)]);
}

#[test]
fn dcs_stops_at_first_infeasible_pair_in_priority_order() {
    let mut sys = DCS::from_iter(vec![
        con(3, 2, 0, 1),
        con(1, 0, -1, 9),
        con(0, 1, -1, 5),
    ]);
    sys.solve();
    assert_eq!(sys.status(), Status::Infeasible);
    // The pair of priority 9 was added, the one of priority 5 refused, and
    // the one of priority 1 still waits.
    assert_eq!(sys.feasible_subsystem().constraints(), vec![con(1, 0, -1, 9)]);
    assert!(!sys.is_fully_determined());
}

#[test]
fn dcs_feasible_solution_satisfies_every_constraint() {
    let list = vec![con(1, 0, 4, 0), con(1, 0, 2, 0), con(2, 1, -1, 3), con(0, 2, 0, 1)];
    let mut sys = DCS::from_iter(list.clone());
    sys.solve();
    assert_eq!(sys.status(), Status::Feasible);
    assert!(sys.feasible_subsystem().solution().check_constraints(&list).is_none());
    // Only the least bound of the pair (0, 1) is kept.
    let mut kept = sys.feasible_subsystem().constraints();
    kept.sort();
    assert_eq!(kept, vec![con(0, 2, 0, 1), con(1, 0, 2, 0), con(2, 1, -1, 3)]);
}

#[test]
fn dcs_handles_large_values_and_stops_only_on_overflow() {
    let mut sys = DCS::new();
    sys.add_constraint(con(1, 0, 1 << 60, 0));
    sys.solve();
    assert_eq!(sys.status(), Status::Feasible);
    assert_eq!(sys.feasible_subsystem().solution().get(&1), Some(&(1 << 60)));

    // x1 := i64::MAX, then x2 - x1 <= 1 would need x2 = i64::MAX + 1.
    let mut sys = DCS::from_iter(vec![con(1, 0, i64::MAX, 9), con(2, 1, 1, 5)]);
    sys.solve();
    assert_eq!(sys.status(), Status::Undetermined);
    assert_eq!(sys.feasible_subsystem().constraints(), vec![con(1, 0, i64::MAX, 9)]);
}

#[test]
fn feasible_system_reports_overflow_and_stays() {
    let mut sys = FeasibleSystem::new();
    assert_eq!(sys.try_add_constraint(con(1, 0, i64::MIN, 0)), AddOutcome::Added);
    assert_eq!(sys.try_add_constraint(con(2, 1, 0, 0)), AddOutcome::Added);
    assert_eq!(sys.solution().get(&2), Some(&i64::MIN));
    // x1 - x2 <= -1 would need x1 = i64::MIN - 1.
    assert_eq!(sys.try_add_constraint(con(1, 2, -1, 0)), AddOutcome::Overflow);
    assert_eq!(sys.solution().get(&1), Some(&i64::MIN));
    assert_eq!(sys.constraints().len(), 2);
    // x3 - x1 <= -1 would need x3 = i64::MIN - 1.
    assert_eq!(sys.try_add_constraint(con(3, 1, -1, 0)), AddOutcome::Overflow);
    assert_eq!(sys.try_add_constraint(con(1, 2, 0, 0)), AddOutcome::Added);
}

#[test]
fn constraint_on_one_variable() {
    let mut sys = FeasibleSystem::new();
    // As `x0` has no value, the check says yes.
    assert!(sys.check_new_constraint(&con(0, 0, -1, 0)));
    assert!(sys.check_new_constraint(&con(0, 0, 0, 0)));
    assert!(sys.attempt_add_constraint(con(0, 0, 2, 0)));
    assert_eq!(sys.solution().get(&0), Some(&0));
    assert!(!sys.check_new_constraint(&con(0, 0, -1, 0)));
    assert!(!sys.attempt_add_constraint(con(0, 0, -1, 0)));

    let mut dcs = DCS::from_iter(vec![con(3, 3, 1, 0), con(1, 0, 2, 0)]);
    dcs.solve();
    assert_eq!(dcs.status(), Status::Feasible);
    let mut dcs = DCS::from_iter(vec![con(3, 3, -1, 0)]);
    dcs.solve();
    assert_eq!(dcs.status(), Status::Infeasible);
}

#[test]
fn dcs_pair_takes_greatest_priority_given() {
    // The pair (0, 1) first waits under priority 1, the pair (1, 0) under 5;
    // a second constraint on (0, 1) raises its priority to 9, so it is
    // taken first, through its least bound with that bound's priority.
    let mut sys = DCS::new();
    sys.add_constraint(con(1, 0, -1, 1));
    sys.add_constraint(con(0, 1, -1, 5));
    sys.add_constraint(con(1, 0, 3, 9));
    sys.solve();
    assert_eq!(sys.status(), Status::Infeasible);
    assert_eq!(sys.feasible_subsystem().constraints(), vec![con(1, 0, -1, 1)]);

    let mut sys = DCS::from_iter(vec![con(1, 0, -1, 1), con(0, 1, -1, 5), con(1, 0, 3, 9)]);
    sys.solve();
    assert_eq!(sys.feasible_subsystem().constraints(), vec![con(1, 0, -1, 1)]);

    // A later constraint with the same bound gives the bound its priority.
    let mut sys = DCS::from_iter(vec![con(1, 0, -1, 1), con(1, 0, -1, 7)]);
    sys.solve();
    assert_eq!(sys.status(), Status::Feasible);
    assert_eq!(sys.feasible_subsystem().constraints(), vec![con(1, 0, -1, 7)]);
}

#[test]
fn feasible_system_bound_of_a_variable_with_itself_and_lb_negates_ub() {
    let sys = three_var_system();
    for x in 0..3u64 {
        assert_eq!(sys.get_implied_ub(&x, &x), Some(0));
        assert_eq!(sys.get_implied_lb(&x, &x), Some(0));
        for y in 0..3u64 {
            assert_eq!(sys.get_implied_lb(&x, &y), sys.get_implied_ub(&y, &x).map(|a| -a));
        }
    }
}

#[test]
fn multi_edge_push_then_remove_restores() {
    let mut e = MultiEdge::new();
    e.push(4, 1);
    e.push(2, 1);
    let least = e.peek().map(|(c, _)| *c);
    e.push(3, 7);
    assert_eq!(e.remove(3), Ok(false));
    assert_eq!(e.peek().map(|(c, _)| *c), least);
    assert!(!e.is_empty());
    e.push(2, 7);
    assert_eq!(e.remove(2), Ok(false));
    assert_eq!(e.peek().map(|(c, _)| *c), Some(2));

    let mut e = MultiEdge::new();
    e.push(5, 0);
    assert_eq!(e.remove(5), Ok(true));
    assert!(e.is_empty());
}

#[test]
fn dcs_pair_put_back_after_overflow_keeps_its_priority() {
    // x1 := i64::MAX; the pair (1, 2) waits under priority 8, its least
    // bound having priority 5, and cannot be added without overflow.
    let mut sys = DCS::from_iter(vec![con(1, 0, i64::MAX, 9), con(2, 1, 1, 5), con(2, 1, 7, 8)]);
    sys.solve();
    assert_eq!(sys.status(), Status::Undetermined);
    // Two contradicting pairs of priority 6 wait behind it: the pair (1, 2)
    // is taken first again, and `solve` stops there again.
    sys.add_constraint(con(3, 4, -1, 6));
    sys.add_constraint(con(4, 3, -1, 6));
    sys.solve();
    assert_eq!(sys.status(), Status::Undetermined);
    assert_eq!(sys.feasible_subsystem().constraints(), vec![con(1, 0, i64::MAX, 9)]);
}

#[test]
fn dcs_solve_ends_determined_with_values_within_the_bound() {
    // From no values, with bounds within [-m, m] and k waiting pairs, the
    // values end within m k (0 + k).
    let list = vec![
        con(1, 0, 1, 0),
        con(2, 1, 2, 0),
        con(0, 2, -3, 0),
        con(2, 0, 4, 0),
        con(3, 2, -4, 0),
        con(4, 3, -4, 0),
        con(0, 4, 5, 0),
    ];
    let m: i64 = 5;
    let mut pairs: Vec<(u64, u64)> = list.iter().map(|e| (e.u, e.v)).collect();
    pairs.sort();
    pairs.dedup();
    let k = pairs.len() as i64;
    let mut sys = DCS::from_iter(list.clone());
    sys.solve();
    assert_eq!(sys.status(), Status::Feasible);
    for x in 0..5u64 {
        let value = *sys.feasible_subsystem().solution().get(&x).unwrap();
        assert!(value.abs() <= m * k * k);
    }
}
