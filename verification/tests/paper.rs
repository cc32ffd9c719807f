use dcs::common::Constraint;
use dcs::feasible_system::FeasibleSystem;
use priority_queue::PriorityQueue;
use rand::seq::{IteratorRandom, SliceRandom};
use rand::{Rng, SeedableRng};
use rand_chacha::ChaCha8Rng;

fn check_multiple_constraints(constraints: &[(u64, u64, i64)]) -> FeasibleSystem {
    let mut sys = FeasibleSystem::new();
    for &(v, u, c) in constraints {
        let constraint = Constraint::new(v, u, c, 0);
        if sys.attempt_add_constraint(constraint) {
            assert!(sys.check_solution(sys.solution()));
        } else {
            panic!()
        }
    }
    sys
}

#[test]
fn test_check() {
    let x = 0;
    let y = 1;
    let mut sys = FeasibleSystem::new();
    assert!(sys.attempt_add_constraint(Constraint::new(x, y, 0, 0)));
    assert!(sys.check_solution(sys.solution()))
}

#[test]
fn test_check2() {
    check_multiple_constraints(&[(1, 0, 1), (2, 1, 2), (0, 2, -3), (2, 0, 4)]);
    println!("hello")
}

#[test]
fn test_check3() {
    let x = 10;
    let y = 11;
    let z = 12;
    check_multiple_constraints(&[(y, x, 1), (z, y, 2), (x, z, -3), (z, x, 4)]);
    println!("hello")
}

#[test]
fn paper_version_test_get_implied_ub() {
    let sys = check_multiple_constraints(&[(1, 0, 1), (2, 1, 2), (0, 2, -3), (2, 0, 4)]);
    assert_eq!(sys.get_implied_ub(&2, &0).unwrap(), 3);
}

fn generate_feasible_system(num_vars: usize, num_constraints: usize, seed: u64) -> Vec<(u64, u64, i64)> {
    let mut rng = ChaCha8Rng::seed_from_u64(seed);
    let x: Vec<i64> = (0..num_vars).map(|_| rng.gen_range(0..100)).collect();
    let mut all_constraints = Vec::new();
    for v in 0..num_vars {
        for u in 0..num_vars {
            if u != v {
                all_constraints.push((v, u));
            }
        }
    }
    let mut out: Vec<(u64, u64, i64)> = all_constraints
        .iter()
        .choose_multiple(&mut rng, num_constraints)
        .into_iter()
        .map(|(v, u)| (*v as u64, *u as u64, x[*v] - x[*u]))
        .collect();
    out.shuffle(&mut rng);
    out
}

#[test]
fn test_random_system() {
    for num_vars in 2..10 {
        for seed in 0..100 {
            let num_constraints = num_vars * (num_vars - 1);
            check_multiple_constraints(&generate_feasible_system(num_vars, num_constraints, seed));
        }
    }
}

#[test]
fn test_push_decrease() {
    let mut q = PriorityQueue::new();
    q.push("x", 1);
    q.push("y", 10);
    q.push_decrease("x", 2);
    assert_eq!(q.get_priority("x"), Some(&1));
    assert_eq!(q.get_priority("y"), Some(&10));

    let mut q = PriorityQueue::new();
    q.push("x", 1);
    q.push("y", 10);
    q.push_decrease("x", -5);
    assert_eq!(q.get_priority("x"), Some(&(-5)));
    assert_eq!(q.get_priority("y"), Some(&10));
}
