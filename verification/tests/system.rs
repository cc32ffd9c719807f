use dcs::common::Constraint;
use dcs::{Status, DCS};
use rand::seq::{IteratorRandom, SliceRandom};
use rand::{Rng, SeedableRng};
use rand_chacha::ChaCha8Rng;

type MyConstraints = Vec<Constraint>;

const X: u64 = 0;
const Y: u64 = 1;
const Z: u64 = 2;

fn constraint(v: u64, u: u64, c: i64) -> Constraint {
    Constraint { v, u, c, priority: 0 }
}

fn as_constraints(tuples: &[(u64, u64, i64)]) -> Vec<Constraint> {
    tuples.iter().map(|&(v, u, c)| constraint(v, u, c)).collect()
}

fn expect_feasible(constraints: Vec<Constraint>) {
    let mut sys = DCS::from_iter(constraints.clone());
    sys.solve();
    assert!(matches!(sys.status(), Status::Feasible));
    assert!(sys
        .feasible_subsystem()
        .solution()
        .check_constraints(&constraints)
        .is_none());
}

fn expect_feasible_with_inner_checks(constraints: Vec<Constraint>) {
    let mut sys = DCS::new();
    for (i, constraint) in constraints.iter().enumerate() {
        sys.add_constraint(*constraint);
        sys.solve();
        assert!(matches!(sys.status(), Status::Feasible));
        assert!(sys
            .feasible_subsystem()
            .solution()
            .check_constraints(&constraints[..i + 1])
            .is_none());
    }
}

fn expect_infeasible(constraints: Vec<Constraint>) -> DCS {
    let mut sys = DCS::from_iter(constraints);
    sys.solve();
    assert!(matches!(sys.status(), Status::Infeasible));
    let feasible_constraints = sys.feasible_subsystem().constraints();
    assert!(sys
        .feasible_subsystem()
        .solution()
        .check_constraints(&feasible_constraints)
        .is_none());
    sys
}

#[test]
fn test_single_constraint() {
    expect_feasible(vec![constraint(X, Y, 0)]);
}

#[test]
fn test_simple_feasible() {
    expect_feasible_with_inner_checks(as_constraints(&[
        (Y, X, 1),
        (Z, Y, 2),
        (X, Z, -3),
        (Z, X, 4),
        (Z, X, 4),
        (Z, X, 4),
        (X, Z, -2),
        (X, Z, -2),
    ]));
}

#[test]
fn lib_test_get_implied_ub() {
    let mut sys = DCS::from_iter(as_constraints(&[(Y, X, 1), (Z, Y, 2), (X, Z, -3), (Z, X, 4)]));
    sys.solve();
    assert_eq!(sys.feasible_subsystem().get_implied_ub(&Z, &X).unwrap(), 3);
}

fn generate_random_feasible_constraints(
    num_vars: usize,
    num_constraints: usize,
    num_dup_constraints: usize,
    seed: u64,
) -> MyConstraints {
    let mut rng = ChaCha8Rng::seed_from_u64(seed);
    let x: Vec<i64> = (0..num_vars).map(|_| rng.gen_range(0..100)).collect();
    let mut all_constraints = Vec::new();
    for v in 0..num_vars {
        for u in 0..num_vars {
            if u != v {
                all_constraints.push((v, u));
            }
        }
    }
    let mut out: MyConstraints = all_constraints
        .iter()
        .choose_multiple(&mut rng, num_constraints)
        .into_iter()
        .map(|(v, u)| constraint(*v as u64, *u as u64, x[*v] - x[*u]))
        .collect();
    out.shuffle(&mut rng);
    for i in 0..num_dup_constraints {
        let c = out[i];
        let extra_c = rng.gen_range(0..10);
        out.push(constraint(c.v, c.u, c.c + extra_c));
    }
    out
}

fn generate_random_infeasible_cycle(cycle_size: usize, seed: u64) -> MyConstraints {
    let mut rng = ChaCha8Rng::seed_from_u64(seed);
    let x: Vec<i64> = (0..cycle_size - 1).map(|_| rng.gen_range(0..100)).collect();
    let mut constraints: MyConstraints = x
        .iter()
        .enumerate()
        .map(|(u, c)| constraint(u as u64 + 1, u as u64, *c))
        .collect();
    let infeasibility: i64 = rng.gen_range(1..10);
    let path_length: i64 = x.iter().sum();
    constraints.push(constraint(0, cycle_size as u64 - 1, -path_length - infeasibility));
    constraints
}

#[test]
fn test_random_infeasible_cycles() {
    for num_vars in 2..10 {
        for seed in 0..100 {
            let constraints = generate_random_infeasible_cycle(num_vars, seed);
            expect_infeasible(constraints);
        }
    }
}

fn generate_random_infeasible_system(
    num_vars: usize,
    num_feasible_constraints: usize,
    num_infeasible_constraints: usize,
    num_dup_constraints: usize,
    seed: u64,
) -> (MyConstraints, MyConstraints) {
    let mut rng = ChaCha8Rng::seed_from_u64(seed);
    let mut constraints =
        generate_random_feasible_constraints(num_vars, num_feasible_constraints, num_dup_constraints, seed);
    let infeasible_constraints = generate_random_infeasible_cycle(num_infeasible_constraints, seed);
    constraints.append(&mut infeasible_constraints.clone());
    constraints.shuffle(&mut rng);
    (constraints, infeasible_constraints)
}

#[test]
fn test_random_infeasible_system() {
    for num_vars in 2usize..10 {
        for num_feasible_constraints in 0..(num_vars * (num_vars - 1) + 1) {
            for num_infeasible_constraints in 2..(num_vars + 1) {
                for seed in 0..3 {
                    let num_dup_constraints = (num_feasible_constraints as i64 - 2 * seed as i64)
                        .clamp(0, num_feasible_constraints as i64)
                        as usize;
                    let (all_constraints, _infeasible_constraints) = generate_random_infeasible_system(
                        num_vars,
                        num_feasible_constraints,
                        num_infeasible_constraints,
                        num_dup_constraints,
                        seed,
                    );
                    let _sys = expect_infeasible(all_constraints);
                }
            }
        }
    }
}

#[test]
fn test_random_feasible_system() {
    for num_vars in 2..10 {
        for num_dup_constraints in 0..num_vars + 1 {
            for seed in 0..10 {
                let num_constraints = num_vars * (num_vars - 1);
                let constraints =
                    generate_random_feasible_constraints(num_vars, num_constraints, num_dup_constraints, seed);
                expect_feasible_with_inner_checks(constraints);
            }
        }
    }
}

#[test]
fn test_infeasible_system() {
    let constraints = vec![
        constraint(0, 1, 40),
        constraint(0, 1, 41),
        constraint(2, 1, 6),
        constraint(2, 1, 6),
        constraint(2, 1, 6),
        constraint(0, 2, -60),
        constraint(1, 0, -40),
        constraint(1, 0, -40),
    ];
    expect_infeasible(constraints);
}

#[test]
fn test_remove_constraint() {
    let constraints = [
        constraint(0, 1, 40),
        constraint(2, 1, 6),
        constraint(0, 2, -60),
        constraint(1, 0, -40),
    ];
    let sys = DCS::from_iter(constraints.to_vec());
    assert!(matches!(sys.status(), Status::Undetermined));
}
