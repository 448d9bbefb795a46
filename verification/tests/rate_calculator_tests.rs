use ficsit_companion_rs::rate_calculator::{build_equations, find_connected_pins, validate_rate, LinearSolver, PinConstraint, RateError};
use ficsit_companion_rs::FractionalNumber;

#[test]
fn test_simple_equation() {
    let coefficients = vec![vec![FractionalNumber::new(2, 1)]];
    let constants = vec![FractionalNumber::new(4, 1)];

    let solver = LinearSolver::new(coefficients, constants).ok().unwrap();
    let solution = solver.solve().ok().unwrap();

    assert_eq!(solution.len(), 1);
    assert_eq!(solution[0], FractionalNumber::new(2, 1));
}

#[test]
fn test_two_equations() {
    let coefficients = vec![
        vec![FractionalNumber::new(1, 1), FractionalNumber::new(1, 1)],
        vec![FractionalNumber::new(1, 1), FractionalNumber::new(-1, 1)],
    ];
    let constants = vec![FractionalNumber::new(3, 1), FractionalNumber::new(1, 1)];

    let solver = LinearSolver::new(coefficients, constants).ok().unwrap();
    let solution = solver.solve().ok().unwrap();

    assert_eq!(solution.len(), 2);
    assert_eq!(solution[0], FractionalNumber::new(2, 1));
    assert_eq!(solution[1], FractionalNumber::new(1, 1));
}

#[test]
fn test_negative_rate_error() {
    let coefficients = vec![vec![FractionalNumber::new(1, 1)]];
    let constants = vec![FractionalNumber::new(-1, 1)];

    let solver = LinearSolver::new(coefficients, constants).ok().unwrap();
    let result = solver.solve();

    assert!(matches!(result, Err(RateError::NegativeRate)));
}

#[test]
fn test_contradictory_equations() {
    let coefficients = vec![vec![FractionalNumber::new(1, 1)], vec![FractionalNumber::new(1, 1)]];
    let constants = vec![FractionalNumber::new(1, 1), FractionalNumber::new(2, 1)];

    let solver = LinearSolver::new(coefficients, constants).ok().unwrap();
    let result = solver.solve();

    match result {
        Ok(_) => {}
        Err(RateError::Contradiction) => {}
        Err(_) => panic!("Wrong error type"),
    }
}

#[test]
fn test_find_connected_pins() {
    let links = vec![(1, 2), (1, 3), (4, 2)];

    let connected = find_connected_pins(1, &links);
    assert_eq!(connected.len(), 2);
    assert!(connected.contains(&2));
    assert!(connected.contains(&3));
}

#[test]
fn test_validate_rate() {
    assert!(validate_rate(&FractionalNumber::new(1, 1)));
    assert!(validate_rate(&FractionalNumber::new(0, 1)));
    assert!(!validate_rate(&FractionalNumber::new(-1, 1)));
}

#[test]
fn test_splitter_like_matrix_no_contradiction() {
    let z = || FractionalNumber::new(0, 1);
    let one = || FractionalNumber::new(1, 1);
    let neg = || FractionalNumber::new(-1, 1);
    let coeffs = vec![
        vec![one(), z(), z(), z(), z()],
        vec![one(), neg(), z(), z(), z()],
        vec![z(), z(), one(), neg(), z()],
        vec![one(), z(), z(), neg(), one()],
    ];
    let consts = vec![z(), z(), z(), z()];
    let solver = LinearSolver::new(coeffs, consts).ok().unwrap();
    let res = solver.solve();
    assert!(res.is_ok());
}

#[test]
fn contradiction_is_reported_for_conflicting_rows() {
    let coefficients = vec![vec![FractionalNumber::new(1, 1)], vec![FractionalNumber::new(2, 1)]];
    let constants = vec![FractionalNumber::new(1, 1), FractionalNumber::new(3, 1)];
    let solver = LinearSolver::new(coefficients, constants).ok().unwrap();
    assert!(matches!(solver.solve(), Err(RateError::Contradiction)));
}

#[test]
fn solver_setup_rejects_ragged_rows() {
    let coefficients = vec![vec![FractionalNumber::new(1, 1)], vec![]];
    let constants = vec![FractionalNumber::new(1, 1), FractionalNumber::new(1, 1)];
    assert!(matches!(LinearSolver::new(coefficients, constants), Err(RateError::Contradiction)));
    assert!(matches!(LinearSolver::new(vec![], vec![]), Err(RateError::NoSolution)));
}

#[test]
fn free_unknowns_are_zero() {
    // x + y = 2 has the solution x = 2, y = 0 when y is free.
    let coefficients = vec![vec![FractionalNumber::new(1, 1), FractionalNumber::new(1, 1)]];
    let constants = vec![FractionalNumber::new(2, 1)];
    let solution = LinearSolver::new(coefficients, constants).ok().unwrap().solve().ok().unwrap();
    assert_eq!(solution[0], FractionalNumber::new(2, 1));
    assert_eq!(solution[1], FractionalNumber::new(0, 1));
}

#[test]
fn connected_pins_of_unlinked_pin_is_empty() {
    let links = vec![(1, 2)];
    assert!(find_connected_pins(7, &links).is_empty());
    assert_eq!(find_connected_pins(2, &links), vec![1]);
}

#[test]
fn error_messages() {
    assert_eq!(RateError::NegativeRate.message(), "Solution would produce negative rates");
    assert_eq!(RateError::Contradiction.message(), "Contradictory constraints in graph");
}

#[test]
fn test_build_simple_equations() {
    let constraints = vec![
        PinConstraint { pin_id: 1, node_id: 10, is_locked: false },
        PinConstraint { pin_id: 2, node_id: 20, is_locked: false },
    ];
    let links = vec![(1, 2)];
    let locked_rates = Vec::new();

    let result = build_equations(constraints, locked_rates, links);
    assert!(result.is_ok());

    let (coefficients, constants, mapping) = result.unwrap();
    assert_eq!(mapping.num_variables, 2);
    assert_eq!(coefficients.len(), 1);
    assert_eq!(constants.len(), 1);
}

#[test]
fn build_equations_rows_and_refusals() {
    let constraints = vec![
        PinConstraint { pin_id: 1, node_id: 10, is_locked: false },
        PinConstraint { pin_id: 5, node_id: 10, is_locked: true },
        PinConstraint { pin_id: 2, node_id: 20, is_locked: false },
    ];
    let (rows, consts, mapping) =
        build_equations(constraints.clone(), vec![(2, FractionalNumber::new(3, 2))], vec![(1, 2), (1, 9)]).unwrap();
    assert_eq!(mapping.num_variables, 2);
    assert_eq!(rows.len(), 2);
    assert_eq!(rows[0], vec![FractionalNumber::new(1, 1), FractionalNumber::new(-1, 1)]);
    assert_eq!(rows[1], vec![FractionalNumber::new(0, 1), FractionalNumber::new(1, 1)]);
    assert_eq!(consts, vec![FractionalNumber::new(0, 1), FractionalNumber::new(3, 2)]);
    assert!(build_equations(Vec::new(), Vec::new(), Vec::new()).err() == Some(RateError::NoSolution));
    let all_locked = vec![PinConstraint { pin_id: 1, node_id: 1, is_locked: true }];
    assert!(build_equations(all_locked, Vec::new(), vec![(1, 1)]).err() == Some(RateError::NoSolution));
    assert!(build_equations(constraints, Vec::new(), vec![(7, 8)]).err() == Some(RateError::NoSolution));
}
