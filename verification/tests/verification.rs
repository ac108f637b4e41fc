use battleship::game::field::{Battlefield, CellType, FIELD_SIZE};
use battleship::game::ship::ShipType;
use battleship::zkp::battleship_verification::{
    count_ship_in_field, BattleshipVerification, Verdict,
};
use battleship::zkp::types::VerifyError;

fn empty_cells() -> Vec<CellType> {
    vec![CellType::Empty; FIELD_SIZE * FIELD_SIZE]
}

fn board(occupied: &[usize]) -> Battlefield {
    let mut cells = empty_cells();
    for &i in occupied {
        cells[i] = CellType::Occupied;
    }
    Battlefield(cells)
}

#[test]
fn battleship_constraints_correctness() {
    let mut field = empty_cells();
    // 4 ship-1
    field[00] = CellType::Occupied;
    field[55] = CellType::Occupied;
    field[17] = CellType::Occupied;
    field[99] = CellType::Occupied;

    // 1 ship-2
    field[39] = CellType::Occupied;
    field[49] = CellType::Occupied;

    let circuit = BattleshipVerification {
        field: Battlefield(field),
        ships: vec![
            ShipType {
                ship_size: 1,
                count: 4,
            },
            ShipType {
                ship_size: 2,
                count: 1,
            },
        ],
    };

    assert_eq!(circuit.verify().unwrap(), Verdict::Accepted);
}

#[test]
fn wrong_single_count_rejected() {
    let circuit = BattleshipVerification {
        field: board(&[00, 55, 17, 99, 39, 49]),
        ships: vec![
            ShipType {
                ship_size: 1,
                count: 5,
            },
            ShipType {
                ship_size: 2,
                count: 1,
            },
        ],
    };
    match circuit.verify().unwrap() {
        Verdict::Accepted => panic!("a wrong count was accepted"),
        Verdict::Rejected(which) => assert!(which.is_some()),
    }
}

#[test]
fn horizontal_pair_counted_once() {
    // One horizontal two-cell ship at cells 43 and 44 (row 4), nothing else.
    let field = board(&[43, 44]);
    assert_eq!(count_ship_in_field(&field, 2), 1);

    let accepted = BattleshipVerification {
        field: board(&[43, 44]),
        ships: vec![ShipType {
            ship_size: 2,
            count: 1,
        }],
    };
    assert_eq!(accepted.verify().unwrap(), Verdict::Accepted);

    // The pair must not be double-counted by the two sweeps.
    let cross_counted = BattleshipVerification {
        field: board(&[43, 44]),
        ships: vec![ShipType {
            ship_size: 2,
            count: 2,
        }],
    };
    assert!(matches!(
        cross_counted.verify().unwrap(),
        Verdict::Rejected(_)
    ));
}

#[test]
fn diagonal_neighbor_still_isolated() {
    // Cells (0, 0) and (1, 1): diagonally adjacent, no orthogonal contact.
    let field = board(&[0, 11]);
    assert_eq!(count_ship_in_field(&field, 1), 2);

    let circuit = BattleshipVerification {
        field: board(&[0, 11]),
        ships: vec![ShipType {
            ship_size: 1,
            count: 2,
        }],
    };
    assert_eq!(circuit.verify().unwrap(), Verdict::Accepted);
}

#[test]
fn verify_is_idempotent() {
    let circuit = BattleshipVerification {
        field: board(&[00, 55, 17, 99, 39, 49]),
        ships: vec![
            ShipType {
                ship_size: 1,
                count: 4,
            },
            ShipType {
                ship_size: 2,
                count: 1,
            },
        ],
    };
    let first = circuit.verify().unwrap();
    let second = circuit.verify().unwrap();
    assert_eq!(first, second);

    let rejected = BattleshipVerification {
        field: board(&[00]),
        ships: vec![ShipType {
            ship_size: 1,
            count: 2,
        }],
    };
    let first = rejected.verify().unwrap();
    let second = rejected.verify().unwrap();
    assert_eq!(
        matches!(first, Verdict::Accepted),
        matches!(second, Verdict::Accepted)
    );
}

#[test]
fn extended_ship_rejected() {
    // The accepted board, with the vertical pair at 39/49 grown by one cell.
    let circuit = BattleshipVerification {
        field: board(&[00, 55, 17, 99, 29, 39, 49]),
        ships: vec![
            ShipType {
                ship_size: 1,
                count: 4,
            },
            ShipType {
                ship_size: 2,
                count: 1,
            },
        ],
    };
    assert!(matches!(circuit.verify().unwrap(), Verdict::Rejected(_)));
}

#[test]
fn truncated_ship_rejected() {
    // The accepted board, with the vertical pair at 39/49 cut down to one cell.
    let circuit = BattleshipVerification {
        field: board(&[00, 55, 17, 99, 39]),
        ships: vec![
            ShipType {
                ship_size: 1,
                count: 4,
            },
            ShipType {
                ship_size: 2,
                count: 1,
            },
        ],
    };
    assert!(matches!(circuit.verify().unwrap(), Verdict::Rejected(_)));
}

#[test]
fn empty_fleet_spec_invalid() {
    let circuit = BattleshipVerification {
        field: board(&[]),
        ships: vec![],
    };
    assert_eq!(circuit.verify(), Err(VerifyError::InvalidFleetSpec));
}

#[test]
fn zero_length_fleet_entry_invalid() {
    let circuit = BattleshipVerification {
        field: board(&[]),
        ships: vec![ShipType {
            ship_size: 0,
            count: 1,
        }],
    };
    assert_eq!(circuit.verify(), Err(VerifyError::InvalidFleetSpec));
}

#[test]
fn full_row_run_counted_at_borders() {
    // A run filling row 0 touches both edges and is counted once.
    let field = board(&[0, 1, 2, 3, 4, 5, 6, 7, 8, 9]);
    assert_eq!(count_ship_in_field(&field, 10), 1);
    assert_eq!(count_ship_in_field(&field, 2), 0);
    assert_eq!(count_ship_in_field(&field, 1), 0);
}

#[test]
fn empty_board_counts_zero() {
    let field = board(&[]);
    assert_eq!(count_ship_in_field(&field, 1), 0);
    assert_eq!(count_ship_in_field(&field, 2), 0);
    assert_eq!(count_ship_in_field(&field, 4), 0);
}

#[test]
fn corner_single_is_isolated() {
    let field = board(&[99]);
    assert_eq!(count_ship_in_field(&field, 1), 1);
    assert_eq!(count_ship_in_field(&field, 2), 0);
}

#[test]
fn merged_runs_count_as_one_longer_ship() {
    // Cells 60..63 in row 6: two pairs laid end to end merge into one run.
    let field = board(&[60, 61, 62, 63]);
    assert_eq!(count_ship_in_field(&field, 2), 0);
    assert_eq!(count_ship_in_field(&field, 4), 1);
}

#[test]
fn vertical_pair_counted_once() {
    // Cells 39 and 49 share column 9 across rows 3 and 4.
    let field = board(&[39, 49]);
    assert_eq!(count_ship_in_field(&field, 2), 1);
    assert_eq!(count_ship_in_field(&field, 1), 0);
}
