use battleship::game::battleship::{ships_for_game, Battleship};
use battleship::game::field::{xy_from_code, Battlefield, CellType, FIELD_SIZE, XY};
use battleship::game::ship::{Ship, ShipShape, ShipType};
use battleship::zkp::battleship_verification::{BattleshipVerification, Verdict};

fn board(occupied: &[usize]) -> Battlefield {
    let mut cells = vec![CellType::Empty; FIELD_SIZE * FIELD_SIZE];
    for &i in occupied {
        cells[i] = CellType::Occupied;
    }
    Battlefield(cells)
}

#[test]
fn default_board_is_empty() {
    let game = Battleship::default();
    assert_eq!(game.field.0.len(), FIELD_SIZE * FIELD_SIZE);
    assert!(game.field.0.iter().all(|c| *c == CellType::Empty));
    assert!(game.shoots.is_empty());
}

#[test]
fn shoot_records_the_coordinates() {
    let mut game = Battleship::default();
    game.shoot(XY(3, 7));
    game.shoot(XY(0, 0));
    assert_eq!(game.shoots, vec![XY(3, 7), XY(0, 0)]);
}

#[test]
fn ship_cells_follow_the_direction() {
    let horizontal = Ship {
        xy: XY(2, 3),
        shape: ShipShape {
            dxy: XY(1, 0),
            size: 3,
        },
    };
    assert_eq!(horizontal.cells(), vec![XY(2, 3), XY(3, 3), XY(4, 3)]);

    let vertical = Ship {
        xy: XY(9, 8),
        shape: ShipShape {
            dxy: XY(0, 1),
            size: 2,
        },
    };
    assert_eq!(vertical.cells(), vec![XY(9, 8), XY(9, 9)]);
}

#[test]
fn can_place_ship_respects_clearance() {
    let empty = Battleship::default();
    let shape = ShipShape {
        dxy: XY(1, 0),
        size: 4,
    };
    assert!(empty.can_place_ship(Ship {
        xy: XY(0, 0),
        shape
    }));
    // The ship would run off the grid.
    assert!(!empty.can_place_ship(Ship {
        xy: XY(7, 0),
        shape
    }));

    let crowded = Battleship {
        field: board(&[0]),
        shoots: vec![],
    };
    let single = ShipShape {
        dxy: XY(1, 0),
        size: 1,
    };
    // Diagonal contact with the occupied corner is still too close.
    assert!(!crowded.can_place_ship(Ship {
        xy: XY(1, 1),
        shape: single
    }));
    assert!(crowded.can_place_ship(Ship {
        xy: XY(2, 2),
        shape: single
    }));
}

#[test]
fn available_cells_for_a_full_length_ship() {
    let empty = Battleship::default();
    let shape = ShipShape {
        dxy: XY(0, 1),
        size: 10,
    };
    let cells = empty.get_available_cells(shape);
    // Only the top of each column can hold a full-length vertical ship.
    assert_eq!(cells.len(), 10);
    assert!(cells.iter().all(|xy| xy.1 == 0));
}

#[test]
fn ships_for_game_matches_the_rules() {
    let ships = ships_for_game();
    assert_eq!(
        ships,
        vec![
            ShipType {
                ship_size: 4,
                count: 1
            },
            ShipType {
                ship_size: 3,
                count: 2
            },
            ShipType {
                ship_size: 2,
                count: 3
            },
            ShipType {
                ship_size: 1,
                count: 4
            },
        ]
    );
}

#[test]
fn xy_from_code_covers_the_grid() {
    assert_eq!(xy_from_code(0), Some(XY(0, 0)));
    assert_eq!(xy_from_code(55), Some(XY(5, 5)));
    assert_eq!(xy_from_code(99), Some(XY(9, 9)));
    assert_eq!(xy_from_code(17), Some(XY(1, 7)));
    assert_eq!(xy_from_code(100), None);
    assert_eq!(xy_from_code(usize::MAX), None);
}

#[test]
fn full_fleet_board_accepted() {
    // The complete rule-book fleet, laid out by hand with clearance:
    // one 4-ship, two 3-ships, three 2-ships, four singles.
    let circuit = BattleshipVerification {
        field: board(&[
            0, 1, 2, 3, // length 4 in row 0
            20, 21, 22, 24, 25, 26, // two length 3 in row 2
            40, 41, 43, 44, 46, 47, // three length 2 in row 4
            60, 62, 64, 66, // four singles in row 6
        ]),
        ships: ships_for_game(),
    };
    assert_eq!(circuit.verify().unwrap(), Verdict::Accepted);
}

#[test]
fn generated_board_verifies_against_the_rules() {
    // The generator is random and may rarely dead-end; a few attempts are
    // more than enough to obtain one board.
    for _ in 0..20 {
        if let Some(game) = Battleship::generate() {
            let circuit = BattleshipVerification {
                field: game.field,
                ships: ships_for_game(),
            };
            assert_eq!(circuit.verify().unwrap(), Verdict::Accepted);
            return;
        }
    }
    panic!("the generator never produced a board");
}
