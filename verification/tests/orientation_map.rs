use floorcast::floor::cell_index_of;
use floorcast::orientation::orientation_cell;

#[test]
fn identity_orientation_is_row_major() {
    assert_eq!(orientation_cell(0, 0), (0, 0));
    assert_eq!(orientation_cell(0, 1), (0, 1));
    assert_eq!(orientation_cell(0, 5), (0, 5));
    assert_eq!(orientation_cell(0, 6), (1, 0));
    assert_eq!(orientation_cell(0, 35), (5, 5));
}

#[test]
fn rotated_orientation_reflects_both_coordinates() {
    assert_eq!(orientation_cell(1, 0), (5, 5));
    assert_eq!(orientation_cell(1, 5), (5, 0));
    assert_eq!(orientation_cell(1, 30), (0, 5));
    assert_eq!(orientation_cell(1, 35), (0, 0));
}

#[test]
fn placement_round_trips_through_its_inverse() {
    for direction in [0, 1] {
        let mut seen = [[false; 6]; 6];
        for i in 0..36 {
            let (r, c) = orientation_cell(direction, i);
            assert!(!seen[r][c], "cell hit twice: not a bijection");
            seen[r][c] = true;
            assert_eq!(cell_index_of(direction, r, c), i);
        }
    }
}

#[test]
fn index_map_round_trips_through_placement() {
    for direction in [0, 1] {
        for r in 0..6 {
            for c in 0..6 {
                let i = cell_index_of(direction, r, c);
                assert!(i < 36);
                assert_eq!(orientation_cell(direction, i), (r, c));
            }
        }
    }
}
