use sudoku::topology::{
    cells_of_zone, col, col_zone, field, field_zone, neighbours, row, row_zone,
};

#[test]
fn coordinates_of_cells() {
    assert_eq!((row(0), col(0), field(0)), (0, 0, 0));
    assert_eq!((row(8), col(8), field(8)), (0, 8, 2));
    assert_eq!((row(30), col(30), field(30)), (3, 3, 4));
    assert_eq!((row(53), col(53), field(53)), (5, 8, 5));
    assert_eq!((row(72), col(72), field(72)), (8, 0, 6));
    assert_eq!((row(80), col(80), field(80)), (8, 8, 8));
    assert_eq!((row_zone(30), col_zone(30), field_zone(30)), (3, 12, 22));
}

#[test]
fn zones_hold_their_cells_in_order() {
    assert_eq!(cells_of_zone(0), [0, 1, 2, 3, 4, 5, 6, 7, 8]);
    assert_eq!(cells_of_zone(8), [72, 73, 74, 75, 76, 77, 78, 79, 80]);
    assert_eq!(cells_of_zone(9), [0, 9, 18, 27, 36, 45, 54, 63, 72]);
    assert_eq!(cells_of_zone(17), [8, 17, 26, 35, 44, 53, 62, 71, 80]);
    assert_eq!(cells_of_zone(18), [0, 1, 2, 9, 10, 11, 18, 19, 20]);
    assert_eq!(cells_of_zone(22), [30, 31, 32, 39, 40, 41, 48, 49, 50]);
    assert_eq!(cells_of_zone(26), [60, 61, 62, 69, 70, 71, 78, 79, 80]);
}

#[test]
fn every_cell_is_in_its_three_zones() {
    for cell in 0..81u8 {
        for zone in [row_zone(cell), col_zone(cell), field_zone(cell)] {
            assert!(cells_of_zone(zone as u8).contains(&cell));
        }
        let mut count = 0;
        for zone in 0..27u8 {
            if cells_of_zone(zone).contains(&cell) {
                count += 1;
            }
        }
        assert_eq!(count, 3);
    }
}

#[test]
fn neighbours_are_the_twenty_cells_in_sight() {
    for cell in 0..81u8 {
        let mut got = neighbours(cell).to_vec();
        got.sort();
        let mut want = Vec::new();
        for other in 0..81u8 {
            if other != cell
                && (row(other) == row(cell)
                    || col(other) == col(cell)
                    || field(other) == field(cell))
            {
                want.push(other);
            }
        }
        assert_eq!(want.len(), 20);
        assert_eq!(got, want);
    }
}

#[test]
fn neighbours_of_a_corner() {
    assert_eq!(
        neighbours(0),
        [1, 2, 3, 4, 5, 6, 7, 8, 9, 18, 27, 36, 45, 54, 63, 72, 10, 11, 19, 20]
    );
}
