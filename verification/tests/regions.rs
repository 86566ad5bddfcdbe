use sabita::grid::{location_to_region, region_to_location};

#[test]
fn every_cell_has_its_fixed_region() {
    for line in 0..9usize {
        for column in 0..9usize {
            let region = location_to_region(&line, &column).unwrap();
            assert_eq!(region as usize, (line / 3) * 3 + column / 3);
        }
    }
}

#[test]
fn regions_partition_the_board() {
    // Each region anchors a 3x3 block, blocks are disjoint, and the 81 cells
    // are covered: 9 regions of 9 cells each.
    let mut seen = [[false; 9]; 9];
    for region in 0..9u8 {
        let (start_line, start_column) = region_to_location(&region);
        for dl in 0..3usize {
            for dc in 0..3usize {
                let line = start_line + dl;
                let column = start_column + dc;
                assert!(!seen[line][column], "cell covered twice");
                seen[line][column] = true;
                assert_eq!(location_to_region(&line, &column).unwrap(), region);
            }
        }
    }
    for line in 0..9usize {
        for column in 0..9usize {
            assert!(seen[line][column], "cell not covered");
        }
    }
}

#[test]
fn region_anchors_match_the_fixed_table() {
    let expected = [
        (0, 0),
        (0, 3),
        (0, 6),
        (3, 0),
        (3, 3),
        (3, 6),
        (6, 0),
        (6, 3),
        (6, 6),
    ];
    for region in 0..9u8 {
        assert_eq!(region_to_location(&region), expected[region as usize]);
    }
}

#[test]
fn off_board_coordinates_have_no_region() {
    assert!(location_to_region(&9, &0).is_err());
    assert!(location_to_region(&0, &9).is_err());
    assert!(location_to_region(&12, &34).is_err());
}
