use everybody_codes::common::{Part, QuestError};
use everybody_codes::quests::quest03::{solve, DepthMap};

const EXAMPLE: &str = "..........\n..###.##..\n...####...\n..######..\n..######..\n...####...\n..........\n";

fn example_map(diagonal: bool) -> DepthMap {
    let mut map = DepthMap::parse(EXAMPLE.as_bytes());
    map.set_diagonal_neighbours(diagonal);
    map.trim();
    map
}

#[test]
fn depth_map_trim() {
    let mut map = DepthMap::new(vec![
        vec![0, 0, 0, 0, 0],
        vec![0, 0, 0, 0, 0],
        vec![0, 1, 1, 0, 0],
        vec![0, 0, 0, 1, 0],
        vec![0, 0, 0, 1, 0],
        vec![0, 1, 1, 0, 0],
        vec![0, 0, 0, 0, 0],
    ]);

    map.trim();

    let expected = DepthMap::new(vec![
        vec![1, 1, 0],
        vec![0, 0, 1],
        vec![0, 0, 1],
        vec![1, 1, 0],
    ]);

    assert_eq!(map, expected);
}

#[test]
fn quest03_solve_part_one_example() {
    assert_eq!("35", solve(Part::One, EXAMPLE.as_bytes()).unwrap());
}

#[test]
fn quest03_solve_part_three_example() {
    assert_eq!("29", solve(Part::Three, EXAMPLE.as_bytes()).unwrap());
}

#[test]
fn solve_part_two_uses_orthogonal_neighbours() {
    assert_eq!("35", solve(Part::Two, EXAMPLE.as_bytes()).unwrap());
}

#[test]
fn solve_without_occupied_cells_is_zero() {
    assert_eq!("0", solve(Part::One, b"....\n....\n").unwrap());
    assert_eq!("0", solve(Part::Three, b"").unwrap());
}

#[test]
fn solve_reports_depth_overflow() {
    // A solid square of 511 by 511 cells has its centre 256 cells deep.
    let mut notes = Vec::new();
    for _ in 0..511 {
        notes.extend(std::iter::repeat(b'#').take(511));
        notes.push(b'\n');
    }
    assert_eq!(Err(QuestError::Overflow), solve(Part::One, &notes));
}

#[test]
fn solve_solid_square() {
    // In a solid square of 9 by 9 the rings have depth 1 to 5 under either rule.
    let mut notes = Vec::new();
    for _ in 0..9 {
        notes.extend(std::iter::repeat(b'#').take(9));
        notes.push(b'\n');
    }
    // 32 * 1 + 24 * 2 + 16 * 3 + 8 * 4 + 1 * 5
    assert_eq!("165", solve(Part::Three, &notes).unwrap());
    assert_eq!("165", solve(Part::One, &notes).unwrap());
}

#[test]
fn parse_maps_symbols_to_depths() {
    let map = DepthMap::parse(b".#.\n##.\n");
    assert_eq!(map, DepthMap::new(vec![vec![0, 1, 0], vec![1, 1, 0]]));
}

#[test]
fn parse_drops_other_symbols_without_leaving_a_gap() {
    let map = DepthMap::parse(b".x#\n# #.\r\n");
    assert_eq!(map, DepthMap::new(vec![vec![0, 1], vec![1, 1, 0]]));
}

#[test]
fn parse_last_line_needs_no_newline() {
    let map = DepthMap::parse(b"#.\n.#");
    assert_eq!(map, DepthMap::new(vec![vec![1, 0], vec![0, 1]]));
}

#[test]
fn parse_empty_lines_give_empty_rows() {
    let map = DepthMap::parse(b"#\n\n\n");
    assert_eq!(map, DepthMap::new(vec![vec![1], vec![], vec![]]));
    assert_eq!(DepthMap::parse(b""), DepthMap::new(vec![]));
    assert_eq!(DepthMap::parse(b"abc"), DepthMap::new(vec![vec![]]));
}

#[test]
fn new_counts_orthogonal_neighbours_only() {
    let mut plain = DepthMap::new(vec![vec![1]]);
    let mut diagonal = DepthMap::new(vec![vec![1]]);
    diagonal.set_diagonal_neighbours(true);
    assert_ne!(plain, diagonal);
    diagonal.set_diagonal_neighbours(false);
    assert_eq!(plain, diagonal);
    plain.set_diagonal_neighbours(false);
    assert_eq!(plain, DepthMap::new(vec![vec![1]]));
}

#[test]
fn get_is_none_outside_the_map() {
    let map = DepthMap::new(vec![vec![3, 4], vec![5]]);
    assert_eq!(Some(3), map.get(0, 0));
    assert_eq!(Some(4), map.get(1, 0));
    assert_eq!(Some(5), map.get(0, 1));
    assert_eq!(None, map.get(1, 1));
    assert_eq!(None, map.get(0, 2));
    assert_eq!(None, map.get(usize::MAX, usize::MAX));
}

#[test]
fn trim_without_occupied_cells_gives_one_empty_cell() {
    let flat = DepthMap::new(vec![vec![0]]);

    let mut zeros = DepthMap::new(vec![vec![0, 0, 0], vec![0, 0, 0]]);
    zeros.trim();
    assert_eq!(zeros, flat);

    let mut no_rows = DepthMap::new(vec![]);
    no_rows.trim();
    assert_eq!(no_rows, flat);

    let mut no_cells = DepthMap::new(vec![vec![], vec![]]);
    no_cells.trim();
    assert_eq!(no_cells, flat);
}

#[test]
fn trim_keeps_the_choice_of_neighbours() {
    let mut map = DepthMap::new(vec![vec![0, 0], vec![0, 0]]);
    map.set_diagonal_neighbours(true);
    map.trim();
    let mut expected = DepthMap::new(vec![vec![0]]);
    expected.set_diagonal_neighbours(true);
    assert_eq!(map, expected);
}

#[test]
fn trim_keeps_depths_and_relative_positions() {
    let mut map = DepthMap::new(vec![
        vec![0, 0, 0, 0],
        vec![0, 0, 7, 0],
        vec![0, 2, 0, 0],
        vec![0, 0, 0, 0],
    ]);
    map.trim();
    assert_eq!(map, DepthMap::new(vec![vec![0, 7], vec![2, 0]]));
}

#[test]
fn trim_single_occupied_cell() {
    let mut map = DepthMap::new(vec![vec![0, 0, 0], vec![0, 0, 9], vec![0, 0, 0]]);
    map.trim();
    assert_eq!(map, DepthMap::new(vec![vec![9]]));
}

#[test]
fn trim_is_idempotent() {
    let mut map = example_map(false);
    let once = example_map(false);
    map.trim();
    assert_eq!(map, once);
}

#[test]
fn trim_tolerates_rows_of_different_length() {
    // The second row ends before the box does, the third before it begins.
    let mut map = DepthMap::new(vec![
        vec![0, 0, 1, 0, 1, 0],
        vec![0, 0, 1],
        vec![0],
        vec![0, 0, 0, 0, 1],
        vec![0, 0, 0, 0, 0, 0, 0],
    ]);
    map.trim();
    assert_eq!(
        map,
        DepthMap::new(vec![vec![1, 0, 1], vec![1], vec![], vec![0, 0, 1]])
    );
}

#[test]
fn dig_decides_every_cell_on_the_map_before_the_pass() {
    // Updating in place, cell by cell, would raise (1, 1) first and then
    // find its neighbours (2, 1) and (1, 2) next to a deeper cell: it would
    // raise five cells, in the pattern of a chessboard, instead of nine.
    let mut map = DepthMap::new(vec![vec![1; 5]; 5]);
    assert_eq!(9, map.dig());
    assert_eq!(
        map,
        DepthMap::new(vec![
            vec![1, 1, 1, 1, 1],
            vec![1, 2, 2, 2, 1],
            vec![1, 2, 2, 2, 1],
            vec![1, 2, 2, 2, 1],
            vec![1, 1, 1, 1, 1],
        ])
    );
    assert_eq!(1, map.dig());
    assert_eq!(
        map,
        DepthMap::new(vec![
            vec![1, 1, 1, 1, 1],
            vec![1, 2, 2, 2, 1],
            vec![1, 2, 3, 2, 1],
            vec![1, 2, 2, 2, 1],
            vec![1, 1, 1, 1, 1],
        ])
    );
    assert_eq!(0, map.dig());
}

#[test]
fn dig_example_pass_by_pass() {
    let mut map = example_map(false);
    assert_eq!(
        map,
        DepthMap::new(vec![
            vec![1, 1, 1, 0, 1, 1],
            vec![0, 1, 1, 1, 1, 0],
            vec![1, 1, 1, 1, 1, 1],
            vec![1, 1, 1, 1, 1, 1],
            vec![0, 1, 1, 1, 1, 0],
        ])
    );
    assert_eq!(25, map.sum());
    assert_eq!(9, map.dig());
    assert_eq!(
        map,
        DepthMap::new(vec![
            vec![1, 1, 1, 0, 1, 1],
            vec![0, 1, 2, 1, 1, 0],
            vec![1, 2, 2, 2, 2, 1],
            vec![1, 2, 2, 2, 2, 1],
            vec![0, 1, 1, 1, 1, 0],
        ])
    );
    assert_eq!(34, map.sum());
    assert_eq!(1, map.dig());
    assert_eq!(Some(3), map.get(2, 2));
    assert_eq!(0, map.dig());
    assert_eq!(35, map.sum());
}

#[test]
fn dig_with_diagonal_neighbours_raises_fewer_cells() {
    let mut map = example_map(true);
    assert_eq!(4, map.dig());
    assert_eq!(
        map,
        with_diagonals(vec![
            vec![1, 1, 1, 0, 1, 1],
            vec![0, 1, 1, 1, 1, 0],
            vec![1, 1, 2, 2, 1, 1],
            vec![1, 1, 2, 2, 1, 1],
            vec![0, 1, 1, 1, 1, 0],
        ])
    );
    assert_eq!(0, map.dig());
    assert_eq!(29, map.sum());
}

#[test]
fn dig_never_touches_empty_cells() {
    let mut map = DepthMap::new(vec![vec![0; 4]; 4]);
    assert_eq!(0, map.dig());
    assert_eq!(map, DepthMap::new(vec![vec![0; 4]; 4]));
}

#[test]
fn dig_needs_every_neighbour_present() {
    let mut single = DepthMap::new(vec![vec![1]]);
    assert_eq!(0, single.dig());
    let mut line = DepthMap::new(vec![vec![1, 1, 1, 1]]);
    assert_eq!(0, line.dig());
    // The cell below the middle one is missing: the row is too short.
    let mut ragged = DepthMap::new(vec![vec![1, 1, 1], vec![1, 1, 1], vec![1]]);
    assert_eq!(0, ragged.dig());
}

#[test]
fn dig_needs_every_neighbour_equally_deep() {
    let mut map = DepthMap::new(vec![vec![3, 3, 3], vec![3, 3, 3], vec![3, 2, 3]]);
    assert_eq!(0, map.dig());
    let mut level = DepthMap::new(vec![vec![3, 3, 3], vec![3, 3, 3], vec![3, 3, 3]]);
    assert_eq!(1, level.dig());
    assert_eq!(Some(4), level.get(1, 1));
}

#[test]
fn dig_with_diagonals_looks_at_the_corners() {
    let rows = vec![vec![0, 1, 1], vec![1, 1, 1], vec![1, 1, 1]];
    let mut plain = DepthMap::new(rows.clone());
    assert_eq!(1, plain.dig());
    let mut diagonal = DepthMap::new(rows);
    diagonal.set_diagonal_neighbours(true);
    assert_eq!(0, diagonal.dig());
}

#[test]
fn try_dig_refuses_to_go_past_the_deepest_level() {
    let rows = vec![vec![255; 3]; 3];
    let mut map = DepthMap::new(rows.clone());
    assert_eq!(None, map.try_dig());
    assert_eq!(map, DepthMap::new(rows));
    assert!(!map.erode());

    let mut almost = DepthMap::new(vec![vec![254; 3]; 3]);
    assert_eq!(Some(1), almost.try_dig());
    assert_eq!(Some(255), almost.get(1, 1));
    assert_eq!(Some(0), almost.try_dig());
}

#[test]
fn erosion_stops_within_the_smaller_dimension() {
    for (height, width) in [(1usize, 1usize), (1, 9), (2, 2), (3, 7), (6, 4), (9, 9), (12, 5)] {
        for diagonal in [false, true] {
            let mut map = DepthMap::new(vec![vec![1; width]; height]);
            map.set_diagonal_neighbours(diagonal);
            let mut calls = 1;
            while map.dig() > 0 {
                calls += 1;
            }
            assert!(calls <= height.min(width), "{height} by {width}: {calls}");
        }
    }
}

#[test]
fn erosion_stays_at_rest() {
    for diagonal in [false, true] {
        let mut map = example_map(diagonal);
        while map.dig() > 0 {}
        let sum = map.sum();
        let rest = example_map_eroded(diagonal);
        for _ in 0..5 {
            assert_eq!(0, map.dig());
            assert_eq!(sum, map.sum());
            assert_eq!(map, rest);
        }
    }
}

fn example_map_eroded(diagonal: bool) -> DepthMap {
    let mut map = example_map(diagonal);
    assert!(map.erode());
    map
}

#[test]
fn erode_runs_to_the_stable_map() {
    let mut map = example_map(false);
    assert!(map.erode());
    assert_eq!(
        map,
        DepthMap::new(vec![
            vec![1, 1, 1, 0, 1, 1],
            vec![0, 1, 2, 1, 1, 0],
            vec![1, 2, 3, 2, 2, 1],
            vec![1, 2, 2, 2, 2, 1],
            vec![0, 1, 1, 1, 1, 0],
        ])
    );
    assert_eq!(35, map.sum());
}

#[test]
fn diagonal_neighbours_never_erode_deeper() {
    let maps = [
        vec![vec![1; 7]; 7],
        vec![vec![1; 4]; 9],
        vec![
            vec![1, 1, 1, 0, 1, 1],
            vec![0, 1, 1, 1, 1, 0],
            vec![1, 1, 1, 1, 1, 1],
            vec![1, 1, 1, 1, 1, 1],
            vec![0, 1, 1, 1, 1, 0],
        ],
        vec![vec![2, 2, 2], vec![2, 2, 2], vec![2, 2, 2, 5]],
    ];
    for rows in maps {
        let mut four = DepthMap::new(rows.clone());
        let mut eight = DepthMap::new(rows.clone());
        eight.set_diagonal_neighbours(true);
        assert!(four.erode());
        assert!(eight.erode());
        assert!(eight.sum() <= four.sum());
        for (y, row) in rows.iter().enumerate() {
            for x in 0..row.len() {
                assert!(eight.get(x, y) <= four.get(x, y));
            }
        }
    }
}

#[test]
fn sum_adds_all_depths() {
    assert_eq!(0, DepthMap::new(vec![]).sum());
    assert_eq!(0, DepthMap::new(vec![vec![], vec![]]).sum());
    assert_eq!(21, DepthMap::new(vec![vec![1, 2, 3], vec![4], vec![5, 6]]).sum());
    assert_eq!(Some(510), DepthMap::new(vec![vec![255, 255]]).checked_sum());
}

#[test]
fn render_draws_depths_in_hexadecimal() {
    let map = DepthMap::new(vec![vec![0, 1, 9], vec![10, 15], vec![], vec![16, 255]]);
    assert_eq!(".19\nAF\n\n10FF\n", map.render());
    assert_eq!("", DepthMap::new(vec![]).render());
}

fn with_diagonals(rows: Vec<Vec<u8>>) -> DepthMap {
    let mut map = DepthMap::new(rows);
    map.set_diagonal_neighbours(true);
    map
}
