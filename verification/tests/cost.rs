use seam_carving::Direction;
use seam_carving::build_cost_matrix;
use seam_carving::find_shortest_path;

#[test]
fn test_build_cost_01_row() {
    let w = 3;
    let h = 4;
    let energy: Vec<u32> = vec![
        1, 0, 0,
        0, 1, 0,
        0, 0, 1,
        2, 1, 3,
    ];
    let expected: Vec<u64> = vec![
        2, 1, 1,
        1, 2, 1,
        1, 1, 2,
        2, 1, 3,
    ];
    let dir = Direction::Row;
    let costs = build_cost_matrix(&energy, w, h, dir);
    assert_eq!(expected, costs);
}

#[test]
fn test_build_cost_01_col() {
    let w = 3;
    let h = 4;
    let energy: Vec<u32> = vec![
        1, 0, 0,
        0, 1, 0,
        0, 0, 1,
        2, 1, 3,
    ];
    let expected: Vec<u64> = vec![
        1, 0, 0,
        0, 1, 0,
        0, 0, 1,
        2, 2, 3,
    ];
    let dir = Direction::Column;
    let costs = build_cost_matrix(&energy, w, h, dir);
    assert_eq!(expected, costs);
}

#[test]
fn test_build_cost_02() {
    let w = 5;
    let h = 2;
    let energy: Vec<u32> = vec![
        1, 2, 3, 4, 5,
        10, 9, 8, 7, 6,
    ];
    let expected: Vec<u64> = vec![
        10, 10, 10, 10, 11,
        10, 9, 8, 7, 6,
    ];
    let dir = Direction::Row;
    let costs = build_cost_matrix(&energy, w, h, dir);
    assert_eq!(expected, costs);
}

#[test]
fn test_build_cost_flat() {
    for &(w, h) in &[(3, 3), (3, 4), (4, 3), (5, 5), (2, 5), (5, 2)] {
        let energy: Vec<u32> = vec![0; w * h];
        let expected: Vec<u64> = vec![0; w * h];
        assert_eq!(expected, build_cost_matrix(&energy, w, h, Direction::Row));
        assert_eq!(expected, build_cost_matrix(&energy, w, h, Direction::Column));
    }
}

#[test]
fn test_build_cost_recurrence_brute_force() {
    // Every interior cost cell equals its energy plus the smallest cost of
    // its valid far-side neighbors; the far-boundary line equals the energy.
    let w = 5;
    let h = 4;
    let energy: Vec<u32> = vec![
        7, 2, 3, 4, 5,
        6, 9, 4, 2, 6,
        5, 2, 5, 5, 1,
        1, 3, 9, 8, 7,
    ];
    let cost = build_cost_matrix(&energy, w, h, Direction::Row);
    for x in 0..w {
        assert_eq!(cost[(h - 1) * w + x], energy[(h - 1) * w + x] as u64);
    }
    for y in 0..h - 1 {
        for x in 0..w {
            let mut m = cost[(y + 1) * w + x];
            if x > 0 {
                m = m.min(cost[(y + 1) * w + x - 1]);
            }
            if x + 1 < w {
                m = m.min(cost[(y + 1) * w + x + 1]);
            }
            assert_eq!(cost[y * w + x], energy[y * w + x] as u64 + m);
        }
    }
}

#[test]
fn test_test_find_path_01() {
    let w = 5;
    let h = 4;
    let energy: Vec<u64> = vec![
        7, 2, 3, 4, 5,
        6, 9, 4, 2, 6,
        5, 2, 5, 5, 1,
        1, 3, 9, 8, 7,
    ];
    let row_path = vec![1, 7, 11, 15];
    let col_path = vec![15, 11, 7, 8, 14];
    let path = find_shortest_path(&energy, w, h, Direction::Row);
    assert_eq!(row_path, path);
    let path = find_shortest_path(&energy, w, h, Direction::Column);
    assert_eq!(col_path, path);
}

#[test]
fn test_test_find_path_02() {
    let w = 5;
    let h = 5;
    let energy: Vec<u64> = vec![
        1, 8, 3, 4, 7,
        6, 2, 8, 12, 6,
        5, 7, 2, 13, 11,
        4, 5, 9, 1, 7,
        5, 4, 6, 7, 2,
    ];
    let expected_path = vec![0, 6, 12, 18, 24];
    let path = find_shortest_path(&energy, w, h, Direction::Row);
    assert_eq!(expected_path, path);
    let path = find_shortest_path(&energy, w, h, Direction::Column);
    assert_eq!(expected_path, path);
}

#[test]
fn test_test_find_path_03() {
    let w = 5;
    let h = 5;
    let energy: Vec<u64> = vec![
        7, 8, 3, 4, 1,
        6, 9, 8, 2, 6,
        5, 2, 2, 5, 11,
        4, 2, 9, 8, 7,
        1, 4, 6, 7, 9,
    ];
    let row_path = vec![4, 8, 12, 16, 20];
    let mut col_path = row_path.clone();
    col_path.reverse();
    let path = find_shortest_path(&energy, w, h, Direction::Row);
    assert_eq!(row_path, path);
    let path = find_shortest_path(&energy, w, h, Direction::Column);
    assert_eq!(col_path, path);
}

#[test]
fn test_seam_connectivity() {
    // One index per traversal line, consecutive secondary positions at most
    // one apart.
    let w = 5;
    let h = 4;
    let cost: Vec<u64> = vec![
        7, 2, 3, 4, 5,
        6, 9, 4, 2, 6,
        5, 2, 5, 5, 1,
        1, 3, 9, 8, 7,
    ];
    let path = find_shortest_path(&cost, w, h, Direction::Row);
    assert_eq!(path.len(), h);
    for (i, &idx) in path.iter().enumerate() {
        assert_eq!(idx / w, i);
    }
    for win in path.windows(2) {
        let a = (win[0] % w) as i64;
        let b = (win[1] % w) as i64;
        assert!((a - b).abs() <= 1);
    }
    let path = find_shortest_path(&cost, w, h, Direction::Column);
    assert_eq!(path.len(), w);
    for (i, &idx) in path.iter().enumerate() {
        assert_eq!(idx % w, i);
    }
    for win in path.windows(2) {
        let a = (win[0] / w) as i64;
        let b = (win[1] / w) as i64;
        assert!((a - b).abs() <= 1);
    }
}
