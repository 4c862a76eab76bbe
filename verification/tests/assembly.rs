use advent_solvers::tiles::{parse_tiles, Group, Position, Tile};

fn tile(id: usize, rows: Vec<Vec<bool>>) -> Tile {
    Tile { id, grid: rows, rot: 0, flip: (false, false) }
}

fn grid_of(t: &Tile) -> Vec<Vec<bool>> {
    let mut g = Vec::new();
    let mut y = 0;
    while y < t.height() {
        g.push(t.get_line(y));
        y += 1;
    }
    g
}

fn b(row: &str) -> Vec<bool> {
    row.chars().map(|c| c == '#').collect()
}

// Rotation has order four: four quarter turns reproduce the grid exactly.
#[test]
fn test_rotation_order_four() {
    let t = tile(1, vec![b("##."), b("..."), b("#.#")]);
    let before = grid_of(&t);
    let r4 = t.rotate().rotate().rotate().rotate();
    assert_eq!(grid_of(&r4), before);
}

#[test]
fn test_rotation_quarter_turn() {
    let t = tile(1, vec![b("##"), b(".#")]);
    let r = t.rotate();
    // clockwise: the left column (top to bottom) becomes the top row
    // (read bottom to top)
    assert_eq!(grid_of(&r), vec![b(".#"), b("##")]);
    assert_eq!(r.rot, 90);
}

// Flip is an involution on both axes.
#[test]
fn test_flip_involution() {
    let t = tile(2, vec![b("#.."), b(".##"), b("#.#")]);
    let before = grid_of(&t);
    assert_eq!(grid_of(&t.flip(true).flip(true)), before);
    assert_eq!(grid_of(&t.flip(false).flip(false)), before);
}

#[test]
fn test_flip_mirrors() {
    let t = tile(2, vec![b("#."), b("##")]);
    assert_eq!(grid_of(&t.flip(true)), vec![b(".#"), b("##")]);
    assert_eq!(grid_of(&t.flip(false)), vec![b("##"), b("#.")]);
}

#[test]
fn test_next_walks_poses() {
    let t = tile(3, vec![b("#."), b("..")]);
    let mut seen = 0;
    let mut cur = t;
    loop {
        match cur.next() {
            Some(n) => {
                seen += 1;
                cur = n;
            }
            None => break,
        }
    }
    // four rotations in each of four flip states, then the walk ends
    assert_eq!(seen, 19);
}

#[test]
fn test_edge_match_placement() {
    let t1 = tile(11, vec![b("#..#"), b("...#"), b("#..."), b(".###")]);
    let t2 = tile(13, vec![b("##.."), b("#.#."), b(".###"), b("#...")]);
    // right column of t1 is ##.# ; left column of t2 is ##.# as well
    let g = Group::new(t1);
    let found = g.is_valid_addition(&t2);
    assert_eq!(found, Some(Position { x: 1, y: 0 }));
}

// Assembly outcome does not depend on the order the tiles are fed in.
#[test]
fn test_assemble_order_independent() {
    let t1 = tile(11, vec![b("#..#"), b("...#"), b("#..."), b(".###")]);
    let t2 = tile(13, vec![b("##.."), b("#.#."), b(".###"), b("#...")]);
    let mut g1 = Group::new(t1);
    let t2b = tile(13, vec![b("##.."), b("#.#."), b(".###"), b("#...")]);
    let left1 = g1.merges(&vec![t2b]);
    assert_eq!(left1.len(), 0);
    let c1 = g1.checksum();

    let t1b = tile(11, vec![b("#..#"), b("...#"), b("#..."), b(".###")]);
    let t2c = tile(13, vec![b("##.."), b("#.#."), b(".###"), b("#...")]);
    let mut g2 = Group::new(t2c);
    let left2 = g2.merges(&vec![t1b]);
    assert_eq!(left2.len(), 0);
    let c2 = g2.checksum();
    assert_eq!(c1, c2);
    assert_eq!(c1, 11 * 13 * 11 * 13);
}

// The checksum of a fully assembled three-by-three grid is the product of
// its four corner ids.
#[test]
fn test_checksum_three_by_three() {
    let ids = [[1951usize, 2311, 3079], [2729, 1427, 2473], [2971, 1489, 1171]];
    let mut entries = Vec::new();
    for (y, row) in ids.iter().enumerate() {
        for (x, id) in row.iter().enumerate() {
            entries.push((
                Position { x: x as i32, y: y as i32 },
                tile(*id, vec![b("##"), b("..")]),
            ));
        }
    }
    let g = Group { tiles: entries };
    assert_eq!(g.checksum(), 1951 * 3079 * 2971 * 1171);
    assert_eq!(g.checksum(), 20899048083289);
}

#[test]
fn test_validation_rows() {
    let g = Group {
        tiles: vec![
            (Position { x: 0, y: 0 }, tile(5, vec![b("#")])),
            (Position { x: 1, y: 0 }, tile(6, vec![b(".")])),
            (Position { x: 0, y: 1 }, tile(7, vec![b("#")])),
            (Position { x: 1, y: 1 }, tile(8, vec![b(".")])),
        ],
    };
    assert_eq!(g.validation(), vec![vec![5, 6], vec![7, 8]]);
}

// A tile whose edges match nothing is reported back, and the rest stands.
#[test]
fn test_deadlock_reports_remainder() {
    let t1 = tile(11, vec![b("#..#"), b("...#"), b("#..."), b(".###")]);
    // all-empty edges match none of t1's edges in any pose
    let loner = tile(99, vec![b("...."), b(".##."), b(".##."), b("....")]);
    let mut g = Group::new(t1);
    let left = g.merges(&vec![loner]);
    assert_eq!(left.len(), 1);
    assert_eq!(left[0].id, 99);
    assert_eq!(g.validation(), vec![vec![11]]);
}

#[test]
fn test_image_drops_borders() {
    let t1 = tile(1, vec![b("####"), b("#..#"), b("#.##"), b("####")]);
    let g = Group { tiles: vec![(Position { x: 0, y: 0 }, t1)] };
    let img = g.image();
    assert_eq!(img, vec![b(".."), b(".#")]);
}

#[test]
fn test_parse_tiles_text() {
    let lines: Vec<String> = vec![
        "Tile 7:".to_string(),
        "##".to_string(),
        "#.".to_string(),
        "".to_string(),
        "Tile 1951:".to_string(),
        ".#".to_string(),
        "##".to_string(),
    ];
    let ts = parse_tiles(&lines).unwrap();
    assert_eq!(ts.len(), 2);
    assert_eq!(ts[0].id, 7);
    assert_eq!(ts[1].id, 1951);
    assert_eq!(ts[0].get_line(0), b("##"));
    assert_eq!(ts[1].get_line(0), b(".#"));
}

#[test]
fn test_parse_tiles_bad_header() {
    let lines: Vec<String> = vec!["Tile seven:".to_string(), "##".to_string()];
    assert!(parse_tiles(&lines).is_none());
}

#[test]
fn test_tile_name() {
    let t = tile(1951, vec![b("#."), b(".#")]);
    let r = t.rotate().flip(true);
    let name: String = r.name().into_iter().collect();
    assert_eq!(name, "1951.90/(true, false)");
}
