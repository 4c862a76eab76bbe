use advent_solvers::cubes::{Position, Space};

fn glider() -> Vec<String> {
    vec![".#.".to_string(), "..#".to_string(), "###".to_string()]
}

#[test]
fn test_neighbour_counts() {
    let p = Position::new(0, 0, 0, 0);
    assert_eq!(p.neighbours(false).len(), 26);
    assert_eq!(p.neighbours(true).len(), 80);
}

#[test]
fn test_from_lines() {
    let space = Space::from_lines(&glider());
    assert_eq!(space.count_active(), 5);
}

#[test]
fn test_lone_cube_dies() {
    let space = Space::from_lines(&vec!["#".to_string()]);
    let next = Space::run(&space, 1, false);
    assert_eq!(next.count_active(), 0);
}

#[test]
fn test_single_step() {
    let space = Space::from_lines(&glider());
    let next = Space::run(&space, 1, false);
    // the known first generation of this pattern has 11 active cubes
    assert_eq!(next.count_active(), 11);
}

// The sparse step equals the dense rule: after six generations of the
// example pattern the known totals come out.
#[test]
fn test_six_generations_3d() {
    let space = Space::from_lines(&glider());
    let done = Space::run(&space, 6, false);
    assert_eq!(done.count_active(), 112);
}

#[test]
fn test_six_generations_4d() {
    let space = Space::from_lines(&glider());
    let done = Space::run(&space, 6, true);
    assert_eq!(done.count_active(), 848);
}

#[test]
fn test_run_leaves_start_untouched() {
    let space = Space::from_lines(&glider());
    let _ = Space::run(&space, 2, false);
    assert_eq!(space.count_active(), 5);
}
