use puzzles::labyrinth::Cell;
use puzzles::labyrinth::Direction;
use puzzles::labyrinth::Labyrinth;
use puzzles::labyrinth::Vec2;
use puzzles::labyrinth::wall_glyph;
use puzzles::EngineError;

fn grid(w: usize, h: usize, rows: &[&str]) -> Labyrinth {
    let rows: Vec<Vec<char>> = rows.iter().map(|r| r.chars().collect()).collect();
    Labyrinth::from_rows(Vec2::new(w, h), &rows).unwrap()
}

/// A sealed 3x3 grid with every interior passage open.
fn open_grid() -> Labyrinth {
    grid(3, 3, &["64c", "208", "319"])
}

/// A sealed 3x3 grid whose bottom-right cell is fully walled in, its
/// neighbours walled toward it too.
fn enclosed_goal_grid() -> Labyrinth {
    grid(3, 3, &["64c", "209", "39f"])
}

/// A sealed 3x3 grid with one interior wall between (1,0) and (1,1).
fn walled_grid() -> Labyrinth {
    grid(3, 3, &["65c", "248", "319"])
}

#[test]
fn manhattan_distance() {
    assert_eq!(Vec2::new(1, 7).distance(Vec2::new(4, 2)), 8);
    assert_eq!(Vec2::new(4, 2).distance(Vec2::new(1, 7)), 8);
    assert_eq!(Vec2::new(3, 3).distance(Vec2::new(3, 3)), 0);
}

#[test]
fn neighbor_steps_one_unit() {
    let c = Vec2::new(2, 2);
    assert_eq!(c.neighbor(Direction::Top), Vec2::new(2, 1));
    assert_eq!(c.neighbor(Direction::Right), Vec2::new(3, 2));
    assert_eq!(c.neighbor(Direction::Bottom), Vec2::new(2, 3));
    assert_eq!(c.neighbor(Direction::Left), Vec2::new(1, 2));
}

#[test]
fn cell_walls_from_hex_digit() {
    let cell = Cell::new(1, 2, 'b');
    assert_eq!(cell.walls, 0xb);
    assert!(cell.has_wall(Direction::Bottom));
    assert!(cell.has_wall(Direction::Left));
    assert!(!cell.has_wall(Direction::Top));
    assert!(cell.has_wall(Direction::Right));
    assert_eq!(cell.neighbor(Direction::Top), Some(Vec2::new(1, 1)));
    assert_eq!(cell.neighbor(Direction::Left), None);
}

#[test]
fn construction_rejects_bad_rows() {
    let short: Vec<Vec<char>> = vec!["64c".chars().collect(), "20".chars().collect(),
        "319".chars().collect()];
    assert_eq!(Labyrinth::from_rows(Vec2::new(3, 3), &short).err(), Some(EngineError::InputFormat));
    let bad: Vec<Vec<char>> = vec!["64c".chars().collect(), "2z8".chars().collect(),
        "319".chars().collect()];
    assert_eq!(Labyrinth::from_rows(Vec2::new(3, 3), &bad).err(), Some(EngineError::InputFormat));
}

#[test]
fn open_grid_distance_is_manhattan() {
    let lab = open_grid();
    assert_eq!(lab.distance(Vec2::new(0, 0), Vec2::new(2, 2)), Ok(4));
}

#[test]
fn distance_to_self_is_zero() {
    let lab = open_grid();
    assert_eq!(lab.distance(Vec2::new(1, 1), Vec2::new(1, 1)), Ok(0));
    assert_eq!(lab.distance(Vec2::new(0, 2), Vec2::new(0, 2)), Ok(0));
}

#[test]
fn enclosed_goal_is_unreachable_from_both_strategies() {
    let lab = enclosed_goal_grid();
    let goal = Vec2::new(2, 2);
    let start = Vec2::new(0, 0);
    assert_eq!(lab.breadth_first_search(start, goal).len(), 0);
    assert_eq!(lab.best_first_search(start, goal).len(), 0);
    assert_eq!(lab.distance(start, goal), Ok(0));
    assert_eq!(lab.distance(goal, start), Ok(0));
}

#[test]
fn searches_agree_on_length() {
    let lab = walled_grid();
    for (from, to) in [
        (Vec2::new(0, 0), Vec2::new(2, 0)),
        (Vec2::new(0, 0), Vec2::new(2, 2)),
        (Vec2::new(2, 0), Vec2::new(0, 2)),
    ] {
        let b = lab.breadth_first_search(from, to);
        let g = lab.best_first_search(from, to);
        assert_eq!(b.len(), g.len());
    }
}

#[test]
fn distance_is_symmetric_on_consistent_mazes() {
    let lab = walled_grid();
    for (a, b) in [
        (Vec2::new(0, 0), Vec2::new(2, 0)),
        (Vec2::new(1, 0), Vec2::new(1, 2)),
        (Vec2::new(2, 2), Vec2::new(0, 1)),
    ] {
        assert_eq!(lab.distance(a, b), lab.distance(b, a));
    }
}

#[test]
fn reconstructed_path_walks_unit_steps() {
    let lab = walled_grid();
    let from = Vec2::new(0, 0);
    let to = Vec2::new(2, 2);
    let path = lab.breadth_first_search(from, to);
    assert_eq!(path.len(), 4);
    assert_eq!(*path.last().unwrap(), to);
    let mut prev = from;
    for c in &path {
        assert_eq!(prev.distance(*c), 1);
        prev = *c;
    }
}

#[test]
fn out_of_range_is_reported_before_search() {
    let lab = open_grid();
    assert_eq!(lab.distance(Vec2::new(3, 0), Vec2::new(0, 0)), Err(EngineError::OutOfRange));
    assert_eq!(lab.distance(Vec2::new(0, 0), Vec2::new(0, 5)), Err(EngineError::OutOfRange));
}

#[test]
fn glyphs_follow_the_wall_mask() {
    assert_eq!(wall_glyph(0x0), '┼');
    assert_eq!(wall_glyph(0x5), '─');
    assert_eq!(wall_glyph(0xa), '│');
    assert_eq!(wall_glyph(0xf), ' ');
}

#[test]
fn heuristic_search_can_settle_for_a_longer_route() {
    // A mutually consistent, sealed maze on which the best-first search
    // first reaches a cell through a detour and keeps it: the two
    // strategies disagree on the length, and the distance query surfaces
    // that as the internal-inconsistency defect signal instead of picking
    // one answer.
    let lab = grid(4, 5, &["ee6d", "a21c", "2968", "349a", "71db"]);
    let from = Vec2::new(2, 2);
    let to = Vec2::new(0, 1);
    let b = lab.breadth_first_search(from, to);
    let g = lab.best_first_search(from, to);
    assert_eq!(b.len(), 5);
    assert_eq!(g.len(), 7);
    assert_eq!(lab.distance(from, to), Err(EngineError::InternalInconsistency));
}
