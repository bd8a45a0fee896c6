use puzzles::chamber::circumference_points;
use puzzles::chamber::compute_radius;
use puzzles::chamber::radius_to_nearest_ten;

fn art(rows: &[&str]) -> Vec<Vec<char>> {
    rows.iter().map(|r| r.chars().collect()).collect()
}

#[test]
fn scan_takes_the_first_blank_of_each_row() {
    let picture = art(&["## ##", "#####", " ####", "#  ##"]);
    assert_eq!(circumference_points(&picture), vec![(2, 0), (0, 2), (1, 3)]);
}

#[test]
fn radius_rounds_to_the_nearest_ten() {
    // Circle through (0,5), (5,0), (10,5): centre (5,5), radius 5, which
    // rounds up to 10.
    assert_eq!(radius_to_nearest_ten((0, 5), (5, 0), (10, 5)), Some(10));
    // Circle through (0,13), (13,0), (26,13): radius 13, rounding to 10.
    assert_eq!(radius_to_nearest_ten((0, 13), (13, 0), (26, 13)), Some(10));
    // Collinear points admit no circle.
    assert_eq!(radius_to_nearest_ten((0, 0), (1, 1), (2, 2)), None);
}

#[test]
fn picture_radius_from_track_points() {
    // Track points (5,0), (0,1), (5,2): a small circle, radius below five.
    let picture = art(&["##### ", " #####", "##### "]);
    assert_eq!(compute_radius(&picture), Some(0));
}
