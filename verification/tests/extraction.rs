use contour_sweep::extract::extract;
use contour_sweep::grid::Grid;
use contour_sweep::mesh::{ContourPoint, Edge};

fn grid(width: usize, height: usize, samples: &[i64]) -> Grid {
    Grid::new(width, height, samples.to_vec()).expect("a well-formed grid")
}

// Edges are named by their near end in the mesh, where the grid's vertex
// (c, r) is vertex (c + 1, r + 1).
fn across(column: usize, row: usize) -> Edge {
    Edge { column, row, horizontal: true }
}

fn down(column: usize, row: usize) -> Edge {
    Edge { column, row, horizontal: false }
}

fn point(edge: Edge, num: u64, den: u64) -> ContourPoint {
    ContourPoint { edge, num, den }
}

/// The place of a point on the grid, as (column, row) times `den`.
fn place(p: &ContourPoint) -> (u64, u64, u64) {
    let (c, r) = (p.edge.column as u64 * p.den, p.edge.row as u64 * p.den);
    let (x, y) = if p.edge.horizontal { (c + p.num, r) } else { (c, r + p.num) };
    (x - p.den, y - p.den, p.den)
}

fn peak_grid() -> Grid {
    let mut samples = vec![0i64; 16];
    samples[1 * 4 + 1] = 10;
    grid(4, 4, &samples)
}

#[test]
fn single_peak_gives_one_closed_ring() {
    let rings = extract(&peak_grid(), 5);
    assert_eq!(rings.len(), 1);
    assert!(rings[0].closed());
    assert_eq!(rings[0].len(), 5);
}

#[test]
fn single_peak_ring_encircles_the_peak() {
    let rings = extract(&peak_grid(), 5);
    // The ring starts at the edge of least rank, above the peak, and runs
    // round it: from above to the left, below, the right, and back.
    let expected = vec![
        point(down(2, 1), 5, 10),
        point(across(1, 2), 5, 10),
        point(down(2, 2), 5, 10),
        point(across(2, 2), 5, 10),
        point(down(2, 1), 5, 10),
    ];
    assert_eq!(rings[0].points, expected);
    let places: Vec<_> = rings[0].points.iter().map(place).collect();
    // (1, 1/2), (1/2, 1), (1, 3/2), (3/2, 1) on the grid.
    assert_eq!(places, vec![(10, 5, 10), (5, 10, 10), (10, 15, 10), (15, 10, 10), (10, 5, 10)]);
}

#[test]
fn ring_fractions_follow_the_threshold() {
    let rings = extract(&peak_grid(), 8);
    // At threshold 8 the crossing lies 8/10 of the way from a zero sample to
    // the peak, and 2/10 of the way from the peak to a zero sample.
    let expected = vec![
        point(down(2, 1), 8, 10),
        point(across(1, 2), 8, 10),
        point(down(2, 2), 2, 10),
        point(across(2, 2), 2, 10),
        point(down(2, 1), 8, 10),
    ];
    assert_eq!(rings[0].points, expected);
}

#[test]
fn peak_in_the_other_central_cell() {
    let mut samples = vec![0i64; 16];
    samples[2 * 4 + 2] = 10;
    let rings = extract(&grid(4, 4, &samples), 5);
    assert_eq!(rings.len(), 1);
    assert!(rings[0].closed());
    assert_eq!(rings[0].points[0], point(down(3, 2), 5, 10));
    assert_eq!(rings[0].points.len(), 5);
}

#[test]
fn threshold_equal_to_peak_gives_degenerate_ring() {
    let rings = extract(&peak_grid(), 10);
    assert_eq!(rings.len(), 1);
    assert!(rings[0].closed());
    // Every crossing sits on the peak vertex itself.
    for p in &rings[0].points {
        assert_eq!(place(p), (10, 10, 10));
    }
}

#[test]
fn width_one_grid_has_no_contour() {
    let g = grid(1, 4, &[0, 10, 0, 10]);
    for threshold in [-5i64, 0, 1, 5, 10, 11] {
        assert!(extract(&g, threshold).is_empty());
    }
}

#[test]
fn height_one_grid_has_no_contour() {
    let g = grid(4, 1, &[0, 10, 0, 10]);
    for threshold in [-5i64, 0, 1, 5, 10, 11] {
        assert!(extract(&g, threshold).is_empty());
    }
}

#[test]
fn single_sample_grid_has_no_contour() {
    let g = grid(1, 1, &[7]);
    assert!(extract(&g, 7).is_empty());
    assert!(extract(&g, 0).is_empty());
}

#[test]
fn thresholds_outside_the_range_give_no_contour() {
    let g = peak_grid();
    assert!(extract(&g, -1).is_empty());
    assert!(extract(&g, 11).is_empty());
    assert!(extract(&g, i64::MIN).is_empty());
    assert!(extract(&g, i64::MAX).is_empty());
}

#[test]
fn threshold_at_the_minimum_gives_no_contour() {
    assert!(extract(&peak_grid(), 0).is_empty());
}

#[test]
fn flat_grid_has_no_contour() {
    let g = grid(4, 4, &[0; 16]);
    for threshold in [-1i64, 0, 1] {
        assert!(extract(&g, threshold).is_empty());
    }
}

#[test]
fn contour_that_reaches_the_rim_closes_along_the_rim() {
    // Rows of 0 above rows of 10: the contour runs straight across, and the
    // ring closes round the lower half of the grid.
    let g = grid(3, 2, &[0, 0, 0, 10, 10, 10]);
    let rings = extract(&g, 5);
    assert_eq!(rings.len(), 1);
    assert!(rings[0].closed());
    let expected = vec![
        point(down(1, 1), 5, 10),
        point(across(0, 2), 1, 1),
        point(down(1, 2), 0, 1),
        point(down(2, 2), 0, 1),
        point(down(3, 2), 0, 1),
        point(across(3, 2), 0, 1),
        point(down(3, 1), 5, 10),
        point(down(2, 1), 5, 10),
        point(down(1, 1), 5, 10),
    ];
    assert_eq!(rings[0].points, expected);
    let places: Vec<_> =
        rings[0].points.iter().map(place).map(|(x, y, den)| (2 * x / den, 2 * y / den)).collect();
    // In half grid steps: down the left rim, along the bottom, up the right
    // rim, and back along the contour.
    assert_eq!(
        places,
        vec![(0, 1), (0, 2), (0, 2), (2, 2), (4, 2), (4, 2), (4, 1), (2, 1), (0, 1)]
    );
}

#[test]
fn corner_peak_gives_a_triangle_through_the_corner() {
    let g = grid(2, 2, &[10, 0, 0, 0]);
    let rings = extract(&g, 4);
    assert_eq!(rings.len(), 1);
    assert!(rings[0].closed());
    let expected = vec![
        point(across(1, 1), 6, 10),
        point(down(1, 0), 1, 1),
        point(across(0, 1), 1, 1),
        point(down(1, 1), 6, 10),
        point(across(1, 1), 6, 10),
    ];
    assert_eq!(rings[0].points, expected);
    let places: Vec<_> = rings[0].points.iter().map(place).collect();
    assert_eq!(places, vec![(6, 0, 10), (0, 0, 1), (0, 0, 1), (0, 6, 10), (6, 0, 10)]);
}

#[test]
fn saddle_cell_keeps_the_inside_corners_apart() {
    // Both diagonals straddle the threshold: each inside corner gets a ring
    // of its own.
    let g = grid(2, 2, &[10, 0, 0, 10]);
    let rings = extract(&g, 5);
    assert_eq!(rings.len(), 2);
    assert!(rings[0].closed() && rings[1].closed());
    assert_eq!(rings[0].points[0], point(across(1, 1), 5, 10));
    assert_eq!(rings[1].points[0], point(down(2, 1), 5, 10));
    for p in &rings[0].points {
        let (x, y, den) = place(p);
        assert!(x + y < den);
    }
    for p in &rings[1].points {
        let (x, y, den) = place(p);
        assert!(x + y > den);
    }
}

#[test]
fn block_with_a_hole_gives_two_rings() {
    // High everywhere but at one inner vertex: the ring round the hole, and
    // nothing for the rim, which the contour does not cut.
    let mut samples = vec![10i64; 16];
    samples[5] = 0;
    let rings = extract(&grid(4, 4, &samples), 5);
    assert_eq!(rings.len(), 1);
    assert_eq!(rings[0].len(), 5);
    // High in a bar inside a low grid, with a low vertex within the bar.
    let samples = [
        0, 0, 0, 0, 0, //
        0, 10, 10, 10, 0, //
        0, 10, 0, 10, 0, //
        0, 10, 10, 10, 0, //
        0, 0, 0, 0, 0, //
    ];
    let rings = extract(&grid(5, 5, &samples), 5);
    assert_eq!(rings.len(), 2);
    assert!(rings[0].closed() && rings[1].closed());
    assert_eq!(rings[0].len(), 13);
    assert_eq!(rings[1].len(), 5);
}

#[test]
fn two_peaks_give_two_rings_in_scan_order() {
    let mut samples = vec![0i64; 6 * 4];
    samples[1 * 6 + 1] = 10;
    samples[2 * 6 + 4] = 20;
    let g = grid(6, 4, &samples);
    let rings = extract(&g, 5);
    assert_eq!(rings.len(), 2);
    assert!(rings[0].closed() && rings[1].closed());
    assert_eq!(rings[0].points[0], point(down(2, 1), 5, 10));
    assert_eq!(rings[1].points[0], point(down(5, 2), 5, 20));
    let higher = extract(&g, 15);
    assert_eq!(higher.len(), 1);
    assert_eq!(higher[0].points[0], point(down(5, 2), 15, 20));
}

#[test]
fn extraction_is_deterministic() {
    let mut samples = vec![0i64; 6 * 4];
    samples[1 * 6 + 1] = 10;
    samples[2 * 6 + 4] = 20;
    samples[3 * 6 + 0] = 9;
    let g = grid(6, 4, &samples);
    for threshold in [1i64, 5, 9, 10, 15, 20] {
        let first = extract(&g, threshold);
        let second = extract(&g, threshold);
        assert_eq!(first.len(), second.len());
        for (a, b) in first.iter().zip(second.iter()) {
            assert_eq!(a.points, b.points);
        }
    }
}

#[test]
fn extreme_samples_do_not_overflow() {
    let g = grid(2, 2, &[i64::MIN, i64::MAX, i64::MAX, i64::MIN]);
    let rings = extract(&g, 0);
    assert_eq!(rings.len(), 2);
    let p = rings[0].points[0];
    assert_eq!(p.den, u64::MAX);
    assert_eq!(p.num, 1u64 << 63);
}

/// A small linear congruential generator, so that the grids below are the
/// same on every run.
fn next_random(state: &mut u64) -> i64 {
    *state = state.wrapping_mul(6364136223846793005).wrapping_add(1442695040888963407);
    ((*state >> 33) % 21) as i64
}

#[test]
fn contours_of_scattered_grids_are_well_formed() {
    let mut state = 0x5eed_u64;
    for (width, height) in [(2usize, 2usize), (3, 7), (8, 5), (12, 9)] {
        for _ in 0..8 {
            let samples: Vec<i64> = (0..width * height).map(|_| next_random(&mut state)).collect();
            let g = grid(width, height, &samples);
            // The sample at a mesh vertex, if it is a grid vertex.
            let at = |c: usize, r: usize| {
                if c >= 1 && r >= 1 && c <= width && r <= height {
                    Some(samples[(r - 1) * width + (c - 1)])
                } else {
                    None
                }
            };
            let ends = |e: Edge| {
                let far = if e.horizontal { (e.column + 1, e.row) } else { (e.column, e.row + 1) };
                (at(e.column, e.row), at(far.0, far.1))
            };
            let rank = |e: Edge| 2 * (e.row * (width + 2) + e.column) + usize::from(!e.horizontal);
            for threshold in [0i64, 1, 7, 10, 13, 20, 21] {
                let inside = |v: Option<i64>| v.map_or(false, |v| v >= threshold);
                let rings = extract(&g, threshold);
                let mut seen = std::collections::HashSet::new();
                let mut cuts_seen = 0;
                let mut last_start: Option<usize> = None;
                for ring in rings.iter() {
                    let points = &ring.points;
                    // Every ring is closed, and the rings come in scan order.
                    assert!(ring.closed());
                    assert_eq!(points.first(), points.last());
                    let start = rank(points[0].edge);
                    assert!(last_start.map_or(true, |earlier| earlier < start));
                    last_start = Some(start);
                    for p in &points[..points.len() - 1] {
                        let (near, far) = ends(p.edge);
                        assert!(inside(near) != inside(far));
                        match (near, far) {
                            (Some(near), Some(far)) => {
                                // Where the contour cuts the grid: the point
                                // where the straight line between the samples
                                // meets the threshold.
                                assert_eq!(p.den as i64, (near - far).abs());
                                assert_eq!(
                                    near * p.den as i64 + (far - near) * p.num as i64,
                                    threshold * p.den as i64
                                );
                                assert!(rank(p.edge) >= start);
                                cuts_seen += 1;
                            }
                            (None, Some(_)) => assert_eq!((p.num, p.den), (1, 1)),
                            (Some(_), None) => assert_eq!((p.num, p.den), (0, 1)),
                            (None, None) => unreachable!(),
                        }
                        let (x, y, den) = place(p);
                        assert!(x <= (width as u64 - 1) * den && y <= (height as u64 - 1) * den);
                        assert!(seen.insert(p.edge));
                    }
                    // Consecutive points lie on two edges of one cell.
                    for pair in points.windows(2) {
                        let (a, b) = (pair[0].edge, pair[1].edge);
                        assert!(a.column.abs_diff(b.column) <= 1 && a.row.abs_diff(b.row) <= 1);
                    }
                }
                // Every edge at which the contour cuts the grid carries a
                // point.
                let mut cuts = 0;
                for row in 1..=height {
                    for column in 1..=width {
                        for horizontal in [true, false] {
                            let (near, far) = ends(Edge { column, row, horizontal });
                            if near.is_some() && far.is_some() && inside(near) != inside(far) {
                                cuts += 1;
                            }
                        }
                    }
                }
                assert_eq!(cuts_seen, cuts);
            }
        }
    }
}
