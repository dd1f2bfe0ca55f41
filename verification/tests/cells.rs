use contour_sweep::extract::extract;
use contour_sweep::grid::Grid;
use contour_sweep::lines::trace;
use contour_sweep::mesh::{edge_is_crossed, edge_is_cut, next_edge, point_on, ContourPoint, Edge};

// The four edges of the one cell of a grid of two by two samples. In the
// mesh the grid's first vertex is (1, 1): row 0 and column 0 are the frame.
const TOP: Edge = Edge { column: 1, row: 1, horizontal: true };
const BOTTOM: Edge = Edge { column: 1, row: 2, horizontal: true };
const LEFT: Edge = Edge { column: 1, row: 1, horizontal: false };
const RIGHT: Edge = Edge { column: 2, row: 1, horizontal: false };

/// A single cell with the given corners inside (10) or outside (0).
fn cell(top_left: bool, top_right: bool, bottom_right: bool, bottom_left: bool) -> Grid {
    let v = |inside: bool| if inside { 10 } else { 0 };
    Grid::new(2, 2, vec![v(top_left), v(top_right), v(bottom_left), v(bottom_right)]).unwrap()
}

fn is_cell_edge(e: Edge) -> bool {
    e == TOP || e == BOTTOM || e == LEFT || e == RIGHT
}

/// For each ring of a single cell at threshold 5, the edges of the cell that
/// it passes, in order, the closing point left out.
fn cuts(top_left: bool, top_right: bool, bottom_right: bool, bottom_left: bool) -> Vec<Vec<Edge>> {
    extract(&cell(top_left, top_right, bottom_right, bottom_left), 5)
        .iter()
        .map(|ring| {
            assert!(ring.closed());
            let open = &ring.points[..ring.points.len() - 1];
            open.iter().map(|p| p.edge).filter(|e| is_cell_edge(*e)).collect()
        })
        .collect()
}

#[test]
fn cell_with_no_corner_inside() {
    assert!(cuts(false, false, false, false).is_empty());
}

#[test]
fn cell_with_every_corner_inside() {
    assert!(cuts(true, true, true, true).is_empty());
}

#[test]
fn cells_with_one_corner_inside() {
    assert_eq!(cuts(true, false, false, false), vec![vec![TOP, LEFT]]);
    assert_eq!(cuts(false, true, false, false), vec![vec![TOP, RIGHT]]);
    assert_eq!(cuts(false, false, true, false), vec![vec![RIGHT, BOTTOM]]);
    assert_eq!(cuts(false, false, false, true), vec![vec![LEFT, BOTTOM]]);
}

#[test]
fn cells_with_two_neighbouring_corners_inside() {
    assert_eq!(cuts(true, true, false, false), vec![vec![LEFT, RIGHT]]);
    assert_eq!(cuts(false, true, true, false), vec![vec![TOP, BOTTOM]]);
    assert_eq!(cuts(false, false, true, true), vec![vec![LEFT, RIGHT]]);
    assert_eq!(cuts(true, false, false, true), vec![vec![TOP, BOTTOM]]);
}

#[test]
fn cells_with_three_corners_inside() {
    assert_eq!(cuts(false, true, true, true), vec![vec![TOP, LEFT]]);
    assert_eq!(cuts(true, false, true, true), vec![vec![TOP, RIGHT]]);
    assert_eq!(cuts(true, true, false, true), vec![vec![RIGHT, BOTTOM]]);
    assert_eq!(cuts(true, true, true, false), vec![vec![LEFT, BOTTOM]]);
}

#[test]
fn saddle_cells_split_round_the_inside_corners() {
    assert_eq!(cuts(true, false, true, false), vec![vec![TOP, LEFT], vec![RIGHT, BOTTOM]]);
    assert_eq!(cuts(false, true, false, true), vec![vec![TOP, RIGHT], vec![LEFT, BOTTOM]]);
}

#[test]
fn steps_through_the_cell_follow_the_table() {
    // From the edge by which a line enters the cell to the edge by which it
    // leaves, for each configuration with a line through the cell.
    let step = |tl, tr, br, bl, from| next_edge(&cell(tl, tr, br, bl), 5, from);
    assert_eq!(step(true, false, false, false, LEFT), TOP);
    assert_eq!(step(false, true, false, false, TOP), RIGHT);
    assert_eq!(step(false, false, true, false, RIGHT), BOTTOM);
    assert_eq!(step(false, false, false, true, BOTTOM), LEFT);
    assert_eq!(step(true, true, false, false, LEFT), RIGHT);
    assert_eq!(step(false, true, true, false, TOP), BOTTOM);
    assert_eq!(step(false, false, true, true, RIGHT), LEFT);
    assert_eq!(step(true, false, false, true, BOTTOM), TOP);
    assert_eq!(step(false, true, true, true, TOP), LEFT);
    assert_eq!(step(true, false, true, true, RIGHT), TOP);
    assert_eq!(step(true, true, false, true, BOTTOM), RIGHT);
    assert_eq!(step(true, true, true, false, LEFT), BOTTOM);
    assert_eq!(step(true, false, true, false, LEFT), TOP);
    assert_eq!(step(true, false, true, false, RIGHT), BOTTOM);
    assert_eq!(step(false, true, false, true, TOP), RIGHT);
    assert_eq!(step(false, true, false, true, BOTTOM), LEFT);
}

#[test]
fn crossed_edges_have_one_end_inside() {
    let g = cell(true, false, false, false);
    assert!(edge_is_crossed(&g, 5, TOP));
    assert!(edge_is_crossed(&g, 5, LEFT));
    assert!(!edge_is_crossed(&g, 5, BOTTOM));
    assert!(!edge_is_crossed(&g, 5, RIGHT));
    // A sample equal to the threshold is inside.
    assert!(edge_is_crossed(&g, 10, TOP));
    assert!(!edge_is_crossed(&g, 11, TOP));
    assert!(!edge_is_crossed(&g, 0, TOP));
}

#[test]
fn edges_to_the_frame_are_crossed_but_cut_nothing() {
    let g = cell(true, false, false, false);
    let from_above = Edge { column: 1, row: 0, horizontal: false };
    let from_the_left = Edge { column: 0, row: 1, horizontal: true };
    assert!(edge_is_crossed(&g, 5, from_above));
    assert!(edge_is_crossed(&g, 5, from_the_left));
    assert!(!edge_is_cut(&g, 5, from_above));
    assert!(!edge_is_cut(&g, 5, from_the_left));
    assert!(edge_is_cut(&g, 5, TOP));
    assert!(edge_is_cut(&g, 5, LEFT));
    assert!(!edge_is_cut(&g, 5, BOTTOM));
    // The frame is outside at every threshold.
    assert!(edge_is_crossed(&g, i64::MIN, from_above));
    assert!(!edge_is_cut(&g, i64::MIN, TOP));
}

#[test]
fn edges_off_the_mesh_are_not_crossed() {
    let g = cell(true, false, false, false);
    assert!(!edge_is_crossed(&g, 5, Edge { column: 3, row: 1, horizontal: true }));
    assert!(!edge_is_crossed(&g, 5, Edge { column: 1, row: 3, horizontal: false }));
    assert!(!edge_is_crossed(&g, 5, Edge { column: usize::MAX, row: 0, horizontal: true }));
    assert!(!edge_is_crossed(&g, 5, Edge { column: 0, row: usize::MAX, horizontal: false }));
    let narrow = Grid::new(1, 2, vec![0, 10]).unwrap();
    assert!(!edge_is_crossed(&narrow, 5, LEFT));
}

#[test]
fn crossing_points_interpolate_linearly() {
    let g = Grid::new(2, 2, vec![-4, 12, 0, 0]).unwrap();
    // From -4 to 12 the value 0 lies a quarter of the way.
    assert_eq!(point_on(&g, 0, TOP), ContourPoint { edge: TOP, num: 4, den: 16 });
    assert_eq!(point_on(&g, 8, TOP), ContourPoint { edge: TOP, num: 12, den: 16 });
    assert_eq!(point_on(&g, 12, TOP), ContourPoint { edge: TOP, num: 16, den: 16 });
    // From 12 down to 0 the value 3 lies three quarters of the way.
    assert_eq!(point_on(&g, 3, RIGHT), ContourPoint { edge: RIGHT, num: 9, den: 12 });
}

#[test]
fn crossing_points_on_edges_to_the_frame_are_rim_vertices() {
    let g = cell(true, false, false, false);
    let from_above = Edge { column: 1, row: 0, horizontal: false };
    let to_the_right = Edge { column: 2, row: 2, horizontal: true };
    // The far end is on the grid: the point is there.
    assert_eq!(point_on(&g, 5, from_above), ContourPoint { edge: from_above, num: 1, den: 1 });
    // The near end is on the grid: the point is there.
    let h = cell(false, false, true, false);
    assert_eq!(point_on(&h, 5, to_the_right), ContourPoint { edge: to_the_right, num: 0, den: 1 });
}

#[test]
fn trace_from_any_edge_of_a_ring_comes_round_to_it() {
    let mut samples = vec![0i64; 9];
    samples[4] = 10;
    let g = Grid::new(3, 3, samples).unwrap();
    let start = Edge { column: 2, row: 2, horizontal: true };
    let line: Vec<Edge> = trace(&g, 5, start).iter().map(|p| p.edge).collect();
    assert_eq!(line.len(), 5);
    assert_eq!(line[0], start);
    assert_eq!(line[4], start);
    assert_eq!(line[1], Edge { column: 2, row: 1, horizontal: false });
}
