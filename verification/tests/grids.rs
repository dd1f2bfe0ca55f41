use contour_sweep::error::SweepError;
use contour_sweep::grid::{Bounds, Grid};

#[test]
fn grid_keeps_dimensions_and_samples() {
    let g = Grid::new(3, 2, vec![1, 2, 3, 4, 5, 6]).unwrap();
    assert_eq!(g.width(), 3);
    assert_eq!(g.height(), 2);
    assert_eq!(g.vertex_count(), 6);
    assert_eq!(g.sample(0, 0), 1);
    assert_eq!(g.sample(2, 0), 3);
    assert_eq!(g.sample(0, 1), 4);
    assert_eq!(g.sample(2, 1), 6);
    assert_eq!(g.index_of(1, 1), 4);
}

#[test]
fn grid_rejects_wrong_sample_count() {
    assert_eq!(Grid::new(3, 2, vec![1, 2, 3, 4, 5]).unwrap_err(), SweepError::MalformedInput);
    assert_eq!(Grid::new(3, 2, vec![0; 7]).unwrap_err(), SweepError::MalformedInput);
}

#[test]
fn grid_rejects_zero_dimensions() {
    assert_eq!(Grid::new(0, 2, vec![]).unwrap_err(), SweepError::MalformedInput);
    assert_eq!(Grid::new(2, 0, vec![]).unwrap_err(), SweepError::MalformedInput);
    assert_eq!(Grid::new(0, 0, vec![]).unwrap_err(), SweepError::MalformedInput);
}

#[test]
fn grid_rejects_dimensions_whose_product_overflows() {
    assert_eq!(
        Grid::new(usize::MAX, usize::MAX, vec![0]).unwrap_err(),
        SweepError::MalformedInput
    );
}

#[test]
fn bounds_are_least_and_greatest_sample() {
    let g = Grid::new(3, 2, vec![4, -7, 3, 12, 0, 12]).unwrap();
    assert_eq!(g.bounds(), Bounds { min: -7, max: 12 });
}

#[test]
fn bounds_of_flat_grid_coincide() {
    let g = Grid::new(2, 2, vec![5; 4]).unwrap();
    assert_eq!(g.bounds(), Bounds { min: 5, max: 5 });
}

#[test]
fn bounds_of_single_sample() {
    let g = Grid::new(1, 1, vec![-3]).unwrap();
    assert_eq!(g.bounds(), Bounds { min: -3, max: -3 });
}

#[test]
fn error_messages() {
    assert_eq!(SweepError::MalformedInput.message(), "malformed input");
    assert_eq!(SweepError::RenderTarget.message(), "invalid render target");
}
