use contour_sweep::gradient::{Color, Gradient};
use contour_sweep::grid::Bounds;

fn white_to_black(min: i64, max: i64) -> Gradient {
    Gradient::with_domain(Bounds { min, max }, Color::white(), Color::black())
}

#[test]
fn gradient_ends() {
    let g = white_to_black(-50, 150);
    assert_eq!(g.color_at(-50), Color::white());
    assert_eq!(g.color_at(150), Color::black());
}

#[test]
fn gradient_clamps_outside_values() {
    let g = white_to_black(-50, 150);
    assert_eq!(g.color_at(-51), Color::white());
    assert_eq!(g.color_at(i64::MIN), Color::white());
    assert_eq!(g.color_at(151), Color::black());
    assert_eq!(g.color_at(i64::MAX), Color::black());
}

#[test]
fn gradient_interpolates_each_channel() {
    let g = Gradient::with_domain(
        Bounds { min: 0, max: 100 },
        Color { red: 0, green: 200, blue: 50 },
        Color { red: 100, green: 0, blue: 50 },
    );
    assert_eq!(g.color_at(25), Color { red: 25, green: 150, blue: 50 });
    assert_eq!(g.color_at(50), Color { red: 50, green: 100, blue: 50 });
}

#[test]
fn gradient_rounds_toward_the_low_colour() {
    let g = white_to_black(0, 100);
    // 255 * 1 / 100 = 2.55, rounded down to 2 away from white.
    assert_eq!(g.color_at(1), Color { red: 253, green: 253, blue: 253 });
    let h = Gradient::with_domain(Bounds { min: 0, max: 100 }, Color::black(), Color::white());
    assert_eq!(h.color_at(1), Color { red: 2, green: 2, blue: 2 });
    assert_eq!(h.color_at(99), Color { red: 252, green: 252, blue: 252 });
}

#[test]
fn gradient_on_one_point_domain_is_low() {
    let g = white_to_black(7, 7);
    assert_eq!(g.color_at(7), Color::white());
    assert_eq!(g.color_at(0), Color::white());
    assert_eq!(g.color_at(100), Color::white());
}

#[test]
fn gradient_is_monotonic() {
    let g = Gradient::with_domain(
        Bounds { min: -1000, max: 1000 },
        Color { red: 10, green: 240, blue: 77 },
        Color { red: 250, green: 3, blue: 77 },
    );
    let mut previous = g.color_at(-1100);
    for value in (-1100..=1100).step_by(7) {
        let c = g.color_at(value);
        assert!(c.red >= previous.red);
        assert!(c.green <= previous.green);
        assert_eq!(c.blue, 77);
        assert!(10 <= c.red && c.red <= 250);
        assert!(3 <= c.green && c.green <= 240);
        previous = c;
    }
}

#[test]
fn gradient_over_the_whole_sample_range() {
    let g = white_to_black(i64::MIN, i64::MAX);
    assert_eq!(g.color_at(i64::MIN), Color::white());
    assert_eq!(g.color_at(i64::MAX), Color::black());
    assert_eq!(g.color_at(0), Color { red: 128, green: 128, blue: 128 });
}

#[test]
fn named_colours() {
    assert_eq!(Color::white(), Color { red: 255, green: 255, blue: 255 });
    assert_eq!(Color::black(), Color { red: 0, green: 0, blue: 0 });
}
