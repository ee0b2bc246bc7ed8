use procedural_tree::fixed::{div_round, div_trunc, isqrt64, FX_ONE};
use procedural_tree::trig::{
    cos_fx, cos_quadrant, sin_fx, sin_quadrant, HALF_PI_FX, PI_FX, TWO_PI_FX,
};

#[test]
fn truncating_division_rounds_toward_zero() {
    assert_eq!(div_trunc(7, 2), 3);
    assert_eq!(div_trunc(-7, 2), -3);
    assert_eq!(div_trunc(6, 3), 2);
    assert_eq!(div_trunc(-6, 3), -2);
    assert_eq!(div_trunc(0, 5), 0);
    assert_eq!(div_trunc(-1, 2), 0);
}

#[test]
fn rounding_division_rounds_half_away_from_zero() {
    assert_eq!(div_round(3, 2), 2);
    assert_eq!(div_round(-3, 2), -2);
    assert_eq!(div_round(5, 4), 1);
    assert_eq!(div_round(7, 4), 2);
    assert_eq!(div_round(-5, 4), -1);
    assert_eq!(div_round(-7, 4), -2);
    assert_eq!(div_round(0, 9), 0);
}

#[test]
fn integer_square_roots() {
    assert_eq!(isqrt64(0), 0);
    assert_eq!(isqrt64(1), 1);
    assert_eq!(isqrt64(2), 1);
    assert_eq!(isqrt64(3), 1);
    assert_eq!(isqrt64(4), 2);
    assert_eq!(isqrt64(15), 3);
    assert_eq!(isqrt64(16), 4);
    assert_eq!(isqrt64(99), 9);
    assert_eq!(isqrt64(1_000_000_000_000), 1_000_000);
    assert_eq!(isqrt64(250_000_000_000), 500_000);
    let n: u64 = 112_000_000_000_000;
    let r = isqrt64(n);
    assert!(r * r <= n && n < (r + 1) * (r + 1));
}

fn close(a: i64, b: i64, tol: i64) -> bool {
    (a - b).abs() <= tol
}

#[test]
fn quadrant_polynomials_at_exact_points() {
    assert_eq!(sin_quadrant(0), 0);
    assert_eq!(cos_quadrant(0), FX_ONE);
}

#[test]
fn quadrant_polynomials_approximate_the_circle() {
    // A quarter turn: sine reaches one, cosine vanishes.
    assert!(close(sin_quadrant(HALF_PI_FX), FX_ONE, 500));
    assert!(close(cos_quadrant(HALF_PI_FX), 0, 500));
    // A sixth of a turn: sine is one half, cosine is root three halves.
    assert!(close(sin_quadrant(523_599), 500_000, 500));
    assert!(close(cos_quadrant(523_599), 866_025, 500));
    // Against the machine's own sine, across the quadrant.
    for k in 0..=100i64 {
        let x = HALF_PI_FX * k / 100;
        let exact = ((x as f64) / 1e6).sin() * 1e6;
        assert!(close(sin_quadrant(x), exact as i64, 600), "sine at {x}");
        let exact = ((x as f64) / 1e6).cos() * 1e6;
        assert!(close(cos_quadrant(x), exact as i64, 600), "cosine at {x}");
    }
}

#[test]
fn full_turn_reduction() {
    assert_eq!(sin_fx(0), 0);
    assert_eq!(sin_fx(PI_FX), 0);
    assert_eq!(cos_fx(PI_FX), -FX_ONE);
    for k in 0..200i64 {
        let t = TWO_PI_FX * k / 200;
        let exact = ((t as f64) / 1e6).sin() * 1e6;
        assert!(close(sin_fx(t), exact as i64, 1_000), "sine at {t}");
        let exact = ((t as f64) / 1e6).cos() * 1e6;
        assert!(close(cos_fx(t), exact as i64, 1_000), "cosine at {t}");
    }
}
