use snake_chain::{angle_between, normalize_or_zero, rotate, Angle, Vector};

fn degrees(x: i64, y: i64) -> f64 {
    (y as f64).atan2(x as f64).to_degrees()
}

#[test]
fn within_agrees_with_the_arc_tangent() {
    let limits = [(1, 0), (940, 342), (1, 1), (0, 1), (-1, 1), (-940, 342), (-1, 0)];
    for (lc, ls) in limits {
        let limit = Angle::new(lc, ls);
        let bound = degrees(lc, ls);
        let mut x: i64 = -30;
        while x <= 30 {
            let mut y: i64 = -30;
            while y <= 30 {
                if x != 0 || y != 0 {
                    let turn = degrees(x, y).abs();
                    let within = Angle::new(x, y).within(&limit);
                    if turn < bound - 0.001 {
                        assert!(within);
                    }
                    if turn > bound + 0.001 {
                        assert!(!within);
                    }
                }
                y += 1;
            }
            x += 1;
        }
    }
}

#[test]
fn angle_between_agrees_with_the_arc_tangent() {
    let vectors = [(5, 0), (3, 4), (0, 7), (-6, 2), (-9, 0), (-2, -7), (0, -1), (8, -3)];
    for (ax, ay) in vectors {
        for (bx, by) in vectors {
            let turn = angle_between(Vector::new(ax, ay), Vector::new(bx, by));
            let mut expected = degrees(bx, by) - degrees(ax, ay);
            if expected > 180.0 {
                expected -= 360.0;
            }
            if expected <= -180.0 {
                expected += 360.0;
            }
            let got = degrees(turn.cos, turn.sin);
            let apart = (got - expected).abs();
            assert!(apart < 0.000_001 || (apart - 360.0).abs() < 0.000_001);
        }
    }
}

#[test]
fn rotate_agrees_with_sine_and_cosine() {
    let angle = Angle::new(940, 342);
    let by = degrees(940, 342).to_radians();
    let vectors = [(5, 0), (3, 4), (0, 7), (-6, 2), (-9, 0), (-2, -7), (0, -1), (8, -3)];
    for (x, y) in vectors {
        let r = rotate(Vector::new(x * 1000, y * 1000), angle);
        let fx = ((x as f64) * by.cos() - (y as f64) * by.sin()) * 1000.0;
        let fy = ((x as f64) * by.sin() + (y as f64) * by.cos()) * 1000.0;
        assert!((r.x as f64 - fx).abs() < 1.000_001);
        assert!((r.y as f64 - fy).abs() < 1.000_001);
    }
}

#[test]
fn normalize_agrees_with_the_square_root() {
    let mut x: i64 = -40;
    while x <= 40 {
        let mut y: i64 = -40;
        while y <= 40 {
            if x != 0 || y != 0 {
                let r = normalize_or_zero(Vector::new(x * 37, y * 37), 1000);
                let length = ((x * x + y * y) as f64).sqrt();
                assert!((r.x as f64 - 1000.0 * (x as f64) / length).abs() < 1.001);
                assert!((r.y as f64 - 1000.0 * (y as f64) / length).abs() < 1.001);
            }
            y += 1;
        }
        x += 1;
    }
}
