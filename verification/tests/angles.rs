use snake_chain::{angle_between, rotate, turn_and_stretch, Angle, Vector};

#[test]
fn rotate_by_a_quarter_and_a_half_turn() {
    assert_eq!(rotate(Vector::new(3, 4), Angle::new(0, 1)), Vector::new(-4, 3));
    assert_eq!(rotate(Vector::new(3, 4), Angle::new(-1, 0)), Vector::new(-3, -4));
    assert_eq!(rotate(Vector::new(3, 4), Angle::new(0, -1)), Vector::new(4, -3));
    assert_eq!(rotate(Vector::new(3, 4), Angle::new(1, 0)), Vector::new(3, 4));
}

#[test]
fn rotate_by_twenty_degrees() {
    assert_eq!(rotate(Vector::new(100, 0), Angle::new(940, 342)), Vector::new(93, 34));
    assert_eq!(rotate(Vector::new(1000, 0), Angle::new(940, 342)), Vector::new(939, 341));
    assert_eq!(rotate(Vector::new(3, 4), Angle::new(940, -342)), Vector::new(4, 2));
    assert_eq!(rotate(Vector::new(12, -5), Angle::new(940, 342)), Vector::new(12, 0));
}

#[test]
fn rotate_keeps_the_length() {
    let angles = [(940, 342), (1, 1), (-3, 4), (0, 7), (-5, 0), (16384, -16384)];
    for (c, s) in angles {
        let mut x: i64 = -40;
        while x <= 40 {
            let mut y: i64 = -40;
            while y <= 40 {
                let v = Vector::new(x * 25, y * 25);
                let r = rotate(v, Angle::new(c, s));
                let was = (v.norm_sq() as f64).sqrt();
                let is = (r.norm_sq() as f64).sqrt();
                assert!((is - was).abs() < 2.0);
                y += 1;
            }
            x += 1;
        }
    }
}

#[test]
fn rotate_by_no_angle_changes_nothing() {
    assert_eq!(rotate(Vector::new(1, 1), Angle::new(1, 0)), Vector::new(1, 1));
    assert_eq!(rotate(Vector::new(-17, 31), Angle::new(5, 0)), Vector::new(-17, 31));
    assert_eq!(rotate(Vector::new(-17, 31), Angle::new(0, 0)), Vector::new(-17, 31));
    assert_eq!(rotate(Vector::new(0, 0), Angle::new(940, 342)), Vector::new(0, 0));
}

#[test]
fn rotate_and_back_returns_the_vector() {
    let back = rotate(rotate(Vector::new(1000, 0), Angle::new(940, 342)), Angle::new(940, -342));
    assert_eq!(back, Vector::new(999, 0));
    let angles = [(940, 342), (1, 1), (-3, 4), (0, 7), (-5, 0), (16384, -16384)];
    for (c, s) in angles {
        let mut x: i64 = -40;
        while x <= 40 {
            let mut y: i64 = -40;
            while y <= 40 {
                let v = Vector::new(x * 25, y * 25);
                let r = rotate(rotate(v, Angle::new(c, s)), Angle::new(c, -s));
                assert!((r.x - v.x).abs() <= 3 && (r.y - v.y).abs() <= 3);
                y += 1;
            }
            x += 1;
        }
    }
}

#[test]
fn turn_and_stretch_is_the_exact_product() {
    assert_eq!(
        turn_and_stretch(Vector::new(100, 0), Angle::new(940, 342)),
        Vector::new(94000, 34200)
    );
    assert_eq!(turn_and_stretch(Vector::new(3, 4), Angle::new(940, -342)), Vector::new(4188, 2734));
    let v = Vector::new(-17, 31);
    let r = turn_and_stretch(v, Angle::new(940, 342));
    assert_eq!(r.norm_sq(), v.norm_sq() * (940 * 940 + 342 * 342));
}

#[test]
fn rotate_at_the_largest_coordinates() {
    let span: i64 = 0x4000_0000_0000;
    let most: i64 = 0x4000;
    assert_eq!(
        turn_and_stretch(Vector::new(span, -span), Angle::new(most, most)),
        Vector::new(2 * span * most, 0)
    );
    assert_eq!(
        rotate(Vector::new(span, -span), Angle::new(most, most)),
        Vector::new(99516432383215, 0)
    );
    assert_eq!(
        rotate(Vector::new(span, span), Angle::new(1, 1)),
        Vector::new(0, 99516432383215)
    );
}

#[test]
fn angle_between_is_dot_and_cross() {
    let a = Vector::new(0, 100);
    let b = Vector::new(100, 0);
    assert_eq!(angle_between(a, b), Angle::new(0, -10000));
    assert_eq!(angle_between(b, a), Angle::new(0, 10000));
    assert_eq!(angle_between(a, a), Angle::new(10000, 0));
    assert_eq!(angle_between(a, Vector::new(0, -1)), Angle::new(-100, 0));
    assert_eq!(angle_between(Vector::new(0, 0), b), Angle::new(0, 0));
}

#[test]
fn angle_of_a_rotated_vector_is_the_angle() {
    let v = Vector::new(12, -5);
    let a = Angle::new(940, 342);
    let turn = angle_between(v, turn_and_stretch(v, a));
    assert_eq!(turn, Angle::new(169 * 940, 169 * 342));
}

#[test]
fn which_angles_are_limits() {
    assert!(Angle::new(940, 342).is_limit());
    assert!(Angle::new(1, 0).is_limit());
    assert!(Angle::new(-1, 0).is_limit());
    assert!(Angle::new(0, 1).is_limit());
    assert!(Angle::new(0x4000, 0x4000).is_limit());
    assert!(!Angle::new(0, 0).is_limit());
    assert!(!Angle::new(940, -342).is_limit());
    assert!(!Angle::new(0x4001, 1).is_limit());
    assert!(!Angle::new(1, 0x4001).is_limit());
    assert!(!Angle::new(-0x4001, 1).is_limit());
}

#[test]
fn within_a_limit_on_either_side() {
    let twenty = Angle::new(940, 342);
    assert!(Angle::new(1000, 0).within(&twenty));
    assert!(Angle::new(940, 342).within(&twenty));
    assert!(Angle::new(940, -342).within(&twenty));
    assert!(Angle::new(1880, 684).within(&twenty));
    assert!(!Angle::new(940, 343).within(&twenty));
    assert!(!Angle::new(940, -343).within(&twenty));
    assert!(!Angle::new(0, 1).within(&twenty));
    assert!(!Angle::new(-1000, 1).within(&twenty));
    assert!(!Angle::new(-1000, 0).within(&twenty));
    assert!(Angle::new(0, 0).within(&twenty));
}

#[test]
fn within_the_limits_at_the_ends() {
    let none = Angle::new(1, 0);
    let half = Angle::new(-1, 0);
    let quarter = Angle::new(0, 1);
    assert!(Angle::new(5, 0).within(&none));
    assert!(!Angle::new(5, 1).within(&none));
    assert!(!Angle::new(5, -1).within(&none));
    assert!(!Angle::new(-5, 0).within(&none));
    assert!(Angle::new(-5, 0).within(&half));
    assert!(Angle::new(-5, 1).within(&half));
    assert!(Angle::new(5, -1).within(&half));
    assert!(Angle::new(5, 0).within(&half));
    assert!(Angle::new(0, 7).within(&quarter));
    assert!(Angle::new(0, -7).within(&quarter));
    assert!(Angle::new(1, 7).within(&quarter));
    assert!(!Angle::new(-1, 7).within(&quarter));
    assert!(!Angle::new(-1, 0).within(&quarter));
}

#[test]
fn clamp_cuts_back_to_the_nearest_bound() {
    let twenty = Angle::new(940, 342);
    assert_eq!(Angle::new(1000, 10).clamp(&twenty), Angle::new(1000, 10));
    assert_eq!(Angle::new(0, 10).clamp(&twenty), Angle::new(940, 342));
    assert_eq!(Angle::new(0, -10).clamp(&twenty), Angle::new(940, -342));
    assert_eq!(Angle::new(-10, 0).clamp(&twenty), Angle::new(940, 342));
    assert_eq!(Angle::new(0, 0).clamp(&twenty), Angle::new(0, 0));
}
