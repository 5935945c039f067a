use snake_chain::{into_world, steer, step_length_of, Angle, Settings, Vector};

const WORLD: i64 = 0x100_0000_0000;

fn settings() -> Settings {
    Settings { speed: 500, max_turn: Angle::new(940, 342), stop_radius_sq: 100 }
}

#[test]
fn step_is_speed_times_time() {
    assert_eq!(step_length_of(500, 100_000), 50);
    assert_eq!(step_length_of(500, 16_666), 8);
    assert_eq!(step_length_of(500, 1_999), 0);
    assert_eq!(step_length_of(500, 2_000), 1);
    assert_eq!(step_length_of(0, 1_000_000), 0);
}

#[test]
fn step_is_zero_without_time() {
    assert_eq!(step_length_of(500, 0), 0);
    assert_eq!(step_length_of(500, -1), 0);
    assert_eq!(step_length_of(u32::MAX, i64::MIN), 0);
}

#[test]
fn step_is_at_most_the_longest() {
    assert_eq!(step_length_of(500, 131_072_000), 65536);
    assert_eq!(step_length_of(128_000, 1_000_000), 128_000);
    assert_eq!(step_length_of(u32::MAX, 1_000_000), u32::MAX);
    assert_eq!(step_length_of(u32::MAX, 1_000_001), u32::MAX);
    assert_eq!(step_length_of(u32::MAX, i64::MAX), u32::MAX);
}

#[test]
fn into_world_brings_each_coordinate_in() {
    assert_eq!(into_world(Vector::new(5, -7)), Vector::new(5, -7));
    assert_eq!(into_world(Vector::new(WORLD, -WORLD)), Vector::new(WORLD, -WORLD));
    assert_eq!(into_world(Vector::new(WORLD + 1, 3)), Vector::new(WORLD, 3));
    assert_eq!(into_world(Vector::new(3, -WORLD - 1)), Vector::new(3, -WORLD));
    assert_eq!(into_world(Vector::new(i64::MAX, i64::MIN)), Vector::new(WORLD, -WORLD));
}

#[test]
fn head_rests_within_the_stopping_radius() {
    let origin = Vector::new(0, 0);
    assert_eq!(steer(origin, Vector::new(6, 8), None, &settings(), 100_000), None);
    assert_eq!(steer(origin, Vector::new(0, 0), None, &settings(), 100_000), None);
    assert_eq!(steer(origin, Vector::new(-10, 0), Some(Vector::new(0, 20)), &settings(), 100_000), None);
}

#[test]
fn head_moves_just_beyond_the_stopping_radius() {
    let r = steer(Vector::new(0, 0), Vector::new(6, 9), None, &settings(), 100_000);
    assert_eq!(r, Some((Vector::new(27, 41), Vector::new(595604800, 893407200))));
}

#[test]
fn head_rests_without_time() {
    let origin = Vector::new(0, 0);
    let target = Vector::new(0, 100);
    assert_eq!(steer(origin, target, None, &settings(), 0), None);
    assert_eq!(steer(origin, target, None, &settings(), -5), None);
    assert_eq!(steer(origin, target, Some(Vector::new(0, 20)), &settings(), i64::MIN), None);
}

#[test]
fn head_goes_straight_for_the_target_without_a_hint() {
    let r = steer(Vector::new(0, 0), Vector::new(100, 0), None, &settings(), 100_000);
    assert_eq!(r, Some((Vector::new(50, 0), Vector::new(1073741824, 0))));
    let r = steer(Vector::new(0, 0), Vector::new(0, 100), None, &settings(), 100_000);
    assert_eq!(r, Some((Vector::new(0, 50), Vector::new(0, 1073741824))));
}

#[test]
fn head_goes_straight_for_the_target_with_a_zero_hint() {
    let r = steer(
        Vector::new(0, 0),
        Vector::new(100, 0),
        Some(Vector::new(0, 0)),
        &settings(),
        100_000,
    );
    assert_eq!(r, Some((Vector::new(50, 0), Vector::new(1073741824, 0))));
}

#[test]
fn head_goes_straight_for_the_target_within_the_turn() {
    let r = steer(
        Vector::new(0, 0),
        Vector::new(0, 100),
        Some(Vector::new(0, 20)),
        &settings(),
        100_000,
    );
    assert_eq!(r, Some((Vector::new(0, 50), Vector::new(0, 1073741824))));
}

#[test]
fn head_turns_by_no_more_than_the_largest_turn() {
    let hint = Some(Vector::new(0, 20));
    let r = steer(Vector::new(0, 0), Vector::new(100, 0), hint, &settings(), 100_000);
    assert_eq!(r, Some((Vector::new(17, 46), Vector::new(367116191, 1009032807))));
    let r = steer(Vector::new(0, 0), Vector::new(-100, 0), hint, &settings(), 100_000);
    assert_eq!(r, Some((Vector::new(-17, 46), Vector::new(-367116191, 1009032807))));
}

#[test]
fn head_turns_left_for_a_target_straight_behind() {
    let hint = Some(Vector::new(0, 20));
    let r = steer(Vector::new(0, 0), Vector::new(0, -100), hint, &settings(), 100_000);
    assert_eq!(r, Some((Vector::new(-17, 46), Vector::new(-367116191, 1009032807))));
}

#[test]
fn head_does_not_leave_the_world() {
    let fast = Settings { speed: 1000, max_turn: Angle::new(940, 342), stop_radius_sq: 0 };
    let r = steer(Vector::new(WORLD - 10, 0), Vector::new(WORLD, 0), None, &fast, 1_000_000);
    assert_eq!(r, Some((Vector::new(WORLD, 0), Vector::new(1073741824, 0))));
}

#[test]
fn head_that_takes_no_step_still_turns() {
    let r = steer(Vector::new(0, 0), Vector::new(100, 0), None, &settings(), 1_000);
    assert_eq!(r, Some((Vector::new(0, 0), Vector::new(1073741824, 0))));
}
