use slae_grader::slae::floatizable::{is_floatizable, round_trip_of};

fn through_single_precision(v: i32) -> i32 {
    (v as f32) as i32
}

#[test]
fn small_values_read_back_unchanged() {
    for v in -2000..2000 {
        assert_eq!(round_trip_of(v), v);
        assert!(is_floatizable(v));
    }
    assert_eq!(round_trip_of(16_777_216), 16_777_216);
    assert_eq!(round_trip_of(-16_777_216), -16_777_216);
}

#[test]
fn first_value_that_is_lost() {
    assert_eq!(round_trip_of(16_777_217), 16_777_216);
    assert!(!is_floatizable(16_777_217));
    assert_eq!(round_trip_of(-16_777_217), -16_777_216);
    assert!(!is_floatizable(-16_777_217));
    assert_eq!(round_trip_of(16_777_218), 16_777_218);
    assert!(is_floatizable(16_777_218));
}

#[test]
fn ties_go_to_the_even_neighbour() {
    assert_eq!(round_trip_of(16_777_219), 16_777_220);
    assert_eq!(round_trip_of(16_777_221), 16_777_220);
    assert_eq!(round_trip_of(33_554_434), 33_554_432);
    assert_eq!(round_trip_of(33_554_438), 33_554_440);
    assert_eq!(round_trip_of(33_554_435), 33_554_436);
}

#[test]
fn largest_values_are_held_down() {
    assert_eq!(round_trip_of(i32::MAX), i32::MAX);
    assert!(is_floatizable(i32::MAX));
    assert_eq!(round_trip_of(i32::MAX - 1), i32::MAX);
    assert!(!is_floatizable(i32::MAX - 1));
    assert_eq!(round_trip_of(2_147_483_584), i32::MAX);
    assert_eq!(round_trip_of(2_147_483_583), 2_147_483_520);
    assert_eq!(round_trip_of(2_147_483_520), 2_147_483_520);
    assert_eq!(round_trip_of(i32::MIN), i32::MIN);
    assert!(is_floatizable(i32::MIN));
    assert_eq!(round_trip_of(i32::MIN + 1), i32::MIN);
}

#[test]
fn round_trip_agrees_with_the_hardware_at_the_edges() {
    let mut edges: Vec<i32> = vec![0, 1, -1, i32::MAX, i32::MIN, i32::MAX - 1, i32::MIN + 1];
    for k in 20..31 {
        let p: i32 = 1 << k;
        for d in -300..300 {
            edges.push(p.wrapping_add(d));
            edges.push((-p).wrapping_add(d));
        }
    }
    for d in 0..600 {
        edges.push(i32::MAX - d);
        edges.push(i32::MIN + d);
    }
    for v in edges {
        assert_eq!(round_trip_of(v), through_single_precision(v), "value {}", v);
        assert_eq!(is_floatizable(v), through_single_precision(v) == v, "value {}", v);
    }
}

#[test]
fn round_trip_agrees_with_the_hardware_on_a_sample() {
    let mut state: u64 = 0x9E37_79B9_7F4A_7C15;
    for _ in 0..200_000 {
        state = state.wrapping_mul(6364136223846793005).wrapping_add(1442695040888963407);
        let v = (state >> 32) as u32 as i32;
        assert_eq!(round_trip_of(v), through_single_precision(v), "value {}", v);
    }
}

#[test]
fn what_was_read_back_is_floatizable() {
    let mut state: u64 = 12345;
    for _ in 0..50_000 {
        state = state.wrapping_mul(6364136223846793005).wrapping_add(1442695040888963407);
        let v = (state >> 32) as u32 as i32;
        assert!(is_floatizable(round_trip_of(v)), "value {}", v);
    }
}
