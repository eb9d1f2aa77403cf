use time_steward::integer_math::mean_ceil;
use time_steward::integer_math::mean_floor;
use time_steward::integer_math::overflow_checked_shl;
use time_steward::integer_math::shr_ceil;
use time_steward::integer_math::shr_nicely_rounded;
use time_steward::integer_math::shr_round_to_even;
use time_steward::integer_math::shr_round_towards_zero;

#[test]
fn test_shr_nicely_rounded() {
    let inputs: Vec<(i64, u32, i64)> = vec![
        (0, 0, 0),
        (0, 5, 0),
        (5, 0, 5),
        (1, 3, 0),
        (4, 3, 0),
        (5, 3, 1),
        (999, 1, 500),
        (998, 1, 499),
        (997, 1, 498),
    ];
    for (input, shift, result) in inputs {
        println!("{:?}", (input, shift, result));
        assert_eq!(shr_nicely_rounded(input, shift), result);
        assert_eq!(shr_nicely_rounded(-input, shift), -result);
    }
}

#[test]
fn test_shr_round_to_even() {
    let inputs: Vec<(i64, u32, i64)> = vec![
        (0, 0, 0),
        (0, 5, 0),
        (5, 0, 5),
        (1, 3, 0),
        (4, 3, 0),
        (5, 3, 0),
        (999, 1, 500),
        (998, 1, 499),
        (997, 1, 498),
    ];
    for (input, shift, result) in inputs {
        println!("{:?}", (input, shift, result));
        assert_eq!(shr_round_to_even(input, shift), result);
        assert_eq!(shr_round_to_even(-input, shift), -result);
    }
}

#[test]
fn test_shr_ceil() {
    assert_eq!(shr_ceil(5, 1), 3);
    assert_eq!(shr_ceil(4, 1), 2);
    assert_eq!(shr_ceil(-5, 1), -2);
    assert_eq!(shr_ceil(0, 10), 0);
    assert_eq!(shr_ceil(1, 3), 1);
}

#[test]
fn test_shr_round_towards_zero() {
    assert_eq!(shr_round_towards_zero(5, 1), 2);
    assert_eq!(shr_round_towards_zero(-5, 1), -2);
    assert_eq!(shr_round_towards_zero(-8, 2), -2);
    assert_eq!(shr_round_towards_zero(7, 3), 0);
    assert_eq!(shr_round_towards_zero(-7, 3), 0);
}

#[test]
fn test_overflow_checked_shl() {
    assert_eq!(overflow_checked_shl(1, 3), Some(8));
    assert_eq!(overflow_checked_shl(0, 62), Some(0));
    assert_eq!(overflow_checked_shl(-3, 2), Some(-12));
    assert_eq!(overflow_checked_shl(i64::MAX, 1), None);
    assert_eq!(overflow_checked_shl(1, 62), Some(1 << 62));
    assert_eq!(overflow_checked_shl(2, 62), None);
}

#[test]
fn test_means() {
    assert_eq!(mean_floor(3, 4), 3);
    assert_eq!(mean_ceil(3, 4), 4);
    assert_eq!(mean_floor(-3, -4), -4);
    assert_eq!(mean_ceil(-3, -4), -3);
    assert_eq!(mean_floor(i64::MAX, i64::MAX), i64::MAX);
    assert_eq!(mean_floor(i64::MIN, i64::MIN), i64::MIN);
    assert_eq!(mean_ceil(i64::MIN, i64::MAX), 0);
    assert_eq!(mean_floor(i64::MIN, i64::MAX), -1);
}
