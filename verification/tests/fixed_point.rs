use cutplan::fixed_point::{format_fixed, to_fixed, Decimal};

fn decimal(mantissa: u64, exponent: i16) -> Decimal {
    Decimal { positive: true, mantissa, exponent }
}

#[test]
fn encodes_twelve_point_three_four() {
    assert_eq!(to_fixed(decimal(1234, -2), 2), 1234);
}

#[test]
fn decodes_twelve_point_three_four() {
    assert_eq!(format_fixed(1234, 2), "12.34");
}

#[test]
fn encoding_scales_whole_numbers() {
    assert_eq!(to_fixed(decimal(7, 0), 2), 700);
    assert_eq!(to_fixed(decimal(7, 0), 0), 7);
    assert_eq!(to_fixed(decimal(5, 1), 3), 50_000);
}

#[test]
fn encoding_truncates_toward_zero() {
    assert_eq!(to_fixed(decimal(1239, -3), 2), 123);
    assert_eq!(to_fixed(decimal(29, -2), 2), 29);
    assert_eq!(to_fixed(decimal(999, -3), 0), 0);
    assert_eq!(to_fixed(decimal(1, -400), 2), 0);
}

#[test]
fn encoding_of_zero_is_zero() {
    assert_eq!(to_fixed(decimal(0, 0), 2), 0);
    assert_eq!(to_fixed(decimal(0, 300), 9), 0);
    assert_eq!(to_fixed(decimal(0, -300), 9), 0);
}

#[test]
fn encoding_of_a_negative_value_is_zero() {
    let minus = Decimal { positive: false, mantissa: 1234, exponent: -2 };
    assert_eq!(to_fixed(minus, 2), 0);
}

#[test]
fn encoding_holds_at_the_largest_amount() {
    assert_eq!(to_fixed(decimal(1, 30), 2), usize::MAX);
    assert_eq!(to_fixed(decimal(u64::MAX, 0), 1), usize::MAX);
    assert_eq!(to_fixed(decimal(3, 0), u32::MAX), usize::MAX);
}

#[test]
fn formatting_does_not_pad_the_fraction() {
    assert_eq!(format_fixed(1205, 3), "1.205");
    assert_eq!(format_fixed(1050, 3), "1.50");
    assert_eq!(format_fixed(1005, 2), "10.5");
}

#[test]
fn formatting_without_decimals_prints_a_zero_fraction() {
    assert_eq!(format_fixed(5, 0), "5.0");
    assert_eq!(format_fixed(0, 0), "0.0");
}

#[test]
fn formatting_below_one_prints_a_zero_whole() {
    assert_eq!(format_fixed(34, 2), "0.34");
    assert_eq!(format_fixed(7, 50), "0.7");
    assert_eq!(format_fixed(0, 2), "0.0");
}

#[test]
fn formatting_takes_the_largest_amounts() {
    assert_eq!(format_fixed(u128::MAX, 0), "340282366920938463463374607431768211455.0");
    assert_eq!(format_fixed(u128::MAX, 38), "3.40282366920938463463374607431768211455");
    assert_eq!(format_fixed(u128::MAX, 39), "0.340282366920938463463374607431768211455");
}

#[test]
fn round_trip_of_a_price() {
    let fixed = to_fixed(decimal(1999, -2), 2);
    assert_eq!(fixed, 1999);
    assert_eq!(format_fixed(fixed as u128, 2), "19.99");
}
