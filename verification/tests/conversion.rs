use float_cmp::ApproxEq;
use float_cmp::F64Margin;

use unit_responder::conversion::Quantity;
use unit_responder::conversion::assemble_response;
use unit_responder::conversion::parse_input;
use unit_responder::decimal::Decimal;
use unit_responder::units::UnitKind;
use unit_responder::units::symbol;

fn dec(neg: bool, mantissa: u128, frac: u32) -> Decimal {
    Decimal { neg, mantissa, frac }
}

fn quantity(neg: bool, mantissa: u128, frac: u32, unit: UnitKind) -> Quantity {
    Quantity { magnitude: dec(neg, mantissa, frac), unit }
}

fn as_f64(d: &Decimal) -> f64 {
    let v = d.mantissa as f64 / 10f64.powi(d.frac as i32);
    if d.neg { -v } else { v }
}

fn converted_value(q: Quantity) -> f64 {
    as_f64(&q.convert().magnitude)
}

fn check_close(val_left: f64, val_right: f64) {
    assert!(
        val_left.approx_eq(
            val_right,
            F64Margin {
                epsilon: 0.001,
                ulps: 2
            }
        ),
        "\nleft != right\n{} != {}",
        val_left,
        val_right
    );
}

#[test]
fn test_conversion() {
    check_close(3.048, converted_value(quantity(false, 100, 1, UnitKind::Feet)));
    check_close(32.80839895, converted_value(quantity(false, 100, 1, UnitKind::Meters)));
    check_close(4.535924, converted_value(quantity(false, 100, 1, UnitKind::Pounds)));
    check_close(22.04623, converted_value(quantity(false, 100, 1, UnitKind::Kilograms)));
    check_close(0.3527396, converted_value(quantity(false, 100, 1, UnitKind::Grams)));
    check_close(283.4952, converted_value(quantity(false, 100, 1, UnitKind::Ounces)));
    check_close(10.0, converted_value(quantity(false, 1609344, 5, UnitKind::Kilometers)));
    check_close(10.0, converted_value(quantity(false, 6213712, 6, UnitKind::Miles)));
}

#[test]
fn unit_conversion() {
    check_close(3.048, converted_value(quantity(false, 100, 1, UnitKind::Feet)));
    check_close(32.80839895, converted_value(quantity(false, 100, 1, UnitKind::Meters)));
    check_close(4.535924, converted_value(quantity(false, 100, 1, UnitKind::Pounds)));
    check_close(22.04623, converted_value(quantity(false, 100, 1, UnitKind::Kilograms)));
    check_close(0.3527396, converted_value(quantity(false, 100, 1, UnitKind::Grams)));
    check_close(283.4952, converted_value(quantity(false, 100, 1, UnitKind::Ounces)));
    check_close(10.0, converted_value(quantity(false, 1609344, 5, UnitKind::Kilometers)));
    check_close(10.0, converted_value(quantity(false, 6213712, 6, UnitKind::Miles)));
    check_close(10.0, converted_value(quantity(false, 500, 1, UnitKind::Fahrenheit)));
    check_close(0.0, converted_value(quantity(false, 320, 1, UnitKind::Fahrenheit)));
    check_close(-40.0, converted_value(quantity(true, 400, 1, UnitKind::Fahrenheit)));
    check_close(15.0, converted_value(quantity(true, 9444444, 6, UnitKind::Celsius)));
    check_close(0.0, converted_value(quantity(true, 1777778, 5, UnitKind::Celsius)));
    check_close(-40.0, converted_value(quantity(true, 400, 1, UnitKind::Celsius)));
}

#[test]
fn parsing_msg_single_unit() {
    let msg = "Hello, I am 171 cm tall";
    assert_eq!(
        parse_input(msg),
        Some(vec![quantity(false, 171, 0, UnitKind::Centimeters)])
    );
}

#[test]
fn parsing_msg_multiple_units() {
    let msg = "Hello, I am 171 cm tall and weigh 140 pounds";
    assert_eq!(
        parse_input(msg),
        Some(vec![
            quantity(false, 171, 0, UnitKind::Centimeters),
            quantity(false, 140, 0, UnitKind::Pounds)
        ])
    );
}

#[test]
fn parsing_msg_malformed_single_unit() {
    let msg = "Hello, I am none cm tall";
    assert_eq!(parse_input(msg), None);
}

#[test]
fn parsing_msg_malformed_unit_plus_additional_correct_unit() {
    let msg = "Hello, I am none cm tall and weigh 140 pounds";
    assert_eq!(
        parse_input(msg),
        Some(vec![quantity(false, 140, 0, UnitKind::Pounds)])
    );
}

#[test]
fn parsing_msg_multiple_malformed_units_multiple_correct_units() {
    let msg = "Hello, I am none cm tall and weigh 140 pounds and my city is 343 kms in area and my cat's name is little Foot";
    assert_eq!(
        parse_input(msg),
        Some(vec![
            quantity(false, 140, 0, UnitKind::Pounds),
            quantity(false, 343, 0, UnitKind::Kilometers)
        ])
    );
}

#[test]
fn parsing_msg_strip_punctuation_correct_units() {
    let msg = "Hello, I am none cm tall and weigh 140 pounds. My city is 343 kms in area and my cat's name is little Foot";
    assert_eq!(
        parse_input(msg),
        Some(vec![
            quantity(false, 140, 0, UnitKind::Pounds),
            quantity(false, 343, 0, UnitKind::Kilometers)
        ])
    );
}

#[test]
fn parsing_msg_strip_multiple_punctuation_correct_units() {
    let msg = "Hello, I am none cm tall and weigh 140 pounds,|.,;. My city is 343 kms.,; in area and my cat's name is little Foot";
    assert_eq!(
        parse_input(msg),
        Some(vec![
            quantity(false, 140, 0, UnitKind::Pounds),
            quantity(false, 343, 0, UnitKind::Kilometers)
        ])
    );
}

#[test]
fn parsing_msg_parse_floats() {
    let msg = "Maddy-hops is exactly 0.00171 kilometers tall";
    assert_eq!(
        parse_input(msg),
        Some(vec![quantity(false, 171, 5, UnitKind::Kilometers)])
    );
}

#[test]
fn destructing_units() {
    let unit = quantity(false, 300, 0, UnitKind::Feet);
    assert_eq!(
        (unit.magnitude, symbol(unit.unit).to_string()),
        (dec(false, 300, 0), String::from("ft"))
    );
}

#[test]
fn assemble_response_single_unit() {
    let msg = "Maddy-hops is exactly 0.00171 kilometers tall";
    let units_vec = parse_input(msg).unwrap();
    assert_eq!(
        "0.00171 km is 0.001062544752 miles\n".to_string(),
        assemble_response(&units_vec)
    );
}

#[test]
fn assemble_response_multiple_units() {
    let msg = "Maddy-hops is exactly 0.00171 kilometers tall and weighs 140 pounds.";
    let units_vec = parse_input(msg).unwrap();
    assert_eq!(
        "0.00171 km is 0.001062544752 miles\n140 lbs is 63.50 kg\n".to_string(),
        assemble_response(&units_vec)
    );
}

#[test]
fn assemble_response_degrees() {
    let msg = "it's -30 c where I live rn";
    let units_vec = parse_input(msg).unwrap();
    assert_eq!(
        "-30 ℃ is -22 ℉\n".to_string(),
        assemble_response(&units_vec)
    );
}
