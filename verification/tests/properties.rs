use float_cmp::ApproxEq;
use float_cmp::F64Margin;

use unit_responder::conversion::Quantity;
use unit_responder::conversion::respond_to_msg;
use unit_responder::decimal::Decimal;
use unit_responder::units::UnitKind;
use unit_responder::units::paired_unit;

fn quantity(neg: bool, mantissa: u128, frac: u32, unit: UnitKind) -> Quantity {
    Quantity {
        magnitude: Decimal { neg, mantissa, frac },
        unit,
    }
}

fn as_f64(d: &Decimal) -> f64 {
    let v = d.mantissa as f64 / 10f64.powi(d.frac as i32);
    if d.neg { -v } else { v }
}

fn assert_round_trip(q: Quantity) {
    let rt = q.convert().convert();
    assert_eq!(rt.unit, q.unit);
    let x = as_f64(&q.magnitude);
    let y = as_f64(&rt.magnitude);
    // within 0.1 % relative tolerance
    assert!(
        (y - x).abs() * 1000.0 <= x.abs() + 1e-9,
        "round trip drifted: {} became {}",
        x,
        y
    );
}

#[test]
fn round_trip_all_units() {
    let units = vec![
        UnitKind::Kilometers,
        UnitKind::Meters,
        UnitKind::Centimeters,
        UnitKind::Miles,
        UnitKind::Feet,
        UnitKind::Inches,
        UnitKind::Kilograms,
        UnitKind::Grams,
        UnitKind::Pounds,
        UnitKind::Ounces,
        UnitKind::Celsius,
        UnitKind::Fahrenheit,
    ];
    for unit in units {
        // representative magnitudes: integral, fractional, negative
        assert_round_trip(quantity(false, 171, 0, unit));
        assert_round_trip(quantity(false, 171, 5, unit));
        assert_round_trip(quantity(true, 40, 0, unit));
        // zero round-trips exactly everywhere but Fahrenheit, where
        // the affine rules cross zero
        if unit != UnitKind::Fahrenheit {
            assert_round_trip(quantity(false, 0, 0, unit));
        }
    }
}

#[test]
fn pairing_is_perfect() {
    let units = vec![
        UnitKind::Kilometers,
        UnitKind::Meters,
        UnitKind::Centimeters,
        UnitKind::Miles,
        UnitKind::Feet,
        UnitKind::Inches,
        UnitKind::Kilograms,
        UnitKind::Grams,
        UnitKind::Pounds,
        UnitKind::Ounces,
        UnitKind::Celsius,
        UnitKind::Fahrenheit,
    ];
    for unit in units {
        assert_ne!(paired_unit(unit), unit);
        assert_eq!(paired_unit(paired_unit(unit)), unit);
    }
}

#[test]
fn absence_is_idempotent() {
    let msg = "text with no units";
    assert_eq!(respond_to_msg(msg), None);
    assert_eq!(respond_to_msg(msg), None);
}

#[test]
fn multi_match_order() {
    let reply = respond_to_msg("171 cm tall and 140 pounds").unwrap();
    let lines: Vec<&str> = reply.lines().collect();
    assert_eq!(lines.len(), 2);
    assert!(lines[0].starts_with("171 cm"));
    assert!(lines[1].starts_with("140 lbs"));
}

#[test]
fn malformed_then_valid() {
    assert_eq!(
        respond_to_msg("none cm tall and weigh 140 pounds"),
        Some("140 lbs is 63.50 kg\n".to_string())
    );
}

#[test]
fn punctuation_stripping() {
    assert_eq!(
        respond_to_msg("140 pounds,|.,;."),
        Some("140 lbs is 63.50 kg\n".to_string())
    );
}

#[test]
fn formatting_threshold() {
    // a converted magnitude below one keeps its full precision
    assert_eq!(
        respond_to_msg("0.00171 km"),
        Some("0.00171 km is 0.001062544752 miles\n".to_string())
    );
    // one at or above one is rendered with two fractional digits
    assert_eq!(
        respond_to_msg("140 lbs"),
        Some("140 lbs is 63.50 kg\n".to_string())
    );
}

#[test]
fn degrees_scenario() {
    assert_eq!(
        respond_to_msg("it's -30 c where I live rn"),
        Some("-30 ℃ is -22 ℉\n".to_string())
    );
}

#[test]
fn tall_scenario() {
    assert_eq!(
        respond_to_msg("Hello, I am 171 cm tall"),
        Some("171 cm is 67.32 inches\n".to_string())
    );
}

#[test]
fn unit_token_first_is_skipped() {
    // an alias with no preceding token yields no quantity
    assert_eq!(respond_to_msg("cm tall"), None);
    assert_eq!(respond_to_msg("cm tall but 140 pounds heavy"),
        Some("140 lbs is 63.50 kg\n".to_string()));
}

#[test]
fn empty_message() {
    assert_eq!(respond_to_msg(""), None);
}

#[test]
fn case_insensitive_aliases() {
    assert_eq!(
        respond_to_msg("I walked 5 MILES today"),
        Some("5 miles is 8.05 km\n".to_string())
    );
}

#[test]
fn negative_and_decimal_numbers_parse() {
    // the converted magnitude is negative, hence below one, and so
    // keeps its full precision of ten digits past the input's scale
    assert_eq!(
        respond_to_msg("-2.5 kg of flour"),
        Some("-2.5 kg is -5.51155619009 lbs\n".to_string())
    );
}

#[test]
fn overlong_numbers_are_dropped() {
    // a numeric token beyond the engine's caps is treated as
    // malformed, and the scan continues
    assert_eq!(respond_to_msg("99999999999999999999 cm long"), None);
    assert_eq!(
        respond_to_msg("99999999999999999999 cm long but 140 pounds"),
        Some("140 lbs is 63.50 kg\n".to_string())
    );
}

#[test]
fn ounce_conversion_line() {
    assert_eq!(
        respond_to_msg("10 oz of gold"),
        Some("10 oz is 283.50 grams\n".to_string())
    );
}

#[test]
fn grams_alias_needs_full_word() {
    // the alias table has no bare "g": the catalog recognizes only
    // the longer surface forms
    assert_eq!(respond_to_msg("10 g of salt"), None);
    assert!(respond_to_msg("10 grams of salt").is_some());
}
