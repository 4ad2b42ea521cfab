//! Laws of the engine, stated and proved once for all inputs: the
//! pairing is perfect, conversion round-trips within a relative
//! tolerance of one part in a thousand, and responding is a pure
//! function of the message text.

use vstd::prelude::*;

use crate::conversion::QuantityModel;
use crate::conversion::spec_convert;
use crate::conversion::spec_respond;
use crate::decimal::DecimalModel;
use crate::decimal::lemma_pow10_adds;
use crate::decimal::lemma_pow10_pos;
use crate::decimal::lemma_rhe_err;
use crate::decimal::lemma_rhe_exact;
use crate::decimal::parsed_wf;
use crate::decimal::pow10;
use crate::decimal::round_half_even;
use crate::decimal::signed_mantissa;
use crate::decimal::spec_add_int;
use crate::decimal::spec_div_const;
use crate::decimal::spec_mul_const;
use crate::units::UnitKind;
use crate::units::spec_category;
use crate::units::spec_is_metric;
use crate::units::spec_paired;

verus! {

/// The magnitude of an integer.
pub open spec fn iabs(x: int) -> int {
    if x < 0 {
        -x
    } else {
        x
    }
}

/// The pairing of the catalog is perfect: every unit has exactly one
/// counterpart, distinct from itself, of the same category and on
/// the other side of its system, and converting the counterpart
/// leads back.
pub proof fn lemma_perfect_pairing(u: UnitKind)
    ensures
        spec_paired(spec_paired(u)) == u,
        spec_paired(u) != u,
        spec_category(spec_paired(u)) == spec_category(u),
        spec_is_metric(spec_paired(u)) == !spec_is_metric(u),
{
    match u {
        UnitKind::Kilometers => {},
        UnitKind::Meters => {},
        UnitKind::Centimeters => {},
        UnitKind::Miles => {},
        UnitKind::Feet => {},
        UnitKind::Inches => {},
        UnitKind::Kilograms => {},
        UnitKind::Grams => {},
        UnitKind::Pounds => {},
        UnitKind::Ounces => {},
        UnitKind::Celsius => {},
        UnitKind::Fahrenheit => {},
    }
}

/// Responding is a pure function of the message text: two calls on
/// equal text always yield the same result.  In particular a message
/// in which nothing is recognized stays unanswered however often it
/// is asked.
pub proof fn lemma_respond_deterministic(s1: Seq<char>, s2: Seq<char>)
    requires
        s1 == s2,
    ensures
        spec_respond(s1) == spec_respond(s2),
{
}

/// The round-trip tolerance statement, cross-multiplied to stay in
/// the integers: the magnitudes `rt` (back-converted) and `d`
/// (original) differ by at most one part in a thousand of `d`.
pub open spec fn within_tolerance(d: DecimalModel, rt: DecimalModel) -> bool {
    1000 * iabs(signed_mantissa(rt) * pow10(d.frac) - signed_mantissa(d) * pow10(rt.frac))
        <= iabs(signed_mantissa(d)) * pow10(rt.frac)
}

/// Round trip of two multiplying rules whose factors are inverse up
/// to one part in a thousand.
proof fn lemma_rt_mul_mul(d: DecimalModel, c1: nat, cf1: nat, c2: nat, cf2: nat)
    requires
        1000 * iabs(c1 * c2 - pow10(cf1 + cf2)) <= pow10(cf1 + cf2),
    ensures
        within_tolerance(d, spec_mul_const(spec_mul_const(d, c1, cf1), c2, cf2)),
{
    let rt = spec_mul_const(spec_mul_const(d, c1, cf1), c2, cf2);
    let f = d.frac;
    let smd = signed_mantissa(d);
    let smrt = signed_mantissa(rt);
    let p12 = pow10(cf1 + cf2);
    let pf = pow10(f);
    let delta = c1 * c2 - p12;
    lemma_pow10_pos(f);
    lemma_pow10_pos(cf1 + cf2);
    lemma_pow10_adds(f, cf1 + cf2);
    assert(rt.frac == f + (cf1 + cf2));
    assert(pow10(rt.frac) == pf * p12);
    assert(rt.mantissa == d.mantissa * (c1 * c2)) by (nonlinear_arith)
        requires
            rt.mantissa == (d.mantissa * c1) * c2,
    ;
    assert(smrt == smd * (c1 * c2)) by (nonlinear_arith)
        requires
            smrt == if d.neg { -((d.mantissa * (c1 * c2)) as int) } else {
                (d.mantissa * (c1 * c2)) as int
            },
            smd == if d.neg { -(d.mantissa as int) } else { d.mantissa as int },
    ;
    let inner = smrt * pf - smd * pow10(rt.frac);
    assert(inner == smd * pf * delta) by (nonlinear_arith)
        requires
            inner == smrt * pf - smd * (pf * p12),
            smrt == smd * (c1 * c2),
            delta == c1 * c2 - p12,
    ;
    assert(iabs(inner) == iabs(smd) * pf * iabs(delta)) by (nonlinear_arith)
        requires
            inner == smd * pf * delta,
            pf >= 0,
            iabs(smd) == if smd < 0 { -smd } else { smd },
            iabs(delta) == if delta < 0 { -delta } else { delta },
            iabs(inner) == if inner < 0 { -inner } else { inner },
    ;
    assert(1000 * iabs(inner) <= iabs(smd) * pf * p12) by (nonlinear_arith)
        requires
            iabs(inner) == iabs(smd) * pf * iabs(delta),
            1000 * iabs(delta) <= p12,
            iabs(smd) >= 0,
            pf >= 0,
    ;
    assert(iabs(smd) * pow10(rt.frac) == iabs(smd) * pf * p12) by (nonlinear_arith)
        requires
            pow10(rt.frac) == pf * p12,
    ;
}

/// Round trip of a multiplying rule followed by the dividing rule of
/// the same constant: exact.
proof fn lemma_rt_mul_div(d: DecimalModel, c: nat, cf: nat)
    requires
        c >= 1,
    ensures
        ({
            let rt = spec_div_const(spec_mul_const(d, c, cf), c, cf);
            signed_mantissa(rt) * pow10(d.frac) == signed_mantissa(d) * pow10(rt.frac)
        }),
        within_tolerance(d, spec_div_const(spec_mul_const(d, c, cf), c, cf)),
{
    let mid = spec_mul_const(d, c, cf);
    let rt = spec_div_const(mid, c, cf);
    let f = d.frac;
    let pc = pow10(cf + 10);
    lemma_pow10_pos(f);
    lemma_pow10_pos(cf + 10);
    lemma_pow10_adds(f, cf + 10);
    assert(rt.frac == f + (cf + 10));
    assert(pow10(rt.frac) == pow10(f) * pc);
    assert(mid.mantissa * pc == (d.mantissa * pc) * c) by (nonlinear_arith)
        requires
            mid.mantissa == d.mantissa * c,
    ;
    lemma_rhe_exact(d.mantissa * pc, c);
    assert(rt.mantissa == d.mantissa * pc);
    let smd = signed_mantissa(d);
    let smrt = signed_mantissa(rt);
    assert(smrt == smd * pc) by (nonlinear_arith)
        requires
            smrt == if d.neg { -((d.mantissa * pc) as int) } else { (d.mantissa * pc) as int },
            smd == if d.neg { -(d.mantissa as int) } else { d.mantissa as int },
    ;
    assert(smrt * pow10(f) == smd * (pow10(f) * pc)) by (nonlinear_arith)
        requires
            smrt == smd * pc,
    ;
    lemma_pow10_pos(rt.frac);
    assert(iabs(smd) * pow10(rt.frac) >= 0) by (nonlinear_arith)
        requires
            iabs(smd) >= 0,
            pow10(rt.frac) >= 0,
    ;
}

/// Round trip of a dividing rule followed by the multiplying rule of
/// the same constant: off by at most the rounding of the division.
proof fn lemma_rt_div_mul(d: DecimalModel, c: nat, cf: nat)
    requires
        c >= 1,
        500 * c <= pow10(cf + 10),
    ensures
        within_tolerance(d, spec_mul_const(spec_div_const(d, c, cf), c, cf)),
{
    let mid = spec_div_const(d, c, cf);
    let rt = spec_mul_const(mid, c, cf);
    let f = d.frac;
    let pc = pow10(cf + 10);
    let pf = pow10(f);
    let t = d.mantissa * pc;
    let q1 = round_half_even(t, c);
    lemma_pow10_pos(f);
    lemma_pow10_pos(cf + 10);
    lemma_pow10_adds(f, cf + 10);
    assert(rt.frac == f + (cf + 10));
    assert(pow10(rt.frac) == pf * pc);
    lemma_rhe_err(t, c);
    let e = q1 * c - t;
    assert(2 * iabs(e) <= c);
    assert(rt.mantissa == q1 * c);
    let smd = signed_mantissa(d);
    let smrt = signed_mantissa(rt);
    let inner = smrt * pf - smd * pow10(rt.frac);
    if d.neg {
        assert(smrt == -((q1 * c) as int) && smd == -(d.mantissa as int));
        assert(inner == -(e * pf)) by (nonlinear_arith)
            requires
                inner == -((q1 * c) as int) * pf - (-(d.mantissa as int)) * (pf * pc),
                e == q1 * c - d.mantissa * pc,
        ;
    } else {
        assert(smrt == (q1 * c) as int && smd == d.mantissa as int);
        assert(inner == e * pf) by (nonlinear_arith)
            requires
                inner == ((q1 * c) as int) * pf - (d.mantissa as int) * (pf * pc),
                e == q1 * c - d.mantissa * pc,
        ;
    }
    assert(iabs(inner) == iabs(e) * pf) by (nonlinear_arith)
        requires
            iabs(inner) == if inner < 0 { -inner } else { inner },
            iabs(e) == if e < 0 { -e } else { e },
            inner == e * pf || inner == -(e * pf),
            pf >= 0,
    ;
    if d.mantissa == 0 {
        assert(t == 0) by (nonlinear_arith)
            requires
                t == d.mantissa * pc,
                d.mantissa == 0,
        ;
        assert(t / c == 0 && t % c == 0) by (nonlinear_arith)
            requires
                t == 0,
                c >= 1,
        ;
        assert(q1 == 0);
        assert(e == 0) by (nonlinear_arith)
            requires
                q1 == 0,
                t == 0,
                e == q1 * c - t,
        ;
        assert(iabs(inner) == 0) by (nonlinear_arith)
            requires
                iabs(inner) == iabs(e) * pf,
                iabs(e) == 0,
        ;
        assert(iabs(smd) * pow10(rt.frac) >= 0) by (nonlinear_arith)
            requires
                iabs(smd) >= 0,
                pow10(rt.frac) >= 0,
        ;
    } else {
        assert(1000 * (iabs(e) * pf) <= iabs(smd) * (pf * pc)) by (nonlinear_arith)
            requires
                2 * iabs(e) <= c,
                500 * c <= pc,
                iabs(smd) >= 1,
                pf >= 1,
                pc >= 0,
                iabs(e) >= 0,
        ;
    }
}

/// Round trip of the Celsius rule and back: the scaling by the
/// temperature factor cancels exactly, offsets and all.
proof fn lemma_rt_celsius(d: DecimalModel)
    ensures
        ({
            let rt = spec_div_const(
                spec_add_int(spec_add_int(spec_mul_const(d, 18, 1), 32, false), 32, true),
                18,
                1,
            );
            signed_mantissa(rt) * pow10(d.frac) == signed_mantissa(d) * pow10(rt.frac)
        }),
        within_tolerance(
            d,
            spec_div_const(
                spec_add_int(spec_add_int(spec_mul_const(d, 18, 1), 32, false), 32, true),
                18,
                1,
            ),
        ),
{
    let f = d.frac;
    let d1 = spec_mul_const(d, 18, 1);
    let d2 = spec_add_int(d1, 32, false);
    let d3 = spec_add_int(d2, 32, true);
    let rt = spec_div_const(d3, 18, 1);
    let smd = signed_mantissa(d);
    lemma_pow10_pos(f);
    lemma_pow10_pos(11);
    assert(signed_mantissa(d1) == smd * 18) by (nonlinear_arith)
        requires
            signed_mantissa(d1) == if d.neg { -((d.mantissa * 18) as int) } else {
                (d.mantissa * 18) as int
            },
            smd == if d.neg { -(d.mantissa as int) } else { d.mantissa as int },
    ;
    assert(signed_mantissa(d2) == smd * 18 + 32 * pow10(d1.frac));
    assert(signed_mantissa(d3) == smd * 18);
    assert(d3.mantissa == iabs(smd * 18));
    assert(d3.frac == f + 1);
    // the division input is a multiple of the divisor, so it rounds
    // back exactly to the magnitude times the division scale
    assert(d3.mantissa * pow10(11) == (d.mantissa * pow10(11)) * 18) by (nonlinear_arith)
        requires
            d3.mantissa == iabs(smd * 18),
            iabs(smd * 18) == if smd * 18 < 0 { -(smd * 18) } else { smd * 18 },
            smd == if d.neg { -(d.mantissa as int) } else { d.mantissa as int },
    ;
    lemma_rhe_exact(d.mantissa * pow10(11), 18);
    assert(rt.mantissa == d.mantissa * pow10(11));
    assert(rt.frac == f + 11);
    lemma_pow10_adds(f, 11);
    assert(pow10(rt.frac) == pow10(f) * pow10(11));
    let smrt = signed_mantissa(rt);
    // the sign flag of the round trip agrees with the sign of the
    // original wherever the mantissa is not zero
    assert(smrt == smd * pow10(11)) by (nonlinear_arith)
        requires
            smrt == if rt.neg { -((d.mantissa * pow10(11)) as int) } else {
                (d.mantissa * pow10(11)) as int
            },
            smd == if d.neg { -(d.mantissa as int) } else { d.mantissa as int },
            rt.neg == d3.neg,
            d3.neg ==> smd * 18 <= 0,
            !d3.neg ==> smd * 18 >= 0,
            pow10(11) >= 1,
    ;
    assert(smrt * pow10(f) == smd * (pow10(f) * pow10(11))) by (nonlinear_arith)
        requires
            smrt == smd * pow10(11),
    ;
    assert(iabs(smd) * pow10(rt.frac) >= 0) by (nonlinear_arith)
        requires
            iabs(smd) >= 0,
            pow10(rt.frac) >= 0,
    ;
}

/// Round trip of the Fahrenheit rule and back: the one rounding of
/// the dividing step survives scaled by the factor, well within the
/// tolerance for every non-zero magnitude.
proof fn lemma_rt_fahrenheit(d: DecimalModel)
    requires
        d.mantissa >= 1,
    ensures
        within_tolerance(
            d,
            spec_add_int(
                spec_mul_const(spec_div_const(spec_add_int(d, 32, true), 18, 1), 18, 1),
                32,
                false,
            ),
        ),
{
    let f = d.frac;
    let d1 = spec_add_int(d, 32, true);
    let d2 = spec_div_const(d1, 18, 1);
    let d3 = spec_mul_const(d2, 18, 1);
    let rt = spec_add_int(d3, 32, false);
    let smd = signed_mantissa(d);
    let pf = pow10(f);
    let p11 = pow10(11);
    lemma_pow10_pos(f);
    lemma_pow10_pos(11);
    let s1 = smd - 32 * pf;
    assert(signed_mantissa(d1) == s1);
    assert(d1.mantissa == iabs(s1));
    assert(d1.frac == f);
    let t = d1.mantissa * p11;
    let q1 = round_half_even(t, 18);
    lemma_rhe_err(t, 18);
    let e = q1 * 18 - t;
    assert(2 * iabs(e) <= 18);
    assert(d2.mantissa == q1 && d2.frac == f + 10 && d2.neg == d1.neg);
    assert(d3.mantissa == q1 * 18 && d3.frac == f + 11 && d3.neg == d1.neg);
    assert(rt.frac == f + 11);
    lemma_pow10_adds(f, 11);
    assert(pow10(rt.frac) == pf * p11);
    // the signed value of the scaled quotient differs from the
    // signed shifted value, rescaled, by at most the rounding error
    let sm3 = signed_mantissa(d3);
    assert(iabs(sm3 - s1 * p11) <= iabs(e)) by (nonlinear_arith)
        requires
            sm3 == if d1.neg { -((q1 * 18) as int) } else { (q1 * 18) as int },
            e == q1 * 18 - iabs(s1) * p11,
            t == iabs(s1) * p11,
            iabs(s1) == if s1 < 0 { -s1 } else { s1 },
            d1.neg ==> s1 <= 0,
            !d1.neg ==> s1 >= 0,
            d1.mantissa == iabs(s1),
            iabs(e) == if e < 0 { -e } else { e },
            iabs(sm3 - s1 * p11) == if sm3 - s1 * p11 < 0 { -(sm3 - s1 * p11) } else {
                sm3 - s1 * p11
            },
            p11 >= 1,
    ;
    let smrt = signed_mantissa(rt);
    assert(smrt == sm3 + 32 * pow10(rt.frac) - 0) by {
        assert(rt.frac == d3.frac);
        assert(signed_mantissa(rt) == sm3 + 32 * pow10(d3.frac));
    }
    let inner = smrt * pf - smd * pow10(rt.frac);
    assert(iabs(inner) <= iabs(e) * pf) by (nonlinear_arith)
        requires
            inner == smrt * pf - smd * (pf * p11),
            smrt == sm3 + 32 * (pf * p11),
            iabs(sm3 - s1 * p11) <= iabs(e),
            s1 == smd - 32 * pf,
            iabs(e) == if e < 0 { -e } else { e },
            iabs(sm3 - s1 * p11) == if sm3 - s1 * p11 < 0 { -(sm3 - s1 * p11) } else {
                sm3 - s1 * p11
            },
            iabs(inner) == if inner < 0 { -inner } else { inner },
            pf >= 1,
    ;
    assert(p11 == 100_000_000_000) by {
        reveal_with_fuel(pow10, 12);
    }
    assert(1000 * iabs(inner) <= iabs(smd) * (pf * p11)) by (nonlinear_arith)
        requires
            iabs(inner) <= iabs(e) * pf,
            2 * iabs(e) <= 18,
            iabs(smd) >= 1,
            pf >= 1,
            p11 == 100_000_000_000,
            iabs(e) >= 0,
            iabs(inner) >= 0,
    ;
}

/// Round-trip law: converting a quantity and converting the result
/// back returns to the original unit, with a magnitude within one
/// part in a thousand of the original.  The only inputs left out are
/// zero-magnitude Fahrenheit quantities: there the affine rules
/// cross zero, where no relative tolerance can hold of the rounded
/// quotient.
pub proof fn lemma_convert_round_trip(q: QuantityModel)
    requires
        parsed_wf(q.magnitude),
        q.unit is Fahrenheit ==> q.magnitude.mantissa >= 1,
    ensures
        spec_convert(spec_convert(q)).unit == q.unit,
        within_tolerance(q.magnitude, spec_convert(spec_convert(q)).magnitude),
{
    let d = q.magnitude;
    lemma_perfect_pairing(q.unit);
    reveal_with_fuel(pow10, 31);
    match q.unit {
        UnitKind::Kilometers => {
            lemma_rt_mul_mul(d, 6213712, 7, 1609344, 6);
        },
        UnitKind::Miles => {
            lemma_rt_mul_mul(d, 1609344, 6, 6213712, 7);
        },
        UnitKind::Feet => {
            lemma_rt_mul_div(d, 3048, 4);
        },
        UnitKind::Inches => {
            lemma_rt_mul_div(d, 254, 2);
        },
        UnitKind::Pounds => {
            lemma_rt_mul_div(d, 4535924, 7);
        },
        UnitKind::Ounces => {
            lemma_rt_mul_div(d, 2834952, 5);
        },
        UnitKind::Meters => {
            lemma_rt_div_mul(d, 3048, 4);
        },
        UnitKind::Centimeters => {
            lemma_rt_div_mul(d, 254, 2);
        },
        UnitKind::Kilograms => {
            lemma_rt_div_mul(d, 4535924, 7);
        },
        UnitKind::Grams => {
            lemma_rt_div_mul(d, 2834952, 5);
        },
        UnitKind::Celsius => {
            lemma_rt_celsius(d);
        },
        UnitKind::Fahrenheit => {
            lemma_rt_fahrenheit(d);
        },
    }
}

} // verus!
