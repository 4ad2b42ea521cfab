//! The engine: recognizing quantities among the tokens of a message,
//! converting each to its paired unit, and assembling the reply.

use vstd::prelude::*;

use crate::decimal::Decimal;
use crate::decimal::DecimalModel;
use crate::decimal::add_int;
use crate::decimal::conv_wf;
use crate::decimal::div_const;
use crate::decimal::lemma_mul_le;
use crate::decimal::lemma_pow10_increases;
use crate::decimal::lemma_pow10_pos;
use crate::decimal::lemma_rhe_le;
use crate::decimal::mul_const;
use crate::decimal::parsed_wf;
use crate::decimal::pow10;
use crate::decimal::lt_one;
use crate::decimal::parse_number;
use crate::decimal::render_fixed2;
use crate::decimal::render_plain;
use crate::decimal::spec_add_int;
use crate::decimal::spec_div_const;
use crate::decimal::spec_lt_one;
use crate::decimal::spec_mul_const;
use crate::decimal::spec_parse_number;
use crate::decimal::spec_render_fixed2;
use crate::decimal::spec_render_plain;
use crate::scan::contains_seq;
use crate::scan::contains_str;
use crate::scan::lemma_strip_prefix;
use crate::scan::lemma_tokens_contained;
use crate::scan::lower_chars;
use crate::scan::spec_lower;
use crate::scan::spec_strip;
use crate::scan::spec_tokenize;
use crate::scan::strip_token;
use crate::scan::tokenize;
use crate::units::UnitKind;
use crate::units::alias_at;
use crate::units::alias_count;
use crate::units::alias_unit;
use crate::units::lemma_alias_in_list;
use crate::units::paired_unit;
use crate::units::spec_alias_at;
use crate::units::spec_alias_unit;
use crate::units::spec_paired;
use crate::units::spec_symbol;
use crate::units::symbol;

verus! {

/// A recognized quantity: a magnitude and the unit it was written
/// in.  Immutable once the recognizer builds it.
#[derive(Clone, Copy, Debug, PartialEq, Eq, Structural)]
pub struct Quantity {
    pub magnitude: Decimal,
    pub unit: UnitKind,
}

/// Mathematical model of a quantity.
pub struct QuantityModel {
    pub magnitude: DecimalModel,
    pub unit: UnitKind,
}

impl View for Quantity {
    type V = QuantityModel;

    open spec fn view(&self) -> QuantityModel {
        QuantityModel { magnitude: self.magnitude@, unit: self.unit }
    }
}

/// The converted magnitude, by the fixed rule of the given unit:
/// each multiplying factor is exact, each dividing rule rounds, and
/// the temperature rules are affine.
pub open spec fn spec_convert_mag(d: DecimalModel, u: UnitKind) -> DecimalModel {
    match u {
        UnitKind::Miles => spec_mul_const(d, 1609344, 6),  // x 1.609344
        UnitKind::Feet => spec_mul_const(d, 3048, 4),  // x 0.3048
        UnitKind::Inches => spec_mul_const(d, 254, 2),  // x 2.54
        UnitKind::Kilometers => spec_mul_const(d, 6213712, 7),  // x 0.6213712
        UnitKind::Meters => spec_div_const(d, 3048, 4),  // / 0.3048
        UnitKind::Centimeters => spec_div_const(d, 254, 2),  // / 2.54
        UnitKind::Pounds => spec_mul_const(d, 4535924, 7),  // x 0.4535924
        UnitKind::Ounces => spec_mul_const(d, 2834952, 5),  // x 28.34952
        UnitKind::Kilograms => spec_div_const(d, 4535924, 7),  // / 0.4535924
        UnitKind::Grams => spec_div_const(d, 2834952, 5),  // / 28.34952
        UnitKind::Celsius => spec_add_int(spec_mul_const(d, 18, 1), 32, false),  // x 1.8 + 32
        UnitKind::Fahrenheit => spec_div_const(spec_add_int(d, 32, true), 18, 1),  // (x - 32) / 1.8
    }
}

/// The converted counterpart of a quantity: the paired unit, with
/// the magnitude restated by the unit's rule.
pub open spec fn spec_convert(q: QuantityModel) -> QuantityModel {
    QuantityModel { magnitude: spec_convert_mag(q.magnitude, q.unit), unit: spec_paired(q.unit) }
}

impl Quantity {
    /// Converts the quantity to its paired unit.
    pub fn convert(&self) -> (r: Quantity)
        requires
            parsed_wf(self@.magnitude),
        ensures
            r@ == spec_convert(self@),
            conv_wf(r@.magnitude),
    {
        let x = &self.magnitude;
        proof {
            reveal_with_fuel(pow10, 31);
            lemma_pow10_increases(x@.frac, 12);
            lemma_pow10_pos(x@.frac);
        }
        let mag = match self.unit {
            UnitKind::Miles => mul_const(x, 1609344, 6),
            UnitKind::Feet => mul_const(x, 3048, 4),
            UnitKind::Inches => mul_const(x, 254, 2),
            UnitKind::Kilometers => mul_const(x, 6213712, 7),
            UnitKind::Meters => {
                proof {
                    reveal_with_fuel(pow10, 31);
                    assert(pow10(14) == 100_000_000_000_000);
                    lemma_mul_le(x@.mantissa, pow10(14), 1_000_000_000_000_000,
                        100_000_000_000_000);
                }
                let r = div_const(x, 3048, 4);
                proof {
                    lemma_rhe_le(x@.mantissa * pow10(14), 3048);
                }
                r
            },
            UnitKind::Centimeters => {
                proof {
                    reveal_with_fuel(pow10, 31);
                    assert(pow10(12) == 1_000_000_000_000);
                    lemma_mul_le(x@.mantissa, pow10(12), 1_000_000_000_000_000,
                        1_000_000_000_000);
                }
                let r = div_const(x, 254, 2);
                proof {
                    lemma_rhe_le(x@.mantissa * pow10(12), 254);
                }
                r
            },
            UnitKind::Pounds => mul_const(x, 4535924, 7),
            UnitKind::Ounces => mul_const(x, 2834952, 5),
            UnitKind::Kilograms => {
                proof {
                    reveal_with_fuel(pow10, 31);
                    assert(pow10(17) == 100_000_000_000_000_000);
                    lemma_mul_le(x@.mantissa, pow10(17), 1_000_000_000_000_000,
                        100_000_000_000_000_000);
                }
                let r = div_const(x, 4535924, 7);
                proof {
                    lemma_rhe_le(x@.mantissa * pow10(17), 4535924);
                }
                r
            },
            UnitKind::Grams => {
                proof {
                    reveal_with_fuel(pow10, 31);
                    assert(pow10(15) == 1_000_000_000_000_000);
                    lemma_mul_le(x@.mantissa, pow10(15), 1_000_000_000_000_000,
                        1_000_000_000_000_000);
                }
                let r = div_const(x, 2834952, 5);
                proof {
                    lemma_rhe_le(x@.mantissa * pow10(15), 2834952);
                }
                r
            },
            UnitKind::Celsius => {
                let scaled = mul_const(x, 18, 1);
                proof {
                    reveal_with_fuel(pow10, 31);
                    assert(pow10(13) == 10_000_000_000_000);
                    lemma_pow10_increases(scaled@.frac, 13);
                }
                let r = add_int(&scaled, 32, false);
                proof {
                    assert(r@.mantissa <= scaled@.mantissa + 32 * pow10(scaled@.frac));
                    assert(conv_wf(r@));
                }
                r
            },
            UnitKind::Fahrenheit => {
                let shifted = add_int(x, 32, true);
                proof {
                    reveal_with_fuel(pow10, 31);
                    assert(pow10(11) == 100_000_000_000);
                    assert(pow10(12) == 1_000_000_000_000);
                    lemma_pow10_increases(x@.frac, 12);
                    assert(shifted@.mantissa <= x@.mantissa + 32 * pow10(x@.frac));
                    assert(shifted@.mantissa <= 1_033_000_000_000_000);
                    lemma_mul_le(shifted@.mantissa, pow10(11), 1_033_000_000_000_000,
                        100_000_000_000);
                }
                let r = div_const(&shifted, 18, 1);
                proof {
                    lemma_rhe_le(shifted@.mantissa * pow10(11), 18);
                }
                r
            },
        };
        Quantity { magnitude: mag, unit: paired_unit(self.unit) }
    }
}

/// The models of a sequence of quantities.
pub open spec fn view_quantities(v: Seq<Quantity>) -> Seq<QuantityModel> {
    v.map_values(|q: Quantity| q@)
}

/// The quantities recognized from position `i` of the token list
/// onward: a token whose stripped form is an alias yields a quantity
/// exactly when the token immediately before it parses as a number.
pub open spec fn recognize_from(toks: Seq<Seq<char>>, i: int) -> Seq<QuantityModel>
    decreases toks.len() - i,
{
    if i < 0 || i >= toks.len() {
        Seq::empty()
    } else {
        let rest = recognize_from(toks, i + 1);
        match spec_alias_unit(spec_strip(toks[i])) {
            Some(u) => {
                if i >= 1 && spec_parse_number(toks[i - 1]) is Some {
                    seq![
                        QuantityModel {
                            magnitude: spec_parse_number(toks[i - 1]).unwrap(),
                            unit: u,
                        },
                    ] + rest
                } else {
                    rest
                }
            },
            None => rest,
        }
    }
}

/// The quantities recognized among the tokens, in token order.
pub open spec fn spec_recognize(toks: Seq<Seq<char>>) -> Seq<QuantityModel> {
    recognize_from(toks, 0)
}

/// What recognizing a whole message yields: absent exactly when no
/// quantity was recognized.
pub open spec fn spec_parse_input(s: Seq<char>) -> Option<Seq<QuantityModel>> {
    let qs = spec_recognize(spec_tokenize(spec_lower(s)));
    if qs.len() > 0 {
        Some(qs)
    } else {
        None
    }
}

/// The cheap pre-check: some alias occurs somewhere in the
/// lower-cased message, stripped or not.
pub open spec fn spec_precheck(s: Seq<char>) -> bool {
    exists|j: int| 0 <= j < alias_count() && contains_seq(s, #[trigger] spec_alias_at(j))
}

/// A recognized match somewhere after position `i` names an alias.
proof fn lemma_recognize_from_nonempty(toks: Seq<Seq<char>>, i: int)
    requires
        0 <= i,
        recognize_from(toks, i).len() > 0,
    ensures
        exists|k: int|
            i <= k < toks.len() && spec_alias_unit(spec_strip(#[trigger] toks[k])) is Some,
    decreases toks.len() - i,
{
    if i < toks.len() {
        if spec_alias_unit(spec_strip(toks[i])) is Some {
            assert(i <= i < toks.len() && spec_alias_unit(spec_strip(toks[i])) is Some);
        } else {
            lemma_recognize_from_nonempty(toks, i + 1);
        }
    }
}

/// The cheap pre-check is a superset test of the precise per-token
/// match: a token whose stripped form is an alias puts that alias
/// into the message as a substring, because the stripped form is a
/// prefix of the token and the token occurs in the message.  The
/// pre-check therefore never rejects a message in which the precise
/// walk would recognize a quantity.
pub proof fn lemma_match_implies_precheck(s: Seq<char>, t: Seq<char>)
    requires
        contains_seq(s, t),
        spec_alias_unit(spec_strip(t)) is Some,
    ensures
        spec_precheck(s),
{
    let st = spec_strip(t);
    lemma_strip_prefix(t);
    let a = choose|a: int|
        0 <= a && a + t.len() <= s.len() && #[trigger] s.subrange(a, a + t.len()) == t;
    assert(s.subrange(a, a + st.len()) =~= st) by {
        assert forall|j: int| 0 <= j < st.len() implies s.subrange(a, a + st.len())[j] == st[
            j] by {
            assert(s.subrange(a, a + t.len())[j] == s[a + j]);
            assert(st[j] == t.subrange(0, st.len() as int)[j]);
        }
    }
    assert(contains_seq(s, st));
    lemma_alias_in_list(st);
    let j = choose|j: int| 0 <= j < alias_count() && #[trigger] spec_alias_at(j) == st;
    assert(contains_seq(s, spec_alias_at(j)));
}

/// Runs the cheap pre-check on the lower-cased message.
fn precheck(hay: &Vec<char>) -> (r: bool)
    ensures
        r == spec_precheck(hay@),
{
    let mut j: usize = 0;
    while j < 34
        invariant
            j <= 34,
            forall|j2: int| 0 <= j2 < j ==> !contains_seq(hay@, #[trigger] spec_alias_at(j2)),
        decreases 34 - j,
    {
        if contains_str(hay, alias_at(j)) {
            return true;
        }
        j = j + 1;
    }
    false
}

/// Recognizes the quantities of a message: lower-cases it once,
/// takes the cheap alias pre-check, then walks the tokens pairing
/// each alias token with the numeric token immediately before it.
/// Absent exactly when no quantity was recognized.
pub fn parse_input(msg: &str) -> (r: Option<Vec<Quantity>>)
    ensures
        r matches Some(v) ==> spec_parse_input(msg@) == Some(view_quantities(v@))
            && (forall|k: int|
                0 <= k < v@.len() ==> parsed_wf(#[trigger] v@[k]@.magnitude)),
        r is None ==> spec_parse_input(msg@) is None,
{
    let lowered = lower_chars(msg);
    if !precheck(&lowered) {
        proof {
            let toksg = spec_tokenize(spec_lower(msg@));
            if recognize_from(toksg, 0).len() > 0 {
                lemma_recognize_from_nonempty(toksg, 0);
                let k = choose|k: int|
                    0 <= k < toksg.len() && spec_alias_unit(
                        spec_strip(#[trigger] toksg[k])) is Some;
                lemma_tokens_contained(spec_lower(msg@));
                lemma_match_implies_precheck(spec_lower(msg@), toksg[k]);
            }
        }
        return None;
    }
    let toks = tokenize(&lowered);
    let ghost tv = spec_tokenize(spec_lower(msg@));
    let n = toks.len();
    proof {
        assert(toks.deep_view() == tv);
        assert(tv.len() == toks@.len());
    }
    let mut out: Vec<Quantity> = Vec::new();
    let mut i: usize = 0;
    while i < n
        invariant
            i <= n,
            n == toks@.len(),
            tv == toks.deep_view(),
            tv.len() == n,
            spec_recognize(tv) == view_quantities(out@) + recognize_from(tv, i as int),
            forall|k: int| 0 <= k < out@.len() ==> parsed_wf(#[trigger] out@[k]@.magnitude),
        decreases n - i,
    {
        proof {
            assert(tv[i as int] == toks@[i as int].deep_view());
            assert(toks@[i as int].deep_view() =~= toks@[i as int]@);
        }
        let stripped = strip_token(&toks[i]);
        if let Some(u) = alias_unit(&stripped) {
            if i >= 1 {
                proof {
                    assert(tv[i as int - 1] == toks@[i as int - 1].deep_view());
                    assert(toks@[i as int - 1].deep_view() =~= toks@[i as int - 1]@);
                }
                if let Some(d) = parse_number(&toks[i - 1]) {
                    let q = Quantity { magnitude: d, unit: u };
                    proof {
                        assert(spec_parse_number(tv[i as int - 1]) == Some(d@));
                        assert(view_quantities(out@.push(q)) =~= view_quantities(out@)
                            + seq![q@]);
                        assert(view_quantities(out@) + recognize_from(tv, i as int)
                            =~= view_quantities(out@.push(q)) + recognize_from(
                            tv, i as int + 1));
                    }
                    out.push(q);
                } else {
                    proof {
                        assert(recognize_from(tv, i as int) == recognize_from(
                            tv, i as int + 1));
                    }
                }
            }
        }
        i = i + 1;
    }
    proof {
        assert(recognize_from(tv, n as int).len() == 0);
        assert(spec_recognize(tv) =~= view_quantities(out@));
    }
    if out.len() > 0 {
        Some(out)
    } else {
        None
    }
}

/// One reply line for a recognized quantity: the original magnitude
/// and symbol, then the converted magnitude and symbol; converted
/// values below one keep their full precision, others show two
/// fractional digits.
pub open spec fn spec_line(q: QuantityModel) -> Seq<char> {
    let c = spec_convert(q);
    let conv_text = if spec_lt_one(c.magnitude) {
        spec_render_plain(c.magnitude)
    } else {
        spec_render_fixed2(c.magnitude)
    };
    spec_render_plain(q.magnitude) + " "@ + spec_symbol(q.unit) + " is "@ + conv_text + " "@
        + spec_symbol(c.unit) + "\n"@
}

/// The reply lines for the quantities from position `i` onward.
pub open spec fn assemble_from(qs: Seq<QuantityModel>, i: int) -> Seq<char>
    decreases qs.len() - i,
{
    if i < 0 || i >= qs.len() {
        Seq::empty()
    } else {
        spec_line(qs[i]) + assemble_from(qs, i + 1)
    }
}

/// The whole reply: one line per recognized quantity, in
/// recognition order.
pub open spec fn spec_assemble(qs: Seq<QuantityModel>) -> Seq<char> {
    assemble_from(qs, 0)
}

/// Appends the characters of a literal word to the reply.
fn push_str_chars(out: &mut Vec<char>, w: &str)
    ensures
        final(out)@ == old(out)@ + w@,
{
    let n = w.unicode_len();
    let mut i: usize = 0;
    while i < n
        invariant
            i <= n,
            n == w@.len(),
            out@ == old(out)@ + w@.take(i as int),
        decreases n - i,
    {
        out.push(w.get_char(i));
        proof {
            assert(old(out)@ + w@.take(i as int + 1) =~= (old(out)@ + w@.take(i as int)).push(
                w@[i as int]));
        }
        i = i + 1;
    }
    proof {
        assert(w@.take(n as int) =~= w@);
    }
}

/// Trusted bridge to `String`.  Relies on `String`'s `FromIterator`
/// over characters: collecting yields a string of exactly the given
/// characters, in order.
#[verifier::external_body]
fn chars_to_string(v: &Vec<char>) -> (s: String)
    ensures
        s@ == v@,
{
    v.iter().collect()
}

/// Renders the reply for recognized quantities: one line each, in
/// order.
pub fn assemble_response(values: &Vec<Quantity>) -> (r: String)
    requires
        forall|k: int| 0 <= k < values@.len() ==> parsed_wf(#[trigger] values@[k]@.magnitude),
    ensures
        r@ == spec_assemble(view_quantities(values@)),
{
    let ghost qs = view_quantities(values@);
    let mut out: Vec<char> = Vec::new();
    let mut i: usize = 0;
    let n = values.len();
    while i < n
        invariant
            i <= n,
            n == values@.len(),
            qs == view_quantities(values@),
            qs.len() == n,
            forall|k: int| 0 <= k < values@.len() ==> parsed_wf(
                #[trigger] values@[k]@.magnitude),
            spec_assemble(qs) == out@ + assemble_from(qs, i as int),
        decreases n - i,
    {
        let q = values[i];
        let ghost prev = out@;
        proof {
            assert(qs[i as int] == values@[i as int]@);
        }
        render_plain(&q.magnitude, &mut out);
        push_str_chars(&mut out, " ");
        push_str_chars(&mut out, symbol(q.unit));
        push_str_chars(&mut out, " is ");
        let c = q.convert();
        if lt_one(&c.magnitude) {
            render_plain(&c.magnitude, &mut out);
        } else {
            render_fixed2(&c.magnitude, &mut out);
        }
        push_str_chars(&mut out, " ");
        push_str_chars(&mut out, symbol(c.unit));
        push_str_chars(&mut out, "\n");
        proof {
            assert(out@ =~= prev + spec_line(qs[i as int]));
            assert(prev + assemble_from(qs, i as int) =~= out@ + assemble_from(
                qs, i as int + 1));
        }
        i = i + 1;
    }
    proof {
        assert(spec_assemble(qs) =~= out@);
    }
    chars_to_string(&out)
}

/// What responding to a message yields: absent exactly when no
/// quantity was recognized, else the assembled reply.
pub open spec fn spec_respond(s: Seq<char>) -> Option<Seq<char>> {
    match spec_parse_input(s) {
        Some(qs) => Some(spec_assemble(qs)),
        None => None,
    }
}

/// The public entry point: scans the message for quantities and
/// produces the reply, or nothing when no quantity was recognized.
/// A reply, when present, is never empty.
pub fn respond_to_msg(msg: &str) -> (r: Option<String>)
    ensures
        r matches Some(t) ==> spec_respond(msg@) == Some(t@) && t@.len() > 0,
        r is None ==> spec_respond(msg@) is None,
{
    match parse_input(msg) {
        Some(v) => {
            let text = assemble_response(&v);
            proof {
                let qs = view_quantities(v@);
                assert(qs.len() > 0);
                reveal_strlit("\n");
                assert(spec_line(qs[0]).len() > 0);
                assert(spec_assemble(qs).len() > 0);
            }
            Some(text)
        },
        None => None,
    }
}

} // verus!
