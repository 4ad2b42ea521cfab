//! Exact decimal magnitudes: the numeric values carried by recognized
//! quantities, together with parsing from numeric tokens, arithmetic
//! used by the conversion rules, and rendering of reply values.

use vstd::prelude::*;

verus! {

/// Largest mantissa a recognized numeric token may carry (10^15).
pub const PARSE_MANTISSA_CAP: u128 = 1_000_000_000_000_000;

/// Largest count of fractional digits a recognized numeric token may carry.
pub const PARSE_FRAC_CAP: u32 = 12;

/// Fractional digits that a dividing conversion rule appends.
pub const DIV_SCALE: u32 = 10;

/// Mathematical model of a decimal magnitude: the value is
/// `mantissa / 10^frac`, negated when `neg` holds.
pub struct DecimalModel {
    pub neg: bool,
    pub mantissa: nat,
    pub frac: nat,
}

/// A decimal magnitude as the engine carries it: a sign, an integer
/// mantissa and a count of fractional digits.
#[derive(Clone, Copy, Debug, PartialEq, Eq, Structural)]
pub struct Decimal {
    pub neg: bool,
    pub mantissa: u128,
    pub frac: u32,
}

impl View for Decimal {
    type V = DecimalModel;

    open spec fn view(&self) -> DecimalModel {
        DecimalModel { neg: self.neg, mantissa: self.mantissa as nat, frac: self.frac as nat }
    }
}

/// The mantissa with its sign applied; the value of the model is this
/// integer divided by `10^frac`.
pub open spec fn signed_mantissa(d: DecimalModel) -> int {
    if d.neg {
        -(d.mantissa as int)
    } else {
        d.mantissa as int
    }
}

pub open spec fn pow10(n: nat) -> nat
    decreases n,
{
    if n == 0 {
        1
    } else {
        10 * pow10((n - 1) as nat)
    }
}

pub proof fn lemma_pow10_pos(n: nat)
    ensures
        pow10(n) >= 1,
    decreases n,
{
    if n > 0 {
        lemma_pow10_pos((n - 1) as nat);
    }
}

pub proof fn lemma_pow10_adds(a: nat, b: nat)
    ensures
        pow10(a + b) == pow10(a) * pow10(b),
    decreases a,
{
    if a == 0 {
        assert(pow10(b) == 1 * pow10(b));
    } else {
        lemma_pow10_adds((a - 1) as nat, b);
        assert(pow10(a + b) == 10 * pow10((a + b - 1) as nat));
        assert((a + b - 1) as nat == (a - 1) as nat + b);
        assert(pow10(a) * pow10(b) == 10 * (pow10((a - 1) as nat) * pow10(b)))
            by (nonlinear_arith)
            requires
                pow10(a) == 10 * pow10((a - 1) as nat),
        ;
    }
}

pub proof fn lemma_pow10_increases(a: nat, b: nat)
    requires
        a <= b,
    ensures
        pow10(a) <= pow10(b),
{
    lemma_pow10_adds(a, (b - a) as nat);
    lemma_pow10_pos((b - a) as nat);
    lemma_pow10_pos(a);
    assert(pow10(a) * 1 <= pow10(a) * pow10((b - a) as nat)) by (nonlinear_arith)
        requires
            pow10(a) >= 1,
            pow10((b - a) as nat) >= 1,
    ;
}

/// `10^30`, the largest power of ten the engine ever computes at run time.
pub proof fn lemma_pow10_30()
    ensures
        pow10(30) == 1_000_000_000_000_000_000_000_000_000_000u128 as nat,
{
    reveal_with_fuel(pow10, 31);
}

/// Computes `10^n` for the small exponents the engine uses.
pub fn pow10_exec(n: u32) -> (r: u128)
    requires
        n <= 30,
    ensures
        r == pow10(n as nat),
{
    proof {
        lemma_pow10_30();
    }
    let mut r: u128 = 1;
    let mut i: u32 = 0;
    while i < n
        invariant
            i <= n <= 30,
            r == pow10(i as nat),
        decreases n - i,
    {
        proof {
            lemma_pow10_30();
            lemma_pow10_increases(i as nat + 1, 30);
            assert(pow10(i as nat + 1) == 10 * pow10(i as nat));
        }
        r = r * 10;
        i = i + 1;
    }
    r
}

/// The digit character for a value below ten.
pub open spec fn digit_char(d: nat) -> char
    recommends
        d < 10,
{
    if d == 0 { '0' }
    else if d == 1 { '1' }
    else if d == 2 { '2' }
    else if d == 3 { '3' }
    else if d == 4 { '4' }
    else if d == 5 { '5' }
    else if d == 6 { '6' }
    else if d == 7 { '7' }
    else if d == 8 { '8' }
    else { '9' }
}

/// The plain base-ten rendering of `n`, without leading zeros
/// (a single zero digit when `n` is zero).
pub open spec fn spec_digits(n: nat) -> Seq<char>
    decreases n,
{
    if n < 10 {
        seq![digit_char(n)]
    } else {
        spec_digits(n / 10).push(digit_char(n % 10))
    }
}

/// The base-ten rendering of `n` padded with leading zeros to exactly
/// `width` digits; `n` must fit in that many digits.
pub open spec fn spec_digits_padded(n: nat, width: nat) -> Seq<char>
    decreases width,
{
    if width == 0 {
        Seq::empty()
    } else {
        spec_digits_padded(n / 10, (width - 1) as nat).push(digit_char(n % 10))
    }
}

fn digit_char_exec(d: u128) -> (c: char)
    requires
        d < 10,
    ensures
        c == digit_char(d as nat),
{
    if d == 0 { '0' }
    else if d == 1 { '1' }
    else if d == 2 { '2' }
    else if d == 3 { '3' }
    else if d == 4 { '4' }
    else if d == 5 { '5' }
    else if d == 6 { '6' }
    else if d == 7 { '7' }
    else if d == 8 { '8' }
    else { '9' }
}

/// Appends the plain rendering of `n` to `out`.
pub fn push_digits(n: u128, out: &mut Vec<char>)
    ensures
        final(out)@ == old(out)@ + spec_digits(n as nat),
    decreases n,
{
    if n < 10 {
        out.push(digit_char_exec(n));
    } else {
        push_digits(n / 10, out);
        out.push(digit_char_exec(n % 10));
    }
}

/// Appends the rendering of `n` padded to `width` digits to `out`.
pub fn push_digits_padded(n: u128, width: u32, out: &mut Vec<char>)
    ensures
        final(out)@ == old(out)@ + spec_digits_padded(n as nat, width as nat),
    decreases width,
{
    if width > 0 {
        push_digits_padded(n / 10, width - 1, out);
        out.push(digit_char_exec(n % 10));
    }
}

/// `t / c` rounded to the nearest integer, ties to the even neighbour.
pub open spec fn round_half_even(t: nat, c: nat) -> nat
    recommends
        c >= 1,
{
    let q = t / c;
    let r = t % c;
    if 2 * r < c {
        q
    } else if 2 * r > c {
        q + 1
    } else if q % 2 == 0 {
        q
    } else {
        q + 1
    }
}

/// The exact product of a magnitude with the constant
/// `c_mant / 10^c_frac`, as a multiplying conversion rule applies it.
pub open spec fn spec_mul_const(d: DecimalModel, c_mant: nat, c_frac: nat) -> DecimalModel {
    DecimalModel { neg: d.neg, mantissa: d.mantissa * c_mant, frac: d.frac + c_frac }
}

/// The quotient of a magnitude by the constant `c_mant / 10^c_frac`,
/// carried to `DIV_SCALE` further fractional digits and rounded half
/// to even, as a dividing conversion rule applies it.
pub open spec fn spec_div_const(d: DecimalModel, c_mant: nat, c_frac: nat) -> DecimalModel {
    DecimalModel {
        neg: d.neg,
        mantissa: round_half_even(d.mantissa * pow10(c_frac + DIV_SCALE as nat), c_mant),
        frac: d.frac + DIV_SCALE as nat,
    }
}

/// The sum of a magnitude and the integer `k` (negated when `k_neg`
/// holds), at the magnitude's own scale.  An exact cancellation
/// between the two signs leaves a non-negative zero.
pub open spec fn spec_add_int(d: DecimalModel, k: nat, k_neg: bool) -> DecimalModel {
    let sk = if k_neg { -(k * pow10(d.frac)) } else { (k * pow10(d.frac)) as int };
    let sum = signed_mantissa(d) + sk;
    DecimalModel {
        neg: if sum < 0 { true } else if sum > 0 { false } else { d.neg == k_neg && d.neg },
        mantissa: (if sum < 0 { -sum } else { sum }) as nat,
        frac: d.frac,
    }
}

/// Multiplies the magnitude by the constant `c_mant / 10^c_frac`; the
/// result is exact.
pub fn mul_const(x: &Decimal, c_mant: u32, c_frac: u32) -> (r: Decimal)
    requires
        x.mantissa as int * c_mant as int <= u128::MAX as int,
        x.frac + c_frac <= u32::MAX,
    ensures
        r@ == spec_mul_const(x@, c_mant as nat, c_frac as nat),
{
    Decimal { neg: x.neg, mantissa: x.mantissa * c_mant as u128, frac: x.frac + c_frac }
}

/// Divides the magnitude by the constant `c_mant / 10^c_frac`,
/// rounding half to even `DIV_SCALE` fractional digits further down.
pub fn div_const(x: &Decimal, c_mant: u32, c_frac: u32) -> (r: Decimal)
    requires
        c_mant >= 1,
        c_frac + DIV_SCALE <= 30,
        x.mantissa as int * pow10((c_frac + DIV_SCALE) as nat) <= u128::MAX as int,
        x.frac + DIV_SCALE <= u32::MAX,
    ensures
        r@ == spec_div_const(x@, c_mant as nat, c_frac as nat),
{
    let scale = pow10_exec(c_frac + DIV_SCALE);
    let t = x.mantissa * scale;
    let q = t / (c_mant as u128);
    let rem = t % (c_mant as u128);
    proof {
        assert(q <= t && (rem >= 1 ==> q < t)) by (nonlinear_arith)
            requires
                c_mant >= 1,
                q == t / (c_mant as u128),
                rem == t % (c_mant as u128),
        ;
    }
    let m = if 2 * rem < c_mant as u128 {
        q
    } else if 2 * rem > c_mant as u128 {
        q + 1
    } else if q % 2 == 0 {
        q
    } else {
        q + 1
    };
    Decimal { neg: x.neg, mantissa: m, frac: x.frac + DIV_SCALE }
}

/// Adds the integer `k` (negated when `k_neg` holds) to the magnitude.
pub fn add_int(x: &Decimal, k: u32, k_neg: bool) -> (r: Decimal)
    requires
        x.frac <= 30,
        x.mantissa as int + k as int * pow10(x.frac as nat) <= u128::MAX as int,
    ensures
        r@ == spec_add_int(x@, k as nat, k_neg),
{
    let ka = (k as u128) * pow10_exec(x.frac);
    if x.neg == k_neg {
        Decimal { neg: x.neg, mantissa: x.mantissa + ka, frac: x.frac }
    } else if x.mantissa >= ka {
        Decimal { neg: if x.mantissa == ka { false } else { x.neg }, mantissa: x.mantissa - ka, frac: x.frac }
    } else {
        Decimal { neg: k_neg, mantissa: ka - x.mantissa, frac: x.frac }
    }
}

pub open spec fn is_digit(c: char) -> bool {
    '0' <= c && c <= '9'
}

pub open spec fn digit_val(c: char) -> nat
    recommends
        is_digit(c),
{
    (c as int - '0' as int) as nat
}

pub open spec fn all_digits(s: Seq<char>) -> bool {
    forall|i: int| 0 <= i < s.len() ==> is_digit(#[trigger] s[i])
}

/// The numeric value of a sequence of digit characters.
pub open spec fn digits_val(s: Seq<char>) -> nat
    decreases s.len(),
{
    if s.len() == 0 {
        0
    } else {
        digits_val(s.drop_last()) * 10 + digit_val(s.last())
    }
}

pub open spec fn is_sign(c: char) -> bool {
    c == '+' || c == '-'
}

/// The token with a single leading sign removed.
pub open spec fn unsigned_part(s: Seq<char>) -> Seq<char> {
    if s.len() > 0 && is_sign(s[0]) {
        s.drop_first()
    } else {
        s
    }
}

pub open spec fn token_negative(s: Seq<char>) -> bool {
    s.len() > 0 && s[0] == '-'
}

/// `b` is digits, a dot at position `k`, then digits again.
pub open spec fn splits_at_dot(b: Seq<char>, k: int) -> bool {
    &&& 0 <= k < b.len()
    &&& b[k] == '.'
    &&& all_digits(b.subrange(0, k))
    &&& all_digits(b.subrange(k + 1, b.len() as int))
}

/// The unsigned body of a numeric token: digits with at most one dot
/// anywhere among them, and at least one digit.
pub open spec fn valid_number_body(b: Seq<char>) -> bool {
    ||| (b.len() >= 1 && all_digits(b))
    ||| (b.len() >= 2 && exists|k: int| splits_at_dot(b, k))
}

/// The digits of the body, with the dot (if any) removed.
pub open spec fn body_digits(b: Seq<char>) -> Seq<char> {
    if all_digits(b) {
        b
    } else {
        let k = choose|k: int| splits_at_dot(b, k);
        b.subrange(0, k) + b.subrange(k + 1, b.len() as int)
    }
}

/// The count of digits after the dot of the body; zero without a dot.
pub open spec fn body_frac(b: Seq<char>) -> nat {
    if all_digits(b) {
        0
    } else {
        let k = choose|k: int| splits_at_dot(b, k);
        (b.len() - k - 1) as nat
    }
}

/// What a numeric token denotes: a sign, an integer mantissa and a
/// count of fractional digits, if the token has the shape of a plain
/// decimal number and its size stays within the engine's caps.
pub open spec fn spec_parse_number(s: Seq<char>) -> Option<DecimalModel> {
    let b = unsigned_part(s);
    if valid_number_body(b) && digits_val(body_digits(b)) <= PARSE_MANTISSA_CAP as nat
        && body_frac(b) <= PARSE_FRAC_CAP as nat {
        Some(DecimalModel {
            neg: token_negative(s),
            mantissa: digits_val(body_digits(b)),
            frac: body_frac(b),
        })
    } else {
        None
    }
}

/// A body splits at one dot position at most.
proof fn lemma_dot_unique(b: Seq<char>, k1: int, k2: int)
    requires
        splits_at_dot(b, k1),
        splits_at_dot(b, k2),
    ensures
        k1 == k2,
{
    if k1 < k2 {
        assert(b.subrange(k1 + 1, b.len() as int)[k2 - k1 - 1] == b[k2]);
    } else if k2 < k1 {
        assert(b.subrange(k2 + 1, b.len() as int)[k1 - k2 - 1] == b[k1]);
    }
}

/// Appending digits to a digit string never lowers its value.
proof fn lemma_digits_val_prefix_le(x: Seq<char>, y: Seq<char>)
    ensures
        digits_val(x) <= digits_val(x + y),
    decreases y.len(),
{
    if y.len() == 0 {
        assert(x + y =~= x);
    } else {
        lemma_digits_val_prefix_le(x, y.drop_last());
        assert((x + y).drop_last() =~= x + y.drop_last());
        assert(digits_val(x + y) == digits_val(x + y.drop_last()) * 10 + digit_val((x + y).last()));
    }
}

/// A character that is neither a digit nor a dot spoils the body.
proof fn lemma_invalid_char(b: Seq<char>, j: int)
    requires
        0 <= j < b.len(),
        !is_digit(b[j]),
        b[j] != '.',
    ensures
        !valid_number_body(b),
{
    assert(!all_digits(b)) by {
        assert(0 <= j < b.len() && !is_digit(b[j]));
    }
    assert forall|k: int| !splits_at_dot(b, k) by {
        if splits_at_dot(b, k) {
            if j < k {
                assert(b.subrange(0, k)[j] == b[j]);
            } else if j > k {
                assert(b.subrange(k + 1, b.len() as int)[j - k - 1] == b[j]);
            }
        }
    }
}

/// Two dots spoil the body.
proof fn lemma_two_dots(b: Seq<char>, j1: int, j2: int)
    requires
        0 <= j1 < j2 < b.len(),
        b[j1] == '.',
        b[j2] == '.',
    ensures
        !valid_number_body(b),
{
    assert(!all_digits(b)) by {
        assert(0 <= j1 < b.len() && !is_digit(b[j1]));
    }
    assert forall|k: int| !splits_at_dot(b, k) by {
        if splits_at_dot(b, k) {
            let j = if k == j1 { j2 } else { j1 };
            if j < k {
                assert(b.subrange(0, k)[j] == b[j]);
            } else if j > k {
                assert(b.subrange(k + 1, b.len() as int)[j - k - 1] == b[j]);
            }
        }
    }
}

/// The digits of the body seen strictly before position `i` of the
/// token, skipping a dot at token position `dot`.
spec fn digits_before(s: Seq<char>, start: int, dot: Option<int>, i: int) -> Seq<char> {
    match dot {
        Some(k) => if i <= k {
            s.subrange(start, i)
        } else {
            s.subrange(start, k) + s.subrange(k + 1, i)
        },
        None => s.subrange(start, i),
    }
}

/// Parses a numeric token.  Returns the decimal it denotes, or
/// nothing when the token is not a plain decimal number that stays
/// within the engine's caps.
#[verifier::rlimit(60)]
pub fn parse_number(tok: &Vec<char>) -> (r: Option<Decimal>)
    ensures
        r matches Some(d) ==> spec_parse_number(tok@) == Some(d@),
        r is None ==> spec_parse_number(tok@) is None,
{
    let ghost s = tok@;
    let n: usize = tok.len();
    let has_sign: bool = n > 0 && (tok[0] == '+' || tok[0] == '-');
    let start: usize = if has_sign { 1 } else { 0 };
    let neg: bool = n > 0 && tok[0] == '-';
    let ghost b = unsigned_part(s);
    proof {
        assert(b =~= s.subrange(start as int, n as int));
        assert(neg == token_negative(s));
    }
    let mut i: usize = start;
    let mut seen_dot: bool = false;
    let mut dot_idx: usize = 0;
    let mut digits: usize = 0;
    while i < n
        invariant
            s == tok@,
            n == s.len(),
            start <= i <= n,
            start <= 1,
            b == s.subrange(start as int, n as int),
            b == unsigned_part(s),
            !seen_dot ==> all_digits(s.subrange(start as int, i as int)),
            !seen_dot ==> digits == i - start,
            seen_dot ==> start <= dot_idx < i && s[dot_idx as int] == '.'
                && all_digits(s.subrange(start as int, dot_idx as int))
                && all_digits(s.subrange(dot_idx as int + 1, i as int))
                && digits == i - start - 1,
        decreases n - i,
    {
        let c: char = tok[i];
        if '0' <= c && c <= '9' {
            digits = digits + 1;
            proof {
                assert(is_digit(s[i as int]));
                if seen_dot {
                    let lo = dot_idx as int + 1;
                    assert forall|j: int| 0 <= j < i + 1 - lo implies is_digit(
                        #[trigger] s.subrange(lo, i as int + 1)[j]) by {
                        if lo + j < i {
                            assert(s.subrange(lo, i as int)[j] == s[lo + j]);
                        }
                    }
                    assert(all_digits(s.subrange(lo, i as int + 1)));
                } else {
                    let lo = start as int;
                    assert forall|j: int| 0 <= j < i + 1 - lo implies is_digit(
                        #[trigger] s.subrange(lo, i as int + 1)[j]) by {
                        if lo + j < i {
                            assert(s.subrange(lo, i as int)[j] == s[lo + j]);
                        }
                    }
                    assert(all_digits(s.subrange(lo, i as int + 1)));
                }
            }
        } else if c == '.' {
            if seen_dot {
                proof {
                    assert(b[dot_idx as int - start] == s[dot_idx as int]);
                    assert(b[i as int - start] == s[i as int]);
                    lemma_two_dots(b, dot_idx as int - start, i as int - start);
                }
                return None;
            }
            seen_dot = true;
            dot_idx = i;
        } else {
            proof {
                assert(b[i as int - start] == s[i as int]);
                lemma_invalid_char(b, i as int - start);
            }
            return None;
        }
        i = i + 1;
    }
    let ghost dot = if seen_dot { Some(dot_idx as int) } else { None::<int> };
    proof {
        if seen_dot {
            assert(splits_at_dot(b, dot_idx as int - start)) by {
                assert(b.subrange(0, dot_idx as int - start) =~= s.subrange(
                    start as int, dot_idx as int));
                assert(b.subrange(dot_idx as int - start + 1, b.len() as int) =~= s.subrange(
                    dot_idx as int + 1, n as int));
            }
            assert(!all_digits(b)) by {
                assert(b[dot_idx as int - start] == '.');
            }
        }
    }
    if digits == 0 {
        proof {
            if seen_dot {
                assert(b.len() == 1);
            } else {
                assert(b.len() == 0);
                assert forall|k: int| !splits_at_dot(b, k) by {}
            }
        }
        return None;
    }
    let frac_usize: usize = if seen_dot { n - 1 - dot_idx } else { 0 };
    proof {
        if seen_dot {
            let kc = choose|k: int| splits_at_dot(b, k);
            lemma_dot_unique(b, kc, dot_idx as int - start);
            assert(body_frac(b) == n - 1 - dot_idx);
            assert(body_digits(b) =~= digits_before(s, start as int, dot, n as int)) by {
                assert(b.subrange(0, dot_idx as int - start) =~= s.subrange(
                    start as int, dot_idx as int));
                assert(b.subrange(dot_idx as int - start + 1, b.len() as int) =~= s.subrange(
                    dot_idx as int + 1, n as int));
            }
        } else {
            assert(body_frac(b) == 0);
            assert(body_digits(b) =~= digits_before(s, start as int, dot, n as int));
        }
        assert(valid_number_body(b)) by {
            if seen_dot {
                assert(b.len() >= 2);
            }
        }
    }
    if frac_usize > PARSE_FRAC_CAP as usize {
        return None;
    }
    let frac: u32 = frac_usize as u32;
    let mut m: u128 = 0;
    let mut j: usize = start;
    while j < n
        invariant
            s == tok@,
            n == s.len(),
            start <= j <= n,
            b == s.subrange(start as int, n as int),
            b == unsigned_part(s),
            neg == token_negative(s),
            valid_number_body(b),
            frac as nat == body_frac(b),
            frac <= PARSE_FRAC_CAP,
            dot == if seen_dot { Some(dot_idx as int) } else { None::<int> },
            seen_dot ==> start <= dot_idx < n && s[dot_idx as int] == '.'
                && all_digits(s.subrange(start as int, dot_idx as int))
                && all_digits(s.subrange(dot_idx as int + 1, n as int)),
            !seen_dot ==> all_digits(b),
            body_digits(b) == digits_before(s, start as int, dot, n as int),
            m <= PARSE_MANTISSA_CAP,
            m == digits_val(digits_before(s, start as int, dot, j as int)),
        decreases n - j,
    {
        let ghost seen = digits_before(s, start as int, dot, j as int);
        let c: char = tok[j];
        if seen_dot && j == dot_idx {
            proof {
                assert(digits_before(s, start as int, dot, j as int + 1) =~= seen);
            }
        } else {
            proof {
                if seen_dot {
                    if j < dot_idx {
                        assert(s.subrange(start as int, dot_idx as int)[j - start] == s[j as int]);
                    } else {
                        assert(s.subrange(dot_idx as int + 1, n as int)[j - dot_idx - 1] == s[
                            j as int]);
                    }
                } else {
                    assert(b[j - start] == s[j as int]);
                }
                assert(is_digit(s[j as int]));
            }
            let d: u32 = (c as u32) - 48;
            m = m * 10 + (d as u128);
            let ghost seen2 = digits_before(s, start as int, dot, j as int + 1);
            proof {
                assert(seen2 =~= seen.push(c));
                assert(seen2.drop_last() =~= seen);
                assert(digits_val(seen2) == digits_val(seen) * 10 + digit_val(c));
            }
            if m > PARSE_MANTISSA_CAP {
                proof {
                    let bd = body_digits(b);
                    let tail = if seen_dot && j < dot_idx {
                        s.subrange(j as int + 1, dot_idx as int) + s.subrange(
                            dot_idx as int + 1, n as int)
                    } else {
                        s.subrange(j as int + 1, n as int)
                    };
                    assert(bd =~= seen2 + tail);
                    lemma_digits_val_prefix_le(seen2, tail);
                }
                return None;
            }
        }
        j = j + 1;
    }
    proof {
        assert(digits_before(s, start as int, dot, n as int) == body_digits(b));
        assert(m == digits_val(body_digits(b)));
    }
    Some(Decimal { neg, mantissa: m, frac })
}

/// The bounds every recognizer-built magnitude satisfies.
pub open spec fn parsed_wf(d: DecimalModel) -> bool {
    d.mantissa <= PARSE_MANTISSA_CAP as nat && d.frac <= PARSE_FRAC_CAP as nat
}

/// The bounds every converted magnitude satisfies: small enough to
/// render.
pub open spec fn conv_wf(d: DecimalModel) -> bool {
    d.frac <= 30 && d.mantissa * 100 <= u128::MAX as nat
}

/// Bounding a product by the bounds of its factors.
pub proof fn lemma_mul_le(a: nat, b: nat, c: nat, d: nat)
    requires
        a <= c,
        b <= d,
    ensures
        a * b <= c * d,
{
    assert(a * b <= c * d) by (nonlinear_arith)
        requires
            0 <= a <= c,
            0 <= b <= d,
    ;
}

/// Rounding a quotient never exceeds the dividend (for divisors of
/// at least two).
pub proof fn lemma_rhe_le(t: nat, c: nat)
    requires
        c >= 2,
    ensures
        round_half_even(t, c) <= t,
{
    let q = t / c;
    let r = t % c;
    assert(q * c + r == t && r < c && q <= t && (r >= 1 ==> q + 1 <= t)) by (nonlinear_arith)
        requires
            c >= 2,
            q == t / c,
            r == t % c,
    ;
}

/// Rounding moves the quotient by at most half the divisor.
pub proof fn lemma_rhe_err(t: nat, c: nat)
    requires
        c >= 1,
    ensures
        2 * vstd::math::abs(round_half_even(t, c) * c - t) <= c,
{
    let q = t / c;
    let r = t % c;
    assert(q * c + r == t && r < c) by (nonlinear_arith)
        requires
            c >= 1,
            q == t / c,
            r == t % c,
    ;
    if 2 * r < c {
        assert(round_half_even(t, c) * c - t == -(r as int));
    } else {
        if round_half_even(t, c) == q + 1 {
            assert((q + 1) * c - t == c - r) by (nonlinear_arith)
                requires
                    q * c + r == t,
            ;
        }
    }
}

/// A product divided by its own factor rounds back exactly.
pub proof fn lemma_rhe_exact(x: nat, c: nat)
    requires
        c >= 1,
    ensures
        round_half_even(x * c, c) == x,
{
    assert((x * c) / c == x && (x * c) % c == 0) by (nonlinear_arith)
        requires
            c >= 1,
    ;
}

/// Drops trailing zeros among the fractional digits.
pub open spec fn spec_trim(m: nat, f: nat) -> (nat, nat)
    decreases f,
{
    if f == 0 || m % 10 != 0 {
        (m, f)
    } else {
        spec_trim(m / 10, (f - 1) as nat)
    }
}

/// The default rendering of a magnitude: a sign when negative, the
/// integer part, and the fractional digits with trailing zeros
/// removed; no fractional point when nothing follows it.
pub open spec fn spec_render_plain(d: DecimalModel) -> Seq<char> {
    let mf = spec_trim(d.mantissa, d.frac);
    let sign: Seq<char> = if d.neg { seq!['-'] } else { Seq::empty() };
    if mf.1 == 0 {
        sign + spec_digits(mf.0)
    } else {
        sign + spec_digits(mf.0 / pow10(mf.1)) + seq!['.'] + spec_digits_padded(
            mf.0 % pow10(mf.1), mf.1)
    }
}

/// The magnitude scaled to exactly two fractional digits, rounding
/// half to even when digits are dropped.
pub open spec fn spec_round2(d: DecimalModel) -> nat {
    if d.frac >= 2 {
        round_half_even(d.mantissa, pow10((d.frac - 2) as nat))
    } else {
        d.mantissa * pow10((2 - d.frac) as nat)
    }
}

/// The two-decimal rendering of a magnitude.
pub open spec fn spec_render_fixed2(d: DecimalModel) -> Seq<char> {
    let m2 = spec_round2(d);
    let sign: Seq<char> = if d.neg { seq!['-'] } else { Seq::empty() };
    sign + spec_digits(m2 / 100) + seq!['.'] + spec_digits_padded(m2 % 100, 2)
}

/// Whether the magnitude's value lies (strictly) below one; every
/// negative value does.
pub open spec fn spec_lt_one(d: DecimalModel) -> bool {
    d.neg || d.mantissa < pow10(d.frac)
}

/// Appends the default rendering of `x` to `out`.
pub fn render_plain(x: &Decimal, out: &mut Vec<char>)
    requires
        x.frac <= 30,
    ensures
        final(out)@ == old(out)@ + spec_render_plain(x@),
{
    let mut m: u128 = x.mantissa;
    let mut f: u32 = x.frac;
    while f > 0 && m % 10 == 0
        invariant
            f <= 30,
            spec_trim(x@.mantissa, x@.frac) == spec_trim(m as nat, f as nat),
        decreases f,
    {
        m = m / 10;
        f = f - 1;
    }
    proof {
        assert(spec_trim(m as nat, f as nat) == (m as nat, f as nat));
    }
    if x.neg {
        out.push('-');
    }
    if f == 0 {
        push_digits(m, out);
    } else {
        let p = pow10_exec(f);
        proof {
            lemma_pow10_pos(f as nat);
        }
        push_digits(m / p, out);
        out.push('.');
        push_digits_padded(m % p, f, out);
    }
    proof {
        assert(final(out)@ =~= old(out)@ + spec_render_plain(x@));
    }
}

/// Appends the two-decimal rendering of `x` to `out`.
pub fn render_fixed2(x: &Decimal, out: &mut Vec<char>)
    requires
        x.frac <= 30,
        x.mantissa as int * 100 <= u128::MAX as int,
    ensures
        final(out)@ == old(out)@ + spec_render_fixed2(x@),
{
    let m2: u128 = if x.frac >= 2 {
        let p = pow10_exec(x.frac - 2);
        proof {
            lemma_pow10_pos((x.frac - 2) as nat);
            lemma_pow10_30();
            lemma_pow10_increases((x.frac - 2) as nat, 30);
        }
        let q = x.mantissa / p;
        let rem = x.mantissa % p;
        proof {
            assert(q <= x.mantissa && (rem >= 1 ==> q < x.mantissa)) by (nonlinear_arith)
                requires
                    p >= 1,
                    q == x.mantissa / p,
                    rem == x.mantissa % p,
            ;
        }
        if 2 * rem < p {
            q
        } else if 2 * rem > p {
            q + 1
        } else if q % 2 == 0 {
            q
        } else {
            q + 1
        }
    } else {
        let p = pow10_exec(2 - x.frac);
        proof {
            reveal_with_fuel(pow10, 3);
            assert(x.mantissa as int * p as int <= x.mantissa as int * 100) by (nonlinear_arith)
                requires
                    0 <= x.mantissa,
                    0 < p <= 100,
            ;
        }
        x.mantissa * p
    };
    if x.neg {
        out.push('-');
    }
    push_digits(m2 / 100, out);
    out.push('.');
    push_digits_padded(m2 % 100, 2, out);
    proof {
        assert(final(out)@ =~= old(out)@ + spec_render_fixed2(x@));
    }
}

/// Whether the value of `x` lies below one.
pub fn lt_one(x: &Decimal) -> (r: bool)
    requires
        x.frac <= 30,
    ensures
        r == spec_lt_one(x@),
{
    if x.neg {
        true
    } else {
        x.mantissa < pow10_exec(x.frac)
    }
}

} // verus!
