//! The fixed catalog of recognized units: their categories, display
//! symbols, surface-form aliases and the pairing that conversion
//! follows.

use vstd::prelude::*;

verus! {

/// The closed set of recognized units.
#[derive(Clone, Copy, Debug, PartialEq, Eq, Structural)]
pub enum UnitKind {
    Kilometers,
    Meters,
    Centimeters,
    Miles,
    Feet,
    Inches,
    Kilograms,
    Grams,
    Pounds,
    Ounces,
    Celsius,
    Fahrenheit,
}

/// The physical category a unit measures.
#[derive(Clone, Copy, Debug, PartialEq, Eq, Structural)]
pub enum Category {
    Length,
    Mass,
    Temperature,
}

pub open spec fn spec_category(u: UnitKind) -> Category {
    match u {
        UnitKind::Kilometers => Category::Length,
        UnitKind::Meters => Category::Length,
        UnitKind::Centimeters => Category::Length,
        UnitKind::Miles => Category::Length,
        UnitKind::Feet => Category::Length,
        UnitKind::Inches => Category::Length,
        UnitKind::Kilograms => Category::Mass,
        UnitKind::Grams => Category::Mass,
        UnitKind::Pounds => Category::Mass,
        UnitKind::Ounces => Category::Mass,
        UnitKind::Celsius => Category::Temperature,
        UnitKind::Fahrenheit => Category::Temperature,
    }
}

/// Whether the unit stands on the metric (or Celsius) side of its
/// pair; the other side is imperial (or Fahrenheit).
pub open spec fn spec_is_metric(u: UnitKind) -> bool {
    match u {
        UnitKind::Kilometers => true,
        UnitKind::Meters => true,
        UnitKind::Centimeters => true,
        UnitKind::Kilograms => true,
        UnitKind::Grams => true,
        UnitKind::Celsius => true,
        _ => false,
    }
}

/// The designated counterpart each unit converts into.
pub open spec fn spec_paired(u: UnitKind) -> UnitKind {
    match u {
        UnitKind::Kilometers => UnitKind::Miles,
        UnitKind::Meters => UnitKind::Feet,
        UnitKind::Centimeters => UnitKind::Inches,
        UnitKind::Miles => UnitKind::Kilometers,
        UnitKind::Feet => UnitKind::Meters,
        UnitKind::Inches => UnitKind::Centimeters,
        UnitKind::Kilograms => UnitKind::Pounds,
        UnitKind::Grams => UnitKind::Ounces,
        UnitKind::Pounds => UnitKind::Kilograms,
        UnitKind::Ounces => UnitKind::Grams,
        UnitKind::Celsius => UnitKind::Fahrenheit,
        UnitKind::Fahrenheit => UnitKind::Celsius,
    }
}

pub fn category(u: UnitKind) -> (c: Category)
    ensures
        c == spec_category(u),
{
    match u {
        UnitKind::Kilometers => Category::Length,
        UnitKind::Meters => Category::Length,
        UnitKind::Centimeters => Category::Length,
        UnitKind::Miles => Category::Length,
        UnitKind::Feet => Category::Length,
        UnitKind::Inches => Category::Length,
        UnitKind::Kilograms => Category::Mass,
        UnitKind::Grams => Category::Mass,
        UnitKind::Pounds => Category::Mass,
        UnitKind::Ounces => Category::Mass,
        UnitKind::Celsius => Category::Temperature,
        UnitKind::Fahrenheit => Category::Temperature,
    }
}

pub fn paired_unit(u: UnitKind) -> (p: UnitKind)
    ensures
        p == spec_paired(u),
{
    match u {
        UnitKind::Kilometers => UnitKind::Miles,
        UnitKind::Meters => UnitKind::Feet,
        UnitKind::Centimeters => UnitKind::Inches,
        UnitKind::Miles => UnitKind::Kilometers,
        UnitKind::Feet => UnitKind::Meters,
        UnitKind::Inches => UnitKind::Centimeters,
        UnitKind::Kilograms => UnitKind::Pounds,
        UnitKind::Grams => UnitKind::Ounces,
        UnitKind::Pounds => UnitKind::Kilograms,
        UnitKind::Ounces => UnitKind::Grams,
        UnitKind::Celsius => UnitKind::Fahrenheit,
        UnitKind::Fahrenheit => UnitKind::Celsius,
    }
}

/// The symbol a unit shows in a reply line.
pub open spec fn spec_symbol(u: UnitKind) -> Seq<char> {
    match u {
        UnitKind::Kilometers => "km"@,
        UnitKind::Meters => "m"@,
        UnitKind::Centimeters => "cm"@,
        UnitKind::Miles => "miles"@,
        UnitKind::Feet => "ft"@,
        UnitKind::Inches => "inches"@,
        UnitKind::Kilograms => "kg"@,
        UnitKind::Grams => "grams"@,
        UnitKind::Pounds => "lbs"@,
        UnitKind::Ounces => "oz"@,
        UnitKind::Celsius => "℃"@,
        UnitKind::Fahrenheit => "℉"@,
    }
}

pub fn symbol(u: UnitKind) -> (s: &'static str)
    ensures
        s@ == spec_symbol(u),
{
    match u {
        UnitKind::Kilometers => "km",
        UnitKind::Meters => "m",
        UnitKind::Centimeters => "cm",
        UnitKind::Miles => "miles",
        UnitKind::Feet => "ft",
        UnitKind::Inches => "inches",
        UnitKind::Kilograms => "kg",
        UnitKind::Grams => "grams",
        UnitKind::Pounds => "lbs",
        UnitKind::Ounces => "oz",
        UnitKind::Celsius => "℃",
        UnitKind::Fahrenheit => "℉",
    }
}

/// The unit a surface word denotes, if any.  The table is the fixed
/// alias list; matching is exact, on already lower-cased tokens.
pub open spec fn spec_alias_unit(t: Seq<char>) -> Option<UnitKind> {
    if t == "km"@ || t == "kms"@ || t == "kilometers"@ || t == "kilometer"@ {
        Some(UnitKind::Kilometers)
    } else if t == "m"@ || t == "meters"@ || t == "meter"@ {
        Some(UnitKind::Meters)
    } else if t == "cm"@ || t == "centimeters"@ || t == "centimeter"@ {
        Some(UnitKind::Centimeters)
    } else if t == "kg"@ || t == "kilograms"@ || t == "kilogram"@ {
        Some(UnitKind::Kilograms)
    } else if t == "grams"@ || t == "gram"@ {
        Some(UnitKind::Grams)
    } else if t == "mile"@ || t == "miles"@ {
        Some(UnitKind::Miles)
    } else if t == "ft"@ || t == "feet"@ || t == "foot"@ {
        Some(UnitKind::Feet)
    } else if t == "inches"@ || t == "inch"@ {
        Some(UnitKind::Inches)
    } else if t == "lbs"@ || t == "pounds"@ || t == "pound"@ {
        Some(UnitKind::Pounds)
    } else if t == "oz"@ || t == "ounces"@ || t == "ounce"@ {
        Some(UnitKind::Ounces)
    } else if t == "c"@ || t == "℃"@ || t == "celsius"@ {
        Some(UnitKind::Celsius)
    } else if t == "f"@ || t == "℉"@ || t == "fahrenheit"@ {
        Some(UnitKind::Fahrenheit)
    } else {
        None
    }
}

/// Compares a token against a literal word.
pub fn token_eq_str(tok: &Vec<char>, w: &str) -> (r: bool)
    ensures
        r == (tok@ == w@),
{
    let n = w.unicode_len();
    if tok.len() != n {
        return false;
    }
    let mut i: usize = 0;
    while i < n
        invariant
            i <= n,
            n == w@.len(),
            n == tok@.len(),
            forall|j: int| 0 <= j < i ==> tok@[j] == w@[j],
        decreases n - i,
    {
        if tok[i] != w.get_char(i) {
            return false;
        }
        i = i + 1;
    }
    proof {
        assert(tok@ =~= w@);
    }
    true
}

pub fn alias_unit(tok: &Vec<char>) -> (r: Option<UnitKind>)
    ensures
        r == spec_alias_unit(tok@),
{
    if token_eq_str(tok, "km") || token_eq_str(tok, "kms") || token_eq_str(tok, "kilometers")
        || token_eq_str(tok, "kilometer") {
        Some(UnitKind::Kilometers)
    } else if token_eq_str(tok, "m") || token_eq_str(tok, "meters") || token_eq_str(tok, "meter") {
        Some(UnitKind::Meters)
    } else if token_eq_str(tok, "cm") || token_eq_str(tok, "centimeters") || token_eq_str(
        tok, "centimeter") {
        Some(UnitKind::Centimeters)
    } else if token_eq_str(tok, "kg") || token_eq_str(tok, "kilograms") || token_eq_str(
        tok, "kilogram") {
        Some(UnitKind::Kilograms)
    } else if token_eq_str(tok, "grams") || token_eq_str(tok, "gram") {
        Some(UnitKind::Grams)
    } else if token_eq_str(tok, "mile") || token_eq_str(tok, "miles") {
        Some(UnitKind::Miles)
    } else if token_eq_str(tok, "ft") || token_eq_str(tok, "feet") || token_eq_str(tok, "foot") {
        Some(UnitKind::Feet)
    } else if token_eq_str(tok, "inches") || token_eq_str(tok, "inch") {
        Some(UnitKind::Inches)
    } else if token_eq_str(tok, "lbs") || token_eq_str(tok, "pounds") || token_eq_str(
        tok, "pound") {
        Some(UnitKind::Pounds)
    } else if token_eq_str(tok, "oz") || token_eq_str(tok, "ounces") || token_eq_str(
        tok, "ounce") {
        Some(UnitKind::Ounces)
    } else if token_eq_str(tok, "c") || token_eq_str(tok, "℃") || token_eq_str(tok, "celsius") {
        Some(UnitKind::Celsius)
    } else if token_eq_str(tok, "f") || token_eq_str(tok, "℉") || token_eq_str(
        tok, "fahrenheit") {
        Some(UnitKind::Fahrenheit)
    } else {
        None
    }
}

/// How many aliases the catalog holds.
pub open spec fn alias_count() -> int {
    34
}

/// The alias at position `j` of the catalog's fixed list.
pub open spec fn spec_alias_at(j: int) -> Seq<char> {
    if j == 0 { "km"@ }
    else if j == 1 { "kms"@ }
    else if j == 2 { "kilometers"@ }
    else if j == 3 { "kilometer"@ }
    else if j == 4 { "m"@ }
    else if j == 5 { "meters"@ }
    else if j == 6 { "meter"@ }
    else if j == 7 { "cm"@ }
    else if j == 8 { "centimeters"@ }
    else if j == 9 { "centimeter"@ }
    else if j == 10 { "kg"@ }
    else if j == 11 { "kilograms"@ }
    else if j == 12 { "kilogram"@ }
    else if j == 13 { "grams"@ }
    else if j == 14 { "gram"@ }
    else if j == 15 { "mile"@ }
    else if j == 16 { "miles"@ }
    else if j == 17 { "ft"@ }
    else if j == 18 { "feet"@ }
    else if j == 19 { "foot"@ }
    else if j == 20 { "inches"@ }
    else if j == 21 { "inch"@ }
    else if j == 22 { "lbs"@ }
    else if j == 23 { "pounds"@ }
    else if j == 24 { "pound"@ }
    else if j == 25 { "oz"@ }
    else if j == 26 { "ounces"@ }
    else if j == 27 { "ounce"@ }
    else if j == 28 { "c"@ }
    else if j == 29 { "℃"@ }
    else if j == 30 { "celsius"@ }
    else if j == 31 { "f"@ }
    else if j == 32 { "℉"@ }
    else { "fahrenheit"@ }
}

/// The alias at position `j`, for the recognizer's cheap pre-check.
pub fn alias_at(j: usize) -> (w: &'static str)
    requires
        j < alias_count(),
    ensures
        w@ == spec_alias_at(j as int),
{
    if j == 0 { "km" }
    else if j == 1 { "kms" }
    else if j == 2 { "kilometers" }
    else if j == 3 { "kilometer" }
    else if j == 4 { "m" }
    else if j == 5 { "meters" }
    else if j == 6 { "meter" }
    else if j == 7 { "cm" }
    else if j == 8 { "centimeters" }
    else if j == 9 { "centimeter" }
    else if j == 10 { "kg" }
    else if j == 11 { "kilograms" }
    else if j == 12 { "kilogram" }
    else if j == 13 { "grams" }
    else if j == 14 { "gram" }
    else if j == 15 { "mile" }
    else if j == 16 { "miles" }
    else if j == 17 { "ft" }
    else if j == 18 { "feet" }
    else if j == 19 { "foot" }
    else if j == 20 { "inches" }
    else if j == 21 { "inch" }
    else if j == 22 { "lbs" }
    else if j == 23 { "pounds" }
    else if j == 24 { "pound" }
    else if j == 25 { "oz" }
    else if j == 26 { "ounces" }
    else if j == 27 { "ounce" }
    else if j == 28 { "c" }
    else if j == 29 { "℃" }
    else if j == 30 { "celsius" }
    else if j == 31 { "f" }
    else if j == 32 { "℉" }
    else { "fahrenheit" }
}

/// Every word the alias table accepts stands somewhere in the
/// catalog's fixed list.
pub proof fn lemma_alias_in_list(t: Seq<char>)
    requires
        spec_alias_unit(t) is Some,
    ensures
        exists|j: int| 0 <= j < alias_count() && spec_alias_at(j) == t,
{
    if t == "km"@ { assert(spec_alias_at(0) == t); }
    else if t == "kms"@ { assert(spec_alias_at(1) == t); }
    else if t == "kilometers"@ { assert(spec_alias_at(2) == t); }
    else if t == "kilometer"@ { assert(spec_alias_at(3) == t); }
    else if t == "m"@ { assert(spec_alias_at(4) == t); }
    else if t == "meters"@ { assert(spec_alias_at(5) == t); }
    else if t == "meter"@ { assert(spec_alias_at(6) == t); }
    else if t == "cm"@ { assert(spec_alias_at(7) == t); }
    else if t == "centimeters"@ { assert(spec_alias_at(8) == t); }
    else if t == "centimeter"@ { assert(spec_alias_at(9) == t); }
    else if t == "kg"@ { assert(spec_alias_at(10) == t); }
    else if t == "kilograms"@ { assert(spec_alias_at(11) == t); }
    else if t == "kilogram"@ { assert(spec_alias_at(12) == t); }
    else if t == "grams"@ { assert(spec_alias_at(13) == t); }
    else if t == "gram"@ { assert(spec_alias_at(14) == t); }
    else if t == "mile"@ { assert(spec_alias_at(15) == t); }
    else if t == "miles"@ { assert(spec_alias_at(16) == t); }
    else if t == "ft"@ { assert(spec_alias_at(17) == t); }
    else if t == "feet"@ { assert(spec_alias_at(18) == t); }
    else if t == "foot"@ { assert(spec_alias_at(19) == t); }
    else if t == "inches"@ { assert(spec_alias_at(20) == t); }
    else if t == "inch"@ { assert(spec_alias_at(21) == t); }
    else if t == "lbs"@ { assert(spec_alias_at(22) == t); }
    else if t == "pounds"@ { assert(spec_alias_at(23) == t); }
    else if t == "pound"@ { assert(spec_alias_at(24) == t); }
    else if t == "oz"@ { assert(spec_alias_at(25) == t); }
    else if t == "ounces"@ { assert(spec_alias_at(26) == t); }
    else if t == "ounce"@ { assert(spec_alias_at(27) == t); }
    else if t == "c"@ { assert(spec_alias_at(28) == t); }
    else if t == "℃"@ { assert(spec_alias_at(29) == t); }
    else if t == "celsius"@ { assert(spec_alias_at(30) == t); }
    else if t == "f"@ { assert(spec_alias_at(31) == t); }
    else if t == "℉"@ { assert(spec_alias_at(32) == t); }
    else { assert(spec_alias_at(33) == t); }
}

} // verus!
