use vstd::prelude::*;

use crate::text::str_equals;

verus! {

/// The number of SI base dimensions.
pub const NUM_BASE_UNITS: usize = 7;

/// Scale of the fixed-point numbers held in equations: a stored value `v`
/// stands for the real number `v / VALUE_SCALE`.
pub const VALUE_SCALE: i64 = 1_000_000;

/// The seven SI base dimensions, in their fixed order.
#[derive(Clone, Copy, Debug, PartialEq, Eq, Structural)]
pub enum SIBaseUnits {
    Second,
    Meter,
    Kilogram,
    Ampere,
    Kelvin,
    Mole,
    Candela,
}

impl SIBaseUnits {
    /// Position of the dimension in the SI exponent vector.
    pub open spec fn index(self) -> int {
        match self {
            SIBaseUnits::Second => 0,
            SIBaseUnits::Meter => 1,
            SIBaseUnits::Kilogram => 2,
            SIBaseUnits::Ampere => 3,
            SIBaseUnits::Kelvin => 4,
            SIBaseUnits::Mole => 5,
            SIBaseUnits::Candela => 6,
        }
    }

    pub fn into_usize(&self) -> (r: usize)
        ensures
            r as int == self.index(),
            r < NUM_BASE_UNITS,
    {
        match self {
            SIBaseUnits::Second => 0,
            SIBaseUnits::Meter => 1,
            SIBaseUnits::Kilogram => 2,
            SIBaseUnits::Ampere => 3,
            SIBaseUnits::Kelvin => 4,
            SIBaseUnits::Mole => 5,
            SIBaseUnits::Candela => 6,
        }
    }

    /// The dimension at position `val`.
    pub fn from_index(val: usize) -> (r: SIBaseUnits)
        requires
            val < NUM_BASE_UNITS,
        ensures
            r.index() == val as int,
    {
        if val == 0 {
            SIBaseUnits::Second
        } else if val == 1 {
            SIBaseUnits::Meter
        } else if val == 2 {
            SIBaseUnits::Kilogram
        } else if val == 3 {
            SIBaseUnits::Ampere
        } else if val == 4 {
            SIBaseUnits::Kelvin
        } else if val == 5 {
            SIBaseUnits::Mole
        } else {
            SIBaseUnits::Candela
        }
    }
}

/// A physical type: the decimal scaling of the unit, as a base-10 logarithm
/// in fixed point (see [`VALUE_SCALE`]), and the exponents of the seven SI
/// base dimensions.
#[derive(Clone, Copy, Debug)]
pub struct Type {
    pub scalar_prefix: i64,
    pub si_units: [i32; NUM_BASE_UNITS],
}

/// The eight components of a type as fixed-point numbers: the scalar prefix
/// first, then each SI exponent scaled by [`VALUE_SCALE`].
pub open spec fn type_vector(t: Type) -> Seq<int> {
    Seq::new(8, |i: int| if i == 0 { t.scalar_prefix as int } else { t.si_units@[i - 1] * VALUE_SCALE })
}

/// The vector of a unit with scalar prefix `p` (whole decades) and the given
/// exponents of seconds and meters.
pub open spec fn unit_vector(p: int, second: int, meter: int) -> Seq<int> {
    seq![p * VALUE_SCALE, second * VALUE_SCALE, meter * VALUE_SCALE, 0, 0, 0, 0, 0]
}

/// The vocabulary of unit names accepted in annotations.
pub open spec fn human_type(text: Seq<char>) -> Option<Seq<int>> {
    if text == "m"@ {
        Some(unit_vector(0, 0, 1))
    } else if text == "m^2"@ {
        Some(unit_vector(0, 0, 2))
    } else if text == "m^3"@ {
        Some(unit_vector(0, 0, 3))
    } else if text == "cm"@ {
        Some(unit_vector(-2, 0, 1))
    } else if text == "cm^2"@ {
        Some(unit_vector(-4, 0, 2))
    } else if text == "cm^3"@ {
        Some(unit_vector(-6, 0, 3))
    } else if text == "s"@ {
        Some(unit_vector(0, 1, 0))
    } else {
        None
    }
}

fn unit_type(prefix: i64, second: i32, meter: i32) -> (r: Type)
    requires
        -1000 <= prefix <= 1000,
    ensures
        type_vector(r) == unit_vector(prefix as int, second as int, meter as int),
{
    let r = Type { scalar_prefix: prefix * VALUE_SCALE, si_units: [second, meter, 0, 0, 0, 0, 0] };
    assert(type_vector(r) =~= unit_vector(prefix as int, second as int, meter as int));
    r
}

/// Looks up a unit name of the annotation vocabulary.
pub fn parse_human_type(text: &str) -> (r: Option<Type>)
    ensures
        r.is_some() == human_type(text@).is_some(),
        r.is_some() ==> type_vector(r.unwrap()) == human_type(text@).unwrap(),
{
    if str_equals(text, "m") {
        Some(unit_type(0, 0, 1))
    } else if str_equals(text, "m^2") {
        Some(unit_type(0, 0, 2))
    } else if str_equals(text, "m^3") {
        Some(unit_type(0, 0, 3))
    } else if str_equals(text, "cm") {
        Some(unit_type(-2, 0, 1))
    } else if str_equals(text, "cm^2") {
        Some(unit_type(-4, 0, 2))
    } else if str_equals(text, "cm^3") {
        Some(unit_type(-6, 0, 3))
    } else if str_equals(text, "s") {
        Some(unit_type(0, 1, 0))
    } else {
        None
    }
}

/// The (name, unit) pairs of every type annotation in a comment, in order.
pub uninterp spec fn type_annotation_matches(text: Seq<char>) -> Seq<(Seq<char>, Seq<char>)>;

/// Views of a list of string pairs.
pub open spec fn pair_views(v: Seq<(String, String)>) -> Seq<(Seq<char>, Seq<char>)> {
    v.map_values(|p: (String, String)| (p.0@, p.1@))
}

/// Relies on regex's `Regex::captures_iter` and `Captures::extract`: every
/// non-overlapping match of the type-annotation pattern, with its two groups.
#[verifier::external_body]
fn type_annotation_candidates(text: &str) -> (r: Vec<(String, String)>)
    ensures
        pair_views(r@) == type_annotation_matches(text@),
{
    let re = regex::Regex::new(r"([A-Za-z_][A-Za-z0-9_]*)\s?:\s?([A-Za-z0-9^_]+)").unwrap();
    re.captures_iter(text).map(|c| {
        let (_, [name, unit]) = c.extract();
        (name.to_string(), unit.to_string())
    }).collect()
}

/// The first candidate whose unit name is in the vocabulary, with its vector.
pub open spec fn first_known(ms: Seq<(Seq<char>, Seq<char>)>) -> Option<(Seq<char>, Seq<int>)>
    decreases ms.len(),
{
    if ms.len() == 0 {
        None
    } else if human_type(ms[0].1).is_some() {
        Some((ms[0].0, human_type(ms[0].1).unwrap()))
    } else {
        first_known(ms.drop_first())
    }
}

/// Picks, among (name, unit) candidates, the first whose unit is known.
pub fn first_known_type(candidates: &Vec<(String, String)>) -> (r: Option<(String, Type)>)
    ensures
        r.is_some() == first_known(pair_views(candidates@)).is_some(),
        r.is_some() ==> first_known(pair_views(candidates@)).unwrap() == (
            r.unwrap().0@,
            type_vector(r.unwrap().1),
        ),
{
    let ghost all = pair_views(candidates@);
    let mut i: usize = 0;
    assert(all.subrange(0, all.len() as int) =~= all);
    while i < candidates.len()
        invariant
            i <= candidates.len(),
            all == pair_views(candidates@),
            first_known(all) == first_known(all.subrange(i as int, all.len() as int)),
        decreases candidates.len() - i,
    {
        let ghost rest = all.subrange(i as int, all.len() as int);
        assert(rest.drop_first() =~= all.subrange(i + 1, all.len() as int));
        if let Some(t) = parse_human_type(candidates[i].1.as_str()) {
            return Some((candidates[i].0.clone(), t));
        }
        i = i + 1;
    }
    None
}

/// Finds the first type annotation of a comment whose unit is known.
pub fn parse_type_comment(text: &str) -> (r: Option<(String, Type)>)
    ensures
        r.is_some() == first_known(type_annotation_matches(text@)).is_some(),
        r.is_some() ==> first_known(type_annotation_matches(text@)).unwrap() == (
            r.unwrap().0@,
            type_vector(r.unwrap().1),
        ),
{
    let candidates = type_annotation_candidates(text);
    first_known_type(&candidates)
}

} // verus!
