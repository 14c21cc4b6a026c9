use vstd::prelude::*;
use vstd::string::*;

verus! {

/// Equality of two string slices by their characters.
pub fn str_equals(a: &str, b: &str) -> (r: bool)
    ensures
        r == (a@ == b@),
{
    let x = a.to_owned();
    let y = b.to_owned();
    x == y
}

/// The decimal numeral of one digit.
pub open spec fn digit_text(d: int) -> Seq<char> {
    if d == 0 {
        "0"@
    } else if d == 1 {
        "1"@
    } else if d == 2 {
        "2"@
    } else if d == 3 {
        "3"@
    } else if d == 4 {
        "4"@
    } else if d == 5 {
        "5"@
    } else if d == 6 {
        "6"@
    } else if d == 7 {
        "7"@
    } else if d == 8 {
        "8"@
    } else {
        "9"@
    }
}

/// The decimal numeral of a natural number, without leading zeros.
pub open spec fn decimal(n: nat) -> Seq<char>
    decreases n,
{
    if n < 10 {
        digit_text(n as int)
    } else {
        decimal(n / 10) + digit_text((n % 10) as int)
    }
}

fn digit_str(d: u64) -> (r: &'static str)
    requires
        d < 10,
    ensures
        r@ == digit_text(d as int),
{
    if d == 0 {
        "0"
    } else if d == 1 {
        "1"
    } else if d == 2 {
        "2"
    } else if d == 3 {
        "3"
    } else if d == 4 {
        "4"
    } else if d == 5 {
        "5"
    } else if d == 6 {
        "6"
    } else if d == 7 {
        "7"
    } else if d == 8 {
        "8"
    } else {
        "9"
    }
}

proof fn lemma_digit_text(d: int)
    requires
        0 <= d < 10,
    ensures
        digit_text(d).len() == 1,
        digit_text(d)[0] as int == '0' as int + d,
{
    reveal_strlit("0");
    reveal_strlit("1");
    reveal_strlit("2");
    reveal_strlit("3");
    reveal_strlit("4");
    reveal_strlit("5");
    reveal_strlit("6");
    reveal_strlit("7");
    reveal_strlit("8");
    reveal_strlit("9");
}

proof fn lemma_decimal_len(n: nat)
    ensures
        decimal(n).len() >= 1,
        n < 10 ==> decimal(n).len() == 1,
        n >= 10 ==> decimal(n).len() >= 2,
    decreases n,
{
    if n < 10 {
        lemma_digit_text(n as int);
    } else {
        lemma_decimal_len(n / 10);
        lemma_digit_text((n % 10) as int);
    }
}

/// Distinct numbers have distinct decimal numerals.
pub proof fn lemma_decimal_injective(a: nat, b: nat)
    requires
        decimal(a) == decimal(b),
    ensures
        a == b,
    decreases a,
{
    lemma_decimal_len(a);
    lemma_decimal_len(b);
    if a < 10 && b < 10 {
        lemma_digit_text(a as int);
        lemma_digit_text(b as int);
        assert(decimal(a)[0] == decimal(b)[0]);
    } else if a >= 10 && b >= 10 {
        let pa = decimal(a / 10);
        let pb = decimal(b / 10);
        lemma_digit_text((a % 10) as int);
        lemma_digit_text((b % 10) as int);
        lemma_decimal_len(a / 10);
        lemma_decimal_len(b / 10);
        assert(pa.len() == pb.len());
        assert(pa =~= decimal(a).take(pa.len() as int));
        assert(pb =~= decimal(b).take(pb.len() as int));
        assert(decimal(a)[pa.len() as int] == digit_text((a % 10) as int)[0]);
        assert(decimal(b)[pb.len() as int] == digit_text((b % 10) as int)[0]);
        lemma_decimal_injective(a / 10, b / 10);
        assert(a % 10 == b % 10);
    }
}

/// The decimal numeral of `n`.
pub fn decimal_string(n: u64) -> (r: String)
    ensures
        r@ == decimal(n as nat),
    decreases n,
{
    if n < 10 {
        digit_str(n).to_owned()
    } else {
        decimal_string(n / 10).concat(digit_str(n % 10))
    }
}

/// `a` followed by `b`.
pub fn joined(a: &str, b: &str) -> (r: String)
    ensures
        r@ == a@ + b@,
{
    a.to_owned().concat(b)
}

} // verus!
