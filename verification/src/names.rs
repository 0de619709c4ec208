//! The names under which parameters are stored.

use vstd::prelude::*;
use vstd::string::StringExecFns;

verus! {

/// The decimal digit `d`.
pub open spec fn digit_of(d: nat) -> char {
    if d == 0 {
        '0'
    } else if d == 1 {
        '1'
    } else if d == 2 {
        '2'
    } else if d == 3 {
        '3'
    } else if d == 4 {
        '4'
    } else if d == 5 {
        '5'
    } else if d == 6 {
        '6'
    } else if d == 7 {
        '7'
    } else if d == 8 {
        '8'
    } else {
        '9'
    }
}

/// `n` in decimal notation.
pub open spec fn decimal_of(n: nat) -> Seq<char>
    decreases n,
{
    if n < 10 {
        seq![digit_of(n)]
    } else {
        decimal_of(n / 10).push(digit_of(n % 10))
    }
}

/// The name of layer `n`.
pub open spec fn layer_name_of(n: nat) -> Seq<char> {
    "layers."@ + decimal_of(n)
}

/// A decimal digit as text.
fn digit(d: usize) -> (r: &'static str)
    requires
        d < 10,
    ensures
        r@ == seq![digit_of(d as nat)],
{
    proof {
        reveal_strlit("0");
        reveal_strlit("1");
        reveal_strlit("2");
        reveal_strlit("3");
        reveal_strlit("4");
        reveal_strlit("5");
        reveal_strlit("6");
        reveal_strlit("7");
        reveal_strlit("8");
        reveal_strlit("9");
    }
    let r: &'static str = if d == 0 {
        "0"
    } else if d == 1 {
        "1"
    } else if d == 2 {
        "2"
    } else if d == 3 {
        "3"
    } else if d == 4 {
        "4"
    } else if d == 5 {
        "5"
    } else if d == 6 {
        "6"
    } else if d == 7 {
        "7"
    } else if d == 8 {
        "8"
    } else {
        "9"
    };
    assert(r@ =~= seq![digit_of(d as nat)]);
    r
}

/// `n` in decimal notation.
pub fn decimal(n: usize) -> (r: String)
    ensures
        r@ == decimal_of(n as nat),
    decreases n,
{
    if n < 10 {
        String::from_str(digit(n))
    } else {
        let mut r = decimal(n / 10);
        let ghost before = r@;
        r.append(digit(n % 10));
        proof {
            assert(r@ =~= before.push(digit_of((n % 10) as nat)));
        }
        r
    }
}

/// The name of layer `n`.
pub fn layer_name(n: usize) -> (r: String)
    ensures
        r@ == layer_name_of(n as nat),
{
    let mut r = String::from_str("layers.");
    r.append(decimal(n).as_str());
    r
}

/// Decimal notation has no more digits than it needs, the last digit counts the ones, and what
/// comes before it is the notation of the tens.
pub proof fn law_decimal_digits(n: nat)
    ensures
        decimal_of(n).len() > 0,
        decimal_of(n).last() as u32 == '0' as u32 + n % 10,
        n < 10 ==> decimal_of(n).len() == 1,
        n >= 10 ==> decimal_of(n).drop_last() == decimal_of(n / 10),
{
    lemma_decimal_nonempty(n);
    if n >= 10 {
        assert(decimal_of(n).drop_last() =~= decimal_of(n / 10));
    }
}

/// The name of a layer is its number behind a fixed word and a dot.
pub proof fn law_layer_name_ends_in_number(n: nat)
    ensures
        layer_name_of(n) == "layers."@ + decimal_of(n),
{
}

/// Different layers have different names.
pub proof fn law_layer_names_distinct(m: nat, n: nat)
    requires
        layer_name_of(m) == layer_name_of(n),
    ensures
        m == n,
{
    let p = "layers."@;
    assert(decimal_of(m) =~= layer_name_of(m).subrange(
        p.len() as int,
        layer_name_of(m).len() as int,
    ));
    assert(decimal_of(n) =~= layer_name_of(n).subrange(
        p.len() as int,
        layer_name_of(n).len() as int,
    ));
    lemma_decimal_injective(m, n);
}

proof fn lemma_decimal_injective(m: nat, n: nat)
    requires
        decimal_of(m) == decimal_of(n),
    ensures
        m == n,
    decreases m,
{
    let a = decimal_of(m);
    let b = decimal_of(n);
    lemma_decimal_nonempty(m / 10);
    lemma_decimal_nonempty(n / 10);
    assert(a.last() == b.last());
    assert(a.last() == digit_of(m % 10));
    assert(b.last() == digit_of(n % 10));
    lemma_digit_injective(m % 10, n % 10);
    if m >= 10 && n >= 10 {
        assert(a.drop_last() =~= decimal_of(m / 10));
        assert(b.drop_last() =~= decimal_of(n / 10));
        lemma_decimal_injective(m / 10, n / 10);
    } else {
        assert(a.len() == b.len());
    }
}

proof fn lemma_digit_injective(c: nat, d: nat)
    requires
        c < 10,
        d < 10,
        digit_of(c) == digit_of(d),
    ensures
        c == d,
{
}

proof fn lemma_decimal_nonempty(n: nat)
    ensures
        decimal_of(n).len() >= 1,
    decreases n,
{
    if n >= 10 {
        lemma_decimal_nonempty(n / 10);
    }
}

} // verus!
