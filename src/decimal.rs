use vstd::prelude::*;
use vstd::string::StringExecFns;

verus! {

/// The character of a decimal digit.
pub open spec fn digit_char(d: int) -> char {
    if d == 0 {
        '0'
    } else if d == 1 {
        '1'
    } else if d == 2 {
        '2'
    } else if d == 3 {
        '3'
    } else if d == 4 {
        '4'
    } else if d == 5 {
        '5'
    } else if d == 6 {
        '6'
    } else if d == 7 {
        '7'
    } else if d == 8 {
        '8'
    } else {
        '9'
    }
}

/// Decimal digits of a non-negative integer, most significant first, no leading zero.
pub open spec fn digits_of(n: nat) -> Seq<char>
    decreases n,
{
    if n < 10 {
        seq![digit_char(n as int)]
    } else {
        digits_of(n / 10).push(digit_char((n % 10) as int))
    }
}

/// Decimal text of an integer: a leading `-` for negative values.
pub open spec fn decimal_of(n: int) -> Seq<char> {
    if n < 0 {
        seq!['-'] + digits_of((-n) as nat)
    } else {
        digits_of(n as nat)
    }
}

pub open spec fn is_digit(c: char) -> bool {
    '0' <= c && c <= '9'
}

proof fn lemma_digit_char(d: int)
    requires
        0 <= d < 10,
    ensures
        is_digit(digit_char(d)),
        forall|e: int| 0 <= e < 10 && digit_char(e) == digit_char(d) ==> e == d,
{
}

/// Every character of `digits_of(n)` is a digit, and there is at least one.
pub proof fn lemma_digits_shape(n: nat)
    ensures
        digits_of(n).len() >= 1,
        n < 10 <==> digits_of(n).len() == 1,
        forall|i: int| 0 <= i < digits_of(n).len() ==> is_digit(#[trigger] digits_of(n)[i]),
    decreases n,
{
    lemma_digit_char((n % 10) as int);
    if n >= 10 {
        lemma_digits_shape(n / 10);
    } else {
        lemma_digit_char(n as int);
    }
}

/// No character of a decimal text is a colon or a dash other than a leading sign.
pub proof fn lemma_decimal_shape(n: int)
    ensures
        decimal_of(n).len() >= 1,
        forall|i: int| 0 <= i < decimal_of(n).len() ==> #[trigger] decimal_of(n)[i] != ':',
        forall|i: int| 1 <= i < decimal_of(n).len() ==> is_digit(#[trigger] decimal_of(n)[i]),
        n >= 0 ==> is_digit(decimal_of(n)[0]),
        n < 0 ==> decimal_of(n)[0] == '-',
{
    if n < 0 {
        lemma_digits_shape((-n) as nat);
        assert(forall|i: int| 1 <= i < decimal_of(n).len() ==> decimal_of(n)[i] == digits_of((-n) as nat)[i - 1]);
    } else {
        lemma_digits_shape(n as nat);
    }
}

proof fn lemma_digits_injective(a: nat, b: nat)
    requires
        digits_of(a) == digits_of(b),
    ensures
        a == b,
    decreases a,
{
    lemma_digits_shape(a);
    lemma_digits_shape(b);
    if a < 10 {
        lemma_digit_char(a as int);
        assert(b < 10);
        assert(digits_of(a)[0] == digit_char(a as int));
        assert(digits_of(b)[0] == digit_char(b as int));
        lemma_digit_char(b as int);
    } else {
        let da = digits_of(a);
        let db = digits_of(b);
        assert(da.last() == db.last());
        lemma_digit_char((a % 10) as int);
        lemma_digit_char((b % 10) as int);
        assert(da.drop_last() == digits_of(a / 10));
        assert(db.drop_last() == digits_of(b / 10));
        lemma_digits_injective(a / 10, b / 10);
        assert(b >= 10);
        assert(da.last() == digit_char((a % 10) as int));
        assert(db.last() == digit_char((b % 10) as int));
        assert(a % 10 == b % 10);
        assert(a == 10 * (a / 10) + a % 10);
        assert(b == 10 * (b / 10) + b % 10);
    }
}

/// Distinct integers have distinct decimal texts.
pub proof fn lemma_decimal_injective(a: int, b: int)
    requires
        decimal_of(a) == decimal_of(b),
    ensures
        a == b,
{
    lemma_decimal_shape(a);
    lemma_decimal_shape(b);
    if a < 0 && b < 0 {
        assert(decimal_of(a).drop_first() == digits_of((-a) as nat));
        assert(decimal_of(b).drop_first() == digits_of((-b) as nat));
        lemma_digits_injective((-a) as nat, (-b) as nat);
    } else if a >= 0 && b >= 0 {
        lemma_digits_injective(a as nat, b as nat);
    } else {
        assert(decimal_of(a)[0] == decimal_of(b)[0]);
    }
}

fn digit(d: u8) -> (c: &'static str)
    requires
        d < 10,
    ensures
        c@ == seq![digit_char(d as int)],
{
    proof {
        reveal_strlit("0");
        reveal_strlit("1");
        reveal_strlit("2");
        reveal_strlit("3");
        reveal_strlit("4");
        reveal_strlit("5");
        reveal_strlit("6");
        reveal_strlit("7");
        reveal_strlit("8");
        reveal_strlit("9");
    }
    if d == 0 {
        "0"
    } else if d == 1 {
        "1"
    } else if d == 2 {
        "2"
    } else if d == 3 {
        "3"
    } else if d == 4 {
        "4"
    } else if d == 5 {
        "5"
    } else if d == 6 {
        "6"
    } else if d == 7 {
        "7"
    } else if d == 8 {
        "8"
    } else {
        "9"
    }
}

fn push_digits(out: &mut String, n: u128)
    ensures
        final(out)@ == old(out)@ + digits_of(n as nat),
    decreases n,
{
    if n < 10 {
        out.append(digit(n as u8));
    } else {
        push_digits(out, n / 10);
        out.append(digit((n % 10) as u8));
        assert(old(out)@ + digits_of(n as nat) == old(out)@ + digits_of((n / 10) as nat) + seq![digit_char((n % 10) as int)]);
    }
}

/// Appends the decimal text of `n` to `out`.
pub fn push_decimal(out: &mut String, n: i128)
    requires
        n > i128::MIN,
    ensures
        final(out)@ == old(out)@ + decimal_of(n as int),
{
    if n < 0 {
        proof {
            reveal_strlit("-");
        }
        out.append("-");
        push_digits(out, (-n) as u128);
        assert(old(out)@ + decimal_of(n as int) == old(out)@ + seq!['-'] + digits_of((-n) as nat));
    } else {
        push_digits(out, n as u128);
    }
}

} // verus!
