//! Decimal rendering of unsigned integers, as used in tile paths and URLs.

use vstd::prelude::*;
use vstd::string::*;

verus! {

/// The character that writes the digit `d`.
pub open spec fn digit_char(d: nat) -> char {
    if d == 0 {
        '0'
    } else if d == 1 {
        '1'
    } else if d == 2 {
        '2'
    } else if d == 3 {
        '3'
    } else if d == 4 {
        '4'
    } else if d == 5 {
        '5'
    } else if d == 6 {
        '6'
    } else if d == 7 {
        '7'
    } else if d == 8 {
        '8'
    } else {
        '9'
    }
}

/// The decimal numeral of `n`: no sign, no leading zero, `"0"` for zero.
pub open spec fn decimal(n: nat) -> Seq<char>
    decreases n,
{
    if n < 10 {
        seq![digit_char(n)]
    } else {
        decimal(n / 10).push(digit_char(n % 10))
    }
}

/// Whether `c` is one of the ten decimal digits.
pub open spec fn is_digit(c: char) -> bool {
    exists|d: nat| d < 10 && c == #[trigger] digit_char(d)
}

/// A numeral is never empty and holds digits only.
pub proof fn lemma_decimal_digits(n: nat)
    ensures
        decimal(n).len() >= 1,
        forall|i: int| 0 <= i < decimal(n).len() ==> is_digit(#[trigger] decimal(n)[i]),
    decreases n,
{
    if n < 10 {
        assert(is_digit(digit_char(n)));
    } else {
        lemma_decimal_digits(n / 10);
        assert(is_digit(digit_char(n % 10)));
    }
}

/// The one-character text of the digit `d`.
fn digit_str(d: u32) -> (s: &'static str)
    requires
        d < 10,
    ensures
        s@ == seq![digit_char(d as nat)],
{
    proof {
        reveal_strlit("0");
        reveal_strlit("1");
        reveal_strlit("2");
        reveal_strlit("3");
        reveal_strlit("4");
        reveal_strlit("5");
        reveal_strlit("6");
        reveal_strlit("7");
        reveal_strlit("8");
        reveal_strlit("9");
    }
    let s: &'static str = if d == 0 {
        "0"
    } else if d == 1 {
        "1"
    } else if d == 2 {
        "2"
    } else if d == 3 {
        "3"
    } else if d == 4 {
        "4"
    } else if d == 5 {
        "5"
    } else if d == 6 {
        "6"
    } else if d == 7 {
        "7"
    } else if d == 8 {
        "8"
    } else {
        "9"
    };
    assert(s@ =~= seq![digit_char(d as nat)]);
    s
}

/// Appends the decimal numeral of `n` to `out`.
pub fn append_decimal(out: &mut String, n: u32)
    ensures
        final(out)@ == old(out)@ + decimal(n as nat),
    decreases n,
{
    if n >= 10 {
        append_decimal(out, n / 10);
    }
    out.append(digit_str(n % 10));
    assert(final(out)@ =~= old(out)@ + decimal(n as nat));
}

/// Distinct digits are written with distinct characters.
pub proof fn lemma_digit_char_injective(a: nat, b: nat)
    requires
        a < 10,
        b < 10,
        digit_char(a) == digit_char(b),
    ensures
        a == b,
{
}

/// Only numbers below ten have a numeral of one digit.
pub proof fn lemma_decimal_len(n: nat)
    ensures
        decimal(n).len() >= 1,
        n < 10 <==> decimal(n).len() == 1,
    decreases n,
{
    if n >= 10 {
        lemma_decimal_len(n / 10);
    }
}

/// Distinct numbers have distinct numerals.
pub proof fn lemma_decimal_injective(a: nat, b: nat)
    requires
        decimal(a) == decimal(b),
    ensures
        a == b,
    decreases a,
{
    lemma_decimal_len(a);
    lemma_decimal_len(b);
    if a < 10 {
        assert(decimal(a)[0] == digit_char(a));
        assert(decimal(b)[0] == digit_char(b));
        lemma_digit_char_injective(a, b);
    } else {
        let front_a = decimal(a / 10);
        let front_b = decimal(b / 10);
        assert(decimal(a).last() == digit_char(a % 10));
        assert(decimal(b).last() == digit_char(b % 10));
        lemma_digit_char_injective(a % 10, b % 10);
        assert(decimal(a).drop_last() =~= front_a);
        assert(decimal(b).drop_last() =~= front_b);
        lemma_decimal_injective(a / 10, b / 10);
    }
}

/// Two texts that agree, each a run of digits, then `mark`, then a rest,
/// agree on the digits and on the rest, if `mark` is no digit.
pub proof fn lemma_split_at_mark(
    digits: Seq<char>,
    rest: Seq<char>,
    other_digits: Seq<char>,
    other_rest: Seq<char>,
    mark: char,
)
    requires
        !is_digit(mark),
        forall|i: int| 0 <= i < digits.len() ==> is_digit(#[trigger] digits[i]),
        forall|i: int| 0 <= i < other_digits.len() ==> is_digit(#[trigger] other_digits[i]),
        digits + seq![mark] + rest == other_digits + seq![mark] + other_rest,
    ensures
        digits == other_digits,
        rest == other_rest,
{
    let whole = digits + seq![mark] + rest;
    let other = other_digits + seq![mark] + other_rest;
    let n = digits.len() as int;
    let m = other_digits.len() as int;
    assert(whole.len() == n + 1 + rest.len());
    assert(other.len() == m + 1 + other_rest.len());
    if n < m {
        assert(whole[n] == mark);
        assert(other[n] == other_digits[n]);
        assert(false);
    }
    if m < n {
        assert(other[m] == mark);
        assert(whole[m] == digits[m]);
        assert(false);
    }
    assert forall|i: int| 0 <= i < n implies digits[i] == other_digits[i] by {
        assert(whole[i] == digits[i]);
        assert(other[i] == other_digits[i]);
    }
    assert(digits =~= other_digits);
    assert forall|i: int| 0 <= i < rest.len() implies rest[i] == other_rest[i] by {
        assert(whole[n + 1 + i] == rest[i]);
        assert(other[n + 1 + i] == other_rest[i]);
    }
    assert(rest =~= other_rest);
}

/// Two texts that agree and begin alike agree on what follows.
pub proof fn lemma_same_head(head: Seq<char>, rest: Seq<char>, other_rest: Seq<char>)
    requires
        head + rest == head + other_rest,
    ensures
        rest == other_rest,
{
    let whole = head + rest;
    let other = head + other_rest;
    assert(whole.len() == head.len() + rest.len());
    assert(other.len() == head.len() + other_rest.len());
    assert forall|i: int| 0 <= i < rest.len() implies rest[i] == other_rest[i] by {
        assert(whole[head.len() + i] == rest[i]);
        assert(other[head.len() + i] == other_rest[i]);
    }
    assert(rest =~= other_rest);
}

/// Two texts that agree and end alike agree on what comes before.
pub proof fn lemma_same_tail(front: Seq<char>, other_front: Seq<char>, tail: Seq<char>)
    requires
        front + tail == other_front + tail,
    ensures
        front == other_front,
{
    let whole = front + tail;
    let other = other_front + tail;
    assert(whole.len() == front.len() + tail.len());
    assert(other.len() == other_front.len() + tail.len());
    assert forall|i: int| 0 <= i < front.len() implies front[i] == other_front[i] by {
        assert(whole[i] == front[i]);
        assert(other[i] == other_front[i]);
    }
    assert(front =~= other_front);
}

} // verus!
