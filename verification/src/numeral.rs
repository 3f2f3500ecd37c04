//! Decimal numerals of unsigned integers, written and read.
use vstd::prelude::*;

verus! {

/// The character of a digit.
pub open spec fn digit(d: int) -> char {
    (48 + d) as u8 as char
}

/// Whether `c` is one of `0` to `9`.
pub open spec fn is_digit(c: char) -> bool {
    '0' <= c <= '9'
}

/// What a digit stands for.
pub open spec fn digit_value(c: char) -> int {
    c as u8 - 48
}

/// The decimal numeral of `n`: no sign, no leading zero.
pub open spec fn decimal(n: nat) -> Seq<char>
    decreases n,
{
    if n < 10 {
        seq![digit(n as int)]
    } else {
        decimal(n / 10).push(digit((n % 10) as int))
    }
}

/// The number that a row of digits stands for.
pub open spec fn digits_value(s: Seq<char>) -> nat
    decreases s.len(),
{
    if s.len() == 0 {
        0
    } else {
        digits_value(s.drop_last()) * 10 + digit_value(s.last()) as nat
    }
}

pub open spec fn all_digits(s: Seq<char>) -> bool {
    forall|i: int| 0 <= i < s.len() ==> is_digit(#[trigger] s[i])
}

/// The digits of a numeral that may start with a plus sign.
pub open spec fn unsigned_digits(s: Seq<char>) -> Seq<char> {
    if s.len() > 0 && s[0] == '+' {
        s.drop_first()
    } else {
        s
    }
}

/// The number that `s` denotes: an optional plus sign and one or more digits.
/// Nothing else denotes a number, nor does one above `usize::MAX`.
pub open spec fn parse(s: Seq<char>) -> Option<usize> {
    let d = unsigned_digits(s);
    if d.len() > 0 && all_digits(d) && digits_value(d) <= usize::MAX {
        Some(digits_value(d) as usize)
    } else {
        None
    }
}

/// A digit reads back as the number it stands for.
pub proof fn lemma_digit(d: int)
    requires
        0 <= d < 10,
    ensures
        is_digit(digit(d)),
        digit_value(digit(d)) == d,
{
}

proof fn lemma_decimal(n: nat)
    ensures
        decimal(n).len() > 0,
        all_digits(decimal(n)),
        digits_value(decimal(n)) == n,
    decreases n,
{
    if n < 10 {
        lemma_digit(n as int);
        let s = decimal(n);
        assert(s.drop_last() =~= seq![]);
        assert(digits_value(s.drop_last()) == 0);
    } else {
        lemma_decimal(n / 10);
        lemma_digit((n % 10) as int);
        let s = decimal(n);
        assert(s.drop_last() =~= decimal(n / 10));
        assert forall|i: int| 0 <= i < s.len() implies is_digit(#[trigger] s[i]) by {
            if i < s.len() - 1 {
                assert(decimal(n / 10)[i] == s[i]);
            }
        }
    }
}

/// Reading a numeral back gives the number it was written for.
pub proof fn parse_of_decimal(n: usize)
    ensures
        parse(decimal(n as nat)) == Some(n),
{
    lemma_decimal(n as nat);
    let s = decimal(n as nat);
    assert(is_digit(s[0]));
    assert(unsigned_digits(s) == s);
}

/// Two numbers never share a numeral.
pub proof fn decimal_is_injective(a: nat, b: nat)
    requires
        decimal(a) == decimal(b),
    ensures
        a == b,
{
    lemma_decimal(a);
    lemma_decimal(b);
}

/// The decimal numeral of `n`.
pub fn decimal_of(n: u128) -> (r: Vec<char>)
    ensures
        r@ == decimal(n as nat),
    decreases n,
{
    if n < 10 {
        let mut v: Vec<char> = Vec::new();
        v.push((48u8 + n as u8) as char);
        v
    } else {
        let mut v = decimal_of(n / 10);
        v.push((48u8 + (n % 10) as u8) as char);
        v
    }
}

proof fn lemma_digits_prefix(s: Seq<char>, k: int)
    requires
        0 <= k <= s.len(),
        all_digits(s),
    ensures
        digits_value(s.take(k)) <= digits_value(s),
    decreases s.len(),
{
    if k < s.len() {
        assert(s.drop_last().take(k) =~= s.take(k));
        lemma_digits_prefix(s.drop_last(), k);
    } else {
        assert(s.take(k) =~= s);
    }
}

/// Read a numeral; see [`parse`].
pub fn parse_usize(s: &[char]) -> (r: Option<usize>)
    ensures
        r == parse(s@),
{
    let n = s.len();
    let from: usize = if n > 0 && s[0] == '+' {
        1
    } else {
        0
    };
    let ghost d = unsigned_digits(s@);
    assert(d =~= s@.skip(from as int));
    if from == n {
        return None;
    }
    let mut value: usize = 0;
    let mut i: usize = from;
    assert(d.take(0) =~= seq![]);
    while i < n
        invariant
            from <= i <= n,
            n == s@.len(),
            d == unsigned_digits(s@),
            d == s@.skip(from as int),
            all_digits(d.take(i - from)),
            value == digits_value(d.take(i - from)),
        decreases n - i,
    {
        let c = s[i];
        assert(d[i - from] == c);
        if !('0' <= c && c <= '9') {
            assert(!is_digit(d[i - from]));
            return None;
        }
        let k: usize = (c as u8 - 48u8) as usize;
        let ghost t = d.take(i + 1 - from);
        assert(t.drop_last() =~= d.take(i - from));
        assert(t.last() == c);
        assert(digits_value(t) == value * 10 + k);
        assert(all_digits(t)) by {
            assert forall|j: int| 0 <= j < t.len() implies is_digit(#[trigger] t[j]) by {
                if j < i - from {
                    assert(d.take(i - from)[j] == t[j]);
                }
            }
        }
        if value > usize::MAX / 10 || value * 10 > usize::MAX - k {
            proof {
                if all_digits(d) {
                    lemma_digits_prefix(d, i + 1 - from);
                }
            }
            return None;
        }
        value = value * 10 + k;
        i += 1;
    }
    assert(d.take(n - from) =~= d);
    Some(value)
}

/// A numeral has no sign and, but for zero itself, does not start with a zero.
pub proof fn decimal_has_no_sign(n: nat)
    ensures
        decimal(n).len() > 0,
        decimal(n)[0] != '+',
        decimal(n)[0] == '0' ==> n == 0 && decimal(n).len() == 1,
    decreases n,
{
    if n >= 10 {
        decimal_has_no_sign(n / 10);
        assert(decimal(n)[0] == decimal(n / 10)[0]);
    } else {
        lemma_digit(n as int);
        assert(decimal(n)[0] == digit(n as int));
        assert(digit_value(digit(n as int)) == n);
    }
}

/// Digits are weighed by ten from place to place: a numeral with a digit behind
/// it is ten times the number and the digit.
pub proof fn digits_weigh_ten(s: Seq<char>, d: nat)
    requires
        d < 10,
    ensures
        digits_value(s.push(digit(d as int))) == 10 * digits_value(s) + d,
        digit(d as int) as u32 == '0' as u32 + d,
        digits_value(seq![]) == 0,
{
    lemma_digit(d as int);
    assert(s.push(digit(d as int)).drop_last() =~= s);
    assert(digit(d as int) as u32 == 48 + d);
}

/// What is read as a number is digits, but for a plus sign that may stand
/// before them, and it is the number that they stand for.
pub proof fn numbers_are_read_off_digits(s: Seq<char>)
    ensures
        match parse(s) {
            Some(n) => {
                &&& s.len() > 0
                &&& forall|i: int| 0 < i < s.len() ==> '0' <= #[trigger] s[i] <= '9'
                &&& ('0' <= s[0] <= '9' && digits_value(s) == n) || (s[0] == '+' && s.len() > 1 && digits_value(s.drop_first()) == n)
            },
            None => {
                ||| s.len() == 0
                ||| s == seq!['+']
                ||| exists|i: int| 0 <= i < s.len() && !('0' <= #[trigger] s[i] <= '9') && (i > 0 || s[i] != '+')
                ||| digits_value(if s[0] == '+' {
                    s.drop_first()
                } else {
                    s
                }) > usize::MAX
            },
        },
{
    let d = unsigned_digits(s);
    if parse(s) is Some {
        assert forall|i: int| 0 < i < s.len() implies '0' <= #[trigger] s[i] <= '9' by {
            if s[0] == '+' {
                assert(is_digit(d[i - 1]));
            } else {
                assert(is_digit(d[i]));
            }
        }
        assert(is_digit(d[0]));
    } else if s.len() > 0 && d.len() > 0 && !all_digits(d) {
        let i = choose|i: int| 0 <= i < d.len() && !is_digit(#[trigger] d[i]);
        if s[0] == '+' {
            assert(!is_digit(s[i + 1]));
        } else {
            assert(!is_digit(s[i]));
        }
    } else if s.len() > 0 && d.len() == 0 {
        assert(s =~= seq!['+']);
    }
}

} // verus!
