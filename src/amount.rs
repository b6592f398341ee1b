//! Rendering of scaled amounts and of the other numbers in a statement.
use crate::parse::{digits_end, digits_value, four_dp_spec, is_digit, ParseError, DOT, ZERO};
use vstd::prelude::*;
use vstd::utf8::{encode_utf8, is_ascii_chars, is_ascii_chars_encode_utf8};

verus! {

pub open spec fn digit_char(d: int) -> char {
    if d == 0 {
        '0'
    } else if d == 1 {
        '1'
    } else if d == 2 {
        '2'
    } else if d == 3 {
        '3'
    } else if d == 4 {
        '4'
    } else if d == 5 {
        '5'
    } else if d == 6 {
        '6'
    } else if d == 7 {
        '7'
    } else if d == 8 {
        '8'
    } else {
        '9'
    }
}

/// The decimal digits of `n`, without leading zeros.
pub open spec fn decimal(n: nat) -> Seq<char>
    decreases n,
{
    if n < 10 {
        seq![digit_char(n as int)]
    } else {
        decimal(n / 10).push(digit_char((n % 10) as int))
    }
}

/// `r` as exactly four digits, zero-padded on the left.
pub open spec fn four_digits(r: nat) -> Seq<char> {
    seq![
        digit_char((r / 1000 % 10) as int),
        digit_char((r / 100 % 10) as int),
        digit_char((r / 10 % 10) as int),
        digit_char((r % 10) as int),
    ]
}

pub open spec fn abs(a: int) -> nat {
    if a < 0 {
        (-a) as nat
    } else {
        a as nat
    }
}

/// The text of an amount counted in ten-thousandths: the quotient by 10000
/// truncated toward zero, a dot, and the absolute value of the remainder as
/// four digits. (A negative amount above -1 thus shows no sign.)
pub open spec fn amount_text(a: int) -> Seq<char> {
    let q = abs(a) / 10000;
    let sign = if a < 0 && q > 0 {
        seq!['-']
    } else {
        Seq::<char>::empty()
    };
    sign + decimal(q) + seq!['.'] + four_digits(abs(a) % 10000)
}

pub open spec fn bool_text(b: bool) -> Seq<char> {
    if b {
        seq!['t', 'r', 'u', 'e']
    } else {
        seq!['f', 'a', 'l', 's', 'e']
    }
}

fn digit_text(d: u128) -> (r: &'static str)
    requires
        d < 10,
    ensures
        r@ == seq![digit_char(d as int)],
{
    proof {
        reveal_strlit("0");
        reveal_strlit("1");
        reveal_strlit("2");
        reveal_strlit("3");
        reveal_strlit("4");
        reveal_strlit("5");
        reveal_strlit("6");
        reveal_strlit("7");
        reveal_strlit("8");
        reveal_strlit("9");
    }
    if d == 0 {
        "0"
    } else if d == 1 {
        "1"
    } else if d == 2 {
        "2"
    } else if d == 3 {
        "3"
    } else if d == 4 {
        "4"
    } else if d == 5 {
        "5"
    } else if d == 6 {
        "6"
    } else if d == 7 {
        "7"
    } else if d == 8 {
        "8"
    } else {
        "9"
    }
}

/// Appends the decimal digits of `n`.
pub fn push_decimal(s: &mut String, n: u128)
    ensures
        final(s)@ == old(s)@ + decimal(n as nat),
    decreases n,
{
    if n >= 10 {
        push_decimal(s, n / 10);
    }
    s.append(digit_text(n % 10));
    proof {
        assert(old(s)@ + decimal(n as nat) =~= if n < 10 {
            old(s)@ + seq![digit_char(n as int)]
        } else {
            old(s)@ + decimal((n / 10) as nat) + seq![digit_char((n % 10) as int)]
        });
    }
}

/// Appends `true` or `false`.
pub fn push_bool(s: &mut String, b: bool)
    ensures
        final(s)@ == old(s)@ + bool_text(b),
{
    proof {
        reveal_strlit("true");
        reveal_strlit("false");
    }
    if b {
        s.append("true");
    } else {
        s.append("false");
    }
}

/// Appends the text of the amount `a`, counted in ten-thousandths.
pub fn push_amount(s: &mut String, a: i128)
    requires
        a > i128::MIN,
    ensures
        final(s)@ == old(s)@ + amount_text(a as int),
{
    let m: u128 = if a < 0 {
        (-a) as u128
    } else {
        a as u128
    };
    assert(m == abs(a as int));
    let q = m / 10000;
    let r = m % 10000;
    proof {
        reveal_strlit("-");
        reveal_strlit(".");
    }
    if a < 0 && q > 0 {
        s.append("-");
    }
    push_decimal(s, q);
    s.append(".");
    s.append(digit_text(r / 1000 % 10));
    s.append(digit_text(r / 100 % 10));
    s.append(digit_text(r / 10 % 10));
    s.append(digit_text(r % 10));
    proof {
        let sign = if a < 0 && q > 0 {
            seq!['-']
        } else {
            Seq::<char>::empty()
        };
        assert(old(s)@ + amount_text(a as int) =~= old(s)@ + sign + decimal(q as nat) + seq!['.']
            + seq![digit_char((r / 1000 % 10) as int)] + seq![digit_char((r / 100 % 10) as int)]
            + seq![digit_char((r / 10 % 10) as int)] + seq![digit_char((r % 10) as int)]);
    }
}

/// The text of an amount counted in ten-thousandths, with four decimal places.
pub fn dp_string(amount: i64) -> (r: String)
    ensures
        r@ == amount_text(amount as int),
{
    let mut s = String::new();
    push_amount(&mut s, amount as i128);
    assert(s@ =~= amount_text(amount as int));
    s
}

proof fn lemma_digit_char(d: int)
    requires
        0 <= d < 10,
    ensures
        digit_char(d) as u8 == ZERO + d,
        '0' <= digit_char(d) <= '9',
{
}

/// The digits of `n` stand at `s[i..]`: their run has the value `n`.
proof fn lemma_decimal_value(n: nat, s: Seq<u8>, i: int)
    requires
        0 <= i,
        i + decimal(n).len() <= s.len(),
        forall|j: int| 0 <= j < decimal(n).len() ==> s[i + j] == #[trigger] decimal(n)[j] as u8,
    ensures
        digits_value(s, i, i + decimal(n).len()) == n,
        forall|j: int| i <= j < i + decimal(n).len() ==> is_digit(#[trigger] s[j]),
        decimal(n).len() >= 1,
    decreases n,
{
    let len = decimal(n).len();
    if n < 10 {
        lemma_digit_char(n as int);
        assert(s[i] == decimal(n)[0] as u8);
        assert(digits_value(s, i, i) == 0);
    } else {
        let p = decimal(n / 10);
        assert forall|j: int| 0 <= j < p.len() implies s[i + j] == #[trigger] p[j] as u8 by {
            assert(decimal(n)[j] == p[j]);
        }
        lemma_decimal_value(n / 10, s, i);
        lemma_digit_char((n % 10) as int);
        assert(s[i + len - 1] == decimal(n)[len - 1] as u8);
        assert forall|j: int| i <= j < i + len implies is_digit(#[trigger] s[j]) by {
            if j < i + len - 1 {
                assert(is_digit(s[j]));
            }
        }
    }
}

/// A run of digits `s[i..k]` that stops at `k` ends there.
proof fn lemma_digits_stop(s: Seq<u8>, i: int, k: int)
    requires
        0 <= i <= k <= s.len(),
        forall|j: int| i <= j < k ==> is_digit(#[trigger] s[j]),
        k == s.len() || !is_digit(s[k]),
    ensures
        digits_end(s, i) == k,
    decreases k - i,
{
    if i < k {
        lemma_digits_stop(s, i + 1, k);
    }
}

proof fn lemma_decimal_ascii(n: nat)
    ensures
        forall|j: int| 0 <= j < decimal(n).len() ==> '0' <= #[trigger] decimal(n)[j] <= '9',
    decreases n,
{
    if n >= 10 {
        lemma_decimal_ascii(n / 10);
        lemma_digit_char((n % 10) as int);
        assert forall|j: int| 0 <= j < decimal(n).len() implies '0' <= #[trigger] decimal(n)[j]
            <= '9' by {
            if j < decimal(n).len() - 1 {
                assert(decimal(n)[j] == decimal(n / 10)[j]);
            }
        }
    } else {
        lemma_digit_char(n as int);
    }
}

/// Rendering a non-negative amount and reading the text back gives the same
/// amount, the whole text being read.
pub proof fn lemma_amount_round_trip(a: i64)
    requires
        a >= 0,
    ensures
        four_dp_spec(encode_utf8(amount_text(a as int)), 0) == Ok::<(int, int), ParseError>(
            (amount_text(a as int).len() as int, a as int),
        ),
{
    let q = abs(a as int) / 10000;
    let r = abs(a as int) % 10000;
    let d = decimal(q);
    let f = four_digits(r);
    let t = amount_text(a as int);
    let n = d.len() as int;
    assert(t =~= d + seq!['.'] + f);
    lemma_decimal_ascii(q);
    lemma_digit_char((r / 1000 % 10) as int);
    lemma_digit_char((r / 100 % 10) as int);
    lemma_digit_char((r / 10 % 10) as int);
    lemma_digit_char((r % 10) as int);
    assert(is_ascii_chars(t)) by {
        assert forall|j: int| 0 <= j < t.len() implies '\0' <= #[trigger] t[j] <= '\u{7f}' by {
            if j < n {
                assert(t[j] == d[j]);
            }
        }
    }
    is_ascii_chars_encode_utf8(t);
    let b = encode_utf8(t);
    assert(b.len() == n + 5);
    assert forall|j: int| 0 <= j < d.len() implies b[0 + j] == #[trigger] d[j] as u8 by {
        assert(t[j] == d[j]);
    }
    lemma_decimal_value(q, b, 0);
    assert(b[n] == DOT) by {
        assert(t[n] == '.');
    }
    lemma_digits_stop(b, 0, n);
    assert(b[n + 1] == f[0] as u8 && b[n + 2] == f[1] as u8 && b[n + 3] == f[2] as u8 && b[n + 4]
        == f[3] as u8) by {
        assert(t[n + 1] == f[0] && t[n + 2] == f[1] && t[n + 3] == f[2] && t[n + 4] == f[3]);
    }
    lemma_digits_stop(b, n + 1, n + 5);
    assert(digits_value(b, n + 1, n + 1) == 0);
    assert(digits_value(b, n + 1, n + 2) == r / 1000 % 10);
    assert(digits_value(b, n + 1, n + 3) == r / 1000 % 10 * 10 + r / 100 % 10);
    assert(digits_value(b, n + 1, n + 4) == (r / 1000 % 10 * 10 + r / 100 % 10) * 10 + r / 10 % 10);
    assert(digits_value(b, n + 1, n + 5) == ((r / 1000 % 10 * 10 + r / 100 % 10) * 10 + r / 10 % 10)
        * 10 + r % 10);
    assert(((r / 1000 % 10 * 10 + r / 100 % 10) * 10 + r / 10 % 10) * 10 + r % 10 == r) by (
    nonlinear_arith)
        requires
            0 <= r < 10000,
    ;
    assert(q * 10000 + r == a);
}

} // verus!
