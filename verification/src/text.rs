//! Text in decimal notation and small text operations.

use vstd::prelude::*;

verus! {

/// `String::push` appends one character.
pub assume_specification[ String::push ](s: &mut String, c: char)
    ensures
        final(s)@ == old(s)@.push(c),
;

/// The character of a decimal digit.
pub open spec fn digit(d: int) -> char {
    ('0' as int + d) as char
}

/// `n` in decimal notation, without leading zeros.
pub open spec fn decimal(n: nat) -> Seq<char>
    decreases n,
{
    if n < 10 {
        seq![digit(n as int)]
    } else {
        decimal(n / 10).push(digit(n as int % 10))
    }
}

pub open spec fn zero_digits(n: nat) -> Seq<char> {
    Seq::new(n, |i: int| '0')
}

/// `n` in decimal notation, with zeros in front up to a width of `width`.
pub open spec fn padded(n: nat, width: nat) -> Seq<char> {
    let d = decimal(n);
    if d.len() < width {
        zero_digits((width - d.len()) as nat) + d
    } else {
        d
    }
}

fn digit_char(d: u64) -> (c: char)
    requires
        d < 10,
    ensures
        c == digit(d as int),
{
    ('0' as u8 + d as u8) as char
}

/// Appends `n` in decimal notation.
pub fn push_decimal(s: &mut String, n: u64)
    ensures
        final(s)@ == old(s)@ + decimal(n as nat),
    decreases n,
{
    if n >= 10 {
        push_decimal(s, n / 10);
    }
    s.push(digit_char(n % 10));
    proof {
        if n >= 10 {
            assert(decimal(n as nat) == decimal(n as nat / 10).push(digit(n as int % 10)));
        }
        assert(s@ =~= old(s)@ + decimal(n as nat));
    }
}

/// Appends `n` in decimal notation, with zeros in front up to a width of `width`.
pub fn push_padded(s: &mut String, n: u64, width: usize)
    requires
        width >= 1,
    ensures
        final(s)@ == old(s)@ + padded(n as nat, width as nat),
{
    let mut rest: u64 = n;
    let mut len: usize = 1;
    while rest >= 10 && len < width
        invariant
            1 <= len <= width,
            len + decimal(rest as nat).len() == 1 + decimal(n as nat).len(),
        decreases rest,
    {
        rest = rest / 10;
        len += 1;
    }
    proof {
        lemma_decimal_len(rest as nat);
        assert(old(s)@ + zero_digits(0) =~= old(s)@);
    }
    let ghost digits = decimal(n as nat).len();
    let mut zeros: usize = 0;
    while len < width
        invariant
            len <= width,
            zeros + digits == len || (zeros == 0 && len == width && digits >= width),
            s@ == old(s)@ + zero_digits(zeros as nat),
        decreases width - len,
    {
        s.push('0');
        zeros += 1;
        len += 1;
        assert(s@ =~= old(s)@ + zero_digits(zeros as nat));
    }
    push_decimal(s, n);
    assert(s@ =~= old(s)@ + padded(n as nat, width as nat));
}

pub proof fn lemma_decimal_len(n: nat)
    ensures
        decimal(n).len() >= 1,
        n < 10 <==> decimal(n).len() == 1,
    decreases n,
{
    if n >= 10 {
        lemma_decimal_len(n / 10);
    }
}

/// The character of a lower-case hexadecimal digit.
pub open spec fn hex_digit(d: int) -> char {
    if d < 10 {
        digit(d)
    } else {
        ('a' as int + d - 10) as char
    }
}

/// A byte as two lower-case hexadecimal digits.
pub open spec fn hex_byte(b: u8) -> Seq<char> {
    seq![hex_digit(b as int / 16), hex_digit(b as int % 16)]
}

fn hex_char(d: u8) -> (c: char)
    requires
        d < 16,
    ensures
        c == hex_digit(d as int),
{
    if d < 10 {
        ('0' as u8 + d) as char
    } else {
        ('a' as u8 + (d - 10)) as char
    }
}

/// Appends a byte as two lower-case hexadecimal digits.
pub fn push_hex_byte(s: &mut String, b: u8)
    ensures
        final(s)@ == old(s)@ + hex_byte(b),
{
    s.push(hex_char(b / 16));
    s.push(hex_char(b % 16));
    assert(s@ =~= old(s)@ + hex_byte(b));
}

/// The number that a text of decimal digits stands for.
pub open spec fn digits_value(s: Seq<char>) -> int
    decreases s.len(),
{
    if s.len() == 0 {
        0
    } else {
        digits_value(s.drop_last()) * 10 + (s.last() as int - '0' as int)
    }
}

/// All characters of a text are decimal digits.
pub open spec fn all_digits(s: Seq<char>) -> bool {
    forall|i: int| 0 <= i < s.len() ==> '0' <= #[trigger] s[i] <= '9'
}

/// Decimal notation is read back: it has digits alone, stands for its number, and begins with a
/// zero only where it is one.
pub proof fn law_decimal_is_read_back(n: nat)
    ensures
        all_digits(decimal(n)),
        digits_value(decimal(n)) == n,
        decimal(n).len() >= 1,
        decimal(n).len() > 1 ==> decimal(n)[0] != '0',
    decreases n,
{
    if n < 10 {
        let d = decimal(n);
        assert(d.drop_last() =~= Seq::empty());
        assert(d.last() == d[0]);
        assert(digits_value(d.drop_last()) == 0);
    } else {
        let rest = decimal(n / 10);
        law_decimal_is_read_back(n / 10);
        assert(decimal(n).drop_last() =~= rest);
        assert(decimal(n)[0] == rest[0]);
        if rest.len() == 1 {
            lemma_decimal_len(n / 10);
            assert(n / 10 < 10);
            assert(rest[0] == digit((n / 10) as int));
        }
    }
}

proof fn lemma_zeros_in_front(k: nat, s: Seq<char>)
    requires
        all_digits(s),
    ensures
        all_digits(zero_digits(k) + s),
        digits_value(zero_digits(k) + s) == digits_value(s),
    decreases k + s.len(),
{
    let all = zero_digits(k) + s;
    if s.len() > 0 {
        let rest = s.drop_last();
        assert(all_digits(rest)) by {
            assert forall|i: int| 0 <= i < rest.len() implies '0' <= #[trigger] rest[i] <= '9' by {
                assert(rest[i] == s[i]);
            }
        }
        lemma_zeros_in_front(k, rest);
        assert(all.drop_last() =~= zero_digits(k) + rest);
        assert(all.last() == s.last());
    } else if k > 0 {
        lemma_zeros_in_front((k - 1) as nat, s);
        assert(all.drop_last() =~= zero_digits((k - 1) as nat) + s);
        assert(all.last() == '0');
    } else {
        assert(all =~= s);
    }
}

/// A padded number stands for the same number, is never shorter than the width, and is longer
/// only where the number needs it.
pub proof fn law_padding_keeps_the_number(n: nat, width: nat)
    ensures
        all_digits(padded(n, width)),
        digits_value(padded(n, width)) == n,
        padded(n, width).len() == if decimal(n).len() < width {
            width
        } else {
            decimal(n).len()
        },
{
    law_decimal_is_read_back(n);
    if decimal(n).len() < width {
        lemma_zeros_in_front((width - decimal(n).len()) as nat, decimal(n));
    }
}

/// A byte in hexadecimal notation is two lower-case digits, the high one first.
pub proof fn law_hex_is_read_back(b: u8)
    ensures
        hex_byte(b).len() == 2,
        ({
            let high = hex_byte(b)[0] as int;
            let low = hex_byte(b)[1] as int;
            let h = if high <= '9' as int {
                high - '0' as int
            } else {
                high - 'a' as int + 10
            };
            let l = if low <= '9' as int {
                low - '0' as int
            } else {
                low - 'a' as int + 10
            };
            &&& 0 <= h < 16 && 0 <= l < 16
            &&& 16 * h + l == b
            &&& '0' <= hex_byte(b)[0] <= '9' || 'a' <= hex_byte(b)[0] <= 'f'
            &&& '0' <= hex_byte(b)[1] <= '9' || 'a' <= hex_byte(b)[1] <= 'f'
        }),
{
}

} // verus!
