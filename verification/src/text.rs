//! Numbers as text.

use vstd::prelude::*;
use vstd::string::*;

verus! {

/// The character of a digit.
pub open spec fn digit_char(d: int) -> char {
    if d == 0 {
        '0'
    } else if d == 1 {
        '1'
    } else if d == 2 {
        '2'
    } else if d == 3 {
        '3'
    } else if d == 4 {
        '4'
    } else if d == 5 {
        '5'
    } else if d == 6 {
        '6'
    } else if d == 7 {
        '7'
    } else if d == 8 {
        '8'
    } else if d == 9 {
        '9'
    } else if d == 10 {
        'a'
    } else if d == 11 {
        'b'
    } else if d == 12 {
        'c'
    } else if d == 13 {
        'd'
    } else if d == 14 {
        'e'
    } else {
        'f'
    }
}

/// The digits of `n` in the base, without leading zeros.
pub open spec fn digits(n: nat, base: nat) -> Seq<char>
    decreases n,
{
    if base < 2 || n < base {
        seq![digit_char(n as int)]
    } else {
        proof {
            lemma_fewer(n, base);
        }
        digits(n / base, base).push(digit_char((n % base) as int))
    }
}

/// Dropping a digit makes a number smaller.
pub proof fn lemma_fewer(n: nat, base: nat)
    requires
        base >= 2,
        n >= base,
    ensures
        n / base < n,
{
    assert(n / base < n) by (nonlinear_arith)
        requires
            base >= 2,
            n >= base,
    ;
}

/// The text in UTF-8.
pub open spec fn utf8(text: Seq<char>) -> Seq<u8> {
    vstd::utf8::encode_utf8(text)
}

/// `n` in decimal.
pub open spec fn decimal_text(n: nat) -> Seq<char> {
    digits(n, 10)
}

/// `n` in decimal, with a sign where it is negative.
pub open spec fn signed_text(n: int) -> Seq<char> {
    if n < 0 {
        seq!['-'] + decimal_text((-n) as nat)
    } else {
        decimal_text(n as nat)
    }
}

/// `n` in hexadecimal, after `0x`.
pub open spec fn hex_text(n: nat) -> Seq<char> {
    seq!['0', 'x'] + digits(n, 16)
}

/// `text` filled up with leading zeros to the width.
pub open spec fn zero_padded(text: Seq<char>, width: nat) -> Seq<char>
    decreases width - text.len(),
{
    if text.len() >= width {
        text
    } else {
        zero_padded(seq!['0'] + text, width)
    }
}

/// The text of one digit.
fn digit_str(d: u64) -> (r: &'static str)
    requires
        d < 16,
    ensures
        r@ == seq![digit_char(d as int)],
{
    proof {
        reveal_strlit("0");
        reveal_strlit("1");
        reveal_strlit("2");
        reveal_strlit("3");
        reveal_strlit("4");
        reveal_strlit("5");
        reveal_strlit("6");
        reveal_strlit("7");
        reveal_strlit("8");
        reveal_strlit("9");
        reveal_strlit("a");
        reveal_strlit("b");
        reveal_strlit("c");
        reveal_strlit("d");
        reveal_strlit("e");
        reveal_strlit("f");
    }
    let s: &'static str = match d {
        0 => "0",
        1 => "1",
        2 => "2",
        3 => "3",
        4 => "4",
        5 => "5",
        6 => "6",
        7 => "7",
        8 => "8",
        9 => "9",
        10 => "a",
        11 => "b",
        12 => "c",
        13 => "d",
        14 => "e",
        _ => "f",
    };
    assert(s@ =~= seq![digit_char(d as int)]);
    s
}

/// The digits of `n` in the base.
fn digits_of(n: u64, base: u64) -> (r: String)
    requires
        2 <= base <= 16,
    ensures
        r@ == digits(n as nat, base as nat),
    decreases n,
{
    if n < base {
        digit_str(n).to_owned()
    } else {
        proof {
            lemma_fewer(n as nat, base as nat);
        }
        let mut s = digits_of(n / base, base);
        s.append(digit_str(n % base));
        assert(s@ =~= digits(n as nat, base as nat));
        s
    }
}

/// `n` in decimal.
pub fn decimal(n: u64) -> (r: String)
    ensures
        r@ == decimal_text(n as nat),
{
    digits_of(n, 10)
}

/// `n` in decimal, with a sign where it is negative.
pub fn signed_decimal(n: i64) -> (r: String)
    ensures
        r@ == signed_text(n as int),
{
    if n < 0 {
        let mut s = "-".to_owned();
        let abs: u64 = (-(n as i128)) as u64;
        let d = decimal(abs);
        s.append(d.as_str());
        proof {
            reveal_strlit("-");
            assert(s@ =~= signed_text(n as int));
        }
        s
    } else {
        decimal(n as u64)
    }
}

/// `n` in hexadecimal.
pub fn hex(n: u32) -> (r: String)
    ensures
        r@ == hex_text(n as nat),
{
    let mut s = "0x".to_owned();
    let d = digits_of(n as u64, 16);
    s.append(d.as_str());
    proof {
        reveal_strlit("0x");
        assert(s@ =~= hex_text(n as nat));
    }
    s
}

/// `n` in decimal, filled up with leading zeros to the width.
pub fn decimal_padded(n: u64, width: usize) -> (r: String)
    ensures
        r@ == zero_padded(decimal_text(n as nat), width as nat),
{
    let mut s = decimal(n);
    let mut len: usize = s.as_str().unicode_len();
    while len < width
        invariant
            len == s@.len(),
            zero_padded(s@, width as nat) == zero_padded(decimal_text(n as nat), width as nat),
        decreases width - len,
    {
        let mut longer = "0".to_owned();
        longer.append(s.as_str());
        proof {
            reveal_strlit("0");
            assert(longer@ =~= seq!['0'] + s@);
        }
        s = longer;
        len += 1;
    }
    s
}

/// Two texts, one after the other.
pub fn join(a: &str, b: &str) -> (r: String)
    ensures
        r@ == a@ + b@,
{
    let mut s = a.to_owned();
    s.append(b);
    s
}

/// The number that a character stands for as a digit.
pub open spec fn digit_value(c: char) -> int {
    if '0' <= c <= '9' {
        c as u32 - 48
    } else {
        c as u32 - 87
    }
}

/// The number that digits stand for in a base.
pub open spec fn number_of(s: Seq<char>, base: nat) -> int
    decreases s.len(),
{
    if s.len() == 0 {
        0
    } else {
        number_of(s.drop_last(), base) * base + digit_value(s.last())
    }
}

/// The digits of a number stand for it, and do not begin with a zero unless they are one
/// digit.
pub proof fn law_digits_read_back(n: nat, base: nat)
    requires
        2 <= base <= 16,
    ensures
        number_of(digits(n, base), base) == n,
        digits(n, base).len() > 0,
        n > 0 ==> digits(n, base)[0] != '0',
    decreases n,
{
    let s = digits(n, base);
    if n < base {
        assert(s.drop_last() =~= Seq::<char>::empty());
        assert(number_of(s.drop_last(), base) == 0);
        assert(0 * base == 0);
        assert(s.last() == digit_char(n as int));
    } else {
        lemma_fewer(n, base);
        let q = n / base;
        let r = n % base;
        assert(q > 0 && r < base && n == q * base + r) by (nonlinear_arith)
            requires
                n >= base,
                base >= 2,
                q == n / base,
                r == n % base,
        ;
        law_digits_read_back(q, base);
        assert(s.drop_last() =~= digits(q, base));
        assert(s.last() == digit_char(r as int));
        assert(s[0] == digits(q, base)[0]);
    }
}

/// A number with leading zeros is at least as wide as asked for, and stands for the same
/// number.
pub proof fn law_zero_padded(s: Seq<char>, width: nat, base: nat)
    ensures
        zero_padded(s, width).len() == if s.len() >= width {
            s.len()
        } else {
            width
        },
        number_of(zero_padded(s, width), base) == number_of(s, base),
    decreases width - s.len(),
{
    if s.len() < width {
        let longer = seq!['0'] + s;
        lemma_leading_zero(s, base);
        law_zero_padded(longer, width, base);
    }
}

proof fn lemma_leading_zero(s: Seq<char>, base: nat)
    ensures
        number_of(seq!['0'] + s, base) == number_of(s, base),
    decreases s.len(),
{
    let longer = seq!['0'] + s;
    if s.len() == 0 {
        assert(longer.drop_last() =~= Seq::<char>::empty());
        assert(number_of(longer.drop_last(), base) == 0);
        assert(0 * base == 0);
    } else {
        assert(longer.drop_last() =~= seq!['0'] + s.drop_last());
        lemma_leading_zero(s.drop_last(), base);
    }
}

/// What `{:?}` writes of a string: the string in quotes, with what is escaped there.
pub uninterp spec fn debug_text(s: Seq<char>) -> Seq<char>;

/// Calls the `Debug` of a string. The result is named; it depends on the string
/// alone.
#[verifier::external_body]
pub(crate) fn debug_str(s: &str) -> (r: String)
    ensures
        r@ == debug_text(s@),
{
    format!("{:?}", s)
}

} // verus!
