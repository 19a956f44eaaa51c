//! Numbers as decimal text: how a count is written into a column, and how
//! a number is read from an argument.

use crate::text::lemma_chars_le_bytes;
use vstd::prelude::*;

verus! {

/// The character that stands for the digit `d`.
pub open spec fn digit_char(d: nat) -> char
    recommends
        d < 10,
{
    if d == 0 {
        '0'
    } else if d == 1 {
        '1'
    } else if d == 2 {
        '2'
    } else if d == 3 {
        '3'
    } else if d == 4 {
        '4'
    } else if d == 5 {
        '5'
    } else if d == 6 {
        '6'
    } else if d == 7 {
        '7'
    } else if d == 8 {
        '8'
    } else {
        '9'
    }
}

/// `n` in decimal, without sign or leading zeros.
pub open spec fn decimal(n: nat) -> Seq<char>
    decreases n,
{
    if n < 10 {
        seq![digit_char(n)]
    } else {
        decimal(n / 10).push(digit_char(n % 10))
    }
}

/// `n` spaces.
pub open spec fn spaces(n: nat) -> Seq<char> {
    Seq::new(n, |i: int| ' ')
}

/// `s` at the right of a field of at least `width` characters: spaces are
/// put before it until it is `width` long, and a longer `s` is left as it is.
pub open spec fn right_aligned(s: Seq<char>, width: nat) -> Seq<char> {
    if s.len() >= width {
        s
    } else {
        spaces((width - s.len()) as nat) + s
    }
}

fn digit_str(d: u64) -> (s: &'static str)
    requires
        d < 10,
    ensures
        s@ == seq![digit_char(d as nat)],
{
    proof {
        reveal_strlit("0");
        reveal_strlit("1");
        reveal_strlit("2");
        reveal_strlit("3");
        reveal_strlit("4");
        reveal_strlit("5");
        reveal_strlit("6");
        reveal_strlit("7");
        reveal_strlit("8");
        reveal_strlit("9");
    }
    let s = if d == 0 {
        "0"
    } else if d == 1 {
        "1"
    } else if d == 2 {
        "2"
    } else if d == 3 {
        "3"
    } else if d == 4 {
        "4"
    } else if d == 5 {
        "5"
    } else if d == 6 {
        "6"
    } else if d == 7 {
        "7"
    } else if d == 8 {
        "8"
    } else {
        "9"
    };
    assert(s@ =~= seq![digit_char(d as nat)]);
    s
}

/// The number of digits of `n` in decimal.
pub fn decimal_len(n: u64) -> (len: usize)
    ensures
        len == decimal(n as nat).len(),
        1 <= len <= 20,
{
    let mut len: usize = 1;
    let mut rest: u64 = n;
    assert(rest as nat * pow10((len - 1) as nat) <= n) by {
        assert(pow10(0) == 1);
        assert((len - 1) as nat == 0);
        assert(rest as nat * 1 == n);
    }
    while rest >= 10
        invariant
            1 <= len,
            len + decimal(rest as nat).len() == decimal(n as nat).len() + 1,
            len <= 20,
            rest as nat * pow10((len - 1) as nat) <= n,
        decreases rest,
    {
        proof {
            lemma_pow10_step(rest as nat, (len - 1) as nat, n as nat);
        }
        rest = rest / 10;
        len = len + 1;
    }
    len
}

/// Ten to the power `e`.
pub open spec fn pow10(e: nat) -> nat
    decreases e,
{
    if e == 0 {
        1
    } else {
        10 * pow10((e - 1) as nat)
    }
}

proof fn lemma_pow10_step(rest: nat, e: nat, n: nat)
    requires
        rest >= 10,
        rest * pow10(e) <= n,
        n <= u64::MAX,
    ensures
        (rest / 10) * pow10(e + 1) <= n,
        e + 1 < 20,
{
    let q = rest / 10;
    assert(pow10(e + 1) == 10 * pow10(e));
    assert(q * 10 <= rest);
    assert(q * (10 * pow10(e)) == (q * 10) * pow10(e)) by (nonlinear_arith);
    assert((q * 10) * pow10(e) <= rest * pow10(e)) by (nonlinear_arith)
        requires
            q * 10 <= rest,
    ;
    if e + 1 >= 20 {
        lemma_pow10_grows(19, e);
        assert(pow10(19) == 10000000000000000000) by {
            reveal_with_fuel(pow10, 20);
        }
        assert(rest * pow10(e) >= 10 * pow10(19)) by (nonlinear_arith)
            requires
                rest >= 10,
                pow10(e) >= pow10(19),
        ;
    }
}

proof fn lemma_pow10_grows(a: nat, b: nat)
    requires
        a <= b,
    ensures
        pow10(a) <= pow10(b),
        pow10(a) >= 1,
    decreases b,
{
    if a < b {
        lemma_pow10_grows(a, (b - 1) as nat);
    } else if a > 0 {
        lemma_pow10_grows((a - 1) as nat, (a - 1) as nat);
    }
}

/// Writes `n` in decimal at the end of `out`.
pub fn push_decimal(out: &mut String, n: u64)
    ensures
        final(out)@ == old(out)@ + decimal(n as nat),
    decreases n,
{
    if n >= 10 {
        push_decimal(out, n / 10);
    }
    out.append(digit_str(n % 10));
    assert(final(out)@ =~= old(out)@ + decimal(n as nat));
}

/// Writes `n` spaces at the end of `out`.
pub fn push_spaces(out: &mut String, n: usize)
    ensures
        final(out)@ == old(out)@ + spaces(n as nat),
{
    let mut i: usize = 0;
    assert(out@ =~= old(out)@ + spaces(0));
    while i < n
        invariant
            i <= n,
            out@ == old(out)@ + spaces(i as nat),
        decreases n - i,
    {
        proof {
            reveal_strlit(" ");
        }
        out.append(" ");
        i = i + 1;
        assert(out@ =~= old(out)@ + spaces(i as nat));
    }
}

/// Writes `n` in decimal at the end of `out`, at the right of a field of at
/// least `width` characters.
pub fn push_right_aligned(out: &mut String, n: u64, width: usize)
    ensures
        final(out)@ == old(out)@ + right_aligned(decimal(n as nat), width as nat),
{
    let len = decimal_len(n);
    if len < width {
        push_spaces(out, width - len);
    }
    push_decimal(out, n);
    assert(final(out)@ =~= old(out)@ + right_aligned(decimal(n as nat), width as nat));
}

/// Whether `c` is one of the ten decimal digits.
pub open spec fn is_digit(c: char) -> bool {
    0x30 <= c as u32 <= 0x39
}

/// The number that the digit `c` stands for.
pub open spec fn digit_value(c: char) -> nat
    recommends
        is_digit(c),
{
    (c as u32 - 0x30) as nat
}

/// Whether `s` holds decimal digits and nothing else.
pub open spec fn all_digits(s: Seq<char>) -> bool {
    forall|i: int| 0 <= i < s.len() ==> is_digit(#[trigger] s[i])
}

/// The number that the digits `s` spell, the most significant first.
pub open spec fn digits_value(s: Seq<char>) -> nat
    recommends
        all_digits(s),
    decreases s.len(),
{
    if s.len() == 0 {
        0
    } else {
        digits_value(s.drop_last()) * 10 + digit_value(s.last())
    }
}

/// `s` without the plus sign that may stand at its head.
pub open spec fn unsigned_part(s: Seq<char>) -> Seq<char> {
    if s.len() > 0 && s[0] == '+' {
        s.drop_first()
    } else {
        s
    }
}

/// The number that `s` spells, where it spells one that fits in `usize`: an
/// optional plus sign, then one decimal digit or more, and nothing else.
pub open spec fn parsed_usize(s: Seq<char>) -> Option<usize> {
    let d = unsigned_part(s);
    if d.len() > 0 && all_digits(d) && digits_value(d) <= usize::MAX {
        Some(digits_value(d) as usize)
    } else {
        None
    }
}

/// Digits spell no less than any of their prefixes does.
pub proof fn lemma_digits_value_prefix(s: Seq<char>, k: int)
    requires
        0 <= k <= s.len(),
    ensures
        digits_value(s.take(k)) <= digits_value(s),
    decreases s.len(),
{
    if k == s.len() {
        assert(s.take(k) =~= s);
    } else {
        assert(s.drop_last().take(k) =~= s.take(k));
        lemma_digits_value_prefix(s.drop_last(), k);
    }
}

/// Reads the number that `val` spells.
pub fn parse_usize(val: &str) -> (r: Option<usize>)
    ensures
        r == parsed_usize(val@),
{
    let ghost s = val@;
    let ghost d = unsigned_part(s);
    let ghost off: int = if s.len() > 0 && s[0] == '+' {
        1
    } else {
        0
    };
    let mut acc: usize = 0;
    let mut first = true;
    let mut any = false;
    proof {
        assert(d.take(0) =~= Seq::<char>::empty());
    }
    for c in it: val.chars()
        invariant
            it.seq() == s,
            s == val@,
            d == unsigned_part(s),
            off == if s.len() > 0 && s[0] == '+' {
                1int
            } else {
                0int
            },
            first == (it.index() == 0),
            !first ==> it.index() >= off,
            any == (it.index() > off),
            ({
                let k = if it.index() >= off {
                    it.index() - off
                } else {
                    0
                };
                all_digits(d.take(k)) && acc == digits_value(d.take(k))
            }),
    {
        if first && c == '+' {
            first = false;
        } else {
            first = false;
            let ghost k = it.index() - off;
            assert(d[k] == c);
            let u: u32 = c as u32;
            if u < 0x30 || u > 0x39 {
                assert(!is_digit(d[k]));
                return None;
            }
            let v: usize = (u - 0x30) as usize;
            proof {
                assert(d.take(k + 1).drop_last() =~= d.take(k));
                assert(d.take(k + 1).last() == c);
                assert(digits_value(d.take(k + 1)) == acc * 10 + v);
                assert forall|i: int| 0 <= i < d.take(k + 1).len() implies is_digit(
                    #[trigger] d.take(k + 1)[i],
                ) by {
                    if i < k {
                        assert(d.take(k)[i] == d[i]);
                    } else {
                        assert(d.take(k + 1)[i] == c);
                        assert(is_digit(c));
                    }
                }
            }
            if acc > (usize::MAX - v) / 10 {
                proof {
                    if all_digits(d) {
                        lemma_digits_value_prefix(d, k + 1);
                    }
                }
                return None;
            }
            acc = acc * 10 + v;
            any = true;
        }
    }
    proof {
        assert(d.take(d.len() as int) =~= d);
    }
    if any {
        Some(acc)
    } else {
        None
    }
}

} // verus!
