//! Unsigned decimal numbers as text: the digits of a number, and the number
//! that a token denotes.

use crate::text::utf8::as_text;
use vstd::prelude::*;
use vstd::string::*;
use vstd::utf8::*;

verus! {

/// Whether `c` is one of `0` to `9`.
pub open spec fn is_digit(c: char) -> bool {
    '0' <= c <= '9'
}

/// The digit character of `d`, for `d` below ten.
pub open spec fn digit_char(d: nat) -> char {
    (0x30 + d) as char
}

/// The number that the digit character `c` stands for.
pub open spec fn digit_value(c: char) -> nat {
    (c as u32 - 0x30) as nat
}

/// Whether every item of `s` is a digit.
pub open spec fn all_digits(s: Seq<char>) -> bool {
    forall|i: int| 0 <= i < s.len() ==> is_digit(#[trigger] s[i])
}

/// The digits of `n`, most significant first; empty for zero.
pub open spec fn digits(n: nat) -> Seq<char>
    decreases n,
{
    if n == 0 {
        Seq::empty()
    } else {
        digits(n / 10).push(digit_char(n % 10))
    }
}

/// The decimal text of `n`: its digits without a sign or leading zeros, and
/// `0` for zero.
pub open spec fn decimal(n: nat) -> Seq<char> {
    if n == 0 {
        seq!['0']
    } else {
        digits(n)
    }
}

/// The number that a string of digits denotes in base ten.
pub open spec fn digits_value(s: Seq<char>) -> nat
    decreases s.len(),
{
    if s.len() == 0 {
        0
    } else {
        digits_value(s.drop_last()) * 10 + digit_value(s.last())
    }
}

/// The number that a token denotes: an optional `+`, then one or more
/// digits. Leading zeros are accepted. `None` for any other token.
pub open spec fn parse_decimal(s: Seq<char>) -> Option<nat> {
    let d = if s.len() > 0 && s[0] == '+' {
        s.drop_first()
    } else {
        s
    };
    if d.len() > 0 && all_digits(d) {
        Some(digits_value(d))
    } else {
        None
    }
}

/// The digits of a number are digits, and denote that number.
pub proof fn lemma_digits(n: nat)
    ensures
        all_digits(digits(n)),
        digits_value(digits(n)) == n,
        n > 0 ==> digits(n).len() > 0,
    decreases n,
{
    if n > 0 {
        lemma_digits(n / 10);
        let s = digits(n);
        assert(s.drop_last() =~= digits(n / 10));
        assert(s.last() == digit_char(n % 10));
        assert forall|i: int| 0 <= i < s.len() implies is_digit(#[trigger] s[i]) by {
            if i < s.len() - 1 {
                assert(s[i] == digits(n / 10)[i]);
            }
        }
    }
}

/// Decimal text is a non-empty string of digits that denotes its number.
pub proof fn lemma_decimal(n: nat)
    ensures
        decimal(n).len() > 0,
        all_digits(decimal(n)),
        parse_decimal(decimal(n)) == Some(n),
{
    lemma_digits(n);
    if n == 0 {
        let s = decimal(n);
        assert(s.drop_last() =~= Seq::<char>::empty());
        reveal_with_fuel(digits_value, 2);
    }
}

/// A string of digits denotes at least what any of its prefixes denotes.
pub proof fn lemma_digits_value_grows(s: Seq<char>, k: int)
    requires
        0 <= k <= s.len(),
    ensures
        digits_value(s.take(k)) <= digits_value(s),
    decreases s.len() - k,
{
    if k == s.len() {
        assert(s.take(k) =~= s);
    } else {
        lemma_digits_value_grows(s.drop_last(), k);
        assert(s.drop_last().take(k) =~= s.take(k));
    }
}

/// The number that the token `chars` denotes, if it denotes one that fits.
pub fn parse_usize(chars: &[char]) -> (r: Option<usize>)
    ensures
        r == match parse_decimal(chars@) {
            Some(n) => if n <= usize::MAX {
                Some(n as usize)
            } else {
                None
            },
            None => None,
        },
{
    let len = chars.len();
    let start: usize = if len > 0 && chars[0] == '+' {
        1
    } else {
        0
    };
    let ghost d = chars@.skip(start as int);
    assert(start == 1 ==> d =~= chars@.drop_first());
    assert(start == 0 ==> d =~= chars@);
    if start == len {
        return None;
    }
    let mut value: usize = 0;
    let mut i: usize = start;
    while i < len
        invariant
            start <= i <= len,
            len == chars@.len(),
            d == chars@.skip(start as int),
            parse_decimal(chars@) == if all_digits(d) {
                Some(digits_value(d))
            } else {
                None
            },
            all_digits(d.take(i - start)),
            value == digits_value(d.take(i - start)),
        decreases len - i,
    {
        let c = chars[i];
        let ghost next = d.take(i - start + 1);
        assert(next.drop_last() =~= d.take(i - start));
        assert(next.last() == c);
        if !('0' <= c && c <= '9') {
            assert(!is_digit(d[i - start]));
            return None;
        }
        let digit: usize = (c as u32 - '0' as u32) as usize;
        proof {
            if all_digits(d) {
                lemma_digits_value_grows(d, i - start + 1);
            }
        }
        match value.checked_mul(10) {
            None => {
                return None;
            },
            Some(shifted) => match shifted.checked_add(digit) {
                None => {
                    return None;
                },
                Some(sum) => {
                    value = sum;
                },
            },
        }
        assert(all_digits(next)) by {
            assert forall|j: int| 0 <= j < next.len() implies is_digit(#[trigger] next[j]) by {
                if j < next.len() - 1 {
                    assert(next[j] == d.take(i - start)[j]);
                }
            }
        }
        i += 1;
    }
    assert(d.take(len - start) =~= d);
    Some(value)
}

/// The decimal text of `n`, as bytes.
pub fn decimal_bytes(n: usize) -> (out: Vec<u8>)
    ensures
        out@ == encode_utf8(decimal(n as nat)),
{
    let mut out: Vec<u8> = Vec::new();
    let ghost mut tail: Seq<char> = Seq::empty();
    if n == 0 {
        out.push(0x30u8);
        proof {
            tail = seq!['0'];
        }
    } else {
        let mut m: usize = n;
        while m > 0
            invariant
                digits(n as nat) == digits(m as nat) + tail,
                out@.len() == tail.len(),
                forall|j: int| 0 <= j < tail.len() ==> is_digit(#[trigger] tail[j]),
                forall|j: int| 0 <= j < tail.len() ==> out@[j] == tail[j] as u8,
            decreases m,
        {
            let d: u8 = (m % 10) as u8;
            let ghost c = digit_char((m % 10) as nat);
            out.insert(0, 0x30u8 + d);
            proof {
                let longer = seq![c] + tail;
                assert(digits(m as nat) =~= digits((m / 10) as nat).push(c));
                assert(digits(m as nat) + tail =~= digits((m / 10) as nat) + longer);
                assert forall|j: int| 0 <= j < longer.len() implies is_digit(
                    #[trigger] longer[j],
                ) && out@[j] == longer[j] as u8 by {
                    if j > 0 {
                        assert(longer[j] == tail[j - 1]);
                    }
                }
                tail = longer;
            }
            m = m / 10;
        }
        assert(digits(0) + tail =~= tail);
    }
    proof {
        assert(tail == decimal(n as nat));
        assert(is_ascii_chars(tail));
        is_ascii_chars_encode_utf8(tail);
        assert(out@ =~= encode_utf8(tail));
    }
    out
}

/// The decimal text of `n`.
pub fn decimal_string(n: usize) -> (text: String)
    ensures
        text@ == decimal(n as nat),
{
    let bytes = decimal_bytes(n);
    proof {
        encode_utf8_valid_utf8(decimal(n as nat));
        encode_utf8_decode_utf8(decimal(n as nat));
    }
    as_text(bytes.as_slice()).unwrap().to_owned()
}

} // verus!
