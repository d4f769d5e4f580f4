//! Bytes as UTF-8 text, and back.

use crate::text::scan::{free_of, lemma_free_of_concat};
use vstd::prelude::*;
use vstd::string::*;
use vstd::utf8::*;

verus! {

/// Encoding distributes over concatenation.
pub proof fn lemma_encode_concat(a: Seq<char>, b: Seq<char>)
    ensures
        encode_utf8(a + b) == encode_utf8(a) + encode_utf8(b),
    decreases a.len(),
{
    if a.len() == 0 {
        assert(a + b =~= b);
        assert(encode_utf8(a) + encode_utf8(b) =~= encode_utf8(b));
    } else {
        lemma_encode_concat(a.drop_first(), b);
        assert((a + b).drop_first() =~= a.drop_first() + b);
        assert((a + b)[0] == a[0]);
        assert(encode_utf8(a + b) =~= encode_utf8(a) + encode_utf8(b));
    }
}

/// The encoding of a single ASCII character is the one byte of its code.
pub proof fn lemma_encode_ascii(c: char)
    requires
        c <= '\u{7f}',
    ensures
        encode_utf8(seq![c]) == seq![c as u8],
{
    let s = seq![c];
    assert(is_ascii_chars(s));
    is_ascii_chars_encode_utf8(s);
    assert(encode_utf8(s) =~= seq![c as u8]);
}

/// No byte of a multi-byte encoding is zero, and the single byte of a
/// one-byte encoding is zero only for the scalar zero.
proof fn lemma_scalar_bytes_nonzero(s: u32)
    by (bit_vector)
    ensures
        s <= 0x7f ==> (leading_byte_width_1(s) == 0 <==> s == 0),
        leading_byte_width_2(s) != 0,
        leading_byte_width_3(s) != 0,
        leading_byte_width_4(s) != 0,
        last_continuation_byte(s) != 0,
        second_last_continuation_byte(s) != 0,
        third_last_continuation_byte(s) != 0,
{
}

/// The encoding of text holds a zero byte exactly when the text holds the
/// NUL character.
pub proof fn lemma_encode_nul(chars: Seq<char>)
    ensures
        free_of(encode_utf8(chars), 0u8) <==> free_of(chars, '\0'),
    decreases chars.len(),
{
    if chars.len() > 0 {
        let c = chars[0];
        let rest = chars.drop_first();
        let first = encode_scalar(c as u32);
        lemma_encode_nul(rest);
        lemma_scalar_bytes_nonzero(c as u32);
        lemma_free_of_concat(first, encode_utf8(rest), 0u8);
        assert(chars =~= seq![c] + rest);
        lemma_free_of_concat(seq![c], rest, '\0');
        assert(free_of(seq![c], '\0') <==> c != '\0') by {
            assert(seq![c][0] == c);
        }
        assert(free_of(first, 0u8) <==> c != '\0') by {
            let s = c as u32;
            char_is_scalar(c);
            char_u32_cast(c, s);
            assert(s == 0 <==> c == '\0');
            if has_width_1_encoding(s) {
                assert(first[0] == leading_byte_width_1(s));
            } else if has_width_2_encoding(s) {
                assert(first[0] == leading_byte_width_2(s));
                assert(first[1] == last_continuation_byte(s));
            } else if has_width_3_encoding(s) {
                assert(first[0] == leading_byte_width_3(s));
                assert(first[1] == second_last_continuation_byte(s));
                assert(first[2] == last_continuation_byte(s));
            } else {
                assert(first[0] == leading_byte_width_4(s));
                assert(first[1] == third_last_continuation_byte(s));
                assert(first[2] == second_last_continuation_byte(s));
                assert(first[3] == last_continuation_byte(s));
            }
        }
    }
}

/// Calls `core::str::from_utf8`.
///
/// Trusted: the call succeeds exactly on well-formed UTF-8, and the string
/// slice it returns has the given bytes as its encoding.
#[verifier::external_body]
fn checked_str<'a>(bytes: &'a [u8]) -> (r: Option<&'a str>)
    ensures
        r is Some <==> valid_utf8(bytes@),
        r matches Some(s) ==> s.spec_bytes() == bytes@,
{
    core::str::from_utf8(bytes).ok()
}

/// The text that `bytes` encodes, or `None` if they are not well-formed
/// UTF-8.
pub fn as_text<'a>(bytes: &'a [u8]) -> (r: Option<&'a str>)
    ensures
        r is Some <==> valid_utf8(bytes@),
        r matches Some(s) ==> s@ == decode_utf8(bytes@),
{
    let r = checked_str(bytes);
    proof {
        if let Some(s) = r {
            encode_utf8_decode_utf8(s@);
        }
    }
    r
}

/// The characters of `s`, in order.
pub fn chars_of(s: &str) -> (v: Vec<char>)
    ensures
        v@ == s@,
{
    let mut v: Vec<char> = Vec::new();
    for c in it: s.chars()
        invariant
            v@ == it.seq().take(it.index() as int),
    {
        v.push(c);
    }
    v
}

/// The characters at positions `from` up to `to` of `s`, as a string.
pub fn substring(s: &str, from: usize, to: usize) -> (r: String)
    requires
        from <= to <= s@.len(),
    ensures
        r@ == s@.subrange(from as int, to as int),
{
    s.substring_char(from, to).to_owned()
}

/// Appends `more` to `out`.
pub fn append(out: &mut Vec<u8>, more: &[u8])
    ensures
        final(out)@ == old(out)@ + more@,
{
    out.extend_from_slice(more);
    assert(out@ =~= old(out)@ + more@);
}

/// Whether `chars` spells `word`.
pub fn spells(chars: &[char], word: &str) -> (b: bool)
    ensures
        b == (chars@ == word@),
{
    let other = chars_of(word);
    if chars.len() != other.len() {
        return false;
    }
    let mut i: usize = 0;
    while i < chars.len()
        invariant
            i <= chars@.len(),
            chars@.len() == other@.len(),
            other@ == word@,
            forall|j: int| 0 <= j < i ==> chars@[j] == other@[j],
        decreases chars@.len() - i,
    {
        if chars[i] != other[i] {
            return false;
        }
        i += 1;
    }
    assert(chars@ =~= other@);
    true
}

} // verus!
