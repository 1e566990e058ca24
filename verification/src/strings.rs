//! Strings as the bytes of their UTF-8 encoding, and the one call that
//! lengthens a string.

use crate::text::sentinel_free;
use vstd::prelude::*;
use vstd::utf8::{encode_scalar, encode_utf8, is_ascii_chars, is_ascii_chars_encode_utf8};

verus! {

/// Appends `c` to `s` with `String::push`.
///
/// Not proved here: that the string afterwards holds the characters that it
/// held before, followed by `c`.
#[verifier::external_body]
pub(crate) fn push_char(s: &mut String, c: char)
    ensures
        final(s)@ == old(s)@.push(c),
{
    s.push(c)
}

/// The encoding of a string with one more character is the encoding of the
/// string followed by the encoding of that character.
pub proof fn lemma_encode_push(chars: Seq<char>, c: char)
    ensures
        encode_utf8(chars.push(c)) == encode_utf8(chars) + encode_scalar(c as u32),
    decreases chars.len(),
{
    if chars.len() == 0 {
        assert(chars.push(c).drop_first() =~= Seq::<char>::empty());
        assert(encode_utf8(Seq::<char>::empty()) =~= Seq::<u8>::empty());
        assert(chars =~= Seq::<char>::empty());
        assert(encode_utf8(chars.push(c)) =~= encode_scalar(c as u32));
        assert(encode_utf8(chars) + encode_scalar(c as u32) =~= encode_scalar(c as u32));
    } else {
        assert(chars.push(c).drop_first() =~= chars.drop_first().push(c));
        lemma_encode_push(chars.drop_first(), c);
        assert(encode_utf8(chars.push(c)) =~= encode_utf8(chars) + encode_scalar(c as u32));
    }
}

/// The character of code 0 is encoded as the single byte 0.
pub proof fn lemma_encode_nul()
    ensures
        encode_scalar('\0' as u32) == seq![0u8],
{
    assert('\0' as u32 == 0u32);
    assert(0u32 & 0x7F == 0u32) by (bit_vector);
    assert(encode_scalar(0u32) =~= seq![0u8]);
}

/// The character of code 0 is not among `chars`.
pub open spec fn has_no_nul(chars: Seq<char>) -> bool {
    forall|i: int| 0 <= i < chars.len() ==> #[trigger] chars[i] != '\0'
}

/// Only the character of code 0 has a byte 0 in its encoding.
pub proof fn lemma_encode_scalar_has_no_nul(c: u32)
    requires
        c != 0,
    ensures
        sentinel_free(encode_scalar(c)),
{
    assert(c <= 0x7F ==> (c & 0x7F) as u8 != 0) by (bit_vector)
        requires
            c != 0,
    ;
    assert(forall|x: u8| 0xC0u8 | x != 0) by (bit_vector);
    assert(forall|x: u8| 0xE0u8 | x != 0) by (bit_vector);
    assert(forall|x: u8| 0xF0u8 | x != 0) by (bit_vector);
    assert(forall|x: u8| 0x80u8 | x != 0) by (bit_vector);
}

/// A string without the character of code 0 has no byte 0 in its encoding.
pub proof fn lemma_encoding_has_no_nul(chars: Seq<char>)
    requires
        has_no_nul(chars),
    ensures
        sentinel_free(encode_utf8(chars)),
    decreases chars.len(),
{
    if chars.len() > 0 {
        assert(chars[0] != '\0');
        assert(chars[0] as u32 != 0) by {
            vstd::utf8::char_u32_cast(chars[0], chars[0] as u32);
            vstd::utf8::char_u32_cast('\0', 0u32);
        }
        lemma_encode_scalar_has_no_nul(chars[0] as u32);
        let rest = chars.drop_first();
        assert forall|i: int| 0 <= i < rest.len() implies #[trigger] rest[i] != '\0' by {
            assert(rest[i] == chars[i + 1]);
        }
        lemma_encoding_has_no_nul(rest);
    }
}

/// The bytes of an ASCII string are below 128.
pub proof fn lemma_ascii_bytes(chars: Seq<char>)
    requires
        is_ascii_chars(chars),
    ensures
        forall|i: int| 0 <= i < encode_utf8(chars).len() ==> #[trigger] encode_utf8(chars)[i] < 128,
{
    is_ascii_chars_encode_utf8(chars);
    assert forall|i: int| 0 <= i < encode_utf8(chars).len() implies #[trigger] encode_utf8(
        chars,
    )[i] < 128 by {
        assert(chars[i] as u8 == encode_utf8(chars)[i]);
    }
}

/// The character of the decimal digit `d`.
pub open spec fn digit_char(d: nat) -> char {
    ((48 + d) as u8) as char
}

/// The decimal numeral of `n`, without leading zeros.
pub open spec fn decimal(n: nat) -> Seq<char>
    decreases n,
{
    if n < 10 {
        seq![digit_char(n)]
    } else {
        decimal(n / 10).push(digit_char(n % 10))
    }
}

/// Appends the decimal numeral of `n` to `out`.
pub fn push_decimal(out: &mut String, n: usize)
    ensures
        final(out)@ == old(out)@ + decimal(n as nat),
    decreases n,
{
    if n >= 10 {
        push_decimal(out, n / 10);
    }
    let digit: u8 = (n % 10) as u8;
    push_char(out, (48 + digit) as char);
    assert(out@ =~= old(out)@ + decimal(n as nat));
}

} // verus!
