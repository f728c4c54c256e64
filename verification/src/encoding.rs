//! Bytes and texts in other alphabets.
use crate::text;
use vstd::prelude::*;

verus! {

/// Two lower-case hexadecimal digits per byte.
pub open spec fn hex_text(bytes: Seq<u8>) -> Seq<char>
    decreases bytes.len(),
{
    if bytes.len() == 0 {
        Seq::empty()
    } else {
        hex_text(bytes.drop_last()).push(text::hex_digit(bytes.last() as int / 16)).push(
            text::hex_digit(bytes.last() as int % 16),
        )
    }
}

/// `hex::encode`: two lower-case hexadecimal digits for each byte, in order.
#[verifier::external_body]
pub(crate) fn hex_encode(bytes: &[u8]) -> (s: String)
    ensures
        s@ == hex_text(bytes@),
{
    hex::encode(bytes)
}

/// Whether a byte stands for itself in a percent-encoded text: a letter, a
/// digit, `-`, `.`, `_` or `~`.
pub open spec fn is_unreserved(b: u8) -> bool {
    ||| 0x30 <= b <= 0x39
    ||| 0x41 <= b <= 0x5a
    ||| 0x61 <= b <= 0x7a
    ||| b == 0x2d
    ||| b == 0x2e
    ||| b == 0x5f
    ||| b == 0x7e
}

/// One upper-case hexadecimal digit.
pub open spec fn upper_hex_digit(d: int) -> char {
    if d < 10 {
        ('0' as int + d) as char
    } else {
        ('A' as int + (d - 10)) as char
    }
}

/// A text whose bytes are percent-encoded: an unreserved byte as the
/// character it is, any other as `%` and two upper-case hexadecimal digits.
pub open spec fn percent_text(bytes: Seq<u8>) -> Seq<char>
    decreases bytes.len(),
{
    if bytes.len() == 0 {
        Seq::empty()
    } else {
        let b = bytes.last();
        let before = percent_text(bytes.drop_last());
        if is_unreserved(b) {
            before.push(b as char)
        } else {
            before.push('%').push(upper_hex_digit(b as int / 16)).push(
                upper_hex_digit(b as int % 16),
            )
        }
    }
}

/// `urlencoding::encode`: the UTF-8 bytes of a text, percent-encoded.
#[verifier::external_body]
pub(crate) fn url_encode(s: &str) -> (r: String)
    ensures
        r@ == percent_text(vstd::utf8::encode_utf8(s@)),
{
    urlencoding::encode(s).into_owned()
}

/// Hexadecimal is twice as long as the bytes it writes.
pub proof fn hex_is_two_digits_per_byte(bytes: Seq<u8>)
    ensures
        hex_text(bytes).len() == 2 * bytes.len(),
    decreases bytes.len(),
{
    if bytes.len() > 0 {
        hex_is_two_digits_per_byte(bytes.drop_last());
    }
}

/// The sixteen digits of a byte's halves.
pub open spec fn is_half(c: char, d: int, upper: bool) -> bool {
    &&& 0 <= d <= 9 ==> c as int == 0x30 + d
    &&& 10 <= d <= 15 && !upper ==> c as int == 0x61 + d - 10
    &&& 10 <= d <= 15 && upper ==> c as int == 0x41 + d - 10
}

/// In hexadecimal each byte is two digits, in lower case, its higher half
/// first, in the order of the bytes.
pub proof fn each_byte_is_written_in_its_place(bytes: Seq<u8>, i: int)
    requires
        0 <= i < bytes.len(),
    ensures
        hex_text(bytes).len() == 2 * bytes.len(),
        is_half(hex_text(bytes)[2 * i], bytes[i] as int / 16, false),
        is_half(hex_text(bytes)[2 * i + 1], bytes[i] as int % 16, false),
    decreases bytes.len(),
{
    hex_is_two_digits_per_byte(bytes);
    let front = bytes.drop_last();
    hex_is_two_digits_per_byte(front);
    if i < bytes.len() - 1 {
        each_byte_is_written_in_its_place(front, i);
        assert(hex_text(bytes)[2 * i] == hex_text(front)[2 * i]);
        assert(hex_text(bytes)[2 * i + 1] == hex_text(front)[2 * i + 1]);
    } else {
        let b = bytes.last();
        assert(hex_text(bytes)[2 * i] == text::hex_digit(b as int / 16));
        assert(hex_text(bytes)[2 * i + 1] == text::hex_digit(b as int % 16));
    }
}

/// What is percent-encoded is so byte by byte.
pub proof fn bytes_are_encoded_one_by_one(a: Seq<u8>, b: Seq<u8>)
    ensures
        percent_text(a + b) == percent_text(a) + percent_text(b),
    decreases b.len(),
{
    if b.len() == 0 {
        assert(a + b =~= a);
        assert(percent_text(a) + percent_text(b) =~= percent_text(a));
    } else {
        assert((a + b).drop_last() =~= a + b.drop_last());
        bytes_are_encoded_one_by_one(a, b.drop_last());
        assert(percent_text(a + b) =~= percent_text(a) + percent_text(b));
    }
}

/// The letters and digits of ASCII and `-`, `.`, `_` and `~` stand for
/// themselves; any other byte is a `%` and two digits, in upper case, its
/// higher half first.
pub proof fn a_byte_stands_for_itself_or_is_escaped(b: u8)
    ensures
        ({
            let plain = 0x30 <= b <= 0x39 || 0x41 <= b <= 0x5a || 0x61 <= b <= 0x7a || b == 0x2d
                || b == 0x2e || b == 0x5f || b == 0x7e;
            let s = percent_text(seq![b]);
            &&& plain ==> s.len() == 1 && s[0] as int == b
            &&& !plain ==> s.len() == 3 && s[0] == '%' && is_half(s[1], b as int / 16, true)
                && is_half(s[2], b as int % 16, true)
        }),
{
    assert(seq![b].drop_last() =~= Seq::empty());
    assert(percent_text(Seq::empty()) =~= Seq::empty());
}

} // verus!
