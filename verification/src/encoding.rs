//! Text as bytes: UTF-8, its lossy reading, and percent-encoding.

use vstd::prelude::*;
use vstd::utf8;

verus! {

/// The text that `String::from_utf8_lossy` reads from bytes that are not UTF-8.
pub uninterp spec fn lossy_text(bytes: Seq<u8>) -> Seq<char>;

/// The text that a byte string is shown as: decoded where it is valid UTF-8, and
/// with replacement characters where it is not.
pub open spec fn shown(bytes: Seq<u8>) -> Seq<char> {
    if utf8::valid_utf8(bytes) {
        utf8::decode_utf8(bytes)
    } else {
        lossy_text(bytes)
    }
}

/// `String::from_utf8_lossy`. Its result depends on the bytes alone, and valid
/// UTF-8 is decoded as it stands.
#[verifier::external_body]
pub(crate) fn from_utf8_lossy(bytes: &[u8]) -> (s: String)
    ensures
        s@ == (if utf8::valid_utf8(bytes@) {
            utf8::decode_utf8(bytes@)
        } else {
            lossy_text(bytes@)
        }),
{
    String::from_utf8_lossy(bytes).into_owned()
}

/// `std::str::from_utf8`: succeeds exactly on valid UTF-8, with the text it encodes.
#[verifier::external_body]
pub(crate) fn from_utf8(bytes: &[u8]) -> (r: Option<String>)
    ensures
        match r {
            Some(s) => utf8::valid_utf8(bytes@) && s@ == utf8::decode_utf8(bytes@),
            None => !utf8::valid_utf8(bytes@),
        },
{
    match std::str::from_utf8(bytes) {
        Ok(s) => Some(s.to_string()),
        Err(_) => None,
    }
}

/// The text that `str::to_lowercase` makes of a text.
pub uninterp spec fn lowercase(text: Seq<char>) -> Seq<char>;

/// `str::to_lowercase`. Its result depends on the text alone.
#[verifier::external_body]
pub(crate) fn to_lowercase(text: &str) -> (s: String)
    ensures
        s@ == lowercase(text@),
{
    text.to_lowercase()
}

/// A byte that percent-encoding leaves as it is.
pub open spec fn is_unreserved(b: u8) -> bool {
    ||| 48 <= b <= 57
    ||| 65 <= b <= 90
    ||| 97 <= b <= 122
    ||| b == 45
    ||| b == 46
    ||| b == 95
    ||| b == 126
}

/// The upper-case hexadecimal digit for `d`.
pub open spec fn hex_char(d: int) -> char {
    if d < 10 {
        (48 + d) as char
    } else {
        (55 + d) as char
    }
}

/// One byte, percent-encoded.
pub open spec fn encoded_byte(b: u8) -> Seq<char> {
    if is_unreserved(b) {
        seq![b as char]
    } else {
        seq!['%', hex_char(b as int / 16), hex_char(b as int % 16)]
    }
}

/// Bytes, percent-encoded one by one.
pub open spec fn percent_encoded(bytes: Seq<u8>) -> Seq<char>
    decreases bytes.len(),
{
    if bytes.len() == 0 {
        Seq::empty()
    } else {
        encoded_byte(bytes[0]) + percent_encoded(bytes.drop_first())
    }
}

/// `urlencoding::encode_binary`: percent-encodes bytes, all but letters, digits,
/// `-`, `.`, `_` and `~`, with upper-case hexadecimal digits.
#[verifier::external_body]
pub(crate) fn percent_encode(bytes: &[u8]) -> (s: String)
    ensures
        s@ == percent_encoded(bytes@),
{
    urlencoding::encode_binary(bytes).into_owned()
}

/// The value of a hexadecimal digit in either case.
pub open spec fn hex_value(b: u8) -> Option<int> {
    if 48 <= b <= 57 {
        Some(b - 48)
    } else if 65 <= b <= 70 {
        Some(b - 55)
    } else if 97 <= b <= 102 {
        Some(b - 87)
    } else {
        None
    }
}

/// Bytes with each `%` and two hexadecimal digits replaced by the byte that
/// they spell. A `%` that no two digits follow stands for itself.
pub open spec fn percent_decoded(bytes: Seq<u8>) -> Seq<u8>
    decreases bytes.len(),
{
    if bytes.len() == 0 {
        Seq::empty()
    } else if bytes[0] == 37 && bytes.len() >= 3 && hex_value(bytes[1]) is Some && hex_value(
        bytes[2],
    ) is Some {
        seq![(16 * hex_value(bytes[1])->0 + hex_value(bytes[2])->0) as u8] + percent_decoded(
            bytes.subrange(3, bytes.len() as int),
        )
    } else {
        seq![bytes[0]] + percent_decoded(bytes.drop_first())
    }
}

/// `urlencoding::decode_binary`: replaces `%` and two hexadecimal digits, read
/// from the left, by the byte that they spell, and keeps every other byte.
#[verifier::external_body]
pub(crate) fn percent_decode(bytes: &[u8]) -> (v: Vec<u8>)
    ensures
        v@ == percent_decoded(bytes@),
{
    urlencoding::decode_binary(bytes).into_owned()
}

/// An ASCII character's code.
pub open spec fn ascii_byte(c: char) -> u8 {
    c as u8
}

/// Every character is ASCII.
pub open spec fn all_ascii(s: Seq<char>) -> bool {
    forall|i: int| 0 <= i < s.len() ==> ((#[trigger] s[i]) as int) < 128
}

/// A character's code fits in 32 bits.
proof fn lemma_char_code(c: char)
    ensures
        (c as u32) as int == c as int,
{
}

/// An ASCII character's code fits in a byte.
pub proof fn lemma_ascii_byte(c: char)
    requires
        (c as int) < 128,
    ensures
        ascii_byte(c) as int == c as int,
{
}

/// The UTF-8 encoding of ASCII text is its characters' codes.
pub proof fn lemma_encode_ascii(s: Seq<char>)
    requires
        all_ascii(s),
    ensures
        utf8::encode_utf8(s).len() == s.len(),
        forall|i: int| 0 <= i < s.len() ==> #[trigger] utf8::encode_utf8(s)[i] == ascii_byte(s[i]),
    decreases s.len(),
{
    if s.len() > 0 {
        let c = s[0] as u32;
        lemma_char_code(s[0]);
        assert(c < 128 ==> utf8::leading_byte_width_1(c) == c as u8) by (bit_vector);
        assert(utf8::encode_scalar(c) =~= seq![ascii_byte(s[0])]);
        let rest = s.drop_first();
        assert forall|i: int| 0 <= i < rest.len() implies (#[trigger] rest[i] as int) < 128 by {
            assert(rest[i] == s[i + 1]);
        }
        lemma_encode_ascii(rest);
        assert forall|i: int| 0 <= i < s.len() implies #[trigger] utf8::encode_utf8(s)[i]
            == ascii_byte(s[i]) by {
            if i > 0 {
                assert(utf8::encode_utf8(s)[i] == utf8::encode_utf8(rest)[i - 1]);
                assert(rest[i - 1] == s[i]);
            }
        }
    }
}

/// UTF-8 encodes one piece of text after the other.
pub proof fn lemma_encode_concat(a: Seq<char>, b: Seq<char>)
    ensures
        utf8::encode_utf8(a + b) == utf8::encode_utf8(a) + utf8::encode_utf8(b),
    decreases a.len(),
{
    if a.len() == 0 {
        assert(a + b =~= b);
        assert(utf8::encode_utf8(a) + utf8::encode_utf8(b) =~= utf8::encode_utf8(b));
    } else {
        lemma_encode_concat(a.drop_first(), b);
        assert((a + b).drop_first() =~= a.drop_first() + b);
        assert(utf8::encode_utf8(a + b) =~= utf8::encode_utf8(a) + utf8::encode_utf8(b));
    }
}

/// Percent-encoded text is ASCII and holds no `/`.
pub proof fn lemma_encoded_chars(bytes: Seq<u8>)
    ensures
        all_ascii(percent_encoded(bytes)),
        !percent_encoded(bytes).contains('/'),
    decreases bytes.len(),
{
    let whole = percent_encoded(bytes);
    if bytes.len() > 0 {
        let head = encoded_byte(bytes[0]);
        let rest = percent_encoded(bytes.drop_first());
        lemma_encoded_chars(bytes.drop_first());
        assert forall|i: int| 0 <= i < whole.len() implies (#[trigger] whole[i] as int) < 128
            && whole[i] != '/' by {
            if i >= head.len() {
                assert(whole[i] == rest[i - head.len()]);
                assert(rest.contains(rest[i - head.len()]));
            } else {
                assert(whole[i] == head[i]);
            }
        }
    }
}

/// Decoding gives back what was percent-encoded, and goes on behind it.
pub proof fn lemma_percent_round_trip(bytes: Seq<u8>, rest: Seq<u8>)
    ensures
        percent_decoded(utf8::encode_utf8(percent_encoded(bytes)) + rest) == bytes
            + percent_decoded(rest),
    decreases bytes.len(),
{
    if bytes.len() == 0 {
        assert(utf8::encode_utf8(percent_encoded(bytes)) + rest =~= rest);
        assert(bytes + percent_decoded(rest) =~= percent_decoded(rest));
    } else {
        let head = encoded_byte(bytes[0]);
        let tail = percent_encoded(bytes.drop_first());
        lemma_encode_concat(head, tail);
        assert(all_ascii(head)) by {
            lemma_encoded_chars(seq![bytes[0]]);
            assert(percent_encoded(seq![bytes[0]]) =~= head) by {
                assert(seq![bytes[0]].drop_first() =~= Seq::<u8>::empty());
                assert(percent_encoded(Seq::<u8>::empty()) =~= Seq::<char>::empty());
            }
        }
        lemma_encode_ascii(head);
        let h = utf8::encode_utf8(head);
        let t = utf8::encode_utf8(tail) + rest;
        let whole = utf8::encode_utf8(percent_encoded(bytes)) + rest;
        assert(whole =~= h + t);
        lemma_percent_round_trip(bytes.drop_first(), rest);
        let b = bytes[0];
        if is_unreserved(b) {
            assert(h =~= seq![b]);
            assert(whole.drop_first() =~= t);
        } else {
            assert(h[0] == 37);
            let d1 = b as int / 16;
            let d2 = b as int % 16;
            assert(whole[1] == h[1]);
            assert(whole[2] == h[2]);
            assert(hex_value(h[1]) == Some(d1));
            assert(hex_value(h[2]) == Some(d2));
            assert(whole.subrange(3, whole.len() as int) =~= t);
            assert(16 * d1 + d2 == b);
        }
        assert(percent_decoded(whole) =~= seq![b] + percent_decoded(t));
        assert(bytes =~= seq![b] + bytes.drop_first());
        assert(percent_decoded(whole) =~= bytes + percent_decoded(rest));
    }
}

} // verus!
