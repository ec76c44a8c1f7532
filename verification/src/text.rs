//! Text as characters and as UTF-8 bytes.

use vstd::prelude::*;
use vstd::utf8::{decode_utf8, encode_utf8, encode_utf8_decode_utf8};
use crate::hex::{is_hex_char, is_hex_text};

verus! {

/// The UTF-8 bytes of a text.
pub open spec fn text_bytes(s: Seq<char>) -> Seq<u8> {
    encode_utf8(s)
}

/// Two texts with the same bytes are the same text.
pub proof fn lemma_text_bytes_injective(a: Seq<char>, b: Seq<char>)
    requires
        text_bytes(a) == text_bytes(b),
    ensures
        a == b,
{
    encode_utf8_decode_utf8(a);
    encode_utf8_decode_utf8(b);
    assert(decode_utf8(encode_utf8(a)) == decode_utf8(encode_utf8(b)));
}

/// Whether two byte strings are equal.
pub fn bytes_eq(a: &[u8], b: &[u8]) -> (same: bool)
    ensures
        same == (a@ == b@),
{
    if a.len() != b.len() {
        return false;
    }
    let mut i: usize = 0;
    while i < a.len()
        invariant
            a@.len() == b@.len(),
            i <= a@.len(),
            forall|j: int| 0 <= j < i ==> a@[j] == b@[j],
        decreases a@.len() - i,
    {
        if a[i] != b[i] {
            return false;
        }
        i += 1;
    }
    assert(a@ =~= b@);
    true
}

/// Whether two texts are equal.
pub fn text_eq(a: &str, b: &str) -> (same: bool)
    ensures
        same == (a@ == b@),
{
    let same = bytes_eq(a.as_bytes(), b.as_bytes());
    proof {
        if same {
            lemma_text_bytes_injective(a@, b@);
        }
    }
    same
}

/// Appends the UTF-8 bytes of `text` to `out`.
pub fn push_text(out: &mut Vec<u8>, text: &str)
    ensures
        final(out)@ == old(out)@ + text_bytes(text@),
{
    let bytes = text.as_bytes();
    let mut i: usize = 0;
    while i < bytes.len()
        invariant
            i <= bytes@.len(),
            bytes@ == text_bytes(text@),
            out@ == old(out)@ + bytes@.subrange(0, i as int),
        decreases bytes@.len() - i,
    {
        out.push(bytes[i]);
        assert(out@ =~= old(out)@ + bytes@.subrange(0, i as int + 1));
        i += 1;
    }
    assert(bytes@.subrange(0, i as int) =~= bytes@);
}

/// The bytes of a text all of whose characters are ASCII, one byte per
/// character, and `None` for any other text.
pub fn ascii_bytes(text: &str) -> (bytes: Option<&[u8]>)
    ensures
        bytes is Some <==> vstd::string::is_ascii(text),
        bytes is Some ==> bytes->Some_0@.len() == text@.len() && forall|i: int|
            0 <= i < text@.len() ==> (#[trigger] bytes->Some_0@[i]) as char == text@[i],
{
    if !text.is_ascii() {
        return None;
    }
    let bytes = text.as_bytes();
    proof {
        vstd::string::is_ascii_spec_bytes(text);
    }
    assert(bytes@ =~= Seq::new(text@.len(), |i: int| text@[i] as u8));
    Some(bytes)
}

/// Whether every character of `text` is a hexadecimal digit.
pub fn is_hex_str(text: &str) -> (hex: bool)
    ensures
        hex == is_hex_text(text@),
{
    match ascii_bytes(text) {
        None => {
            proof {
                if is_hex_text(text@) {
                    assert forall|i: int| 0 <= i < text@.len() implies '\0' <= #[trigger] text@[i]
                        <= '\u{7f}' by {
                        assert(is_hex_char(text@[i]));
                    }
                }
            }
            false
        },
        Some(bytes) => {
            let mut i: usize = 0;
            while i < bytes.len()
                invariant
                    i <= bytes@.len(),
                    bytes@.len() == text@.len(),
                    forall|j: int|
                        0 <= j < text@.len() ==> (#[trigger] bytes@[j]) as char == text@[j],
                    forall|j: int| 0 <= j < i ==> is_hex_char(#[trigger] text@[j]),
                decreases bytes@.len() - i,
            {
                let b = bytes[i];
                assert(b as char == text@[i as int]);
                let digit = (48 <= b && b <= 57) || (97 <= b && b <= 102) || (65 <= b && b <= 70);
                if !digit {
                    return false;
                }
                i += 1;
            }
            true
        },
    }
}

} // verus!
