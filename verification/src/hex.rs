//! Hexadecimal text for byte strings: lower case out, either case in.

use vstd::prelude::*;
use vstd::string::StringExecFns;

verus! {

/// The lower-case hexadecimal digit for a value below 16.
pub open spec fn nibble_char(n: int) -> char {
    if n < 10 {
        (48 + n) as u8 as char
    } else {
        (87 + n) as u8 as char
    }
}

/// Whether `c` is one of `0-9`, `a-f`, `A-F`.
pub open spec fn is_hex_char(c: char) -> bool {
    let v = c as int;
    (48 <= v <= 57) || (97 <= v <= 102) || (65 <= v <= 70)
}

/// The value of a hexadecimal digit.
pub open spec fn char_nibble(c: char) -> int {
    let v = c as int;
    if v <= 57 {
        v - 48
    } else if v <= 70 {
        v - 55
    } else {
        v - 87
    }
}

/// Whether every character of `text` is a hexadecimal digit.
pub open spec fn is_hex_text(text: Seq<char>) -> bool {
    forall|i: int| 0 <= i < text.len() ==> is_hex_char(#[trigger] text[i])
}

/// The hexadecimal text of a byte string: two lower-case digits per byte,
/// high half first.
pub open spec fn hex_text(bytes: Seq<u8>) -> Seq<char> {
    Seq::new(
        2 * bytes.len(),
        |i: int|
            if i % 2 == 0 {
                nibble_char(bytes[i / 2] as int / 16)
            } else {
                nibble_char(bytes[i / 2] as int % 16)
            },
    )
}

/// The bytes that a hexadecimal text of even length stands for.
pub open spec fn hex_bytes(text: Seq<char>) -> Seq<u8> {
    Seq::new(
        text.len() / 2,
        |i: int| (char_nibble(text[2 * i]) * 16 + char_nibble(text[2 * i + 1])) as u8,
    )
}

/// Hexadecimal text is made of hexadecimal digits, and reading it back gives
/// the bytes it was written from.
pub proof fn lemma_hex_round_trip(bytes: Seq<u8>)
    ensures
        hex_text(bytes).len() == 2 * bytes.len(),
        is_hex_text(hex_text(bytes)),
        hex_bytes(hex_text(bytes)) == bytes,
{
    let text = hex_text(bytes);
    assert forall|i: int| 0 <= i < text.len() implies is_hex_char(#[trigger] text[i]) by {
        let b = bytes[i / 2] as int;
        assert(0 <= b / 16 < 16 && 0 <= b % 16 < 16);
    }
    assert forall|i: int| 0 <= i < bytes.len() implies hex_bytes(text)[i] == bytes[i] by {
        let b = bytes[i] as int;
        assert(0 <= b / 16 < 16 && 0 <= b % 16 < 16);
        assert(text[2 * i] == nibble_char(b / 16));
        assert(text[2 * i + 1] == nibble_char(b % 16));
        assert(char_nibble(nibble_char(b / 16)) == b / 16);
        assert(char_nibble(nibble_char(b % 16)) == b % 16);
    }
    assert(hex_bytes(text) =~= bytes);
}

/// The one-character text of a hexadecimal digit.
fn nibble_str(n: u8) -> (s: &'static str)
    requires
        n < 16,
    ensures
        s@ == seq![nibble_char(n as int)],
{
    proof {
        reveal_strlit("0");
        reveal_strlit("1");
        reveal_strlit("2");
        reveal_strlit("3");
        reveal_strlit("4");
        reveal_strlit("5");
        reveal_strlit("6");
        reveal_strlit("7");
        reveal_strlit("8");
        reveal_strlit("9");
        reveal_strlit("a");
        reveal_strlit("b");
        reveal_strlit("c");
        reveal_strlit("d");
        reveal_strlit("e");
        reveal_strlit("f");
    }
    let s = if n == 0 {
        "0"
    } else if n == 1 {
        "1"
    } else if n == 2 {
        "2"
    } else if n == 3 {
        "3"
    } else if n == 4 {
        "4"
    } else if n == 5 {
        "5"
    } else if n == 6 {
        "6"
    } else if n == 7 {
        "7"
    } else if n == 8 {
        "8"
    } else if n == 9 {
        "9"
    } else if n == 10 {
        "a"
    } else if n == 11 {
        "b"
    } else if n == 12 {
        "c"
    } else if n == 13 {
        "d"
    } else if n == 14 {
        "e"
    } else {
        "f"
    };
    assert(s@ =~= seq![nibble_char(n as int)]);
    s
}

/// The hexadecimal text of `bytes`.
pub fn encode_hex(bytes: &[u8]) -> (text: String)
    ensures
        text@ == hex_text(bytes@),
{
    let mut text = String::new();
    let mut i: usize = 0;
    while i < bytes.len()
        invariant
            i <= bytes@.len(),
            text@ == hex_text(bytes@.subrange(0, i as int)),
        decreases bytes@.len() - i,
    {
        let b = bytes[i];
        let ghost before = text@;
        text.append(nibble_str(b / 16));
        text.append(nibble_str(b % 16));
        assert(text@ =~= hex_text(bytes@.subrange(0, i as int + 1))) by {
            let done = bytes@.subrange(0, i as int + 1);
            assert(text@.len() == 2 * i + 2);
            assert forall|j: int| 0 <= j < 2 * i + 2 implies text@[j] == hex_text(done)[j] by {
                if j < 2 * i {
                    assert(text@[j] == before[j]);
                    assert(bytes@.subrange(0, i as int)[j / 2] == done[j / 2]);
                } else {
                    assert(done[j / 2] == b);
                }
            }
        }
        i += 1;
    }
    assert(bytes@.subrange(0, i as int) =~= bytes@);
    text
}

/// The value of the hexadecimal digit held in an ASCII byte, if it is one.
fn nibble_of(b: u8) -> (v: Option<u8>)
    ensures
        v is Some <==> is_hex_char(b as char),
        v is Some ==> v->Some_0 as int == char_nibble(b as char),
{
    if 48 <= b && b <= 57 {
        Some(b - 48)
    } else if 97 <= b && b <= 102 {
        Some(b - 87)
    } else if 65 <= b && b <= 70 {
        Some(b - 55)
    } else {
        None
    }
}

/// The bytes that `text` stands for, where it is hexadecimal text of even
/// length, and `None` where it is not.
pub fn decode_hex(text: &str) -> (bytes: Option<Vec<u8>>)
    ensures
        bytes is Some <==> text@.len() % 2 == 0 && is_hex_text(text@),
        bytes is Some ==> bytes->Some_0@ == hex_bytes(text@),
{
    if !text.is_ascii() {
        proof {
            if is_hex_text(text@) {
                assert forall|i: int| 0 <= i < text@.len() implies '\0' <= #[trigger] text@[i]
                    <= '\u{7f}' by {
                    assert(is_hex_char(text@[i]));
                }
            }
        }
        return None;
    }
    let raw = text.as_bytes();
    proof {
        vstd::string::is_ascii_spec_bytes(text);
    }
    assert(raw@ =~= Seq::new(text@.len(), |i: int| text@[i] as u8));
    let n = raw.len();
    if n % 2 != 0 {
        return None;
    }
    let mut out: Vec<u8> = Vec::with_capacity(n / 2);
    let mut i: usize = 0;
    while i < n / 2
        invariant
            n == raw@.len(),
            n == text@.len(),
            n % 2 == 0,
            vstd::string::is_ascii(text),
            raw@ == Seq::new(text@.len(), |i: int| text@[i] as u8),
            i <= n / 2,
            out@.len() == i,
            forall|j: int| 0 <= j < 2 * i ==> is_hex_char(#[trigger] text@[j]),
            forall|j: int| 0 <= j < i ==> out@[j] == hex_bytes(text@)[j],
        decreases n / 2 - i,
    {
        let hi_byte = raw[2 * i];
        let lo_byte = raw[2 * i + 1];
        assert(hi_byte as char == text@[2 * i as int]);
        assert(lo_byte as char == text@[2 * i as int + 1]);
        let hi = nibble_of(hi_byte);
        let lo = nibble_of(lo_byte);
        match (hi, lo) {
            (Some(h), Some(l)) => {
                out.push(h * 16 + l);
            },
            _ => {
                return None;
            },
        }
        i += 1;
    }
    assert(out@ =~= hex_bytes(text@));
    Some(out)
}

} // verus!
