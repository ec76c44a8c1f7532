//! The 256-bit digest that every other module builds on.

use vstd::prelude::*;
use crate::hex::{decode_hex, encode_hex, hex_bytes, hex_text, is_hex_text};

verus! {

/// The BLAKE3 hash of a byte string, as the bytes of its default output.
pub uninterp spec fn blake3_digest(input: Seq<u8>) -> Seq<u8>;

/// Calls `blake3::hash` and copies out the 32 bytes of the result.
///
/// Trusted: the array returned holds exactly the BLAKE3 hash of `input`,
/// which depends on the bytes of `input` alone.
#[verifier::external_body]
pub(crate) fn blake3_hash(input: &[u8]) -> (out: [u8; 32])
    ensures
        out@ == blake3_digest(input@),
{
    *blake3::hash(input).as_bytes()
}

/// The digest of a byte string: the first 32 bytes of its BLAKE3 hash, which
/// are all of them.
pub open spec fn digest32(input: Seq<u8>) -> Seq<u8> {
    Seq::new(32, |i: int| blake3_digest(input)[i])
}

/// Two different byte strings with the same digest.
pub open spec fn is_collision(x: Seq<u8>, y: Seq<u8>) -> bool {
    x != y && digest32(x) == digest32(y)
}

/// Some pair of byte strings collides under the digest.
pub open spec fn collision_exists() -> bool {
    exists|x: Seq<u8>, y: Seq<u8>| #[trigger] is_collision(x, y)
}

/// A 256-bit digest.
#[derive(Clone, Copy, Debug, PartialEq, Eq, Hash)]
pub struct Digest {
    pub bytes: [u8; 32],
}

impl View for Digest {
    type V = Seq<u8>;

    open spec fn view(&self) -> Seq<u8> {
        self.bytes@
    }
}

impl Digest {
    /// The digest written as 64 hexadecimal digits, and `None` for any other
    /// text.
    pub fn from_hex(text: &str) -> (d: Option<Digest>)
        ensures
            d is Some <==> text@.len() == 64 && is_hex_text(text@),
            d is Some ==> d->Some_0@ == hex_bytes(text@),
    {
        match decode_hex(text) {
            Some(v) => {
                if v.len() != 32 {
                    return None;
                }
                let mut bytes = [0u8; 32];
                let mut i: usize = 0;
                while i < 32
                    invariant
                        i <= 32,
                        v@.len() == 32,
                        forall|j: int| 0 <= j < i ==> bytes@[j] == v@[j],
                    decreases 32 - i,
                {
                    bytes[i] = v[i];
                    i += 1;
                }
                assert(bytes@ =~= v@);
                Some(Digest { bytes })
            },
            None => None,
        }
    }

    /// The digest as 64 lower-case hexadecimal digits.
    pub fn to_hex(&self) -> (text: String)
        ensures
            text@ == hex_text(self@),
            text@.len() == 64,
    {
        encode_hex(self.bytes.as_slice())
    }

    /// Whether two digests hold the same bytes.
    pub fn equals(&self, other: &Digest) -> (same: bool)
        ensures
            same == (self@ == other@),
    {
        let mut i: usize = 0;
        while i < 32
            invariant
                i <= 32,
                forall|j: int| 0 <= j < i ==> self@[j] == other@[j],
            decreases 32 - i,
        {
            if self.bytes[i] != other.bytes[i] {
                return false;
            }
            i += 1;
        }
        assert(self@ =~= other@);
        true
    }
}

/// The digest of `input`.
pub fn hash_bytes(input: &[u8]) -> (d: Digest)
    ensures
        d@ == digest32(input@),
{
    let d = Digest { bytes: blake3_hash(input) };
    assert(d@ =~= digest32(input@));
    d
}

} // verus!
