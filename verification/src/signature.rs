//! Signatures that bind a content hash to a tenant.
//!
//! The scheme in use is a placeholder: it derives the signature from the
//! content hash and the tenant alone, so it binds the two together and proves
//! nothing about who signed. A real scheme takes its place by implementing
//! `SignatureScheme`.

use vstd::prelude::*;
use crate::digest::{digest32, hash_bytes};
use crate::hex::hex_text;
use crate::text::{push_text, text_bytes, text_eq};

verus! {

/// A way to sign a content hash for a tenant and to check such a signature.
pub trait SignatureScheme: Sized {
    /// The signature that the scheme accepts for a content hash and a tenant.
    spec fn signature_of(&self, content_hash: Seq<char>, tenant_id: Seq<char>) -> Seq<char>;

    /// The signature for a content hash and a tenant.
    fn sign(&self, content_hash: &str, tenant_id: &str) -> (signature: String)
        ensures
            signature@ == self.signature_of(content_hash@, tenant_id@),
    ;

    /// Whether `signature` is the signature for the content hash and tenant.
    fn verify(&self, signature: &str, content_hash: &str, tenant_id: &str) -> (accepted: bool)
        ensures
            accepted == (signature@ == self.signature_of(content_hash@, tenant_id@)),
    ;
}

/// Whether the scheme accepts `signature` for the content hash and tenant.
pub open spec fn accepts<S: SignatureScheme>(
    scheme: S,
    signature: Seq<char>,
    content_hash: Seq<char>,
    tenant_id: Seq<char>,
) -> bool {
    signature == scheme.signature_of(content_hash, tenant_id)
}

/// The tag that names the placeholder scheme inside what it hashes.
pub open spec fn algorithm_tag() -> Seq<char> {
    "|kyber-1024-stub"@
}

/// The placeholder signature: the digest of the content hash, the tenant and
/// the algorithm tag, one after the other, in hexadecimal.
pub open spec fn stub_signature(content_hash: Seq<char>, tenant_id: Seq<char>) -> Seq<char> {
    hex_text(
        digest32(text_bytes(content_hash) + text_bytes(tenant_id) + text_bytes(algorithm_tag())),
    )
}

/// The placeholder scheme.
#[derive(Clone, Copy, Debug)]
pub struct StubSigner;

impl SignatureScheme for StubSigner {
    open spec fn signature_of(&self, content_hash: Seq<char>, tenant_id: Seq<char>) -> Seq<char> {
        stub_signature(content_hash, tenant_id)
    }

    fn sign(&self, content_hash: &str, tenant_id: &str) -> (signature: String) {
        let mut input: Vec<u8> = Vec::new();
        push_text(&mut input, content_hash);
        push_text(&mut input, tenant_id);
        push_text(&mut input, "|kyber-1024-stub");
        assert(input@ =~= text_bytes(content_hash@) + text_bytes(tenant_id@) + text_bytes(
            algorithm_tag(),
        ));
        hash_bytes(input.as_slice()).to_hex()
    }

    fn verify(&self, signature: &str, content_hash: &str, tenant_id: &str) -> (accepted: bool) {
        let expected = self.sign(content_hash, tenant_id);
        text_eq(signature, expected.as_str())
    }
}

/// The placeholder signature for a content hash and a tenant.
pub fn sign(content_hash: &str, tenant_id: &str) -> (signature: String)
    ensures
        signature@ == stub_signature(content_hash@, tenant_id@),
        signature@.len() == 64,
{
    let signer = StubSigner;
    signer.sign(content_hash, tenant_id)
}

/// Whether `signature` is the placeholder signature for the content hash and
/// tenant.
pub fn verify(signature: &str, content_hash: &str, tenant_id: &str) -> (accepted: bool)
    ensures
        accepted == (signature@ == stub_signature(content_hash@, tenant_id@)),
{
    let signer = StubSigner;
    signer.verify(signature, content_hash, tenant_id)
}

/// A scheme accepts the signature that it makes.
pub proof fn lemma_signature_round_trip<S: SignatureScheme>(
    scheme: S,
    content_hash: Seq<char>,
    tenant_id: Seq<char>,
)
    ensures
        accepts(scheme, scheme.signature_of(content_hash, tenant_id), content_hash, tenant_id),
{
}

/// A scheme rejects a signature in which one character was changed.
pub proof fn lemma_altered_signature_rejected<S: SignatureScheme>(
    scheme: S,
    content_hash: Seq<char>,
    tenant_id: Seq<char>,
    position: int,
    changed: char,
)
    requires
        0 <= position < scheme.signature_of(content_hash, tenant_id).len(),
        changed != scheme.signature_of(content_hash, tenant_id)[position],
    ensures
        !accepts(
            scheme,
            scheme.signature_of(content_hash, tenant_id).update(position, changed),
            content_hash,
            tenant_id,
        ),
{
    let signature = scheme.signature_of(content_hash, tenant_id);
    assert(signature.update(position, changed)[position] != signature[position]);
}

} // verus!
