//! Stamping a receipt with its identity and checking the stamp.
//!
//! A stamp is three fields derived from the rest of the receipt: the content
//! hash, the receipt id made from it, and the signature that binds the content
//! hash to the tenant. None of them reaches the canonical form, so the content
//! hash of a stamped receipt is the one that it carries.

use vstd::prelude::*;
use vstd::slice::slice_subrange;
use vstd::string::StringExecFns;
use crate::canonical::{
    canonical_bytes, content_digest, content_hash, content_hash_text, is_volatile_key,
};
use crate::equivalence::{lemma_derived_field_ignored, lemma_derived_values_ignored};
use crate::hex::{encode_hex, hex_text};
use crate::json::{
    field_names, fields_view, last_index, lemma_last_index, lemma_last_index_prefix,
    lemma_object_view, lookup, Field, JsonView, Value,
};
use crate::signature::{accepts, SignatureScheme};
use crate::text::text_eq;

verus! {

/// The fields with the last field named `name` given the value `value`, or
/// with such a field added at the end where there was none.
pub open spec fn with_field(
    fields: Seq<(Seq<char>, JsonView)>,
    name: Seq<char>,
    value: JsonView,
) -> Seq<(Seq<char>, JsonView)> {
    let i = last_index(field_names(fields), name, fields.len());
    if i >= 0 {
        fields.update(i, (name, value))
    } else {
        fields.push((name, value))
    }
}

/// After a field was set, it holds what it was set to, and every field of
/// another name holds what it held.
pub proof fn lemma_with_field_lookup(
    fields: Seq<(Seq<char>, JsonView)>,
    name: Seq<char>,
    value: JsonView,
    other: Seq<char>,
)
    ensures
        lookup(JsonView::Object(with_field(fields, name, value)), name) == Some(value),
        other != name ==> lookup(JsonView::Object(with_field(fields, name, value)), other)
            == lookup(JsonView::Object(fields), other),
{
    let names = field_names(fields);
    let after = with_field(fields, name, value);
    let after_names = field_names(after);
    let i = last_index(names, name, fields.len());
    lemma_last_index(names, name, fields.len());
    if i >= 0 {
        assert(after_names =~= names);
    } else {
        assert(after_names =~= names.push(name));
        lemma_last_index_push(names, name, other);
    }
    lemma_last_index(names, other, fields.len());
}

/// How a name added at the end moves the last field of each name.
proof fn lemma_last_index_push(names: Seq<Seq<char>>, name: Seq<char>, other: Seq<char>)
    ensures
        last_index(names.push(name), name, names.len() + 1) == names.len(),
        other != name ==> last_index(names.push(name), other, names.len() + 1) == last_index(
            names,
            other,
            names.len(),
        ),
{
    lemma_last_index_prefix(names.push(name), names, other, names.len());
}

/// Setting a field that the canonical form leaves out does not change the
/// canonical bytes.
pub proof fn lemma_with_derived_field(
    fields: Seq<(Seq<char>, JsonView)>,
    name: Seq<char>,
    value: JsonView,
)
    requires
        is_volatile_key(name),
    ensures
        canonical_bytes(JsonView::Object(with_field(fields, name, value))) == canonical_bytes(
            JsonView::Object(fields),
        ),
{
    let names = field_names(fields);
    let i = last_index(names, name, fields.len());
    lemma_last_index(names, name, fields.len());
    if i >= 0 {
        lemma_derived_values_ignored(with_field(fields, name, value), fields);
    } else {
        lemma_derived_field_ignored(fields, name, value);
    }
}

/// Gives the last field named `name` the value `value`, or adds such a field
/// at the end where there is none.
pub fn set_field(fields: &mut Vec<Field>, name: &str, value: Value)
    ensures
        fields_view(final(fields)@) == with_field(fields_view(old(fields)@), name@, value@),
{
    let ghost before = fields_view(fields@);
    let ghost names = field_names(before);
    let mut n: usize = fields.len();
    while n > 0
        invariant
            n <= fields@.len(),
            fields@ == old(fields)@,
            before == fields_view(fields@),
            names == field_names(before),
            last_index(names, name@, fields@.len() as nat) == last_index(names, name@, n as nat),
        decreases n,
    {
        assert(names[n - 1] == fields@[n - 1].name@);
        if text_eq(fields[n - 1].name.as_str(), name) {
            fields.set(n - 1, Field::new(name, value));
            assert(fields_view(fields@) =~= before.update(n - 1, (name@, value@)));
            return ;
        }
        n -= 1;
    }
    fields.push(Field::new(name, value));
    assert(fields_view(fields@) =~= before.push((name@, value@)));
}

/// The receipt id made from a content hash: `receipt-` and the first 32
/// digits of the hash.
pub open spec fn receipt_id_text(content_hash: Seq<char>) -> Seq<char> {
    "receipt-"@ + content_hash.subrange(0, 32)
}

/// The fields of a receipt with its stamp set: content hash, receipt id and
/// signature for the tenant.
pub open spec fn stamped_fields<S: SignatureScheme>(
    scheme: S,
    fields: Seq<(Seq<char>, JsonView)>,
    tenant_id: Seq<char>,
) -> Seq<(Seq<char>, JsonView)> {
    let hash = content_hash_text(JsonView::Object(fields));
    with_field(
        with_field(
            with_field(fields, "content_hash"@, JsonView::Text(hash)),
            "receipt_id"@,
            JsonView::Text(receipt_id_text(hash)),
        ),
        "signature"@,
        JsonView::Text(scheme.signature_of(hash, tenant_id)),
    )
}

/// Whether the receipt carries its own content hash.
pub open spec fn hash_is_current(receipt: JsonView) -> bool {
    lookup(receipt, "content_hash"@) == Some(JsonView::Text(content_hash_text(receipt)))
}

/// Whether the receipt carries a signature that the scheme accepts for the
/// content hash and the tenant that it carries.
pub open spec fn signature_is_valid<S: SignatureScheme>(scheme: S, receipt: JsonView) -> bool {
    &&& lookup(receipt, "content_hash"@) matches Some(JsonView::Text(hash))
    &&& lookup(receipt, "tenant_id"@) matches Some(JsonView::Text(tenant))
    &&& lookup(receipt, "signature"@) matches Some(JsonView::Text(signature))
    &&& accepts(scheme, signature, hash, tenant)
}

/// The three names of the stamp differ from each other and from the name of
/// the tenant field.
proof fn lemma_stamp_names()
    ensures
        "content_hash"@ != "receipt_id"@,
        "content_hash"@ != "signature"@,
        "receipt_id"@ != "signature"@,
        "tenant_id"@ != "content_hash"@,
        "tenant_id"@ != "receipt_id"@,
        "tenant_id"@ != "signature"@,
{
    reveal_strlit("content_hash");
    reveal_strlit("receipt_id");
    reveal_strlit("signature");
    reveal_strlit("tenant_id");
    assert("content_hash"@[0] == 'c');
    assert("receipt_id"@[0] == 'r');
    assert("signature"@[0] == 's');
    assert("tenant_id"@[0] == 't');
}

/// A stamped receipt has the content hash that it had before, carries that
/// hash, and carries a signature that the scheme accepts, where it names its
/// tenant.
pub proof fn lemma_stamp<S: SignatureScheme>(
    scheme: S,
    fields: Seq<(Seq<char>, JsonView)>,
    tenant_id: Seq<char>,
)
    ensures
        content_hash_text(JsonView::Object(stamped_fields(scheme, fields, tenant_id)))
            == content_hash_text(JsonView::Object(fields)),
        hash_is_current(JsonView::Object(stamped_fields(scheme, fields, tenant_id))),
        lookup(JsonView::Object(fields), "tenant_id"@) == Some(JsonView::Text(tenant_id))
            ==> signature_is_valid(
            scheme,
            JsonView::Object(stamped_fields(scheme, fields, tenant_id)),
        ),
{
    let hash = content_hash_text(JsonView::Object(fields));
    let first = with_field(fields, "content_hash"@, JsonView::Text(hash));
    let second = with_field(first, "receipt_id"@, JsonView::Text(receipt_id_text(hash)));
    let signature = scheme.signature_of(hash, tenant_id);
    let third = with_field(second, "signature"@, JsonView::Text(signature));
    lemma_stamp_names();
    lemma_with_derived_field(fields, "content_hash"@, JsonView::Text(hash));
    lemma_with_derived_field(first, "receipt_id"@, JsonView::Text(receipt_id_text(hash)));
    lemma_with_derived_field(second, "signature"@, JsonView::Text(signature));
    lemma_with_field_lookup(fields, "content_hash"@, JsonView::Text(hash), "tenant_id"@);
    lemma_with_field_lookup(
        first,
        "receipt_id"@,
        JsonView::Text(receipt_id_text(hash)),
        "content_hash"@,
    );
    lemma_with_field_lookup(
        first,
        "receipt_id"@,
        JsonView::Text(receipt_id_text(hash)),
        "tenant_id"@,
    );
    lemma_with_field_lookup(second, "signature"@, JsonView::Text(signature), "content_hash"@);
    lemma_with_field_lookup(second, "signature"@, JsonView::Text(signature), "tenant_id"@);
    assert(third == stamped_fields(scheme, fields, tenant_id));
}

/// What the fields of a stamped receipt hold: the three fields of the stamp
/// hold the content hash, the receipt id made from it and the signature, and
/// every field of another name holds what it held.
pub proof fn lemma_stamped_lookup<S: SignatureScheme>(
    scheme: S,
    fields: Seq<(Seq<char>, JsonView)>,
    tenant_id: Seq<char>,
    name: Seq<char>,
)
    ensures
        lookup(JsonView::Object(stamped_fields(scheme, fields, tenant_id)), "content_hash"@)
            == Some(JsonView::Text(content_hash_text(JsonView::Object(fields)))),
        lookup(JsonView::Object(stamped_fields(scheme, fields, tenant_id)), "receipt_id"@) == Some(
            JsonView::Text(receipt_id_text(content_hash_text(JsonView::Object(fields)))),
        ),
        lookup(JsonView::Object(stamped_fields(scheme, fields, tenant_id)), "signature"@) == Some(
            JsonView::Text(
                scheme.signature_of(content_hash_text(JsonView::Object(fields)), tenant_id),
            ),
        ),
        name != "content_hash"@ && name != "receipt_id"@ && name != "signature"@ ==> lookup(
            JsonView::Object(stamped_fields(scheme, fields, tenant_id)),
            name,
        ) == lookup(JsonView::Object(fields), name),
{
    let hash = content_hash_text(JsonView::Object(fields));
    let first = with_field(fields, "content_hash"@, JsonView::Text(hash));
    let id = JsonView::Text(receipt_id_text(hash));
    let second = with_field(first, "receipt_id"@, id);
    let signature = JsonView::Text(scheme.signature_of(hash, tenant_id));
    let third = with_field(second, "signature"@, signature);
    lemma_stamp_names();
    lemma_with_field_lookup(fields, "content_hash"@, JsonView::Text(hash), name);
    lemma_with_field_lookup(first, "receipt_id"@, id, name);
    lemma_with_field_lookup(first, "receipt_id"@, id, "content_hash"@);
    lemma_with_field_lookup(second, "signature"@, signature, name);
    lemma_with_field_lookup(second, "signature"@, signature, "content_hash"@);
    lemma_with_field_lookup(second, "signature"@, signature, "receipt_id"@);
    assert(third == stamped_fields(scheme, fields, tenant_id));
}

/// Why a receipt could not be stamped.
#[derive(Clone, Copy, Debug, PartialEq, Eq, Structural)]
pub enum StampError {
    /// The value is not an object.
    NotAnObject,
    /// The object has no text field `tenant_id`.
    MissingTenant,
}

/// The hexadecimal text of the first bytes is the start of the hexadecimal
/// text of them all.
proof fn lemma_hex_prefix(bytes: Seq<u8>, n: int)
    requires
        0 <= n <= bytes.len(),
    ensures
        hex_text(bytes.subrange(0, n)) == hex_text(bytes).subrange(0, 2 * n),
{
    assert(hex_text(bytes.subrange(0, n)) =~= hex_text(bytes).subrange(0, 2 * n));
}

/// What stamping a value gives: the stamped receipt, or why there is none.
pub open spec fn stamp_outcome<S: SignatureScheme>(scheme: S, receipt: JsonView) -> Result<
    JsonView,
    StampError,
> {
    match receipt {
        JsonView::Object(fields) => match lookup(receipt, "tenant_id"@) {
            Some(JsonView::Text(tenant)) => Ok(
                JsonView::Object(stamped_fields(scheme, fields, tenant)),
            ),
            _ => Err(StampError::MissingTenant),
        },
        _ => Err(StampError::NotAnObject),
    }
}

/// Stamps a receipt for a tenant: sets its content hash, the receipt id
/// made from it and the signature of `scheme` for the tenant. A value that is
/// not an object is handed back as it is.
pub fn stamp_for<S: SignatureScheme>(receipt: Value, tenant_id: &str, scheme: &S) -> (stamped:
    Value)
    ensures
        stamped@ == (match receipt@ {
            JsonView::Object(fields) => JsonView::Object(
                stamped_fields(*scheme, fields, tenant_id@),
            ),
            other => other,
        }),
{
    let digest = content_digest(&receipt);
    let hash = digest.to_hex();
    let short = encode_hex(slice_subrange(digest.bytes.as_slice(), 0, 16));
    proof {
        lemma_hex_prefix(digest@, 16);
    }
    let id = String::from_str("receipt-").concat(short.as_str());
    assert(id@ == receipt_id_text(hash@));
    let signature = scheme.sign(hash.as_str(), tenant_id);
    match receipt {
        Value::Object(fields) => {
            let mut fields = fields;
            proof {
                lemma_object_view(fields);
            }
            set_field(&mut fields, "content_hash", Value::Text(hash));
            set_field(&mut fields, "receipt_id", Value::Text(id));
            set_field(&mut fields, "signature", Value::Text(signature));
            proof {
                lemma_object_view(fields);
            }
            Value::Object(fields)
        },
        other => other,
    }
}

/// Stamps a receipt for the tenant that it names. Fails on a value that is
/// not an object, and on one without a text field `tenant_id`.
pub fn stamp<S: SignatureScheme>(receipt: Value, scheme: &S) -> (r: Result<Value, StampError>)
    ensures
        match r {
            Ok(stamped) => stamp_outcome(*scheme, receipt@) == Ok::<JsonView, StampError>(
                stamped@,
            ),
            Err(e) => stamp_outcome(*scheme, receipt@) == Err::<JsonView, StampError>(e),
        },
{
    let tenant = match &receipt {
        Value::Object(_) => match receipt.get("tenant_id") {
            Some(tenant) => match tenant.as_text() {
                Some(t) => String::from_str(t),
                None => {
                    return Err(StampError::MissingTenant);
                },
            },
            None => {
                return Err(StampError::MissingTenant);
            },
        },
        _ => {
            return Err(StampError::NotAnObject);
        },
    };
    Ok(stamp_for(receipt, tenant.as_str(), scheme))
}

/// Whether the receipt carries its own content hash.
pub fn check_content_hash(receipt: &Value) -> (current: bool)
    ensures
        current == hash_is_current(receipt@),
{
    match receipt.get("content_hash") {
        Some(stored) => match stored.as_text() {
            Some(text) => {
                let expected = content_hash(receipt);
                text_eq(text, expected.as_str())
            },
            None => false,
        },
        None => false,
    }
}

/// Whether the receipt carries a signature that the scheme accepts for the
/// content hash and the tenant that it carries.
pub fn check_signature<S: SignatureScheme>(receipt: &Value, scheme: &S) -> (valid: bool)
    ensures
        valid == signature_is_valid(*scheme, receipt@),
{
    let hash = match receipt.get("content_hash") {
        Some(v) => match v.as_text() {
            Some(t) => t,
            None => {
                return false;
            },
        },
        None => {
            return false;
        },
    };
    let tenant = match receipt.get("tenant_id") {
        Some(v) => match v.as_text() {
            Some(t) => t,
            None => {
                return false;
            },
        },
        None => {
            return false;
        },
    };
    let signature = match receipt.get("signature") {
        Some(v) => match v.as_text() {
            Some(t) => t,
            None => {
                return false;
            },
        },
        None => {
            return false;
        },
    };
    scheme.verify(signature, hash, tenant)
}

} // verus!
