//! The canonical form of a structured value and the content hash over it.
//!
//! In the canonical form the fields of every object stand in ascending order
//! of their names, each name once; arrays keep their order; numbers, text,
//! booleans and null are written as they are; and the three fields that are
//! derived from the content itself are left out.

use vstd::prelude::*;
use vstd::string::StringExecFns;
use crate::decimal::{decimal_text, push_decimal};
use crate::digest::{digest32, hash_bytes, Digest};
use crate::hex::{hex_text, nibble_char};
use crate::text::text_bytes;
use crate::json::{
    field_names, fields_view, items_view, lemma_array_view, lemma_object_view, Field, JsonView,
    Value,
};

verus! {

/// Whether `a` comes strictly before `b` in lexicographic order.
pub open spec fn bytes_less(a: Seq<u8>, b: Seq<u8>) -> bool
    decreases a.len(),
{
    if b.len() == 0 {
        false
    } else if a.len() == 0 {
        true
    } else if a[0] != b[0] {
        a[0] < b[0]
    } else {
        bytes_less(a.drop_first(), b.drop_first())
    }
}

/// Whether the name `a` sorts strictly before the name `b`: by their UTF-8
/// bytes, which is by their code points.
pub open spec fn key_less(a: Seq<char>, b: Seq<char>) -> bool {
    bytes_less(text_bytes(a), text_bytes(b))
}

/// Whether a field of this name is derived from the content and therefore
/// left out of the canonical form.
pub open spec fn is_volatile_key(name: Seq<char>) -> bool {
    name == "content_hash"@ || name == "signature"@ || name == "receipt_id"@
}

/// How one byte of a text is written inside quotes.
pub open spec fn escape_byte(b: u8) -> Seq<u8> {
    if b == 0x22 {
        seq![0x5cu8, 0x22u8]
    } else if b == 0x5c {
        seq![0x5cu8, 0x5cu8]
    } else if b == 0x08 {
        seq![0x5cu8, 0x62u8]
    } else if b == 0x09 {
        seq![0x5cu8, 0x74u8]
    } else if b == 0x0a {
        seq![0x5cu8, 0x6eu8]
    } else if b == 0x0c {
        seq![0x5cu8, 0x66u8]
    } else if b == 0x0d {
        seq![0x5cu8, 0x72u8]
    } else if b < 0x20 {
        seq![
            0x5cu8,
            0x75u8,
            0x30u8,
            0x30u8,
            nibble_char(b as int / 16) as u8,
            nibble_char(b as int % 16) as u8,
        ]
    } else {
        seq![b]
    }
}

/// The bytes of a text with each byte written as inside quotes.
pub open spec fn escape_bytes(s: Seq<u8>) -> Seq<u8>
    decreases s.len(),
{
    if s.len() == 0 {
        Seq::empty()
    } else {
        escape_bytes(s.drop_last()) + escape_byte(s.last())
    }
}

/// A text in quotes.
pub open spec fn quoted(s: Seq<char>) -> Seq<u8> {
    seq![0x22u8] + escape_bytes(text_bytes(s)) + seq![0x22u8]
}

/// How many entries at the head of `order` name a key that sorts before `k`.
pub open spec fn rank(keys: Seq<Seq<char>>, order: Seq<int>, k: Seq<char>) -> int
    decreases order.len(),
{
    if order.len() == 0 {
        0
    } else if key_less(keys[order[0]], k) {
        1 + rank(keys, order.drop_first(), k)
    } else {
        0
    }
}

/// `order` with the field `j` put in its place: in place of an entry of the
/// same name where there is one, and before the first entry of a greater name
/// where there is none.
pub open spec fn place(keys: Seq<Seq<char>>, order: Seq<int>, j: int) -> Seq<int> {
    let p = rank(keys, order, keys[j]);
    if p < order.len() && keys[order[p]] == keys[j] {
        order.update(p, j)
    } else {
        order.insert(p, j)
    }
}

/// The positions of the fields that the canonical form of an object writes,
/// in the order in which it writes them, counting the first `n` fields only.
pub open spec fn canonical_order(keys: Seq<Seq<char>>, n: nat) -> Seq<int>
    decreases n,
{
    if n == 0 {
        Seq::empty()
    } else {
        let prev = canonical_order(keys, (n - 1) as nat);
        if is_volatile_key(keys[n - 1]) {
            prev
        } else {
            place(keys, prev, n - 1)
        }
    }
}

/// A comma before every entry but the first.
pub open spec fn separator(n: nat) -> Seq<u8> {
    if n > 1 {
        seq![0x2cu8]
    } else {
        Seq::empty()
    }
}

/// The canonical bytes of a value.
pub open spec fn canonical_bytes(v: JsonView) -> Seq<u8>
    decreases v, 0nat,
{
    match v {
        JsonView::Null => seq![0x6eu8, 0x75u8, 0x6cu8, 0x6cu8],
        JsonView::Bool(b) => if b {
            seq![0x74u8, 0x72u8, 0x75u8, 0x65u8]
        } else {
            seq![0x66u8, 0x61u8, 0x6cu8, 0x73u8, 0x65u8]
        },
        JsonView::Number(mantissa, scale) => decimal_text(mantissa, scale),
        JsonView::Text(s) => quoted(s),
        JsonView::Array(items) => seq![0x5bu8] + array_body(items, items.len()) + seq![0x5du8],
        JsonView::Object(fields) => {
            let order = canonical_order(field_names(fields), fields.len());
            seq![0x7bu8] + object_body(fields, order, order.len()) + seq![0x7du8]
        },
    }
}

/// The first `n` items of an array in canonical form, with commas between.
pub open spec fn array_body(items: Seq<JsonView>, n: nat) -> Seq<u8>
    decreases items, n,
{
    if n == 0 || n > items.len() {
        Seq::empty()
    } else {
        array_body(items, (n - 1) as nat) + separator(n) + canonical_bytes(items[n - 1])
    }
}

/// One field in canonical form: its name in quotes, a colon, its value.
pub open spec fn field_bytes(fields: Seq<(Seq<char>, JsonView)>, j: int) -> Seq<u8>
    decreases fields, 0nat,
{
    if 0 <= j < fields.len() {
        quoted(fields[j].0) + seq![0x3au8] + canonical_bytes(fields[j].1)
    } else {
        Seq::empty()
    }
}

/// The fields at the first `n` positions of `order` in canonical form, with
/// commas between.
pub open spec fn object_body(fields: Seq<(Seq<char>, JsonView)>, order: Seq<int>, n: nat) -> Seq<
    u8,
>
    decreases fields, n,
{
    if n == 0 || n > order.len() {
        Seq::empty()
    } else {
        object_body(fields, order, (n - 1) as nat) + separator(n) + field_bytes(
            fields,
            order[n - 1],
        )
    }
}

/// Whether `a` comes strictly before `b` in lexicographic order.
fn slice_less(a: &[u8], b: &[u8]) -> (less: bool)
    ensures
        less == bytes_less(a@, b@),
{
    let mut i: usize = 0;
    assert(a@.subrange(0, a@.len() as int) =~= a@);
    assert(b@.subrange(0, b@.len() as int) =~= b@);
    while i < a.len() && i < b.len()
        invariant
            i <= a@.len(),
            i <= b@.len(),
            bytes_less(a@, b@) == bytes_less(
                a@.subrange(i as int, a@.len() as int),
                b@.subrange(i as int, b@.len() as int),
            ),
        decreases a@.len() - i,
    {
        let ghost ra = a@.subrange(i as int, a@.len() as int);
        let ghost rb = b@.subrange(i as int, b@.len() as int);
        assert(ra[0] == a@[i as int] && rb[0] == b@[i as int]);
        if a[i] != b[i] {
            return a[i] < b[i];
        }
        assert(ra.drop_first() =~= a@.subrange(i as int + 1, a@.len() as int));
        assert(rb.drop_first() =~= b@.subrange(i as int + 1, b@.len() as int));
        i += 1;
    }
    i < b.len()
}

/// Whether the name `a` sorts strictly before the name `b`.
pub fn name_less(a: &str, b: &str) -> (less: bool)
    ensures
        less == key_less(a@, b@),
{
    slice_less(a.as_bytes(), b.as_bytes())
}

/// Whether a field of this name is left out of the canonical form.
pub fn is_volatile(name: &String) -> (volatile: bool)
    ensures
        volatile == is_volatile_key(name@),
{
    let content_hash = String::from_str("content_hash");
    let signature = String::from_str("signature");
    let receipt_id = String::from_str("receipt_id");
    *name == content_hash || *name == signature || *name == receipt_id
}

/// Appends the two-character escape that ends in `letter`.
fn push_short_escape(out: &mut Vec<u8>, letter: u8)
    ensures
        final(out)@ == old(out)@ + seq![0x5cu8, letter],
{
    out.push(0x5c);
    out.push(letter);
    assert(out@ =~= old(out)@ + seq![0x5cu8, letter]);
}

/// The ASCII code of the lower-case hexadecimal digit for a value below 16.
fn nibble_code(n: u8) -> (c: u8)
    requires
        n < 16,
    ensures
        c == nibble_char(n as int) as u8,
{
    if n < 10 {
        48 + n
    } else {
        87 + n
    }
}

/// Appends one byte of a text as it is written inside quotes.
fn push_escaped(out: &mut Vec<u8>, b: u8)
    ensures
        final(out)@ == old(out)@ + escape_byte(b),
{
    if b == 0x22 {
        push_short_escape(out, 0x22);
    } else if b == 0x5c {
        push_short_escape(out, 0x5c);
    } else if b == 0x08 {
        push_short_escape(out, 0x62);
    } else if b == 0x09 {
        push_short_escape(out, 0x74);
    } else if b == 0x0a {
        push_short_escape(out, 0x6e);
    } else if b == 0x0c {
        push_short_escape(out, 0x66);
    } else if b == 0x0d {
        push_short_escape(out, 0x72);
    } else if b < 0x20 {
        out.push(0x5c);
        out.push(0x75);
        out.push(0x30);
        out.push(0x30);
        out.push(nibble_code(b / 16));
        out.push(nibble_code(b % 16));
        assert(out@ =~= old(out)@ + escape_byte(b));
    } else {
        out.push(b);
        assert(out@ =~= old(out)@ + escape_byte(b));
    }
}

/// Appends a text in quotes.
pub fn push_quoted(out: &mut Vec<u8>, text: &str)
    ensures
        final(out)@ == old(out)@ + quoted(text@),
{
    let bytes = text.as_bytes();
    out.push(0x22);
    let mut i: usize = 0;
    while i < bytes.len()
        invariant
            i <= bytes@.len(),
            bytes@ == text_bytes(text@),
            out@ == old(out)@ + seq![0x22u8] + escape_bytes(bytes@.subrange(0, i as int)),
        decreases bytes@.len() - i,
    {
        let ghost done = bytes@.subrange(0, i as int + 1);
        assert(done.drop_last() =~= bytes@.subrange(0, i as int));
        assert(done.last() == bytes@[i as int]);
        push_escaped(out, bytes[i]);
        assert(out@ =~= old(out)@ + seq![0x22u8] + escape_bytes(done));
        i += 1;
    }
    assert(bytes@.subrange(0, i as int) =~= bytes@);
    out.push(0x22);
    assert(out@ =~= old(out)@ + quoted(text@));
}

/// The names of a sequence of fields.
pub open spec fn names_of(fields: Seq<Field>) -> Seq<Seq<char>> {
    Seq::new(fields.len(), |i: int| fields[i].name@)
}

/// Positions as mathematical integers.
pub open spec fn positions(order: Seq<usize>) -> Seq<int> {
    Seq::new(order.len(), |i: int| order[i] as int)
}

/// The positions of the fields that the canonical form writes, in the order
/// in which it writes them.
fn canonical_order_of(fields: &Vec<Field>) -> (order: Vec<usize>)
    ensures
        positions(order@) == canonical_order(names_of(fields@), fields@.len()),
        forall|i: int| 0 <= i < order@.len() ==> (#[trigger] order@[i]) < fields@.len(),
{
    let ghost keys = names_of(fields@);
    let mut order: Vec<usize> = Vec::new();
    let mut n: usize = 0;
    assert(positions(order@) =~= canonical_order(keys, 0));
    while n < fields.len()
        invariant
            n <= fields@.len(),
            keys == names_of(fields@),
            positions(order@) == canonical_order(keys, n as nat),
            forall|i: int| 0 <= i < order@.len() ==> (#[trigger] order@[i]) < n,
        decreases fields@.len() - n,
    {
        if !is_volatile(&fields[n].name) {
            let ghost before = positions(order@);
            let mut p: usize = 0;
            assert(before.subrange(0, before.len() as int) =~= before);
            loop
                invariant_except_break
                    p <= order@.len(),
                    rank(keys, before, keys[n as int]) == p + rank(
                        keys,
                        before.subrange(p as int, before.len() as int),
                        keys[n as int],
                    ),
                invariant
                    n < fields@.len(),
                    keys == names_of(fields@),
                    before == positions(order@),
                    forall|i: int| 0 <= i < order@.len() ==> (#[trigger] order@[i]) < n,
                ensures
                    p <= order@.len(),
                    rank(keys, before, keys[n as int]) == p,
                decreases order@.len() - p,
            {
                let ghost rest = before.subrange(p as int, before.len() as int);
                if p >= order.len() {
                    break;
                }
                assert(rest[0] == order@[p as int] as int);
                assert(keys[rest[0]] == fields@[order@[p as int] as int].name@);
                if !name_less(fields[order[p]].name.as_str(), fields[n].name.as_str()) {
                    break;
                }
                assert(rest.drop_first() =~= before.subrange(p as int + 1, before.len() as int));
                p += 1;
            }
            if p < order.len() && fields[order[p]].name == fields[n].name {
                order.set(p, n);
                assert(positions(order@) =~= before.update(p as int, n as int));
            } else {
                order.insert(p, n);
                assert(positions(order@) =~= before.insert(p as int, n as int));
            }
            assert(positions(order@) == place(keys, before, n as int));
        }
        n += 1;
    }
    order
}

/// Appends the canonical bytes of `v` to `out`.
pub fn write_canonical(v: &Value, out: &mut Vec<u8>)
    ensures
        final(out)@ == old(out)@ + canonical_bytes(v@),
    decreases v,
{
    match v {
        Value::Null => {
            out.push(0x6e);
            out.push(0x75);
            out.push(0x6c);
            out.push(0x6c);
            assert(out@ =~= old(out)@ + canonical_bytes(v@));
        },
        Value::Bool(b) => {
            if *b {
                out.push(0x74);
                out.push(0x72);
                out.push(0x75);
                out.push(0x65);
            } else {
                out.push(0x66);
                out.push(0x61);
                out.push(0x6c);
                out.push(0x73);
                out.push(0x65);
            }
            assert(out@ =~= old(out)@ + canonical_bytes(v@));
        },
        Value::Number(n) => {
            push_decimal(out, n.mantissa, n.scale);
        },
        Value::Text(s) => {
            push_quoted(out, s.as_str());
        },
        Value::Array(items) => {
            let ghost view = items_view(items@);
            proof {
                lemma_array_view(*items);
            }
            out.push(0x5b);
            let mut i: usize = 0;
            while i < items.len()
                invariant
                    i <= items@.len(),
                    v == Value::Array(*items),
                    view == items_view(items@),
                    out@ == old(out)@ + seq![0x5bu8] + array_body(view, i as nat),
                decreases items@.len() - i,
            {
                let ghost so_far = out@;
                if i > 0 {
                    out.push(0x2c);
                }
                assert(out@ =~= so_far + separator((i + 1) as nat));
                assert(view[i as int] == items@[i as int]@);
                proof {
                    vstd::std_specs::vec::axiom_vec_index_decreases(*items, i as int);
                    assert(decreases_to!(*v => v->Array_0));
                }
                write_canonical(&items[i], out);
                assert(out@ =~= old(out)@ + seq![0x5bu8] + array_body(view, (i + 1) as nat));
                i += 1;
            }
            out.push(0x5d);
            assert(out@ =~= old(out)@ + canonical_bytes(v@));
        },
        Value::Object(fields) => {
            let ghost view = fields_view(fields@);
            proof {
                lemma_object_view(*fields);
            }
            let order = canonical_order_of(fields);
            assert(field_names(view) =~= names_of(fields@));
            let ghost listed = positions(order@);
            out.push(0x7b);
            let mut i: usize = 0;
            while i < order.len()
                invariant
                    i <= order@.len(),
                    v == Value::Object(*fields),
                    view == fields_view(fields@),
                    listed == positions(order@),
                    forall|k: int| 0 <= k < order@.len() ==> (#[trigger] order@[k]) < fields@.len(),
                    out@ == old(out)@ + seq![0x7bu8] + object_body(view, listed, i as nat),
                decreases order@.len() - i,
            {
                let ghost so_far = out@;
                if i > 0 {
                    out.push(0x2c);
                }
                assert(out@ =~= so_far + separator((i + 1) as nat));
                let field = &fields[order[i]];
                let ghost j = order@[i as int] as int;
                assert(listed[i as int] == j);
                assert(view[j] == (field.name@, field.value@));
                let ghost with_comma = out@;
                push_quoted(out, field.name.as_str());
                out.push(0x3a);
                proof {
                    vstd::std_specs::vec::axiom_vec_index_decreases(*fields, j);
                    assert(decreases_to!(*v => v->Object_0));
                    assert(decreases_to!(fields@[j] => fields@[j].value));
                }
                write_canonical(&field.value, out);
                assert(out@ =~= with_comma + field_bytes(view, j));
                assert(out@ =~= old(out)@ + seq![0x7bu8] + object_body(
                    view,
                    listed,
                    (i + 1) as nat,
                ));
                i += 1;
            }
            out.push(0x7d);
            assert(out@ =~= old(out)@ + canonical_bytes(v@));
        },
    }
}

/// The canonical bytes of `v`.
pub fn canonical_bytes_of(v: &Value) -> (bytes: Vec<u8>)
    ensures
        bytes@ == canonical_bytes(v@),
{
    let mut out: Vec<u8> = Vec::new();
    write_canonical(v, &mut out);
    assert(out@ =~= canonical_bytes(v@));
    out
}

/// The content hash of a value: the digest of its canonical bytes.
pub open spec fn content_digest_of(v: JsonView) -> Seq<u8> {
    digest32(canonical_bytes(v))
}

/// The content hash of a value as 64 lower-case hexadecimal digits.
pub open spec fn content_hash_text(v: JsonView) -> Seq<char> {
    hex_text(content_digest_of(v))
}

/// The content hash of `v`.
pub fn content_digest(v: &Value) -> (d: Digest)
    ensures
        d@ == content_digest_of(v@),
{
    let bytes = canonical_bytes_of(v);
    hash_bytes(bytes.as_slice())
}

/// The content hash of `v` as 64 lower-case hexadecimal digits.
pub fn content_hash(v: &Value) -> (text: String)
    ensures
        text@ == content_hash_text(v@),
        text@.len() == 64,
{
    content_digest(v).to_hex()
}

} // verus!
