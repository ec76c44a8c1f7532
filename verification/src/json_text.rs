//! Structured values as JSON text: every field, in the order given, numbers
//! with all the digits of their scale.

use vstd::prelude::*;
use crate::canonical::{canonical_bytes, push_quoted, quoted, separator};
use crate::decimal::{decimal_text, push_decimal};
use crate::json::{fields_view, items_view, lemma_array_view, lemma_object_view, JsonView, Value};

verus! {

/// The JSON text of a value.
pub open spec fn json_bytes(v: JsonView) -> Seq<u8>
    decreases v, 0nat,
{
    match v {
        JsonView::Null => seq![0x6eu8, 0x75u8, 0x6cu8, 0x6cu8],
        JsonView::Bool(b) => if b {
            seq![0x74u8, 0x72u8, 0x75u8, 0x65u8]
        } else {
            seq![0x66u8, 0x61u8, 0x6cu8, 0x73u8, 0x65u8]
        },
        JsonView::Number(mantissa, scale) => decimal_text(mantissa, scale),
        JsonView::Text(s) => quoted(s),
        JsonView::Array(items) => seq![0x5bu8] + items_json(items, items.len()) + seq![0x5du8],
        JsonView::Object(fields) => seq![0x7bu8] + fields_json(fields, fields.len()) + seq![
            0x7du8,
        ],
    }
}

/// The JSON text of the first `n` items of an array, with commas between.
pub open spec fn items_json(items: Seq<JsonView>, n: nat) -> Seq<u8>
    decreases items, n,
{
    if n == 0 || n > items.len() {
        Seq::empty()
    } else {
        items_json(items, (n - 1) as nat) + separator(n) + json_bytes(items[n - 1])
    }
}

/// The JSON text of the first `n` fields of an object, with commas between:
/// of each its name in quotes, a colon, and its value.
pub open spec fn fields_json(fields: Seq<(Seq<char>, JsonView)>, n: nat) -> Seq<u8>
    decreases fields, n,
{
    if n == 0 || n > fields.len() {
        Seq::empty()
    } else {
        fields_json(fields, (n - 1) as nat) + separator(n) + quoted(fields[n - 1].0) + seq![
            0x3au8,
        ] + json_bytes(fields[n - 1].1)
    }
}

/// Appends the JSON text of `v` to `out`.
pub fn write_json(v: &Value, out: &mut Vec<u8>)
    ensures
        final(out)@ == old(out)@ + json_bytes(v@),
    decreases v,
{
    match v {
        Value::Null => {
            out.push(0x6e);
            out.push(0x75);
            out.push(0x6c);
            out.push(0x6c);
            assert(out@ =~= old(out)@ + json_bytes(v@));
        },
        Value::Bool(b) => {
            if *b {
                out.push(0x74);
                out.push(0x72);
                out.push(0x75);
                out.push(0x65);
            } else {
                out.push(0x66);
                out.push(0x61);
                out.push(0x6c);
                out.push(0x73);
                out.push(0x65);
            }
            assert(out@ =~= old(out)@ + json_bytes(v@));
        },
        Value::Number(n) => {
            push_decimal(out, n.mantissa, n.scale);
        },
        Value::Text(s) => {
            push_quoted(out, s.as_str());
        },
        Value::Array(items) => {
            let ghost view = items_view(items@);
            proof {
                lemma_array_view(*items);
            }
            out.push(0x5b);
            let mut i: usize = 0;
            while i < items.len()
                invariant
                    i <= items@.len(),
                    v == Value::Array(*items),
                    view == items_view(items@),
                    out@ == old(out)@ + seq![0x5bu8] + items_json(view, i as nat),
                decreases items@.len() - i,
            {
                let ghost so_far = out@;
                if i > 0 {
                    out.push(0x2c);
                }
                assert(out@ =~= so_far + separator((i + 1) as nat));
                assert(view[i as int] == items@[i as int]@);
                proof {
                    vstd::std_specs::vec::axiom_vec_index_decreases(*items, i as int);
                    assert(decreases_to!(*v => v->Array_0));
                }
                write_json(&items[i], out);
                assert(out@ =~= old(out)@ + seq![0x5bu8] + items_json(view, (i + 1) as nat));
                i += 1;
            }
            out.push(0x5d);
            assert(out@ =~= old(out)@ + json_bytes(v@));
        },
        Value::Object(fields) => {
            let ghost view = fields_view(fields@);
            proof {
                lemma_object_view(*fields);
            }
            out.push(0x7b);
            let mut i: usize = 0;
            while i < fields.len()
                invariant
                    i <= fields@.len(),
                    v == Value::Object(*fields),
                    view == fields_view(fields@),
                    out@ == old(out)@ + seq![0x7bu8] + fields_json(view, i as nat),
                decreases fields@.len() - i,
            {
                let ghost so_far = out@;
                if i > 0 {
                    out.push(0x2c);
                }
                let field = &fields[i];
                assert(view[i as int] == (field.name@, field.value@));
                push_quoted(out, field.name.as_str());
                out.push(0x3a);
                proof {
                    vstd::std_specs::vec::axiom_vec_index_decreases(*fields, i as int);
                    assert(decreases_to!(*v => v->Object_0));
                    assert(decreases_to!(fields@[i as int] => fields@[i as int].value));
                }
                write_json(&field.value, out);
                assert(out@ =~= so_far + separator((i + 1) as nat) + quoted(field.name@) + seq![
                    0x3au8,
                ] + json_bytes(field.value@));
                assert(out@ =~= old(out)@ + seq![0x7bu8] + fields_json(view, (i + 1) as nat));
                i += 1;
            }
            out.push(0x7d);
            assert(out@ =~= old(out)@ + json_bytes(v@));
        },
    }
}

/// The JSON text of `v`.
pub fn json_bytes_of(v: &Value) -> (bytes: Vec<u8>)
    ensures
        bytes@ == json_bytes(v@),
{
    let mut out: Vec<u8> = Vec::new();
    write_json(v, &mut out);
    assert(out@ =~= json_bytes(v@));
    out
}

/// Numbers, text, booleans and null are printed as they are hashed: a
/// number keeps every digit of its scale in print.
pub proof fn lemma_scalars_print_as_hashed(v: JsonView)
    requires
        !(v is Array),
        !(v is Object),
    ensures
        json_bytes(v) == canonical_bytes(v),
{
}

} // verus!
