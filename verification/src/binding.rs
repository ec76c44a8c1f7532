//! The canonical form binds the content: values with the same canonical
//! bytes hold the same content, so that a change of any field that the
//! canonical form writes changes the content hash, unless the digest has a
//! collision.

use vstd::prelude::*;
use crate::canonical::{
    array_body, canonical_bytes, canonical_order, content_hash_text, escape_byte, escape_bytes,
    field_bytes, is_volatile_key, object_body, quoted, separator,
};
use crate::decimal::{is_decimal_byte, lemma_decimal_text_bytes, lemma_decimal_text_injective};
use crate::digest::{collision_exists, digest32, is_collision};
use crate::equivalence::{lemma_canonical_order, same_content};
use crate::hex::lemma_hex_round_trip;
use crate::json::{field_names, last_index, lemma_last_index, JsonView};
use crate::text::{lemma_text_bytes_injective, text_bytes};

verus! {

/// The escaped form of a text is that of its first byte followed by that of
/// the rest.
proof fn lemma_escape_first(s: Seq<u8>)
    requires
        s.len() > 0,
    ensures
        escape_bytes(s) == escape_byte(s[0]) + escape_bytes(s.drop_first()),
    decreases s.len(),
{
    if s.len() == 1 {
        assert(s.drop_last() =~= Seq::<u8>::empty());
        assert(s.drop_first() =~= Seq::<u8>::empty());
        assert(escape_bytes(Seq::<u8>::empty()) =~= Seq::<u8>::empty());
        assert(s.last() == s[0]);
        assert(escape_bytes(s) =~= escape_byte(s[0]));
        assert(escape_byte(s[0]) + escape_bytes(s.drop_first()) =~= escape_byte(s[0]));
    } else {
        lemma_escape_first(s.drop_last());
        assert(s.drop_last().drop_first() =~= s.drop_first().drop_last());
        assert(s.drop_first().last() == s.last());
        assert(s.drop_last()[0] == s[0]);
        assert(escape_bytes(s) =~= escape_byte(s[0]) + escape_bytes(s.drop_first()));
    }
}

/// The escaped form of a byte does not start with a quote, and it tells the
/// byte and where its form ends.
proof fn lemma_escape_byte_prefix(b1: u8, u: Seq<u8>, b2: u8, v: Seq<u8>)
    requires
        escape_byte(b1) + u == escape_byte(b2) + v,
    ensures
        b1 == b2,
        u == v,
        escape_byte(b1).len() > 0,
        escape_byte(b1)[0] != 0x22,
{
    let x = escape_byte(b1) + u;
    let y = escape_byte(b2) + v;
    let e1 = escape_byte(b1);
    let e2 = escape_byte(b2);
    assert(x[0] == e1[0]);
    assert(y[0] == e2[0]);
    if e1[0] == 0x5c {
        assert(x[1] == e1[1]);
        assert(y[1] == e2[1]);
        if e1[1] == 0x75 {
            assert(x[4] == e1[4] && x[5] == e1[5]);
            assert(y[4] == e2[4] && y[5] == e2[5]);
            assert(b1 / 16 == b2 / 16);
            assert(b1 % 16 == b2 % 16);
        }
    }
    assert(b1 == b2);
    assert(u =~= x.subrange(e1.len() as int, x.len() as int));
    assert(v =~= y.subrange(e2.len() as int, y.len() as int));
}

/// The escaped form of a text, closed by a quote, tells the text and where
/// its form ends.
proof fn lemma_escaped_prefix(s: Seq<u8>, r1: Seq<u8>, t: Seq<u8>, r2: Seq<u8>)
    requires
        escape_bytes(s) + seq![0x22u8] + r1 == escape_bytes(t) + seq![0x22u8] + r2,
    ensures
        s == t,
        r1 == r2,
    decreases s.len(),
{
    let x = escape_bytes(s) + seq![0x22u8] + r1;
    let y = escape_bytes(t) + seq![0x22u8] + r2;
    if s.len() == 0 {
        if t.len() > 0 {
            lemma_escape_first(t);
            lemma_escape_byte_prefix(t[0], Seq::empty(), t[0], Seq::empty());
            assert(y[0] == escape_byte(t[0])[0]);
            assert(x[0] == 0x22u8);
        }
        assert(s =~= t);
        assert(r1 =~= x.subrange(1, x.len() as int));
        assert(r2 =~= y.subrange(1, y.len() as int));
    } else if t.len() == 0 {
        lemma_escape_first(s);
        lemma_escape_byte_prefix(s[0], Seq::empty(), s[0], Seq::empty());
        assert(x[0] == escape_byte(s[0])[0]);
        assert(y[0] == 0x22u8);
    } else {
        lemma_escape_first(s);
        lemma_escape_first(t);
        let u = escape_bytes(s.drop_first()) + seq![0x22u8] + r1;
        let v = escape_bytes(t.drop_first()) + seq![0x22u8] + r2;
        assert(x =~= escape_byte(s[0]) + u);
        assert(y =~= escape_byte(t[0]) + v);
        lemma_escape_byte_prefix(s[0], u, t[0], v);
        lemma_escaped_prefix(s.drop_first(), r1, t.drop_first(), r2);
        assert(s =~= seq![s[0]] + s.drop_first());
        assert(t =~= seq![t[0]] + t.drop_first());
    }
}

/// A text in quotes tells the text and where its form ends.
proof fn lemma_quoted_prefix(s: Seq<char>, r1: Seq<u8>, t: Seq<char>, r2: Seq<u8>)
    requires
        quoted(s) + r1 == quoted(t) + r2,
    ensures
        s == t,
        r1 == r2,
{
    let x = quoted(s) + r1;
    let y = quoted(t) + r2;
    let u = escape_bytes(text_bytes(s)) + seq![0x22u8] + r1;
    let v = escape_bytes(text_bytes(t)) + seq![0x22u8] + r2;
    assert(u =~= x.subrange(1, x.len() as int));
    assert(v =~= y.subrange(1, y.len() as int));
    lemma_escaped_prefix(text_bytes(s), r1, text_bytes(t), r2);
    lemma_text_bytes_injective(s, t);
}

/// Whether what follows a value may follow it: nothing, a comma, or the end
/// of an array or of an object.
spec fn ends_value(rest: Seq<u8>) -> bool {
    rest.len() == 0 || rest[0] == 0x2c || rest[0] == 0x5d || rest[0] == 0x7d
}

/// The canonical bytes of a value are not empty, and their first byte tells
/// the kind of the value.
proof fn lemma_first_byte(v: JsonView)
    ensures
        canonical_bytes(v).len() > 0,
        v is Null <==> canonical_bytes(v)[0] == 0x6e,
        v is Bool <==> canonical_bytes(v)[0] == 0x74 || canonical_bytes(v)[0] == 0x66,
        v is Number <==> canonical_bytes(v)[0] == 45 || 48 <= canonical_bytes(v)[0] <= 57,
        v is Text <==> canonical_bytes(v)[0] == 0x22,
        v is Array <==> canonical_bytes(v)[0] == 0x5b,
        v is Object <==> canonical_bytes(v)[0] == 0x7b,
{
    match v {
        JsonView::Number(m, s) => {
            lemma_decimal_text_bytes(m, s);
        },
        _ => {},
    }
}

/// Decimal text ends where a byte follows that it is not made of.
proof fn lemma_decimal_run(a: Seq<u8>, r1: Seq<u8>, b: Seq<u8>, r2: Seq<u8>)
    requires
        a + r1 == b + r2,
        forall|i: int| 0 <= i < a.len() ==> is_decimal_byte(#[trigger] a[i]),
        forall|i: int| 0 <= i < b.len() ==> is_decimal_byte(#[trigger] b[i]),
        ends_value(r1),
        ends_value(r2),
    ensures
        a == b,
        r1 == r2,
{
    let x = a + r1;
    let y = b + r2;
    assert(x.len() == a.len() + r1.len());
    assert(y.len() == b.len() + r2.len());
    if a.len() < b.len() {
        assert(x[a.len() as int] == r1[0]);
        assert(y[a.len() as int] == b[a.len() as int]);
    } else if b.len() < a.len() {
        assert(y[b.len() as int] == r2[0]);
        assert(x[b.len() as int] == a[b.len() as int]);
    }
    assert(a =~= x.subrange(0, a.len() as int));
    assert(b =~= y.subrange(0, b.len() as int));
    assert(r1 =~= x.subrange(a.len() as int, x.len() as int));
    assert(r2 =~= y.subrange(b.len() as int, y.len() as int));
}

/// The items of an array from position `i` on, with commas between.
spec fn items_from(items: Seq<JsonView>, i: int) -> Seq<u8>
    decreases items.len() - i,
{
    if i < 0 || i >= items.len() {
        Seq::empty()
    } else if i == items.len() - 1 {
        canonical_bytes(items[i])
    } else {
        canonical_bytes(items[i]) + seq![0x2cu8] + items_from(items, i + 1)
    }
}

/// The comma between the items before position `n` and those from it on.
spec fn glue(n: int, len: int) -> Seq<u8> {
    if 0 < n < len {
        seq![0x2cu8]
    } else {
        Seq::empty()
    }
}

/// The items of an array are the first `n` of them followed by the rest.
proof fn lemma_items_split(items: Seq<JsonView>, n: int)
    requires
        0 <= n <= items.len(),
    ensures
        array_body(items, items.len()) == array_body(items, n as nat) + glue(
            n,
            items.len() as int,
        ) + items_from(items, n),
    decreases items.len() - n,
{
    let len = items.len() as int;
    if n == len {
        assert(array_body(items, items.len()) =~= array_body(items, n as nat) + glue(n, len)
            + items_from(items, n));
    } else {
        lemma_items_split(items, n + 1);
        assert(array_body(items, (n + 1) as nat) == array_body(items, n as nat) + separator(
            (n + 1) as nat,
        ) + canonical_bytes(items[n]));
        assert(separator((n + 1) as nat) =~= glue(n, len));
        assert(array_body(items, items.len()) =~= array_body(items, n as nat) + glue(n, len)
            + items_from(items, n));
    }
}

/// The listed fields of an object from position `i` of the listing on, with
/// commas between.
spec fn fields_from(fields: Seq<(Seq<char>, JsonView)>, order: Seq<int>, i: int) -> Seq<u8>
    decreases order.len() - i,
{
    if i < 0 || i >= order.len() {
        Seq::empty()
    } else if i == order.len() - 1 {
        field_bytes(fields, order[i])
    } else {
        field_bytes(fields, order[i]) + seq![0x2cu8] + fields_from(fields, order, i + 1)
    }
}

/// The listed fields of an object are the first `n` of them followed by the
/// rest.
proof fn lemma_fields_split(fields: Seq<(Seq<char>, JsonView)>, order: Seq<int>, n: int)
    requires
        0 <= n <= order.len(),
    ensures
        object_body(fields, order, order.len()) == object_body(fields, order, n as nat) + glue(
            n,
            order.len() as int,
        ) + fields_from(fields, order, n),
    decreases order.len() - n,
{
    let len = order.len() as int;
    if n == len {
        assert(object_body(fields, order, order.len()) =~= object_body(fields, order, n as nat)
            + glue(n, len) + fields_from(fields, order, n));
    } else {
        lemma_fields_split(fields, order, n + 1);
        assert(object_body(fields, order, (n + 1) as nat) == object_body(
            fields,
            order,
            n as nat,
        ) + separator((n + 1) as nat) + field_bytes(fields, order[n]));
        assert(separator((n + 1) as nat) =~= glue(n, len));
        assert(object_body(fields, order, order.len()) =~= object_body(fields, order, n as nat)
            + glue(n, len) + fields_from(fields, order, n));
    }
}

/// Every position of the listing names a field.
spec fn in_range(order: Seq<int>, len: int) -> bool {
    forall|k: int| 0 <= k < order.len() ==> 0 <= #[trigger] order[k] < len
}

/// The canonical bytes of a value, followed by what may follow a value, tell
/// the content of the value and where its bytes end.
proof fn lemma_value_prefix(x: JsonView, r1: Seq<u8>, y: JsonView, r2: Seq<u8>)
    requires
        canonical_bytes(x) + r1 == canonical_bytes(y) + r2,
        ends_value(r1),
        ends_value(r2),
    ensures
        same_content(x, y),
        r1 == r2,
    decreases x, 0nat,
{
    let cx = canonical_bytes(x);
    let cy = canonical_bytes(y);
    let a = cx + r1;
    let b = cy + r2;
    lemma_first_byte(x);
    lemma_first_byte(y);
    assert(a[0] == cx[0]);
    assert(b[0] == cy[0]);
    match x {
        JsonView::Null => {
            assert(y is Null);
            assert(r1 =~= a.subrange(4, a.len() as int));
            assert(r2 =~= b.subrange(4, b.len() as int));
        },
        JsonView::Bool(flag) => {
            assert(y is Bool);
            assert(y->Bool_0 == flag);
            assert(r1 =~= a.subrange(cx.len() as int, a.len() as int));
            assert(r2 =~= b.subrange(cy.len() as int, b.len() as int));
        },
        JsonView::Number(m, s) => {
            assert(y is Number);
            lemma_decimal_text_bytes(m, s);
            lemma_decimal_text_bytes(y->Number_0, y->Number_1);
            lemma_decimal_run(cx, r1, cy, r2);
            lemma_decimal_text_injective(m, s, y->Number_0, y->Number_1);
        },
        JsonView::Text(s) => {
            assert(y is Text);
            lemma_quoted_prefix(s, r1, y->Text_0, r2);
        },
        JsonView::Array(items) => {
            assert(y is Array);
            let others = y->Array_0;
            lemma_items_split(items, 0);
            lemma_items_split(others, 0);
            let u = items_from(items, 0) + seq![0x5du8] + r1;
            let v = items_from(others, 0) + seq![0x5du8] + r2;
            assert(u =~= a.subrange(1, a.len() as int));
            assert(v =~= b.subrange(1, b.len() as int));
            lemma_items_prefix(items, 0, r1, others, 0, r2);
            assert forall|i: int| 0 <= i < items.len() implies same_content(
                #[trigger] items[i],
                others[i],
            ) by {
                assert(same_content(items[0 + i], others[0 + i]));
            }
        },
        JsonView::Object(fields) => {
            assert(y is Object);
            let others = y->Object_0;
            let oa = canonical_order(field_names(fields), fields.len());
            let ob = canonical_order(field_names(others), others.len());
            lemma_canonical_order(field_names(fields), fields.len());
            lemma_canonical_order(field_names(others), others.len());
            lemma_fields_split(fields, oa, 0);
            lemma_fields_split(others, ob, 0);
            let u = fields_from(fields, oa, 0) + seq![0x7du8] + r1;
            let v = fields_from(others, ob, 0) + seq![0x7du8] + r2;
            assert(u =~= a.subrange(1, a.len() as int));
            assert(v =~= b.subrange(1, b.len() as int));
            lemma_fields_prefix(fields, oa, 0, r1, others, ob, 0, r2);
            lemma_listing_same_content(fields, others);
        },
    }
}

/// The items of an array from a position on, followed by the end of the
/// array, tell how many they are, the content of each, and where the array
/// ends.
proof fn lemma_items_prefix(
    x: Seq<JsonView>,
    i: int,
    r1: Seq<u8>,
    y: Seq<JsonView>,
    j: int,
    r2: Seq<u8>,
)
    requires
        0 <= i <= x.len(),
        0 <= j <= y.len(),
        items_from(x, i) + seq![0x5du8] + r1 == items_from(y, j) + seq![0x5du8] + r2,
    ensures
        x.len() - i == y.len() - j,
        forall|k: int| 0 <= k < x.len() - i ==> same_content(#[trigger] x[i + k], y[j + k]),
        r1 == r2,
    decreases x, x.len() - i,
{
    let a = items_from(x, i) + seq![0x5du8] + r1;
    let b = items_from(y, j) + seq![0x5du8] + r2;
    if i == x.len() {
        if j < y.len() {
            lemma_first_byte(y[j]);
            assert(b[0] == canonical_bytes(y[j])[0]);
            assert(a[0] == 0x5du8);
        }
        assert(r1 =~= a.subrange(1, a.len() as int));
        assert(r2 =~= b.subrange(1, b.len() as int));
    } else if j == y.len() {
        lemma_first_byte(x[i]);
        assert(a[0] == canonical_bytes(x[i])[0]);
        assert(b[0] == 0x5du8);
    } else {
        let more_x = i < x.len() - 1;
        let more_y = j < y.len() - 1;
        let t1 = (if more_x {
            seq![0x2cu8] + items_from(x, i + 1)
        } else {
            Seq::empty()
        }) + seq![0x5du8] + r1;
        let t2 = (if more_y {
            seq![0x2cu8] + items_from(y, j + 1)
        } else {
            Seq::empty()
        }) + seq![0x5du8] + r2;
        assert(a =~= canonical_bytes(x[i]) + t1);
        assert(b =~= canonical_bytes(y[j]) + t2);
        lemma_value_prefix(x[i], t1, y[j], t2);
        assert(t1[0] == t2[0]);
        assert(more_x == more_y);
        if more_x {
            let u = items_from(x, i + 1) + seq![0x5du8] + r1;
            let v = items_from(y, j + 1) + seq![0x5du8] + r2;
            assert(u =~= t1.subrange(1, t1.len() as int));
            assert(v =~= t2.subrange(1, t2.len() as int));
            lemma_items_prefix(x, i + 1, r1, y, j + 1, r2);
            assert forall|k: int| 0 <= k < x.len() - i implies same_content(
                #[trigger] x[i + k],
                y[j + k],
            ) by {
                if k > 0 {
                    assert(same_content(x[(i + 1) + (k - 1)], y[(j + 1) + (k - 1)]));
                }
            }
        } else {
            assert(r1 =~= t1.subrange(1, t1.len() as int));
            assert(r2 =~= t2.subrange(1, t2.len() as int));
        }
    }
}

/// One field in canonical form, followed by what may follow a value, tells
/// the name and the content of the field and where its bytes end.
proof fn lemma_field_prefix(
    fa: Seq<(Seq<char>, JsonView)>,
    ja: int,
    t1: Seq<u8>,
    fb: Seq<(Seq<char>, JsonView)>,
    jb: int,
    t2: Seq<u8>,
)
    requires
        0 <= ja < fa.len(),
        0 <= jb < fb.len(),
        field_bytes(fa, ja) + t1 == field_bytes(fb, jb) + t2,
        ends_value(t1),
        ends_value(t2),
    ensures
        fa[ja].0 == fb[jb].0,
        same_content(fa[ja].1, fb[jb].1),
        t1 == t2,
    decreases fa, 0nat,
{
    let (na, va) = fa[ja];
    let (nb, vb) = fb[jb];
    let w1 = seq![0x3au8] + canonical_bytes(va) + t1;
    let w2 = seq![0x3au8] + canonical_bytes(vb) + t2;
    assert(field_bytes(fa, ja) + t1 =~= quoted(na) + w1);
    assert(field_bytes(fb, jb) + t2 =~= quoted(nb) + w2);
    lemma_quoted_prefix(na, w1, nb, w2);
    let z1 = canonical_bytes(va) + t1;
    let z2 = canonical_bytes(vb) + t2;
    assert(z1 =~= w1.subrange(1, w1.len() as int));
    assert(z2 =~= w2.subrange(1, w2.len() as int));
    lemma_value_prefix(va, t1, vb, t2);
}

/// A field in canonical form starts with a quote.
proof fn lemma_field_first_byte(fields: Seq<(Seq<char>, JsonView)>, j: int)
    requires
        0 <= j < fields.len(),
    ensures
        field_bytes(fields, j).len() > 0,
        field_bytes(fields, j)[0] == 0x22,
{
}

/// The rest of a listing after one of its fields: a comma and the fields
/// that follow, where any follow, and the end of the object.
spec fn after_field(
    fields: Seq<(Seq<char>, JsonView)>,
    order: Seq<int>,
    i: int,
    rest: Seq<u8>,
) -> Seq<u8> {
    (if i < order.len() - 1 {
        seq![0x2cu8] + fields_from(fields, order, i + 1)
    } else {
        Seq::empty()
    }) + seq![0x7du8] + rest
}

/// The listed fields from a position on are the field at the position and
/// what comes after it.
proof fn lemma_fields_from_step(
    fields: Seq<(Seq<char>, JsonView)>,
    order: Seq<int>,
    i: int,
    rest: Seq<u8>,
)
    requires
        0 <= i < order.len(),
    ensures
        fields_from(fields, order, i) + seq![0x7du8] + rest == field_bytes(fields, order[i])
            + after_field(fields, order, i, rest),
        ends_value(after_field(fields, order, i, rest)),
        i < order.len() - 1 ==> after_field(fields, order, i, rest)[0] == 0x2c && after_field(
            fields,
            order,
            i,
            rest,
        ).subrange(1, after_field(fields, order, i, rest).len() as int) == fields_from(
            fields,
            order,
            i + 1,
        ) + seq![0x7du8] + rest,
        i == order.len() - 1 ==> after_field(fields, order, i, rest)[0] == 0x7d && after_field(
            fields,
            order,
            i,
            rest,
        ).subrange(1, after_field(fields, order, i, rest).len() as int) == rest,
{
    let t = after_field(fields, order, i, rest);
    assert(fields_from(fields, order, i) + seq![0x7du8] + rest =~= field_bytes(fields, order[i])
        + t);
    if i < order.len() - 1 {
        assert(t.subrange(1, t.len() as int) =~= fields_from(fields, order, i + 1) + seq![
            0x7du8,
        ] + rest);
    } else {
        assert(t.subrange(1, t.len() as int) =~= rest);
    }
}

/// The listed fields of an object from a position on, followed by the end of
/// the object, tell how many they are, the name and the content of each, and
/// where the object ends.
proof fn lemma_fields_prefix(
    fa: Seq<(Seq<char>, JsonView)>,
    oa: Seq<int>,
    i: int,
    r1: Seq<u8>,
    fb: Seq<(Seq<char>, JsonView)>,
    ob: Seq<int>,
    j: int,
    r2: Seq<u8>,
)
    requires
        0 <= i <= oa.len(),
        0 <= j <= ob.len(),
        in_range(oa, fa.len() as int),
        in_range(ob, fb.len() as int),
        fields_from(fa, oa, i) + seq![0x7du8] + r1 == fields_from(fb, ob, j) + seq![0x7du8] + r2,
    ensures
        oa.len() - i == ob.len() - j,
        forall|k: int|
            0 <= k < oa.len() - i ==> fa[#[trigger] oa[i + k]].0 == fb[ob[j + k]].0
                && same_content(fa[oa[i + k]].1, fb[ob[j + k]].1),
        r1 == r2,
    decreases fa, oa.len() - i + 1,
{
    let a = fields_from(fa, oa, i) + seq![0x7du8] + r1;
    let b = fields_from(fb, ob, j) + seq![0x7du8] + r2;
    if i == oa.len() {
        if j < ob.len() {
            assert(0 <= ob[j] < fb.len());
            lemma_fields_from_step(fb, ob, j, r2);
            lemma_field_first_byte(fb, ob[j]);
            assert(b[0] == field_bytes(fb, ob[j])[0]);
            assert(a[0] == 0x7du8);
        }
        assert(r1 =~= a.subrange(1, a.len() as int));
        assert(r2 =~= b.subrange(1, b.len() as int));
    } else if j == ob.len() {
        assert(0 <= oa[i] < fa.len());
        lemma_fields_from_step(fa, oa, i, r1);
        lemma_field_first_byte(fa, oa[i]);
        assert(a[0] == field_bytes(fa, oa[i])[0]);
        assert(b[0] == 0x7du8);
    } else {
        assert(0 <= oa[i] < fa.len());
        assert(0 <= ob[j] < fb.len());
        let t1 = after_field(fa, oa, i, r1);
        let t2 = after_field(fb, ob, j, r2);
        lemma_fields_from_step(fa, oa, i, r1);
        lemma_fields_from_step(fb, ob, j, r2);
        lemma_field_prefix(fa, oa[i], t1, fb, ob[j], t2);
        if i < oa.len() - 1 {
            assert(j < ob.len() - 1);
            lemma_fields_prefix(fa, oa, i + 1, r1, fb, ob, j + 1, r2);
            assert forall|k: int| 0 <= k < oa.len() - i implies fa[#[trigger] oa[i + k]].0
                == fb[ob[j + k]].0 && same_content(fa[oa[i + k]].1, fb[ob[j + k]].1) by {
                if k > 0 {
                    assert(oa[(i + 1) + (k - 1)] == oa[i + k]);
                    assert(ob[(j + 1) + (k - 1)] == ob[j + k]);
                }
            }
        } else {
            assert(j == ob.len() - 1);
        }
    }
}

/// Two objects whose canonical listings name the same fields, with the same
/// content, position by position, hold the same content.
proof fn lemma_listing_same_content(
    fa: Seq<(Seq<char>, JsonView)>,
    fb: Seq<(Seq<char>, JsonView)>,
)
    requires
        canonical_order(field_names(fa), fa.len()).len() == canonical_order(
            field_names(fb),
            fb.len(),
        ).len(),
        forall|k: int|
            0 <= k < canonical_order(field_names(fa), fa.len()).len() ==> fa[#[trigger] canonical_order(
                field_names(fa),
                fa.len(),
            )[0 + k]].0 == fb[canonical_order(field_names(fb), fb.len())[0 + k]].0
                && same_content(
                fa[canonical_order(field_names(fa), fa.len())[0 + k]].1,
                fb[canonical_order(field_names(fb), fb.len())[0 + k]].1,
            ),
    ensures
        same_content(JsonView::Object(fa), JsonView::Object(fb)),
{
    let ka = field_names(fa);
    let kb = field_names(fb);
    let oa = canonical_order(ka, fa.len());
    let ob = canonical_order(kb, fb.len());
    lemma_canonical_order(ka, fa.len());
    lemma_canonical_order(kb, fb.len());
    assert forall|k: Seq<char>|
        #![trigger last_index(field_names(fa), k, fa.len())]
        !is_volatile_key(k) implies {
        let ia = last_index(ka, k, fa.len());
        let ib = last_index(kb, k, fb.len());
        &&& (ia >= 0) == (ib >= 0)
        &&& (0 <= ia < fa.len() && 0 <= ib < fb.len()) ==> same_content(fa[ia].1, fb[ib].1)
    } by {
        let ia = last_index(ka, k, fa.len());
        let ib = last_index(kb, k, fb.len());
        lemma_last_index(ka, k, fa.len());
        lemma_last_index(kb, k, fb.len());
        if ia >= 0 {
            assert(oa.contains(ia));
            let p = choose|p: int| 0 <= p < oa.len() && oa[p] == ia;
            assert(fa[oa[0 + p]].0 == fb[ob[0 + p]].0);
            assert(0 <= ob[p] < fb.len());
            assert(kb[ob[p]] == k);
            assert(ob[p] == last_index(kb, kb[ob[p]], fb.len()));
        }
        if ib >= 0 {
            assert(ob.contains(ib));
            let p = choose|p: int| 0 <= p < ob.len() && ob[p] == ib;
            assert(fa[oa[0 + p]].0 == fb[ob[0 + p]].0);
            assert(0 <= oa[p] < fa.len());
            assert(ka[oa[p]] == k);
            assert(oa[p] == last_index(ka, ka[oa[p]], fa.len()));
        }
    }
}

/// Values with the same canonical bytes hold the same content.
pub proof fn lemma_canonical_bytes_bind_content(a: JsonView, b: JsonView)
    requires
        canonical_bytes(a) == canonical_bytes(b),
    ensures
        same_content(a, b),
{
    assert(canonical_bytes(a) + Seq::<u8>::empty() =~= canonical_bytes(a));
    assert(canonical_bytes(b) + Seq::<u8>::empty() =~= canonical_bytes(b));
    lemma_value_prefix(a, Seq::empty(), b, Seq::empty());
}

/// Values with the same content hash hold the same content, unless the
/// digest has a collision: a change of any field that the canonical form
/// writes changes the content hash or exhibits two byte strings with one
/// digest.
pub proof fn lemma_content_hash_binds_content(a: JsonView, b: JsonView)
    requires
        content_hash_text(a) == content_hash_text(b),
    ensures
        same_content(a, b) || collision_exists(),
{
    let da = digest32(canonical_bytes(a));
    let db = digest32(canonical_bytes(b));
    lemma_hex_round_trip(da);
    lemma_hex_round_trip(db);
    assert(da == db);
    if canonical_bytes(a) != canonical_bytes(b) {
        assert(is_collision(canonical_bytes(a), canonical_bytes(b)));
    } else {
        lemma_canonical_bytes_bind_content(a, b);
    }
}

/// A change of the value of a field that the canonical form writes changes
/// the content hash, unless the digest has a collision. The field is one
/// that counts: the last of its name, and not one of those left out.
pub proof fn lemma_changed_field_changes_hash(
    fields: Seq<(Seq<char>, JsonView)>,
    i: int,
    value: JsonView,
)
    requires
        0 <= i < fields.len(),
        !is_volatile_key(fields[i].0),
        last_index(field_names(fields), fields[i].0, fields.len()) == i,
        !same_content(fields[i].1, value),
    ensures
        content_hash_text(JsonView::Object(fields.update(i, (fields[i].0, value))))
            != content_hash_text(JsonView::Object(fields)) || collision_exists(),
{
    let changed = fields.update(i, (fields[i].0, value));
    if content_hash_text(JsonView::Object(changed)) == content_hash_text(JsonView::Object(fields))
        && !collision_exists() {
        lemma_content_hash_binds_content(JsonView::Object(fields), JsonView::Object(changed));
        assert(field_names(changed) =~= field_names(fields));
        let k = fields[i].0;
        assert(last_index(field_names(fields), k, fields.len()) == i);
        assert(same_content(fields[i].1, changed[i].1));
    }
}

} // verus!
