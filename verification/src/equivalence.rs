//! Values that differ only in the order of their fields, or in the fields
//! that are derived from the content, have one canonical form.

use vstd::prelude::*;
use crate::canonical::{
    array_body, bytes_less, canonical_bytes, canonical_order, content_hash_text, field_bytes,
    is_volatile_key, key_less, object_body, place, rank,
};
use crate::text::{lemma_text_bytes_injective, text_bytes};
use crate::json::{
    field_names, last_index, lemma_last_index, lemma_last_index_prefix, JsonView,
};

verus! {

/// No byte string comes before itself.
pub proof fn lemma_bytes_less_irreflexive(a: Seq<u8>)
    ensures
        !bytes_less(a, a),
    decreases a.len(),
{
    if a.len() > 0 {
        lemma_bytes_less_irreflexive(a.drop_first());
    }
}

/// The order on byte strings is transitive.
pub proof fn lemma_bytes_less_transitive(a: Seq<u8>, b: Seq<u8>, c: Seq<u8>)
    requires
        bytes_less(a, b),
        bytes_less(b, c),
    ensures
        bytes_less(a, c),
    decreases a.len(),
{
    if a.len() > 0 && a[0] == b[0] && b[0] == c[0] {
        lemma_bytes_less_transitive(a.drop_first(), b.drop_first(), c.drop_first());
    }
}

/// Of two different byte strings one comes before the other.
pub proof fn lemma_bytes_less_total(a: Seq<u8>, b: Seq<u8>)
    ensures
        a == b || bytes_less(a, b) || bytes_less(b, a),
    decreases a.len(),
{
    if a.len() == 0 || b.len() == 0 {
        if a.len() == 0 && b.len() == 0 {
            assert(a =~= b);
        }
    } else if a[0] == b[0] {
        lemma_bytes_less_total(a.drop_first(), b.drop_first());
        if a.drop_first() == b.drop_first() {
            assert(a =~= seq![a[0]] + a.drop_first());
            assert(b =~= seq![b[0]] + b.drop_first());
        }
    }
}

/// No name sorts before itself.
pub proof fn lemma_key_less_irreflexive(a: Seq<char>)
    ensures
        !key_less(a, a),
{
    lemma_bytes_less_irreflexive(text_bytes(a));
}

/// The order on names is transitive.
pub proof fn lemma_key_less_transitive(a: Seq<char>, b: Seq<char>, c: Seq<char>)
    requires
        key_less(a, b),
        key_less(b, c),
    ensures
        key_less(a, c),
{
    lemma_bytes_less_transitive(text_bytes(a), text_bytes(b), text_bytes(c));
}

/// Of two different names one sorts before the other.
pub proof fn lemma_key_less_total(a: Seq<char>, b: Seq<char>)
    ensures
        a == b || key_less(a, b) || key_less(b, a),
{
    lemma_bytes_less_total(text_bytes(a), text_bytes(b));
    if text_bytes(a) == text_bytes(b) {
        lemma_text_bytes_injective(a, b);
    }
}

/// No name sorts both before and after another.
pub proof fn lemma_key_less_asymmetric(a: Seq<char>, b: Seq<char>)
    requires
        key_less(a, b),
    ensures
        !key_less(b, a),
        a != b,
{
    lemma_key_less_irreflexive(a);
    if key_less(b, a) {
        lemma_key_less_transitive(a, b, a);
    }
}

/// The names at the positions of `order` stand in strictly ascending order.
pub open spec fn ascending(keys: Seq<Seq<char>>, order: Seq<int>) -> bool {
    forall|i: int, j: int|
        0 <= i < j < order.len() ==> key_less(keys[#[trigger] order[i]], keys[#[trigger] order[j]])
}

/// Every position of `order` is that of the last field of its name among the
/// first `n`, and that name is not left out.
pub open spec fn lists_last_fields(keys: Seq<Seq<char>>, order: Seq<int>, n: nat) -> bool {
    forall|i: int|
        0 <= i < order.len() ==> {
            &&& 0 <= #[trigger] order[i] < n
            &&& !is_volatile_key(keys[order[i]])
            &&& order[i] == last_index(keys, keys[order[i]], n)
        }
}

/// Every name among the first `n` fields that is not left out has its last
/// field in `order`.
pub open spec fn lists_every_name(keys: Seq<Seq<char>>, order: Seq<int>, n: nat) -> bool {
    forall|k: Seq<char>|
        !is_volatile_key(k) && #[trigger] last_index(keys, k, n) >= 0 ==> order.contains(
            last_index(keys, k, n),
        )
}

/// `order` is the canonical listing of the first `n` fields: strictly
/// ascending by name, and holding exactly the last field of each name that is
/// not left out.
pub open spec fn is_listing(keys: Seq<Seq<char>>, order: Seq<int>, n: nat) -> bool {
    &&& lists_last_fields(keys, order, n)
    &&& ascending(keys, order)
    &&& lists_every_name(keys, order, n)
}

/// The entries of `order` before the rank of `k` have names before `k`, and
/// the entry at the rank has not.
proof fn lemma_rank(keys: Seq<Seq<char>>, order: Seq<int>, k: Seq<char>)
    ensures
        0 <= rank(keys, order, k) <= order.len(),
        forall|i: int|
            0 <= i < rank(keys, order, k) ==> key_less(keys[#[trigger] order[i]], k),
        rank(keys, order, k) < order.len() ==> !key_less(keys[order[rank(keys, order, k)]], k),
    decreases order.len(),
{
    if order.len() > 0 && key_less(keys[order[0]], k) {
        let rest = order.drop_first();
        lemma_rank(keys, rest, k);
        let p = rank(keys, order, k);
        assert forall|i: int| 0 <= i < p implies key_less(keys[#[trigger] order[i]], k) by {
            if i > 0 {
                assert(order[i] == rest[i - 1]);
            }
        }
        if p < order.len() {
            assert(order[p] == rest[p - 1]);
        }
    }
}

/// Putting one more field in its place keeps a canonical listing canonical.
proof fn lemma_place(keys: Seq<Seq<char>>, prev: Seq<int>, n: nat)
    requires
        1 <= n <= keys.len(),
        !is_volatile_key(keys[n - 1]),
        is_listing(keys, prev, (n - 1) as nat),
    ensures
        is_listing(keys, place(keys, prev, n - 1), n),
{
    let j = n - 1;
    let k = keys[j];
    let p = rank(keys, prev, k);
    let next = place(keys, prev, j);
    lemma_rank(keys, prev, k);
    // Every entry of the listing so far keeps its last field unless it is named `k`.
    assert forall|i: int| 0 <= i < prev.len() && keys[prev[i]] != k implies prev[i] == last_index(
        keys,
        keys[#[trigger] prev[i]],
        n,
    ) by {}
    if p < prev.len() && keys[prev[p]] == k {
        assert forall|i: int| 0 <= i < prev.len() && i != p implies keys[#[trigger] prev[i]]
            != k by {
            if i < p {
                lemma_key_less_asymmetric(keys[prev[i]], keys[prev[p]]);
            } else {
                lemma_key_less_asymmetric(keys[prev[p]], keys[prev[i]]);
            }
        }
        assert forall|i: int| 0 <= i < next.len() implies keys[#[trigger] next[i]] == keys[prev[i]] by {}
        assert(lists_last_fields(keys, next, n)) by {
            assert forall|i: int| 0 <= i < next.len() implies {
                &&& 0 <= #[trigger] next[i] < n
                &&& !is_volatile_key(keys[next[i]])
                &&& next[i] == last_index(keys, keys[next[i]], n)
            } by {
                if i != p {
                    assert(next[i] == prev[i]);
                }
            }
        }
        assert(ascending(keys, next)) by {
            assert forall|a: int, b: int| 0 <= a < b < next.len() implies key_less(
                keys[#[trigger] next[a]],
                keys[#[trigger] next[b]],
            ) by {
                assert(keys[next[a]] == keys[prev[a]]);
                assert(keys[next[b]] == keys[prev[b]]);
            }
        }
        assert(lists_every_name(keys, next, n)) by {
            assert forall|name: Seq<char>|
                !is_volatile_key(name) && #[trigger] last_index(keys, name, n)
                    >= 0 implies next.contains(last_index(keys, name, n)) by {
                if name == k {
                    assert(next[p] == j);
                } else {
                    let li = last_index(keys, name, (n - 1) as nat);
                    lemma_last_index(keys, name, (n - 1) as nat);
                    assert(prev.contains(li));
                    let i = choose|i: int| 0 <= i < prev.len() && prev[i] == li;
                    assert(next[i] == li);
                }
            }
        }
    } else {
        // No entry so far is named `k`; those from the rank on come after `k`.
        assert forall|i: int| p <= i < prev.len() implies key_less(k, keys[#[trigger] prev[i]]) by {
            lemma_key_less_total(k, keys[prev[p]]);
            if i > p {
                lemma_key_less_transitive(k, keys[prev[p]], keys[prev[i]]);
            }
        }
        assert forall|i: int| 0 <= i < prev.len() implies keys[#[trigger] prev[i]] != k by {
            if i < p {
                lemma_key_less_asymmetric(keys[prev[i]], k);
            } else {
                lemma_key_less_asymmetric(k, keys[prev[i]]);
            }
        }
        assert(next.len() == prev.len() + 1);
        assert forall|i: int| 0 <= i < next.len() implies #[trigger] next[i] == (if i < p {
            prev[i]
        } else if i == p {
            j
        } else {
            prev[i - 1]
        }) by {}
        assert(lists_last_fields(keys, next, n)) by {
            assert forall|i: int| 0 <= i < next.len() implies {
                &&& 0 <= #[trigger] next[i] < n
                &&& !is_volatile_key(keys[next[i]])
                &&& next[i] == last_index(keys, keys[next[i]], n)
            } by {
                if i < p {
                    assert(next[i] == prev[i]);
                } else if i > p {
                    assert(next[i] == prev[i - 1]);
                }
            }
        }
        assert(ascending(keys, next)) by {
            assert forall|a: int, b: int| 0 <= a < b < next.len() implies key_less(
                keys[#[trigger] next[a]],
                keys[#[trigger] next[b]],
            ) by {
                if b < p {
                    assert(next[a] == prev[a] && next[b] == prev[b]);
                } else if b == p {
                    assert(next[a] == prev[a]);
                } else if a < p {
                    assert(next[a] == prev[a] && next[b] == prev[b - 1]);
                } else if a == p {
                    assert(next[b] == prev[b - 1]);
                } else {
                    assert(next[a] == prev[a - 1] && next[b] == prev[b - 1]);
                }
            }
        }
        assert(lists_every_name(keys, next, n)) by {
            assert forall|name: Seq<char>|
                !is_volatile_key(name) && #[trigger] last_index(keys, name, n)
                    >= 0 implies next.contains(last_index(keys, name, n)) by {
                if name == k {
                    assert(next[p] == j);
                } else {
                    let li = last_index(keys, name, (n - 1) as nat);
                    assert(prev.contains(li));
                    let i = choose|i: int| 0 <= i < prev.len() && prev[i] == li;
                    if i < p {
                        assert(next[i] == li);
                    } else {
                        assert(next[i + 1] == li);
                    }
                }
            }
        }
    }
}

/// The order in which the canonical form writes the fields of an object is
/// strictly ascending by name and holds exactly the last field of each name
/// that is not left out.
pub proof fn lemma_canonical_order(keys: Seq<Seq<char>>, n: nat)
    requires
        n <= keys.len(),
    ensures
        is_listing(keys, canonical_order(keys, n), n),
    decreases n,
{
    if n > 0 {
        let prev = canonical_order(keys, (n - 1) as nat);
        lemma_canonical_order(keys, (n - 1) as nat);
        if is_volatile_key(keys[n - 1]) {
            assert forall|i: int| 0 <= i < prev.len() implies prev[i] == last_index(
                keys,
                keys[#[trigger] prev[i]],
                n,
            ) by {}
            assert(lists_every_name(keys, prev, n)) by {
                assert forall|name: Seq<char>|
                    !is_volatile_key(name) && #[trigger] last_index(keys, name, n)
                        >= 0 implies prev.contains(last_index(keys, name, n)) by {
                    assert(last_index(keys, name, n) == last_index(keys, name, (n - 1) as nat));
                }
            }
        } else {
            lemma_place(keys, prev, n);
        }
    }
}

/// The names stand in strictly ascending order.
pub open spec fn sorted_names(names: Seq<Seq<char>>) -> bool {
    forall|i: int, j: int| 0 <= i < j < names.len() ==> key_less(names[i], names[j])
}

/// Two strictly ascending sequences of names that hold the same names are
/// the same sequence.
pub proof fn lemma_sorted_names_unique(x: Seq<Seq<char>>, y: Seq<Seq<char>>)
    requires
        sorted_names(x),
        sorted_names(y),
        forall|k: Seq<char>| x.contains(k) <==> y.contains(k),
    ensures
        x == y,
    decreases x.len(),
{
    if x.len() == 0 {
        if y.len() > 0 {
            assert(y.contains(y[0]));
        }
        assert(x =~= y);
    } else {
        assert(x.contains(x[0]));
        assert(y.contains(x[0]));
        let b = choose|b: int| 0 <= b < y.len() && y[b] == x[0];
        assert(y.contains(y[0]));
        let a = choose|a: int| 0 <= a < x.len() && x[a] == y[0];
        if x[0] != y[0] {
            assert(key_less(y[0], y[b]));
            assert(key_less(x[0], x[a]));
            lemma_key_less_asymmetric(x[0], y[0]);
        }
        let xs = x.drop_first();
        let ys = y.drop_first();
        assert forall|k: Seq<char>| xs.contains(k) <==> ys.contains(k) by {
            if xs.contains(k) {
                let i = choose|i: int| 0 <= i < xs.len() && xs[i] == k;
                assert(x[i + 1] == k);
                assert(key_less(x[0], x[i + 1]));
                lemma_key_less_asymmetric(x[0], k);
                assert(y.contains(k));
                let m = choose|m: int| 0 <= m < y.len() && y[m] == k;
                assert(ys[m - 1] == k);
            }
            if ys.contains(k) {
                let i = choose|i: int| 0 <= i < ys.len() && ys[i] == k;
                assert(y[i + 1] == k);
                assert(key_less(y[0], y[i + 1]));
                lemma_key_less_asymmetric(y[0], k);
                assert(x.contains(k));
                let m = choose|m: int| 0 <= m < x.len() && x[m] == k;
                assert(xs[m - 1] == k);
            }
        }
        assert(sorted_names(xs)) by {
            assert forall|i: int, j: int| 0 <= i < j < xs.len() implies key_less(xs[i], xs[j]) by {
                assert(key_less(x[i + 1], x[j + 1]));
            }
        }
        assert(sorted_names(ys)) by {
            assert forall|i: int, j: int| 0 <= i < j < ys.len() implies key_less(ys[i], ys[j]) by {
                assert(key_less(y[i + 1], y[j + 1]));
            }
        }
        lemma_sorted_names_unique(xs, ys);
        assert(x =~= seq![x[0]] + xs);
        assert(y =~= seq![y[0]] + ys);
    }
}

/// Whether two values hold the same content: equal but for the order of the
/// fields of their objects, for fields of a name that a later field of the
/// same object repeats, and for the fields that the canonical form leaves
/// out.
pub open spec fn same_content(a: JsonView, b: JsonView) -> bool
    decreases a,
{
    match a {
        JsonView::Array(x) => {
            &&& b is Array
            &&& x.len() == b->Array_0.len()
            &&& forall|i: int| 0 <= i < x.len() ==> same_content(#[trigger] x[i], b->Array_0[i])
        },
        JsonView::Object(fa) => {
            &&& b is Object
            &&& forall|k: Seq<char>|
                #![trigger last_index(field_names(fa), k, fa.len())]
                !is_volatile_key(k) ==> {
                    let ia = last_index(field_names(fa), k, fa.len());
                    let ib = last_index(field_names(b->Object_0), k, b->Object_0.len());
                    &&& (ia >= 0) == (ib >= 0)
                    &&& (0 <= ia < fa.len() && 0 <= ib < b->Object_0.len()) ==> same_content(
                        fa[ia].1,
                        b->Object_0[ib].1,
                    )
                }
        },
        _ => a == b,
    }
}

/// The names that `order` lists, in its order.
pub open spec fn names_at(keys: Seq<Seq<char>>, order: Seq<int>) -> Seq<Seq<char>> {
    Seq::new(order.len(), |i: int| keys[order[i]])
}

/// Values of the same content have the same canonical bytes.
pub proof fn lemma_same_content(a: JsonView, b: JsonView)
    requires
        same_content(a, b),
    ensures
        canonical_bytes(a) == canonical_bytes(b),
    decreases a, 0nat,
{
    match a {
        JsonView::Array(x) => {
            lemma_same_arrays(x, b->Array_0, x.len());
        },
        JsonView::Object(fa) => {
            let fb = b->Object_0;
            let ka = field_names(fa);
            let kb = field_names(fb);
            let oa = canonical_order(ka, fa.len());
            let ob = canonical_order(kb, fb.len());
            lemma_canonical_order(ka, fa.len());
            lemma_canonical_order(kb, fb.len());
            let sa = names_at(ka, oa);
            let sb = names_at(kb, ob);
            assert forall|k: Seq<char>| sa.contains(k) <==> sb.contains(k) by {
                if sa.contains(k) {
                    let i = choose|i: int| 0 <= i < sa.len() && sa[i] == k;
                    assert(oa[i] == last_index(ka, k, fa.len()));
                    let lb = last_index(kb, k, fb.len());
                    lemma_last_index(kb, k, fb.len());
                    assert(ob.contains(lb));
                    let m = choose|m: int| 0 <= m < ob.len() && ob[m] == lb;
                    assert(sb[m] == k);
                }
                if sb.contains(k) {
                    let i = choose|i: int| 0 <= i < sb.len() && sb[i] == k;
                    assert(ob[i] == last_index(kb, k, fb.len()));
                    let la = last_index(ka, k, fa.len());
                    lemma_last_index(ka, k, fa.len());
                    assert(oa.contains(la));
                    let m = choose|m: int| 0 <= m < oa.len() && oa[m] == la;
                    assert(sa[m] == k);
                }
            }
            assert(sorted_names(sa)) by {
                assert forall|i: int, j: int| 0 <= i < j < sa.len() implies key_less(
                    sa[i],
                    sa[j],
                ) by {
                    assert(key_less(ka[oa[i]], ka[oa[j]]));
                }
            }
            assert(sorted_names(sb)) by {
                assert forall|i: int, j: int| 0 <= i < j < sb.len() implies key_less(
                    sb[i],
                    sb[j],
                ) by {
                    assert(key_less(kb[ob[i]], kb[ob[j]]));
                }
            }
            lemma_sorted_names_unique(sa, sb);
            assert(oa.len() == ob.len());
            assert forall|i: int| 0 <= i < oa.len() implies {
                &&& 0 <= #[trigger] oa[i] < fa.len()
                &&& 0 <= ob[i] < fb.len()
                &&& fa[oa[i]].0 == fb[ob[i]].0
                &&& same_content(fa[oa[i]].1, fb[ob[i]].1)
            } by {
                let k = ka[oa[i]];
                assert(sa[i] == sb[i]);
                assert(kb[ob[i]] == k);
                assert(oa[i] == last_index(ka, k, fa.len()));
                assert(ob[i] == last_index(kb, k, fb.len()));
            }
            lemma_same_objects(fa, fb, oa, ob, oa.len());
        },
        _ => {},
    }
}

/// The first `n` items of two arrays of the same content have the same
/// canonical bytes.
proof fn lemma_same_arrays(x: Seq<JsonView>, y: Seq<JsonView>, n: nat)
    requires
        x.len() == y.len(),
        n <= x.len(),
        forall|i: int| 0 <= i < x.len() ==> same_content(#[trigger] x[i], y[i]),
    ensures
        array_body(x, n) == array_body(y, n),
    decreases x, n,
{
    if n > 0 {
        lemma_same_arrays(x, y, (n - 1) as nat);
        lemma_same_content(x[n - 1], y[n - 1]);
    }
}

/// Two listings that name the same fields with the same content write the
/// same canonical bytes.
proof fn lemma_same_objects(
    fa: Seq<(Seq<char>, JsonView)>,
    fb: Seq<(Seq<char>, JsonView)>,
    oa: Seq<int>,
    ob: Seq<int>,
    n: nat,
)
    requires
        oa.len() == ob.len(),
        n <= oa.len(),
        forall|i: int|
            0 <= i < oa.len() ==> {
                &&& 0 <= #[trigger] oa[i] < fa.len()
                &&& 0 <= ob[i] < fb.len()
                &&& fa[oa[i]].0 == fb[ob[i]].0
                &&& same_content(fa[oa[i]].1, fb[ob[i]].1)
            },
    ensures
        object_body(fa, oa, n) == object_body(fb, ob, n),
    decreases fa, n,
{
    if n > 0 {
        lemma_same_objects(fa, fb, oa, ob, (n - 1) as nat);
        let i = n - 1;
        assert(0 <= oa[i] < fa.len());
        assert(0 <= ob[i] < fb.len());
        lemma_same_content(fa[oa[i]].1, fb[ob[i]].1);
        assert(field_bytes(fa, oa[i]) == field_bytes(fb, ob[i]));
    }
}

/// Every value holds the same content as itself.
pub proof fn lemma_same_content_reflexive(a: JsonView)
    ensures
        same_content(a, a),
    decreases a,
{
    match a {
        JsonView::Array(x) => {
            assert forall|i: int| 0 <= i < x.len() implies same_content(#[trigger] x[i], x[i]) by {
                lemma_same_content_reflexive(x[i]);
            }
        },
        JsonView::Object(fa) => {
            assert forall|k: Seq<char>|
                #![trigger last_index(field_names(fa), k, fa.len())]
                !is_volatile_key(k) implies {
                let ia = last_index(field_names(fa), k, fa.len());
                (0 <= ia < fa.len()) ==> same_content(fa[ia].1, fa[ia].1)
            } by {
                let ia = last_index(field_names(fa), k, fa.len());
                if 0 <= ia < fa.len() {
                    lemma_same_content_reflexive(fa[ia].1);
                }
            }
        },
        _ => {},
    }
}

/// No two fields have the same name.
pub open spec fn distinct_names(fields: Seq<(Seq<char>, JsonView)>) -> bool {
    forall|i: int, j: int|
        0 <= i < fields.len() && 0 <= j < fields.len() && i != j ==> (#[trigger] fields[i]).0 != (
        #[trigger] fields[j]).0
}

/// The last field of a name stands at or after every field of that name.
proof fn lemma_last_index_found(keys: Seq<Seq<char>>, k: Seq<char>, n: nat, i: int)
    requires
        0 <= i < n <= keys.len(),
        keys[i] == k,
    ensures
        i <= last_index(keys, k, n) < n,
        keys[last_index(keys, k, n)] == k,
    decreases n,
{
    if keys[n - 1] != k {
        lemma_last_index_found(keys, k, (n - 1) as nat, i);
    }
}

/// An object with its fields in another order has the same canonical bytes:
/// where no name occurs twice, two objects made of the same fields are
/// written alike.
pub proof fn lemma_field_order_ignored(
    fa: Seq<(Seq<char>, JsonView)>,
    fb: Seq<(Seq<char>, JsonView)>,
)
    requires
        distinct_names(fa),
        distinct_names(fb),
        forall|i: int| 0 <= i < fa.len() ==> fb.contains(#[trigger] fa[i]),
        forall|i: int| 0 <= i < fb.len() ==> fa.contains(#[trigger] fb[i]),
    ensures
        canonical_bytes(JsonView::Object(fa)) == canonical_bytes(JsonView::Object(fb)),
{
    let ka = field_names(fa);
    let kb = field_names(fb);
    assert forall|k: Seq<char>|
        #![trigger last_index(field_names(fa), k, fa.len())]
        !is_volatile_key(k) implies {
        let ia = last_index(ka, k, fa.len());
        let ib = last_index(kb, k, fb.len());
        &&& (ia >= 0) == (ib >= 0)
        &&& (0 <= ia < fa.len() && 0 <= ib < fb.len()) ==> same_content(fa[ia].1, fb[ib].1)
    } by {
        let ia = last_index(ka, k, fa.len());
        let ib = last_index(kb, k, fb.len());
        lemma_last_index(ka, k, fa.len());
        lemma_last_index(kb, k, fb.len());
        if ia >= 0 {
            assert(fb.contains(fa[ia]));
            let m = choose|m: int| 0 <= m < fb.len() && fb[m] == fa[ia];
            assert(kb[m] == k);
            lemma_last_index_found(kb, k, fb.len(), m);
            assert(fb[ib].0 == fb[m].0);
            assert(ib == m);
            lemma_same_content_reflexive(fa[ia].1);
        }
        if ib >= 0 {
            assert(fa.contains(fb[ib]));
            let m = choose|m: int| 0 <= m < fa.len() && fa[m] == fb[ib];
            assert(ka[m] == k);
            lemma_last_index_found(ka, k, fa.len(), m);
            assert(fa[ia].0 == fa[m].0);
            assert(ia == m);
        }
    }
    assert(same_content(JsonView::Object(fa), JsonView::Object(fb)));
    lemma_same_content(JsonView::Object(fa), JsonView::Object(fb));
}

/// The values of the fields that the canonical form leaves out do not reach
/// the canonical bytes: two objects that agree field by field, but for the
/// values of such fields, are written alike.
pub proof fn lemma_derived_values_ignored(
    fa: Seq<(Seq<char>, JsonView)>,
    fb: Seq<(Seq<char>, JsonView)>,
)
    requires
        fa.len() == fb.len(),
        forall|i: int|
            0 <= i < fa.len() ==> (#[trigger] fa[i]).0 == fb[i].0 && (is_volatile_key(fa[i].0)
                || fa[i].1 == fb[i].1),
    ensures
        canonical_bytes(JsonView::Object(fa)) == canonical_bytes(JsonView::Object(fb)),
{
    let ka = field_names(fa);
    let kb = field_names(fb);
    assert(ka =~= kb) by {
        assert forall|i: int| 0 <= i < ka.len() implies ka[i] == kb[i] by {
            assert(fa[i].0 == fb[i].0);
        }
    }
    assert forall|k: Seq<char>|
        #![trigger last_index(field_names(fa), k, fa.len())]
        !is_volatile_key(k) implies {
        let ia = last_index(ka, k, fa.len());
        let ib = last_index(kb, k, fb.len());
        &&& (ia >= 0) == (ib >= 0)
        &&& (0 <= ia < fa.len() && 0 <= ib < fb.len()) ==> same_content(fa[ia].1, fb[ib].1)
    } by {
        let ia = last_index(ka, k, fa.len());
        lemma_last_index(ka, k, fa.len());
        if ia >= 0 {
            assert(fa[ia].0 == k);
            lemma_same_content_reflexive(fa[ia].1);
        }
    }
    assert(same_content(JsonView::Object(fa), JsonView::Object(fb)));
    lemma_same_content(JsonView::Object(fa), JsonView::Object(fb));
}

/// A field that the canonical form leaves out, added at the end of an
/// object, does not change the canonical bytes.
pub proof fn lemma_derived_field_ignored(
    fields: Seq<(Seq<char>, JsonView)>,
    name: Seq<char>,
    value: JsonView,
)
    requires
        is_volatile_key(name),
    ensures
        canonical_bytes(JsonView::Object(fields.push((name, value)))) == canonical_bytes(
            JsonView::Object(fields),
        ),
{
    let fb = fields.push((name, value));
    let ka = field_names(fields);
    let kb = field_names(fb);
    assert forall|k: Seq<char>|
        #![trigger last_index(field_names(fb), k, fb.len())]
        !is_volatile_key(k) implies {
        let ib = last_index(kb, k, fb.len());
        let ia = last_index(ka, k, fields.len());
        &&& (ib >= 0) == (ia >= 0)
        &&& (0 <= ib < fb.len() && 0 <= ia < fields.len()) ==> same_content(fb[ib].1, fields[ia].1)
    } by {
        let ia = last_index(ka, k, fields.len());
        lemma_last_index(ka, k, fields.len());
        lemma_last_index_prefix(ka, kb, k, fields.len());
        assert(last_index(kb, k, fb.len()) == last_index(kb, k, fields.len()));
        if ia >= 0 {
            lemma_same_content_reflexive(fields[ia].1);
        }
    }
    assert(same_content(JsonView::Object(fb), JsonView::Object(fields)));
    lemma_same_content(JsonView::Object(fb), JsonView::Object(fields));
}

/// Values of the same content have the same content hash, whatever the order
/// of their fields and whatever their derived fields hold.
pub proof fn lemma_content_hash_of_same_content(a: JsonView, b: JsonView)
    requires
        same_content(a, b),
    ensures
        content_hash_text(a) == content_hash_text(b),
{
    lemma_same_content(a, b);
}

} // verus!
