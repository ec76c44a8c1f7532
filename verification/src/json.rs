//! Structured values: the shape that receipts are made of.

use vstd::prelude::*;
use vstd::string::StringExecFns;
use crate::text::text_eq;

verus! {

/// A decimal number: `mantissa / 10^scale`, written with exactly `scale`
/// digits after the point.
#[derive(Clone, Copy, Debug, PartialEq, Eq, Structural)]
pub struct Number {
    pub mantissa: i128,
    pub scale: u8,
}

/// A structured value.
#[derive(Debug, PartialEq, Eq)]
pub enum Value {
    Null,
    Bool(bool),
    Number(Number),
    Text(String),
    Array(Vec<Value>),
    /// Named fields, in the order in which they were given. Where a name
    /// occurs more than once, the last occurrence counts.
    Object(Vec<Field>),
}

/// One named field of an object.
#[derive(Debug, PartialEq, Eq)]
pub struct Field {
    pub name: String,
    pub value: Value,
}

/// What a structured value holds, as mathematics.
pub enum JsonView {
    Null,
    Bool(bool),
    Number(int, nat),
    Text(Seq<char>),
    Array(Seq<JsonView>),
    Object(Seq<(Seq<char>, JsonView)>),
}

/// What `v` holds.
pub open spec fn value_view(v: Value) -> JsonView
    decreases v, 0nat,
{
    match v {
        Value::Null => JsonView::Null,
        Value::Bool(b) => JsonView::Bool(b),
        Value::Number(n) => JsonView::Number(n.mantissa as int, n.scale as nat),
        Value::Text(s) => JsonView::Text(s@),
        Value::Array(items) => JsonView::Array(items_view_to(items, items@.len())),
        Value::Object(fields) => JsonView::Object(fields_view_to(fields, fields@.len())),
    }
}

/// What the first `n` of `items` hold.
pub open spec fn items_view_to(items: Vec<Value>, n: nat) -> Seq<JsonView>
    decreases items, n,
{
    if n == 0 || n > items@.len() {
        Seq::empty()
    } else {
        items_view_to(items, (n - 1) as nat).push(value_view(items@[n - 1]))
    }
}

/// What the first `n` of `fields` hold.
pub open spec fn fields_view_to(fields: Vec<Field>, n: nat) -> Seq<(Seq<char>, JsonView)>
    decreases fields, n,
{
    if n == 0 || n > fields@.len() {
        Seq::empty()
    } else {
        fields_view_to(fields, (n - 1) as nat).push(
            (fields@[n - 1].name@, value_view(fields@[n - 1].value)),
        )
    }
}

impl View for Value {
    type V = JsonView;

    open spec fn view(&self) -> JsonView {
        value_view(*self)
    }
}

/// What a sequence of values holds.
pub open spec fn items_view(items: Seq<Value>) -> Seq<JsonView> {
    Seq::new(items.len(), |i: int| items[i]@)
}

/// What a sequence of fields holds.
pub open spec fn fields_view(fields: Seq<Field>) -> Seq<(Seq<char>, JsonView)> {
    Seq::new(fields.len(), |i: int| (fields[i].name@, fields[i].value@))
}

proof fn lemma_items_view_to(items: Vec<Value>, n: nat)
    requires
        n <= items@.len(),
    ensures
        items_view_to(items, n) == items_view(items@.subrange(0, n as int)),
    decreases n,
{
    if n > 0 {
        lemma_items_view_to(items, (n - 1) as nat);
    }
    assert(items_view_to(items, n) =~= items_view(items@.subrange(0, n as int)));
}

proof fn lemma_fields_view_to(fields: Vec<Field>, n: nat)
    requires
        n <= fields@.len(),
    ensures
        fields_view_to(fields, n) == fields_view(fields@.subrange(0, n as int)),
    decreases n,
{
    if n > 0 {
        lemma_fields_view_to(fields, (n - 1) as nat);
    }
    assert(fields_view_to(fields, n) =~= fields_view(fields@.subrange(0, n as int)));
}

/// An array holds what its items hold, in order.
pub proof fn lemma_array_view(items: Vec<Value>)
    ensures
        Value::Array(items)@ == JsonView::Array(items_view(items@)),
{
    lemma_items_view_to(items, items@.len());
    assert(items@.subrange(0, items@.len() as int) =~= items@);
}

/// An object holds the names and values of its fields, in order.
pub proof fn lemma_object_view(fields: Vec<Field>)
    ensures
        Value::Object(fields)@ == JsonView::Object(fields_view(fields@)),
{
    lemma_fields_view_to(fields, fields@.len());
    assert(fields@.subrange(0, fields@.len() as int) =~= fields@);
}

/// The names of a sequence of fields.
pub open spec fn field_names(fields: Seq<(Seq<char>, JsonView)>) -> Seq<Seq<char>> {
    Seq::new(fields.len(), |i: int| fields[i].0)
}

/// The position of the last field named `k` among the first `n`, and -1
/// where none of them has that name.
pub open spec fn last_index(keys: Seq<Seq<char>>, k: Seq<char>, n: nat) -> int
    decreases n,
{
    if n == 0 || n > keys.len() {
        -1
    } else if keys[n - 1] == k {
        n - 1
    } else {
        last_index(keys, k, (n - 1) as nat)
    }
}

/// Where a name has a last field, that field has the name.
pub proof fn lemma_last_index(keys: Seq<Seq<char>>, k: Seq<char>, n: nat)
    requires
        n <= keys.len(),
    ensures
        -1 <= last_index(keys, k, n) < n,
        last_index(keys, k, n) >= 0 ==> keys[last_index(keys, k, n)] == k,
    decreases n,
{
    if n > 0 && keys[n - 1] != k {
        lemma_last_index(keys, k, (n - 1) as nat);
    }
}

/// The last field of a name is found among the first `n` fields alone.
pub proof fn lemma_last_index_prefix(ka: Seq<Seq<char>>, kb: Seq<Seq<char>>, k: Seq<char>, n: nat)
    requires
        n <= ka.len(),
        n <= kb.len(),
        forall|i: int| 0 <= i < n ==> ka[i] == kb[i],
    ensures
        last_index(ka, k, n) == last_index(kb, k, n),
    decreases n,
{
    if n > 0 {
        lemma_last_index_prefix(ka, kb, k, (n - 1) as nat);
    }
}

/// The value of the last field named `name`, where `v` is an object that has
/// such a field.
pub open spec fn lookup(v: JsonView, name: Seq<char>) -> Option<JsonView> {
    match v {
        JsonView::Object(fields) => {
            let i = last_index(field_names(fields), name, fields.len());
            if i >= 0 {
                Some(fields[i].1)
            } else {
                None
            }
        },
        _ => None,
    }
}

impl Field {
    /// A field of the given name and value.
    pub fn new(name: &str, value: Value) -> (field: Field)
        ensures
            field.name@ == name@,
            field.value == value,
    {
        Field { name: String::from_str(name), value }
    }
}

impl Value {
    /// A text value.
    pub fn text(s: &str) -> (v: Value)
        ensures
            v@ == JsonView::Text(s@),
    {
        Value::Text(String::from_str(s))
    }

    /// A whole number.
    pub fn integer(n: i64) -> (v: Value)
        ensures
            v@ == JsonView::Number(n as int, 0),
    {
        Value::Number(Number { mantissa: n as i128, scale: 0 })
    }

    /// A whole number that is not negative.
    pub fn unsigned(n: u64) -> (v: Value)
        ensures
            v@ == JsonView::Number(n as int, 0),
    {
        Value::Number(Number { mantissa: n as i128, scale: 0 })
    }

    /// The number `mantissa / 10^scale`.
    pub fn decimal(mantissa: i128, scale: u8) -> (v: Value)
        ensures
            v@ == JsonView::Number(mantissa as int, scale as nat),
    {
        Value::Number(Number { mantissa, scale })
    }

    /// The value of the last field named `name`, where this is an object that
    /// has such a field.
    pub fn get(&self, name: &str) -> (found: Option<&Value>)
        ensures
            found is Some <==> lookup(self@, name@) is Some,
            found is Some ==> lookup(self@, name@) == Some(found->Some_0@),
    {
        match self {
            Value::Object(fields) => {
                proof {
                    lemma_object_view(*fields);
                }
                let ghost names = field_names(fields_view(fields@));
                let mut n: usize = fields.len();
                while n > 0
                    invariant
                        n <= fields@.len(),
                        self@ == JsonView::Object(fields_view(fields@)),
                        names == field_names(fields_view(fields@)),
                        last_index(names, name@, fields@.len() as nat) == last_index(
                            names,
                            name@,
                            n as nat,
                        ),
                    decreases n,
                {
                    assert(names[n - 1] == fields@[n - 1].name@);
                    if text_eq(fields[n - 1].name.as_str(), name) {
                        return Some(&fields[n - 1].value);
                    }
                    n -= 1;
                }
                None
            },
            _ => None,
        }
    }

    /// The text, where this is a text value.
    pub fn as_text(&self) -> (text: Option<&str>)
        ensures
            text is Some <==> self@ is Text,
            text is Some ==> self@ == JsonView::Text(text->Some_0@),
    {
        match self {
            Value::Text(s) => Some(s.as_str()),
            _ => None,
        }
    }

    /// The number, where this is a number.
    pub fn as_number(&self) -> (number: Option<Number>)
        ensures
            number is Some <==> self@ is Number,
            number is Some ==> self@ == JsonView::Number(
                number->Some_0.mantissa as int,
                number->Some_0.scale as nat,
            ),
    {
        match self {
            Value::Number(n) => Some(*n),
            _ => None,
        }
    }

    /// The number of items, where this is an array.
    pub fn array_len(&self) -> (len: Option<usize>)
        ensures
            len is Some <==> self@ is Array,
            len is Some ==> self@->Array_0.len() == len->Some_0,
    {
        match self {
            Value::Array(items) => {
                proof {
                    lemma_array_view(*items);
                }
                Some(items.len())
            },
            _ => None,
        }
    }

    /// A value that holds the same as this one.
    pub fn duplicate(&self) -> (copy: Value)
        ensures
            copy@ == self@,
        decreases self,
    {
        match self {
            Value::Null => Value::Null,
            Value::Bool(b) => Value::Bool(*b),
            Value::Number(n) => Value::Number(*n),
            Value::Text(s) => Value::Text(s.clone()),
            Value::Array(items) => {
                let mut out: Vec<Value> = Vec::with_capacity(items.len());
                let mut i: usize = 0;
                while i < items.len()
                    invariant
                        i <= items@.len(),
                        self == Value::Array(*items),
                        out@.len() == i,
                        forall|j: int| 0 <= j < i ==> (#[trigger] out@[j])@ == items@[j]@,
                    decreases items@.len() - i,
                {
                    proof {
                        vstd::std_specs::vec::axiom_vec_index_decreases(*items, i as int);
                        assert(decreases_to!(*self => self->Array_0));
                    }
                    out.push(items[i].duplicate());
                    i += 1;
                }
                proof {
                    lemma_array_view(*items);
                    lemma_array_view(out);
                    assert(items_view(out@) =~= items_view(items@));
                }
                Value::Array(out)
            },
            Value::Object(fields) => {
                let mut out: Vec<Field> = Vec::with_capacity(fields.len());
                let mut i: usize = 0;
                while i < fields.len()
                    invariant
                        i <= fields@.len(),
                        self == Value::Object(*fields),
                        out@.len() == i,
                        forall|j: int|
                            0 <= j < i ==> (#[trigger] out@[j]).name@ == fields@[j].name@
                                && out@[j].value@ == fields@[j].value@,
                    decreases fields@.len() - i,
                {
                    proof {
                        vstd::std_specs::vec::axiom_vec_index_decreases(*fields, i as int);
                        assert(decreases_to!(*self => self->Object_0));
                        assert(decreases_to!(fields@[i as int] => fields@[i as int].value));
                    }
                    let field = &fields[i];
                    out.push(Field { name: field.name.clone(), value: field.value.duplicate() });
                    i += 1;
                }
                proof {
                    lemma_object_view(*fields);
                    lemma_object_view(out);
                    assert(fields_view(out@) =~= fields_view(fields@));
                }
                Value::Object(out)
            },
        }
    }
}

impl Clone for Value {
    fn clone(&self) -> (copy: Value)
        ensures
            copy@ == self@,
    {
        self.duplicate()
    }
}

impl Clone for Field {
    fn clone(&self) -> (copy: Field)
        ensures
            copy.name@ == self.name@,
            copy.value@ == self.value@,
    {
        Field { name: self.name.clone(), value: self.value.duplicate() }
    }
}

} // verus!
