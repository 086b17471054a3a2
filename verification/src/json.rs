//! JSON values.

use vstd::prelude::*;
use crate::double;
use crate::double::are_equal;
use crate::order;
use crate::order::SortedMap;
use crate::text::same;

verus! {

/// A JSON number.
#[derive(Debug, PartialEq)]
pub enum Number {
    /// An integer that is not negative.
    PosInt(u64),
    /// A negative integer.
    NegInt(i64),
    /// A double, with the text that stands for it in a JSON document.
    Float {
        /// The IEEE 754 bits of the double.
        bits: u64,
        /// The double as written in a JSON document.
        text: String,
    },
}

/// A JSON value.
#[derive(Debug, PartialEq)]
pub enum Json {
    /// `null`.
    Null,
    /// A boolean.
    Bool(bool),
    /// A number.
    Number(Number),
    /// A string.
    String(String),
    /// An ordered list.
    Array(Vec<Json>),
    /// A mapping, sorted by key so output is deterministic.
    Object(SortedMap<Json>),
}

/// What a JSON number is.
pub enum NumberModel {
    /// An integer that is not negative.
    PosInt(u64),
    /// A negative integer.
    NegInt(i64),
    /// A double by its bits, with its text.
    Float(u64, Seq<char>),
}

/// What a JSON value is.
pub enum JsonModel {
    /// `null`.
    Null,
    /// A boolean.
    Bool(bool),
    /// A number.
    Number(NumberModel),
    /// A string.
    String(Seq<char>),
    /// An ordered list.
    Array(Seq<JsonModel>),
    /// The keys with their values.
    Object(Seq<(Seq<char>, JsonModel)>),
}

impl View for Number {
    type V = NumberModel;

    open spec fn view(&self) -> NumberModel {
        match self {
            Number::PosInt(n) => NumberModel::PosInt(*n),
            Number::NegInt(n) => NumberModel::NegInt(*n),
            Number::Float { bits, text } => NumberModel::Float(*bits, text@),
        }
    }
}

impl View for Json {
    type V = JsonModel;

    open spec fn view(&self) -> JsonModel {
        model(*self)
    }
}

/// What a JSON value is.
pub open spec fn model(value: Json) -> JsonModel
    decreases value,
{
    match value {
        Json::Null => JsonModel::Null,
        Json::Bool(b) => JsonModel::Bool(b),
        Json::Number(n) => JsonModel::Number(n@),
        Json::String(s) => JsonModel::String(s@),
        Json::Array(items) => JsonModel::Array(
            Seq::new(
                items@.len(),
                |i: int|
                    if 0 <= i < items@.len() {
                        model(items@[i])
                    } else {
                        JsonModel::Null
                    },
            ),
        ),
        Json::Object(map) => JsonModel::Object(
            Seq::new(
                map.entries@.len(),
                |i: int|
                    if 0 <= i < map.entries@.len() {
                        (map.entries@[i].0@, model(map.entries@[i].1))
                    } else {
                        (seq![], JsonModel::Null)
                    },
            ),
        ),
    }
}

/// The views of a list of JSON values.
pub open spec fn models(items: Seq<Json>) -> Seq<JsonModel> {
    items.map_values(|item: Json| item@)
}

/// The view of an array lists the views of its items.
pub proof fn array_view(items: Vec<Json>)
    ensures
        Json::Array(items)@ == JsonModel::Array(models(items@)),
        Json::Array(items)@ matches JsonModel::Array(found) && found.len() == items@.len()
            && forall|i: int| 0 <= i < found.len() ==> #[trigger] found[i] == items@[i]@,
{
    assert(Json::Array(items)@->Array_0 =~= models(items@));
}

/// The view of an object lists the views of its entries.
pub proof fn object_view(map: SortedMap<Json>)
    ensures
        Json::Object(map)@ == JsonModel::Object(map.pairs()),
        Json::Object(map)@ matches JsonModel::Object(found) && found.len() == map.entries@.len()
            && forall|i: int|
            0 <= i < found.len() ==> #[trigger] found[i] == (
                map.entries@[i].0@,
                map.entries@[i].1@,
            ),
{
    assert(Json::Object(map)@->Object_0 =~= map.pairs());
}

/// Whether the keys of every object in the value ascend.
pub open spec fn valid(value: JsonModel) -> bool
    decreases value,
{
    match value {
        JsonModel::Array(items) => forall|i: int| 0 <= i < items.len() ==> valid(#[trigger] items[i]),
        JsonModel::Object(entries) => {
            &&& order::ascending(order::keys(entries))
            &&& forall|i: int| 0 <= i < entries.len() ==> valid((#[trigger] entries[i]).1)
        },
        _ => true,
    }
}

/// Whether two numbers are equal: integers by value, doubles as doubles compare.
pub open spec fn numbers_equal(a: NumberModel, b: NumberModel) -> bool {
    match (a, b) {
        (NumberModel::PosInt(x), NumberModel::PosInt(y)) => x == y,
        (NumberModel::NegInt(x), NumberModel::NegInt(y)) => x == y,
        (NumberModel::Float(x, _), NumberModel::Float(y, _)) => double::doubles_equal(x, y),
        _ => false,
    }
}

/// Whether two values that are not containers of one kind are equal.
pub open spec fn scalars_equal(a: JsonModel, b: JsonModel) -> bool {
    match (a, b) {
        (JsonModel::Null, JsonModel::Null) => true,
        (JsonModel::Bool(x), JsonModel::Bool(y)) => x == y,
        (JsonModel::Number(x), JsonModel::Number(y)) => numbers_equal(x, y),
        (JsonModel::String(x), JsonModel::String(y)) => x == y,
        _ => false,
    }
}

/// Whether two values are equal: scalars as [`scalars_equal`] has it, arrays item
/// by item, objects key by key.
pub open spec fn equal(a: JsonModel, b: JsonModel) -> bool
    decreases a,
{
    match (a, b) {
        (JsonModel::Array(x), JsonModel::Array(y)) => {
            &&& x.len() == y.len()
            &&& forall|i: int| 0 <= i < x.len() ==> equal(#[trigger] x[i], y[i])
        },
        (JsonModel::Object(x), JsonModel::Object(y)) => {
            &&& x.len() == y.len()
            &&& forall|i: int|
                0 <= i < x.len() ==> (#[trigger] x[i]).0 == y[i].0 && equal(x[i].1, y[i].1)
        },
        _ => scalars_equal(a, b),
    }
}

impl Number {
    /// A copy of the number.
    pub fn duplicate(&self) -> (copy: Number)
        ensures
            copy@ == self@,
    {
        match self {
            Number::PosInt(n) => Number::PosInt(*n),
            Number::NegInt(n) => Number::NegInt(*n),
            Number::Float { bits, text } => Number::Float { bits: *bits, text: text.clone() },
        }
    }

    /// Whether two numbers are equal.
    pub fn equals(&self, other: &Number) -> (yes: bool)
        ensures
            yes == numbers_equal(self@, other@),
    {
        match (self, other) {
            (Number::PosInt(x), Number::PosInt(y)) => *x == *y,
            (Number::NegInt(x), Number::NegInt(y)) => *x == *y,
            (Number::Float { bits: x, .. }, Number::Float { bits: y, .. }) => are_equal(*x, *y),
            _ => false,
        }
    }
}

impl Json {
    /// A copy of the value.
    pub fn duplicate(&self) -> (copy: Json)
        ensures
            copy@ == self@,
        decreases self,
    {
        match self {
            Json::Null => Json::Null,
            Json::Bool(b) => Json::Bool(*b),
            Json::Number(n) => Json::Number(n.duplicate()),
            Json::String(s) => Json::String(s.clone()),
            Json::Array(items) => {
                let mut copies: Vec<Json> = Vec::new();
                let mut i: usize = 0;
                while i < items.len()
                    invariant
                        i <= items@.len(),
                        *self == Json::Array(*items),
                        models(copies@) == models(items@).take(i as int),
                    decreases items@.len() - i,
                {
                    let ghost before = models(copies@);
                    assert(decreases_to!(*self => self->Array_0@[i as int]));
                    copies.push(items[i].duplicate());
                    assert(models(copies@) =~= before.push(items@[i as int]@));
                    assert(models(copies@) =~= models(items@).take(i + 1));
                    i += 1;
                }
                proof {
                    assert(models(items@).take(i as int) =~= models(items@));
                    array_view(copies);
                    array_view(*items);
                }
                Json::Array(copies)
            },
            Json::Object(map) => {
                let mut entries: Vec<(String, Json)> = Vec::new();
                let mut i: usize = 0;
                while i < map.entries.len()
                    invariant
                        i <= map.entries@.len(),
                        *self == Json::Object(*map),
                        (SortedMap { entries }).pairs() == map.pairs().take(i as int),
                    decreases map.entries@.len() - i,
                {
                    let ghost before = (SortedMap { entries }).pairs();
                    assert(decreases_to!(*self => self->Object_0.entries@[i as int].1));
                    entries.push((map.entries[i].0.clone(), map.entries[i].1.duplicate()));
                    assert((SortedMap { entries }).pairs() =~= before.push(map.pairs()[i as int]));
                    assert((SortedMap { entries }).pairs() =~= map.pairs().take(i + 1));
                    i += 1;
                }
                proof {
                    assert(map.pairs().take(i as int) =~= map.pairs());
                    object_view(SortedMap { entries });
                    object_view(*map);
                }
                Json::Object(SortedMap { entries })
            },
        }
    }

    /// Whether two values that are not containers of one kind are equal.
    pub fn scalar_equals(&self, other: &Json) -> (yes: bool)
        ensures
            yes == scalars_equal(self@, other@),
    {
        match (self, other) {
            (Json::Null, Json::Null) => true,
            (Json::Bool(x), Json::Bool(y)) => *x == *y,
            (Json::Number(x), Json::Number(y)) => x.equals(y),
            (Json::String(x), Json::String(y)) => same(x.as_str(), y.as_str()),
            _ => false,
        }
    }
}

// ---------------------------------------------------------------------------
// Laws
// ---------------------------------------------------------------------------

/// Whether a value holds no double.
pub open spec fn without_doubles(value: JsonModel) -> bool
    decreases value,
{
    match value {
        JsonModel::Number(n) => !(n is Float),
        JsonModel::Array(items) => forall|i: int|
            0 <= i < items.len() ==> without_doubles(#[trigger] items[i]),
        JsonModel::Object(entries) => forall|i: int|
            0 <= i < entries.len() ==> without_doubles((#[trigger] entries[i]).1),
        _ => true,
    }
}

/// Values without doubles are equal exactly where they are one and the same: a
/// difference in any boolean, integer, string, key, length or kind, however deep, makes
/// them different.
pub proof fn equal_is_the_same(a: JsonModel, b: JsonModel)
    requires
        without_doubles(a),
    ensures
        equal(a, b) <==> a == b,
    decreases a,
{
    match (a, b) {
        (JsonModel::Array(x), JsonModel::Array(y)) => {
            assert forall|i: int| 0 <= i < x.len() implies (equal(#[trigger] x[i], y[i]) <==> x[i]
                == y[i]) by {
                assert(without_doubles(x[i]));
                equal_is_the_same(x[i], y[i]);
            }
            if equal(a, b) {
                assert forall|i: int| 0 <= i < x.len() implies x[i] == y[i] by {
                    assert(equal(x[i], y[i]));
                }
                assert(x =~= y);
            }
        },
        (JsonModel::Object(x), JsonModel::Object(y)) => {
            assert forall|i: int| 0 <= i < x.len() implies (equal((#[trigger] x[i]).1, y[i].1)
                <==> x[i].1 == y[i].1) by {
                assert(without_doubles(x[i].1));
                equal_is_the_same(x[i].1, y[i].1);
            }
            if equal(a, b) {
                assert forall|i: int| 0 <= i < x.len() implies x[i] == y[i] by {
                    assert(x[i].0 == y[i].0 && equal(x[i].1, y[i].1));
                }
                assert(x =~= y);
            }
        },
        _ => {},
    }
}

/// Doubles are equal as doubles compare, whatever their texts, and no double equals an
/// integer.
pub proof fn doubles_compare_by_value(a: u64, b: u64, x: Seq<char>, y: Seq<char>, n: NumberModel)
    ensures
        a == b ==> (equal(
            JsonModel::Number(NumberModel::Float(a, x)),
            JsonModel::Number(NumberModel::Float(b, y)),
        ) <==> double::bits_of_number(a)),
        a != b ==> (equal(
            JsonModel::Number(NumberModel::Float(a, x)),
            JsonModel::Number(NumberModel::Float(b, y)),
        ) <==> (a == 0 && b == 0x8000_0000_0000_0000) || (a == 0x8000_0000_0000_0000 && b == 0)),
        !(n is Float) ==> !equal(
            JsonModel::Number(NumberModel::Float(a, x)),
            JsonModel::Number(n),
        ),
{
    double::doubles_equal_means(a, b);
}

/// The view of a scalar says what the scalar says.
pub proof fn scalar_views(b: bool, p: u64, n: i64, bits: u64, text: String)
    ensures
        Json::Null@ == JsonModel::Null,
        Json::Bool(b)@ == JsonModel::Bool(b),
        Json::Number(Number::PosInt(p))@ == JsonModel::Number(NumberModel::PosInt(p)),
        Json::Number(Number::NegInt(n))@ == JsonModel::Number(NumberModel::NegInt(n)),
        Json::Number(Number::Float { bits, text })@ == JsonModel::Number(
            NumberModel::Float(bits, text@),
        ),
        Json::String(text)@ == JsonModel::String(text@),
{
}

} // verus!
