//! The JSON value tree that a query walks, and its mathematical model.

use vstd::prelude::*;

verus! {

/// The kind of a JSON value, as named in a type mismatch.
#[derive(Clone, Copy, Debug, PartialEq, Eq, Structural)]
pub enum JsonKind {
    Null,
    Bool,
    Number,
    String,
    Array,
    Object,
}

/// The model of a JSON value: what contracts speak of.
///
/// An object is the sequence of its members in the order in which the value
/// holds them; a lookup by key takes the first member of that name.
pub enum Json {
    Null,
    Bool(bool),
    Int(i64),
    UInt(u64),
    /// A number with a fraction or an exponent, by the bits of its IEEE 754
    /// binary64 form.
    Float(u64),
    String(Seq<char>),
    Array(Seq<Json>),
    Object(Seq<(Seq<char>, Json)>),
}

/// A JSON value. Numbers keep the three forms that a parser tells apart;
/// a floating-point number is held by its bits.
#[derive(Debug, PartialEq, Eq)]
pub enum JsonValue {
    Null,
    Bool(bool),
    Int(i64),
    UInt(u64),
    Float(u64),
    String(String),
    Array(Vec<JsonValue>),
    Object(Vec<(String, JsonValue)>),
}

impl View for JsonValue {
    type V = Json;

    open spec fn view(&self) -> Json
        decreases self,
    {
        match self {
            JsonValue::Null => Json::Null,
            JsonValue::Bool(b) => Json::Bool(*b),
            JsonValue::Int(i) => Json::Int(*i),
            JsonValue::UInt(u) => Json::UInt(*u),
            JsonValue::Float(bits) => Json::Float(*bits),
            JsonValue::String(s) => Json::String(s@),
            JsonValue::Array(items) => Json::Array(items_model(items@)),
            JsonValue::Object(members) => Json::Object(members_model(members@)),
        }
    }
}

/// The models of the elements of an array, in order.
pub open spec fn items_model(items: Seq<JsonValue>) -> Seq<Json>
    decreases items,
{
    Seq::new(items.len(), |i: int| if 0 <= i < items.len() { items[i]@ } else { Json::Null })
}

/// The names and the models of the members of an object, in order.
pub open spec fn members_model(members: Seq<(String, JsonValue)>) -> Seq<(Seq<char>, Json)>
    decreases members,
{
    Seq::new(
        members.len(),
        |i: int| if 0 <= i < members.len() { (members[i].0@, members[i].1@) } else { (Seq::empty(), Json::Null) },
    )
}

/// An array's model has the array's length, and holds each element's model.
pub proof fn lemma_items_model(items: Seq<JsonValue>)
    ensures
        items_model(items).len() == items.len(),
        forall|i: int| 0 <= i < items.len() ==> #[trigger] items_model(items)[i] == items[i]@,
{
    reveal_with_fuel(items_model, 2);
}

/// An object's model has as many members as the object, each with its name
/// and its value's model.
pub proof fn lemma_members_model(members: Seq<(String, JsonValue)>)
    ensures
        members_model(members).len() == members.len(),
        forall|i: int|
            0 <= i < members.len() ==> #[trigger] members_model(members)[i] == (
                members[i].0@,
                members[i].1@,
            ),
{
    reveal_with_fuel(members_model, 2);
}

impl Json {
    /// The kind of this value.
    pub open spec fn kind(self) -> JsonKind {
        match self {
            Json::Null => JsonKind::Null,
            Json::Bool(_) => JsonKind::Bool,
            Json::Int(_) | Json::UInt(_) | Json::Float(_) => JsonKind::Number,
            Json::String(_) => JsonKind::String,
            Json::Array(_) => JsonKind::Array,
            Json::Object(_) => JsonKind::Object,
        }
    }
}

impl JsonValue {
    /// The kind of this value.
    pub fn kind(&self) -> (kind: JsonKind)
        ensures
            kind == self@.kind(),
    {
        match self {
            JsonValue::Null => JsonKind::Null,
            JsonValue::Bool(_) => JsonKind::Bool,
            JsonValue::Int(_) => JsonKind::Number,
            JsonValue::UInt(_) => JsonKind::Number,
            JsonValue::Float(_) => JsonKind::Number,
            JsonValue::String(_) => JsonKind::String,
            JsonValue::Array(_) => JsonKind::Array,
            JsonValue::Object(_) => JsonKind::Object,
        }
    }
}

impl Clone for JsonValue {
    /// A copy of the whole tree.
    fn clone(&self) -> (copy: Self)
        ensures
            copy@ == self@,
        decreases self,
    {
        match self {
            JsonValue::Null => JsonValue::Null,
            JsonValue::Bool(b) => JsonValue::Bool(*b),
            JsonValue::Int(i) => JsonValue::Int(*i),
            JsonValue::UInt(u) => JsonValue::UInt(*u),
            JsonValue::Float(bits) => JsonValue::Float(*bits),
            JsonValue::String(s) => JsonValue::String(s.clone()),
            JsonValue::Array(items) => {
                let mut copies: Vec<JsonValue> = Vec::new();
                let mut i: usize = 0;
                while i < items.len()
                    invariant
                        *self == JsonValue::Array(*items),
                        i <= items.len(),
                        copies.len() == i,
                        forall|j: int| 0 <= j < i ==> (#[trigger] copies@[j])@ == items@[j]@,
                    decreases items.len() - i,
                {
                    proof {
                        assert(decreases_to!(*self => self->Array_0));
                        assert(decreases_to!(*items => items[i as int]));
                    }
                    copies.push(items[i].clone());
                    i += 1;
                }
                proof {
                    lemma_items_model(items@);
                    lemma_items_model(copies@);
                    assert(items_model(copies@) =~= items_model(items@));
                }
                JsonValue::Array(copies)
            },
            JsonValue::Object(members) => {
                let mut copies: Vec<(String, JsonValue)> = Vec::new();
                let mut i: usize = 0;
                while i < members.len()
                    invariant
                        *self == JsonValue::Object(*members),
                        i <= members.len(),
                        copies.len() == i,
                        forall|j: int|
                            0 <= j < i ==> (#[trigger] copies@[j]).0@ == members@[j].0@ && copies@[j].1@
                                == members@[j].1@,
                    decreases members.len() - i,
                {
                    proof {
                        assert(decreases_to!(*self => self->Object_0));
                        assert(decreases_to!(*members => members[i as int]));
                        assert(decreases_to!(members[i as int] => members[i as int].1));
                    }
                    copies.push((members[i].0.clone(), members[i].1.clone()));
                    i += 1;
                }
                proof {
                    lemma_members_model(members@);
                    lemma_members_model(copies@);
                    assert(members_model(copies@) =~= members_model(members@));
                }
                JsonValue::Object(copies)
            },
        }
    }
}

} // verus!
