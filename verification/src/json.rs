//! JSON values, and when two of them are the same.

use vstd::prelude::*;
use crate::table::{
    first_of, lemma_first_of, lemma_first_of_ends, lemma_table_decreases, lists, Table,
};
use crate::text::same_text;

verus! {

/// What a number is: an integer that is not negative, a negative integer, or
/// any other number by its text.
#[verifier::ext_equal]
pub enum Num {
    PosInt(u64),
    NegInt(i64),
    Float(Seq<char>),
}

/// What a JSON value is.
#[verifier::ext_equal]
pub enum Json {
    Null,
    Bool(bool),
    Number(Num),
    Text(Seq<char>),
    List(Seq<Json>),
    Object(Map<Seq<char>, Json>),
}

/// A JSON number. A number with a fraction or an exponent is held by its
/// shortest text.
#[derive(Debug)]
pub enum Number {
    PosInt(u64),
    NegInt(i64),
    Float(String),
}

/// A JSON value.
#[derive(Debug)]
pub enum JsonValue {
    Null,
    Bool(bool),
    Number(Number),
    String(String),
    Array(Vec<JsonValue>),
    Object(Table<JsonValue>),
}

/// Settings by their names.
pub type Settings = Table<JsonValue>;

/// The settings of a settings table.
pub type SettingsMap = Map<Seq<char>, Json>;

impl View for Number {
    type V = Num;

    open spec fn view(&self) -> Num {
        match self {
            Number::PosInt(n) => Num::PosInt(*n),
            Number::NegInt(n) => Num::NegInt(*n),
            Number::Float(text) => Num::Float(text@),
        }
    }
}

impl JsonValue {
    /// The JSON value that this is.
    pub open spec fn json(self) -> Json
        decreases self,
    {
        match self {
            JsonValue::Null => Json::Null,
            JsonValue::Bool(b) => Json::Bool(b),
            JsonValue::Number(n) => Json::Number(n@),
            JsonValue::String(s) => Json::Text(s@),
            JsonValue::Array(items) => Json::List(
                Seq::new(
                    items@.len(),
                    |i: int|
                        if 0 <= i < items@.len() {
                            items@[i].json()
                        } else {
                            Json::Null
                        },
                ),
            ),
            JsonValue::Object(table) => Json::Object(
                Map::new(
                    |name: Seq<char>| table@.contains_key(name),
                    |name: Seq<char>|
                        if table@.contains_key(name) {
                            proof {
                                lemma_table_decreases(table, name);
                            }
                            table@[name].json()
                        } else {
                            Json::Null
                        },
                ),
            ),
        }
    }
}

impl View for JsonValue {
    type V = Json;

    open spec fn view(&self) -> Json {
        self.json()
    }
}

impl DeepView for JsonValue {
    type V = Json;

    open spec fn deep_view(&self) -> Json {
        self.json()
    }
}

/// The JSON values of a row of values.
pub open spec fn jsons(items: Seq<JsonValue>) -> Seq<Json> {
    Seq::new(items.len(), |i: int| items[i]@)
}

/// An array is the list of its items.
pub proof fn lemma_array_json(items: Vec<JsonValue>)
    ensures
        JsonValue::Array(items).json() == Json::List(jsons(items@)),
{
    assert(JsonValue::Array(items).json()->List_0 =~= jsons(items@));
}

/// An object is the map of its members.
pub proof fn lemma_object_json(table: Table<JsonValue>)
    ensures
        JsonValue::Object(table).json() == Json::Object(table.deep_view()),
{
    assert(JsonValue::Object(table).json()->Object_0 =~= table.deep_view());
}

/// A list is greater than each of its items.
pub proof fn lemma_item_decreases(value: JsonValue, i: int)
    requires
        value is Array,
        0 <= i < value->Array_0@.len(),
    ensures
        decreases_to!(value => value->Array_0@[i]),
{
    assert(decreases_to!(value => value->Array_0));
    assert(decreases_to!(value->Array_0 => value->Array_0@));
    assert(decreases_to!(value->Array_0@ => value->Array_0@[i]));
}

/// An object is greater than each of its members.
pub proof fn lemma_member_decreases(value: JsonValue, name: Seq<char>)
    requires
        value is Object,
        value->Object_0@.contains_key(name),
    ensures
        decreases_to!(value => value->Object_0@[name]),
{
    lemma_table_decreases(value->Object_0, name);
    assert(decreases_to!(value => value->Object_0));
}

/// Whether two numbers are equal: zero has two texts as a fraction.
pub open spec fn same_num(a: Num, b: Num) -> bool {
    match (a, b) {
        (Num::Float(x), Num::Float(y)) => x == y || (float_zero(x) && float_zero(y)),
        _ => a == b,
    }
}

/// The texts of zero as a fraction.
pub open spec fn float_zero(text: Seq<char>) -> bool {
    text == "0.0"@ || text == "-0.0"@
}

/// Whether two JSON values are equal: numbers as numbers, lists item by item,
/// objects member by member.
pub open spec fn same_json(a: Json, b: Json) -> bool
    decreases a,
{
    match (a, b) {
        (Json::Number(x), Json::Number(y)) => same_num(x, y),
        (Json::List(x), Json::List(y)) => x.len() == y.len() && forall|i: int|
            0 <= i < x.len() ==> same_json(#[trigger] x[i], y[i]),
        (Json::Object(x), Json::Object(y)) => x.dom() == y.dom() && forall|name: Seq<char>|
            x.contains_key(name) ==> same_json(#[trigger] x[name], y[name]),
        _ => a == b,
    }
}

/// Whether two optional JSON values are equal.
pub open spec fn same_option(a: Option<Json>, b: Option<Json>) -> bool {
    match (a, b) {
        (Some(x), Some(y)) => same_json(x, y),
        (None, None) => true,
        _ => false,
    }
}

/// Whether two settings maps are equal.
pub open spec fn same_settings(a: SettingsMap, b: SettingsMap) -> bool {
    a.dom() == b.dom() && forall|name: Seq<char>|
        a.contains_key(name) ==> same_json(#[trigger] a[name], b[name])
}

/// What a map holds under a name.
pub open spec fn at<T>(map: Map<Seq<char>, T>, name: Seq<char>) -> Option<T> {
    if map.contains_key(name) {
        Some(map[name])
    } else {
        None
    }
}

/// At most so many lists and objects of a value stand in each other.
pub open spec fn nests_within(json: Json, n: nat) -> bool
    decreases n,
{
    match json {
        Json::List(items) => n > 0 && forall|i: int|
            0 <= i < items.len() ==> nests_within(#[trigger] items[i], (n - 1) as nat),
        Json::Object(members) => n > 0 && forall|name: Seq<char>|
            members.contains_key(name) ==> nests_within(
                #[trigger] members[name],
                (n - 1) as nat,
            ),
        _ => true,
    }
}

/// Every number within a value is an integer.
pub open spec fn whole_numbers(json: Json) -> bool
    decreases json,
{
    match json {
        Json::Number(number) => !(number is Float),
        Json::List(items) => forall|i: int|
            0 <= i < items.len() ==> whole_numbers(#[trigger] items[i]),
        Json::Object(members) => forall|name: Seq<char>|
            members.contains_key(name) ==> whole_numbers(#[trigger] members[name]),
        _ => true,
    }
}

/// Every JSON value equals itself.
pub proof fn law_same_json_reflexive(a: Json)
    ensures
        same_json(a, a),
    decreases a,
{
    match a {
        Json::List(x) => {
            assert forall|i: int| 0 <= i < x.len() implies same_json(#[trigger] x[i], x[i]) by {
                law_same_json_reflexive(x[i]);
            }
        },
        Json::Object(x) => {
            assert forall|name: Seq<char>| x.contains_key(name) implies same_json(
                #[trigger] x[name],
                x[name],
            ) by {
                law_same_json_reflexive(x[name]);
            }
        },
        _ => {},
    }
}

/// Equality of JSON values goes both ways.
pub proof fn law_same_json_symmetric(a: Json, b: Json)
    requires
        same_json(a, b),
    ensures
        same_json(b, a),
    decreases a,
{
    match (a, b) {
        (Json::List(x), Json::List(y)) => {
            assert forall|i: int| 0 <= i < y.len() implies same_json(#[trigger] y[i], x[i]) by {
                assert(same_json(x[i], y[i]));
                law_same_json_symmetric(x[i], y[i]);
            }
        },
        (Json::Object(x), Json::Object(y)) => {
            assert forall|name: Seq<char>| y.contains_key(name) implies same_json(
                #[trigger] y[name],
                x[name],
            ) by {
                assert(x.dom().contains(name));
                assert(same_json(x[name], y[name]));
                law_same_json_symmetric(x[name], y[name]);
            }
        },
        _ => {},
    }
}

/// JSON values that equal the same value are equal.
pub proof fn law_same_json_transitive(a: Json, b: Json, c: Json)
    requires
        same_json(a, b),
        same_json(b, c),
    ensures
        same_json(a, c),
    decreases a,
{
    match (a, b, c) {
        (Json::List(x), Json::List(y), Json::List(z)) => {
            assert forall|i: int| 0 <= i < x.len() implies same_json(#[trigger] x[i], z[i]) by {
                assert(same_json(x[i], y[i]));
                assert(same_json(y[i], z[i]));
                law_same_json_transitive(x[i], y[i], z[i]);
            }
        },
        (Json::Object(x), Json::Object(y), Json::Object(z)) => {
            assert forall|name: Seq<char>| x.contains_key(name) implies same_json(
                #[trigger] x[name],
                z[name],
            ) by {
                assert(same_json(x[name], y[name]));
                assert(y.dom().contains(name));
                assert(same_json(y[name], z[name]));
                law_same_json_transitive(x[name], y[name], z[name]);
            }
        },
        _ => {},
    }
}

impl Number {
    fn copy(&self) -> (copy: Self)
        ensures
            copy@ == self@,
    {
        match self {
            Number::PosInt(n) => Number::PosInt(*n),
            Number::NegInt(n) => Number::NegInt(*n),
            Number::Float(text) => Number::Float(text.clone()),
        }
    }

    /// Whether two numbers are equal.
    pub fn same(&self, other: &Number) -> (same: bool)
        ensures
            same == same_num(self@, other@),
    {
        match (self, other) {
            (Number::PosInt(a), Number::PosInt(b)) => *a == *b,
            (Number::NegInt(a), Number::NegInt(b)) => *a == *b,
            (Number::Float(a), Number::Float(b)) => same_text(a.as_str(), b.as_str()) || (
            is_float_zero(a.as_str()) && is_float_zero(b.as_str())),
            _ => false,
        }
    }
}

fn is_float_zero(text: &str) -> (zero: bool)
    ensures
        zero == float_zero(text@),
{
    same_text(text, "0.0") || same_text(text, "-0.0")
}

impl JsonValue {
    fn copy(&self) -> (copy: Self)
        ensures
            copy@ == self@,
        decreases self,
    {
        match self {
            JsonValue::Null => JsonValue::Null,
            JsonValue::Bool(b) => JsonValue::Bool(*b),
            JsonValue::Number(n) => JsonValue::Number(n.copy()),
            JsonValue::String(s) => JsonValue::String(s.clone()),
            JsonValue::Array(items) => {
                let mut copies: Vec<JsonValue> = Vec::new();
                let mut i: usize = 0;
                while i < items.len()
                    invariant
                        i <= items@.len(),
                        *self == JsonValue::Array(*items),
                        copies@.len() == i,
                        forall|j: int| 0 <= j < i ==> (#[trigger] copies@[j])@ == items@[j]@,
                    decreases items@.len() - i,
                {
                    proof {
                        lemma_item_decreases(*self, i as int);
                    }
                    copies.push(items[i].copy());
                    i += 1;
                }
                let copy = JsonValue::Array(copies);
                proof {
                    lemma_array_json(*items);
                    lemma_array_json(copies);
                    assert(jsons(copies@) =~= jsons(items@));
                }
                copy
            },
            JsonValue::Object(table) => {
                let mut copies: Table<JsonValue> = Table::new();
                let len = table.len();
                let ghost names = table.names();
                let mut i: usize = 0;
                proof {
                    lemma_first_of_ends(names, table@.dom());
                    assert(copies@.dom() =~= first_of(names, 0));
                }
                while i < len
                    invariant
                        i <= len,
                        len == names.len(),
                        *self == JsonValue::Object(*table),
                        names == table.names(),
                        lists(names, table@.dom()),
                        copies@.dom() == first_of(names, i as int),
                        forall|name: Seq<char>| #[trigger]
                            copies@.contains_key(name) ==> copies@[name]@ == table@[name]@,
                    decreases len - i,
                {
                    proof {
                        lemma_first_of(names, i as int);
                    }
                    let value = table.value(i);
                    proof {
                        lemma_member_decreases(*self, names[i as int]);
                    }
                    copies.insert(table.name(i).to_owned(), value.copy());
                    assert(copies@.dom() =~= first_of(names, i + 1));
                    i += 1;
                }
                proof {
                    lemma_first_of_ends(names, table@.dom());
                    lemma_object_json(*table);
                    lemma_object_json(copies);
                    assert(copies.deep_view() =~= table.deep_view());
                }
                JsonValue::Object(copies)
            },
        }
    }

    /// Whether two values are equal.
    pub fn same(&self, other: &JsonValue) -> (same: bool)
        ensures
            same == same_json(self@, other@),
        decreases self,
    {
        match (self, other) {
            (JsonValue::Null, JsonValue::Null) => true,
            (JsonValue::Bool(a), JsonValue::Bool(b)) => *a == *b,
            (JsonValue::Number(a), JsonValue::Number(b)) => a.same(b),
            (JsonValue::String(a), JsonValue::String(b)) => same_text(a.as_str(), b.as_str()),
            (JsonValue::Array(a), JsonValue::Array(b)) => {
                proof {
                    lemma_array_json(*a);
                    lemma_array_json(*b);
                }
                if a.len() != b.len() {
                    return false;
                }
                let mut i: usize = 0;
                while i < a.len()
                    invariant
                        i <= a@.len(),
                        a@.len() == b@.len(),
                        *self == JsonValue::Array(*a),
                        self@ == Json::List(jsons(a@)),
                        other@ == Json::List(jsons(b@)),
                        forall|j: int| 0 <= j < i ==> same_json(#[trigger] a@[j]@, b@[j]@),
                    decreases a@.len() - i,
                {
                    proof {
                        lemma_item_decreases(*self, i as int);
                    }
                    if !a[i].same(&b[i]) {
                        assert(!same_json(jsons(a@)[i as int], jsons(b@)[i as int]));
                        return false;
                    }
                    i += 1;
                }
                assert forall|j: int| 0 <= j < jsons(a@).len() implies same_json(
                    #[trigger] jsons(a@)[j],
                    jsons(b@)[j],
                ) by {
                    assert(same_json(a@[j]@, b@[j]@));
                }
                true
            },
            (JsonValue::Object(a), JsonValue::Object(b)) => {
                proof {
                    lemma_object_json(*a);
                    lemma_object_json(*b);
                }
                let len = a.len();
                let ghost names = a.names();
                let ghost x = a.deep_view();
                let ghost y = b.deep_view();
                let mut i: usize = 0;
                proof {
                    lemma_first_of_ends(names, a@.dom());
                }
                while i < len
                    invariant
                        i <= len,
                        len == names.len(),
                        *self == JsonValue::Object(*a),
                        self@ == Json::Object(x),
                        other@ == Json::Object(y),
                        x == a.deep_view(),
                        y == b.deep_view(),
                        names == a.names(),
                        lists(names, a@.dom()),
                        forall|name: Seq<char>| #[trigger]
                            first_of(names, i as int).contains(name) ==> y.contains_key(name)
                                && same_json(x[name], y[name]),
                    decreases len - i,
                {
                    let ghost name = names[i as int];
                    proof {
                        lemma_first_of(names, i as int);
                    }
                    let value = a.value(i);
                    assert(x[name] == value@);
                    proof {
                        lemma_member_decreases(*self, name);
                    }
                    match b.get(a.name(i)) {
                        None => {
                            assert(x.dom().contains(name));
                            assert(!y.dom().contains(name));
                            return false;
                        },
                        Some(there) => {
                            assert(y[name] == there@);
                            if !value.same(there) {
                                assert(x.contains_key(name) && !same_json(x[name], y[name]));
                                return false;
                            }
                        },
                    }
                    assert(y.contains_key(name) && same_json(x[name], y[name]));
                    i += 1;
                }
                proof {
                    lemma_first_of_ends(names, a@.dom());
                }
                let equal = a.len() == b.len() && all_in(b, a);
                proof {
                    if equal {
                        assert(x.dom() =~= y.dom()) by {
                            assert forall|name: Seq<char>| y.dom().contains(name) implies x.dom().contains(
                                name,
                            ) by {
                                assert(b@.contains_key(name));
                            }
                            assert forall|name: Seq<char>| x.dom().contains(name) implies y.dom().contains(
                                name,
                            ) by {
                                assert(first_of(names, len as int).contains(name));
                                assert(same_json(x[name], y[name]));
                            }
                        }
                        assert forall|name: Seq<char>| x.contains_key(name) implies same_json(
                            #[trigger] x[name],
                            y[name],
                        ) by {
                            assert(first_of(names, len as int).contains(name));
                        }
                    } else if same_json(self@, other@) {
                        assert(a@.dom() =~= b@.dom()) by {
                            assert forall|name: Seq<char>| a@.dom().contains(name) <==> #[trigger]
                                b@.dom().contains(name) by {
                                assert(x.dom().contains(name) <==> y.dom().contains(name));
                            }
                        }
                        assert(a.names() == b.names());
                    }
                }
                equal
            },
            _ => false,
        }
    }
}

/// Whether every name of one table is a name of another.
fn all_in(table: &Table<JsonValue>, other: &Table<JsonValue>) -> (all: bool)
    ensures
        all == table@.dom().subset_of(other@.dom()),
{
    let len = table.len();
    let ghost names = table.names();
    let mut i: usize = 0;
    proof {
        lemma_first_of_ends(names, table@.dom());
    }
    while i < len
        invariant
            i <= len,
            len == names.len(),
            names == table.names(),
            lists(names, table@.dom()),
            first_of(names, i as int).subset_of(other@.dom()),
        decreases len - i,
    {
        proof {
            lemma_first_of(names, i as int);
        }
        if !other.contains_key(table.name(i)) {
            assert(table@.dom().contains(names[i as int]));
            return false;
        }
        i += 1;
    }
    proof {
        lemma_first_of_ends(names, table@.dom());
    }
    true
}

impl Clone for JsonValue {
    fn clone(&self) -> (copy: Self)
        ensures
            copy@ == self@,
    {
        self.copy()
    }
}

impl Clone for Number {
    fn clone(&self) -> (copy: Self)
        ensures
            copy@ == self@,
    {
        self.copy()
    }
}

impl PartialEq for JsonValue {
    fn eq(&self, other: &Self) -> (same: bool) {
        self.same(other)
    }
}

impl vstd::std_specs::cmp::PartialEqSpecImpl for JsonValue {
    open spec fn obeys_eq_spec() -> bool {
        true
    }

    open spec fn eq_spec(&self, other: &Self) -> bool {
        same_json(self@, other@)
    }
}

impl PartialEq for Number {
    fn eq(&self, other: &Self) -> (same: bool) {
        self.same(other)
    }
}

impl vstd::std_specs::cmp::PartialEqSpecImpl for Number {
    open spec fn obeys_eq_spec() -> bool {
        true
    }

    open spec fn eq_spec(&self, other: &Self) -> bool {
        same_num(self@, other@)
    }
}

} // verus!
