//! Laws of values: which of them are equal, and what tables hold.

use vstd::prelude::*;
use crate::json::{
    at, law_same_json_reflexive, same_json, same_option, same_settings, whole_numbers, Json,
    JsonValue, Num, Number, Settings, SettingsMap,
};
use crate::place::Place;
use crate::reconcile::{setting_at, ProfilesMap};
use crate::source::{ProfileDelta, Source, StateSnapshot};
use crate::table::Table;

verus! {

/// Equality tells values apart: where the numbers of one of two values are integers, the values
/// are equal only where they are one value. A value always equals itself.
pub proof fn law_equal_values_are_one(a: Json, b: Json)
    ensures
        a == b ==> same_json(a, b),
        same_json(a, b) && whole_numbers(a) ==> a == b,
        same_json(a, b) && whole_numbers(b) ==> a == b,
    decreases a,
{
    law_same_json_reflexive(a);
    if same_json(a, b) && (whole_numbers(a) || whole_numbers(b)) {
        match (a, b) {
            (Json::List(x), Json::List(y)) => {
                assert forall|i: int| 0 <= i < x.len() implies x[i] == y[i] by {
                    assert(same_json(x[i], y[i]));
                    assert(whole_numbers(a) ==> whole_numbers(x[i]));
                    assert(whole_numbers(b) ==> whole_numbers(y[i]));
                    law_equal_values_are_one(x[i], y[i]);
                }
                assert(x =~= y);
            },
            (Json::Object(x), Json::Object(y)) => {
                assert forall|name: Seq<char>| #[trigger] x.contains_key(name) implies x[name]
                    == y[name] by {
                    assert(y.dom().contains(name));
                    assert(same_json(x[name], y[name]));
                    assert(whole_numbers(a) ==> whole_numbers(x[name]));
                    assert(whole_numbers(b) ==> whole_numbers(y[name]));
                    law_equal_values_are_one(x[name], y[name]);
                }
                assert(x =~= y);
            },
            _ => {},
        }
    }
}

/// Every value without a number that is no integer has integers only: such are null, booleans,
/// texts, integers, and lists and objects of such values.
pub proof fn law_whole_numbers(value: Json)
    ensures
        value is Null || value is Bool || value is Text ==> whole_numbers(value),
        value matches Json::Number(number) ==> whole_numbers(value) == !(number is Float),
        value matches Json::List(items) ==> (whole_numbers(value) <==> forall|i: int|
            0 <= i < items.len() ==> whole_numbers(#[trigger] items[i])),
        value matches Json::Object(members) ==> (whole_numbers(value) <==> forall|name: Seq<char>|
            members.contains_key(name) ==> whole_numbers(#[trigger] members[name])),
{
}

/// Texts, booleans and integers are equal only where they are one, numbers with a fraction where
/// they have one text or are both zero, and values of two kinds never.
pub proof fn law_plain_values_are_told_apart(
    x: Seq<char>,
    y: Seq<char>,
    p: bool,
    q: bool,
    m: Num,
    n: Num,
    a: Json,
    b: Json,
)
    ensures
        same_json(Json::Text(x), Json::Text(y)) <==> x == y,
        same_json(Json::Bool(p), Json::Bool(q)) <==> p == q,
        same_json(Json::Null, Json::Null),
        same_json(Json::Number(Num::Float(x)), Json::Number(Num::Float(y))) <==> x == y || ((x
            == "0.0"@ || x == "-0.0"@) && (y == "0.0"@ || y == "-0.0"@)),
        !(m is Float && n is Float) ==> (same_json(Json::Number(m), Json::Number(n)) <==> m == n),
        same_json(a, b) ==> (a is Null <==> b is Null) && (a is Bool <==> b is Bool) && (
        a is Number <==> b is Number) && (a is Text <==> b is Text) && (a is List <==> b is List)
            && (a is Object <==> b is Object),
{
}

/// Lists are equal where they have as many items and each item of one equals that of the other,
/// and objects where they have the same names and each member of one equals that of the other.
pub proof fn law_compound_values_are_compared(
    x: Seq<Json>,
    y: Seq<Json>,
    v: SettingsMap,
    w: SettingsMap,
)
    ensures
        same_json(Json::List(x), Json::List(y)) <==> x.len() == y.len() && forall|i: int|
            0 <= i < x.len() ==> same_json(#[trigger] x[i], y[i]),
        same_json(Json::Object(v), Json::Object(w)) <==> (forall|name: Seq<char>|
            v.contains_key(name) <==> w.contains_key(name)) && forall|name: Seq<char>|
            v.contains_key(name) ==> same_json(#[trigger] v[name], w[name]),
        same_settings(v, w) <==> same_json(Json::Object(v), Json::Object(w)),
{
    if forall|name: Seq<char>| v.contains_key(name) <==> w.contains_key(name) {
        assert(v.dom() =~= w.dom());
    }
}

/// A value that is missing equals one that is missing and no other, and values that are there
/// are compared.
pub proof fn law_missing_values(a: Option<Json>, b: Option<Json>)
    ensures
        same_option(a, b) <==> (a is Some <==> b is Some) && (a is Some && b is Some
            ==> same_json(a->0, b->0)),
{
}

/// What a map has under a name is there exactly where the map has the name, and what a setting
/// is in a profile where the profile is there and has it.
pub proof fn law_what_is_under_a_name(
    settings: SettingsMap,
    profiles: ProfilesMap,
    profile: Seq<char>,
    setting: Seq<char>,
    value: Json,
)
    ensures
        at(settings, setting) == Some(value) <==> settings.contains_key(setting)
            && settings[setting] == value,
        at(settings, setting) is None <==> !settings.contains_key(setting),
        setting_at(profiles, Place { profile, setting }) == Some(value) <==> profiles.contains_key(
            profile,
        ) && profiles[profile].contains_key(setting) && profiles[profile][setting] == value,
        setting_at(profiles, Place { profile, setting }) is None <==> !(profiles.contains_key(
            profile,
        ) && profiles[profile].contains_key(setting)),
{
}

/// Comparing two values tells values apart.
pub proof fn law_comparing_tells_apart(a: &JsonValue, b: &JsonValue, same: bool)
    requires
        call_ensures(JsonValue::same, (a, b), same),
    ensures
        same == same_json(a@, b@),
        whole_numbers(a@) || whole_numbers(b@) ==> same == (a@ == b@),
        a is String && b is String ==> same == (a->String_0@ == b->String_0@),
        a is Bool && b is Bool ==> same == (a->Bool_0 == b->Bool_0),
{
    law_equal_values_are_one(a@, b@);
}

/// Comparing what two settings are, each of which may be missing, tells them apart.
pub proof fn law_comparing_settings_tells_apart(
    a: Option<&JsonValue>,
    b: Option<&JsonValue>,
    same: bool,
)
    requires
        call_ensures(crate::reconcile::same_values, (a, b), same),
    ensures
        a is None ==> same == (b is None),
        b is None ==> same == (a is None),
        a is Some && b is Some ==> same == same_json(a->0@, b->0@),
        a is Some && b is Some && whole_numbers(a->0@) ==> same == (a->0@ == b->0@),
{
    if a is Some && b is Some {
        law_equal_values_are_one(a->0@, b->0@);
    }
}

/// A value is what its kind and its parts say.
pub proof fn law_values_are_what_they_hold(value: JsonValue, i: int, name: Seq<char>)
    ensures
        value is Null <==> value@ is Null,
        value is Bool <==> value@ is Bool,
        value is Number <==> value@ is Number,
        value is String <==> value@ is Text,
        value is Array <==> value@ is List,
        value is Object <==> value@ is Object,
        value matches JsonValue::Bool(b) ==> value@ == Json::Bool(b),
        value matches JsonValue::Number(Number::PosInt(n)) ==> value@ == Json::Number(
            Num::PosInt(n),
        ),
        value matches JsonValue::Number(Number::NegInt(n)) ==> value@ == Json::Number(
            Num::NegInt(n),
        ),
        value matches JsonValue::Number(Number::Float(text)) ==> value@ == Json::Number(
            Num::Float(text@),
        ),
        value matches JsonValue::String(text) ==> value@ == Json::Text(text@),
        value matches JsonValue::Array(items) ==> value@->List_0.len() == items@.len() && (0 <= i
            < items@.len() ==> value@->List_0[i] == items@[i]@),
        value matches JsonValue::Object(table) ==> (value@->Object_0.contains_key(name)
            <==> table@.contains_key(name)) && (table@.contains_key(name) ==> value@->Object_0[name]
            == table@[name]@),
{
}

/// Settings are what their table holds under each name.
pub proof fn law_settings_are_what_they_hold(settings: Settings, name: Seq<char>)
    ensures
        settings.deep_view().contains_key(name) <==> settings@.contains_key(name),
        settings@.contains_key(name) ==> settings.deep_view()[name] == settings@[name]@,
{
}

/// The settings of profiles are what their tables hold under each name.
pub proof fn law_profiles_are_what_they_hold(
    profiles: Table<Settings>,
    profile: Seq<char>,
    setting: Seq<char>,
)
    ensures
        profiles.deep_view().contains_key(profile) <==> profiles@.contains_key(profile),
        profiles@.contains_key(profile) ==> (profiles.deep_view()[profile].contains_key(setting)
            <==> profiles@[profile]@.contains_key(setting)),
        profiles@.contains_key(profile) && profiles@[profile]@.contains_key(setting)
            ==> profiles.deep_view()[profile][setting] == profiles@[profile]@[setting]@,
{
}

/// A source, what its profiles change, and a state are what their fields hold.
pub proof fn law_sources_are_what_they_hold(
    source: Source,
    delta: ProfileDelta,
    state: StateSnapshot,
    profile: Seq<char>,
    name: Seq<char>,
)
    ensures
        source@.schema is Some <==> source.schema is Some,
        source.schema is Some ==> source@.schema->0 == source.schema->0@,
        source@.version == source.version,
        source@.base == source.base.deep_view(),
        source@.profiles.contains_key(profile) <==> source.profiles@.contains_key(profile),
        source.profiles@.contains_key(profile) ==> source@.profiles[profile]
            == source.profiles@[profile]@,
        delta@.uninherit.contains(name) <==> delta.uninherit@.contains(name),
        delta@.settings == delta.settings.deep_view(),
        state@.revision == state.revision,
        state@.source_hash == state.source_hash@,
        state@.materialized == state.materialized.deep_view(),
        state@.materialized_hashes.contains_key(name) <==> state.materialized_hashes@.contains_key(
            name,
        ),
        state.materialized_hashes@.contains_key(name) ==> state@.materialized_hashes[name]
            == state.materialized_hashes@[name]@,
        state@.known_setting_prefixes == state.known_setting_prefixes@,
{
}

} // verus!
