//! JSON values in and out: between the library's values and those of
//! `serde_json`, and from there to texts and hashes.

use vstd::prelude::*;
use crate::json::{
    jsons, lemma_array_json, lemma_item_decreases, lemma_object_json, nests_within, Json, JsonValue, Num, Settings,
};
use crate::outside::{
    blake3_hex, canonical_number, close_json, compact, float_out, float_read, hash_hex,
    holds_items, holds_members, json_of, jsonc_value, member_names, members_distinct,
    nesting_limit, open_json, pretty, write_compact, write_pretty, Layer,
};
use crate::source::copy_settings;
use crate::table::{lists, Table};
use crate::text::lemma_precedes_asymmetric;

verus! {

proof fn lemma_member_names_finite(members: Seq<(String, serde_json::Value)>)
    ensures
        member_names(members).finite(),
{
    let names = Seq::new(members.len(), |i: int| members[i].0@);
    vstd::seq_lib::seq_to_set_is_finite(names);
    assert(member_names(members) =~= names.to_set()) by {
        assert forall|name: Seq<char>|
            #![trigger member_names(members).contains(name)]
            member_names(members).contains(name) implies names.to_set().contains(name) by {
            let i = choose|i: int| 0 <= i < members.len() && members[i].0@ == name;
            assert(names[i] == name);
        }
        assert forall|name: Seq<char>|
            #![trigger names.to_set().contains(name)]
            names.to_set().contains(name) implies member_names(members).contains(name) by {
            let i = choose|i: int| 0 <= i < names.len() && names[i] == name;
            assert(members[i].0@ == name);
        }
    }
}

/// A value whose numbers are held as `serde_json` holds them.
pub open spec fn canonical(json: Json) -> bool
    decreases json,
{
    match json {
        Json::Number(number) => canonical_number(number),
        Json::List(items) => forall|i: int|
            0 <= i < items.len() ==> canonical(#[trigger] items[i]),
        Json::Object(members) => forall|name: Seq<char>|
            members.contains_key(name) ==> canonical(#[trigger] members[name]),
        _ => true,
    }
}

/// Takes a value over from `serde_json`.
pub fn import_value(value: serde_json::Value) -> (imported: JsonValue)
    ensures
        imported@ == json_of(value),
        canonical(imported@),
    decreases json_of(value),
{
    match open_json(value) {
        Layer::Null => JsonValue::Null,
        Layer::Bool(b) => JsonValue::Bool(b),
        Layer::Number(n) => JsonValue::Number(n),
        Layer::String(s) => JsonValue::String(s),
        Layer::Array(items) => {
            let ghost row = items@;
            let mut done: Vec<JsonValue> = Vec::new();
            for item in it: items
                invariant
                    it.seq() == row,
                    holds_items(json_of(value), row),
                    done@.len() == it.index(),
                    forall|j: int| 0 <= j < it.index() ==> (#[trigger] done@[j])@ == json_of(row[j]),
                    forall|j: int| 0 <= j < it.index() ==> canonical((#[trigger] done@[j])@),
            {
                proof {
                    let list = json_of(value)->List_0;
                    assert(list[it.index()] == json_of(item));
                    assert(decreases_to!(json_of(value) => list));
                    assert(decreases_to!(list => list[it.index()]));
                }
                done.push(import_value(item));
            }
            proof {
                lemma_array_json(done);
                assert(jsons(done@) =~= json_of(value)->List_0);
                assert forall|j: int| 0 <= j < done@.len() implies canonical(
                    #[trigger] jsons(done@)[j],
                ) by {
                    assert(canonical(done@[j]@));
                }
            }
            JsonValue::Array(done)
        },
        Layer::Object(members) => {
            let ghost row = members@;
            let ghost map = json_of(value)->Object_0;
            let mut done: Table<JsonValue> = Table::new();
            proof {
                lemma_member_names_finite(row);
            }
            for member in it: members
                invariant
                    map.dom().finite(),
                    it.seq() == row,
                    holds_members(json_of(value), row),
                    map == json_of(value)->Object_0,
                    done@.dom().subset_of(map.dom()),
                    forall|j: int|
                        #![trigger row[j]]
                        0 <= j < it.index() ==> done@.contains_key(row[j].0@),
                    forall|name: Seq<char>| #[trigger]
                        done@.contains_key(name) ==> done@[name]@ == map[name] && canonical(
                            map[name],
                        ),
            {
                let (name, inner) = member;
                proof {
                    assert(row[it.index()] == member);
                    assert(member_names(row).contains(name@));
                    assert(map.dom().contains(name@));
                    assert(decreases_to!(json_of(value) => map));
                    assert(decreases_to!(map => map[name@]));
                }
                done.insert(name, import_value(inner));
            }
            proof {
                lemma_object_json(done);
                assert(done.deep_view() =~= map) by {
                    assert forall|name: Seq<char>|
                        #![trigger map.dom().contains(name)]
                        map.dom().contains(name) == done.deep_view().dom().contains(name) by {
                        if map.dom().contains(name) {
                            assert(member_names(row).contains(name));
                            let j = choose|j: int| 0 <= j < row.len() && row[j].0@ == name;
                            assert(done@.contains_key(row[j].0@));
                        }
                    }
                }
                assert forall|name: Seq<char>| map.contains_key(name) implies canonical(
                    #[trigger] map[name],
                ) by {
                    assert(done.deep_view().dom().contains(name));
                    assert(done@.contains_key(name));
                }
            }
            JsonValue::Object(done)
        },
    }
}

/// What `serde_json` holds of a value: numbers that are not integers are read from
/// their texts.
pub open spec fn exported(json: Json) -> Json
    decreases json,
{
    match json {
        Json::Number(Num::NegInt(n)) => Json::Number(
            if n < 0 {
                Num::NegInt(n)
            } else {
                Num::PosInt(n as u64)
            },
        ),
        Json::Number(Num::Float(text)) => float_out(float_read(text)),
        Json::List(items) => Json::List(
            Seq::new(
                items.len(),
                |i: int|
                    if 0 <= i < items.len() {
                        exported(items[i])
                    } else {
                        Json::Null
                    },
            ),
        ),
        Json::Object(members) => Json::Object(
            Map::new(
                |name: Seq<char>| members.contains_key(name),
                |name: Seq<char>|
                    if members.contains_key(name) {
                        exported(members[name])
                    } else {
                        Json::Null
                    },
            ),
        ),
        _ => json,
    }
}

/// A value whose numbers are held as `serde_json` holds them is handed over as it is.
pub proof fn lemma_canonical_exported(json: Json)
    requires
        canonical(json),
    ensures
        exported(json) == json,
    decreases json,
{
    match json {
        Json::List(items) => {
            assert forall|i: int| 0 <= i < items.len() implies exported(#[trigger] items[i])
                == items[i] by {
                lemma_canonical_exported(items[i]);
            }
            assert(exported(json)->List_0 =~= items);
        },
        Json::Object(members) => {
            assert forall|name: Seq<char>| members.contains_key(name) implies exported(
                #[trigger] members[name],
            ) == members[name] by {
                lemma_canonical_exported(members[name]);
            }
            assert(exported(json)->Object_0 =~= members);
        },
        _ => {},
    }
}

/// Hands a value over to `serde_json`.
pub fn export_value(value: &JsonValue) -> (outside: serde_json::Value)
    ensures
        json_of(outside) == exported(value@),
        json_of(outside) is Number ==> canonical(json_of(outside)),
    decreases value,
{
    match value {
        JsonValue::Null => close_json(Layer::Null),
        JsonValue::Bool(b) => close_json(Layer::Bool(*b)),
        JsonValue::Number(n) => close_json(Layer::Number(n.clone())),
        JsonValue::String(s) => close_json(Layer::String(s.clone())),
        JsonValue::Array(items) => {
            let mut done: Vec<serde_json::Value> = Vec::new();
            let mut i: usize = 0;
            while i < items.len()
                invariant
                    i <= items@.len(),
                    *value == JsonValue::Array(*items),
                    done@.len() == i,
                    forall|j: int|
                        0 <= j < i ==> json_of(#[trigger] done@[j]) == exported(items@[j]@),
                decreases items@.len() - i,
            {
                proof {
                    lemma_item_decreases(*value, i as int);
                }
                done.push(export_value(&items[i]));
                i += 1;
            }
            let ghost row = done@;
            let outside = close_json(Layer::Array(done));
            proof {
                lemma_array_json(*items);
                assert(json_of(outside)->List_0 =~= exported(value@)->List_0) by {
                    assert forall|j: int| 0 <= j < row.len() implies json_of(
                        outside,
                    )->List_0[j] == exported(value@)->List_0[j] by {
                        assert(json_of(row[j]) == exported(items@[j]@));
                    }
                }
            }
            outside
        },
        JsonValue::Object(table) => {
            let members = export_members(table);
            let outside = close_json(Layer::Object(members));
            proof {
                lemma_object_json(*table);
                lemma_exported_members(json_of(outside), *table, members@);
            }
            outside
        },
    }
}

/// The members of an object as they are handed over: each under its name, in the
/// order of the names.
spec fn hands_over(
    members: Seq<(String, serde_json::Value)>,
    table: Table<JsonValue>,
    names: Seq<Seq<char>>,
    n: int,
) -> bool {
    &&& members.len() == n
    &&& forall|j: int|
        #![trigger members[j]]
        0 <= j < n ==> members[j].0@ == names[j] && json_of(members[j].1) == exported(
            table@[names[j]]@,
        )
}

proof fn lemma_exported_members(
    json: Json,
    table: Table<JsonValue>,
    members: Seq<(String, serde_json::Value)>,
)
    requires
        lists(table.names(), table@.dom()),
        hands_over(members, table, table.names(), table.names().len() as int),
        holds_members(json, members),
    ensures
        json == exported(Json::Object(table.deep_view())),
{
    let whole = exported(Json::Object(table.deep_view()))->Object_0;
    let names = table.names();
    assert(json->Object_0 =~= whole) by {
        assert forall|name: Seq<char>|
            #![trigger whole.dom().contains(name)]
            json->Object_0.dom().contains(name) == whole.dom().contains(name) && (
            whole.dom().contains(name) ==> json->Object_0[name] == whole[name]) by {
            if whole.dom().contains(name) {
                assert(table@.dom().contains(name));
                assert(names.contains(name));
                let j = choose|j: int| 0 <= j < names.len() && names[j] == name;
                assert(members[j].0@ == name);
                assert(member_names(members).contains(name));
            }
            if json->Object_0.dom().contains(name) {
                assert(member_names(members).contains(name));
                let j = choose|j: int| 0 <= j < members.len() && members[j].0@ == name;
                assert(members[j].0@ == names[j]);
                assert(names.contains(names[j]));
                assert(table@.dom().contains(name));
            }
        }
    }
}

/// Hands the members of an object over to `serde_json`.
fn export_members(table: &Table<JsonValue>) -> (members: Vec<(String, serde_json::Value)>)
    ensures
        lists(table.names(), table@.dom()),
        hands_over(members@, *table, table.names(), table.names().len() as int),
        members_distinct(members@),
    decreases table,
{
    let mut members: Vec<(String, serde_json::Value)> = Vec::new();
    let len = table.len();
    let ghost names = table.names();
    let mut i: usize = 0;
    while i < len
        invariant
            i <= len,
            len == names.len(),
            names == table.names(),
            lists(names, table@.dom()),
            hands_over(members@, *table, names, i as int),
        decreases len - i,
    {
        let value = table.value(i);
        proof {
            crate::table::lemma_table_decreases(*table, names[i as int]);
        }
        members.push((table.name(i).to_owned(), export_value(value)));
        i += 1;
    }
    assert forall|i: int, j: int|
        #![trigger members@[i], members@[j]]
        0 <= i < j < members@.len() implies members@[i].0@ != members@[j].0@ by {
        lemma_precedes_asymmetric(names[i], names[j]);
    }
    members
}

/// The settings as one JSON value.
pub open spec fn settings_json(settings: Map<Seq<char>, Json>) -> Json {
    exported(Json::Object(settings))
}

/// Hands settings over to `serde_json` as one object.
pub fn export_settings(settings: &Settings) -> (outside: serde_json::Value)
    ensures
        json_of(outside) == settings_json(settings.deep_view()),
{
    let value = JsonValue::Object(copy_settings(settings));
    proof {
        lemma_object_json(value->Object_0);
    }
    export_value(&value)
}

/// The hash of settings: the BLAKE3 hash of their JSON without white space.
pub open spec fn settings_hash(settings: Map<Seq<char>, Json>) -> Seq<char> {
    blake3_hex(compact(settings_json(settings)))
}

/// Hashes settings.
pub fn content_hash(settings: &Settings) -> (hash: String)
    ensures
        hash@ == settings_hash(settings.deep_view()),
{
    hash_hex(write_compact(&export_settings(settings)).as_slice())
}

/// The text in which settings are written: their JSON with white space, and a line
/// feed.
pub open spec fn settings_text(settings: Map<Seq<char>, Json>) -> Seq<char> {
    pretty(settings_json(settings)).push('\n')
}

/// A value that is read again as it was written, also within settings: its numbers are held as
/// `serde_json` holds them, and not too many lists and objects stand in each other.
pub open spec fn storable(json: Json) -> bool {
    canonical(json) && nests_within(json, (nesting_limit() - 1) as nat)
}

/// Settings that are read again as they were written.
pub open spec fn storable_settings(settings: Map<Seq<char>, Json>) -> bool {
    forall|name: Seq<char>| settings.contains_key(name) ==> storable(#[trigger] settings[name])
}

/// Writes settings. What is written is read again as the settings.
pub fn canonical_json(settings: &Settings) -> (text: String)
    ensures
        text@ == settings_text(settings.deep_view()),
        storable_settings(settings.deep_view()) ==> jsonc_value(text@) == Ok::<Json, Seq<char>>(
            Json::Object(settings.deep_view()),
        ),
{
    proof {
        let map = settings.deep_view();
        if storable_settings(map) {
            assert forall|name: Seq<char>| map.contains_key(name) implies canonical(
                #[trigger] map[name],
            ) && nests_within(map[name], (nesting_limit() - 1) as nat) by {
                assert(storable(map[name]));
            }
            lemma_canonical_exported(Json::Object(map));
            assert(nests_within(settings_json(map), nesting_limit()));
        }
    }
    let mut text = write_pretty(&export_settings(settings));
    proof {
        reveal_strlit("\n");
    }
    let ghost before = text@;
    text.append("\n");
    assert(text@ =~= before.push('\n'));
    text
}

} // verus!
