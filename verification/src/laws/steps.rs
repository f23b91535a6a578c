//! Laws of single steps: what each does to what it is given, and to nothing else.

use vstd::prelude::*;
use crate::codec::{canonical, export_settings, export_value, import_value};
use crate::decimal::decimal;
use crate::json::{nests_within, Json, JsonValue, Num, Settings};
use crate::laws::changes::{based, own, refused};
use crate::laws::edits::stays_elsewhere;
use crate::mutation::{inherit_setting, set_base, uninherit_setting};
use crate::node::{Member, Node};
use crate::outside::{input_node, json_of, json_value, jsonc_value, read_with};
use crate::parse::read_jsonc;
use crate::patch::{delta_input, keeps_names_apart, value_input, value_node};
use crate::reconcile::get_setting;
use crate::registry::{
    pretty_text, profile_registry, profile_registry_of, read_json, read_stored_profiles,
    registry_views, stored_profiles_of, ArchivedRegistry, RegistryError, RegistryProfile,
};
use crate::location::Platform;
use crate::source::{copy_profiles, copy_settings, ProfileDelta, Source};
use crate::table::{listed, Names, Table};
use crate::text::{chars_of, precedes};
use vstd::utf8::encode_utf8;

verus! {

/// A profile that inherits a setting has no value of its own for it and does not refuse it. Of
/// every other setting it says what it said.
pub proof fn law_a_profile_inherits(delta: &mut ProfileDelta, setting: &str, other: Seq<char>)
    requires
        call_ensures(ProfileDelta::inherit, (delta, setting), ()),
    ensures
        !final(delta)@.settings.contains_key(setting@),
        !final(delta)@.uninherit.contains(setting@),
        other != setting@ ==> {
            &&& final(delta)@.uninherit.contains(other) == old(delta)@.uninherit.contains(other)
            &&& final(delta)@.settings.contains_key(other) == old(delta)@.settings.contains_key(
                other,
            )
            &&& old(delta)@.settings.contains_key(other) ==> final(delta)@.settings[other] == old(
                delta,
            )@.settings[other]
        },
{
}

/// A profile that overrides a setting has the value as its own, whatever it had before, and does
/// not refuse the setting. Of every other setting it says what it said.
pub proof fn law_a_profile_overrides(
    delta: &mut ProfileDelta,
    setting: &str,
    value: JsonValue,
    other: Seq<char>,
)
    requires
        call_ensures(ProfileDelta::override_with, (delta, setting, value), ()),
    ensures
        final(delta)@.settings.contains_key(setting@),
        final(delta)@.settings[setting@] == value@,
        !final(delta)@.uninherit.contains(setting@),
        other != setting@ ==> {
            &&& final(delta)@.uninherit.contains(other) == old(delta)@.uninherit.contains(other)
            &&& final(delta)@.settings.contains_key(other) == old(delta)@.settings.contains_key(
                other,
            )
            &&& old(delta)@.settings.contains_key(other) ==> final(delta)@.settings[other] == old(
                delta,
            )@.settings[other]
        },
{
}

/// A profile that refuses a setting has no value of its own for it. Of every other setting it
/// says what it said.
pub proof fn law_a_profile_refuses(delta: &mut ProfileDelta, setting: &str, other: Seq<char>)
    requires
        call_ensures(ProfileDelta::uninherit, (delta, setting), ()),
    ensures
        !final(delta)@.settings.contains_key(setting@),
        final(delta)@.uninherit.contains(setting@),
        other != setting@ ==> {
            &&& final(delta)@.uninherit.contains(other) == old(delta)@.uninherit.contains(other)
            &&& final(delta)@.settings.contains_key(other) == old(delta)@.settings.contains_key(
                other,
            )
            &&& old(delta)@.settings.contains_key(other) ==> final(delta)@.settings[other] == old(
                delta,
            )@.settings[other]
        },
{
}

/// A setting that is put into the base has the value there, whether the base had one or not. The
/// rest of the base and all profiles stay.
pub proof fn law_putting_into_the_base(
    source: &mut Source,
    setting: &str,
    value: JsonValue,
    other: Seq<char>,
)
    requires
        call_ensures(set_base, (source, setting, value), ()),
    ensures
        based(final(source)@, setting@) == Some(value@),
        other != setting@ ==> based(final(source)@, other) == based(old(source)@, other),
        final(source)@.profiles == old(source)@.profiles,
        final(source)@.schema == old(source)@.schema,
        final(source)@.version == old(source)@.version,
{
}

/// A setting that a profile of a source is to inherit is neither its own nor refused. Everything
/// else in the source stays.
pub proof fn law_letting_a_profile_inherit(
    source: &mut Source,
    profile: &str,
    setting: &str,
    who: Seq<char>,
    what: Seq<char>,
)
    requires
        call_ensures(inherit_setting, (source, profile, setting), ()),
    ensures
        own(final(source)@, profile@, setting@) is None,
        !refused(final(source)@, profile@, setting@),
        final(source)@.base == old(source)@.base,
        final(source)@.profiles.contains_key(profile@),
        stays_elsewhere(old(source)@, final(source)@, profile@, setting@, who, what),
{
}

/// A setting that a profile of a source is to do without is not its own, and refused. Everything
/// else in the source stays.
pub proof fn law_keeping_a_setting_out(
    source: &mut Source,
    profile: &str,
    setting: &str,
    who: Seq<char>,
    what: Seq<char>,
)
    requires
        call_ensures(uninherit_setting, (source, profile, setting), ()),
    ensures
        own(final(source)@, profile@, setting@) is None,
        refused(final(source)@, profile@, setting@),
        final(source)@.base == old(source)@.base,
        final(source)@.profiles.contains_key(profile@),
        stays_elsewhere(old(source)@, final(source)@, profile@, setting@, who, what),
{
}

/// What is taken from settings is what they have under the name. Settings that are not there
/// have nothing.
pub proof fn law_taking_a_setting<'a>(
    settings: Option<&'a Settings>,
    setting: &str,
    value: Option<&'a JsonValue>,
)
    requires
        call_ensures(get_setting, (settings, setting), value),
    ensures
        settings is None ==> value is None,
        settings matches Some(there) ==> {
            &&& there@.contains_key(setting@) ==> value == Some(&there@[setting@])
            &&& !there@.contains_key(setting@) ==> value is None
        },
{
}

/// A copy of settings has the settings, each with its value.
pub proof fn law_copying_settings(settings: &Settings, copy: Settings, name: Seq<char>)
    requires
        call_ensures(copy_settings, (settings,), copy),
    ensures
        copy@.contains_key(name) <==> settings@.contains_key(name),
        settings@.contains_key(name) ==> copy@[name]@ == settings@[name]@,
{
    if settings@.contains_key(name) {
        assert(copy.deep_view()[name] == settings.deep_view()[name]);
    }
}

/// A copy of the settings of profiles has every profile, with its settings.
pub proof fn law_copying_profiles(
    profiles: &Table<Settings>,
    copy: Table<Settings>,
    profile: Seq<char>,
    name: Seq<char>,
)
    requires
        call_ensures(copy_profiles, (profiles,), copy),
    ensures
        copy@.contains_key(profile) <==> profiles@.contains_key(profile),
        profiles@.contains_key(profile) ==> {
            &&& copy@[profile]@.contains_key(name) <==> profiles@[profile]@.contains_key(name)
            &&& profiles@[profile]@.contains_key(name) ==> copy@[profile]@[name]@
                == profiles@[profile]@[name]@
        },
{
    assert(copy.deep_view().contains_key(profile) == profiles.deep_view().contains_key(profile));
    if profiles@.contains_key(profile) {
        assert(copy.deep_view()[profile] == profiles.deep_view()[profile]);
        assert(copy@[profile].deep_view().contains_key(name)
            == profiles@[profile].deep_view().contains_key(name));
        if profiles@[profile]@.contains_key(name) {
            assert(copy@[profile].deep_view()[name] == profiles@[profile].deep_view()[name]);
        }
    }
}

/// A value that is handed over and taken back is of its kind and holds as much. Where its
/// numbers are held as they are read, it is the value.
pub proof fn law_handing_over_and_back(
    value: &JsonValue,
    outside: serde_json::Value,
    back: JsonValue,
)
    requires
        call_ensures(export_value, (value,), outside),
        call_ensures(import_value, (outside,), back),
    ensures
        value@ is Null || value@ is Bool || value@ is Text ==> back@ == value@,
        value@ matches Json::Number(Num::PosInt(n)) ==> back@ == value@,
        value@ matches Json::Number(Num::NegInt(n)) ==> back@ == if n < 0 {
            value@
        } else {
            Json::Number(Num::PosInt(n as u64))
        },
        value@ matches Json::List(items) ==> back@ is List && back@->List_0.len() == items.len(),
        value@ matches Json::Object(members) ==> back@ is Object && back@->Object_0.dom()
            == members.dom(),
        canonical(value@) ==> back@ == value@,
{
    crate::laws::carrying::law_handing_over(value@);
}

/// Settings are handed over as the object of what they hold.
pub proof fn law_handing_settings_over(
    settings: &Settings,
    outside: serde_json::Value,
    name: Seq<char>,
)
    requires
        call_ensures(export_settings, (settings,), outside),
    ensures
        json_of(outside) is Object,
        json_of(outside)->Object_0.contains_key(name) <==> settings@.contains_key(name),
        settings@.contains_key(name) && canonical(settings@[name]@) ==> json_of(
            outside,
        )->Object_0[name] == settings@[name]@,
{
    let whole = Json::Object(settings.deep_view());
    crate::laws::carrying::law_handing_over(whole);
    if settings@.contains_key(name) {
        crate::laws::carrying::law_handing_over(settings.deep_view()[name]);
    }
    assert(json_of(outside)->Object_0.dom() == settings.deep_view().dom());
    assert(settings.deep_view().dom().contains(name) <==> settings@.contains_key(name));
}

/// What is read from a text with comments is what the text holds, and the text is refused with
/// the reason why it is not read.
pub proof fn law_reading_with_comments(text: &str, read: Result<JsonValue, String>)
    requires
        call_ensures(read_jsonc, (text,), read),
    ensures
        jsonc_value(text@) matches Ok(json) ==> (read matches Ok(value) && value@ == json),
        jsonc_value(text@) matches Err(reason) ==> (read matches Err(said) && said@ == reason),
{
}

/// What is read from bytes is what they hold, and nothing where they hold no JSON.
pub proof fn law_reading_bytes(bytes: &[u8], value: Option<JsonValue>)
    requires
        call_ensures(read_json, (bytes,), value),
    ensures
        json_value(bytes@) matches Some(json) ==> (value matches Some(found) && found@ == json),
        json_value(bytes@) is None ==> value is None,
{
}

/// A value whose numbers are integers, held as they are read, and that is not too deep is read
/// again from the text that is written for it.
pub proof fn law_written_text_is_read_again(
    value: &JsonValue,
    text: String,
    bytes: &[u8],
    read: Option<JsonValue>,
)
    requires
        call_ensures(pretty_text, (value,), text),
        bytes@ == encode_utf8(text@),
        call_ensures(read_json, (bytes,), read),
        canonical(value@),
        crate::json::whole_numbers(value@),
        nests_within(value@, 127),
    ensures
        read matches Some(found) && found@ == value@,
{
}

/// Reading the list of profiles from bytes is reading the bytes and finding the list in what was
/// read.
pub proof fn law_reading_stored_profiles(
    bytes: &[u8],
    profiles: Option<Vec<RegistryProfile>>,
    read: Option<JsonValue>,
    found: Option<Vec<RegistryProfile>>,
)
    requires
        call_ensures(read_stored_profiles, (bytes,), profiles),
        call_ensures(read_json, (bytes,), read),
        call_ensures(stored_profiles_of, (&read,), found),
    ensures
        profiles is Some <==> found is Some,
        profiles is Some ==> registry_views(profiles->0@) == registry_views(found->0@),
{
}

/// Reading a registry from bytes is reading the bytes and taking the registry from what was read:
/// both give one, or neither does.
pub proof fn law_reading_a_registry(
    platform: Platform,
    stored: bool,
    bytes: &[u8],
    result: Result<ArchivedRegistry, RegistryError>,
    read: Option<JsonValue>,
    found: Result<ArchivedRegistry, RegistryError>,
)
    requires
        call_ensures(profile_registry, (platform, stored, bytes), result),
        call_ensures(read_json, (bytes,), read),
        call_ensures(profile_registry_of, (platform, stored, &read), found),
    ensures
        result is Ok <==> found is Ok,
        result is Ok ==> result->Ok_0.kind@ == found->Ok_0.kind@,
        result is Ok ==> result->Ok_0.registry@ == found->Ok_0.registry@,
{
}

/// A value is put into a document as the tree of what it holds: a number by its numeral, the
/// items of a list in their order, the members of an object in the order of their names.
pub proof fn law_putting_values_into_a_document(
    value: &JsonValue,
    input: jsonc_parser::cst::CstInputValue,
    i: int,
)
    requires
        call_ensures(value_input, (value,), input),
    ensures
        value@ is Null ==> input_node(input) == Node::Null,
        value@ matches Json::Bool(b) ==> input_node(input) == Node::Bool(b),
        value@ matches Json::Text(text) ==> input_node(input) == Node::Text(text),
        value@ matches Json::Number(Num::PosInt(n)) ==> input_node(input) == Node::Number(
            decimal(n as nat),
        ),
        value@ matches Json::Number(Num::NegInt(n)) ==> n < 0 ==> input_node(input)
            == Node::Number(seq!['-'] + decimal((-n) as nat)),
        value@ matches Json::Number(Num::Float(text)) ==> input_node(input) == Node::Number(text),
        value@ matches Json::List(items) ==> {
            &&& input_node(input) is List
            &&& input_node(input)->List_0.len() == items.len()
            &&& 0 <= i < items.len() ==> input_node(input)->List_0[i] == value_node(items[i])
        },
        value@ matches Json::Object(members) ==> {
            &&& input_node(input) is Object
            &&& input_node(input)->Object_0.len() == listed(members.dom()).len()
            &&& 0 <= i < listed(members.dom()).len() && members.contains_key(
                listed(members.dom())[i],
            ) ==> input_node(input)->Object_0[i] == (Member {
                name: listed(members.dom())[i],
                value: value_node(members[listed(members.dom())[i]]),
            })
        },
{
}

/// A profile is put into a document as an object: what it refuses stands first, as the list
/// `uninherit` in the order of the names, and only where it refuses anything. Its own settings
/// stand behind it, in the order of their names.
pub proof fn law_putting_profiles_into_a_document(
    delta: &ProfileDelta,
    input: jsonc_parser::cst::CstInputValue,
    i: int,
)
    requires
        call_ensures(delta_input, (delta,), input),
    ensures
        input_node(input) is Object,
        ({
            let members = input_node(input)->Object_0;
            let names = listed(delta@.settings.dom());
            let row = listed(delta@.uninherit);
            let none = forall|name: Seq<char>| !(#[trigger] delta@.uninherit.contains(name));
            let first: int = if none {
                0
            } else {
                1
            };
            &&& members.len() == first + names.len()
            &&& !none ==> {
                &&& members[0].name == "uninherit"@
                &&& members[0].value is List
                &&& members[0].value->List_0.len() == row.len()
                &&& 0 <= i < row.len() ==> members[0].value->List_0[i] == Node::Text(row[i])
            }
            &&& 0 <= i < names.len() && delta@.settings.contains_key(names[i]) ==> members[first
                + i] == (Member { name: names[i], value: value_node(delta@.settings[names[i]]) })
        }),
{
    let none = forall|name: Seq<char>| !(#[trigger] delta@.uninherit.contains(name));
    if none {
        assert(delta@.uninherit =~= Set::<Seq<char>>::empty());
    } else {
        assert(delta@.uninherit != Set::<Seq<char>>::empty());
    }
}

/// The names of a text stand apart where it is read with all its names in quotes, or with all its
/// commas.
pub proof fn law_names_stand_apart(text: &str, apart: bool)
    requires
        call_ensures(keeps_names_apart, (text,), apart),
    ensures
        read_with(text@, false, true) ==> apart,
        read_with(text@, true, false) ==> apart,
        apart ==> read_with(text@, false, true) || read_with(text@, true, false),
{
}

/// The characters of a text are all of it, in their order.
pub proof fn law_characters(text: &str, chars: Vec<char>, i: int)
    requires
        call_ensures(chars_of, (text,), chars),
    ensures
        chars@.len() == text@.len(),
        0 <= i < text@.len() ==> chars@[i] == text@[i],
{
}

/// A table without entries is empty, and no other. The entries stand in the order of their
/// names, each name with the value under it.
pub proof fn law_going_through_a_table(
    table: &Settings,
    empty: bool,
    at: usize,
    name: &str,
    value: &JsonValue,
    later: usize,
    next: &str,
    len: usize,
)
    requires
        call_ensures(Table::<JsonValue>::is_empty, (table,), empty),
        call_ensures(Table::<JsonValue>::name, (table, at), name),
        call_ensures(Table::<JsonValue>::value, (table, at), value),
        call_ensures(Table::<JsonValue>::name, (table, later), next),
        call_ensures(Table::<JsonValue>::len, (table,), len),
    ensures
        empty ==> forall|other: Seq<char>| !(#[trigger] table@.contains_key(other)),
        (forall|other: Seq<char>| !(#[trigger] table@.contains_key(other))) ==> empty,
        table@.contains_key(name@),
        *value == table@[name@],
        at < later < len ==> precedes(name@, next@),
{
    if forall|other: Seq<char>| !(#[trigger] table@.contains_key(other)) {
        assert(table@.dom() =~= Set::<Seq<char>>::empty());
    }
    if empty {
        assert forall|other: Seq<char>| !(#[trigger] table@.contains_key(other)) by {
            assert(!table@.dom().contains(other));
        }
    }
}

/// A set of names without names is empty, and no other. A name is found where it is in the set,
/// and each of its names is in it.
pub proof fn law_looking_into_sets(
    names: &Names,
    empty: bool,
    wanted: &str,
    found: bool,
    at: usize,
    name: &str,
)
    requires
        call_ensures(Names::is_empty, (names,), empty),
        call_ensures(Names::contains, (names, wanted), found),
        call_ensures(Names::name, (names, at), name),
    ensures
        empty ==> !names@.contains(wanted@),
        (forall|other: Seq<char>| !(#[trigger] names@.contains(other))) ==> empty,
        found <==> names@.contains(wanted@),
        names@.contains(name@),
{
    if forall|other: Seq<char>| !(#[trigger] names@.contains(other)) {
        assert(names@ =~= Set::<Seq<char>>::empty());
    }
}

/// A name that is taken away from a set is gone, and no other name.
pub proof fn law_taking_names_away(
    names: &mut Names,
    name: &str,
    found: bool,
    other: Seq<char>,
)
    requires
        call_ensures(Names::remove, (names, name), found),
    ensures
        !final(names)@.contains(name@),
        found <==> old(names)@.contains(name@),
        other != name@ ==> (final(names)@.contains(other) <==> old(names)@.contains(other)),
{
}

/// Adding the names of a table adds each of them, and takes none away.
pub proof fn law_adding_names(names: &mut Names, table: &Settings, other: Seq<char>)
    requires
        call_ensures(Names::insert_names_of::<JsonValue>, (names, table), ()),
    ensures
        final(names)@.contains(other) <==> old(names)@.contains(other) || table@.contains_key(
            other,
        ),
{
}

} // verus!
