//! Reading a source from its text.

use vstd::prelude::*;
use crate::codec::{canonical, import_value, storable_settings};
use crate::draft::{drafts_read, drafts_tokens, drafts_tree, tells_drafts};
use crate::json::{
    at, jsons, lemma_array_json, lemma_object_json, nests_within, Json, JsonValue, Num, Number,
    Settings, SettingsMap,
};
use crate::node::{Member, Node};
use crate::outside::{
    goes_by_tree, json_of, jsonc_value, nesting_limit, node_items, node_members, object_fault,
    open_syntax, parse_jsonc, parse_object, parse_syntax, syntax_node, tokens_in, tree_read, SyntaxLayer,
};
use crate::source::{
    copy_settings, schema_version, sound_source, validate_source, verdict, CoreError, DeltaView,
    ProfileDelta, Source, SourceView,
};
use crate::storable::{lemma_decoded_storable, lemma_read_storable, storable_source};
use crate::table::{first_of, lemma_first_of, lemma_first_of_ends, lists, Names, Table};
use crate::text::same_text;
use crate::tokens::{marks_fit, scan_tokens, tokens_fit, without_comments};

verus! {

/// The schema that a source names: null counts as none.
pub open spec fn decoded_schema(field: Option<Json>) -> Option<Option<Seq<char>>> {
    match field {
        None => Some(None),
        Some(Json::Null) => Some(None),
        Some(Json::Text(schema)) => Some(Some(schema)),
        _ => None,
    }
}

/// The version of a source.
pub open spec fn decoded_version(field: Option<Json>) -> Option<u32> {
    match field {
        None => Some(1),
        Some(Json::Number(Num::PosInt(version))) => if version <= u32::MAX {
            Some(version as u32)
        } else {
            None
        },
        _ => None,
    }
}

/// The settings of the base.
pub open spec fn decoded_base(field: Option<Json>) -> Option<SettingsMap> {
    match field {
        None => Some(Map::empty()),
        Some(Json::Object(settings)) => Some(settings),
        _ => None,
    }
}

/// Whether a value is a list of texts.
pub open spec fn is_text_list(json: Json) -> bool {
    &&& json is List
    &&& forall|i: int| 0 <= i < json->List_0.len() ==> #[trigger] json->List_0[i] is Text
}

/// The texts of a list of texts.
pub open spec fn text_set(json: Json) -> Set<Seq<char>> {
    Set::new(
        |name: Seq<char>|
            exists|i: int|
                0 <= i < json->List_0.len() && #[trigger] json->List_0[i] == Json::Text(name),
    )
}

/// The member of a profile that lists what it does not inherit.
pub open spec fn uninherit_name() -> Seq<char> {
    "uninherit"@
}

/// What a profile changes: `uninherit` lists what it does not take from the base,
/// and every other member is a setting of its own.
pub open spec fn decoded_delta(json: Json) -> Option<DeltaView> {
    match json {
        Json::Object(members) => match at(members, uninherit_name()) {
            None => Some(DeltaView { uninherit: Set::empty(), settings: members }),
            Some(list) => if is_text_list(list) {
                Some(
                    DeltaView {
                        uninherit: text_set(list),
                        settings: members.remove(uninherit_name()),
                    },
                )
            } else {
                None
            },
        },
        _ => None,
    }
}

/// The profiles of a source.
pub open spec fn decoded_profiles(field: Option<Json>) -> Option<Map<Seq<char>, DeltaView>> {
    match field {
        None => Some(Map::empty()),
        Some(Json::Object(profiles)) => if forall|name: Seq<char>|
            profiles.contains_key(name) ==> decoded_delta(#[trigger] profiles[name]) is Some {
            Some(
                Map::new(
                    |name: Seq<char>| profiles.contains_key(name),
                    |name: Seq<char>| decoded_delta(profiles[name])->0,
                ),
            )
        } else {
            None
        },
        _ => None,
    }
}

/// A source by its fields.
pub open spec fn decoded_fields(
    schema: Option<Json>,
    version: Option<Json>,
    base: Option<Json>,
    profiles: Option<Json>,
) -> Option<SourceView> {
    match (
        decoded_schema(schema),
        decoded_version(version),
        decoded_base(base),
        decoded_profiles(profiles),
    ) {
        (Some(schema), Some(version), Some(base), Some(profiles)) => Some(
            SourceView { schema, version, base, profiles },
        ),
        _ => None,
    }
}

/// The names that the fields of a source have.
pub open spec fn field_names() -> Set<Seq<char>> {
    set!["$schema"@, "version"@, "base"@, "profiles"@]
}

/// What a list holds at a place.
pub open spec fn item_at(items: Seq<Json>, i: int) -> Option<Json> {
    if i < items.len() {
        Some(items[i])
    } else {
        None
    }
}

/// The source that a value stands for: an object of its fields, or a list of them in
/// their order.
pub open spec fn decoded(json: Json) -> Option<SourceView> {
    match json {
        Json::Object(members) => if members.dom().subset_of(field_names()) {
            decoded_fields(
                at(members, "$schema"@),
                at(members, "version"@),
                at(members, "base"@),
                at(members, "profiles"@),
            )
        } else {
            None
        },
        Json::List(items) => decoded_fields(
            item_at(items, 0),
            item_at(items, 1),
            item_at(items, 2),
            item_at(items, 3),
        ),
        _ => None,
    }
}

fn decode_schema(field: Option<&JsonValue>) -> (schema: Option<Option<String>>)
    ensures
        match decoded_schema(view_of(field)) {
            Some(Some(text)) => schema matches Some(Some(found)) && found@ == text,
            Some(None) => schema == Some(None::<String>),
            None => schema is None,
        },
{
    match field {
        None => Some(None),
        Some(JsonValue::Null) => Some(None),
        Some(JsonValue::String(text)) => Some(Some(text.clone())),
        _ => None,
    }
}

/// The JSON value of an optional value.
pub open spec fn view_of(value: Option<&JsonValue>) -> Option<Json> {
    match value {
        Some(value) => Some(value@),
        None => None,
    }
}

fn decode_version(field: Option<&JsonValue>) -> (version: Option<u32>)
    ensures
        version == decoded_version(view_of(field)),
{
    match field {
        None => Some(schema_version()),
        Some(JsonValue::Number(Number::PosInt(version))) => if *version <= u32::MAX as u64 {
            Some(*version as u32)
        } else {
            None
        },
        _ => None,
    }
}

fn decode_base(field: Option<&JsonValue>) -> (base: Option<Settings>)
    ensures
        match decoded_base(view_of(field)) {
            Some(settings) => base matches Some(found) && found.deep_view() == settings,
            None => base is None,
        },
{
    match field {
        None => {
            let base: Settings = Table::new();
            assert(base.deep_view() =~= Map::<Seq<char>, Json>::empty());
            Some(base)
        },
        Some(JsonValue::Object(settings)) => {
            proof {
                lemma_object_json(*settings);
            }
            Some(copy_settings(settings))
        },
        _ => None,
    }
}

/// Reads a list of texts.
fn decode_names(list: &JsonValue) -> (names: Option<Names>)
    ensures
        names is Some <==> is_text_list(list@),
        names is Some ==> names->0@ == text_set(list@),
{
    match list {
        JsonValue::Array(items) => {
            proof {
                lemma_array_json(*items);
            }
            let ghost row = jsons(items@);
            let mut names = Names::new();
            let mut i: usize = 0;
            while i < items.len()
                invariant
                    i <= items@.len(),
                    row == jsons(items@),
                    list@ == Json::List(row),
                    forall|j: int| 0 <= j < i ==> #[trigger] row[j] is Text,
                    forall|name: Seq<char>| #[trigger]
                        names@.contains(name) <==> exists|j: int|
                            0 <= j < i && #[trigger] row[j] == Json::Text(name),
                decreases items@.len() - i,
            {
                let ghost before = names@;
                match &items[i] {
                    JsonValue::String(text) => {
                        assert(row[i as int] == Json::Text(text@));
                        names.insert(text.clone());
                        proof {
                            let after = names@;
                            assert forall|name: Seq<char>| #[trigger]
                                after.contains(name) <==> exists|j: int|
                                    0 <= j < i + 1 && #[trigger] row[j] == Json::Text(name) by {
                                if name == text@ {
                                    assert(row[i as int] == Json::Text(name));
                                } else if before.contains(name) {
                                    let j = choose|j: int|
                                        0 <= j < i && #[trigger] row[j] == Json::Text(name);
                                    assert(row[j] == Json::Text(name));
                                }
                            }
                        }
                    },
                    _ => {
                        assert(!(list@->List_0[i as int] is Text));
                        return None;
                    },
                }
                i += 1;
            }
            assert(names@ =~= text_set(list@));
            Some(names)
        },
        _ => None,
    }
}

/// Reads what a profile changes.
pub fn decode_delta(value: &JsonValue) -> (delta: Option<ProfileDelta>)
    ensures
        match decoded_delta(value@) {
            Some(view) => delta matches Some(found) && found@ == view,
            None => delta is None,
        },
{
    match value {
        JsonValue::Object(members) => {
            proof {
                lemma_object_json(*members);
            }
            match members.get("uninherit") {
                None => {
                    let delta = ProfileDelta {
                        uninherit: Names::new(),
                        settings: copy_settings(members),
                    };
                    Some(delta)
                },
                Some(list) => match decode_names(list) {
                    None => None,
                    Some(uninherit) => {
                        let mut settings = copy_settings(members);
                        let ghost before = settings.deep_view();
                        settings.remove("uninherit");
                        assert(settings.deep_view() =~= before.remove(uninherit_name()));
                        Some(ProfileDelta { uninherit, settings })
                    },
                },
            }
        },
        _ => None,
    }
}

fn decode_profiles(field: Option<&JsonValue>) -> (profiles: Option<Table<ProfileDelta>>)
    ensures
        match decoded_profiles(view_of(field)) {
            Some(deltas) => profiles matches Some(found) && found.deep_view() == deltas,
            None => profiles is None,
        },
{
    match field {
        None => {
            let profiles: Table<ProfileDelta> = Table::new();
            assert(profiles.deep_view() =~= Map::<Seq<char>, DeltaView>::empty());
            Some(profiles)
        },
        Some(JsonValue::Object(members)) => {
            proof {
                lemma_object_json(*members);
            }
            let ghost map = members.deep_view();
            let mut profiles: Table<ProfileDelta> = Table::new();
            let len = members.len();
            let ghost names = members.names();
            let mut i: usize = 0;
            proof {
                lemma_first_of_ends(names, members@.dom());
                assert(profiles@.dom() =~= first_of(names, 0));
            }
            while i < len
                invariant
                    i <= len,
                    len == names.len(),
                    names == members.names(),
                    lists(names, members@.dom()),
                    map == members.deep_view(),
                    view_of(field) == Some(Json::Object(map)),
                    profiles@.dom() == first_of(names, i as int),
                    forall|name: Seq<char>| #[trigger]
                        profiles@.contains_key(name) ==> decoded_delta(map[name]) == Some(
                            profiles@[name]@,
                        ),
                decreases len - i,
            {
                proof {
                    lemma_first_of(names, i as int);
                }
                let value = members.value(i);
                assert(map[names[i as int]] == value@);
                match decode_delta(value) {
                    None => {
                        assert(map.contains_key(names[i as int]));
                        return None;
                    },
                    Some(delta) => {
                        profiles.insert(members.name(i).to_owned(), delta);
                    },
                }
                assert(profiles@.dom() =~= first_of(names, i + 1));
                i += 1;
            }
            proof {
                lemma_first_of_ends(names, members@.dom());
                assert forall|name: Seq<char>| map.contains_key(name) implies decoded_delta(
                    #[trigger] map[name],
                ) is Some by {
                    assert(profiles@.contains_key(name));
                }
                assert(profiles.deep_view() =~= decoded_profiles(view_of(field))->0);
            }
            Some(profiles)
        },
        _ => None,
    }
}

fn decode_fields(
    schema: Option<&JsonValue>,
    version: Option<&JsonValue>,
    base: Option<&JsonValue>,
    profiles: Option<&JsonValue>,
) -> (source: Option<Source>)
    ensures
        match decoded_fields(view_of(schema), view_of(version), view_of(base), view_of(profiles)) {
            Some(view) => source matches Some(found) && found@ == view,
            None => source is None,
        },
{
    match (
        decode_schema(schema),
        decode_version(version),
        decode_base(base),
        decode_profiles(profiles),
    ) {
        (Some(schema), Some(version), Some(base), Some(profiles)) => Some(
            Source { schema, version, base, profiles },
        ),
        _ => None,
    }
}

/// Whether every member of an object is a field of a source.
fn only_fields(members: &Table<JsonValue>) -> (only: bool)
    ensures
        only == members@.dom().subset_of(field_names()),
{
    let len = members.len();
    let ghost names = members.names();
    let mut i: usize = 0;
    while i < len
        invariant
            i <= len,
            len == names.len(),
            names == members.names(),
            lists(names, members@.dom()),
            forall|j: int| 0 <= j < i ==> field_names().contains(#[trigger] names[j]),
        decreases len - i,
    {
        let name = members.name(i);
        if !(same_text(name, "$schema") || same_text(name, "version") || same_text(name, "base")
            || same_text(name, "profiles")) {
            assert(members@.dom().contains(name@) && !field_names().contains(name@));
            return false;
        }
        i += 1;
    }
    assert forall|name: Seq<char>| members@.dom().contains(name) implies field_names().contains(
        name,
    ) by {
        assert(names.contains(name));
        let j = choose|j: int| 0 <= j < names.len() && names[j] == name;
        assert(field_names().contains(names[j]));
    }
    true
}

fn nth(items: &Vec<JsonValue>, i: usize) -> (item: Option<&JsonValue>)
    ensures
        view_of(item) == item_at(jsons(items@), i as int),
{
    if i < items.len() {
        Some(&items[i])
    } else {
        None
    }
}

/// Reads the source that a value stands for.
pub fn decode_source(value: &JsonValue) -> (source: Option<Source>)
    ensures
        match decoded(value@) {
            Some(view) => source matches Some(found) && found@ == view,
            None => source is None,
        },
{
    match value {
        JsonValue::Object(members) => {
            proof {
                lemma_object_json(*members);
                assert(members.deep_view().dom() =~= members@.dom());
            }
            if !only_fields(members) {
                return None;
            }
            decode_fields(
                members.get("$schema"),
                members.get("version"),
                members.get("base"),
                members.get("profiles"),
            )
        },
        JsonValue::Array(items) => {
            proof {
                lemma_array_json(*items);
            }
            decode_fields(nth(items, 0), nth(items, 1), nth(items, 2), nth(items, 3))
        },
        _ => None,
    }
}

/// Whether a tree is a list of texts.
pub open spec fn is_text_list_node(node: Node) -> bool {
    &&& node is List
    &&& forall|i: int| 0 <= i < node->List_0.len() ==> #[trigger] node->List_0[i] is Text
}

/// Whether a tree fits a profile: an object in which `uninherit` stands at most once,
/// as a list of texts.
pub open spec fn delta_fits(node: Node) -> bool {
    &&& node is Object
    &&& forall|i: int|
        #![trigger node->Object_0[i]]
        0 <= i < node->Object_0.len() && node->Object_0[i].name == uninherit_name()
            ==> is_text_list_node(node->Object_0[i].value)
    &&& forall|i: int, j: int|
        #![trigger node->Object_0[i], node->Object_0[j]]
        0 <= i < j < node->Object_0.len() && node->Object_0[i].name == uninherit_name()
            ==> node->Object_0[j].name != uninherit_name()
}

/// Whether a tree fits the profiles of a source: where it is an object, every member
/// fits a profile, also one that a later member of the same name takes the place of.
pub open spec fn profiles_fit(node: Node) -> bool {
    node is Object ==> forall|i: int|
        0 <= i < node->Object_0.len() ==> delta_fits((#[trigger] node->Object_0[i]).value)
}

/// No two members have the same name.
pub open spec fn names_distinct(members: Seq<Member>) -> bool {
    forall|i: int, j: int|
        #![trigger members[i], members[j]]
        0 <= i < j < members.len() ==> members[i].name != members[j].name
}

/// Whether the tree of a text fits a source: no field stands twice, and the profiles
/// fit.
pub open spec fn source_fits(node: Node) -> bool {
    match node {
        Node::Object(members) => names_distinct(members) && forall|i: int|
            0 <= i < members.len() && (#[trigger] members[i]).name == "profiles"@ ==> profiles_fit(
                members[i].value,
            ),
        Node::List(items) => items.len() > 3 ==> profiles_fit(items[3]),
        _ => true,
    }
}

/// Whether a text fits a source: its tree does, or, where it is too deep to be read as a tree,
/// its tokens do.
pub open spec fn fits_source(text: Seq<char>) -> bool {
    match tree_read(text) {
        Ok(Some(node)) => source_fits(node),
        _ => marks_fit(without_comments(tokens_in(text))),
    }
}

fn is_text_list_syntax(value: jsonc_parser::ast::Value<'_>) -> (fits: bool)
    ensures
        fits == is_text_list_node(syntax_node(value)),
{
    match open_syntax(value) {
        SyntaxLayer::List(items) => {
            let ghost row = items@;
            for item in it: items
                invariant
                    it.seq() == row,
                    node_items(syntax_node(value), row),
                    forall|j: int|
                        0 <= j < it.index() ==> #[trigger] syntax_node(value)->List_0[j] is Text,
            {
                assert(syntax_node(value)->List_0[it.index() as int] == syntax_node(item));
                match open_syntax(item) {
                    SyntaxLayer::Text(_) => {},
                    _ => {
                        return false;
                    },
                }
            }
            true
        },
        _ => false,
    }
}

fn delta_syntax_fits(value: jsonc_parser::ast::Value<'_>) -> (fits: bool)
    ensures
        fits == delta_fits(syntax_node(value)),
{
    match open_syntax(value) {
        SyntaxLayer::Object(members) => {
            let ghost row = members@;
            let ghost node = syntax_node(value);
            let mut seen = false;
            for member in it: members
                invariant
                    it.seq() == row,
                    node == syntax_node(value),
                    node_members(node, row),
                    forall|i: int|
                        #![trigger node->Object_0[i]]
                        0 <= i < it.index() && node->Object_0[i].name == uninherit_name()
                            ==> is_text_list_node(node->Object_0[i].value),
                    seen == exists|i: int|
                        0 <= i < it.index() && (#[trigger] node->Object_0[i]).name
                            == uninherit_name(),
                    forall|i: int, j: int|
                        #![trigger node->Object_0[i], node->Object_0[j]]
                        0 <= i < j < it.index() && node->Object_0[i].name == uninherit_name()
                            ==> node->Object_0[j].name != uninherit_name(),
            {
                let (name, inner) = member;
                let ghost n = it.index() as int;
                assert(row[n] == member);
                if same_text(name.as_str(), "uninherit") {
                    assert(node->Object_0[n].name == uninherit_name());
                    if seen || !is_text_list_syntax(inner) {
                        return false;
                    }
                    seen = true;
                }
            }
            true
        },
        _ => false,
    }
}

fn profiles_syntax_fit(value: jsonc_parser::ast::Value<'_>) -> (fits: bool)
    ensures
        fits == profiles_fit(syntax_node(value)),
{
    match open_syntax(value) {
        SyntaxLayer::Object(members) => {
            let ghost row = members@;
            let ghost node = syntax_node(value);
            for member in it: members
                invariant
                    it.seq() == row,
                    node == syntax_node(value),
                    node_members(node, row),
                    forall|i: int|
                        0 <= i < it.index() ==> delta_fits((#[trigger] node->Object_0[i]).value),
            {
                let (_, inner) = member;
                let ghost n = it.index() as int;
                assert(row[n] == member);
                assert(node->Object_0[n].value == syntax_node(inner));
                if !delta_syntax_fits(inner) {
                    return false;
                }
            }
            true
        },
        _ => true,
    }
}

fn source_syntax_fits(value: jsonc_parser::ast::Value<'_>) -> (fits: bool)
    ensures
        fits == source_fits(syntax_node(value)),
{
    match open_syntax(value) {
        SyntaxLayer::Object(members) => {
            let ghost row = members@;
            let ghost node = syntax_node(value);
            let mut seen = Names::new();
            for member in it: members
                invariant
                    it.seq() == row,
                    node == syntax_node(value),
                    node_members(node, row),
                    forall|name: Seq<char>| #[trigger]
                        seen@.contains(name) <==> exists|i: int|
                            0 <= i < it.index() && (#[trigger] node->Object_0[i]).name == name,
                    forall|i: int, j: int|
                        #![trigger node->Object_0[i], node->Object_0[j]]
                        0 <= i < j < it.index() ==> node->Object_0[i].name
                            != node->Object_0[j].name,
                    forall|i: int|
                        0 <= i < it.index() && (#[trigger] node->Object_0[i]).name == "profiles"@
                            ==> profiles_fit(node->Object_0[i].value),
            {
                let (name, inner) = member;
                let ghost n = it.index() as int;
                assert(row[n] == member);
                assert(node->Object_0[n].name == name@);
                assert(node->Object_0[n].value == syntax_node(inner));
                if seen.contains(name.as_str()) {
                    return false;
                }
                if same_text(name.as_str(), "profiles") {
                    if !profiles_syntax_fit(inner) {
                        return false;
                    }
                }
                let ghost before = seen@;
                let ghost added = name@;
                seen.insert(name);
                proof {
                    let after = seen@;
                    assert forall|other: Seq<char>| #[trigger]
                        after.contains(other) <==> exists|i: int|
                            0 <= i < n + 1 && (#[trigger] node->Object_0[i]).name == other by {
                        if other == added {
                            assert(node->Object_0[n].name == other);
                        } else if before.contains(other) {
                            let i = choose|i: int|
                                0 <= i < n && (#[trigger] node->Object_0[i]).name == other;
                            assert(node->Object_0[i].name == other);
                        }
                    }
                }
            }
            true
        },
        SyntaxLayer::List(items) => {
            let ghost row = items@;
            let ghost node = syntax_node(value);
            let mut at: usize = 0;
            for item in it: items
                invariant
                    it.seq() == row,
                    node == syntax_node(value),
                    node_items(node, row),
                    at == if it.index() <= 3 {
                        it.index() as int
                    } else {
                        4
                    },
                    it.index() > 3 ==> profiles_fit(node->List_0[3]),
            {
                assert(node->List_0[it.index() as int] == syntax_node(item));
                if at == 3 {
                    if !profiles_syntax_fit(item) {
                        return false;
                    }
                }
                if at < 4 {
                    at += 1;
                }
            }
            true
        },
        _ => true,
    }
}

/// Whether a text fits a source.
fn text_fits(text: &str) -> (fits: bool)
    ensures
        fits == fits_source(text@),
        match tree_read(text@) {
            Ok(Some(node)) => drafts_tree(text@, node),
            _ => drafts_tokens(text@, tokens_in(text@)),
        },
{
    match parse_syntax(text) {
        Some(value) => source_syntax_fits(value),
        None => tokens_fit(&scan_tokens(text)),
    }
}

/// What is said of a text that is JSON and no source.
pub open spec fn misfit_message() -> Seq<char> {
    "the fields of a source are $schema, version, base and profiles, each at most once"@
}

/// What is said of a text that is no source: the complaint, where there is one.
pub open spec fn said_of(complaint: Option<Seq<char>>, otherwise: Seq<char>) -> Seq<char> {
    match complaint {
        Some(message) => message,
        None => otherwise,
    }
}

/// What reading a source gives: `read` is what the text was read as, `fits` says
/// whether the text fits a source, and `complaint` is what is said of a text that is none.
pub open spec fn source_read(
    read: Result<Json, Seq<char>>,
    fits: bool,
    complaint: Option<Seq<char>>,
    result: Result<Source, CoreError>,
) -> bool {
    match read {
        Err(message) => result matches Err(CoreError::Jsonc(found)) && found@ == said_of(
            complaint,
            message,
        ),
        Ok(json) => match decoded(json) {
            Some(source) if fits => match result {
                Ok(found) => found@ == source && sound_source(source),
                Err(error) => !sound_source(source) && verdict(source, Err(error)),
            },
            _ => result matches Err(CoreError::Jsonc(found)) && found@ == said_of(
                complaint,
                misfit_message(),
            ),
        },
    }
}

/// What a text was read as.
pub open spec fn read_view(read: Result<JsonValue, String>) -> Result<Json, Seq<char>> {
    match read {
        Ok(value) => Ok(value@),
        Err(message) => Err(message@),
    }
}

/// The view of a complaint.
pub open spec fn complaint_view(complaint: Option<String>) -> Option<Seq<char>> {
    match complaint {
        Some(message) => Some(message@),
        None => None,
    }
}

fn say(complaint: Option<String>, otherwise: String) -> (error: CoreError)
    ensures
        error matches CoreError::Jsonc(found) && found@ == said_of(
            complaint_view(complaint),
            otherwise@,
        ),
{
    match complaint {
        Some(message) => CoreError::Jsonc(message),
        None => CoreError::Jsonc(otherwise),
    }
}

fn misfit_text() -> (text: String)
    ensures
        text@ == misfit_message(),
{
    "the fields of a source are $schema, version, base and profiles, each at most once".to_owned()
}

/// The source of what a text was read as.
pub fn source_of(
    read: Result<JsonValue, String>,
    fits: bool,
    complaint: Option<String>,
) -> (result: Result<Source, CoreError>)
    ensures
        source_read(read_view(read), fits, complaint_view(complaint), result),
{
    match read {
        Err(message) => Err(say(complaint, message)),
        Ok(value) => match decode_source(&value) {
            Some(source) => if fits {
                match validate_source(&source) {
                    Ok(()) => Ok(source),
                    Err(error) => Err(error),
                }
            } else {
                Err(say(complaint, misfit_text()))
            },
            None => Err(say(complaint, misfit_text())),
        },
    }
}

/// Reads a text of JSON with comments.
pub fn read_jsonc(text: &str) -> (read: Result<JsonValue, String>)
    ensures
        read_view(read) == jsonc_value(text@),
        read matches Ok(value) ==> canonical(value@) && nests_within(value@, nesting_limit()),
        goes_by_tree(tree_read(text@), jsonc_value(text@)),
        drafts_read(text@, jsonc_value(text@)),
{
    match parse_jsonc(text) {
        Ok(value) => Ok(import_value(value)),
        Err(message) => Err(message),
    }
}

/// The source of what a text was read as: `None`, where it is none or may not stand as
/// it is.
pub open spec fn sound_read(read: Result<Json, Seq<char>>, fits: bool) -> Option<SourceView> {
    match read {
        Ok(json) => match decoded(json) {
            Some(source) if fits && sound_source(source) => Some(source),
            _ => None,
        },
        Err(_) => None,
    }
}

/// The source that a text holds.
pub open spec fn source_in(text: Seq<char>) -> Option<SourceView> {
    sound_read(jsonc_value(text), fits_source(text))
}

/// Reads a source from its text.
pub fn parse_source(text: &str) -> (result: Result<Source, CoreError>)
    ensures
        source_read(jsonc_value(text@), fits_source(text@), None, result),
        result is Ok <==> source_in(text@) is Some,
        result is Ok ==> source_in(text@) == Some(result->Ok_0@),
        result is Ok ==> storable_source(result->Ok_0@),
        goes_by_tree(tree_read(text@), jsonc_value(text@)),
        tells_drafts(text@),
{
    parse_source_or(text, None)
}

/// Reads a source from its text. What is said of a text that is no source is the complaint,
/// where there is one.
pub fn parse_source_or(text: &str, complaint: Option<String>) -> (result: Result<Source, CoreError>)
    ensures
        source_read(jsonc_value(text@), fits_source(text@), complaint_view(complaint), result),
        result is Ok <==> source_in(text@) is Some,
        result is Ok ==> source_in(text@) == Some(result->Ok_0@),
        result is Ok ==> storable_source(result->Ok_0@),
        goes_by_tree(tree_read(text@), jsonc_value(text@)),
        tells_drafts(text@),
{
    let read = read_jsonc(text);
    proof {
        if read is Ok && decoded(read->Ok_0@) is Some {
            lemma_decoded_storable(read->Ok_0@);
        }
    }
    source_of(read, text_fits(text), complaint)
}

/// What reading settings gives: `read` is what the text was read as, and `fault` what is wrong
/// with it where that is no object.
pub open spec fn settings_read(read: Result<Json, Seq<char>>, fault: Seq<char>) -> Result<
    SettingsMap,
    Seq<char>,
> {
    match read {
        Ok(Json::Object(settings)) => Ok(settings),
        _ => Err(fault),
    }
}

/// The view of settings that were read.
pub open spec fn settings_view(result: Result<Settings, String>) -> Result<
    SettingsMap,
    Seq<char>,
> {
    match result {
        Ok(settings) => Ok(settings.deep_view()),
        Err(message) => Err(message@),
    }
}

/// Reads settings from their text.
pub fn parse_settings(text: &str) -> (result: Result<Settings, String>)
    ensures
        settings_view(result) == settings_read(jsonc_value(text@), object_fault(text@)),
        result is Ok ==> storable_settings(result->Ok_0.deep_view()),
{
    match parse_object(text) {
        Ok(value) => match import_value(value) {
            JsonValue::Object(settings) => {
                proof {
                    lemma_object_json(settings);
                    lemma_read_storable(json_of(value));
                }
                Ok(settings)
            },
            _ => vstd::pervasive::unreached(),
        },
        Err(message) => Err(message),
    }
}

} // verus!
