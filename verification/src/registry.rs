//! The registry in which VS Code lists its profiles: reading it, checking it, and
//! putting the list of an archive into it.

use vstd::prelude::*;
use vstd::utf8::encode_utf8;
use crate::codec::{canonical, export_value, exported, import_value, lemma_canonical_exported};
use crate::json::{
    at, jsons, lemma_array_json, lemma_object_json, nests_within, whole_numbers, Json, JsonValue,
};
use crate::location::{is_safe_id, safe_id, Platform};
use crate::outside::{json_value, parse_json, pretty, write_pretty};
use crate::parse::{item_at, view_of};

use crate::table::Table;
use crate::text::same_text;

verus! {

/// A profile as the registry lists it.
#[derive(Debug, PartialEq)]
pub struct RegistryProfile {
    pub id: String,
    pub name: String,
    pub use_default_settings: bool,
    pub use_default_flags: DefaultFlags,
}

/// What a profile shares with Default.
#[derive(Clone, Copy, Debug, PartialEq, Eq, Structural)]
pub struct DefaultFlags {
    pub settings: bool,
}

/// A profile as the registry lists it.
#[verifier::ext_equal]
pub struct RegistryView {
    pub id: Seq<char>,
    pub name: Seq<char>,
    pub shares_settings: bool,
}

impl View for RegistryProfile {
    type V = RegistryView;

    open spec fn view(&self) -> RegistryView {
        RegistryView {
            id: self.id@,
            name: self.name@,
            shares_settings: self.use_default_settings || self.use_default_flags.settings,
        }
    }
}

/// What profiles of the registry are.
pub open spec fn registry_views(profiles: Seq<RegistryProfile>) -> Seq<RegistryView> {
    Seq::new(profiles.len(), |i: int| profiles[i]@)
}

/// A text.
pub open spec fn decoded_text(field: Option<Json>) -> Option<Seq<char>> {
    match field {
        Some(Json::Text(text)) => Some(text),
        _ => None,
    }
}

/// A truth value that is false where it is not there.
pub open spec fn decoded_flag(field: Option<Json>) -> Option<bool> {
    match field {
        None => Some(false),
        Some(Json::Bool(flag)) => Some(flag),
        _ => None,
    }
}

/// What a profile shares with Default: an object or a list of at most one item.
pub open spec fn decoded_flags(field: Option<Json>) -> Option<bool> {
    match field {
        None => Some(false),
        Some(Json::Object(members)) => decoded_flag(at(members, "settings"@)),
        Some(Json::List(items)) => if items.len() <= 1 {
            decoded_flag(item_at(items, 0))
        } else {
            None
        },
        _ => None,
    }
}

/// The id of a profile, which may also be called its location: not both.
pub open spec fn decoded_id(members: Map<Seq<char>, Json>) -> Option<Seq<char>> {
    match (at(members, "id"@), at(members, "location"@)) {
        (Some(_), Some(_)) => None,
        (Some(id), None) => decoded_text(Some(id)),
        (None, other) => decoded_text(other),
    }
}

/// A profile by its fields.
pub open spec fn decoded_parts(
    id: Option<Seq<char>>,
    name: Option<Seq<char>>,
    settings: Option<bool>,
    flags: Option<bool>,
) -> Option<RegistryView> {
    match (id, name, settings, flags) {
        (Some(id), Some(name), Some(settings), Some(flags)) => Some(
            RegistryView { id, name, shares_settings: settings || flags },
        ),
        _ => None,
    }
}

/// The profile that a value stands for: an object of its fields, in which others are passed
/// over, or a list of at most four.
pub open spec fn decoded_profile(json: Json) -> Option<RegistryView> {
    match json {
        Json::Object(members) => decoded_parts(
            decoded_id(members),
            decoded_text(at(members, "name"@)),
            decoded_flag(at(members, "useDefaultSettings"@)),
            decoded_flags(at(members, "useDefaultFlags"@)),
        ),
        Json::List(items) => if items.len() <= 4 {
            decoded_parts(
                decoded_text(item_at(items, 0)),
                decoded_text(item_at(items, 1)),
                decoded_flag(item_at(items, 2)),
                decoded_flags(item_at(items, 3)),
            )
        } else {
            None
        },
        _ => None,
    }
}

/// Whether a value is a list of profiles.
pub open spec fn is_profile_list(json: Json) -> bool {
    json is List && forall|i: int|
        0 <= i < json->List_0.len() ==> decoded_profile(#[trigger] json->List_0[i]) is Some
}

/// The profiles that a list holds.
pub open spec fn profile_list(json: Json) -> Seq<RegistryView> {
    Seq::new(json->List_0.len(), |i: int| decoded_profile(json->List_0[i])->0)
}

fn decode_text(field: Option<&JsonValue>) -> (text: Option<String>)
    ensures
        match decoded_text(view_of(field)) {
            Some(view) => text matches Some(found) && found@ == view,
            None => text is None,
        },
{
    match field {
        Some(JsonValue::String(text)) => Some(text.clone()),
        _ => None,
    }
}

fn decode_flag(field: Option<&JsonValue>) -> (flag: Option<bool>)
    ensures
        flag == decoded_flag(view_of(field)),
{
    match field {
        None => Some(false),
        Some(JsonValue::Bool(flag)) => Some(*flag),
        _ => None,
    }
}

fn nth(items: &Vec<JsonValue>, i: usize) -> (item: Option<&JsonValue>)
    ensures
        view_of(item) == item_at(jsons(items@), i as int),
{
    if i < items.len() {
        Some(&items[i])
    } else {
        None
    }
}

fn decode_flags(field: Option<&JsonValue>) -> (flags: Option<DefaultFlags>)
    ensures
        match decoded_flags(view_of(field)) {
            Some(settings) => flags == Some(DefaultFlags { settings }),
            None => flags is None,
        },
{
    let settings = match field {
        None => Some(false),
        Some(JsonValue::Object(members)) => {
            proof {
                lemma_object_json(*members);
            }
            decode_flag(members.get("settings"))
        },
        Some(JsonValue::Array(items)) => {
            proof {
                lemma_array_json(*items);
            }
            if items.len() <= 1 {
                decode_flag(nth(items, 0))
            } else {
                None
            }
        },
        _ => None,
    };
    match settings {
        Some(settings) => Some(DefaultFlags { settings }),
        None => None,
    }
}

fn decode_id(members: &Table<JsonValue>) -> (id: Option<String>)
    ensures
        match decoded_id(members.deep_view()) {
            Some(view) => id matches Some(found) && found@ == view,
            None => id is None,
        },
{
    match (members.get("id"), members.get("location")) {
        (Some(_), Some(_)) => None,
        (Some(id), None) => decode_text(Some(id)),
        (None, other) => decode_text(other),
    }
}

fn decode_parts(
    id: Option<String>,
    name: Option<String>,
    settings: Option<bool>,
    flags: Option<DefaultFlags>,
) -> (profile: Option<RegistryProfile>)
    ensures
        profile is Some <==> id is Some && name is Some && settings is Some && flags is Some,
        profile is Some ==> profile->0@ == (RegistryView {
            id: id->0@,
            name: name->0@,
            shares_settings: settings->0 || flags->0.settings,
        }),
{
    match (id, name, settings, flags) {
        (Some(id), Some(name), Some(use_default_settings), Some(use_default_flags)) => Some(
            RegistryProfile { id, name, use_default_settings, use_default_flags },
        ),
        _ => None,
    }
}

/// Reads a profile of the registry.
pub fn decode_profile(value: &JsonValue) -> (profile: Option<RegistryProfile>)
    ensures
        match decoded_profile(value@) {
            Some(view) => profile matches Some(found) && found@ == view,
            None => profile is None,
        },
{
    match value {
        JsonValue::Object(members) => {
            proof {
                lemma_object_json(*members);
            }
            decode_parts(
                decode_id(members),
                decode_text(members.get("name")),
                decode_flag(members.get("useDefaultSettings")),
                decode_flags(members.get("useDefaultFlags")),
            )
        },
        JsonValue::Array(items) => {
            proof {
                lemma_array_json(*items);
            }
            if items.len() > 4 {
                return None;
            }
            decode_parts(
                decode_text(nth(items, 0)),
                decode_text(nth(items, 1)),
                decode_flag(nth(items, 2)),
                decode_flags(nth(items, 3)),
            )
        },
        _ => None,
    }
}

/// Reads the profiles of a list.
pub fn decode_profiles(value: &JsonValue) -> (profiles: Option<Vec<RegistryProfile>>)
    ensures
        profiles is Some <==> is_profile_list(value@),
        profiles is Some ==> registry_views(profiles->0@) == profile_list(value@),
{
    match value {
        JsonValue::Array(items) => {
            proof {
                lemma_array_json(*items);
            }
            let ghost row = jsons(items@);
            let mut profiles: Vec<RegistryProfile> = Vec::new();
            let mut i: usize = 0;
            while i < items.len()
                invariant
                    i <= items@.len(),
                    row == jsons(items@),
                    value@ == Json::List(row),
                    profiles@.len() == i,
                    forall|j: int|
                        0 <= j < i ==> decoded_profile(#[trigger] row[j]) == Some(profiles@[j]@),
                decreases items@.len() - i,
            {
                assert(row[i as int] == items@[i as int]@);
                match decode_profile(&items[i]) {
                    Some(profile) => {
                        profiles.push(profile);
                    },
                    None => {
                        assert(decoded_profile(value@->List_0[i as int]) is None);
                        return None;
                    },
                }
                i += 1;
            }
            proof {
                assert forall|j: int| 0 <= j < row.len() implies decoded_profile(
                    #[trigger] value@->List_0[j],
                ) is Some by {
                    assert(decoded_profile(row[j]) == Some(profiles@[j]@));
                }
                assert(registry_views(profiles@) =~= profile_list(value@)) by {
                    assert forall|j: int| 0 <= j < row.len() implies profiles@[j]@
                        == decoded_profile(value@->List_0[j])->0 by {
                        assert(decoded_profile(row[j]) == Some(profiles@[j]@));
                    }
                }
            }
            Some(profiles)
        },
        _ => None,
    }
}

/// What is wrong with a registry.
#[derive(Debug, PartialEq)]
pub enum RegistryError {
    /// The file of the registry is no JSON, or does not list the profiles.
    UnknownRegistry,
    /// The list of profiles is none.
    UnknownFormat,
    /// An archive of another version.
    UnsupportedVersion(u32),
    /// An archive whose registry has no profiles.
    NoProfiles,
    /// An archive with a registry of another kind.
    UnknownKind(String),
    /// A profile whose id leads out of the directory of the profiles.
    UnsafePath(String),
    /// The global storage of VS Code is not an object.
    NotAnObject,
}

/// The field of VS Code's global storage that lists the profiles.
pub open spec fn profiles_field() -> Seq<char> {
    "userDataProfiles"@
}

/// The member of a value.
pub open spec fn member_of(json: Json, name: Seq<char>) -> Option<Json> {
    match json {
        Json::Object(members) => at(members, name),
        _ => None,
    }
}

/// The member of a value.
pub fn get_member<'a>(value: &'a JsonValue, name: &str) -> (member: Option<&'a JsonValue>)
    ensures
        view_of(member) == member_of(value@, name@),
{
    match value {
        JsonValue::Object(members) => {
            proof {
                lemma_object_json(*members);
            }
            members.get(name)
        },
        _ => None,
    }
}

/// The list of profiles in what was read of VS Code's global storage.
pub open spec fn stored_profiles(read: Option<Json>) -> Option<Seq<RegistryView>> {
    match read {
        Some(json) => match member_of(json, profiles_field()) {
            Some(list) => if is_profile_list(list) {
                Some(profile_list(list))
            } else {
                None
            },
            None => None,
        },
        None => None,
    }
}

/// Reads the bytes of a JSON text.
pub fn read_json(bytes: &[u8]) -> (value: Option<JsonValue>)
    ensures
        match json_value(bytes@) {
            Some(json) => value matches Some(found) && found@ == json && canonical(json),
            None => value is None,
        },
{
    match parse_json(bytes) {
        Some(value) => Some(import_value(value)),
        None => None,
    }
}

/// The view of an optional value.
pub open spec fn read_json_view(read: Option<JsonValue>) -> Option<Json> {
    match read {
        Some(value) => Some(value@),
        None => None,
    }
}

/// The list of profiles in what was read of VS Code's global storage.
pub fn stored_profiles_of(read: &Option<JsonValue>) -> (profiles: Option<Vec<RegistryProfile>>)
    ensures
        match stored_profiles(read_json_view(*read)) {
            Some(views) => profiles matches Some(found) && registry_views(found@) == views,
            None => profiles is None,
        },
{
    match read {
        Some(value) => match get_member(value, "userDataProfiles") {
            Some(list) => decode_profiles(list),
            None => None,
        },
        None => None,
    }
}

/// Reads the list of profiles from the bytes of VS Code's global storage.
pub fn read_stored_profiles(bytes: &[u8]) -> (profiles: Option<Vec<RegistryProfile>>)
    ensures
        match stored_profiles(json_value(bytes@)) {
            Some(views) => profiles matches Some(found) && registry_views(found@) == views,
            None => profiles is None,
        },
{
    stored_profiles_of(&read_json(bytes))
}

/// `at` is the first profile whose id is not safe.
pub open spec fn first_unsafe(platform: Platform, profiles: Seq<RegistryView>, at: int) -> bool {
    &&& 0 <= at < profiles.len()
    &&& !safe_id(platform, profiles[at].id)
    &&& forall|i: int| 0 <= i < at ==> safe_id(platform, (#[trigger] profiles[i]).id)
}

/// Whether the ids of all profiles are safe.
pub open spec fn all_safe(platform: Platform, profiles: Seq<RegistryView>) -> bool {
    forall|i: int| 0 <= i < profiles.len() ==> safe_id(platform, (#[trigger] profiles[i]).id)
}

/// The list of profiles of an archive's registry, by the kind of the registry: `storage`
/// is the list itself, `profiles` an object that has it.
pub open spec fn archived_list(kind: Seq<char>, registry: Json) -> Option<Json> {
    if kind == "storage"@ {
        Some(registry)
    } else if kind == "profiles"@ {
        member_of(registry, "profiles"@)
    } else {
        None
    }
}

/// What [`validate_archive_registry`] says of a registry.
pub open spec fn archive_verdict(
    platform: Platform,
    kind: Seq<char>,
    registry: Json,
    result: Result<(), RegistryError>,
) -> bool {
    let known = kind == "storage"@ || kind == "profiles"@;
    let list = archived_list(kind, registry);
    match result {
        Ok(()) => known && list is Some && is_profile_list(list->0) && all_safe(
            platform,
            profile_list(list->0),
        ),
        Err(RegistryError::UnknownKind(found)) => !known && found@ == kind,
        Err(RegistryError::NoProfiles) => known && list is None,
        Err(RegistryError::UnknownFormat) => known && list is Some && !is_profile_list(list->0),
        Err(RegistryError::UnsafePath(id)) => known && list is Some && is_profile_list(list->0)
            && exists|i: int|
            #![trigger profile_list(list->0)[i]]
            first_unsafe(platform, profile_list(list->0), i) && profile_list(list->0)[i].id
                == id@,
        Err(_) => false,
    }
}

/// Checks the registry of an archive.
pub fn validate_archive_registry(
    platform: Platform,
    kind: &str,
    registry: &JsonValue,
) -> (result: Result<(), RegistryError>)
    ensures
        archive_verdict(platform, kind@, registry@, result),
{
    let list = if same_text(kind, "storage") {
        registry
    } else if same_text(kind, "profiles") {
        match get_member(registry, "profiles") {
            Some(list) => list,
            None => {
                proof {
                    lemma_kinds_differ();
                }
                return Err(RegistryError::NoProfiles);
            },
        }
    } else {
        return Err(RegistryError::UnknownKind(kind.to_owned()));
    };
    proof {
        lemma_kinds_differ();
    }
    assert(archived_list(kind@, registry@) == Some(list@));
    let profiles = match decode_profiles(list) {
        Some(profiles) => profiles,
        None => {
            return Err(RegistryError::UnknownFormat);
        },
    };
    let ghost views = profile_list(list@);
    let mut i: usize = 0;
    while i < profiles.len()
        invariant
            i <= profiles@.len(),
            views == registry_views(profiles@),
            views == profile_list(list@),
            is_profile_list(list@),
            archived_list(kind@, registry@) == Some(list@),
            kind@ == "storage"@ || kind@ == "profiles"@,
            forall|j: int| 0 <= j < i ==> safe_id(platform, (#[trigger] views[j]).id),
        decreases profiles@.len() - i,
    {
        assert(views[i as int] == profiles@[i as int]@);
        if !is_safe_id(platform, profiles[i].id.as_str()) {
            assert(first_unsafe(platform, views, i as int));
            return Err(RegistryError::UnsafePath(profiles[i].id.clone()));
        }
        i += 1;
    }
    Ok(())
}

proof fn lemma_kinds_differ()
    ensures
        "storage"@ != "profiles"@,
{
    reveal_strlit("storage");
    reveal_strlit("profiles");
    assert("storage"@.len() != "profiles"@.len());
}

/// What is archived of the registry: its kind and its value.
#[derive(Debug, PartialEq)]
pub struct ArchivedRegistry {
    pub kind: String,
    pub registry: JsonValue,
}

/// What [`profile_registry`] gives for what was read of a registry: `stored` says whether
/// that is VS Code's global storage.
pub open spec fn registry_verdict(
    platform: Platform,
    stored: bool,
    read: Option<Json>,
    result: Result<ArchivedRegistry, RegistryError>,
) -> bool {
    let kind = if stored {
        "storage"@
    } else {
        "profiles"@
    };
    let registry = match read {
        Some(json) => if stored {
            member_of(json, profiles_field())
        } else {
            Some(json)
        },
        None => None,
    };
    match registry {
        None => result matches Err(RegistryError::UnknownRegistry),
        Some(registry) => match result {
            Ok(archived) => archived.kind@ == kind && archived.registry@ == registry
                && archive_verdict(platform, kind, registry, Ok(())),
            Err(error) => archive_verdict(platform, kind, registry, Err(error)),
        },
    }
}

/// What is archived of a registry that was read.
pub fn profile_registry_of(
    platform: Platform,
    stored: bool,
    read: &Option<JsonValue>,
) -> (result: Result<ArchivedRegistry, RegistryError>)
    ensures
        registry_verdict(platform, stored, read_json_view(*read), result),
{
    let value = match read {
        Some(value) => value,
        None => {
            return Err(RegistryError::UnknownRegistry);
        },
    };
    if stored {
        match get_member(value, "userDataProfiles") {
            None => Err(RegistryError::UnknownRegistry),
            Some(list) => match validate_archive_registry(platform, "storage", list) {
                Ok(()) => Ok(
                    ArchivedRegistry { kind: "storage".to_owned(), registry: list.clone() },
                ),
                Err(error) => Err(error),
            },
        }
    } else {
        match validate_archive_registry(platform, "profiles", value) {
            Ok(()) => Ok(
                ArchivedRegistry { kind: "profiles".to_owned(), registry: value.clone() },
            ),
            Err(error) => Err(error),
        }
    }
}

/// Reads what is archived of a registry from its bytes.
pub fn profile_registry(
    platform: Platform,
    stored: bool,
    bytes: &[u8],
) -> (result: Result<ArchivedRegistry, RegistryError>)
    ensures
        registry_verdict(platform, stored, json_value(bytes@), result),
{
    profile_registry_of(platform, stored, &read_json(bytes))
}

/// Checks the manifest of an archive.
pub fn check_manifest(
    platform: Platform,
    version: u32,
    kind: &str,
    registry: &JsonValue,
) -> (result: Result<(), RegistryError>)
    ensures
        version != 1 ==> result == Err::<(), RegistryError>(
            RegistryError::UnsupportedVersion(version),
        ),
        version == 1 ==> archive_verdict(platform, kind@, registry@, result),
{
    if version != 1 {
        return Err(RegistryError::UnsupportedVersion(version));
    }
    validate_archive_registry(platform, kind, registry)
}

/// The global storage after a list of profiles was put into it: every other field stays.
/// `None`, where it is not an object.
pub open spec fn merged_storage(document: Option<Json>, registry: Json) -> Option<Json> {
    match document {
        None => Some(Json::Object(map![profiles_field() => registry])),
        Some(Json::Object(members)) => Some(
            Json::Object(members.insert(profiles_field(), registry)),
        ),
        Some(_) => None,
    }
}

/// Puts a list of profiles into the global storage, or into an empty one where there is
/// none.
pub fn merge_storage(document: Option<JsonValue>, registry: JsonValue) -> (merged: Result<
    JsonValue,
    RegistryError,
>)
    ensures
        match merged_storage(read_json_view(document), registry@) {
            Some(json) => merged matches Ok(value) && value@ == json,
            None => merged == Err::<JsonValue, RegistryError>(RegistryError::NotAnObject),
        },
{
    let mut members = match document {
        None => Table::new(),
        Some(JsonValue::Object(members)) => {
            proof {
                lemma_object_json(members);
            }
            members
        },
        Some(_) => {
            return Err(RegistryError::NotAnObject);
        },
    };
    let ghost before = members.deep_view();
    members.insert("userDataProfiles".to_owned(), registry);
    proof {
        lemma_object_json(members);
        assert(members.deep_view() =~= before.insert(profiles_field(), registry@));
        assert(members.deep_view() =~= map![profiles_field() => registry@]
            || read_json_view(document) is Some);
    }
    Ok(JsonValue::Object(members))
}

/// Where the registry of an archive goes.
#[derive(Clone, Copy, Debug, PartialEq, Eq, Structural)]
pub enum RegistryFile {
    /// VS Code's global storage.
    Storage,
    /// The list in the directory of the profiles.
    Profiles,
}

/// The file that the registry of an archive goes to, by its kind.
pub fn registry_file(kind: &str) -> (file: Result<RegistryFile, RegistryError>)
    ensures
        kind@ == "storage"@ ==> file == Ok::<RegistryFile, RegistryError>(RegistryFile::Storage),
        kind@ == "profiles"@ ==> file == Ok::<RegistryFile, RegistryError>(
            RegistryFile::Profiles,
        ),
        kind@ != "storage"@ && kind@ != "profiles"@ ==> (file matches Err(
            RegistryError::UnknownKind(found),
        ) && found@ == kind@),
{
    proof {
        lemma_kinds_differ();
    }
    if same_text(kind, "storage") {
        Ok(RegistryFile::Storage)
    } else if same_text(kind, "profiles") {
        Ok(RegistryFile::Profiles)
    } else {
        Err(RegistryError::UnknownKind(kind.to_owned()))
    }
}

/// A value that is read again as it was written: its numbers are integers, and not too many
/// of its lists and objects stand in each other.
pub open spec fn plain(json: Json) -> bool {
    canonical(json) && whole_numbers(json) && nests_within(json, 127)
}

/// The text in which a JSON value is written. What is written is read again as the value.
pub fn pretty_text(value: &JsonValue) -> (text: String)
    ensures
        text@ == pretty(exported(value@)),
        plain(value@) ==> json_value(encode_utf8(text@)) == Some(value@),
{
    proof {
        if plain(value@) {
            lemma_canonical_exported(value@);
        }
    }
    write_pretty(&export_value(value))
}

/// What is written into a registry's file: the archived registry, put into what the file
/// holds where that is the global storage. `document` is what was read of the global
/// storage: `None` where there is no such file.
pub open spec fn written_registry(
    file: RegistryFile,
    document: Option<Option<Json>>,
    registry: Json,
) -> Result<Json, bool> {
    match file {
        RegistryFile::Profiles => Ok(registry),
        RegistryFile::Storage => match document {
            Some(None) => Err(false),
            Some(Some(json)) => match merged_storage(Some(json), registry) {
                Some(merged) => Ok(merged),
                None => Err(true),
            },
            None => Ok(Json::Object(map![profiles_field() => registry])),
        },
    }
}

/// The view of what was read of a file.
pub open spec fn document_view(document: Option<Option<JsonValue>>) -> Option<Option<Json>> {
    match document {
        Some(read) => Some(read_json_view(read)),
        None => None,
    }
}

/// What [`write_profile_registry`] gives.
pub open spec fn written_verdict(
    file: RegistryFile,
    document: Option<Option<Json>>,
    registry: Json,
    result: Result<String, RegistryError>,
) -> bool {
    match written_registry(file, document, registry) {
        Ok(json) => result matches Ok(text) && text@ == pretty(exported(json)) && (plain(json)
            ==> json_value(encode_utf8(text@)) == Some(json)),
        Err(not_object) => result == Err::<String, RegistryError>(
            if not_object {
                RegistryError::NotAnObject
            } else {
                RegistryError::UnknownRegistry
            },
        ),
    }
}

/// Writes the text of a registry's file. What is written is read again.
pub fn write_profile_registry(
    file: RegistryFile,
    document: Option<Option<JsonValue>>,
    registry: JsonValue,
) -> (result: Result<String, RegistryError>)
    ensures
        written_verdict(file, document_view(document), registry@, result),
{
    match file {
        RegistryFile::Profiles => Ok(pretty_text(&registry)),
        RegistryFile::Storage => {
            let document = match document {
                Some(None) => {
                    return Err(RegistryError::UnknownRegistry);
                },
                Some(Some(value)) => Some(value),
                None => None,
            };
            match merge_storage(document, registry) {
                Ok(merged) => Ok(pretty_text(&merged)),
                Err(error) => Err(error),
            }
        },
    }
}

/// An import leaves every field of VS Code's global storage as it was but for the list of
/// profiles, which is then that of the archive.
pub proof fn law_import_keeps_storage(document: Json, registry: Json, name: Seq<char>)
    requires
        document is Object,
    ensures
        ({
            let merged = merged_storage(Some(document), registry);
            &&& merged is Some
            &&& member_of(merged->0, name) == if name == profiles_field() {
                Some(registry)
            } else {
                member_of(document, name)
            }
        }),
{
}

/// What is archived of the global storage is what an import puts into it: the list of
/// profiles is then the archived one.
pub proof fn law_archive_reads_back(
    platform: Platform,
    stored: Json,
    archived: ArchivedRegistry,
    document: Json,
)
    requires
        registry_verdict(platform, true, Some(stored), Ok(archived)),
        document is Object,
    ensures
        stored_profiles(merged_storage(Some(document), archived.registry@)) == stored_profiles(
            Some(stored),
        ),
        stored_profiles(Some(stored)) is Some,
{
    lemma_kinds_differ();
}

/// The profiles that are listed after an import are those that were listed when the archive
/// was made: they are read from the text that the import writes.
pub proof fn law_imported_profiles_read_back(
    platform: Platform,
    stored: Json,
    archived: ArchivedRegistry,
    document: Json,
    text: String,
)
    requires
        registry_verdict(platform, true, Some(stored), Ok(archived)),
        document is Object,
        written_verdict(
            RegistryFile::Storage,
            Some(Some(document)),
            archived.registry@,
            Ok(text),
        ),
        plain(merged_storage(Some(document), archived.registry@)->0),
    ensures
        stored_profiles(json_value(encode_utf8(text@))) == stored_profiles(Some(stored)),
{
    law_archive_reads_back(platform, stored, archived, document);
}

} // verus!
