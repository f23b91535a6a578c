//! Laws of reading and writing: what a source is read from, and what it is written as.

use vstd::prelude::*;
use crate::draft::{drafted, fresh_text, source_draft};
use crate::fresh::{law_fresh_text_reads_back, law_tokens_fit_as_trees_do};
use crate::hash::{
    delta_bytes, field_bytes, joined, list_bytes, object_bytes, profiles_bytes, settings_fields,
    source_bytes, source_hash, text_bytes, uninherit_fields,
};
use crate::codec::{canonical_json, exported, settings_json};
use crate::json::{at, same_option, Json, JsonValue, Num, Settings};
use crate::laws::changes::{based, own, refused};
use crate::laws::profiles::under;
use crate::node::{tree_within, Node};
use crate::outside::{
    blake3_hex, compact, jsonc_value, nesting_limit, object_fault, pretty, tokens_in, tree_read,
};
use crate::parse::{
    decode_delta, decode_source, decoded_delta, decoded_fields, decoded_profiles, delta_fits,
    parse_settings, parse_source, parse_source_or, profiles_fit, source_fits, source_of,
};
use crate::patch::{patch_source, PatchError};
use crate::readback::settled_source;
use crate::source::{
    schema_version, sound_source, validate_source, CoreError, DeltaView, ProfileDelta, Source,
    SourceView, StateSnapshot,
};
use crate::storable::storable_source;
use crate::table::{lists, listed, Names, Table};
use crate::text::precedes;
use crate::tokens::{
    marks_fit, marks_of, node_marks, scan_tokens, tokens_fit, without_comments, Mark, Token,
};
use crate::written::{law_patched_text_reads_back, names_no_uninherit, surely_read};

verus! {

/// What a profile is read from: an object. What it lists under `uninherit`, as texts, it refuses,
/// and its other members are its own settings.
pub open spec fn delta_reads(json: Json, delta: DeltaView) -> bool {
    &&& json is Object
    &&& forall|name: Seq<char>|
        #![trigger delta.settings.contains_key(name)]
        delta.settings.contains_key(name) <==> name != "uninherit"@ && under(json, name) is Some
    &&& forall|name: Seq<char>|
        #![trigger delta.settings[name]]
        delta.settings.contains_key(name) ==> Some(delta.settings[name]) == under(json, name)
    &&& match under(json, "uninherit"@) {
        None => forall|name: Seq<char>| !(#[trigger] delta.uninherit.contains(name)),
        Some(list) => {
            &&& list is List
            &&& forall|i: int| 0 <= i < list->List_0.len() ==> #[trigger] list->List_0[i] is Text
            &&& forall|name: Seq<char>| #[trigger]
                delta.uninherit.contains(name) <==> exists|i: int|
                    0 <= i < list->List_0.len() && #[trigger] list->List_0[i] == Json::Text(name)
        },
    }
}

/// What no profile can be read from: what is no object, or lists anything but texts under
/// `uninherit`.
pub open spec fn no_delta(json: Json) -> bool {
    !(json is Object) || (under(json, "uninherit"@) matches Some(list) && !(list is List && forall|
        i: int,
    |
        0 <= i < list->List_0.len() ==> #[trigger] list->List_0[i] is Text))
}

proof fn lemma_delta_reads(json: Json)
    ensures
        decoded_delta(json) is None <==> no_delta(json),
        decoded_delta(json) is Some ==> delta_reads(json, decoded_delta(json)->0),
{
    if let Some(delta) = decoded_delta(json) {
        let members = json->Object_0;
        assert forall|name: Seq<char>|
            #![trigger delta.settings.contains_key(name)]
            delta.settings.contains_key(name) <==> name != "uninherit"@ && under(
                json,
                name,
            ) is Some by {}
    }
}

/// Reading what a profile changes gives what the value holds, where it can be read.
pub proof fn law_reading_a_delta(value: &JsonValue, found: Option<ProfileDelta>)
    requires
        call_ensures(decode_delta, (value,), found),
    ensures
        found is None <==> no_delta(value@),
        found is Some ==> delta_reads(value@, found->0@),
{
    lemma_delta_reads(value@);
}

/// What a source is read from, field by field: a schema is a text, and none or null where there is
/// none. A version is a number, and the first one where there is none. The base is an object, and
/// the profiles are an object of which every member can be read. What is missing is empty.
pub open spec fn fields_read(
    schema: Option<Json>,
    version: Option<Json>,
    base: Option<Json>,
    profiles: Option<Json>,
    source: SourceView,
) -> bool {
    &&& match schema {
        Some(Json::Text(text)) => source.schema == Some(text),
        Some(Json::Null) => source.schema is None,
        None => source.schema is None,
        _ => false,
    }
    &&& match version {
        Some(Json::Number(Num::PosInt(n))) => n == source.version,
        None => source.version == 1,
        _ => false,
    }
    &&& match base {
        Some(Json::Object(settings)) => source.base == settings,
        None => forall|name: Seq<char>| !(#[trigger] source.base.contains_key(name)),
        _ => false,
    }
    &&& match profiles {
        Some(Json::Object(members)) => {
            &&& forall|name: Seq<char>| #[trigger]
                source.profiles.contains_key(name) <==> members.contains_key(name)
            &&& forall|name: Seq<char>|
                #![trigger source.profiles[name]]
                members.contains_key(name) ==> delta_reads(members[name], source.profiles[name])
        },
        None => forall|name: Seq<char>| !(#[trigger] source.profiles.contains_key(name)),
        _ => false,
    }
}

/// The fields of a source can be read.
pub open spec fn readable_fields(
    schema: Option<Json>,
    version: Option<Json>,
    base: Option<Json>,
    profiles: Option<Json>,
) -> bool {
    &&& schema is None || schema->0 is Null || schema->0 is Text
    &&& match version {
        None => true,
        Some(Json::Number(Num::PosInt(n))) => n <= u32::MAX,
        _ => false,
    }
    &&& base is None || base->0 is Object
    &&& match profiles {
        None => true,
        Some(Json::Object(members)) => forall|name: Seq<char>|
            members.contains_key(name) ==> !no_delta(#[trigger] members[name]),
        _ => false,
    }
}

proof fn lemma_fields_read(
    schema: Option<Json>,
    version: Option<Json>,
    base: Option<Json>,
    profiles: Option<Json>,
)
    ensures
        decoded_fields(schema, version, base, profiles) is Some <==> readable_fields(
            schema,
            version,
            base,
            profiles,
        ),
        decoded_fields(schema, version, base, profiles) matches Some(source) ==> fields_read(
            schema,
            version,
            base,
            profiles,
            source,
        ),
{
    if let Some(Json::Object(members)) = profiles {
        assert forall|name: Seq<char>| members.contains_key(name) implies (decoded_delta(
            #[trigger] members[name],
        ) is Some <==> !no_delta(members[name])) && (decoded_delta(members[name]) is Some
            ==> delta_reads(members[name], decoded_delta(members[name])->0)) by {
            lemma_delta_reads(members[name]);
        }
        if decoded_profiles(profiles) is Some {
            assert forall|name: Seq<char>| members.contains_key(name) implies !no_delta(
                #[trigger] members[name],
            ) by {
                assert(decoded_delta(members[name]) is Some);
            }
        }
        if forall|name: Seq<char>|
            members.contains_key(name) ==> !no_delta(#[trigger] members[name]) {
            assert forall|name: Seq<char>| members.contains_key(name) implies decoded_delta(
                #[trigger] members[name],
            ) is Some by {
                assert(!no_delta(members[name]));
            }
        }
        if let Some(source) = decoded_fields(schema, version, base, profiles) {
            assert forall|name: Seq<char>|
                #![trigger source.profiles[name]]
                members.contains_key(name) implies delta_reads(
                members[name],
                source.profiles[name],
            ) by {
                assert(decoded_delta(members[name]) is Some);
            }
        }
    }
}

/// A source is read from an object of its four fields and no others, or from a list of them in
/// their order, where each field can be read. It has what its fields say.
pub proof fn law_reading_a_source(value: &JsonValue, found: Option<Source>)
    requires
        call_ensures(decode_source, (value,), found),
    ensures
        value@ is Object ==> {
            let schema = under(value@, "$schema"@);
            let version = under(value@, "version"@);
            let base = under(value@, "base"@);
            let profiles = under(value@, "profiles"@);
            &&& found is Some <==> readable_fields(schema, version, base, profiles) && forall|
                name: Seq<char>,
            | #[trigger]
                value@->Object_0.contains_key(name) ==> name == "$schema"@ || name == "version"@
                    || name == "base"@ || name == "profiles"@
            &&& found is Some ==> fields_read(schema, version, base, profiles, found->0@)
        },
        value@ is List ==> {
            let items = value@->List_0;
            let schema = listed_field(items, 0);
            let version = listed_field(items, 1);
            let base = listed_field(items, 2);
            let profiles = listed_field(items, 3);
            &&& found is Some <==> readable_fields(schema, version, base, profiles)
            &&& found is Some ==> fields_read(schema, version, base, profiles, found->0@)
        },
        !(value@ is Object) && !(value@ is List) ==> found is None,
{
    match value@ {
        Json::Object(members) => {
            lemma_fields_read(
                at(members, "$schema"@),
                at(members, "version"@),
                at(members, "base"@),
                at(members, "profiles"@),
            );
            let names = crate::parse::field_names();
            if members.dom().subset_of(names) {
                assert forall|name: Seq<char>| #[trigger] members.contains_key(name) implies name
                    == "$schema"@ || name == "version"@ || name == "base"@ || name
                    == "profiles"@ by {
                    assert(names.contains(name));
                }
            }
            if forall|name: Seq<char>| #[trigger]
                members.contains_key(name) ==> name == "$schema"@ || name == "version"@ || name
                    == "base"@ || name == "profiles"@ {
                assert forall|name: Seq<char>| members.dom().contains(name) implies names.contains(
                    name,
                ) by {
                    assert(members.contains_key(name));
                }
            }
        },
        Json::List(items) => {
            lemma_fields_read(
                crate::parse::item_at(items, 0),
                crate::parse::item_at(items, 1),
                crate::parse::item_at(items, 2),
                crate::parse::item_at(items, 3),
            );
        },
        _ => {},
    }
}

/// What a list has at a place, or nothing.
pub open spec fn listed_field(items: Seq<Json>, i: int) -> Option<Json> {
    if i < items.len() {
        Some(items[i])
    } else {
        None
    }
}

/// A tree fits a profile, the profiles, and a source where no name stands twice that may not, and
/// what is refused is listed as texts, also where a later member of the same name takes its place.
pub proof fn law_what_fits(node: Node, i: int, j: int)
    ensures
        delta_fits(node) ==> node is Object,
        node is Object && 0 <= i < j < node->Object_0.len() && node->Object_0[i].name
            == "uninherit"@ && node->Object_0[j].name == "uninherit"@ ==> !delta_fits(node),
        delta_fits(node) && 0 <= i < node->Object_0.len() && node->Object_0[i].name
            == "uninherit"@ ==> node->Object_0[i].value is List && (0 <= j
            < node->Object_0[i].value->List_0.len() ==> node->Object_0[i].value->List_0[j] is Text),
        node is Object && (forall|k: int|
            0 <= k < node->Object_0.len() ==> (#[trigger] node->Object_0[k]).name != "uninherit"@)
            ==> delta_fits(node),
        !(node is Object) ==> profiles_fit(node),
        node is Object ==> (profiles_fit(node) <==> forall|k: int|
            0 <= k < node->Object_0.len() ==> delta_fits((#[trigger] node->Object_0[k]).value)),
        node is Object && 0 <= i < j < node->Object_0.len() && node->Object_0[i].name
            == node->Object_0[j].name ==> !source_fits(node),
        source_fits(node) && node is Object && 0 <= i < node->Object_0.len()
            && node->Object_0[i].name == "profiles"@ ==> profiles_fit(node->Object_0[i].value),
        node is Object && (forall|k: int, l: int|
            #![trigger node->Object_0[k], node->Object_0[l]]
            0 <= k < l < node->Object_0.len() ==> node->Object_0[k].name != node->Object_0[l].name)
            && (forall|k: int|
            0 <= k < node->Object_0.len() ==> (#[trigger] node->Object_0[k]).name != "profiles"@
                || profiles_fit(node->Object_0[k].value)) ==> source_fits(node),
        node is List && node->List_0.len() <= 3 ==> source_fits(node),
        node is List && node->List_0.len() > 3 ==> (source_fits(node) <==> profiles_fit(
            node->List_0[3],
        )),
{
    if delta_fits(node) && 0 <= i < node->Object_0.len() && node->Object_0[i].name
        == "uninherit"@ {
        let value = node->Object_0[i].value;
        assert(crate::parse::is_text_list_node(value));
        if 0 <= j < value->List_0.len() {
            assert(value->List_0[j] is Text);
        }
    }
}

/// What is read of a text becomes a source where it can be read as one, the text fits, and the
/// source may stand. A complaint is said of what is no source, where there is one, and otherwise
/// what the reader said, or which fields a source has.
pub proof fn law_making_a_source(
    read: Result<JsonValue, String>,
    fits: bool,
    complaint: Option<String>,
    result: Result<Source, CoreError>,
    value: &JsonValue,
    found: Option<Source>,
    source: &Source,
    valid: Result<(), CoreError>,
)
    requires
        call_ensures(source_of, (read, fits, complaint), result),
        read is Ok ==> value@ == read->Ok_0@,
        call_ensures(decode_source, (value,), found),
        found is Some ==> source@ == found->0@,
        call_ensures(validate_source, (source,), valid),
    ensures
        read is Err ==> (result matches Err(CoreError::Jsonc(message)) && message@ == (
        if complaint is Some {
            complaint->0@
        } else {
            read->Err_0@
        })),
        read is Ok && (found is None || !fits) ==> (result matches Err(CoreError::Jsonc(message))
            && message@ == (if complaint is Some {
            complaint->0@
        } else {
            "the fields of a source are $schema, version, base and profiles, each at most once"@
        })),
        read is Ok && found is Some && fits ==> (result is Ok <==> valid is Ok) && (result is Ok
            ==> result->Ok_0@ == found->0@) && (result is Err ==> !(
        result->Err_0 is Jsonc)),
{
}

/// Reading a source from a text gives the source that the text is read as, and nothing else.
pub proof fn law_reading_a_text(
    text: &str,
    complaint: Option<String>,
    result: Result<Source, CoreError>,
    value: &JsonValue,
    found: Option<Source>,
    plain: Result<Source, CoreError>,
)
    requires
        call_ensures(parse_source_or, (text, complaint), result),
        call_ensures(parse_source, (text,), plain),
        jsonc_value(text@) is Ok ==> value@ == jsonc_value(text@)->Ok_0,
        call_ensures(decode_source, (value,), found),
    ensures
        result is Ok ==> jsonc_value(text@) is Ok && found is Some && result->Ok_0@ == found->0@
            && sound_source(found->0@),
        plain is Ok <==> result is Ok,
        plain is Ok ==> plain->Ok_0@ == result->Ok_0@,
        jsonc_value(text@) is Err ==> (result matches Err(CoreError::Jsonc(message)) && message@
            == (if complaint is Some {
            complaint->0@
        } else {
            jsonc_value(text@)->Err_0
        })),
        jsonc_value(text@) is Ok && found is Some && sound_source(found->0@) && tree_read(
            text@,
        ) is Ok && tree_read(text@)->Ok_0 is Some ==> (result is Ok <==> source_fits(
            tree_read(text@)->Ok_0->0,
        )),
        jsonc_value(text@) is Ok && found is Some && sound_source(found->0@) && !(tree_read(
            text@,
        ) is Ok && tree_read(text@)->Ok_0 is Some) ==> (result is Ok <==> marks_fit(
            without_comments(tokens_in(text@)),
        )),
{
}

/// The tokens of a text that are no comments are taken, in their order.
pub proof fn law_taking_tokens(text: &str, tokens: Vec<Token>, marks: Seq<Mark>, mark: Mark)
    requires
        call_ensures(scan_tokens, (text,), tokens),
    ensures
        marks_of(tokens@) == without_comments(tokens_in(text@)),
        without_comments(Seq::empty()) == Seq::<Mark>::empty(),
        mark is Comment ==> without_comments(seq![mark] + marks) == without_comments(marks),
        !(mark is Comment) ==> without_comments(seq![mark] + marks) == seq![mark]
            + without_comments(marks),
{
    let whole = seq![mark] + marks;
    assert(whole.drop_first() =~= marks);
    assert(whole.first() == mark);
}

/// Reading settings from a text gives the members of the object that it is read as, and the
/// reader's words where it is none.
pub proof fn law_reading_settings_of_a_text(text: &str, result: Result<Settings, String>)
    requires
        call_ensures(parse_settings, (text,), result),
    ensures
        result is Ok <==> jsonc_value(text@) is Ok && jsonc_value(text@)->Ok_0 is Object,
        result is Ok ==> result->Ok_0.deep_view() == jsonc_value(text@)->Ok_0->Object_0,
        result is Err ==> result->Err_0@ == object_fault(text@),
{
}

/// A source that is written anew is read again as it is.
pub proof fn law_writing_anew(
    source: &Source,
    text: String,
    line: &str,
    again: Result<Source, CoreError>,
)
    requires
        call_ensures(fresh_text, (source,), text),
        line@ == text@,
        call_ensures(parse_source, (line,), again),
        sound_source(source@),
        storable_source(source@),
        names_no_uninherit(source@),
        tree_within(drafted(source_draft(source@)), nesting_limit()),
    ensures
        again is Ok,
        again->Ok_0@ == source@,
{
    law_fresh_text_reads_back(*source, text@);
}

/// What a source is after it was written over another one: the schema and the version are the old
/// ones, and every setting and every profile is the new source's, or one that is equal.
pub proof fn law_settled(
    first: SourceView,
    last: SourceView,
    profile: Seq<char>,
    setting: Seq<char>,
)
    ensures
        ({
            let settled = settled_source(first, last);
            &&& settled.schema == first.schema
            &&& settled.version == first.version
            &&& same_option(based(settled, setting), based(last, setting))
            &&& settled.profiles.contains_key(profile) <==> last.profiles.contains_key(profile)
            &&& same_option(own(settled, profile, setting), own(last, profile, setting))
            &&& refused(settled, profile, setting) == refused(last, profile, setting)
        }),
{
    if last.base.contains_key(setting) {
        crate::json::law_same_json_reflexive(last.base[setting]);
    }
    if last.profiles.contains_key(profile) && last.profiles[profile].settings.contains_key(
        setting,
    ) {
        crate::json::law_same_json_reflexive(last.profiles[profile].settings[setting]);
    }
}

/// A source that is written into a text is read from it again: the schema and the version of the
/// text stay, and every setting and every profile is that of the source, or one that is equal.
pub proof fn law_writing_into_a_text(
    text: &str,
    source: &Source,
    result: Result<String, PatchError>,
    before: Result<Source, CoreError>,
    line: &str,
    again: Result<Source, CoreError>,
    profile: Seq<char>,
    setting: Seq<char>,
)
    requires
        call_ensures(patch_source, (text, source), result),
        call_ensures(parse_source, (text,), before),
        result is Ok,
        line@ == result->Ok_0@,
        call_ensures(parse_source, (line,), again),
        surely_read(text@, *source),
    ensures
        before is Ok,
        again is Ok,
        again->Ok_0@.schema == before->Ok_0@.schema,
        again->Ok_0@.version == before->Ok_0@.version,
        same_option(based(again->Ok_0@, setting), based(source@, setting)),
        again->Ok_0@.profiles.contains_key(profile) <==> source@.profiles.contains_key(profile),
        same_option(own(again->Ok_0@, profile, setting), own(source@, profile, setting)),
        refused(again->Ok_0@, profile, setting) == refused(source@, profile, setting),
{
    law_patched_text_reads_back(text@, *source, result->Ok_0);
    law_settled(before->Ok_0@, source@, profile, setting);
}

/// Settings are written as their JSON with white space, and a line feed.
pub proof fn law_writing_settings_as_text(settings: &Settings, text: String)
    requires
        call_ensures(canonical_json, (settings,), text),
    ensures
        text@ == pretty(exported(Json::Object(settings.deep_view()))).push('\n'),
{
}

/// A text that is too deep to be read as a tree fits a source where its tokens do.
pub proof fn law_fitting_by_tokens(tokens: &Vec<Token>, fits: bool, node: Node)
    requires
        call_ensures(tokens_fit, (tokens,), fits),
        marks_of(tokens@) == node_marks(node),
    ensures
        fits <==> source_fits(node),
{
    law_tokens_fit_as_trees_do(node);
}

/// A source, a profile and a state that are not given are empty, of the version there is.
pub proof fn law_empty_ones(
    source: Source,
    delta: ProfileDelta,
    state: StateSnapshot,
    version: u32,
    name: Seq<char>,
)
    requires
        call_ensures(Source::default, (), source),
        call_ensures(ProfileDelta::default, (), delta),
        call_ensures(StateSnapshot::default, (), state),
        call_ensures(schema_version, (), version),
    ensures
        version == 1,
        source@.schema is None,
        source@.version == 1,
        !source@.base.contains_key(name),
        !source@.profiles.contains_key(name),
        !delta@.settings.contains_key(name),
        !delta@.uninherit.contains(name),
        state.revision == 0,
        state.source_hash@.len() == 0,
        !state.materialized@.contains_key(name),
        !state.materialized_hashes@.contains_key(name),
        !state.known_setting_prefixes@.contains(name),
{
}

/// Pieces are put together with commas between them.
pub proof fn law_putting_together(parts: Seq<Seq<u8>>, part: Seq<u8>)
    ensures
        joined(Seq::empty()) == Seq::<u8>::empty(),
        joined(seq![part]) == part,
        parts.len() > 0 ==> joined(parts.push(part)) == joined(parts) + seq![0x2cu8] + part,
        object_bytes(parts) == seq![0x7bu8] + joined(parts) + seq![0x7du8],
        list_bytes(parts) == seq![0x5bu8] + joined(parts) + seq![0x5du8],
{
    assert(seq![part].len() == 1);
    if parts.len() > 0 {
        assert(parts.push(part).drop_last() =~= parts);
        assert(joined(parts.push(part)) =~= joined(parts) + seq![0x2cu8] + part);
    }
    assert(object_bytes(parts) =~= seq![0x7bu8] + joined(parts) + seq![0x7du8]);
    assert(list_bytes(parts) =~= seq![0x5bu8] + joined(parts) + seq![0x5du8]);
}

/// The hash of a source is the one of an object of its fields: the schema where it has one, the
/// version, the base and the profiles. Each profile is an object with what it refuses, where it
/// refuses anything, and its settings. Names stand in their order, and nothing is left out.
pub proof fn law_hashing_a_source(
    source: &Source,
    hash: String,
    profiles: Seq<Seq<char>>,
    i: int,
    settings: Seq<Seq<char>>,
    j: int,
)
    requires
        call_ensures(source_hash, (source,), hash),
        lists(profiles, source@.profiles.dom()),
        0 <= i < profiles.len(),
        lists(settings, source@.profiles[profiles[i]].settings.dom()),
        0 <= j < settings.len(),
    ensures
        hash@ == blake3_hex(source_bytes(source@)),
        ({
            let view = source@;
            let delta = view.profiles[profiles[i]];
            let own_fields = settings_fields(delta.settings);
            &&& source_bytes(view) == object_bytes(
                (if view.schema is Some {
                    seq![named_bytes("$schema"@, compact(Json::Text(view.schema->0)))]
                } else {
                    Seq::empty()
                }) + seq![
                    named_bytes("version"@, compact(Json::Number(Num::PosInt(view.version as u64)))),
                    named_bytes("base"@, compact(exported(Json::Object(view.base)))),
                    named_bytes("profiles"@, profiles_bytes(view.profiles)),
                ],
            )
            &&& exists|fields: Seq<Seq<u8>>|
                profiles_bytes(view.profiles) == #[trigger] object_bytes(fields) && fields.len()
                    == profiles.len() && fields[i] == named_bytes(profiles[i], delta_bytes(delta))
            &&& delta_bytes(delta) == object_bytes(uninherit_fields(delta.uninherit) + own_fields)
            &&& own_fields.len() == settings.len()
            &&& own_fields[j] == named_bytes(
                settings[j],
                compact(exported(delta.settings[settings[j]])),
            )
            &&& uninherit_fields(delta.uninherit).len() == if delta.uninherit =~= Set::<
                Seq<char>,
            >::empty() {
                0int
            } else {
                1
            }
        }),
{
    let view = source@;
    let delta = view.profiles[profiles[i]];
    crate::table::lemma_listed(profiles, view.profiles.dom());
    crate::table::lemma_listed(settings, delta.settings.dom());
    let names = listed(view.profiles.dom());
    let fields = Seq::new(
        names.len(),
        |k: int| field_bytes(names[k], delta_bytes(view.profiles[names[k]])),
    );
    assert(profiles_bytes(view.profiles) == object_bytes(fields));
    assert(fields[i] == named_bytes(profiles[i], delta_bytes(delta)));
    let whole = (if view.schema is Some {
        seq![named_bytes("$schema"@, compact(Json::Text(view.schema->0)))]
    } else {
        Seq::empty()
    }) + seq![
        named_bytes("version"@, compact(Json::Number(Num::PosInt(view.version as u64)))),
        named_bytes("base"@, compact(exported(Json::Object(view.base)))),
        named_bytes("profiles"@, profiles_bytes(view.profiles)),
    ];
    assert(source_bytes(view) == object_bytes(whole)) by {
        let fields = crate::hash::schema_fields(view.schema) + seq![
            field_bytes("version"@, compact(Json::Number(Num::PosInt(view.version as u64)))),
            field_bytes("base"@, compact(settings_json(view.base))),
            field_bytes("profiles"@, profiles_bytes(view.profiles)),
        ];
        assert(fields =~= whole);
    }
}

/// A field: its name as a text, a colon, and its value.
pub open spec fn named_bytes(name: Seq<char>, value: Seq<u8>) -> Seq<u8> {
    compact(Json::Text(name)).push(0x3a) + value
}

/// What a profile refuses is hashed as the list of the names, in their order.
pub proof fn law_hashing_what_is_refused(names: Set<Seq<char>>, row: Seq<Seq<char>>, i: int)
    requires
        lists(row, names),
        0 <= i < row.len(),
    ensures
        exists|items: Seq<Seq<u8>>|
            uninherit_fields(names) == seq![
                named_bytes("uninherit"@, #[trigger] list_bytes(items)),
            ] && items.len() == row.len() && items[i] == compact(Json::Text(row[i])),
{
    crate::table::lemma_listed(row, names);
    assert(row.contains(row[i]));
    assert(names.contains(row[i]));
    let list = listed(names);
    let items = Seq::new(list.len(), |k: int| text_bytes(list[k]));
    assert(uninherit_fields(names) =~= seq![named_bytes("uninherit"@, list_bytes(items))]);
}

/// A list of a set of names has each of them once, in their order, and no other.
pub proof fn law_lists_of_names(row: Seq<Seq<char>>, names: Set<Seq<char>>, i: int, j: int)
    requires
        lists(row, names),
    ensures
        0 <= i < row.len() ==> names.contains(row[i]),
        0 <= i < j < row.len() ==> precedes(row[i], row[j]) && row[i] != row[j],
        forall|name: Seq<char>| #[trigger]
            names.contains(name) ==> exists|k: int| 0 <= k < row.len() && #[trigger] row[k] == name,
{
    if 0 <= i < row.len() {
        assert(row.contains(row[i]));
    }
    if 0 <= i < j < row.len() {
        crate::text::lemma_precedes_asymmetric(row[i], row[j]);
    }
    assert forall|name: Seq<char>| #[trigger] names.contains(name) implies exists|k: int|
        0 <= k < row.len() && #[trigger] row[k] == name by {
        assert(row.contains(name));
        let k = choose|k: int| 0 <= k < row.len() && row[k] == name;
        assert(row[k] == name);
    }
}

/// A table has what is put into it under its name, and otherwise what it had. What is taken away
/// is gone, and nothing else. Its names stand in their order.
pub proof fn law_tables(
    table: &mut Settings,
    name: String,
    value: JsonValue,
    other: Seq<char>,
)
    requires
        call_ensures(Table::<JsonValue>::insert, (table, name, value), ()),
    ensures
        final(table)@.contains_key(name@),
        final(table)@[name@] == value,
        other != name@ ==> (final(table)@.contains_key(other) <==> old(table)@.contains_key(other))
            && (old(table)@.contains_key(other) ==> final(table)@[other] == old(table)@[other]),
{
}

/// What is taken away from a table is gone, and nothing else.
pub proof fn law_taking_away(
    table: &mut Settings,
    name: &str,
    value: Option<JsonValue>,
    other: Seq<char>,
)
    requires
        call_ensures(Table::<JsonValue>::remove, (table, name), value),
    ensures
        !final(table)@.contains_key(name@),
        value is Some <==> old(table)@.contains_key(name@),
        value is Some ==> value->0 == old(table)@[name@],
        other != name@ ==> (final(table)@.contains_key(other) <==> old(table)@.contains_key(other))
            && (old(table)@.contains_key(other) ==> final(table)@[other] == old(table)@[other]),
{
}

/// Looking into a table finds what it has.
pub proof fn law_looking_into_tables(
    table: &Settings,
    name: &str,
    value: Option<&JsonValue>,
    found: bool,
    len: usize,
    i: int,
    j: int,
)
    requires
        call_ensures(Table::<JsonValue>::get, (table, name), value),
        call_ensures(Table::<JsonValue>::contains_key, (table, name), found),
        call_ensures(Table::<JsonValue>::len, (table,), len),
    ensures
        found <==> table@.contains_key(name@),
        value is Some <==> table@.contains_key(name@),
        value is Some ==> *value->0 == table@[name@],
        len == table.names().len(),
        0 <= i < len ==> table@.contains_key(table.names()[i]),
        0 <= i < j < len ==> precedes(table.names()[i], table.names()[j]),
        forall|other: Seq<char>| #[trigger]
            table@.contains_key(other) ==> table.names().contains(other),
{
    if 0 <= i < len {
        assert(table.names().contains(table.names()[i]));
        assert(table@.dom().contains(table.names()[i]));
    }
    assert forall|other: Seq<char>| #[trigger] table@.contains_key(other) implies table.names().contains(
        other,
    ) by {
        assert(table@.dom().contains(other));
    }
}

/// A set of names has what is added to it and what it had, and not what is taken away.
pub proof fn law_sets_of_names(
    names: &mut Names,
    name: String,
    other: Seq<char>,
)
    requires
        call_ensures(Names::insert, (names, name), ()),
    ensures
        final(names)@.contains(name@),
        other != name@ ==> (final(names)@.contains(other) <==> old(names)@.contains(other)),
{
}

} // verus!
