//! The hash of a source: of its JSON without white space, in which the fields
//! stand in the order schema, version, base, profiles.

use vstd::prelude::*;
use crate::codec::{export_settings, export_value, exported, settings_json};
use crate::json::{Json, Num, Number, Settings, SettingsMap};
use crate::outside::{blake3_hex, close_json, compact, hash_hex, write_compact, Layer};
use crate::source::{DeltaView, ProfileDelta, Source, SourceView};
use crate::table::{listed, lists, Names};

verus! {

/// The byte of `,`.
pub const COMMA: u8 = 0x2c;

/// The byte of `:`.
pub const COLON: u8 = 0x3a;

/// The byte of `[`.
pub const OPEN_BRACKET: u8 = 0x5b;

/// The byte of `]`.
pub const CLOSE_BRACKET: u8 = 0x5d;

/// The byte of `{`.
pub const OPEN_BRACE: u8 = 0x7b;

/// The byte of `}`.
pub const CLOSE_BRACE: u8 = 0x7d;

/// The parts, with commas between them.
pub open spec fn joined(parts: Seq<Seq<u8>>) -> Seq<u8>
    decreases parts.len(),
{
    if parts.len() == 0 {
        Seq::empty()
    } else if parts.len() == 1 {
        parts[0]
    } else {
        joined(parts.drop_last()).push(COMMA) + parts.last()
    }
}

/// A JSON object of the bytes of its fields.
pub open spec fn object_bytes(fields: Seq<Seq<u8>>) -> Seq<u8> {
    (seq![OPEN_BRACE] + joined(fields)).push(CLOSE_BRACE)
}

/// A JSON list of the bytes of its items.
pub open spec fn list_bytes(items: Seq<Seq<u8>>) -> Seq<u8> {
    (seq![OPEN_BRACKET] + joined(items)).push(CLOSE_BRACKET)
}

/// The bytes of a name or of another text.
pub open spec fn text_bytes(text: Seq<char>) -> Seq<u8> {
    compact(Json::Text(text))
}

/// A field of a JSON object.
pub open spec fn field_bytes(name: Seq<char>, value: Seq<u8>) -> Seq<u8> {
    text_bytes(name).push(COLON) + value
}

/// The fields of settings, in the order of their names.
pub open spec fn settings_fields(settings: SettingsMap) -> Seq<Seq<u8>> {
    let names = listed(settings.dom());
    Seq::new(names.len(), |i: int| field_bytes(names[i], compact(exported(settings[names[i]]))))
}

/// The field of what a profile does not inherit: none, where it inherits all.
pub open spec fn uninherit_fields(names: Set<Seq<char>>) -> Seq<Seq<u8>> {
    if names == Set::<Seq<char>>::empty() {
        Seq::empty()
    } else {
        let list = listed(names);
        seq![field_bytes("uninherit"@, list_bytes(Seq::new(list.len(), |i: int| text_bytes(list[i]))))]
    }
}

/// The bytes of what a profile changes.
pub open spec fn delta_bytes(delta: DeltaView) -> Seq<u8> {
    object_bytes(uninherit_fields(delta.uninherit) + settings_fields(delta.settings))
}

/// The bytes of the profiles, in the order of their names.
pub open spec fn profiles_bytes(profiles: Map<Seq<char>, DeltaView>) -> Seq<u8> {
    let names = listed(profiles.dom());
    object_bytes(
        Seq::new(names.len(), |i: int| field_bytes(names[i], delta_bytes(profiles[names[i]]))),
    )
}

/// The field of the schema: none, where the source names none.
pub open spec fn schema_fields(schema: Option<Seq<char>>) -> Seq<Seq<u8>> {
    match schema {
        Some(schema) => seq![field_bytes("$schema"@, text_bytes(schema))],
        None => Seq::empty(),
    }
}

/// The bytes of a source.
pub open spec fn source_bytes(source: SourceView) -> Seq<u8> {
    object_bytes(
        schema_fields(source.schema) + seq![
            field_bytes(
                "version"@,
                compact(Json::Number(Num::PosInt(source.version as u64))),
            ),
            field_bytes("base"@, compact(settings_json(source.base))),
            field_bytes("profiles"@, profiles_bytes(source.profiles)),
        ],
    )
}

spec fn parts_of(parts: Seq<Vec<u8>>) -> Seq<Seq<u8>> {
    Seq::new(parts.len(), |i: int| parts[i]@)
}

/// Puts bytes behind bytes.
fn push_all(bytes: &mut Vec<u8>, more: &Vec<u8>)
    ensures
        final(bytes)@ == old(bytes)@ + more@,
{
    let ghost before = bytes@;
    bytes.extend_from_slice(more.as_slice());
    assert(bytes@ =~= before + more@);
}

/// Puts parts together, with commas between them.
fn join(parts: &Vec<Vec<u8>>, open: u8, close: u8) -> (bytes: Vec<u8>)
    ensures
        bytes@ == (seq![open] + joined(parts_of(parts@))).push(close),
{
    let mut bytes: Vec<u8> = Vec::new();
    bytes.push(open);
    let ghost whole = parts_of(parts@);
    let mut i: usize = 0;
    assert(bytes@ =~= seq![open] + joined(whole.take(0)));
    while i < parts.len()
        invariant
            i <= parts@.len(),
            whole == parts_of(parts@),
            bytes@ == seq![open] + joined(whole.take(i as int)),
        decreases parts@.len() - i,
    {
        let ghost before = bytes@;
        if i > 0 {
            bytes.push(COMMA);
        }
        push_all(&mut bytes, &parts[i]);
        proof {
            let more = whole.take(i + 1);
            assert(more.drop_last() =~= whole.take(i as int));
            assert(more.last() == parts@[i as int]@);
            if i > 0 {
                assert(bytes@ =~= seq![open] + (joined(whole.take(i as int)).push(COMMA)
                    + parts@[i as int]@));
            } else {
                assert(joined(whole.take(0)) =~= Seq::<u8>::empty());
                assert(bytes@ =~= seq![open] + parts@[i as int]@);
            }
        }
        i += 1;
    }
    assert(whole.take(parts@.len() as int) =~= whole);
    bytes.push(close);
    bytes
}

/// Writes a text as JSON.
fn write_text(text: &str) -> (bytes: Vec<u8>)
    ensures
        bytes@ == text_bytes(text@),
{
    write_compact(&close_json(Layer::String(text.to_owned())))
}

/// Writes a field of a JSON object.
fn write_field(name: &str, value: &Vec<u8>) -> (bytes: Vec<u8>)
    ensures
        bytes@ == field_bytes(name@, value@),
{
    let mut bytes = write_text(name);
    bytes.push(COLON);
    push_all(&mut bytes, value);
    bytes
}

/// Writes the fields of settings behind others.
fn write_settings_fields(fields: &mut Vec<Vec<u8>>, settings: &Settings)
    ensures
        parts_of(final(fields)@) == parts_of(old(fields)@) + settings_fields(settings.deep_view()),
{
    let ghost before = parts_of(fields@);
    let ghost whole = settings_fields(settings.deep_view());
    let len = settings.len();
    let ghost names = settings.names();
    proof {
        assert(settings.deep_view().dom() =~= settings@.dom());
        assert(before + whole.take(0) =~= before);
    }
    let mut i: usize = 0;
    while i < len
        invariant
            i <= len,
            len == names.len(),
            names == settings.names(),
            lists(names, settings@.dom()),
            names == listed(settings.deep_view().dom()),
            whole == settings_fields(settings.deep_view()),
            parts_of(fields@) == before + whole.take(i as int),
        decreases len - i,
    {
        let value = settings.value(i);
        let field = write_field(settings.name(i), &write_compact(&export_value(value)));
        assert(field@ == whole[i as int]);
        let ghost sofar = fields@;
        fields.push(field);
        assert(parts_of(fields@) =~= parts_of(sofar).push(field@));
        assert(whole.take(i + 1) =~= whole.take(i as int).push(whole[i as int]));
        i += 1;
    }
    assert(whole.take(len as int) =~= whole);
}

/// Writes a list of names.
fn write_names(names: &Names) -> (bytes: Vec<u8>)
    ensures
        ({
            let list = listed(names@);
            bytes@ == list_bytes(Seq::new(list.len(), |i: int| text_bytes(list[i])))
        }),
{
    let mut items: Vec<Vec<u8>> = Vec::new();
    let len = names.len();
    let ghost list = names.names();
    let ghost whole = Seq::new(list.len(), |i: int| text_bytes(list[i]));
    let mut i: usize = 0;
    assert(parts_of(items@) =~= whole.take(0));
    while i < len
        invariant
            i <= len,
            len == list.len(),
            list == names.names(),
            whole == Seq::new(list.len(), |i: int| text_bytes(list[i])),
            parts_of(items@) == whole.take(i as int),
        decreases len - i,
    {
        let ghost sofar = items@;
        let item = write_text(names.name(i));
        items.push(item);
        assert(parts_of(items@) =~= parts_of(sofar).push(item@));
        assert(whole.take(i + 1) =~= whole.take(i as int).push(whole[i as int]));
        i += 1;
    }
    assert(whole.take(len as int) =~= whole);
    join(&items, OPEN_BRACKET, CLOSE_BRACKET)
}

/// Writes what a profile changes.
fn write_delta(delta: &ProfileDelta) -> (bytes: Vec<u8>)
    ensures
        bytes@ == delta_bytes(delta@),
{
    let mut fields: Vec<Vec<u8>> = Vec::new();
    if !delta.uninherit.is_empty() {
        fields.push(write_field("uninherit", &write_names(&delta.uninherit)));
    }
    assert(parts_of(fields@) =~= uninherit_fields(delta@.uninherit));
    write_settings_fields(&mut fields, &delta.settings);
    join(&fields, OPEN_BRACE, CLOSE_BRACE)
}

/// Writes a source.
fn write_source(source: &Source) -> (bytes: Vec<u8>)
    ensures
        bytes@ == source_bytes(source@),
{
    let mut profiles: Vec<Vec<u8>> = Vec::new();
    let len = source.profiles.len();
    let ghost names = source.profiles.names();
    let ghost deltas = source@.profiles;
    let ghost whole = Seq::new(
        names.len(),
        |i: int| field_bytes(names[i], delta_bytes(deltas[names[i]])),
    );
    proof {
        assert(deltas.dom() =~= source.profiles@.dom());
        assert(parts_of(profiles@) =~= whole.take(0));
    }
    let mut i: usize = 0;
    while i < len
        invariant
            i <= len,
            len == names.len(),
            names == source.profiles.names(),
            lists(names, source.profiles@.dom()),
            deltas == source@.profiles,
            whole == Seq::new(
                names.len(),
                |i: int| field_bytes(names[i], delta_bytes(deltas[names[i]])),
            ),
            parts_of(profiles@) == whole.take(i as int),
        decreases len - i,
    {
        let ghost sofar = profiles@;
        let delta = source.profiles.value(i);
        let field = write_field(source.profiles.name(i), &write_delta(delta));
        profiles.push(field);
        assert(field@ == whole[i as int]);
        assert(parts_of(profiles@) =~= parts_of(sofar).push(field@));
        assert(whole.take(i + 1) =~= whole.take(i as int).push(whole[i as int]));
        i += 1;
    }
    assert(whole.take(len as int) =~= whole);
    let profiles = join(&profiles, OPEN_BRACE, CLOSE_BRACE);
    assert(profiles@ == profiles_bytes(deltas));
    let version = write_compact(
        &close_json(Layer::Number(Number::PosInt(source.version as u64))),
    );
    let mut fields: Vec<Vec<u8>> = Vec::new();
    if let Some(schema) = &source.schema {
        fields.push(write_field("$schema", &write_text(schema.as_str())));
    }
    assert(parts_of(fields@) =~= schema_fields(source@.schema));
    fields.push(write_field("version", &version));
    fields.push(write_field("base", &write_compact(&export_settings(&source.base))));
    fields.push(write_field("profiles", &profiles));
    assert(parts_of(fields@) =~= schema_fields(source@.schema) + seq![
        field_bytes("version"@, version@),
        field_bytes("base"@, compact(settings_json(source@.base))),
        field_bytes("profiles"@, profiles@),
    ]);
    join(&fields, OPEN_BRACE, CLOSE_BRACE)
}

/// The hash of a source: the BLAKE3 hash of its bytes.
pub open spec fn hash_of_source(source: SourceView) -> Seq<char> {
    blake3_hex(source_bytes(source))
}

/// Hashes a source.
pub fn source_hash(source: &Source) -> (hash: String)
    ensures
        hash@ == hash_of_source(source@),
{
    hash_hex(write_source(source).as_slice())
}

} // verus!
