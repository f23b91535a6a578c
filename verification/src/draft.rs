//! A source as a text of its own: how it is laid out when no text is there to be edited.

use vstd::prelude::*;
use crate::codec::{
    canonical, export_settings, export_value, exported, lemma_canonical_exported, settings_json,
};
use crate::json::{lemma_array_json, Json, JsonValue, Num, Number, SettingsMap};
use crate::node::{tree_within, Member, Node};
use crate::outside::{
    denoted, jsonc_value, nesting_limit, pretty, tokens_in, tree_read, write_pretty,
};
use crate::parse::uninherit_name;
use crate::patch::value_node;
use crate::readback::{reads_as, sayable};
use crate::source::{DeltaView, ProfileDelta, Source, SourceView};
use crate::table::{listed, Names};
use crate::text::chars_of;
use crate::tokens::{node_marks, Mark};

verus! {

/// A value with a name before it.
#[verifier::ext_equal]
pub struct Part {
    pub name: Seq<char>,
    pub body: Draft,
}

/// What is laid out in a text: a value, or an object of parts in their order.
#[verifier::ext_equal]
pub enum Draft {
    Value(Json),
    Block(Seq<Part>),
}

/// A text in which two spaces stand behind each line feed.
pub open spec fn indented(text: Seq<char>) -> Seq<char>
    decreases text.len(),
{
    if text.len() == 0 {
        text
    } else if text.last() == '\n' {
        indented(text.drop_last()) + seq!['\n', ' ', ' ']
    } else {
        indented(text.drop_last()).push(text.last())
    }
}

/// The lines between the braces of an object: each is indented, and commas part them.
pub open spec fn lines_text(lines: Seq<Seq<char>>) -> Seq<char>
    decreases lines.len(),
{
    if lines.len() == 0 {
        Seq::empty()
    } else if lines.len() == 1 {
        "\n  "@ + indented(lines[0])
    } else {
        lines_text(lines.drop_last()) + ",\n  "@ + indented(lines.last())
    }
}

/// The text of an object.
pub open spec fn block_text(lines: Seq<Seq<char>>) -> Seq<char> {
    if lines.len() == 0 {
        "{}"@
    } else {
        "{"@ + lines_text(lines) + "\n}"@
    }
}

/// The text of a name and what stands under it.
pub open spec fn part_text(name: Seq<char>, body: Seq<char>) -> Seq<char> {
    pretty(Json::Text(name)) + ": "@ + body
}

/// The text in which a draft is laid out.
pub open spec fn layout(draft: Draft) -> Seq<char>
    decreases draft, 1int,
{
    match draft {
        Draft::Value(json) => pretty(json),
        Draft::Block(_) => block_text(part_texts(draft)),
    }
}

/// The texts of the parts of an object.
pub open spec fn part_texts(draft: Draft) -> Seq<Seq<char>>
    decreases draft, 0int,
{
    match draft {
        Draft::Value(_) => Seq::empty(),
        Draft::Block(parts) => Seq::new(
            parts.len(),
            |i: int|
                if 0 <= i < parts.len() {
                    part_text(parts[i].name, layout(parts[i].body))
                } else {
                    Seq::empty()
                },
        ),
    }
}

/// The tree of a draft.
pub open spec fn drafted(draft: Draft) -> Node
    decreases draft,
{
    match draft {
        Draft::Value(json) => value_node(json),
        Draft::Block(parts) => Node::Object(
            Seq::new(
                parts.len(),
                |i: int|
                    Member {
                        name: parts[i].name,
                        value: if 0 <= i < parts.len() {
                            drafted(parts[i].body)
                        } else {
                            Node::Null
                        },
                    },
            ),
        ),
    }
}

/// Whether a draft can be laid out: its values are ones that `serde_json` can hold.
pub open spec fn well_drafted(draft: Draft) -> bool
    decreases draft,
{
    match draft {
        Draft::Value(json) => canonical(json) && sayable(denoted(), json),
        Draft::Block(parts) => forall|i: int|
            0 <= i < parts.len() ==> well_drafted((#[trigger] parts[i]).body),
    }
}

/// A text is a draft that is laid out, with a line feed behind it.
pub open spec fn lays_out(text: Seq<char>, draft: Draft) -> bool {
    text == layout(draft).push('\n') && well_drafted(draft)
}

/// A text that is laid out is read as the value of what is laid out in it, where its lists and
/// objects do not stand too deep in each other.
pub open spec fn drafts_read(text: Seq<char>, read: Result<Json, Seq<char>>) -> bool {
    forall|draft: Draft| #[trigger]
        lays_out(text, draft) && tree_within(drafted(draft), nesting_limit()) ==> read is Ok
            && reads_as(denoted(), drafted(draft), read->Ok_0)
}

/// A text that is laid out has the tree of what is laid out in it.
pub open spec fn drafts_tree(text: Seq<char>, node: Node) -> bool {
    forall|draft: Draft| #[trigger] lays_out(text, draft) ==> node == drafted(draft)
}

/// A text that is laid out has the tokens of what is laid out in it.
pub open spec fn drafts_tokens(text: Seq<char>, marks: Seq<Mark>) -> bool {
    forall|draft: Draft| #[trigger] lays_out(text, draft) ==> marks == node_marks(drafted(draft))
}

/// What every reading of a text tells of what is laid out in it.
pub open spec fn tells_drafts(text: Seq<char>) -> bool {
    &&& drafts_read(text, jsonc_value(text))
    &&& match tree_read(text) {
        Ok(Some(node)) => drafts_tree(text, node),
        _ => drafts_tokens(text, tokens_in(text)),
    }
}

/// The value of a set of names: a list of them in their order.
pub open spec fn names_json(names: Set<Seq<char>>) -> Json {
    Json::List(Seq::new(listed(names).len(), |i: int| Json::Text(listed(names)[i])))
}

/// The draft of what a profile changes: what it does not inherit comes first.
pub open spec fn delta_draft(delta: DeltaView) -> Draft {
    Draft::Block(
        (if delta.uninherit == Set::<Seq<char>>::empty() {
            Seq::empty()
        } else {
            seq![Part { name: uninherit_name(), body: Draft::Value(names_json(delta.uninherit)) }]
        }) + setting_parts(delta.settings),
    )
}

/// The drafts of settings, in the order of their names.
pub open spec fn setting_parts(settings: SettingsMap) -> Seq<Part> {
    Seq::new(
        listed(settings.dom()).len(),
        |i: int|
            Part {
                name: listed(settings.dom())[i],
                body: Draft::Value(exported(settings[listed(settings.dom())[i]])),
            },
    )
}

/// The drafts of profiles, in the order of their names.
pub open spec fn profile_parts(profiles: Map<Seq<char>, DeltaView>) -> Seq<Part> {
    Seq::new(
        listed(profiles.dom()).len(),
        |i: int|
            Part {
                name: listed(profiles.dom())[i],
                body: delta_draft(profiles[listed(profiles.dom())[i]]),
            },
    )
}

/// The draft of a source: the schema where there is one, the version, the base and the
/// profiles.
pub open spec fn source_draft(source: SourceView) -> Draft {
    Draft::Block(
        (match source.schema {
            Some(schema) => seq![
                Part { name: "$schema"@, body: Draft::Value(Json::Text(schema)) },
            ],
            None => Seq::empty(),
        }) + seq![
            Part {
                name: "version"@,
                body: Draft::Value(Json::Number(Num::PosInt(source.version as u64))),
            },
            Part { name: "base"@, body: Draft::Value(settings_json(source.base)) },
            Part { name: "profiles"@, body: Draft::Block(profile_parts(source.profiles)) },
        ],
    )
}

/// The text of a source that is written anew.
pub open spec fn source_text(source: SourceView) -> Seq<char> {
    layout(source_draft(source)).push('\n')
}

/// A text is what a source is written as anew. Its version stands as a number that is held as
/// `serde_json` holds numbers.
pub open spec fn written_anew(source: SourceView, text: Seq<char>) -> bool {
    &&& text == source_text(source)
    &&& canonical(Json::Number(Num::PosInt(source.version as u64)))
}

/// Puts two spaces behind each line feed.
fn indent(text: &str) -> (inner: String)
    ensures
        inner@ == indented(text@),
{
    let chars = chars_of(text);
    let mut inner = String::new();
    let mut i: usize = 0;
    assert(text@.take(0) =~= Seq::<char>::empty());
    while i < chars.len()
        invariant
            i <= chars@.len(),
            chars@ == text@,
            inner@ == indented(text@.take(i as int)),
        decreases chars@.len() - i,
    {
        let ghost before = inner@;
        let ghost sofar = text@.take(i + 1);
        assert(sofar.drop_last() =~= text@.take(i as int));
        if chars[i] == '\n' {
            inner.append("\n  ");
            proof {
                reveal_strlit("\n  ");
                assert("\n  "@ =~= seq!['\n', ' ', ' ']);
            }
        } else {
            inner.push(chars[i]);
        }
        i += 1;
    }
    assert(text@.take(i as int) =~= text@);
    inner
}

/// The views of lines.
pub open spec fn line_views(lines: Seq<String>) -> Seq<Seq<char>> {
    Seq::new(lines.len(), |i: int| lines[i]@)
}

/// Lays out an object.
fn block(lines: &Vec<String>) -> (text: String)
    ensures
        text@ == block_text(line_views(lines@)),
{
    let ghost views = line_views(lines@);
    if lines.len() == 0 {
        return "{}".to_owned();
    }
    let mut inner = String::new();
    let mut i: usize = 0;
    assert(views.take(0) =~= Seq::<Seq<char>>::empty());
    proof {
        reveal_strlit("");
    }
    while i < lines.len()
        invariant
            i <= lines@.len(),
            views == line_views(lines@),
            inner@ == lines_text(views.take(i as int)),
        decreases lines@.len() - i,
    {
        let ghost before = inner@;
        let ghost sofar = views.take(i + 1);
        assert(sofar.drop_last() =~= views.take(i as int));
        assert(sofar.last() == lines@[i as int]@);
        let line = indent(lines[i].as_str());
        if i == 0 {
            inner.append("\n  ");
            inner.append(line.as_str());
            assert(before =~= Seq::<char>::empty());
            assert(inner@ =~= "\n  "@ + line@);
        } else {
            inner.append(",\n  ");
            inner.append(line.as_str());
        }
        i += 1;
    }
    assert(views.take(i as int) =~= views);
    let mut text = "{".to_owned();
    text.append(inner.as_str());
    text.append("\n}");
    text
}

/// Writes a name and what stands under it.
fn part(name: &str, body: &str) -> (text: String)
    ensures
        text@ == part_text(name@, body@),
{
    let mut text = write_pretty(&export_value(&JsonValue::String(name.to_owned())));
    text.append(": ");
    text.append(body);
    text
}

/// Writes a list of names.
fn names_text(names: &Names) -> (text: String)
    ensures
        text@ == pretty(names_json(names@)),
{
    let mut items: Vec<JsonValue> = Vec::new();
    let len = names.len();
    let ghost row = names.names();
    let mut i: usize = 0;
    while i < len
        invariant
            i <= len,
            len == row.len(),
            row == names.names(),
            items@.len() == i,
            forall|j: int| 0 <= j < i ==> (#[trigger] items@[j])@ == Json::Text(row[j]),
        decreases len - i,
    {
        items.push(JsonValue::String(names.name(i).to_owned()));
        i += 1;
    }
    let ghost held = items@;
    let value = JsonValue::Array(items);
    proof {
        lemma_array_json(value->Array_0);
        let list = value@->List_0;
        assert forall|j: int| 0 <= j < list.len() implies #[trigger] list[j]
            == names_json(names@)->List_0[j] && canonical(list[j]) by {
            assert(held[j]@ == Json::Text(row[j]));
            assert(value@->List_0[j] == held[j]@);
        }
        lemma_canonical_exported(value@);
        assert(list =~= names_json(names@)->List_0);
    }
    write_pretty(&export_value(&value))
}

/// Lays out what a profile changes.
fn delta_text(delta: &ProfileDelta) -> (text: String)
    ensures
        text@ == layout(delta_draft(delta@)),
{
    let mut lines: Vec<String> = Vec::new();
    let ghost parts = delta_draft(delta@)->Block_0;
    let ghost head = parts.len() - setting_parts(delta@.settings).len();
    if !delta.uninherit.is_empty() {
        lines.push(part("uninherit", names_text(&delta.uninherit).as_str()));
        assert(line_views(lines@) =~= part_texts(Draft::Block(parts.take(1))));
    } else {
        assert(delta@.uninherit =~= Set::<Seq<char>>::empty());
        assert(line_views(lines@) =~= part_texts(Draft::Block(parts.take(0))));
    }
    let len = delta.settings.len();
    let ghost row = delta.settings.names();
    assert(delta.settings.deep_view().dom() =~= delta.settings@.dom());
    let mut i: usize = 0;
    while i < len
        invariant
            i <= len,
            len == row.len(),
            row == delta.settings.names(),
            row == listed(delta@.settings.dom()),
            delta.settings.deep_view().dom() == delta.settings@.dom(),
            delta@.settings == delta.settings.deep_view(),
            parts == delta_draft(delta@)->Block_0,
            head == parts.len() - setting_parts(delta@.settings).len(),
            0 <= head <= 1,
            parts.skip(head) == setting_parts(delta@.settings),
            line_views(lines@) == part_texts(Draft::Block(parts.take(head + i))),
        decreases len - i,
    {
        let ghost before = line_views(lines@);
        let name = delta.settings.name(i);
        let value = delta.settings.value(i);
        let body = write_pretty(&export_value(value));
        let line = part(name, body.as_str());
        proof {
            assert(parts.skip(head)[i as int] == parts[head + i]);
            assert(parts[head + i] == (Part {
                name: row[i as int],
                body: Draft::Value(exported(delta@.settings[row[i as int]])),
            }));
            assert(parts.take(head + i + 1) =~= parts.take(head + i).push(parts[head + i]));
        }
        lines.push(line);
        assert(line_views(lines@) =~= before.push(line@));
        assert(part_texts(Draft::Block(parts.take(head + i + 1))) =~= before.push(line@));
        i += 1;
    }
    assert(parts.take(head + i) =~= parts);
    block(&lines)
}

/// Lays out the profiles of a source.
fn profiles_text(source: &Source) -> (text: String)
    ensures
        text@ == layout(Draft::Block(profile_parts(source@.profiles))),
{
    let mut lines: Vec<String> = Vec::new();
    let ghost parts = profile_parts(source@.profiles);
    let len = source.profiles.len();
    let ghost row = source.profiles.names();
    assert(source.profiles.deep_view().dom() =~= source.profiles@.dom());
    assert(line_views(lines@) =~= part_texts(Draft::Block(parts.take(0))));
    let mut i: usize = 0;
    while i < len
        invariant
            i <= len,
            len == row.len(),
            len == parts.len(),
            row == source.profiles.names(),
            row == listed(source@.profiles.dom()),
            source.profiles.deep_view().dom() == source.profiles@.dom(),
            parts == profile_parts(source@.profiles),
            line_views(lines@) == part_texts(Draft::Block(parts.take(i as int))),
        decreases len - i,
    {
        let ghost before = line_views(lines@);
        let body = delta_text(source.profiles.value(i));
        let line = part(source.profiles.name(i), body.as_str());
        proof {
            assert(parts[i as int] == (Part {
                name: row[i as int],
                body: delta_draft(source@.profiles[row[i as int]]),
            }));
            assert(source@.profiles[row[i as int]] == source.profiles@[row[i as int]]@);
            assert(parts.take(i + 1) =~= parts.take(i as int).push(parts[i as int]));
        }
        lines.push(line);
        assert(line_views(lines@) =~= before.push(line@));
        assert(part_texts(Draft::Block(parts.take(i + 1))) =~= before.push(line@));
        i += 1;
    }
    assert(parts.take(i as int) =~= parts);
    block(&lines)
}

/// Writes a source as a text of its own.
pub fn fresh_text(source: &Source) -> (text: String)
    ensures
        written_anew(source@, text@),
{
    let mut lines: Vec<String> = Vec::new();
    let ghost parts = source_draft(source@)->Block_0;
    match &source.schema {
        Some(schema) => {
            let body = write_pretty(&export_value(&JsonValue::String(schema.as_str().to_owned())));
            lines.push(part("$schema", body.as_str()));
        },
        None => {},
    }
    let number = JsonValue::Number(Number::PosInt(source.version as u64));
    let version = write_pretty(&export_value(&number));
    lines.push(part("version", version.as_str()));
    let base = write_pretty(&export_settings(&source.base));
    lines.push(part("base", base.as_str()));
    let profiles = profiles_text(source);
    lines.push(part("profiles", profiles.as_str()));
    proof {
        assert(line_views(lines@) =~= part_texts(Draft::Block(parts)));
    }
    let mut text = block(&lines);
    let ghost before = text@;
    text.append("\n");
    proof {
        reveal_strlit("\n");
        assert(text@ =~= before.push('\n'));
    }
    text
}

} // verus!
