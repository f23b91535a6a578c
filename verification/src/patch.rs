//! Writing a source into its text: only what changed is edited, and everything
//! else of the text stays.

use vstd::prelude::*;
use crate::decimal::{decimal, decimal_text, signed_decimal, signed_decimal_text};
use crate::json::{
    at, lemma_array_json, lemma_item_decreases, lemma_object_json, same_option, Json, JsonValue, Num, Number, Settings,
    SettingsMap,
};
use crate::node::{
    empty_object, find, lemma_find, lemma_path_further, lemma_with_members_at, lemma_with_value,
    members_at, named, texts, with_member, with_members_at, with_object, with_value, without, Edit,
    Member, Node,
};
use crate::outside::{
    append_member, close_input, document, document_edits, document_members, document_remarks,
    edited, edited_text, goes_by_tree, has_member, input_members, input_node, jsonc_value,
    make_object, make_root_object, names_apart, object_edits, parse_document, print_document,
    reads_tree, reads_with, remarks_in, remove_member, root_edits, set_member, tokens_in,
    tree_read, writes_its_tree, InputLayer,
};
use crate::parse::{fits_source, parse_source, source_in, source_read, uninherit_name};
use crate::reconcile::same_values;
use crate::remarks::{lemma_carried, lemma_comments_stay, remark_texts, stand, staying};
use crate::source::{CoreError, DeltaView, ProfileDelta, Source, SourceView};
use crate::table::{lemma_lists_unique, listed, lists, Names, Table};
use crate::tokens::comments_among;

verus! {

/// The literal of a number.
pub open spec fn literal(number: Num) -> Seq<char> {
    match number {
        Num::PosInt(n) => decimal(n as nat),
        Num::NegInt(n) => signed_decimal(n as int),
        Num::Float(text) => text,
    }
}

/// The tree of a JSON value: the members of an object stand in the order of their names.
pub open spec fn value_node(json: Json) -> Node
    decreases json,
{
    match json {
        Json::Null => Node::Null,
        Json::Bool(b) => Node::Bool(b),
        Json::Number(number) => Node::Number(literal(number)),
        Json::Text(text) => Node::Text(text),
        Json::List(items) => Node::List(
            Seq::new(
                items.len(),
                |i: int|
                    if 0 <= i < items.len() {
                        value_node(items[i])
                    } else {
                        Node::Null
                    },
            ),
        ),
        Json::Object(map) => Node::Object(
            Seq::new(
                listed(map.dom()).len(),
                |i: int|
                    Member {
                        name: listed(map.dom())[i],
                        value: if map.contains_key(listed(map.dom())[i]) {
                            value_node(map[listed(map.dom())[i]])
                        } else {
                            Node::Null
                        },
                    },
            ),
        ),
    }
}

/// The members of settings, in the order of their names.
pub open spec fn setting_members(settings: SettingsMap) -> Seq<Member> {
    value_node(Json::Object(settings))->Object_0
}

/// The tree of a set of names: a list of them in their order.
pub open spec fn names_node(names: Set<Seq<char>>) -> Node {
    Node::List(Seq::new(listed(names).len(), |i: int| Node::Text(listed(names)[i])))
}

/// The tree of what a profile changes.
pub open spec fn delta_node(delta: DeltaView) -> Node {
    Node::Object(
        (if delta.uninherit == Set::<Seq<char>>::empty() {
            Seq::empty()
        } else {
            seq![Member { name: uninherit_name(), value: names_node(delta.uninherit) }]
        }) + setting_members(delta.settings),
    )
}

/// The members after a setting went from one value to another.
pub open spec fn patched_setting(
    members: Seq<Member>,
    setting: Seq<char>,
    before: Option<Json>,
    after: Option<Json>,
) -> Seq<Member> {
    if same_option(before, after) {
        members
    } else {
        match after {
            Some(value) => if named(members, setting) {
                with_value(members, setting, value_node(value))
            } else {
                with_member(members, setting, value_node(value))
            },
            None => if named(members, setting) {
                without(members, setting)
            } else {
                members
            },
        }
    }
}

/// The edits by which a setting goes from one value to another, in the object that a path
/// reaches.
pub open spec fn setting_edits(
    path: Seq<Seq<char>>,
    members: Seq<Member>,
    setting: Seq<char>,
    before: Option<Json>,
    after: Option<Json>,
) -> Seq<Edit> {
    if same_option(before, after) {
        Seq::empty()
    } else {
        match after {
            Some(value) => if named(members, setting) {
                seq![Edit::SetMember { path, name: setting, value: value_node(value) }]
            } else {
                seq![Edit::AppendMember { path, name: setting, value: value_node(value) }]
            },
            None => if named(members, setting) {
                seq![Edit::RemoveMember { path, name: setting }]
            } else {
                Seq::empty()
            },
        }
    }
}

/// The members after a row of settings went from what they were to what they are.
pub open spec fn patched_row(
    members: Seq<Member>,
    settings: Seq<Seq<char>>,
    before: SettingsMap,
    after: SettingsMap,
) -> Seq<Member>
    decreases settings.len(),
{
    if settings.len() == 0 {
        members
    } else {
        patched_setting(
            patched_row(members, settings.drop_last(), before, after),
            settings.last(),
            at(before, settings.last()),
            at(after, settings.last()),
        )
    }
}

/// The members after all settings went from what they were to what they are, in the
/// order of their names.
pub open spec fn patched_settings(
    members: Seq<Member>,
    before: SettingsMap,
    after: SettingsMap,
) -> Seq<Member> {
    patched_row(members, listed(before.dom().union(after.dom())), before, after)
}

/// The edits by which a row of settings goes from what it was to what it is.
pub open spec fn row_edits(
    path: Seq<Seq<char>>,
    members: Seq<Member>,
    settings: Seq<Seq<char>>,
    before: SettingsMap,
    after: SettingsMap,
) -> Seq<Edit>
    decreases settings.len(),
{
    if settings.len() == 0 {
        Seq::empty()
    } else {
        row_edits(path, members, settings.drop_last(), before, after) + setting_edits(
            path,
            patched_row(members, settings.drop_last(), before, after),
            settings.last(),
            at(before, settings.last()),
            at(after, settings.last()),
        )
    }
}

/// The edits by which all settings go from what they were to what they are, in the order
/// of their names.
pub open spec fn settings_edits(
    path: Seq<Seq<char>>,
    members: Seq<Member>,
    before: SettingsMap,
    after: SettingsMap,
) -> Seq<Edit> {
    row_edits(path, members, listed(before.dom().union(after.dom())), before, after)
}

/// The members of a profile after what it does not inherit was changed.
pub open spec fn patched_uninherit(
    members: Seq<Member>,
    before: Set<Seq<char>>,
    after: Set<Seq<char>>,
) -> Seq<Member> {
    if before == after {
        members
    } else if after == Set::<Seq<char>>::empty() {
        if named(members, uninherit_name()) {
            without(members, uninherit_name())
        } else {
            members
        }
    } else if named(members, uninherit_name()) {
        with_value(members, uninherit_name(), names_node(after))
    } else {
        with_member(members, uninherit_name(), names_node(after))
    }
}

/// The edits that change what a profile does not inherit.
pub open spec fn uninherit_edits(
    path: Seq<Seq<char>>,
    members: Seq<Member>,
    before: Set<Seq<char>>,
    after: Set<Seq<char>>,
) -> Seq<Edit> {
    if before == after {
        Seq::empty()
    } else if after == Set::<Seq<char>>::empty() {
        if named(members, uninherit_name()) {
            seq![Edit::RemoveMember { path, name: uninherit_name() }]
        } else {
            Seq::empty()
        }
    } else if named(members, uninherit_name()) {
        seq![Edit::SetMember { path, name: uninherit_name(), value: names_node(after) }]
    } else {
        seq![Edit::AppendMember { path, name: uninherit_name(), value: names_node(after) }]
    }
}

/// The members of a profile after it was changed.
pub open spec fn patched_delta(
    members: Seq<Member>,
    before: DeltaView,
    after: DeltaView,
) -> Seq<Member> {
    patched_uninherit(
        patched_settings(members, before.settings, after.settings),
        before.uninherit,
        after.uninherit,
    )
}

/// The edits that change a profile.
pub open spec fn delta_edits(
    path: Seq<Seq<char>>,
    members: Seq<Member>,
    before: DeltaView,
    after: DeltaView,
) -> Seq<Edit> {
    settings_edits(path, members, before.settings, after.settings) + uninherit_edits(
        path,
        patched_settings(members, before.settings, after.settings),
        before.uninherit,
        after.uninherit,
    )
}

/// The profiles after one of them was taken away, added or changed.
pub open spec fn patched_profile(
    members: Seq<Member>,
    name: Seq<char>,
    before: Option<DeltaView>,
    after: Option<DeltaView>,
) -> Seq<Member> {
    match (before, after) {
        (Some(_), None) => if named(members, name) {
            without(members, name)
        } else {
            members
        },
        (None, Some(delta)) => with_member(members, name, delta_node(delta)),
        (Some(before), Some(after)) => {
            let made = with_object(members, name);
            with_value(
                made,
                name,
                Node::Object(
                    patched_delta(made[find(made, name)].value->Object_0, before, after),
                ),
            )
        },
        (None, None) => members,
    }
}

/// The edits by which one of the profiles is taken away, added or changed.
pub open spec fn profile_edits(
    path: Seq<Seq<char>>,
    members: Seq<Member>,
    name: Seq<char>,
    before: Option<DeltaView>,
    after: Option<DeltaView>,
) -> Seq<Edit> {
    match (before, after) {
        (Some(_), None) => if named(members, name) {
            seq![Edit::RemoveMember { path, name }]
        } else {
            Seq::empty()
        },
        (None, Some(delta)) => seq![Edit::AppendMember { path, name, value: delta_node(delta) }],
        (Some(before), Some(after)) => {
            let made = with_object(members, name);
            object_edits(path, members, name) + delta_edits(
                path.push(name),
                made[find(made, name)].value->Object_0,
                before,
                after,
            )
        },
        (None, None) => Seq::empty(),
    }
}

/// The profiles after those of a row of names went from what they were to what they are.
pub open spec fn patched_profiles_row(
    members: Seq<Member>,
    names: Seq<Seq<char>>,
    before: Map<Seq<char>, DeltaView>,
    after: Map<Seq<char>, DeltaView>,
) -> Seq<Member>
    decreases names.len(),
{
    if names.len() == 0 {
        members
    } else {
        patched_profile(
            patched_profiles_row(members, names.drop_last(), before, after),
            names.last(),
            at(before, names.last()),
            at(after, names.last()),
        )
    }
}

/// The profiles after all of them went from what they were to what they are, in the
/// order of their names.
pub open spec fn patched_profiles(
    members: Seq<Member>,
    before: Map<Seq<char>, DeltaView>,
    after: Map<Seq<char>, DeltaView>,
) -> Seq<Member> {
    patched_profiles_row(members, listed(before.dom().union(after.dom())), before, after)
}

/// The edits by which the profiles of a row of names go from what they were to what they
/// are.
pub open spec fn profiles_row_edits(
    path: Seq<Seq<char>>,
    members: Seq<Member>,
    names: Seq<Seq<char>>,
    before: Map<Seq<char>, DeltaView>,
    after: Map<Seq<char>, DeltaView>,
) -> Seq<Edit>
    decreases names.len(),
{
    if names.len() == 0 {
        Seq::empty()
    } else {
        profiles_row_edits(path, members, names.drop_last(), before, after) + profile_edits(
            path,
            patched_profiles_row(members, names.drop_last(), before, after),
            names.last(),
            at(before, names.last()),
            at(after, names.last()),
        )
    }
}

/// The edits by which all profiles go from what they were to what they are, in the order of
/// their names.
pub open spec fn profiles_edits(
    path: Seq<Seq<char>>,
    members: Seq<Member>,
    before: Map<Seq<char>, DeltaView>,
    after: Map<Seq<char>, DeltaView>,
) -> Seq<Edit> {
    profiles_row_edits(path, members, listed(before.dom().union(after.dom())), before, after)
}

/// The members of the value of a document: none, where it is not an object.
pub open spec fn root_members(tree: Option<Node>) -> Seq<Member> {
    match tree {
        Some(Node::Object(members)) => members,
        _ => Seq::empty(),
    }
}

/// The members of the value of a document with those of the base after it was edited.
pub open spec fn base_patched(tree: Option<Node>, before: SourceView, after: SourceView) -> Seq<
    Member,
> {
    let made = with_object(root_members(tree), "base"@);
    with_value(
        made,
        "base"@,
        Node::Object(
            patched_settings(
                made[find(made, "base"@)].value->Object_0,
                before.base,
                after.base,
            ),
        ),
    )
}

/// The tree of a source after it went from `before` to `after`: its base and its
/// profiles are edited, and every other field stays.
pub open spec fn patched_tree(
    tree: Option<Node>,
    before: SourceView,
    after: SourceView,
) -> Node {
    let made = with_object(base_patched(tree, before, after), "profiles"@);
    Node::Object(
        with_value(
            made,
            "profiles"@,
            Node::Object(
                patched_profiles(
                    made[find(made, "profiles"@)].value->Object_0,
                    before.profiles,
                    after.profiles,
                ),
            ),
        ),
    )
}

/// The edits that change the base.
pub open spec fn base_edits(tree: Option<Node>, before: SourceView, after: SourceView) -> Seq<
    Edit,
> {
    let members = root_members(tree);
    let made = with_object(members, "base"@);
    object_edits(Seq::empty(), members, "base"@) + settings_edits(
        seq!["base"@],
        made[find(made, "base"@)].value->Object_0,
        before.base,
        after.base,
    )
}

/// The edits by which a source goes from `before` to `after`, in a document whose value has
/// the tree `tree`.
pub open spec fn source_edits(tree: Option<Node>, before: SourceView, after: SourceView) -> Seq<
    Edit,
> {
    let members = base_patched(tree, before, after);
    let made = with_object(members, "profiles"@);
    root_edits(tree) + base_edits(tree, before, after) + object_edits(
        Seq::empty(),
        members,
        "profiles"@,
    ) + profiles_edits(
        seq!["profiles"@],
        made[find(made, "profiles"@)].value->Object_0,
        before.profiles,
        after.profiles,
    )
}

/// Writes the literal of a number.
fn number_literal(number: &Number) -> (text: String)
    ensures
        text@ == literal(number@),
{
    match number {
        Number::PosInt(n) => decimal_text(*n as u128),
        Number::NegInt(n) => signed_decimal_text(*n),
        Number::Float(text) => text.clone(),
    }
}

/// A value as it is put into a document.
pub fn value_input(value: &JsonValue) -> (input: jsonc_parser::cst::CstInputValue)
    ensures
        input_node(input) == value_node(value@),
    decreases value, 0nat,
{
    match value {
        JsonValue::Null => close_input(InputLayer::Null),
        JsonValue::Bool(b) => close_input(InputLayer::Bool(*b)),
        JsonValue::Number(number) => close_input(InputLayer::Number(number_literal(number))),
        JsonValue::String(text) => close_input(InputLayer::Text(text.clone())),
        JsonValue::Array(items) => {
            let mut done: Vec<jsonc_parser::cst::CstInputValue> = Vec::new();
            let mut i: usize = 0;
            while i < items.len()
                invariant
                    i <= items@.len(),
                    *value == JsonValue::Array(*items),
                    done@.len() == i,
                    forall|j: int|
                        0 <= j < i ==> input_node(#[trigger] done@[j]) == value_node(items@[j]@),
                decreases items@.len() - i,
            {
                proof {
                    lemma_item_decreases(*value, i as int);
                }
                done.push(value_input(&items[i]));
                i += 1;
            }
            let ghost row = done@;
            let input = close_input(InputLayer::List(done));
            proof {
                lemma_array_json(*items);
                assert(input_node(input)->List_0 =~= value_node(value@)->List_0) by {
                    assert forall|j: int| 0 <= j < row.len() implies input_node(
                        input,
                    )->List_0[j] == value_node(value@)->List_0[j] by {
                        assert(input_node(row[j]) == value_node(items@[j]@));
                    }
                }
            }
            input
        },
        JsonValue::Object(table) => {
            let mut members: Vec<(String, jsonc_parser::cst::CstInputValue)> = Vec::new();
            push_settings(&mut members, table);
            let input = close_input(InputLayer::Object(members));
            proof {
                lemma_object_json(*table);
                assert(input_node(input)->Object_0 =~= value_node(value@)->Object_0) by {
                    assert(value_node(value@)->Object_0 == setting_members(table.deep_view()));
                    lemma_input_views(input_node(input), members@);
                }
            }
            input
        },
    }
}

spec fn input_views(members: Seq<(String, jsonc_parser::cst::CstInputValue)>) -> Seq<Member> {
    Seq::new(
        members.len(),
        |i: int| Member { name: members[i].0@, value: input_node(members[i].1) },
    )
}

proof fn lemma_input_views(
    node: Node,
    members: Seq<(String, jsonc_parser::cst::CstInputValue)>,
)
    requires
        input_members(node, members),
    ensures
        node == Node::Object(input_views(members)),
{
    assert(node->Object_0 =~= input_views(members)) by {
        assert forall|i: int| 0 <= i < members.len() implies node->Object_0[i]
            == input_views(members)[i] by {
            assert(members[i] == members[i]);
        }
    }
}

/// Puts settings behind members, in the order of their names.
fn push_settings(
    members: &mut Vec<(String, jsonc_parser::cst::CstInputValue)>,
    settings: &Settings,
)
    ensures
        input_views(final(members)@) == input_views(old(members)@) + setting_members(
            settings.deep_view(),
        ),
    decreases settings, 1nat,
{
    let ghost before = input_views(members@);
    let ghost whole = setting_members(settings.deep_view());
    let len = settings.len();
    let ghost names = settings.names();
    proof {
        assert(settings.deep_view().dom() =~= settings@.dom());
        assert(before + whole.take(0) =~= before);
    }
    let mut i: usize = 0;
    while i < len
        invariant
            i <= len,
            len == names.len(),
            names == settings.names(),
            lists(names, settings@.dom()),
            names == listed(settings.deep_view().dom()),
            whole == setting_members(settings.deep_view()),
            input_views(members@) == before + whole.take(i as int),
        decreases len - i,
    {
        let value = settings.value(i);
        let ghost name = names[i as int];
        proof {
            crate::table::lemma_table_decreases(*settings, name);
            assert(settings.deep_view().contains_key(name));
        }
        let ghost sofar = members@;
        let member = (settings.name(i).to_owned(), value_input(value));
        assert(whole[i as int] == Member { name: member.0@, value: input_node(member.1) });
        members.push(member);
        assert(input_views(members@) =~= input_views(sofar).push(whole[i as int]));
        assert(whole.take(i + 1) =~= whole.take(i as int).push(whole[i as int]));
        i += 1;
    }
    assert(whole.take(len as int) =~= whole);
}

/// A set of names as it is put into a document.
fn names_input(names: &Names) -> (input: jsonc_parser::cst::CstInputValue)
    ensures
        input_node(input) == names_node(names@),
{
    let mut items: Vec<jsonc_parser::cst::CstInputValue> = Vec::new();
    let len = names.len();
    let ghost list = names.names();
    let mut i: usize = 0;
    while i < len
        invariant
            i <= len,
            len == list.len(),
            list == names.names(),
            items@.len() == i,
            forall|j: int| 0 <= j < i ==> input_node(#[trigger] items@[j]) == Node::Text(list[j]),
        decreases len - i,
    {
        items.push(close_input(InputLayer::Text(names.name(i).to_owned())));
        i += 1;
    }
    let ghost row = items@;
    let input = close_input(InputLayer::List(items));
    proof {
        assert(input_node(input)->List_0 =~= names_node(names@)->List_0) by {
            assert forall|j: int| 0 <= j < row.len() implies input_node(input)->List_0[j]
                == names_node(names@)->List_0[j] by {
                assert(input_node(row[j]) == Node::Text(list[j]));
            }
        }
    }
    input
}

/// What a profile changes as it is put into a document.
pub fn delta_input(delta: &ProfileDelta) -> (input: jsonc_parser::cst::CstInputValue)
    ensures
        input_node(input) == delta_node(delta@),
{
    let mut members: Vec<(String, jsonc_parser::cst::CstInputValue)> = Vec::new();
    if !delta.uninherit.is_empty() {
        members.push(("uninherit".to_owned(), names_input(&delta.uninherit)));
    }
    assert(input_views(members@) =~= if delta@.uninherit == Set::<Seq<char>>::empty() {
        Seq::empty()
    } else {
        seq![Member { name: uninherit_name(), value: names_node(delta@.uninherit) }]
    });
    push_settings(&mut members, &delta.settings);
    let ghost row = members@;
    let input = close_input(InputLayer::Object(members));
    proof {
        lemma_input_views(input_node(input), row);
    }
    input
}

/// Two rows of edits after each other are one.
proof fn lemma_edited(
    first: jsonc_parser::cst::CstRootNode,
    middle: jsonc_parser::cst::CstRootNode,
    last: jsonc_parser::cst::CstRootNode,
    before: Seq<Edit>,
    after: Seq<Edit>,
)
    requires
        edited(first, middle, before),
        edited(middle, last, after),
    ensures
        edited(first, last, before + after),
{
    assert(document_edits(last) =~= document_edits(first) + (before + after));
    lemma_carried(
        before,
        after,
        document_remarks(first),
        document_remarks(middle),
        document_remarks(last),
    );
}

/// A document that is left as it is was not edited.
proof fn lemma_not_edited(root: jsonc_parser::cst::CstRootNode)
    ensures
        edited(root, root, Seq::empty()),
{
    assert(document_edits(root) + Seq::<Edit>::empty() =~= document_edits(root));
}

/// Edits the settings in the object that a path reaches.
fn patch_settings(
    root: &mut jsonc_parser::cst::CstRootNode,
    path: &Vec<String>,
    before: &Settings,
    after: &Settings,
)
    requires
        document_members(*old(root), path@) is Some,
    ensures
        document(*final(root)) == Some(
            with_members_at(
                document(*old(root))->0,
                texts(path@),
                patched_settings(
                    document_members(*old(root), path@)->0,
                    before.deep_view(),
                    after.deep_view(),
                ),
            ),
        ),
        edited(
            *old(root),
            *final(root),
            settings_edits(
                texts(path@),
                document_members(*old(root), path@)->0,
                before.deep_view(),
                after.deep_view(),
            ),
        ),
{
    let mut keys = Names::new();
    keys.insert_names_of(before);
    keys.insert_names_of(after);
    let len = keys.len();
    let ghost list = keys.names();
    let ghost b = before.deep_view();
    let ghost a = after.deep_view();
    let ghost tree = document(*root)->0;
    let ghost way = texts(path@);
    let ghost start = members_at(tree, way)->0;
    let ghost first = *root;
    proof {
        assert(keys@ =~= b.dom().union(a.dom()));
        assert(list == listed(b.dom().union(a.dom())));
        lemma_with_members_at(tree, way, start, start);
        lemma_not_edited(first);
        assert(list.take(0) =~= Seq::<Seq<char>>::empty());
    }
    let mut i: usize = 0;
    while i < len
        invariant
            i <= len,
            len == list.len(),
            list == keys.names(),
            b == before.deep_view(),
            a == after.deep_view(),
            way == texts(path@),
            members_at(tree, way) == Some(start),
            document(*root) == Some(
                with_members_at(tree, way, patched_row(start, list.take(i as int), b, a)),
            ),
            edited(first, *root, row_edits(way, start, list.take(i as int), b, a)),
        decreases len - i,
    {
        let key = keys.name(i);
        let ghost sofar = patched_row(start, list.take(i as int), b, a);
        let ghost more = patched_setting(sofar, key@, at(b, key@), at(a, key@));
        proof {
            lemma_with_members_at(tree, way, sofar, more);
            assert(list.take(i + 1).drop_last() =~= list.take(i as int));
            assert(list.take(i + 1).last() == key@);
            assert(document_members(*root, path@) == Some(sofar));
            lemma_not_edited(*root);
        }
        let ghost middle = *root;
        let old_value = before.get(key);
        let new_value = after.get(key);
        if !same_values(old_value, new_value) {
            match new_value {
                Some(value) => {
                    let input = value_input(value);
                    if has_member(root, path, key) {
                        set_member(root, path, key, input);
                    } else {
                        append_member(root, path, key, input);
                    }
                },
                None => {
                    if has_member(root, path, key) {
                        remove_member(root, path, key);
                    }
                },
            }
        }
        proof {
            lemma_edited(
                first,
                middle,
                *root,
                row_edits(way, start, list.take(i as int), b, a),
                setting_edits(way, sofar, key@, at(b, key@), at(a, key@)),
            );
        }
        i += 1;
    }
    assert(list.take(len as int) =~= list);
}

/// Edits what a profile does not inherit, in the object that a path reaches.
fn patch_uninherit(
    root: &mut jsonc_parser::cst::CstRootNode,
    path: &Vec<String>,
    before: &Names,
    after: &Names,
)
    requires
        document_members(*old(root), path@) is Some,
    ensures
        document(*final(root)) == Some(
            with_members_at(
                document(*old(root))->0,
                texts(path@),
                patched_uninherit(document_members(*old(root), path@)->0, before@, after@),
            ),
        ),
        edited(
            *old(root),
            *final(root),
            uninherit_edits(
                texts(path@),
                document_members(*old(root), path@)->0,
                before@,
                after@,
            ),
        ),
{
    proof {
        let start = document_members(*root, path@)->0;
        lemma_with_members_at(document(*root)->0, texts(path@), start, start);
        lemma_not_edited(*root);
    }
    if !same_names(before, after) {
        if after.is_empty() {
            if has_member(root, path, "uninherit") {
                remove_member(root, path, "uninherit");
            }
        } else {
            let input = names_input(after);
            if has_member(root, path, "uninherit") {
                set_member(root, path, "uninherit", input);
            } else {
                append_member(root, path, "uninherit", input);
            }
        }
    }
}

/// Whether two sets of names are the same.
fn same_names(a: &Names, b: &Names) -> (same: bool)
    ensures
        same == (a@ == b@),
{
    let len = a.len();
    if len != b.len() {
        proof {
            if a@ == b@ {
                lemma_lists_unique(a.names(), b.names(), a@);
            }
        }
        return false;
    }
    let mut i: usize = 0;
    while i < len
        invariant
            i <= len,
            len == a.names().len(),
            len == b.names().len(),
            lists(a.names(), a@),
            lists(b.names(), b@),
            forall|j: int| 0 <= j < i ==> #[trigger] a.names()[j] == b.names()[j],
        decreases len - i,
    {
        if !crate::text::same_text(a.name(i), b.name(i)) {
            proof {
                if a@ == b@ {
                    lemma_lists_unique(a.names(), b.names(), a@);
                }
            }
            return false;
        }
        i += 1;
    }
    assert(a.names() =~= b.names());
    assert(a@ =~= b@);
    true
}

/// What went wrong when a source was to be written into a text.
#[derive(Debug)]
pub enum PatchError {
    /// The text holds no source that may stand as it is.
    Source(CoreError),
    /// The text could not be read as a document.
    Document(String),
}

/// What writing a source into a text gives: the text after the edits by which the source
/// that it holds becomes the other.
pub open spec fn patched(
    text: Seq<char>,
    source: SourceView,
    result: Result<String, PatchError>,
) -> bool {
    match result {
        Ok(patched) => {
            let edits = source_edits(tree_read(text)->Ok_0, source_in(text)->0, source);
            let after = Some(patched_tree(tree_read(text)->Ok_0, source_in(text)->0, source));
            &&& source_in(text) is Some
            &&& tree_read(text) is Ok
            &&& patched@ == edited_text(text, edits)
            &&& edits.len() == 0 ==> patched@ == text
            &&& writes_its_tree(text, edits, after) ==> reads_tree(patched@, after)
            &&& remark_texts(remarks_in(text)) == comments_among(tokens_in(text))
            &&& stand(patched@, remarks_in(text), staying(edits))
        },
        Err(PatchError::Source(error)) => source_in(text) is None && source_read(
            jsonc_value(text),
            fits_source(text),
            None,
            Err(error),
        ),
        Err(PatchError::Document(message)) => source_in(text) is Some && tree_read(text) == Err::<
            Option<Node>,
            Seq<char>,
        >(message@),
    }
}

/// A path of one name.
fn path_to(name: &str) -> (path: Vec<String>)
    ensures
        texts(path@) == seq![name@],
{
    let mut path: Vec<String> = Vec::new();
    path.push(name.to_owned());
    assert(texts(path@) =~= seq![name@]);
    path
}

/// Edits one profile, in the object that a path reaches.
fn patch_profile(
    root: &mut jsonc_parser::cst::CstRootNode,
    path: &Vec<String>,
    name: &str,
    before: Option<&ProfileDelta>,
    after: Option<&ProfileDelta>,
)
    requires
        document_members(*old(root), path@) is Some,
    ensures
        document(*final(root)) == Some(
            with_members_at(
                document(*old(root))->0,
                texts(path@),
                patched_profile(
                    document_members(*old(root), path@)->0,
                    name@,
                    match before {
                        Some(delta) => Some(delta@),
                        None => None,
                    },
                    match after {
                        Some(delta) => Some(delta@),
                        None => None,
                    },
                ),
            ),
        ),
        edited(
            *old(root),
            *final(root),
            profile_edits(
                texts(path@),
                document_members(*old(root), path@)->0,
                name@,
                match before {
                    Some(delta) => Some(delta@),
                    None => None,
                },
                match after {
                    Some(delta) => Some(delta@),
                    None => None,
                },
            ),
        ),
{
    let ghost tree = document(*root)->0;
    let ghost way = texts(path@);
    let ghost start = document_members(*root, path@)->0;
    let ghost first = *root;
    proof {
        lemma_with_members_at(tree, way, start, start);
        lemma_not_edited(first);
    }
    match (before, after) {
        (Some(_), None) => {
            if has_member(root, path, name) {
                remove_member(root, path, name);
            }
        },
        (None, Some(delta)) => {
            append_member(root, path, name, delta_input(delta));
        },
        (Some(before), Some(after)) => {
            make_object(root, path, name);
            let ghost second = *root;
            let ghost made = with_object(start, name@);
            let ghost middle = with_members_at(tree, way, made);
            let ghost inner = made[find(made, name@)].value->Object_0;
            let ghost settings_done = patched_settings(
                inner,
                before@.settings,
                after@.settings,
            );
            let ghost done = patched_uninherit(settings_done, before@.uninherit, after@.uninherit);
            proof {
                lemma_made_object(start, name@);
                lemma_with_members_at(tree, way, made, made);
                lemma_path_further(middle, way, name@, settings_done);
                lemma_path_further(middle, way, name@, done);
            }
            let mut inner_path = path.clone();
            inner_path.push(name.to_owned());
            proof {
                assert(texts(inner_path@) =~= way.push(name@)) by {
                    assert forall|i: int| 0 <= i < path@.len() implies inner_path@[i]@
                        == path@[i]@ by {}
                }
                assert(document_members(*root, inner_path@) == Some(inner));
                lemma_with_members_at(middle, way.push(name@), settings_done, done);
                lemma_with_members_at(
                    tree,
                    way,
                    made,
                    with_value(made, name@, Node::Object(done)),
                );
            }
            patch_settings(root, &inner_path, &before.settings, &after.settings);
            let ghost third = *root;
            assert(document_members(third, inner_path@) == Some(settings_done));
            patch_uninherit(root, &inner_path, &before.uninherit, &after.uninherit);
            proof {
                let below = way.push(name@);
                let changes = settings_edits(below, inner, before@.settings, after@.settings);
                let rest = uninherit_edits(
                    below,
                    settings_done,
                    before@.uninherit,
                    after@.uninherit,
                );
                lemma_edited(second, third, *root, changes, rest);
                lemma_edited(
                    first,
                    second,
                    *root,
                    object_edits(way, start, name@),
                    changes + rest,
                );
            }
        },
        (None, None) => {},
    }
}

/// What was made an object is one.
pub proof fn lemma_made_object(members: Seq<Member>, name: Seq<char>)
    ensures
        named(with_object(members, name), name),
        with_object(members, name)[find(with_object(members, name), name)].value is Object,
{
    let made = with_object(members, name);
    lemma_find(members, name);
    if !named(members, name) {
        assert forall|j: int| 0 <= j < members.len() implies (#[trigger] made[j]).name
            != name by {
            assert(members[j].name != name);
        }
        crate::node::lemma_found_at(made, name, members.len() as int);
    } else if !(members[find(members, name)].value is Object) {
        lemma_with_value(members, name, empty_object());
    }
}

/// Edits the profiles, in the object that a path reaches.
fn patch_profiles(
    root: &mut jsonc_parser::cst::CstRootNode,
    path: &Vec<String>,
    before: &Table<ProfileDelta>,
    after: &Table<ProfileDelta>,
)
    requires
        document_members(*old(root), path@) is Some,
    ensures
        document(*final(root)) == Some(
            with_members_at(
                document(*old(root))->0,
                texts(path@),
                patched_profiles(
                    document_members(*old(root), path@)->0,
                    before.deep_view(),
                    after.deep_view(),
                ),
            ),
        ),
        edited(
            *old(root),
            *final(root),
            profiles_edits(
                texts(path@),
                document_members(*old(root), path@)->0,
                before.deep_view(),
                after.deep_view(),
            ),
        ),
{
    let mut names = Names::new();
    names.insert_names_of(before);
    names.insert_names_of(after);
    let len = names.len();
    let ghost list = names.names();
    let ghost b = before.deep_view();
    let ghost a = after.deep_view();
    let ghost tree = document(*root)->0;
    let ghost way = texts(path@);
    let ghost start = members_at(tree, way)->0;
    let ghost first = *root;
    proof {
        assert(names@ =~= b.dom().union(a.dom()));
        assert(list == listed(b.dom().union(a.dom())));
        lemma_with_members_at(tree, way, start, start);
        lemma_not_edited(first);
        assert(list.take(0) =~= Seq::<Seq<char>>::empty());
    }
    let mut i: usize = 0;
    while i < len
        invariant
            i <= len,
            len == list.len(),
            list == names.names(),
            b == before.deep_view(),
            a == after.deep_view(),
            way == texts(path@),
            members_at(tree, way) == Some(start),
            document(*root) == Some(
                with_members_at(tree, way, patched_profiles_row(start, list.take(i as int), b, a)),
            ),
            edited(first, *root, profiles_row_edits(way, start, list.take(i as int), b, a)),
        decreases len - i,
    {
        let name = names.name(i);
        let ghost sofar = patched_profiles_row(start, list.take(i as int), b, a);
        let ghost more = patched_profile(sofar, name@, at(b, name@), at(a, name@));
        proof {
            lemma_with_members_at(tree, way, sofar, more);
            assert(list.take(i + 1).drop_last() =~= list.take(i as int));
            assert(list.take(i + 1).last() == name@);
            assert(document_members(*root, path@) == Some(sofar));
        }
        let ghost middle = *root;
        patch_profile(root, path, name, before.get(name), after.get(name));
        proof {
            lemma_edited(
                first,
                middle,
                *root,
                profiles_row_edits(way, start, list.take(i as int), b, a),
                profile_edits(way, sofar, name@, at(b, name@), at(a, name@)),
            );
        }
        i += 1;
    }
    assert(list.take(len as int) =~= list);
}

/// Writes a source into the text of another: what differs between them is edited in
/// the base and the profiles. A comment that stands neither in a member that is changed nor
/// beside one that is taken away stays, and a text in which nothing is edited stays as it is.
pub fn patch_source(text: &str, source: &Source) -> (result: Result<String, PatchError>)
    ensures
        patched(text@, source@, result),
        result is Ok <==> source_in(text@) is Some && tree_read(text@) is Ok,
        goes_by_tree(tree_read(text@), jsonc_value(text@)),
{
    let previous = match parse_source(text) {
        Ok(previous) => previous,
        Err(error) => {
            return Err(PatchError::Source(error));
        },
    };
    let mut root = match parse_document(text) {
        Ok(root) => root,
        Err(message) => {
            return Err(PatchError::Document(message));
        },
    };
    let ghost tree = document(root);
    let ghost read = root;
    make_root_object(&mut root);
    let ghost opened = root;
    let top: Vec<String> = Vec::new();
    let ghost start = root_members(tree);
    let ghost way = texts(top@);
    proof {
        assert(way =~= Seq::<Seq<char>>::empty());
        assert(document(root) == Some(Node::Object(start)));
    }
    make_object(&mut root, &top, "base");
    let ghost with_base = root;
    let ghost base_made = with_object(start, "base"@);
    let ghost base_inner = patched_settings(
        base_made[find(base_made, "base"@)].value->Object_0,
        previous@.base,
        source@.base,
    );
    let base_path = path_to("base");
    proof {
        lemma_made_object(start, "base"@);
        lemma_path_further(Node::Object(base_made), way, "base"@, base_inner);
        assert(texts(base_path@) =~= way.push("base"@));
    }
    patch_settings(&mut root, &base_path, &previous.base, &source.base);
    let ghost base_done = base_patched(tree, previous@, source@);
    let ghost done_base = root;
    assert(document(root) == Some(Node::Object(base_done)));
    make_object(&mut root, &top, "profiles");
    let ghost with_profiles = root;
    let ghost profiles_made = with_object(base_done, "profiles"@);
    let ghost profiles_inner = patched_profiles(
        profiles_made[find(profiles_made, "profiles"@)].value->Object_0,
        previous@.profiles,
        source@.profiles,
    );
    let profiles_path = path_to("profiles");
    proof {
        lemma_made_object(base_done, "profiles"@);
        lemma_path_further(Node::Object(profiles_made), way, "profiles"@, profiles_inner);
        assert(texts(profiles_path@) =~= way.push("profiles"@));
    }
    patch_profiles(&mut root, &profiles_path, &previous.profiles, &source.profiles);
    proof {
        let base_row = base_edits(tree, previous@, source@);
        let opening = root_edits(tree);
        let making = object_edits(Seq::empty(), base_done, "profiles"@);
        let profiles_row = profiles_edits(
            seq!["profiles"@],
            profiles_made[find(profiles_made, "profiles"@)].value->Object_0,
            previous@.profiles,
            source@.profiles,
        );
        lemma_edited(
            opened,
            with_base,
            done_base,
            object_edits(Seq::empty(), start, "base"@),
            settings_edits(
                seq!["base"@],
                base_made[find(base_made, "base"@)].value->Object_0,
                previous@.base,
                source@.base,
            ),
        );
        lemma_edited(read, opened, done_base, opening, base_row);
        lemma_edited(read, done_base, with_profiles, opening + base_row, making);
        lemma_edited(
            read,
            with_profiles,
            root,
            opening + base_row + making,
            profiles_row,
        );
        assert(document_edits(root) =~= source_edits(tree, previous@, source@));
        assert(document(root) == Some(patched_tree(tree, previous@, source@)));
    }
    let written = print_document(&root);
    proof {
        lemma_comments_stay(
            written@,
            source_edits(tree, previous@, source@),
            document_remarks(read),
            document_remarks(root),
        );
    }
    Ok(written)
}

/// Whether the names of a text are quoted or no comma is left out in it: what is written into
/// such a text by edits is read from it again.
pub fn keeps_names_apart(text: &str) -> (apart: bool)
    ensures
        apart == names_apart(text@),
{
    reads_with(text, false, true) || reads_with(text, true, false)
}

} // verus!
