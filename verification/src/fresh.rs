//! What a source that was written anew is read as.

use vstd::prelude::*;
use crate::codec::{canonical, lemma_canonical_exported, storable, storable_settings};
use crate::draft::{
    delta_draft, drafted, lays_out, names_json, profile_parts, setting_parts, source_draft,
    tells_drafts, well_drafted, written_anew, Draft,
};
use crate::json::{Json, Num, SettingsMap};
use crate::migrate::{default_settings, MigrationPreview};
use crate::node::{tree_within, Node};
use crate::outside::{denoted, jsonc_value, nesting_limit, tree_read};
use crate::parse::{
    decoded, decoded_delta, decoded_profiles, delta_fits, field_names, fits_source,
    is_text_list_node, names_distinct, profiles_fit, source_fits, source_in, uninherit_name,
};
use crate::patch::{delta_node, names_node, setting_members, value_node};
use crate::readback::{
    functional, lemma_delta_node_fits, lemma_delta_node_reads, lemma_listed_members,
    lemma_reads_once, lemma_value_node_reads, node_names, reads_as, reads_members, sayable,
    writable, writable_source,
};
use crate::reconcile::ProfilesMap;
use crate::service::{base_by_prefix, migrated_by_prefix};
use crate::source::{sound_source, DeltaView, Source};
use crate::storable::{law_migration_is_storable, storable_profiles, storable_source};
use crate::table::{lemma_finite_listed, listed};
use crate::tokens::{
    closed_at, delta_at_fits, entries, item_marks, items, marks_fit, member_marks, next_value,
    node_marks, profiles_at_fit, text_list_at, value_end, without_comments, Entry, Mark,
};
use crate::written::{lemma_settings_canonical, lemma_storable_writable, names_no_uninherit};

verus! {

/// A row of tokens stands at a place.
spec fn stands(marks: Seq<Mark>, at: int, part: Seq<Mark>) -> bool {
    &&& 0 <= at <= at + part.len() <= marks.len()
    &&& forall|i: int| 0 <= i < part.len() ==> #[trigger] part[i] == marks[at + i]
}

/// What stands at a place stands there in pieces.
proof fn lemma_stands_in(marks: Seq<Mark>, at: int, a: Seq<Mark>, b: Seq<Mark>)
    requires
        stands(marks, at, a + b),
    ensures
        stands(marks, at, a),
        stands(marks, at + a.len(), b),
{
    let whole = a + b;
    assert forall|i: int| 0 <= i < a.len() implies #[trigger] a[i] == marks[at + i] by {
        assert(whole[i] == a[i]);
    }
    assert forall|i: int| 0 <= i < b.len() implies #[trigger] b[i] == marks[at + a.len() + i] by {
        assert(whole[a.len() + i] == b[i]);
    }
}

/// The comma behind a member or an item that is not the last.
spec fn comma(more: bool) -> Seq<Mark> {
    if more {
        seq![Mark::Comma]
    } else {
        Seq::empty()
    }
}

/// Where the members of an object stand from a place on, the name of the first, its value, the
/// comma and the rest stand behind each other.
proof fn lemma_member_stands(marks: Seq<Mark>, at: int, node: Node, i: int)
    requires
        node is Object,
        0 <= i < node->Object_0.len(),
        stands(marks, at, member_marks(node, i)),
    ensures
        ({
            let value = node_marks(node->Object_0[i].value);
            let more = i + 1 < node->Object_0.len();
            &&& stands(marks, at, seq![Mark::Text(node->Object_0[i].name), Mark::Colon])
            &&& marks[at] == Mark::Text(node->Object_0[i].name)
            &&& marks[at + 1] == Mark::Colon
            &&& stands(marks, at + 2, value)
            &&& stands(marks, at + 2 + value.len(), comma(more))
            &&& stands(
                marks,
                at + 2 + value.len() + comma(more).len(),
                member_marks(node, i + 1),
            )
            &&& member_marks(node, i).len() == 2 + value.len() + comma(more).len() + member_marks(
                node,
                i + 1,
            ).len()
        }),
{
    let head = seq![Mark::Text(node->Object_0[i].name), Mark::Colon];
    let value = node_marks(node->Object_0[i].value);
    let between = comma(i + 1 < node->Object_0.len());
    let rest = member_marks(node, i + 1);
    assert(member_marks(node, i) =~= head + value + between + rest);
    lemma_stands_in(marks, at, head + value + between, rest);
    lemma_stands_in(marks, at, head + value, between);
    lemma_stands_in(marks, at, head, value);
    assert(head[0] == marks[at]);
    assert(head[1] == marks[at + 1]);
}

/// Where the items of a list stand from a place on, the first, the comma and the rest stand
/// behind each other.
proof fn lemma_item_stands(marks: Seq<Mark>, at: int, node: Node, i: int)
    requires
        node is List,
        0 <= i < node->List_0.len(),
        stands(marks, at, item_marks(node, i)),
    ensures
        ({
            let value = node_marks(node->List_0[i]);
            let more = i + 1 < node->List_0.len();
            &&& stands(marks, at, value)
            &&& stands(marks, at + value.len(), comma(more))
            &&& stands(marks, at + value.len() + comma(more).len(), item_marks(node, i + 1))
            &&& item_marks(node, i).len() == value.len() + comma(more).len() + item_marks(
                node,
                i + 1,
            ).len()
        }),
{
    let value = node_marks(node->List_0[i]);
    let between = comma(i + 1 < node->List_0.len());
    let rest = item_marks(node, i + 1);
    assert(item_marks(node, i) =~= value + between + rest);
    lemma_stands_in(marks, at, value + between, rest);
    lemma_stands_in(marks, at, value, between);
}

/// A list or an object stands as what opens it, what is in it, and what closes it.
proof fn lemma_inner_stands(marks: Seq<Mark>, at: int, node: Node)
    requires
        node is List || node is Object,
        stands(marks, at, node_marks(node)),
    ensures
        node is Object ==> marks[at] == Mark::OpenBrace && stands(
            marks,
            at + 1,
            member_marks(node, 0),
        ) && marks[at + 1 + member_marks(node, 0).len()] == Mark::CloseBrace && node_marks(
            node,
        ).len() == member_marks(node, 0).len() + 2,
        node is List ==> marks[at] == Mark::OpenBracket && stands(
            marks,
            at + 1,
            item_marks(node, 0),
        ) && marks[at + 1 + item_marks(node, 0).len()] == Mark::CloseBracket && node_marks(
            node,
        ).len() == item_marks(node, 0).len() + 2,
{
    let opening = if node is Object {
        seq![Mark::OpenBrace]
    } else {
        seq![Mark::OpenBracket]
    };
    let closing = if node is Object {
        seq![Mark::CloseBrace]
    } else {
        seq![Mark::CloseBracket]
    };
    let inner = if node is Object {
        member_marks(node, 0)
    } else {
        item_marks(node, 0)
    };
    assert(node_marks(node) =~= opening + inner + closing);
    lemma_stands_in(marks, at, opening + inner, closing);
    lemma_stands_in(marks, at, opening, inner);
    assert(opening[0] == marks[at]);
    assert(closing[0] == marks[at + 1 + inner.len()]);
}

/// A tree has a token.
proof fn lemma_marks_some(node: Node)
    ensures
        node_marks(node).len() > 0,
{
}

/// What stands whole does not change what is open behind it.
proof fn lemma_passes(marks: Seq<Mark>, at: int, node: Node, depth: nat)
    requires
        depth >= 1,
        stands(marks, at, node_marks(node)),
    ensures
        closed_at(marks, at, depth) == closed_at(marks, at + node_marks(node).len(), depth),
    decreases node, 1int, 0int,
{
    let part = node_marks(node);
    lemma_marks_some(node);
    assert(part[0] == marks[at]);
    match node {
        Node::Object(_) => {
            lemma_inner_stands(marks, at, node);
            lemma_members_pass(marks, at + 1, node, 0, depth + 1);
        },
        Node::List(_) => {
            lemma_inner_stands(marks, at, node);
            lemma_items_pass(marks, at + 1, node, 0, depth + 1);
        },
        _ => {},
    }
}

proof fn lemma_members_pass(marks: Seq<Mark>, at: int, node: Node, i: int, depth: nat)
    requires
        depth >= 1,
        node is Object,
        0 <= i <= node->Object_0.len(),
        stands(marks, at, member_marks(node, i)),
    ensures
        closed_at(marks, at, depth) == closed_at(marks, at + member_marks(node, i).len(), depth),
    decreases node, 0int, node->Object_0.len() - i,
{
    if i < node->Object_0.len() {
        let value = node_marks(node->Object_0[i].value);
        let between = comma(i + 1 < node->Object_0.len());
        lemma_member_stands(marks, at, node, i);
        lemma_passes(marks, at + 2, node->Object_0[i].value, depth);
        assert(closed_at(marks, at, depth) == closed_at(marks, at + 1, depth));
        assert(closed_at(marks, at + 1, depth) == closed_at(marks, at + 2, depth));
        let after = at + 2 + value.len();
        if between.len() > 0 {
            assert(between[0] == marks[after]);
        }
        lemma_members_pass(marks, after + between.len(), node, i + 1, depth);
    }
}

proof fn lemma_items_pass(marks: Seq<Mark>, at: int, node: Node, i: int, depth: nat)
    requires
        depth >= 1,
        node is List,
        0 <= i <= node->List_0.len(),
        stands(marks, at, item_marks(node, i)),
    ensures
        closed_at(marks, at, depth) == closed_at(marks, at + item_marks(node, i).len(), depth),
    decreases node, 0int, node->List_0.len() - i,
{
    if i < node->List_0.len() {
        let value = node_marks(node->List_0[i]);
        let between = comma(i + 1 < node->List_0.len());
        lemma_item_stands(marks, at, node, i);
        lemma_passes(marks, at, node->List_0[i], depth);
        let after = at + value.len();
        if between.len() > 0 {
            assert(between[0] == marks[after]);
        }
        lemma_items_pass(marks, after + between.len(), node, i + 1, depth);
    }
}

/// A value ends where its tokens do.
proof fn lemma_value_end(marks: Seq<Mark>, at: int, node: Node)
    requires
        stands(marks, at, node_marks(node)),
    ensures
        value_end(marks, at) == at + node_marks(node).len(),
{
    let part = node_marks(node);
    lemma_marks_some(node);
    assert(part[0] == marks[at]);
    match node {
        Node::Object(_) => {
            lemma_inner_stands(marks, at, node);
            lemma_members_pass(marks, at + 1, node, 0, 1);
        },
        Node::List(_) => {
            lemma_inner_stands(marks, at, node);
            lemma_items_pass(marks, at + 1, node, 0, 1);
        },
        _ => {},
    }
}

/// The members that are found are those of the object, each where its tokens stand.
spec fn finds(marks: Seq<Mark>, found: Seq<Entry>, node: Node, i: int) -> bool {
    &&& found.len() == node->Object_0.len() - i
    &&& forall|k: int|
        0 <= k < found.len() ==> (#[trigger] found[k]).name == node->Object_0[i + k].name && stands(
            marks,
            found[k].at,
            node_marks(node->Object_0[i + k].value),
        )
}

proof fn lemma_entries(marks: Seq<Mark>, at: int, node: Node, i: int)
    requires
        node is Object,
        0 <= i <= node->Object_0.len(),
        stands(marks, at, member_marks(node, i)),
        at + member_marks(node, i).len() < marks.len(),
        marks[at + member_marks(node, i).len()] == Mark::CloseBrace,
    ensures
        finds(marks, entries(marks, at), node, i),
    decreases node->Object_0.len() - i,
{
    if i < node->Object_0.len() {
        let member = node->Object_0[i];
        let value = node_marks(member.value);
        let between = comma(i + 1 < node->Object_0.len());
        lemma_member_stands(marks, at, node, i);
        lemma_marks_some(member.value);
        lemma_value_end(marks, at + 2, member.value);
        let after = at + 2 + value.len();
        if between.len() > 0 {
            assert(between[0] == marks[after]);
        } else {
            assert(member_marks(node, i + 1).len() == 0);
        }
        let next = after + between.len();
        assert(next_value(marks, at + 2) == next);
        lemma_entries(marks, next, node, i + 1);
        let found = entries(marks, at);
        let rest = entries(marks, next);
        assert(found =~= seq![Entry { name: member.name, at: at + 2 }] + rest);
        assert forall|k: int| 0 <= k < found.len() implies (#[trigger] found[k]).name
            == node->Object_0[i + k].name && stands(
            marks,
            found[k].at,
            node_marks(node->Object_0[i + k].value),
        ) by {
            if k > 0 {
                assert(found[k] == rest[k - 1]);
            }
        }
    }
}

/// The items that are found are those of the list, each where its tokens stand.
spec fn finds_items(marks: Seq<Mark>, found: Seq<int>, node: Node, i: int) -> bool {
    &&& found.len() == node->List_0.len() - i
    &&& forall|k: int|
        0 <= k < found.len() ==> stands(
            marks,
            #[trigger] found[k],
            node_marks(node->List_0[i + k]),
        )
}

proof fn lemma_items(marks: Seq<Mark>, at: int, node: Node, i: int)
    requires
        node is List,
        0 <= i <= node->List_0.len(),
        stands(marks, at, item_marks(node, i)),
        at + item_marks(node, i).len() < marks.len(),
        marks[at + item_marks(node, i).len()] == Mark::CloseBracket,
    ensures
        finds_items(marks, items(marks, at), node, i),
    decreases node->List_0.len() - i,
{
    if i < node->List_0.len() {
        let item = node->List_0[i];
        let value = node_marks(item);
        let between = comma(i + 1 < node->List_0.len());
        lemma_item_stands(marks, at, node, i);
        lemma_marks_some(item);
        lemma_value_end(marks, at, item);
        assert(value[0] == marks[at]);
        let after = at + value.len();
        if between.len() > 0 {
            assert(between[0] == marks[after]);
        } else {
            assert(item_marks(node, i + 1).len() == 0);
        }
        let next = after + between.len();
        assert(next_value(marks, at) == next);
        lemma_items(marks, next, node, i + 1);
        let found = items(marks, at);
        let rest = items(marks, next);
        assert(found =~= seq![at] + rest);
        assert forall|k: int| 0 <= k < found.len() implies stands(
            marks,
            #[trigger] found[k],
            node_marks(node->List_0[i + k]),
        ) by {
            if k > 0 {
                assert(found[k] == rest[k - 1]);
            }
        }
    }
}

proof fn lemma_text_list_stands(marks: Seq<Mark>, at: int, node: Node)
    requires
        is_text_list_node(node),
        stands(marks, at, node_marks(node)),
    ensures
        text_list_at(marks, at),
{
    lemma_inner_stands(marks, at, node);
    lemma_items(marks, at + 1, node, 0);
    let found = items(marks, at + 1);
    assert forall|i: int| 0 <= i < found.len() implies marks[#[trigger] found[i]] is Text by {
        let item = node->List_0[i];
        assert(item is Text);
        assert(node_marks(item)[0] == marks[found[i]]);
    }
}

proof fn lemma_delta_stands(marks: Seq<Mark>, at: int, node: Node)
    requires
        delta_fits(node),
        stands(marks, at, node_marks(node)),
    ensures
        delta_at_fits(marks, at),
{
    lemma_inner_stands(marks, at, node);
    lemma_entries(marks, at + 1, node, 0);
    let found = entries(marks, at + 1);
    let members = node->Object_0;
    assert forall|i: int|
        0 <= i < found.len() && (#[trigger] found[i]).name == uninherit_name() implies text_list_at(
        marks,
        found[i].at,
    ) by {
        assert(members[i].name == uninherit_name());
        lemma_text_list_stands(marks, found[i].at, members[i].value);
    }
    assert forall|i: int, j: int|
        #![trigger found[i], found[j]]
        0 <= i < j < found.len() && found[i].name == uninherit_name() implies found[j].name
        != uninherit_name() by {
        assert(members[i].name == uninherit_name());
        assert(members[j].name != uninherit_name());
    }
}

proof fn lemma_profiles_stand(marks: Seq<Mark>, at: int, node: Node)
    requires
        profiles_fit(node),
        stands(marks, at, node_marks(node)),
    ensures
        profiles_at_fit(marks, at),
{
    lemma_marks_some(node);
    assert(node_marks(node)[0] == marks[at]);
    if node is Object {
        lemma_inner_stands(marks, at, node);
        lemma_entries(marks, at + 1, node, 0);
        let found = entries(marks, at + 1);
        assert forall|i: int| 0 <= i < found.len() implies delta_at_fits(
            marks,
            (#[trigger] found[i]).at,
        ) by {
            assert(delta_fits(node->Object_0[i].value));
            lemma_delta_stands(marks, found[i].at, node->Object_0[i].value);
        }
    }
}

/// The tokens of a tree fit a source where the tree does.
proof fn lemma_marks_fit(node: Node)
    requires
        node is Object,
        source_fits(node),
    ensures
        marks_fit(node_marks(node)),
{
    let marks = node_marks(node);
    assert(stands(marks, 0, marks));
    lemma_inner_stands(marks, 0, node);
    lemma_entries(marks, 1, node, 0);
    let found = entries(marks, 1);
    let members = node->Object_0;
    assert forall|i: int, j: int|
        #![trigger found[i], found[j]]
        0 <= i < j < found.len() implies found[i].name != found[j].name by {
        assert(members[i].name != members[j].name);
    }
    assert forall|i: int|
        0 <= i < found.len() && (#[trigger] found[i]).name == "profiles"@ implies profiles_at_fit(
        marks,
        found[i].at,
    ) by {
        assert(members[i].name == "profiles"@);
        lemma_profiles_stand(marks, found[i].at, members[i].value);
    }
}

/// The first token of a tree tells its kind.
proof fn lemma_first_mark(node: Node)
    ensures
        node_marks(node).len() > 0,
        node_marks(node)[0] is OpenBrace <==> node is Object,
        node_marks(node)[0] is OpenBracket <==> node is List,
        node_marks(node)[0] is Text <==> node is Text,
{
}

proof fn lemma_text_list_back(marks: Seq<Mark>, at: int, node: Node)
    requires
        stands(marks, at, node_marks(node)),
        text_list_at(marks, at),
    ensures
        is_text_list_node(node),
{
    lemma_first_mark(node);
    assert(node_marks(node)[0] == marks[at]);
    lemma_inner_stands(marks, at, node);
    lemma_items(marks, at + 1, node, 0);
    let found = items(marks, at + 1);
    assert forall|i: int| 0 <= i < node->List_0.len() implies #[trigger] node->List_0[i] is Text by {
        let item = node->List_0[i];
        assert(marks[found[i]] is Text);
        lemma_first_mark(item);
        assert(node_marks(item)[0] == marks[found[i]]);
    }
}

proof fn lemma_delta_back(marks: Seq<Mark>, at: int, node: Node)
    requires
        stands(marks, at, node_marks(node)),
        delta_at_fits(marks, at),
    ensures
        delta_fits(node),
{
    lemma_first_mark(node);
    assert(node_marks(node)[0] == marks[at]);
    lemma_inner_stands(marks, at, node);
    lemma_entries(marks, at + 1, node, 0);
    let found = entries(marks, at + 1);
    let members = node->Object_0;
    assert forall|i: int|
        #![trigger node->Object_0[i]]
        0 <= i < members.len() && node->Object_0[i].name == uninherit_name() implies is_text_list_node(
        node->Object_0[i].value,
    ) by {
        assert(found[i].name == uninherit_name());
        lemma_text_list_back(marks, found[i].at, members[i].value);
    }
    assert forall|i: int, j: int|
        #![trigger node->Object_0[i], node->Object_0[j]]
        0 <= i < j < members.len() && node->Object_0[i].name == uninherit_name() implies
        node->Object_0[j].name != uninherit_name() by {
        assert(found[i].name == uninherit_name());
        assert(found[j].name != uninherit_name());
    }
}

proof fn lemma_profiles_back(marks: Seq<Mark>, at: int, node: Node)
    requires
        stands(marks, at, node_marks(node)),
        profiles_at_fit(marks, at),
    ensures
        profiles_fit(node),
{
    lemma_first_mark(node);
    assert(node_marks(node)[0] == marks[at]);
    if node is Object {
        lemma_inner_stands(marks, at, node);
        lemma_entries(marks, at + 1, node, 0);
        let found = entries(marks, at + 1);
        assert forall|i: int| 0 <= i < node->Object_0.len() implies delta_fits(
            (#[trigger] node->Object_0[i]).value,
        ) by {
            assert(delta_at_fits(marks, found[i].at));
            lemma_delta_back(marks, found[i].at, node->Object_0[i].value);
        }
    }
}

/// Whether a text fits a source is the same by its tokens as by its tree.
pub proof fn law_tokens_fit_as_trees_do(node: Node)
    ensures
        marks_fit(node_marks(node)) <==> source_fits(node),
        without_comments(node_marks(node)) == node_marks(node),
{
    let marks = node_marks(node);
    lemma_node_no_comments(node);
    lemma_without_comments(marks);
    lemma_first_mark(node);
    assert(stands(marks, 0, marks));
    if node is Object {
        if source_fits(node) {
            lemma_marks_fit(node);
        }
        if marks_fit(marks) {
            lemma_inner_stands(marks, 0, node);
            lemma_entries(marks, 1, node, 0);
            let found = entries(marks, 1);
            let members = node->Object_0;
            assert forall|i: int, j: int|
                #![trigger members[i], members[j]]
                0 <= i < j < members.len() implies members[i].name != members[j].name by {
                assert(found[i].name != found[j].name);
            }
            assert forall|i: int|
                0 <= i < members.len() && (#[trigger] members[i]).name
                    == "profiles"@ implies profiles_fit(members[i].value) by {
                assert(found[i].name == "profiles"@);
                lemma_profiles_back(marks, found[i].at, members[i].value);
            }
        }
    }
    if node is List {
        lemma_inner_stands(marks, 0, node);
        lemma_items(marks, 1, node, 0);
        let found = items(marks, 1);
        if node->List_0.len() > 3 {
            assert(stands(marks, found[3], node_marks(node->List_0[3])));
            if source_fits(node) {
                lemma_profiles_stand(marks, found[3], node->List_0[3]);
            }
            if marks_fit(marks) {
                lemma_profiles_back(marks, found[3], node->List_0[3]);
            }
        }
    }
}

/// No token of a row is a comment.
spec fn no_comments(marks: Seq<Mark>) -> bool {
    forall|i: int| 0 <= i < marks.len() ==> !(#[trigger] marks[i] is Comment)
}

proof fn lemma_no_comments_joined(a: Seq<Mark>, b: Seq<Mark>)
    requires
        no_comments(a),
        no_comments(b),
    ensures
        no_comments(a + b),
{
    let whole = a + b;
    assert forall|i: int| 0 <= i < whole.len() implies !(#[trigger] whole[i] is Comment) by {
        if i < a.len() {
            assert(whole[i] == a[i]);
        } else {
            assert(whole[i] == b[i - a.len()]);
        }
    }
}

proof fn lemma_without_comments(marks: Seq<Mark>)
    requires
        no_comments(marks),
    ensures
        without_comments(marks) == marks,
    decreases marks.len(),
{
    if marks.len() > 0 {
        let rest = marks.drop_first();
        assert forall|i: int| 0 <= i < rest.len() implies !(#[trigger] rest[i] is Comment) by {
            assert(rest[i] == marks[i + 1]);
        }
        lemma_without_comments(rest);
        assert(!(marks[0] is Comment));
        assert(seq![marks.first()] + rest =~= marks);
    }
}

proof fn lemma_node_no_comments(node: Node)
    ensures
        no_comments(node_marks(node)),
    decreases node, 1int, 0int,
{
    match node {
        Node::Object(_) => {
            lemma_members_no_comments(node, 0);
            lemma_no_comments_joined(seq![Mark::OpenBrace], member_marks(node, 0));
            lemma_no_comments_joined(
                seq![Mark::OpenBrace] + member_marks(node, 0),
                seq![Mark::CloseBrace],
            );
        },
        Node::List(_) => {
            lemma_items_no_comments(node, 0);
            lemma_no_comments_joined(seq![Mark::OpenBracket], item_marks(node, 0));
            lemma_no_comments_joined(
                seq![Mark::OpenBracket] + item_marks(node, 0),
                seq![Mark::CloseBracket],
            );
        },
        _ => {},
    }
}

proof fn lemma_members_no_comments(node: Node, i: int)
    requires
        node is Object,
        0 <= i <= node->Object_0.len(),
    ensures
        no_comments(member_marks(node, i)),
    decreases node, 0int, node->Object_0.len() - i,
{
    if i < node->Object_0.len() {
        let head = seq![Mark::Text(node->Object_0[i].name), Mark::Colon];
        let value = node_marks(node->Object_0[i].value);
        let between = comma(i + 1 < node->Object_0.len());
        let rest = member_marks(node, i + 1);
        lemma_node_no_comments(node->Object_0[i].value);
        lemma_members_no_comments(node, i + 1);
        lemma_no_comments_joined(head, value);
        lemma_no_comments_joined(head + value, between);
        lemma_no_comments_joined(head + value + between, rest);
        assert(member_marks(node, i) =~= head + value + between + rest);
    }
}

proof fn lemma_items_no_comments(node: Node, i: int)
    requires
        node is List,
        0 <= i <= node->List_0.len(),
    ensures
        no_comments(item_marks(node, i)),
    decreases node, 0int, node->List_0.len() - i,
{
    if i < node->List_0.len() {
        let value = node_marks(node->List_0[i]);
        let between = comma(i + 1 < node->List_0.len());
        let rest = item_marks(node, i + 1);
        lemma_node_no_comments(node->List_0[i]);
        lemma_items_no_comments(node, i + 1);
        lemma_no_comments_joined(value, between);
        lemma_no_comments_joined(value + between, rest);
        assert(item_marks(node, i) =~= value + between + rest);
    }
}

/// What a profile changes is laid out as its tree.
proof fn lemma_delta_drafted(delta: DeltaView)
    requires
        storable_settings(delta.settings),
        writable(denoted(), delta),
    ensures
        drafted(delta_draft(delta)) == delta_node(delta),
        well_drafted(delta_draft(delta)),
{
    let parts = delta_draft(delta)->Block_0;
    let members = delta_node(delta)->Object_0;
    let made = drafted(delta_draft(delta))->Object_0;
    let names = listed(delta.settings.dom());
    lemma_finite_listed(delta.settings.dom());
    lemma_finite_listed(delta.uninherit);
    let settings = setting_members(delta.settings);
    let row = setting_parts(delta.settings);
    let head = parts.len() - row.len();
    let list = names_json(delta.uninherit);
    let texts = list->List_0;
    assert forall|i: int| 0 <= i < texts.len() implies canonical(#[trigger] texts[i]) && sayable(
        denoted(),
        texts[i],
    ) by {
        assert(texts[i] == Json::Text(listed(delta.uninherit)[i]));
    }
    let nodes = value_node(list)->List_0;
    assert forall|i: int| 0 <= i < nodes.len() implies #[trigger] nodes[i] == names_node(
        delta.uninherit,
    )->List_0[i] by {
        assert(texts[i] == Json::Text(listed(delta.uninherit)[i]));
        assert(nodes[i] == value_node(texts[i]));
    }
    assert(value_node(list)->List_0 =~= names_node(delta.uninherit)->List_0);
    assert forall|i: int| 0 <= i < row.len() implies (#[trigger] row[i]).body == Draft::Value(
        delta.settings[names[i]],
    ) && canonical(delta.settings[names[i]]) && sayable(denoted(), delta.settings[names[i]])
        && settings[i].value == value_node(delta.settings[names[i]]) && settings[i].name
        == names[i] by {
        assert(names.contains(names[i]));
        assert(delta.settings.contains_key(names[i]));
        assert(storable(delta.settings[names[i]]));
        lemma_canonical_exported(delta.settings[names[i]]);
    }
    assert forall|i: int| 0 <= i < parts.len() implies #[trigger] made[i] == members[i]
        && well_drafted(parts[i].body) by {
        assert(made[i].name == parts[i].name && made[i].value == drafted(parts[i].body));
        if i >= head {
            assert(parts[i] == row[i - head]);
            assert(members[i] == settings[i - head]);
            assert(made[i].value == value_node(delta.settings[names[i - head]]));
        } else {
            assert(parts[i].body == Draft::Value(list));
            assert(made[i].value == value_node(list));
        }
    }
    assert(made =~= members);
    assert forall|i: int| 0 <= i < parts.len() implies well_drafted((#[trigger] parts[i]).body) by {
        assert(made[i] == members[i]);
    }
}

/// What the profile of a name reads as.
spec fn delta_json(delta: DeltaView) -> Json {
    Json::Object(
        choose|read: SettingsMap| #[trigger]
            reads_members(denoted(), delta_node(delta)->Object_0, read) && decoded_delta(
                Json::Object(read),
            ) == Some(delta),
    )
}

/// The profiles of a source are laid out as a tree that reads as them and fits.
proof fn lemma_profiles_drafted(source: Source) -> (read: SettingsMap)
    requires
        storable_source(source@),
        writable_source(denoted(), source@),
    ensures
        ({
            let draft = Draft::Block(profile_parts(source@.profiles));
            &&& well_drafted(draft)
            &&& profiles_fit(drafted(draft))
            &&& reads_as(denoted(), drafted(draft), Json::Object(read))
            &&& decoded_profiles(Some(Json::Object(read))) == Some(source@.profiles)
        }),
{
    let profiles = source@.profiles;
    let parts = profile_parts(profiles);
    let draft = Draft::Block(parts);
    let members = drafted(draft)->Object_0;
    let names = listed(profiles.dom());
    lemma_finite_listed(profiles.dom());
    let read = Map::new(
        |name: Seq<char>| profiles.contains_key(name),
        |name: Seq<char>| delta_json(profiles[name]),
    );
    lemma_listed_members(members, names, profiles.dom());
    assert(read.dom() =~= node_names(members));
    assert forall|name: Seq<char>| #[trigger] profiles.contains_key(name) implies decoded_delta(
        read[name],
    ) == Some(profiles[name]) && reads_as(denoted(), delta_node(profiles[name]), read[name])
        && delta_fits(delta_node(profiles[name])) && drafted(delta_draft(profiles[name]))
        == delta_node(profiles[name]) && well_drafted(delta_draft(profiles[name])) by {
        let delta = profiles[name];
        assert(writable(denoted(), delta));
        let found = lemma_delta_node_reads(denoted(), delta);
        assert(reads_members(denoted(), delta_node(delta)->Object_0, found));
        lemma_delta_node_fits(denoted(), delta);
        lemma_delta_drafted(delta);
    }
    assert forall|i: int| 0 <= i < members.len() implies profiles.contains_key(names[i])
        && (#[trigger] members[i]).name == names[i] && members[i].value == delta_node(
        profiles[names[i]],
    ) && parts[i].body == delta_draft(profiles[names[i]]) by {
        assert(names.contains(names[i]));
        assert(profiles.dom().contains(names[i]));
    }
    assert forall|i: int| 0 <= i < parts.len() implies well_drafted((#[trigger] parts[i]).body) by {
        assert(members[i].name == names[i]);
    }
    let whole = decoded_profiles(Some(Json::Object(read)));
    assert(whole is Some);
    assert(whole->0 =~= profiles) by {
        assert forall|name: Seq<char>|
            #![trigger profiles.dom().contains(name)]
            profiles.dom().contains(name) implies whole->0[name] == profiles[name] by {
            assert(profiles.contains_key(name));
        }
    }
    read
}

/// A source is laid out as a tree that reads as it and fits.
proof fn lemma_source_drafted(source: Source) -> (read: Json)
    requires
        storable_source(source@),
        writable_source(denoted(), source@),
        canonical(Json::Number(Num::PosInt(source.version as u64))),
    ensures
        well_drafted(source_draft(source@)),
        drafted(source_draft(source@)) is Object,
        source_fits(drafted(source_draft(source@))),
        reads_as(denoted(), drafted(source_draft(source@)), read),
        decoded(read) == Some(source@),
{
    reveal_strlit("$schema");
    reveal_strlit("version");
    reveal_strlit("base");
    reveal_strlit("profiles");
    let view = source@;
    let draft = source_draft(view);
    let parts = draft->Block_0;
    let members = drafted(draft)->Object_0;
    let head: int = if view.schema is Some { 1 } else { 0 };
    let version = Json::Number(Num::PosInt(view.version as u64));
    lemma_settings_canonical(view.base);
    lemma_canonical_exported(Json::Object(view.base));
    lemma_value_node_reads(denoted(), Json::Object(view.base));
    let profiles = lemma_profiles_drafted(source);
    assert(sayable(denoted(), version));
    let fields = map![
        "version"@ => version,
        "base"@ => Json::Object(view.base),
        "profiles"@ => Json::Object(profiles),
    ];
    let map = match view.schema {
        Some(schema) => fields.insert("$schema"@, Json::Text(schema)),
        None => fields,
    };
    assert("version"@.len() == 7 && "base"@.len() == 4 && "profiles"@.len() == 8);
    assert("$schema"@.len() == 7 && "$schema"@[0] != "version"@[0]);
    assert(parts[head].name == "version"@);
    assert(parts[head + 1].name == "base"@);
    assert(parts[head + 2].name == "profiles"@);
    assert(head == 1 ==> parts[0].name == "$schema"@);
    assert(parts.len() == head + 3);
    assert forall|i: int| 0 <= i < members.len() implies (#[trigger] members[i]).name
        == parts[i].name && well_drafted(parts[i].body) && reads_as(
        denoted(),
        members[i].value,
        map[members[i].name],
    ) by {
        assert(members[i].value == drafted(parts[i].body));
        if i == head {
            assert(parts[i].body == Draft::Value(version));
            assert(members[i].value == value_node(version));
            lemma_value_node_reads(denoted(), version);
        } else if i == head + 1 {
            assert(parts[i].body == Draft::Value(Json::Object(view.base)));
            assert(members[i].value == value_node(Json::Object(view.base)));
        } else if i == head + 2 {
            assert(parts[i].body == Draft::Block(profile_parts(view.profiles)));
            assert(map["profiles"@] == Json::Object(profiles));
        } else {
            assert(parts[i].body == Draft::Value(Json::Text(view.schema->0)));
        }
    }
    assert forall|i: int| 0 <= i < parts.len() implies well_drafted((#[trigger] parts[i]).body) by {
        assert(members[i].name == parts[i].name);
    }
    assert(map.dom() =~= node_names(members)) by {
        assert forall|name: Seq<char>|
            #![trigger node_names(members).contains(name)]
            node_names(members).contains(name) == map.dom().contains(name) by {
            assert(members[head].name == "version"@);
            assert(members[head + 1].name == "base"@);
            assert(members[head + 2].name == "profiles"@);
            if head == 1 {
                assert(members[0].name == "$schema"@);
            }
        }
    }
    let read = Json::Object(map);
    assert(map.dom().subset_of(field_names()));
    assert(source_fits(drafted(draft))) by {
        assert(names_distinct(members)) by {
            assert forall|i: int, j: int|
                #![trigger members[i], members[j]]
                0 <= i < j < members.len() implies members[i].name != members[j].name by {
                assert(members[i].name == parts[i].name);
                assert(members[j].name == parts[j].name);
            }
        }
        assert forall|i: int|
            0 <= i < members.len() && (#[trigger] members[i]).name
                == "profiles"@ implies profiles_fit(members[i].value) by {
            assert(i == head + 2);
        }
    }
    read
}

/// The text that a source is written as anew holds the source. What the text is read as is what
/// every reading of it tells. Left out are sources that no reading takes: those that may not
/// stand, whose numbers are none that JSON holds, or whose lists and objects stand too deep in
/// each other, and profiles with a setting of the name `uninherit`.
pub proof fn law_fresh_text_reads_back(source: Source, text: Seq<char>)
    requires
        written_anew(source@, text),
        tells_drafts(text),
        sound_source(source@),
        storable_source(source@),
        names_no_uninherit(source@),
        tree_within(drafted(source_draft(source@)), nesting_limit()),
    ensures
        source_in(text) == Some(source@),
{
    let draft = source_draft(source@);
    let node = drafted(draft);
    lemma_storable_writable(source);
    let read = lemma_source_drafted(source);
    assert(lays_out(text, draft));
    assert(functional(denoted()));
    lemma_reads_once(denoted(), node, read, jsonc_value(text)->Ok_0);
    assert(fits_source(text)) by {
        match tree_read(text) {
            Ok(Some(_)) => {},
            _ => {
                lemma_node_no_comments(node);
                lemma_without_comments(node_marks(node));
                lemma_marks_fit(node);
            },
        }
    }
}

/// The text that is stored by a build holds the source that its preview showed. The settings of
/// the profiles are ones that were read. Left out are the sources that no reading takes.
pub proof fn law_built_text_reads_back(
    actual: ProfilesMap,
    prefixes: Set<Seq<char>>,
    preview: MigrationPreview,
    text: Seq<char>,
)
    requires
        migrated_by_prefix(actual, prefixes, preview),
        storable_profiles(actual),
        written_anew(preview.source@, text),
        tells_drafts(text),
        sound_source(preview.source@),
        names_no_uninherit(preview.source@),
        tree_within(drafted(source_draft(preview.source@)), nesting_limit()),
    ensures
        source_in(text) == Some(preview.source@),
{
    let base = base_by_prefix(actual, prefixes);
    assert(base =~= default_settings(actual).restrict(base.dom()));
    law_migration_is_storable(actual, base);
    law_fresh_text_reads_back(preview.source, text);
}

} // verus!
