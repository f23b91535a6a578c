//! What the edits by which a source is written do: which tree they make, and what they
//! leave alone.

use vstd::prelude::*;
use crate::json::{at, same_option, same_settings, SettingsMap};
use crate::node::{
    after_edits, edit_path, edited_members, find, lemma_path_further, lemma_with_members_at,
    members_at, named, with_members_at, with_object, with_value, Edit, Member, Node,
};
use crate::outside::{object_edits, remarks_in, root_edits, tokens_in, tree_read};
use crate::parse::{source_in, uninherit_name};
use crate::patch::{
    base_edits, base_patched, delta_edits, lemma_made_object, patched, patched_delta,
    patched_profile, patched_profiles, patched_profiles_row, patched_row, patched_setting,
    patched_settings, patched_tree, profile_edits, profiles_edits, profiles_row_edits,
    root_members, row_edits, setting_edits, settings_edits, source_edits, uninherit_edits,
};
use crate::remarks::{remark_texts, stand, stand_at, staying, stays};
use crate::source::{DeltaView, SourceView};
use crate::table::listed;
use crate::tokens::comments_among;

verus! {

/// Two rows of edits after each other make what one row of both makes.
proof fn lemma_after_both(tree: Option<Node>, first: Seq<Edit>, second: Seq<Edit>)
    ensures
        after_edits(tree, first + second) == after_edits(after_edits(tree, first), second),
    decreases second.len(),
{
    if second.len() == 0 {
        assert(first + second =~= first);
    } else {
        assert((first + second).drop_last() =~= first + second.drop_last());
        assert((first + second).last() == second.last());
        lemma_after_both(tree, first, second.drop_last());
    }
}

/// One edit makes what it makes of the members of its object.
proof fn lemma_after_one(node: Node, edit: Edit)
    requires
        !(edit is MakeRoot),
        members_at(node, edit_path(edit)) is Some,
    ensures
        after_edits(Some(node), seq![edit]) == Some(
            with_members_at(
                node,
                edit_path(edit),
                edited_members(members_at(node, edit_path(edit))->0, edit),
            ),
        ),
{
    reveal_with_fuel(after_edits, 2);
    assert(seq![edit].drop_last() =~= Seq::<Edit>::empty());
    assert(seq![edit].last() == edit);
}

proof fn lemma_setting_edits(
    node: Node,
    path: Seq<Seq<char>>,
    setting: Seq<char>,
    before: SettingsMap,
    after: SettingsMap,
)
    requires
        members_at(node, path) is Some,
    ensures
        after_edits(
            Some(node),
            setting_edits(
                path,
                members_at(node, path)->0,
                setting,
                at(before, setting),
                at(after, setting),
            ),
        ) == Some(
            with_members_at(
                node,
                path,
                patched_setting(
                    members_at(node, path)->0,
                    setting,
                    at(before, setting),
                    at(after, setting),
                ),
            ),
        ),
{
    let members = members_at(node, path)->0;
    let edits = setting_edits(path, members, setting, at(before, setting), at(after, setting));
    lemma_with_members_at(node, path, members, members);
    if edits.len() > 0 {
        assert(edits =~= seq![edits[0]]);
        lemma_after_one(node, edits[0]);
    }
}

proof fn lemma_row_edits(
    node: Node,
    path: Seq<Seq<char>>,
    settings: Seq<Seq<char>>,
    before: SettingsMap,
    after: SettingsMap,
)
    requires
        members_at(node, path) is Some,
    ensures
        after_edits(
            Some(node),
            row_edits(path, members_at(node, path)->0, settings, before, after),
        ) == Some(
            with_members_at(
                node,
                path,
                patched_row(members_at(node, path)->0, settings, before, after),
            ),
        ),
    decreases settings.len(),
{
    let members = members_at(node, path)->0;
    if settings.len() == 0 {
        lemma_with_members_at(node, path, members, members);
    } else {
        let rest = settings.drop_last();
        let done = patched_row(members, rest, before, after);
        let middle = with_members_at(node, path, done);
        lemma_row_edits(node, path, rest, before, after);
        lemma_after_both(
            Some(node),
            row_edits(path, members, rest, before, after),
            setting_edits(
                path,
                done,
                settings.last(),
                at(before, settings.last()),
                at(after, settings.last()),
            ),
        );
        lemma_with_members_at(
            node,
            path,
            done,
            patched_row(members, settings, before, after),
        );
        lemma_setting_edits(middle, path, settings.last(), before, after);
    }
}

proof fn lemma_delta_edits(
    node: Node,
    path: Seq<Seq<char>>,
    before: DeltaView,
    after: DeltaView,
)
    requires
        members_at(node, path) is Some,
    ensures
        after_edits(
            Some(node),
            delta_edits(path, members_at(node, path)->0, before, after),
        ) == Some(
            with_members_at(
                node,
                path,
                patched_delta(members_at(node, path)->0, before, after),
            ),
        ),
{
    let members = members_at(node, path)->0;
    let done = patched_settings(members, before.settings, after.settings);
    let middle = with_members_at(node, path, done);
    let edits = uninherit_edits(path, done, before.uninherit, after.uninherit);
    lemma_row_edits(
        node,
        path,
        listed(before.settings.dom().union(after.settings.dom())),
        before.settings,
        after.settings,
    );
    lemma_after_both(
        Some(node),
        settings_edits(path, members, before.settings, after.settings),
        edits,
    );
    lemma_with_members_at(node, path, done, patched_delta(members, before, after));
    lemma_with_members_at(middle, path, done, done);
    if edits.len() > 0 {
        assert(edits =~= seq![edits[0]]);
        lemma_after_one(middle, edits[0]);
    }
}

/// Making an object leaves it where the path that goes one name further leads.
proof fn lemma_object_edits(node: Node, path: Seq<Seq<char>>, name: Seq<char>)
    requires
        members_at(node, path) is Some,
    ensures
        ({
            let made = with_object(members_at(node, path)->0, name);
            let middle = with_members_at(node, path, made);
            &&& after_edits(
                Some(node),
                object_edits(path, members_at(node, path)->0, name),
            ) == Some(middle)
            &&& members_at(middle, path) == Some(made)
            &&& members_at(middle, path.push(name)) == Some(
                made[find(made, name)].value->Object_0,
            )
        }),
{
    let members = members_at(node, path)->0;
    let made = with_object(members, name);
    let middle = with_members_at(node, path, made);
    let edits = object_edits(path, members, name);
    lemma_with_members_at(node, path, made, made);
    if edits.len() > 0 {
        assert(edits =~= seq![edits[0]]);
        lemma_after_one(node, edits[0]);
    }
    lemma_made_object(members, name);
    lemma_path_further(middle, path, name, Seq::empty());
}

proof fn lemma_profile_edits(
    node: Node,
    path: Seq<Seq<char>>,
    name: Seq<char>,
    before: Option<DeltaView>,
    after: Option<DeltaView>,
)
    requires
        members_at(node, path) is Some,
    ensures
        after_edits(
            Some(node),
            profile_edits(path, members_at(node, path)->0, name, before, after),
        ) == Some(
            with_members_at(
                node,
                path,
                patched_profile(members_at(node, path)->0, name, before, after),
            ),
        ),
{
    let members = members_at(node, path)->0;
    let edits = profile_edits(path, members, name, before, after);
    lemma_with_members_at(node, path, members, members);
    match (before, after) {
        (Some(before), Some(after)) => {
            let made = with_object(members, name);
            let middle = with_members_at(node, path, made);
            let inner = made[find(made, name)].value->Object_0;
            let done = patched_delta(inner, before, after);
            lemma_object_edits(node, path, name);
            lemma_delta_edits(middle, path.push(name), before, after);
            lemma_after_both(
                Some(node),
                object_edits(path, members, name),
                delta_edits(path.push(name), inner, before, after),
            );
            lemma_made_object(members, name);
            lemma_path_further(middle, path, name, done);
            lemma_with_members_at(node, path, made, with_value(made, name, Node::Object(done)));
        },
        _ => {
            if edits.len() > 0 {
                assert(edits =~= seq![edits[0]]);
                lemma_after_one(node, edits[0]);
            }
        },
    }
}

proof fn lemma_profiles_row_edits(
    node: Node,
    path: Seq<Seq<char>>,
    names: Seq<Seq<char>>,
    before: Map<Seq<char>, DeltaView>,
    after: Map<Seq<char>, DeltaView>,
)
    requires
        members_at(node, path) is Some,
    ensures
        after_edits(
            Some(node),
            profiles_row_edits(path, members_at(node, path)->0, names, before, after),
        ) == Some(
            with_members_at(
                node,
                path,
                patched_profiles_row(members_at(node, path)->0, names, before, after),
            ),
        ),
    decreases names.len(),
{
    let members = members_at(node, path)->0;
    if names.len() == 0 {
        lemma_with_members_at(node, path, members, members);
    } else {
        let rest = names.drop_last();
        let done = patched_profiles_row(members, rest, before, after);
        let middle = with_members_at(node, path, done);
        lemma_profiles_row_edits(node, path, rest, before, after);
        lemma_after_both(
            Some(node),
            profiles_row_edits(path, members, rest, before, after),
            profile_edits(
                path,
                done,
                names.last(),
                at(before, names.last()),
                at(after, names.last()),
            ),
        );
        lemma_with_members_at(
            node,
            path,
            done,
            patched_profiles_row(members, names, before, after),
        );
        lemma_profile_edits(
            middle,
            path,
            names.last(),
            at(before, names.last()),
            at(after, names.last()),
        );
    }
}

/// The edits by which a source is written make the tree of the document the one that the
/// source is read from.
pub proof fn law_edits_make_the_tree(
    tree: Option<Node>,
    before: SourceView,
    after: SourceView,
)
    ensures
        after_edits(tree, source_edits(tree, before, after)) == Some(
            patched_tree(tree, before, after),
        ),
{
    let top: Seq<Seq<char>> = Seq::empty();
    let start = root_members(tree);
    let root = Node::Object(start);
    let opening = root_edits(tree);
    assert(after_edits(tree, opening) == Some(root)) by {
        reveal_with_fuel(after_edits, 2);
        if opening.len() > 0 {
            assert(opening.drop_last() =~= Seq::<Edit>::empty());
        }
    }
    let base_made = with_object(start, "base"@);
    let base_node = with_members_at(root, top, base_made);
    let base_inner = base_made[find(base_made, "base"@)].value->Object_0;
    let base_new = patched_settings(base_inner, before.base, after.base);
    let base_path = seq!["base"@];
    assert(top.push("base"@) =~= base_path);
    lemma_object_edits(root, top, "base"@);
    lemma_row_edits(
        base_node,
        base_path,
        listed(before.base.dom().union(after.base.dom())),
        before.base,
        after.base,
    );
    lemma_made_object(start, "base"@);
    lemma_path_further(base_node, top, "base"@, base_new);
    let base_changes = settings_edits(base_path, base_inner, before.base, after.base);
    lemma_after_both(Some(root), object_edits(top, start, "base"@), base_changes);
    let base_row = base_edits(tree, before, after);
    let members = base_patched(tree, before, after);
    let base_done = Node::Object(members);
    assert(after_edits(Some(root), base_row) == Some(base_done));
    lemma_after_both(tree, opening, base_row);
    let making = object_edits(top, members, "profiles"@);
    let made = with_object(members, "profiles"@);
    let made_node = with_members_at(base_done, top, made);
    let inner = made[find(made, "profiles"@)].value->Object_0;
    let profiles_path = seq!["profiles"@];
    assert(top.push("profiles"@) =~= profiles_path);
    lemma_object_edits(base_done, top, "profiles"@);
    lemma_after_both(tree, opening + base_row, making);
    lemma_profiles_row_edits(
        made_node,
        profiles_path,
        listed(before.profiles.dom().union(after.profiles.dom())),
        before.profiles,
        after.profiles,
    );
    lemma_made_object(members, "profiles"@);
    lemma_path_further(
        made_node,
        top,
        "profiles"@,
        patched_profiles(inner, before.profiles, after.profiles),
    );
    lemma_after_both(
        tree,
        opening + base_row + making,
        profiles_edits(profiles_path, inner, before.profiles, after.profiles),
    );
}

/// Two sources have the same base and the same profiles.
pub open spec fn same_content(before: SourceView, after: SourceView) -> bool {
    &&& same_settings(before.base, after.base)
    &&& before.profiles.dom() == after.profiles.dom()
    &&& forall|name: Seq<char>| #[trigger]
        before.profiles.contains_key(name) ==> before.profiles[name].uninherit
            == after.profiles[name].uninherit && same_settings(
            before.profiles[name].settings,
            after.profiles[name].settings,
        )
}

/// A document has an object for the base, one for the profiles, and one for every profile.
pub open spec fn laid_out(tree: Option<Node>, source: SourceView) -> bool {
    &&& tree is Some
    &&& members_at(tree->0, seq!["base"@]) is Some
    &&& members_at(tree->0, seq!["profiles"@]) is Some
    &&& forall|name: Seq<char>| #[trigger]
        source.profiles.contains_key(name) ==> members_at(
            tree->0,
            seq!["profiles"@, name],
        ) is Some
}

proof fn lemma_same_settings(before: SettingsMap, after: SettingsMap, name: Seq<char>)
    requires
        same_settings(before, after),
    ensures
        same_option(at(before, name), at(after, name)),
{
    assert(before.dom().contains(name) == after.dom().contains(name));
}

proof fn lemma_quiet_row(
    path: Seq<Seq<char>>,
    members: Seq<Member>,
    settings: Seq<Seq<char>>,
    before: SettingsMap,
    after: SettingsMap,
)
    requires
        same_settings(before, after),
    ensures
        row_edits(path, members, settings, before, after) == Seq::<Edit>::empty(),
        patched_row(members, settings, before, after) == members,
    decreases settings.len(),
{
    if settings.len() > 0 {
        lemma_quiet_row(path, members, settings.drop_last(), before, after);
        lemma_same_settings(before, after, settings.last());
    }
}

proof fn lemma_quiet_profiles(
    members: Seq<Member>,
    names: Seq<Seq<char>>,
    before: SourceView,
    after: SourceView,
)
    requires
        same_content(before, after),
        forall|name: Seq<char>| #[trigger]
            before.profiles.contains_key(name) ==> named(members, name) && members[find(
                members,
                name,
            )].value is Object,
    ensures
        profiles_row_edits(seq!["profiles"@], members, names, before.profiles, after.profiles)
            == Seq::<Edit>::empty(),
        patched_profiles_row(members, names, before.profiles, after.profiles) == members,
    decreases names.len(),
{
    if names.len() > 0 {
        let name = names.last();
        lemma_quiet_profiles(members, names.drop_last(), before, after);
        assert(before.profiles.dom().contains(name) == after.profiles.dom().contains(name));
        if before.profiles.contains_key(name) {
            let b = before.profiles[name];
            let a = after.profiles[name];
            let i = find(members, name);
            let inner = members[i].value->Object_0;
            let list = listed(b.settings.dom().union(a.settings.dom()));
            lemma_quiet_row(
                seq!["profiles"@].push(name),
                inner,
                list,
                b.settings,
                a.settings,
            );
            assert(delta_edits(seq!["profiles"@].push(name), inner, b, a) =~= Seq::<
                Edit,
            >::empty());
            crate::node::lemma_find(members, name);
            assert(with_value(members, name, Node::Object(inner)) =~= members);
        }
        assert(profiles_row_edits(
            seq!["profiles"@],
            members,
            names,
            before.profiles,
            after.profiles,
        ) =~= Seq::<Edit>::empty());
    }
}

/// Writing a source that is the same as the one that a text holds edits nothing, and so the
/// text stays as it is, with its comments and its white space.
pub proof fn law_same_source_leaves_the_text(
    text: Seq<char>,
    source: SourceView,
    written: String,
)
    requires
        patched(text, source, Ok(written)),
        same_content(source_in(text)->0, source),
        laid_out(tree_read(text)->Ok_0, source),
    ensures
        source_edits(tree_read(text)->Ok_0, source_in(text)->0, source) == Seq::<Edit>::empty(),
        written@ == text,
{
    reveal_with_fuel(members_at, 3);
    let tree = tree_read(text)->Ok_0;
    let before = source_in(text)->0;
    let base_path = seq!["base"@];
    let profiles_path = seq!["profiles"@];
    let members = tree->0->Object_0;
    assert(base_path.first() == "base"@ && profiles_path.first() == "profiles"@);
    assert(named(members, "base"@) && members[find(members, "base"@)].value is Object);
    assert(named(members, "profiles"@) && members[find(members, "profiles"@)].value is Object);
    let base_inner = members[find(members, "base"@)].value->Object_0;
    let inner = members[find(members, "profiles"@)].value->Object_0;
    lemma_quiet_row(
        base_path,
        base_inner,
        listed(before.base.dom().union(source.base.dom())),
        before.base,
        source.base,
    );
    crate::node::lemma_find(members, "base"@);
    assert(with_value(members, "base"@, Node::Object(base_inner)) =~= members);
    assert(base_patched(tree, before, source) == members);
    assert forall|name: Seq<char>| #[trigger] before.profiles.contains_key(name) implies named(
        inner,
        name,
    ) && inner[find(inner, name)].value is Object by {
        assert(source.profiles.dom().contains(name));
        assert(source.profiles.contains_key(name));
        let path = seq!["profiles"@, name];
        assert(path.first() == "profiles"@);
        assert(path.drop_first() =~= seq![name]);
        assert(seq![name].first() == name);
        assert(members_at(tree->0, path) is Some);
        assert(members_at(Node::Object(inner), seq![name]) is Some);
    }
    lemma_quiet_profiles(
        inner,
        listed(before.profiles.dom().union(source.profiles.dom())),
        before,
        source,
    );
    assert(source_edits(tree, before, source) =~= Seq::<Edit>::empty());
}

/// An edit is called for by what changes between two sources: a setting of the base or of a
/// profile, what a profile does not inherit, or a profile that comes or goes. Beyond that
/// only what has to be an object is made one.
pub open spec fn called_for(before: SourceView, after: SourceView, edit: Edit) -> bool {
    match edit {
        Edit::MakeRoot => true,
        Edit::MakeObject { path, name } => {
            ||| path == Seq::<Seq<char>>::empty() && (name == "base"@ || name == "profiles"@)
            ||| path == seq!["profiles"@] && before.profiles.contains_key(name)
                && after.profiles.contains_key(name)
        },
        Edit::SetMember { path, name, value } => setting_changes(before, after, path, name),
        Edit::AppendMember { path, name, value } => {
            ||| setting_changes(before, after, path, name)
            ||| path == seq!["profiles"@] && !before.profiles.contains_key(name)
                && after.profiles.contains_key(name)
        },
        Edit::RemoveMember { path, name } => {
            ||| setting_changes(before, after, path, name)
            ||| path == seq!["profiles"@] && before.profiles.contains_key(name)
                && !after.profiles.contains_key(name)
        },
    }
}

/// What stands under a name in the base or in a profile changes between two sources.
pub open spec fn setting_changes(
    before: SourceView,
    after: SourceView,
    path: Seq<Seq<char>>,
    name: Seq<char>,
) -> bool {
    ||| path == seq!["base"@] && !same_option(at(before.base, name), at(after.base, name))
    ||| path.len() == 2 && path == seq!["profiles"@].push(path[1]) && profile_setting_changes(
        at(before.profiles, path[1]),
        at(after.profiles, path[1]),
        name,
    )
}

/// What stands under a name in a profile changes.
pub open spec fn profile_setting_changes(
    before: Option<DeltaView>,
    after: Option<DeltaView>,
    name: Seq<char>,
) -> bool {
    match (before, after) {
        (Some(before), Some(after)) => {
            ||| !same_option(at(before.settings, name), at(after.settings, name))
            ||| name == uninherit_name() && before.uninherit != after.uninherit
        },
        _ => false,
    }
}

/// Every edit of a row is called for.
pub open spec fn all_called_for(before: SourceView, after: SourceView, edits: Seq<Edit>) -> bool {
    forall|i: int| 0 <= i < edits.len() ==> called_for(before, after, #[trigger] edits[i])
}

proof fn lemma_called_for_both(
    before: SourceView,
    after: SourceView,
    first: Seq<Edit>,
    second: Seq<Edit>,
)
    requires
        all_called_for(before, after, first),
        all_called_for(before, after, second),
    ensures
        all_called_for(before, after, first + second),
{
    assert forall|i: int| 0 <= i < (first + second).len() implies called_for(
        before,
        after,
        #[trigger] (first + second)[i],
    ) by {
        if i < first.len() {
            assert((first + second)[i] == first[i]);
        } else {
            assert((first + second)[i] == second[i - first.len()]);
        }
    }
}

proof fn lemma_row_called_for(
    before: SourceView,
    after: SourceView,
    path: Seq<Seq<char>>,
    members: Seq<Member>,
    settings: Seq<Seq<char>>,
    b: SettingsMap,
    a: SettingsMap,
)
    requires
        forall|name: Seq<char>|
            !same_option(at(b, name), at(a, name)) ==> #[trigger] setting_changes(
                before,
                after,
                path,
                name,
            ),
    ensures
        all_called_for(before, after, row_edits(path, members, settings, b, a)),
    decreases settings.len(),
{
    if settings.len() > 0 {
        let rest = settings.drop_last();
        let name = settings.last();
        lemma_row_called_for(before, after, path, members, rest, b, a);
        assert(!same_option(at(b, name), at(a, name)) ==> setting_changes(
            before,
            after,
            path,
            name,
        ));
        lemma_called_for_both(
            before,
            after,
            row_edits(path, members, rest, b, a),
            setting_edits(
                path,
                patched_row(members, rest, b, a),
                name,
                at(b, name),
                at(a, name),
            ),
        );
    }
}

proof fn lemma_profiles_called_for(
    before: SourceView,
    after: SourceView,
    members: Seq<Member>,
    names: Seq<Seq<char>>,
)
    ensures
        all_called_for(
            before,
            after,
            profiles_row_edits(
                seq!["profiles"@],
                members,
                names,
                before.profiles,
                after.profiles,
            ),
        ),
    decreases names.len(),
{
    if names.len() > 0 {
        let rest = names.drop_last();
        let name = names.last();
        let top = seq!["profiles"@];
        let path = top.push(name);
        let sofar = patched_profiles_row(members, rest, before.profiles, after.profiles);
        let made = with_object(sofar, name);
        let inner = made[find(made, name)].value->Object_0;
        lemma_profiles_called_for(before, after, members, rest);
        assert(path[1] == name);
        if before.profiles.contains_key(name) && after.profiles.contains_key(name) {
            let b = before.profiles[name];
            let a = after.profiles[name];
            assert forall|setting: Seq<char>|
                !same_option(at(b.settings, setting), at(a.settings, setting)) implies
                #[trigger] setting_changes(before, after, path, setting) by {}
            lemma_row_called_for(
                before,
                after,
                path,
                inner,
                listed(b.settings.dom().union(a.settings.dom())),
                b.settings,
                a.settings,
            );
            let changes = settings_edits(path, inner, b.settings, a.settings);
            let others = uninherit_edits(
                path,
                patched_settings(inner, b.settings, a.settings),
                b.uninherit,
                a.uninherit,
            );
            assert(b.uninherit != a.uninherit ==> setting_changes(
                before,
                after,
                path,
                uninherit_name(),
            ));
            lemma_called_for_both(before, after, changes, others);
            lemma_called_for_both(
                before,
                after,
                object_edits(top, sofar, name),
                changes + others,
            );
        }
        lemma_called_for_both(
            before,
            after,
            profiles_row_edits(top, members, rest, before.profiles, after.profiles),
            profile_edits(
                top,
                sofar,
                name,
                at(before.profiles, name),
                at(after.profiles, name),
            ),
        );
    }
}

/// Only what changes is edited: a setting that is the same in both sources is neither given a
/// value nor taken away, and a profile that both have stays.
pub proof fn law_edits_are_called_for(
    tree: Option<Node>,
    before: SourceView,
    after: SourceView,
)
    ensures
        all_called_for(before, after, source_edits(tree, before, after)),
{
    let start = root_members(tree);
    let base_made = with_object(start, "base"@);
    let base_inner = base_made[find(base_made, "base"@)].value->Object_0;
    let members = base_patched(tree, before, after);
    let made = with_object(members, "profiles"@);
    let inner = made[find(made, "profiles"@)].value->Object_0;
    lemma_row_called_for(
        before,
        after,
        seq!["base"@],
        base_inner,
        listed(before.base.dom().union(after.base.dom())),
        before.base,
        after.base,
    );
    lemma_profiles_called_for(
        before,
        after,
        inner,
        listed(before.profiles.dom().union(after.profiles.dom())),
    );
    let opening = root_edits(tree);
    let base_row = base_edits(tree, before, after);
    let making = object_edits(Seq::empty(), members, "profiles"@);
    let rest = profiles_edits(seq!["profiles"@], inner, before.profiles, after.profiles);
    lemma_called_for_both(
        before,
        after,
        object_edits(Seq::empty(), start, "base"@),
        settings_edits(seq!["base"@], base_inner, before.base, after.base),
    );
    lemma_called_for_both(before, after, opening, base_row);
    lemma_called_for_both(before, after, opening + base_row, making);
    lemma_called_for_both(before, after, opening + base_row + making, rest);
}

/// A comment of a text stays in it when a source is written into it, where it stands neither in
/// a member that is edited nor beside one that is taken away: it stands in the text that is
/// written as it is. Left out are the comments beside a member that is taken away: those on its
/// line go with it.
pub proof fn law_comments_stay(
    text: Seq<char>,
    source: SourceView,
    written: String,
    i: int,
) -> (spot: int)
    requires
        patched(text, source, Ok(written)),
        0 <= i < comments_among(tokens_in(text)).len(),
        stays(
            source_edits(tree_read(text)->Ok_0, source_in(text)->0, source),
            remarks_in(text)[i],
        ),
    ensures
        0 <= spot <= spot + comments_among(tokens_in(text))[i].len() <= written@.len(),
        written@.subrange(spot, spot + comments_among(tokens_in(text))[i].len())
            == comments_among(tokens_in(text))[i],
{
    reveal(stand);
    let remarks = remarks_in(text);
    assert(remark_texts(remarks)[i] == remarks[i].text);
    let asked = staying(source_edits(tree_read(text)->Ok_0, source_in(text)->0, source));
    let spots = choose|spots: Seq<int>| stand_at(written@, remarks, asked, spots);
    assert(asked(remarks[i]));
    spots[i]
}

} // verus!
