//! What is written into a text is read from it again: the text that a source was written into
//! holds the source.

use vstd::prelude::*;
use crate::codec::{canonical, storable_settings};
use crate::json::{
    at, jsons, lemma_array_json, lemma_item_decreases, lemma_member_decreases, lemma_object_json,
    Json, JsonValue, Num, Settings, SettingsMap,
};
use crate::node::{
    all_literals, edit_literals, edits_literals, empty_object, find, lemma_find, named,
    tree_within, with_member, with_object, with_value, without, Edit, Member, Node,
};
use crate::outside::{
    canonical_number, denoted, denotes_some, goes_by_tree, jsonc_value, names_apart,
    nesting_limit, object_edits, plain_literal, root_edits, tree_limit, tree_read,
    writes_its_tree,
};
use crate::parse::{decoded, source_fits, source_in, uninherit_name};
use crate::patch::{
    base_edits, base_patched, delta_edits, delta_node, lemma_made_object, literal, names_node,
    patched, patched_delta, patched_profiles, patched_profiles_row, patched_row, patched_settings,
    patched_tree, profile_edits, profiles_edits, profiles_row_edits, root_members, row_edits,
    setting_edits, setting_members, settings_edits, source_edits, uninherit_edits, value_node,
};
use crate::place::{ranked, Place};
use crate::readback::{
    functional, law_written_source_reads_back, lemma_reads_once, reads_as, sayable,
    settled_source, source_changes_stand_once, writable, writable_source,
};
use crate::reconcile::{absorbed, drifting, sides_of, ProfilesMap, ReconcileResult};
use crate::service::{
    carried_out, law_reconciling_again_is_unchanged, merged_by_prefix, prefix_answers,
    reconciliation, Plan, Reconciliation, StateView,
};
use crate::source::{overlap, sound_profile, sound_source, DeltaView, Source, SourceView};
use crate::storable::storable_source;
use crate::table::{lemma_names_finite, lemma_table_finite, listed};

verus! {

/// The literals of all numbers that are held as `serde_json` holds them are as asked.
spec fn asked_of_numbers(asked: spec_fn(Seq<char>) -> bool) -> bool {
    forall|number: Num| canonical_number(number) ==> asked(#[trigger] literal(number))
}

/// The literals of the tree of a value are those of its numbers.
proof fn lemma_value_literals(json: Json, asked: spec_fn(Seq<char>) -> bool)
    requires
        canonical(json),
        asked_of_numbers(asked),
    ensures
        all_literals(value_node(json), asked),
    decreases json,
{
    match json {
        Json::List(items) => {
            let nodes = value_node(json)->List_0;
            assert forall|i: int| 0 <= i < nodes.len() implies all_literals(
                #[trigger] nodes[i],
                asked,
            ) by {
                assert(canonical(items[i]));
                lemma_value_literals(items[i], asked);
            }
        },
        Json::Object(map) => {
            let members = value_node(json)->Object_0;
            let names = listed(map.dom());
            assert forall|i: int| 0 <= i < members.len() implies all_literals(
                (#[trigger] members[i]).value,
                asked,
            ) by {
                if map.contains_key(names[i]) {
                    assert(canonical(map[names[i]]));
                    lemma_value_literals(map[names[i]], asked);
                }
            }
        },
        _ => {},
    }
}

/// The settings of a map have numbers that are held as `serde_json` holds them.
pub proof fn lemma_settings_canonical(settings: SettingsMap)
    requires
        storable_settings(settings),
    ensures
        canonical(Json::Object(settings)),
{
}

/// The literals of the tree of a profile are those of its settings.
proof fn lemma_delta_literals(delta: DeltaView, asked: spec_fn(Seq<char>) -> bool)
    requires
        storable_settings(delta.settings),
        asked_of_numbers(asked),
    ensures
        all_literals(delta_node(delta), asked),
        all_literals(names_node(delta.uninherit), asked),
{
    lemma_settings_canonical(delta.settings);
    lemma_value_literals(Json::Object(delta.settings), asked);
    let own = setting_members(delta.settings);
    let members = delta_node(delta)->Object_0;
    let before = members.len() - own.len();
    assert(all_literals(Node::Object(own), asked));
    let list = names_node(delta.uninherit)->List_0;
    assert forall|i: int| 0 <= i < list.len() implies all_literals(
        #[trigger] list[i],
        asked,
    ) by {
        assert(list[i] is Text);
    }
    assert(all_literals(names_node(delta.uninherit), asked));
    assert forall|i: int| 0 <= i < members.len() implies all_literals(
        (#[trigger] members[i]).value,
        asked,
    ) by {
        if i >= before {
            assert(members[i] == own[i - before]);
        } else {
            assert(members[i].value == names_node(delta.uninherit));
        }
    }
}

proof fn lemma_literals_both(
    first: Seq<Edit>,
    second: Seq<Edit>,
    asked: spec_fn(Seq<char>) -> bool,
)
    requires
        edits_literals(first, asked),
        edits_literals(second, asked),
    ensures
        edits_literals(first + second, asked),
{
    assert forall|i: int| 0 <= i < (first + second).len() implies edit_literals(
        #[trigger] (first + second)[i],
        asked,
    ) by {
        if i < first.len() {
            assert((first + second)[i] == first[i]);
        } else {
            assert((first + second)[i] == second[i - first.len()]);
        }
    }
}

proof fn lemma_row_literals(
    path: Seq<Seq<char>>,
    members: Seq<Member>,
    settings: Seq<Seq<char>>,
    before: SettingsMap,
    after: SettingsMap,
    asked: spec_fn(Seq<char>) -> bool,
)
    requires
        storable_settings(after),
        asked_of_numbers(asked),
    ensures
        edits_literals(row_edits(path, members, settings, before, after), asked),
    decreases settings.len(),
{
    if settings.len() > 0 {
        let rest = settings.drop_last();
        let name = settings.last();
        lemma_row_literals(path, members, rest, before, after, asked);
        if after.contains_key(name) {
            assert(canonical(after[name]));
            lemma_value_literals(after[name], asked);
        }
        lemma_literals_both(
            row_edits(path, members, rest, before, after),
            setting_edits(
                path,
                patched_row(members, rest, before, after),
                name,
                at(before, name),
                at(after, name),
            ),
            asked,
        );
    }
}

proof fn lemma_profiles_literals(
    path: Seq<Seq<char>>,
    members: Seq<Member>,
    names: Seq<Seq<char>>,
    before: Map<Seq<char>, DeltaView>,
    after: Map<Seq<char>, DeltaView>,
    asked: spec_fn(Seq<char>) -> bool,
)
    requires
        forall|name: Seq<char>| #[trigger]
            after.contains_key(name) ==> storable_settings(after[name].settings),
        asked_of_numbers(asked),
    ensures
        edits_literals(profiles_row_edits(path, members, names, before, after), asked),
    decreases names.len(),
{
    if names.len() > 0 {
        let rest = names.drop_last();
        let name = names.last();
        let sofar = patched_profiles_row(members, rest, before, after);
        let made = with_object(sofar, name);
        let inner = made[find(made, name)].value->Object_0;
        lemma_profiles_literals(path, members, rest, before, after, asked);
        if after.contains_key(name) {
            let a = after[name];
            lemma_delta_literals(a, asked);
            if before.contains_key(name) {
                let b = before[name];
                let below = path.push(name);
                lemma_row_literals(
                    below,
                    inner,
                    listed(b.settings.dom().union(a.settings.dom())),
                    b.settings,
                    a.settings,
                    asked,
                );
                let changes = settings_edits(below, inner, b.settings, a.settings);
                let others = uninherit_edits(
                    below,
                    patched_settings(inner, b.settings, a.settings),
                    b.uninherit,
                    a.uninherit,
                );
                lemma_literals_both(changes, others, asked);
                assert(delta_edits(below, inner, b, a) == changes + others);
                lemma_literals_both(object_edits(path, sofar, name), changes + others, asked);
            }
        }
        lemma_literals_both(
            profiles_row_edits(path, members, rest, before, after),
            profile_edits(path, sofar, name, at(before, name), at(after, name)),
            asked,
        );
    }
}

/// The edits by which a storable source is written put in literals of its numbers alone.
proof fn lemma_source_literals(
    tree: Option<Node>,
    before: SourceView,
    after: SourceView,
    asked: spec_fn(Seq<char>) -> bool,
)
    requires
        storable_source(after),
        asked_of_numbers(asked),
    ensures
        edits_literals(source_edits(tree, before, after), asked),
{
    let start = root_members(tree);
    let base_made = with_object(start, "base"@);
    let base_inner = base_made[find(base_made, "base"@)].value->Object_0;
    let members = base_patched(tree, before, after);
    let made = with_object(members, "profiles"@);
    let inner = made[find(made, "profiles"@)].value->Object_0;
    lemma_row_literals(
        seq!["base"@],
        base_inner,
        listed(before.base.dom().union(after.base.dom())),
        before.base,
        after.base,
        asked,
    );
    lemma_profiles_literals(
        seq!["profiles"@],
        inner,
        listed(before.profiles.dom().union(after.profiles.dom())),
        before.profiles,
        after.profiles,
        asked,
    );
    let opening = root_edits(tree);
    let base_row = base_edits(tree, before, after);
    let making = object_edits(Seq::empty(), members, "profiles"@);
    let rest = profiles_edits(seq!["profiles"@], inner, before.profiles, after.profiles);
    lemma_literals_both(
        object_edits(Seq::empty(), start, "base"@),
        settings_edits(seq!["base"@], base_inner, before.base, after.base),
        asked,
    );
    lemma_literals_both(opening, base_row, asked);
    lemma_literals_both(opening + base_row, making, asked);
    lemma_literals_both(opening + base_row + making, rest, asked);
}

/// Members after a change have the literals that they had and those of the value that was put
/// in.
proof fn lemma_members_literals(
    members: Seq<Member>,
    name: Seq<char>,
    value: Node,
    asked: spec_fn(Seq<char>) -> bool,
)
    requires
        all_literals(Node::Object(members), asked),
        all_literals(value, asked),
    ensures
        named(members, name) ==> all_literals(
            Node::Object(with_value(members, name, value)),
            asked,
        ),
        all_literals(Node::Object(with_member(members, name, value)), asked),
        named(members, name) ==> all_literals(Node::Object(without(members, name)), asked),
        named(members, name) ==> all_literals(members[find(members, name)].value, asked),
{
    lemma_find(members, name);
    let set = with_value(members, name, value);
    let more = with_member(members, name, value);
    let fewer = without(members, name);
    assert forall|k: int| 0 <= k < more.len() implies all_literals(
        (#[trigger] more[k]).value,
        asked,
    ) by {
        if k < members.len() {
            assert(all_literals(members[k].value, asked));
        }
    }
    if named(members, name) {
        assert(all_literals(members[find(members, name)].value, asked));
        assert forall|k: int| 0 <= k < set.len() implies all_literals(
            (#[trigger] set[k]).value,
            asked,
        ) by {
            assert(all_literals(members[k].value, asked));
        }
        assert forall|k: int| 0 <= k < fewer.len() implies all_literals(
            (#[trigger] fewer[k]).value,
            asked,
        ) by {
            if k < find(members, name) {
                assert(all_literals(members[k].value, asked));
            } else {
                assert(all_literals(members[k + 1].value, asked));
            }
        }
    }
}

/// A member that is made an object has no literals but those that it had.
proof fn lemma_made_literals(
    members: Seq<Member>,
    name: Seq<char>,
    asked: spec_fn(Seq<char>) -> bool,
)
    requires
        all_literals(Node::Object(members), asked),
    ensures
        ({
            let made = with_object(members, name);
            let inner = made[find(made, name)].value->Object_0;
            &&& named(made, name)
            &&& all_literals(Node::Object(made), asked)
            &&& all_literals(Node::Object(inner), asked)
        }),
{
    let made = with_object(members, name);
    assert(all_literals(empty_object(), asked));
    lemma_members_literals(members, name, empty_object(), asked);
    lemma_made_object(members, name);
    lemma_members_literals(made, name, empty_object(), asked);
}

proof fn lemma_patched_row_literals(
    members: Seq<Member>,
    settings: Seq<Seq<char>>,
    before: SettingsMap,
    after: SettingsMap,
    asked: spec_fn(Seq<char>) -> bool,
)
    requires
        all_literals(Node::Object(members), asked),
        storable_settings(after),
        asked_of_numbers(asked),
    ensures
        all_literals(Node::Object(patched_row(members, settings, before, after)), asked),
    decreases settings.len(),
{
    if settings.len() > 0 {
        let rest = settings.drop_last();
        let name = settings.last();
        let sofar = patched_row(members, rest, before, after);
        lemma_patched_row_literals(members, rest, before, after, asked);
        if after.contains_key(name) {
            assert(canonical(after[name]));
            lemma_value_literals(after[name], asked);
            lemma_members_literals(sofar, name, value_node(after[name]), asked);
        } else {
            lemma_members_literals(sofar, name, Node::Null, asked);
        }
    }
}

proof fn lemma_patched_profiles_literals(
    members: Seq<Member>,
    names: Seq<Seq<char>>,
    before: Map<Seq<char>, DeltaView>,
    after: Map<Seq<char>, DeltaView>,
    asked: spec_fn(Seq<char>) -> bool,
)
    requires
        all_literals(Node::Object(members), asked),
        forall|name: Seq<char>| #[trigger]
            after.contains_key(name) ==> storable_settings(after[name].settings),
        asked_of_numbers(asked),
    ensures
        all_literals(Node::Object(patched_profiles_row(members, names, before, after)), asked),
    decreases names.len(),
{
    if names.len() > 0 {
        let rest = names.drop_last();
        let name = names.last();
        let sofar = patched_profiles_row(members, rest, before, after);
        lemma_patched_profiles_literals(members, rest, before, after, asked);
        if after.contains_key(name) {
            let a = after[name];
            lemma_delta_literals(a, asked);
            lemma_members_literals(sofar, name, delta_node(a), asked);
            if before.contains_key(name) {
                let b = before[name];
                let made = with_object(sofar, name);
                let inner = made[find(made, name)].value->Object_0;
                lemma_made_literals(sofar, name, asked);
                lemma_patched_row_literals(
                    inner,
                    listed(b.settings.dom().union(a.settings.dom())),
                    b.settings,
                    a.settings,
                    asked,
                );
                let done = patched_settings(inner, b.settings, a.settings);
                lemma_members_literals(done, uninherit_name(), names_node(a.uninherit), asked);
                lemma_members_literals(
                    made,
                    name,
                    Node::Object(patched_delta(inner, b, a)),
                    asked,
                );
            }
        } else {
            lemma_members_literals(sofar, name, Node::Null, asked);
        }
    }
}

/// The literals of the tree of a storable source that was written are those that the tree had
/// and those of the numbers of the source.
proof fn lemma_patched_tree_literals(
    node: Node,
    before: SourceView,
    after: SourceView,
    asked: spec_fn(Seq<char>) -> bool,
)
    requires
        node is Object,
        all_literals(node, asked),
        storable_source(after),
        asked_of_numbers(asked),
    ensures
        all_literals(patched_tree(Some(node), before, after), asked),
{
    let start = node->Object_0;
    let base_made = with_object(start, "base"@);
    let base_inner = base_made[find(base_made, "base"@)].value->Object_0;
    lemma_made_literals(start, "base"@, asked);
    lemma_patched_row_literals(
        base_inner,
        listed(before.base.dom().union(after.base.dom())),
        before.base,
        after.base,
        asked,
    );
    lemma_members_literals(
        base_made,
        "base"@,
        Node::Object(patched_settings(base_inner, before.base, after.base)),
        asked,
    );
    let members = base_patched(Some(node), before, after);
    let made = with_object(members, "profiles"@);
    let inner = made[find(made, "profiles"@)].value->Object_0;
    lemma_made_literals(members, "profiles"@, asked);
    lemma_patched_profiles_literals(
        inner,
        listed(before.profiles.dom().union(after.profiles.dom())),
        before.profiles,
        after.profiles,
        asked,
    );
    lemma_members_literals(
        made,
        "profiles"@,
        Node::Object(patched_profiles(inner, before.profiles, after.profiles)),
        asked,
    );
}

/// Where at most so many lists and objects of a tree stand in each other, no more do.
proof fn lemma_tree_within(node: Node, n: nat, m: nat)
    requires
        tree_within(node, n),
        n <= m,
    ensures
        tree_within(node, m),
    decreases n,
{
    match node {
        Node::List(items) => {
            assert forall|i: int| 0 <= i < items.len() implies tree_within(
                #[trigger] items[i],
                (m - 1) as nat,
            ) by {
                assert(tree_within(items[i], (n - 1) as nat));
                lemma_tree_within(items[i], (n - 1) as nat, (m - 1) as nat);
            }
        },
        Node::Object(members) => {
            assert forall|i: int| 0 <= i < members.len() implies tree_within(
                (#[trigger] members[i]).value,
                (m - 1) as nat,
            ) by {
                assert(tree_within(members[i].value, (n - 1) as nat));
                lemma_tree_within(members[i].value, (n - 1) as nat, (m - 1) as nat);
            }
        },
        _ => {},
    }
}

/// A value whose numbers are held as `serde_json` holds them can be said in a text.
proof fn lemma_value_sayable(value: JsonValue)
    requires
        canonical(value@),
    ensures
        sayable(denoted(), value@),
    decreases value,
{
    match value {
        JsonValue::Array(items) => {
            lemma_array_json(items);
            let row = value@->List_0;
            assert(row == jsons(items@));
            assert forall|i: int| 0 <= i < row.len() implies sayable(
                denoted(),
                #[trigger] row[i],
            ) by {
                lemma_item_decreases(value, i);
                assert(canonical(row[i]));
                lemma_value_sayable(items@[i]);
            }
        },
        JsonValue::Object(table) => {
            lemma_object_json(table);
            lemma_table_finite(table);
            let map = value@->Object_0;
            assert(map =~= table.deep_view());
            assert(map.dom() =~= table@.dom());
            assert forall|name: Seq<char>| map.contains_key(name) implies sayable(
                denoted(),
                #[trigger] map[name],
            ) by {
                lemma_member_decreases(value, name);
                assert(canonical(map[name]));
                lemma_value_sayable(table@[name]);
            }
        },
        _ => {},
    }
}

/// Storable settings can be said in a text.
proof fn lemma_settings_sayable(settings: Settings)
    requires
        storable_settings(settings.deep_view()),
    ensures
        sayable(denoted(), Json::Object(settings.deep_view())),
{
    lemma_settings_canonical(settings.deep_view());
    lemma_object_json(settings);
    lemma_value_sayable(JsonValue::Object(settings));
}

/// No profile of a source has a setting of the name under which what it does not inherit is
/// listed.
pub open spec fn names_no_uninherit(source: SourceView) -> bool {
    forall|name: Seq<char>| #[trigger]
        source.profiles.contains_key(name) ==> !source.profiles[name].settings.contains_key(
            uninherit_name(),
        )
}

/// A storable source can be written.
pub proof fn lemma_storable_writable(source: Source)
    requires
        storable_source(source@),
        names_no_uninherit(source@),
    ensures
        writable_source(denoted(), source@),
{
    lemma_settings_sayable(source.base);
    lemma_table_finite(source.profiles);
    assert(source@.profiles.dom() =~= source.profiles@.dom());
    assert forall|name: Seq<char>| #[trigger]
        source@.profiles.contains_key(name) implies writable(
        denoted(),
        source@.profiles[name],
    ) by {
        let delta = source.profiles@[name];
        assert(source@.profiles[name] == delta@);
        lemma_settings_sayable(delta.settings);
        lemma_names_finite(delta.uninherit);
    }
}

/// Whether a source that is written into a text is read from it again. The names of the text
/// have to be quoted, or no comma may be left out in it, its value has to be an object, and the
/// lists and objects of the tree after the edits may not stand too deep in each other. Left out
/// are names that stand twice where they change, and profiles with a setting of the name
/// `uninherit`.
pub open spec fn surely_read(text: Seq<char>, source: Source) -> bool {
    &&& sound_source(source@)
    &&& storable_source(source@)
    &&& names_no_uninherit(source@)
    &&& names_apart(text)
    &&& tree_read(text)->Ok_0 is Some
    &&& tree_read(text)->Ok_0->0 is Object
    &&& source_changes_stand_once(tree_read(text)->Ok_0->0, source_in(text)->0, source@)
    &&& tree_within(
        patched_tree(tree_read(text)->Ok_0, source_in(text)->0, source@),
        tree_limit(),
    )
}

/// A source that was written into a text is read from it again: the text after the edits holds
/// the source, but for the schema and the version, which are not written. What both texts are
/// read as goes by their trees, which every reading of them tells.
pub proof fn law_patched_text_reads_back(
    text: Seq<char>,
    source: Source,
    written: String,
)
    requires
        patched(text, source@, Ok(written)),
        goes_by_tree(tree_read(text), jsonc_value(text)),
        goes_by_tree(tree_read(written@), jsonc_value(written@)),
        surely_read(text, source),
    ensures
        source_in(written@) == Some(settled_source(source_in(text)->0, source@)),
{
    let tree = tree_read(text)->Ok_0;
    let node = tree->0;
    let json = jsonc_value(text)->Ok_0;
    let before = source_in(text)->0;
    let edits = source_edits(tree, before, source@);
    let after = patched_tree(tree, before, source@);
    assert(tree_read(text) == Ok::<Option<Node>, Seq<char>>(Some(node)));
    assert(decoded(json) == Some(before));
    assert(source_fits(node));
    assert(asked_of_numbers(plain_literal()));
    assert(asked_of_numbers(denotes_some()));
    lemma_source_literals(tree, before, source@, plain_literal());
    assert(writes_its_tree(text, edits, Some(after)));
    assert(tree_read(written@) == Ok::<Option<Node>, Seq<char>>(Some(after)));
    lemma_storable_writable(source);
    assert(functional(denoted()));
    let read = law_written_source_reads_back(denoted(), node, json, before, source@);
    lemma_patched_tree_literals(node, before, source@, denotes_some());
    lemma_tree_within(after, tree_limit(), nesting_limit());
    assert(reads_as(denoted(), after, jsonc_value(written@)->Ok_0));
    lemma_reads_once(denoted(), after, read, jsonc_value(written@)->Ok_0);
    let settled = settled_source(before, source@);
    assert(sound_source(settled)) by {
        assert forall|name: Seq<char>|
            #![trigger settled.profiles[name]]
            settled.profiles.contains_key(name) implies sound_profile(
            name,
            settled.profiles[name],
        ) by {
            assert(sound_profile(name, source@.profiles[name]));
            assert(overlap(settled.profiles[name]) =~= overlap(source@.profiles[name]));
        }
    }
}

/// The text of a source after its changes were taken over: it is edited where they changed the
/// source, and stays as it is where they did not.
pub open spec fn text_after(
    text: Seq<char>,
    merged: Source,
    changed_source: bool,
    written: String,
) -> bool {
    if changed_source {
        &&& patched(text, merged@, Ok(written))
        &&& goes_by_tree(tree_read(text), jsonc_value(text))
        &&& goes_by_tree(tree_read(written@), jsonc_value(written@))
        &&& surely_read(text, merged)
    } else {
        written@ == text
    }
}

/// Reconciling finds nothing to do when what the reconciliation before it gave was carried
/// out: the source is written into its text and read from it again, and the settings of the
/// plan are written. Left out are sources in which a value gave way to one that is equal and
/// does not stand as the same literal: the text keeps the old literal then.
pub proof fn law_reconciling_written_again_is_unchanged(
    text: Seq<char>,
    previous: StateView,
    actual: ProfilesMap,
    merged: Source,
    changed_source: bool,
    plan: Plan,
    written: String,
    after: ProfilesMap,
    found: Reconciliation,
)
    requires
        source_in(text) is Some,
        reconciliation(
            source_in(text)->0,
            previous,
            actual,
            Reconciliation::Merged { source: merged, changed_source, plan },
        ),
        text_after(text, merged, changed_source, written),
        settled_source(source_in(text)->0, merged@) == merged@,
        merged@.profiles.dom() != Set::<Seq<char>>::empty(),
        carried_out(plan, actual, after),
        reconciliation(source_in(written@)->0, plan.state@, after, found),
    ensures
        source_in(written@) == Some(merged@),
        found == (Reconciliation::Unchanged { revision: plan.state.revision }),
{
    let source = source_in(text)->0;
    let sides = sides_of(source, previous.materialized, actual);
    let result = choose|result: ReconcileResult| #[trigger]
        merged_by_prefix(source, previous, actual, result) && merged@ == result.source@
            && changed_source == result.changed_source;
    if changed_source {
        law_patched_text_reads_back(text, merged, written);
    } else {
        let places = choose|places: Seq<Place>|
            #![trigger ranked(places, drifting(sides))]
            ranked(places, drifting(sides)) && result.source@ == absorbed(
                source,
                actual,
                places,
                prefix_answers(previous.known_setting_prefixes, places),
            );
        if places.len() > 0 {
            assert(places.contains(places[0]));
            assert(drifting(sides).contains(places[0]));
        }
        assert(merged@ == source);
    }
    law_reconciling_again_is_unchanged(merged@, previous, actual, plan, after, found);
}

} // verus!
