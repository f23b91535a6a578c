//! What an edited tree reads as: a source that was written into a text is what the
//! tree of the text then says.

use vstd::prelude::*;
use crate::draft::names_json;
use crate::json::{
    at, law_same_json_reflexive, same_json, same_option, same_settings, Json, Num, SettingsMap,
};
use crate::node::{
    empty_object, find, lemma_find, lemma_found_at, named, with_member, with_object,
    with_value, without, Member, Node,
};
use crate::parse::{
    decoded, decoded_delta, decoded_profiles, delta_fits, field_names, is_text_list,
    is_text_list_node, names_distinct, profiles_fit, source_fits, text_set,
    uninherit_name,
};
use crate::patch::{
    delta_node, literal, names_node, patched_delta, patched_profile, patched_profiles,
    patched_profiles_row, patched_row, patched_settings, patched_tree, root_members,
    setting_members, value_node,
};
use crate::source::{DeltaView, SourceView};
use crate::table::{in_order, lemma_finite_listed, listed, lists};
use crate::text::lemma_precedes_asymmetric;

verus! {

/// The names that the members have.
pub open spec fn node_names(members: Seq<Member>) -> Set<Seq<char>> {
    Set::new(
        |name: Seq<char>| exists|i: int| 0 <= i < members.len() && (#[trigger] members[i]).name == name,
    )
}

/// No later member has the name of the member at a place.
pub open spec fn is_last(members: Seq<Member>, i: int) -> bool {
    forall|j: int| i < j < members.len() ==> (#[trigger] members[j]).name != members[i].name
}

/// A tree reads as a JSON value, where `denotes` says which numbers a literal may stand
/// for. Of members with one name the last counts.
pub open spec fn reads_as(
    denotes: spec_fn(Seq<char>, Num) -> bool,
    node: Node,
    json: Json,
) -> bool
    decreases node,
{
    match (node, json) {
        (Node::Null, Json::Null) => true,
        (Node::Bool(a), Json::Bool(b)) => a == b,
        (Node::Number(text), Json::Number(number)) => denotes(text, number),
        (Node::Text(a), Json::Text(b)) => a == b,
        (Node::List(nodes), Json::List(items)) => nodes.len() == items.len() && forall|i: int|
            0 <= i < nodes.len() ==> reads_as(denotes, #[trigger] nodes[i], items[i]),
        (Node::Object(members), Json::Object(map)) => map.dom() == node_names(members)
            && forall|i: int|
            0 <= i < members.len() && is_last(members, i) ==> reads_as(
                denotes,
                (#[trigger] members[i]).value,
                map[members[i].name],
            ),
        _ => false,
    }
}

/// A value can be said in a text: every object within it has a finite number of members, and
/// the literal of every number within it stands for that number.
pub open spec fn sayable(denotes: spec_fn(Seq<char>, Num) -> bool, json: Json) -> bool
    decreases json,
{
    match json {
        Json::Number(number) => denotes(literal(number), number),
        Json::List(items) => forall|i: int|
            0 <= i < items.len() ==> sayable(denotes, #[trigger] items[i]),
        Json::Object(map) => map.dom().finite() && forall|name: Seq<char>|
            map.contains_key(name) ==> sayable(denotes, #[trigger] map[name]),
        _ => true,
    }
}

/// Members read as a map.
pub open spec fn reads_members(
    denotes: spec_fn(Seq<char>, Num) -> bool,
    members: Seq<Member>,
    map: SettingsMap,
) -> bool {
    reads_as(denotes, Node::Object(members), Json::Object(map))
}

/// A name stands at most once among members.
pub open spec fn once(members: Seq<Member>, name: Seq<char>) -> bool {
    forall|i: int, j: int|
        #![trigger members[i], members[j]]
        0 <= i < j < members.len() && members[i].name == name ==> members[j].name != name
}

proof fn lemma_node_names_finite(members: Seq<Member>)
    ensures
        node_names(members).finite(),
{
    let names = Seq::new(members.len(), |i: int| members[i].name);
    vstd::seq_lib::seq_to_set_is_finite(names);
    assert(node_names(members) =~= names.to_set()) by {
        assert forall|name: Seq<char>|
            #![trigger node_names(members).contains(name)]
            node_names(members).contains(name) implies names.to_set().contains(name) by {
            let i = choose|i: int| 0 <= i < members.len() && (#[trigger] members[i]).name == name;
            assert(names[i] == name);
        }
        assert forall|name: Seq<char>|
            #![trigger names.to_set().contains(name)]
            names.to_set().contains(name) implies node_names(members).contains(name) by {
            let i = choose|i: int| 0 <= i < names.len() && names[i] == name;
            assert(members[i].name == name);
        }
    }
}

/// Some member of a name is the last of it.
proof fn lemma_last_of(members: Seq<Member>, name: Seq<char>) -> (last: int)
    requires
        node_names(members).contains(name),
    ensures
        0 <= last < members.len(),
        members[last].name == name,
        is_last(members, last),
    decreases members.len(),
{
    let n = members.len() - 1;
    let some = choose|i: int| 0 <= i < members.len() && (#[trigger] members[i]).name == name;
    if members[n].name == name {
        n
    } else {
        let shorter = members.drop_last();
        assert(shorter[some].name == name);
        let last = lemma_last_of(shorter, name);
        assert(is_last(members, last)) by {
            assert forall|j: int| last < j < members.len() implies (#[trigger] members[j]).name
                != members[last].name by {
                if j < n {
                    assert(shorter[j].name != shorter[last].name);
                }
            }
        }
        last
    }
}

/// The tree of a value reads as the value.
pub proof fn lemma_value_node_reads(denotes: spec_fn(Seq<char>, Num) -> bool, json: Json)
    requires
        sayable(denotes, json),
    ensures
        reads_as(denotes, value_node(json), json),
    decreases json,
{
    match json {
        Json::List(items) => {
            let nodes = value_node(json)->List_0;
            assert forall|i: int| 0 <= i < nodes.len() implies reads_as(
                denotes,
                #[trigger] nodes[i],
                items[i],
            ) by {
                assert(sayable(denotes, items[i]));
                lemma_value_node_reads(denotes, items[i]);
            }
        },
        Json::Object(map) => {
            let members = value_node(json)->Object_0;
            let names = listed(map.dom());
            lemma_finite_listed(map.dom());
            lemma_listed_members(members, names, map.dom());
            assert forall|i: int| 0 <= i < members.len() implies reads_as(
                denotes,
                (#[trigger] members[i]).value,
                map[members[i].name],
            ) by {
                assert(names.contains(names[i]));
                assert(map.dom().contains(names[i]));
                assert(sayable(denotes, map[names[i]]));
                lemma_value_node_reads(denotes, map[names[i]]);
            }
        },
        _ => {},
    }
}

/// Members with the names of a list are distinct and have the names of its set.
pub proof fn lemma_listed_members(
    members: Seq<Member>,
    names: Seq<Seq<char>>,
    set: Set<Seq<char>>,
)
    requires
        lists(names, set),
        members.len() == names.len(),
        forall|i: int| 0 <= i < members.len() ==> (#[trigger] members[i]).name == names[i],
    ensures
        names_distinct(members),
        node_names(members) == set,
{
    assert forall|i: int, j: int|
        #![trigger members[i], members[j]]
        0 <= i < j < members.len() implies members[i].name != members[j].name by {
        lemma_precedes_asymmetric(names[i], names[j]);
    }
    assert(node_names(members) =~= set) by {
        assert forall|name: Seq<char>|
            #![trigger set.contains(name)]
            node_names(members).contains(name) == set.contains(name) by {
            if set.contains(name) {
                assert(names.contains(name));
                let i = choose|i: int| 0 <= i < names.len() && names[i] == name;
                assert(members[i].name == name);
            }
            if node_names(members).contains(name) {
                let i = choose|i: int| 0 <= i < members.len() && (#[trigger] members[i]).name == name;
                assert(names.contains(names[i]));
            }
        }
    }
}

proof fn lemma_with_value_reads(
    denotes: spec_fn(Seq<char>, Num) -> bool,
    members: Seq<Member>,
    map: SettingsMap,
    name: Seq<char>,
    node: Node,
    json: Json,
)
    requires
        reads_members(denotes, members, map),
        named(members, name),
        once(members, name),
        reads_as(denotes, node, json),
    ensures
        reads_members(denotes, with_value(members, name, node), map.insert(name, json)),
        forall|other: Seq<char>| #[trigger]
            once(members, other) ==> once(with_value(members, name, node), other),
{
    lemma_find(members, name);
    let place = find(members, name);
    let after = with_value(members, name, node);
    assert forall|i: int| 0 <= i < after.len() implies (#[trigger] after[i]).name
        == members[i].name by {}
    assert forall|other: Seq<char>| #[trigger] once(members, other) implies once(after, other) by {
        assert forall|i: int, j: int|
            #![trigger after[i], after[j]]
            0 <= i < j < after.len() && after[i].name == other implies after[j].name != other by {
            assert(members[i].name == other);
            assert(members[j].name == after[j].name);
        }
    }
    assert(map.insert(name, json).dom() =~= node_names(after)) by {
        assert forall|other: Seq<char>|
            #![trigger node_names(after).contains(other)]
            node_names(after).contains(other) == map.insert(name, json).dom().contains(other) by {
            if map.dom().contains(other) {
                assert(node_names(members).contains(other));
                let i = choose|i: int| 0 <= i < members.len() && (#[trigger] members[i]).name == other;
                assert(after[i].name == other);
            }
            if other == name {
                assert(after[place].name == name);
            }
            if node_names(after).contains(other) {
                let i = choose|i: int| 0 <= i < after.len() && (#[trigger] after[i]).name == other;
                assert(members[i].name == other);
                assert(node_names(members).contains(other));
            }
        }
    }
    assert forall|i: int| 0 <= i < after.len() && is_last(after, i) implies reads_as(
        denotes,
        (#[trigger] after[i]).value,
        map.insert(name, json)[after[i].name],
    ) by {
        if i != place {
            assert(is_last(members, i)) by {
                assert forall|j: int| i < j < members.len() implies (#[trigger] members[j]).name
                    != members[i].name by {
                    assert(after[j].name != after[i].name);
                }
            }
            assert(members[i].name != name) by {
                if members[i].name == name {
                    if i < place {
                        assert(members[place].name != name);
                    } else {
                        assert(members[i].name != name);
                    }
                }
            }
            assert(reads_as(denotes, members[i].value, map[members[i].name]));
        }
    }
}

proof fn lemma_with_member_reads(
    denotes: spec_fn(Seq<char>, Num) -> bool,
    members: Seq<Member>,
    map: SettingsMap,
    name: Seq<char>,
    node: Node,
    json: Json,
)
    requires
        reads_members(denotes, members, map),
        !named(members, name),
        reads_as(denotes, node, json),
    ensures
        reads_members(denotes, with_member(members, name, node), map.insert(name, json)),
        forall|other: Seq<char>| #[trigger]
            once(members, other) ==> once(with_member(members, name, node), other),
        once(with_member(members, name, node), name),
{
    lemma_find(members, name);
    let after = with_member(members, name, node);
    let n = members.len() as int;
    assert forall|other: Seq<char>|
        #![trigger once(members, other)]
        once(members, other) || other == name implies once(after, other) by {
        assert forall|i: int, j: int|
            #![trigger after[i], after[j]]
            0 <= i < j < after.len() && after[i].name == other implies after[j].name != other by {
            assert(members[i].name == other);
            assert(members[i].name != name);
            if j < n {
                assert(members[j].name == after[j].name);
            }
        }
    }
    assert(once(members, name) || name == name);
    assert(map.insert(name, json).dom() =~= node_names(after)) by {
        assert forall|other: Seq<char>|
            #![trigger node_names(after).contains(other)]
            node_names(after).contains(other) == map.insert(name, json).dom().contains(other) by {
            if map.dom().contains(other) {
                assert(node_names(members).contains(other));
                let i = choose|i: int| 0 <= i < members.len() && (#[trigger] members[i]).name == other;
                assert(after[i].name == other);
            }
            if other == name {
                assert(after[n].name == name);
            }
            if node_names(after).contains(other) {
                let i = choose|i: int| 0 <= i < after.len() && (#[trigger] after[i]).name == other;
                if i != n {
                    assert(members[i].name == other);
                    assert(node_names(members).contains(other));
                }
            }
        }
    }
    assert forall|i: int| 0 <= i < after.len() && is_last(after, i) implies reads_as(
        denotes,
        (#[trigger] after[i]).value,
        map.insert(name, json)[after[i].name],
    ) by {
        if i < n {
            assert(members[i].name != name);
            assert(is_last(members, i)) by {
                assert forall|j: int| i < j < members.len() implies (#[trigger] members[j]).name
                    != members[i].name by {
                    assert(after[j].name != after[i].name);
                }
            }
            assert(reads_as(denotes, members[i].value, map[members[i].name]));
        }
    }
}

#[verifier::spinoff_prover]
#[verifier::rlimit(40)]
proof fn lemma_without_reads(
    denotes: spec_fn(Seq<char>, Num) -> bool,
    members: Seq<Member>,
    map: SettingsMap,
    name: Seq<char>,
)
    requires
        reads_members(denotes, members, map),
        named(members, name),
        once(members, name),
    ensures
        reads_members(denotes, without(members, name), map.remove(name)),
        forall|other: Seq<char>| #[trigger]
            once(members, other) ==> once(without(members, name), other),
{
    lemma_find(members, name);
    let place = find(members, name);
    let after = without(members, name);
    assert forall|i: int| 0 <= i < members.len() && i != place implies (#[trigger] members[i]).name
        != name by {
        if i < place {
            assert(members[i].name != name);
        } else {
            assert(members[place].name == name);
        }
    }
    assert forall|other: Seq<char>| #[trigger] once(members, other) implies once(after, other) by {
        assert forall|i: int, j: int|
            #![trigger after[i], after[j]]
            0 <= i < j < after.len() && after[i].name == other implies after[j].name != other by {
            let a = if i < place { i } else { i + 1 };
            let b = if j < place { j } else { j + 1 };
            assert(members[a] == after[i]);
            assert(members[b] == after[j]);
        }
    }
    assert(map.remove(name).dom() =~= node_names(after)) by {
        assert forall|other: Seq<char>|
            #![trigger node_names(after).contains(other)]
            node_names(after).contains(other) == map.remove(name).dom().contains(other) by {
            if map.remove(name).dom().contains(other) {
                assert(node_names(members).contains(other));
                let i = choose|i: int| 0 <= i < members.len() && (#[trigger] members[i]).name == other;
                let k = if i < place { i } else { i - 1 };
                assert(after[k].name == other);
            }
            if node_names(after).contains(other) {
                let k = choose|k: int| 0 <= k < after.len() && (#[trigger] after[k]).name == other;
                let i = if k < place { k } else { k + 1 };
                assert(members[i].name == other);
                assert(node_names(members).contains(other));
            }
        }
    }
    assert forall|k: int| 0 <= k < after.len() && is_last(after, k) implies reads_as(
        denotes,
        (#[trigger] after[k]).value,
        map.remove(name)[after[k].name],
    ) by {
        let i = if k < place { k } else { k + 1 };
        assert(members[i] == after[k]);
        assert(members[i].name != name);
        assert(is_last(members, i)) by {
            assert forall|j: int| i < j < members.len() implies (#[trigger] members[j]).name
                != members[i].name by {
                if j != place {
                    let m = if j < place { j } else { j - 1 };
                    assert(after[m] == members[j]);
                    assert(after[m].name != after[k].name);
                }
            }
        }
        assert(reads_as(denotes, members[i].value, map[members[i].name]));
    }
}

proof fn lemma_named_reads(
    denotes: spec_fn(Seq<char>, Num) -> bool,
    members: Seq<Member>,
    map: SettingsMap,
    name: Seq<char>,
)
    requires
        reads_members(denotes, members, map),
    ensures
        named(members, name) == map.contains_key(name),
        named(members, name) && once(members, name) ==> reads_as(
            denotes,
            members[find(members, name)].value,
            map[name],
        ),
{
    lemma_find(members, name);
    if named(members, name) {
        let place = find(members, name);
        assert(members[place].name == name);
        assert(node_names(members).contains(name));
        if once(members, name) {
            assert(is_last(members, place)) by {
                assert forall|j: int| place < j < members.len() implies (#[trigger] members[j]).name
                    != members[place].name by {
                    assert(members[place].name == name);
                }
            }
        }
    }
    if map.contains_key(name) {
        assert(node_names(members).contains(name));
        let i = choose|i: int| 0 <= i < members.len() && (#[trigger] members[i]).name == name;
        if !named(members, name) {
            assert(members[i].name != name);
        }
    }
}

/// What a setting is after it went from one value to another: where the two are equal,
/// it stays what it was.
pub open spec fn settled_value(before: Option<Json>, after: Option<Json>) -> Option<Json> {
    if same_option(before, after) {
        before
    } else {
        after
    }
}

/// What settings are after they went from what they were to what they are.
pub open spec fn settled_settings(before: SettingsMap, after: SettingsMap) -> SettingsMap {
    Map::new(
        |name: Seq<char>| after.contains_key(name),
        |name: Seq<char>| settled_value(at(before, name), at(after, name))->0,
    )
}

/// Every setting that changes stands at most once among members.
pub open spec fn changes_stand_once(
    members: Seq<Member>,
    before: SettingsMap,
    after: SettingsMap,
) -> bool {
    forall|name: Seq<char>|
        !same_option(at(before, name), at(after, name)) ==> #[trigger] once(members, name)
}

proof fn lemma_patched_row_reads(
    denotes: spec_fn(Seq<char>, Num) -> bool,
    members: Seq<Member>,
    map: SettingsMap,
    settings: Seq<Seq<char>>,
    before: SettingsMap,
    after: SettingsMap,
) -> (read: SettingsMap)
    requires
        reads_members(denotes, members, map),
        changes_stand_once(members, before, after),
        sayable(denotes, Json::Object(after)),
    ensures
        reads_members(denotes, patched_row(members, settings, before, after), read),
        forall|other: Seq<char>| #[trigger]
            once(members, other) ==> once(patched_row(members, settings, before, after), other),
        forall|name: Seq<char>|
            #![trigger at(read, name)]
            at(read, name) == if settings.contains(name) && !same_option(
                at(before, name),
                at(after, name),
            ) {
                at(after, name)
            } else {
                at(map, name)
            },
    decreases settings.len(),
{
    if settings.len() == 0 {
        map
    } else {
        let rest = settings.drop_last();
        let key = settings.last();
        let sofar = patched_row(members, rest, before, after);
        let middle = lemma_patched_row_reads(denotes, members, map, rest, before, after);
        lemma_named_reads(denotes, sofar, middle, key);
        let read = if same_option(at(before, key), at(after, key)) {
            middle
        } else {
            match at(after, key) {
                Some(value) => middle.insert(key, value),
                None => middle.remove(key),
            }
        };
        if !same_option(at(before, key), at(after, key)) {
            assert(once(members, key));
            assert(once(sofar, key));
            match at(after, key) {
                Some(value) => {
                    assert(sayable(denotes, after[key]));
                    lemma_value_node_reads(denotes, value);
                    if named(sofar, key) {
                        lemma_with_value_reads(
                            denotes,
                            sofar,
                            middle,
                            key,
                            value_node(value),
                            value,
                        );
                    } else {
                        lemma_with_member_reads(
                            denotes,
                            sofar,
                            middle,
                            key,
                            value_node(value),
                            value,
                        );
                    }
                },
                None => {
                    if named(sofar, key) {
                        lemma_without_reads(denotes, sofar, middle, key);
                    } else {
                        assert(middle.remove(key) =~= middle);
                    }
                },
            }
        }
        assert forall|other: Seq<char>| #[trigger] once(members, other) implies once(
            patched_row(members, settings, before, after),
            other,
        ) by {
            assert(once(sofar, other));
        }
        assert forall|name: Seq<char>|
            #![trigger at(read, name)]
            at(read, name) == if settings.contains(name) && !same_option(
                at(before, name),
                at(after, name),
            ) {
                at(after, name)
            } else {
                at(map, name)
            } by {
            assert(at(middle, name) == at(middle, name));
            if rest.contains(name) {
                let i = choose|i: int| 0 <= i < rest.len() && rest[i] == name;
                assert(settings[i] == name);
            }
            if settings.contains(name) && name != key {
                let i = choose|i: int| 0 <= i < settings.len() && settings[i] == name;
                assert(rest[i] == name);
            }
            if name == key {
                assert(settings[settings.len() - 1] == name);
            }
        }
        read
    }
}

/// Edited settings read as what they went to.
proof fn lemma_patched_settings_reads(
    denotes: spec_fn(Seq<char>, Num) -> bool,
    members: Seq<Member>,
    before: SettingsMap,
    after: SettingsMap,
)
    requires
        reads_members(denotes, members, before),
        changes_stand_once(members, before, after),
        sayable(denotes, Json::Object(after)),
    ensures
        reads_members(
            denotes,
            patched_settings(members, before, after),
            settled_settings(before, after),
        ),
{
    let all = before.dom().union(after.dom());
    let names = listed(all);
    lemma_node_names_finite(members);
    lemma_finite_listed(all);
    let read = lemma_patched_row_reads(denotes, members, before, names, before, after);
    assert(read =~= settled_settings(before, after)) by {
        assert forall|name: Seq<char>|
            #![trigger settled_settings(before, after).dom().contains(name)]
            read.dom().contains(name) == settled_settings(before, after).dom().contains(name) && (
            read.dom().contains(name) ==> read[name] == settled_settings(before, after)[name]) by {
            assert(at(read, name) == at(read, name));
            assert(all.contains(name) == names.contains(name));
        }
    }
}

proof fn lemma_names_read(denotes: spec_fn(Seq<char>, Num) -> bool, names: Set<Seq<char>>)
    requires
        names.finite(),
    ensures
        reads_as(denotes, names_node(names), names_json(names)),
        is_text_list(names_json(names)),
        text_set(names_json(names)) == names,
{
    let list = listed(names);
    lemma_finite_listed(names);
    let nodes = names_node(names)->List_0;
    let items = names_json(names)->List_0;
    assert forall|i: int| 0 <= i < nodes.len() implies reads_as(
        denotes,
        #[trigger] nodes[i],
        items[i],
    ) by {
        assert(nodes[i] == Node::Text(list[i]));
        assert(items[i] == Json::Text(list[i]));
    }
    assert(text_set(names_json(names)) =~= names) by {
        assert forall|name: Seq<char>|
            #![trigger names.contains(name)]
            text_set(names_json(names)).contains(name) == names.contains(name) by {
            if names.contains(name) {
                assert(list.contains(name));
                let i = choose|i: int| 0 <= i < list.len() && list[i] == name;
                assert(names_json(names)->List_0[i] == Json::Text(name));
            }
            if text_set(names_json(names)).contains(name) {
                let i = choose|i: int|
                    0 <= i < names_json(names)->List_0.len()
                        && #[trigger] names_json(names)->List_0[i] == Json::Text(name);
                assert(list.contains(list[i]));
            }
        }
    }
}

/// What a profile changes, after it went from one state to another.
pub open spec fn settled_delta(before: DeltaView, after: DeltaView) -> DeltaView {
    DeltaView {
        uninherit: after.uninherit,
        settings: settled_settings(before.settings, after.settings),
    }
}

/// A profile that can be written: its settings can be said in a text, and none of them has
/// the name under which what it does not inherit is listed.
pub open spec fn writable(
    denotes: spec_fn(Seq<char>, Num) -> bool,
    delta: DeltaView,
) -> bool {
    &&& sayable(denotes, Json::Object(delta.settings))
    &&& delta.uninherit.finite()
    &&& !delta.settings.contains_key(uninherit_name())
}

/// An edited profile reads as what it went to.
proof fn lemma_patched_delta_reads(
    denotes: spec_fn(Seq<char>, Num) -> bool,
    members: Seq<Member>,
    map: SettingsMap,
    before: DeltaView,
    after: DeltaView,
) -> (read: SettingsMap)
    requires
        reads_members(denotes, members, map),
        decoded_delta(Json::Object(map)) == Some(before),
        changes_stand_once(members, before.settings, after.settings),
        once(members, uninherit_name()),
        writable(denotes, after),
    ensures
        reads_members(denotes, patched_delta(members, before, after), read),
        decoded_delta(Json::Object(read)) == Some(settled_delta(before, after)),
{
    let key = uninherit_name();
    let all = before.settings.dom().union(after.settings.dom());
    let names = listed(all);
    lemma_node_names_finite(members);
    lemma_finite_listed(all);
    assert(!names.contains(key)) by {
        if names.contains(key) {
            assert(all.contains(key));
        }
    }
    let middle = lemma_patched_row_reads(
        denotes,
        members,
        map,
        names,
        before.settings,
        after.settings,
    );
    let settings_done = patched_settings(members, before.settings, after.settings);
    let settled = settled_settings(before.settings, after.settings);
    assert forall|name: Seq<char>|
        #![trigger settled.dom().contains(name)]
        name != key implies middle.dom().contains(name) == settled.dom().contains(name) && (
    middle.dom().contains(name) ==> middle[name] == settled[name]) by {
        assert(at(middle, name) == at(middle, name));
        assert(all.contains(name) == names.contains(name));
        assert(at(map, name) == at(before.settings, name));
    }
    assert(at(middle, key) == at(map, key));
    assert(!settled.dom().contains(key));
    assert(middle.remove(key) =~= settled) by {
        assert forall|name: Seq<char>|
            #![trigger middle.remove(key).dom().contains(name)]
            middle.remove(key).dom().contains(name) == settled.dom().contains(name) && (
            settled.dom().contains(name) ==> middle.remove(key)[name] == settled[name]) by {
            assert(settled.dom().contains(name) ==> name != key);
        }
    }
    lemma_named_reads(denotes, settings_done, middle, key);
    assert(once(settings_done, key));
    if before.uninherit == after.uninherit {
        if middle.contains_key(key) {
            assert(middle[key] == map[key]);
        } else {
            assert(middle =~= settled);
        }
        middle
    } else if after.uninherit == Set::<Seq<char>>::empty() {
        if named(settings_done, key) {
            lemma_without_reads(denotes, settings_done, middle, key);
            middle.remove(key)
        } else {
            assert(middle =~= settled);
            middle
        }
    } else {
        let list = names_json(after.uninherit);
        lemma_names_read(denotes, after.uninherit);
        if named(settings_done, key) {
            lemma_with_value_reads(
                denotes,
                settings_done,
                middle,
                key,
                names_node(after.uninherit),
                list,
            );
        } else {
            lemma_with_member_reads(
                denotes,
                settings_done,
                middle,
                key,
                names_node(after.uninherit),
                list,
            );
        }
        let read = middle.insert(key, list);
        assert(read.remove(key) =~= settled);
        read
    }
}

/// A profile that is added reads as what it is.
pub proof fn lemma_delta_node_reads(
    denotes: spec_fn(Seq<char>, Num) -> bool,
    delta: DeltaView,
) -> (read: SettingsMap)
    requires
        writable(denotes, delta),
    ensures
        delta_node(delta) is Object,
        reads_members(denotes, delta_node(delta)->Object_0, read),
        decoded_delta(Json::Object(read)) == Some(delta),
{
    let key = uninherit_name();
    let members = delta_node(delta)->Object_0;
    let settings = setting_members(delta.settings);
    let names = listed(delta.settings.dom());
    lemma_finite_listed(delta.settings.dom());
    lemma_listed_members(settings, names, delta.settings.dom());
    lemma_value_node_reads(denotes, Json::Object(delta.settings));
    if delta.uninherit == Set::<Seq<char>>::empty() {
        assert(members =~= settings);
        assert(delta =~= DeltaView { uninherit: Set::empty(), settings: delta.settings });
        delta.settings
    } else {
        let list = names_json(delta.uninherit);
        lemma_names_read(denotes, delta.uninherit);
        let read = delta.settings.insert(key, list);
        let first = Member { name: key, value: names_node(delta.uninherit) };
        assert(members =~= seq![first] + settings);
        assert forall|i: int| 0 <= i < settings.len() implies (#[trigger] settings[i]).name != key by {
            assert(node_names(settings).contains(settings[i].name));
        }
        assert forall|i: int, j: int|
            #![trigger members[i], members[j]]
            0 <= i < j < members.len() implies members[i].name != members[j].name by {
            if i == 0 {
                assert(settings[j - 1].name != key);
            } else {
                assert(settings[i - 1].name != settings[j - 1].name);
            }
        }
        assert(read.dom() =~= node_names(members)) by {
            assert forall|name: Seq<char>|
                #![trigger node_names(members).contains(name)]
                node_names(members).contains(name) == read.dom().contains(name) by {
                if name == key {
                    assert(members[0].name == key);
                } else if delta.settings.dom().contains(name) {
                    assert(node_names(settings).contains(name));
                    let i = choose|i: int|
                        0 <= i < settings.len() && (#[trigger] settings[i]).name == name;
                    assert(members[i + 1].name == name);
                }
                if node_names(members).contains(name) {
                    let i = choose|i: int|
                        0 <= i < members.len() && (#[trigger] members[i]).name == name;
                    if i > 0 {
                        assert(settings[i - 1].name == name);
                        assert(node_names(settings).contains(name));
                    }
                }
            }
        }
        assert forall|i: int| 0 <= i < members.len() implies reads_as(
            denotes,
            (#[trigger] members[i]).value,
            read[members[i].name],
        ) by {
            if i > 0 {
                assert(members[i] == settings[i - 1]);
                assert(settings[i - 1].name != key);
                assert(is_last(settings, i - 1)) by {
                    assert forall|j: int| i - 1 < j < settings.len() implies (
                    #[trigger] settings[j]).name != settings[i - 1].name by {
                        assert(settings[i - 1].name != settings[j].name);
                    }
                }
                assert(reads_as(
                    denotes,
                    settings[i - 1].value,
                    delta.settings[settings[i - 1].name],
                ));
            }
        }
        assert(read.remove(key) =~= delta.settings);
        read
    }
}

/// The value of the first member of a name.
pub open spec fn first_value(members: Seq<Member>, name: Seq<char>) -> Option<Node> {
    if named(members, name) {
        Some(members[find(members, name)].value)
    } else {
        None
    }
}

proof fn lemma_first_value_with_value(
    members: Seq<Member>,
    name: Seq<char>,
    node: Node,
    other: Seq<char>,
)
    requires
        named(members, name),
    ensures
        first_value(with_value(members, name, node), other) == if other == name {
            Some(node)
        } else {
            first_value(members, other)
        },
{
    let after = with_value(members, name, node);
    lemma_find(members, name);
    lemma_find(members, other);
    lemma_find(after, other);
    let i = find(members, other);
    if other == name {
        crate::node::lemma_with_value(members, name, node);
    } else if named(members, other) {
        assert forall|j: int| 0 <= j < i implies (#[trigger] after[j]).name != other by {
            assert(members[j].name != other);
        }
        lemma_found_at(after, other, i);
    } else if named(after, other) {
        assert(members[find(after, other)].name != other);
    }
}

proof fn lemma_first_value_with_member(
    members: Seq<Member>,
    name: Seq<char>,
    node: Node,
    other: Seq<char>,
)
    requires
        other != name,
    ensures
        first_value(with_member(members, name, node), other) == first_value(members, other),
{
    let after = with_member(members, name, node);
    lemma_find(members, other);
    lemma_find(after, other);
    let i = find(members, other);
    if named(members, other) {
        assert forall|j: int| 0 <= j < i implies (#[trigger] after[j]).name != other by {
            assert(members[j].name != other);
        }
        lemma_found_at(after, other, i);
    } else if named(after, other) {
        assert(members[find(after, other)].name != other);
    }
}

proof fn lemma_first_value_without(members: Seq<Member>, name: Seq<char>, other: Seq<char>)
    requires
        named(members, name),
        other != name,
    ensures
        first_value(without(members, name), other) == first_value(members, other),
{
    let after = without(members, name);
    lemma_find(members, name);
    lemma_find(members, other);
    lemma_find(after, other);
    let gone = find(members, name);
    let i = find(members, other);
    if named(members, other) {
        let k = if i < gone { i } else { i - 1 };
        assert(after[k] == members[i]);
        assert forall|j: int| 0 <= j < k implies (#[trigger] after[j]).name != other by {
            let m = if j < gone { j } else { j + 1 };
            assert(after[j] == members[m]);
            assert(members[m].name != other);
        }
        lemma_found_at(after, other, k);
    } else if named(after, other) {
        let j = find(after, other);
        let m = if j < gone { j } else { j + 1 };
        assert(after[j] == members[m]);
        assert(members[m].name != other);
    }
}

/// Whether a profile changes.
pub open spec fn profile_changes(before: Option<DeltaView>, after: Option<DeltaView>) -> bool {
    match (before, after) {
        (Some(before), Some(after)) => before.uninherit != after.uninherit || exists|
            name: Seq<char>,
        |
            !same_option(#[trigger] at(before.settings, name), at(after.settings, name)),
        (None, None) => false,
        _ => true,
    }
}

/// Every profile that changes stands at most once among members, and so does in it
/// every setting that changes.
pub open spec fn profile_changes_stand_once(
    members: Seq<Member>,
    before: Map<Seq<char>, DeltaView>,
    after: Map<Seq<char>, DeltaView>,
) -> bool {
    forall|name: Seq<char>|
        profile_changes(at(before, name), at(after, name)) ==> #[trigger] once(members, name) && (
        first_value(members, name) matches Some(Node::Object(inner)) ==> before.contains_key(name)
            && after.contains_key(name) ==> changes_stand_once(
            inner,
            before[name].settings,
            after[name].settings,
        ))
}

/// What a profile is after it went from one state to another.
pub open spec fn settled_profile(before: Option<DeltaView>, after: DeltaView) -> DeltaView {
    match before {
        Some(before) => settled_delta(before, after),
        None => after,
    }
}

/// What is read of a profile is what it went to.
spec fn profile_read(
    read: Option<Json>,
    before: Option<DeltaView>,
    after: Option<DeltaView>,
) -> bool {
    match after {
        None => read is None,
        Some(after) => read is Some && decoded_delta(read->0) == Some(
            settled_profile(before, after),
        ),
    }
}

proof fn lemma_patched_row_quiet(
    members: Seq<Member>,
    settings: Seq<Seq<char>>,
    before: SettingsMap,
    after: SettingsMap,
)
    requires
        forall|name: Seq<char>| same_option(#[trigger] at(before, name), at(after, name)),
    ensures
        patched_row(members, settings, before, after) == members,
    decreases settings.len(),
{
    if settings.len() > 0 {
        lemma_patched_row_quiet(members, settings.drop_last(), before, after);
        assert(same_option(at(before, settings.last()), at(after, settings.last())));
    }
}

/// A profile that does not change stays what it was.
proof fn lemma_settled_quiet(before: DeltaView, after: DeltaView)
    requires
        !profile_changes(Some(before), Some(after)),
    ensures
        settled_delta(before, after) == before,
{
    assert(settled_settings(before.settings, after.settings) =~= before.settings) by {
        assert forall|name: Seq<char>|
            #![trigger before.settings.dom().contains(name)]
            settled_settings(before.settings, after.settings).dom().contains(name)
                == before.settings.dom().contains(name) && (before.settings.dom().contains(name)
                ==> settled_settings(before.settings, after.settings)[name]
                == before.settings[name]) by {
            assert(same_option(at(before.settings, name), at(after.settings, name)));
        }
    }
}

/// The first members of every name fit profiles.
spec fn firsts_fit(members: Seq<Member>) -> bool {
    forall|name: Seq<char>|
        #![trigger first_value(members, name)]
        first_value(members, name) is Some ==> delta_fits(first_value(members, name)->0)
}

proof fn lemma_patched_profile_reads(
    denotes: spec_fn(Seq<char>, Num) -> bool,
    members: Seq<Member>,
    map: SettingsMap,
    name: Seq<char>,
    before: Option<DeltaView>,
    after: Option<DeltaView>,
) -> (read: SettingsMap)
    requires
        reads_members(denotes, members, map),
        before is Some <==> map.contains_key(name),
        before is Some ==> decoded_delta(map[name]) == before,
        first_value(members, name) is Some ==> delta_fits(first_value(members, name)->0),
        profile_changes(before, after) ==> once(members, name),
        profile_changes(before, after) && before is Some && after is Some ==> (
        first_value(members, name) matches Some(Node::Object(inner)) ==> changes_stand_once(
            inner,
            before->0.settings,
            after->0.settings,
        )),
        after is Some ==> writable(denotes, after->0),
    ensures
        reads_members(denotes, patched_profile(members, name, before, after), read),
        forall|other: Seq<char>| #[trigger]
            once(members, other) ==> once(patched_profile(members, name, before, after), other),
        forall|other: Seq<char>|
            #![trigger first_value(members, other)]
            other != name ==> first_value(
                patched_profile(members, name, before, after),
                other,
            ) == first_value(members, other),
        forall|other: Seq<char>|
            #![trigger at(read, other)]
            other != name ==> at(read, other) == at(map, other),
        profile_read(at(read, name), before, after),
{
    lemma_named_reads(denotes, members, map, name);
    lemma_find(members, name);
    match (before, after) {
        (Some(_), None) => {
            lemma_without_reads(denotes, members, map, name);
            assert forall|other: Seq<char>|
                #![trigger first_value(members, other)]
                other != name implies first_value(without(members, name), other) == first_value(
                members,
                other,
            ) by {
                lemma_first_value_without(members, name, other);
            }
            map.remove(name)
        },
        (None, Some(delta)) => {
            let inner = lemma_delta_node_reads(denotes, delta);
            lemma_with_member_reads(
                denotes,
                members,
                map,
                name,
                delta_node(delta),
                Json::Object(inner),
            );
            assert forall|other: Seq<char>|
                #![trigger first_value(members, other)]
                other != name implies first_value(
                with_member(members, name, delta_node(delta)),
                other,
            ) == first_value(members, other) by {
                lemma_first_value_with_member(members, name, delta_node(delta), other);
            }
            map.insert(name, Json::Object(inner))
        },
        (Some(before), Some(after)) => {
            let place = find(members, name);
            let inner = members[place].value->Object_0;
            assert(first_value(members, name) == Some(Node::Object(inner)));
            assert(with_object(members, name) == members);
            let done = patched_delta(inner, before, after);
            assert forall|other: Seq<char>|
                #![trigger first_value(members, other)]
                other != name implies first_value(
                with_value(members, name, Node::Object(done)),
                other,
            ) == first_value(members, other) by {
                lemma_first_value_with_value(members, name, Node::Object(done), other);
            }
            if profile_changes(Some(before), Some(after)) {
                assert(map[name] is Object);
                lemma_delta_fits_once(Node::Object(inner));
                let read = lemma_patched_delta_reads(
                    denotes,
                    inner,
                    map[name]->Object_0,
                    before,
                    after,
                );
                lemma_with_value_reads(
                    denotes,
                    members,
                    map,
                    name,
                    Node::Object(done),
                    Json::Object(read),
                );
                map.insert(name, Json::Object(read))
            } else {
                lemma_patched_row_quiet(
                    inner,
                    listed(before.settings.dom().union(after.settings.dom())),
                    before.settings,
                    after.settings,
                );
                assert(done == inner);
                assert(with_value(members, name, Node::Object(inner)) =~= members);
                lemma_settled_quiet(before, after);
                map
            }
        },
        (None, None) => map,
    }
}

proof fn lemma_delta_fits_once(node: Node)
    requires
        delta_fits(node),
    ensures
        once(node->Object_0, uninherit_name()),
{
    let members = node->Object_0;
    assert forall|i: int, j: int|
        #![trigger members[i], members[j]]
        0 <= i < j < members.len() && members[i].name == uninherit_name() implies members[j].name
        != uninherit_name() by {
        assert(node->Object_0[i] == members[i]);
        assert(node->Object_0[j] == members[j]);
    }
}

/// The members of an object are those of the profiles.
spec fn decodes_to(map: SettingsMap, profiles: Map<Seq<char>, DeltaView>) -> bool {
    forall|name: Seq<char>|
        #![trigger at(map, name)]
        profiles.contains_key(name) == map.contains_key(name) && (map.contains_key(name)
            ==> decoded_delta(map[name]) == Some(profiles[name]))
}

/// Edited profiles read as what they went to.
proof fn lemma_patched_profiles_reads(
    denotes: spec_fn(Seq<char>, Num) -> bool,
    members: Seq<Member>,
    map: SettingsMap,
    names: Seq<Seq<char>>,
    before: Map<Seq<char>, DeltaView>,
    after: Map<Seq<char>, DeltaView>,
) -> (read: SettingsMap)
    requires
        reads_members(denotes, members, map),
        in_order(names),
        decodes_to(map, before),
        firsts_fit(members),
        profile_changes_stand_once(members, before, after),
        forall|name: Seq<char>| #[trigger] after.contains_key(name) ==> writable(denotes, after[name]),
    ensures
        reads_members(denotes, patched_profiles_row(members, names, before, after), read),
        forall|other: Seq<char>| #[trigger]
            once(members, other) ==> once(
                patched_profiles_row(members, names, before, after),
                other,
            ),
        forall|other: Seq<char>|
            #![trigger first_value(members, other)]
            !names.contains(other) ==> first_value(
                patched_profiles_row(members, names, before, after),
                other,
            ) == first_value(members, other),
        forall|name: Seq<char>|
            #![trigger at(read, name)]
            if names.contains(name) {
                profile_read(at(read, name), at(before, name), at(after, name))
            } else {
                at(read, name) == at(map, name)
            },
    decreases names.len(),
{
    if names.len() == 0 {
        map
    } else {
        let rest = names.drop_last();
        let key = names.last();
        assert(in_order(rest)) by {
            assert forall|i: int, j: int|
                #![trigger rest[i], rest[j]]
                0 <= i < j < rest.len() implies crate::text::precedes(rest[i], rest[j]) by {
                assert(crate::text::precedes(names[i], names[j]));
            }
        }
        assert(!rest.contains(key)) by {
            if rest.contains(key) {
                let i = choose|i: int| 0 <= i < rest.len() && rest[i] == key;
                assert(names[i] == key);
                lemma_precedes_asymmetric(names[i], names[names.len() - 1]);
            }
        }
        let sofar = patched_profiles_row(members, rest, before, after);
        let middle = lemma_patched_profiles_reads(denotes, members, map, rest, before, after);
        assert(at(middle, key) == at(map, key));
        assert(at(map, key) == at(map, key));
        assert(first_value(sofar, key) == first_value(members, key));
        if profile_changes(at(before, key), at(after, key)) {
            assert(once(members, key));
            assert(once(sofar, key));
        }
        let read = lemma_patched_profile_reads(
            denotes,
            sofar,
            middle,
            key,
            at(before, key),
            at(after, key),
        );
        assert forall|other: Seq<char>| #[trigger] once(members, other) implies once(
            patched_profiles_row(members, names, before, after),
            other,
        ) by {
            assert(once(sofar, other));
        }
        assert forall|other: Seq<char>|
            #![trigger first_value(members, other)]
            !names.contains(other) implies first_value(
            patched_profiles_row(members, names, before, after),
            other,
        ) == first_value(members, other) by {
            assert(names[names.len() - 1] == key);
            assert(!rest.contains(other)) by {
                if rest.contains(other) {
                    let i = choose|i: int| 0 <= i < rest.len() && rest[i] == other;
                    assert(names[i] == other);
                }
            }
            assert(first_value(sofar, other) == first_value(members, other));
        }
        assert forall|name: Seq<char>|
            #![trigger at(read, name)]
            if names.contains(name) {
                profile_read(at(read, name), at(before, name), at(after, name))
            } else {
                at(read, name) == at(map, name)
            } by {
            assert(names[names.len() - 1] == key);
            if name != key {
                assert(at(read, name) == at(middle, name));
                assert(rest.contains(name) == names.contains(name)) by {
                    if rest.contains(name) {
                        let i = choose|i: int| 0 <= i < rest.len() && rest[i] == name;
                        assert(names[i] == name);
                    }
                    if names.contains(name) {
                        let i = choose|i: int| 0 <= i < names.len() && names[i] == name;
                        assert(rest[i] == name);
                    }
                }
            }
        }
        read
    }
}

/// Every member that lists what is not inherited is a list of texts.
spec fn lists_texts(members: Seq<Member>) -> bool {
    forall|i: int|
        #![trigger members[i]]
        0 <= i < members.len() && members[i].name == uninherit_name() ==> is_text_list_node(
            members[i].value,
        )
}

proof fn lemma_patched_row_lists_texts(
    members: Seq<Member>,
    settings: Seq<Seq<char>>,
    before: SettingsMap,
    after: SettingsMap,
)
    requires
        lists_texts(members),
        !settings.contains(uninherit_name()),
    ensures
        lists_texts(patched_row(members, settings, before, after)),
    decreases settings.len(),
{
    if settings.len() > 0 {
        let rest = settings.drop_last();
        let key = settings.last();
        assert(settings[settings.len() - 1] == key);
        assert(!rest.contains(uninherit_name())) by {
            if rest.contains(uninherit_name()) {
                let i = choose|i: int| 0 <= i < rest.len() && rest[i] == uninherit_name();
                assert(settings[i] == uninherit_name());
            }
        }
        lemma_patched_row_lists_texts(members, rest, before, after);
        let sofar = patched_row(members, rest, before, after);
        lemma_find(sofar, key);
        let done = patched_row(members, settings, before, after);
        assert forall|i: int|
            #![trigger done[i]]
            0 <= i < done.len() && done[i].name == uninherit_name() implies is_text_list_node(
            done[i].value,
        ) by {
            if i < sofar.len() {
                assert(sofar[i] == sofar[i]);
            }
            if i + 1 < sofar.len() {
                assert(sofar[i + 1] == sofar[i + 1]);
            }
        }
    }
}

/// An edited profile fits a profile.
proof fn lemma_patched_delta_fits(members: Seq<Member>, before: DeltaView, after: DeltaView)
    requires
        delta_fits(Node::Object(members)),
        !before.settings.contains_key(uninherit_name()),
        !after.settings.contains_key(uninherit_name()),
        before.settings.dom().finite(),
        after.settings.dom().finite(),
        once(patched_settings(members, before.settings, after.settings), uninherit_name()),
    ensures
        delta_fits(Node::Object(patched_delta(members, before, after))),
{
    let key = uninherit_name();
    let all = before.settings.dom().union(after.settings.dom());
    let names = listed(all);
    lemma_finite_listed(all);
    assert(!names.contains(key)) by {
        if names.contains(key) {
            assert(all.contains(key));
        }
    }
    assert(lists_texts(members)) by {
        assert forall|i: int|
            #![trigger members[i]]
            0 <= i < members.len() && members[i].name == key implies is_text_list_node(
            members[i].value,
        ) by {
            assert(Node::Object(members)->Object_0[i] == members[i]);
        }
    }
    lemma_patched_row_lists_texts(members, names, before.settings, after.settings);
    let middle = patched_settings(members, before.settings, after.settings);
    lemma_find(middle, key);
    let done = patched_delta(members, before, after);
    let place = find(middle, key);
    assert forall|i: int|
        #![trigger done[i]]
        0 <= i < done.len() && done[i].name == key implies is_text_list_node(done[i].value) by {
        if i < middle.len() {
            assert(middle[i] == middle[i]);
        }
        if i + 1 < middle.len() {
            assert(middle[i + 1] == middle[i + 1]);
        }
    }
    assert forall|i: int, j: int|
        #![trigger done[i], done[j]]
        0 <= i < j < done.len() && done[i].name == key implies done[j].name != key by {
        if before.uninherit == after.uninherit {
            assert(middle[i].name == key);
        } else if after.uninherit == Set::<Seq<char>>::empty() {
            if named(middle, key) {
                let a = if i < place { i } else { i + 1 };
                let b = if j < place { j } else { j + 1 };
                assert(middle[a] == done[i]);
                assert(middle[b] == done[j]);
            } else {
                assert(middle[i].name != key);
            }
        } else if named(middle, key) {
            assert(middle[i].name == key);
            assert(middle[j].name == done[j].name);
        } else {
            assert(middle[i].name != key);
        }
    }
}

/// A profile that is added fits a profile.
pub proof fn lemma_delta_node_fits(denotes: spec_fn(Seq<char>, Num) -> bool, delta: DeltaView)
    requires
        writable(denotes, delta),
    ensures
        delta_fits(delta_node(delta)),
{
    let key = uninherit_name();
    let members = delta_node(delta)->Object_0;
    let settings = setting_members(delta.settings);
    let names = listed(delta.settings.dom());
    lemma_finite_listed(delta.settings.dom());
    lemma_listed_members(settings, names, delta.settings.dom());
    let first = if delta.uninherit == Set::<Seq<char>>::empty() {
        Seq::<Member>::empty()
    } else {
        seq![Member { name: key, value: names_node(delta.uninherit) }]
    };
    assert(members =~= first + settings);
    assert forall|i: int| 0 <= i < settings.len() implies (#[trigger] settings[i]).name != key by {
        assert(node_names(settings).contains(settings[i].name));
    }
    assert forall|i: int|
        #![trigger members[i]]
        0 <= i < members.len() && members[i].name == key implies i == 0 && first.len() == 1 by {
        if i >= first.len() {
            assert(settings[i - first.len()].name != key);
        }
    }
    assert forall|i: int|
        #![trigger delta_node(delta)->Object_0[i]]
        0 <= i < members.len() && members[i].name == key implies is_text_list_node(
        members[i].value,
    ) by {}
}

/// Every member fits a profile.
spec fn all_fit(members: Seq<Member>) -> bool {
    forall|i: int| 0 <= i < members.len() ==> delta_fits((#[trigger] members[i]).value)
}

proof fn lemma_all_fit(members: Seq<Member>)
    requires
        all_fit(members),
    ensures
        firsts_fit(members),
{
    assert forall|name: Seq<char>|
        #![trigger first_value(members, name)]
        first_value(members, name) is Some implies delta_fits(first_value(members, name)->0) by {
        lemma_find(members, name);
        assert(delta_fits(members[find(members, name)].value));
    }
}

/// Edited profiles fit profiles.
proof fn lemma_patched_profiles_fit(
    denotes: spec_fn(Seq<char>, Num) -> bool,
    members: Seq<Member>,
    names: Seq<Seq<char>>,
    before: Map<Seq<char>, DeltaView>,
    after: Map<Seq<char>, DeltaView>,
)
    requires
        all_fit(members),
        forall|name: Seq<char>| #[trigger]
            before.contains_key(name) ==> !before[name].settings.contains_key(uninherit_name())
                && before[name].settings.dom().finite(),
        forall|name: Seq<char>| #[trigger] after.contains_key(name) ==> writable(denotes, after[name]),
        profile_changes_stand_once(members, before, after),
        in_order(names),
    ensures
        all_fit(patched_profiles_row(members, names, before, after)),
        forall|other: Seq<char>|
            #![trigger first_value(members, other)]
            !names.contains(other) ==> first_value(
                patched_profiles_row(members, names, before, after),
                other,
            ) == first_value(members, other),
    decreases names.len(),
{
    if names.len() > 0 {
        let rest = names.drop_last();
        let key = names.last();
        assert(names[names.len() - 1] == key);
        assert(in_order(rest)) by {
            assert forall|i: int, j: int|
                #![trigger rest[i], rest[j]]
                0 <= i < j < rest.len() implies crate::text::precedes(rest[i], rest[j]) by {
                assert(crate::text::precedes(names[i], names[j]));
            }
        }
        assert(!rest.contains(key)) by {
            if rest.contains(key) {
                let i = choose|i: int| 0 <= i < rest.len() && rest[i] == key;
                assert(names[i] == key);
                lemma_precedes_asymmetric(names[i], names[names.len() - 1]);
            }
        }
        lemma_patched_profiles_fit(denotes, members, rest, before, after);
        let sofar = patched_profiles_row(members, rest, before, after);
        let done = patched_profiles_row(members, names, before, after);
        assert(first_value(sofar, key) == first_value(members, key));
        lemma_all_fit(sofar);
        lemma_find(sofar, key);
        match (at(before, key), at(after, key)) {
            (Some(_), None) => {
                if named(sofar, key) {
                    assert forall|i: int| 0 <= i < done.len() implies delta_fits(
                        (#[trigger] done[i]).value,
                    ) by {
                        let a = if i < find(sofar, key) { i } else { i + 1 };
                        assert(done[i] == sofar[a]);
                        assert(delta_fits(sofar[a].value));
                    }
                }
            },
            (None, Some(delta)) => {
                lemma_delta_node_fits(denotes, delta);
                assert forall|i: int| 0 <= i < done.len() implies delta_fits(
                    (#[trigger] done[i]).value,
                ) by {
                    if i < sofar.len() {
                        assert(delta_fits(sofar[i].value));
                    }
                }
            },
            (Some(b), Some(a)) => {
                let made = with_object(sofar, key);
                let place = find(made, key);
                lemma_made_fits(sofar, key);
                lemma_find(made, key);
                let inner = made[place].value->Object_0;
                assert(delta_fits(made[place].value));
                assert(once(
                    patched_settings(inner, b.settings, a.settings),
                    uninherit_name(),
                )) by {
                    lemma_delta_fits_once(Node::Object(inner));
                    let all = b.settings.dom().union(a.settings.dom());
                    lemma_finite_listed(all);
                    assert(!listed(all).contains(uninherit_name())) by {
                        if listed(all).contains(uninherit_name()) {
                            assert(all.contains(uninherit_name()));
                        }
                    }
                    lemma_patched_row_once(
                        inner,
                        listed(all),
                        b.settings,
                        a.settings,
                        uninherit_name(),
                    );
                }
                lemma_patched_delta_fits(inner, b, a);
                assert forall|i: int| 0 <= i < done.len() implies delta_fits(
                    (#[trigger] done[i]).value,
                ) by {
                    if i != place {
                        assert(done[i] == made[i]);
                        assert(delta_fits(made[i].value));
                    }
                }
            },
            (None, None) => {},
        }
        assert forall|other: Seq<char>|
            #![trigger first_value(members, other)]
            !names.contains(other) implies first_value(done, other) == first_value(
            members,
            other,
        ) by {
            assert(!rest.contains(other)) by {
                if rest.contains(other) {
                    let i = choose|i: int| 0 <= i < rest.len() && rest[i] == other;
                    assert(names[i] == other);
                }
            }
            assert(first_value(sofar, other) == first_value(members, other));
            assert(other != key);
            match (at(before, key), at(after, key)) {
                (Some(_), None) => {
                    if named(sofar, key) {
                        lemma_first_value_without(sofar, key, other);
                    }
                },
                (None, Some(delta)) => {
                    lemma_first_value_with_member(sofar, key, delta_node(delta), other);
                },
                (Some(b), Some(a)) => {
                    let made = with_object(sofar, key);
                    lemma_made_fits(sofar, key);
                    let inner = made[find(made, key)].value->Object_0;
                    lemma_first_value_with_value(
                        made,
                        key,
                        Node::Object(patched_delta(inner, b, a)),
                        other,
                    );
                    if !named(sofar, key) {
                        lemma_first_value_with_member(sofar, key, empty_object(), other);
                    }
                },
                (None, None) => {},
            }
        }
    }
}

/// Where the members fit profiles, one that is made an object does not change them but
/// by an empty profile.
proof fn lemma_made_fits(members: Seq<Member>, name: Seq<char>)
    requires
        all_fit(members),
    ensures
        all_fit(with_object(members, name)),
        named(with_object(members, name), name),
        named(members, name) ==> with_object(members, name) == members,
        !named(members, name) ==> with_object(members, name) == with_member(
            members,
            name,
            empty_object(),
        ),
        with_object(members, name)[find(with_object(members, name), name)].value is Object,
{
    let made = with_object(members, name);
    lemma_find(members, name);
    if named(members, name) {
        assert(delta_fits(members[find(members, name)].value));
    } else {
        assert forall|j: int| 0 <= j < members.len() implies (#[trigger] made[j]).name != name by {
            assert(members[j].name != name);
        }
        lemma_found_at(made, name, members.len() as int);
        assert forall|i: int| 0 <= i < made.len() implies delta_fits((#[trigger] made[i]).value) by {
            if i < members.len() {
                assert(delta_fits(members[i].value));
            }
        }
    }
}

/// A name that is not edited stands as often as before.
proof fn lemma_patched_row_once(
    members: Seq<Member>,
    settings: Seq<Seq<char>>,
    before: SettingsMap,
    after: SettingsMap,
    name: Seq<char>,
)
    requires
        once(members, name),
        !settings.contains(name),
    ensures
        once(patched_row(members, settings, before, after), name),
    decreases settings.len(),
{
    if settings.len() > 0 {
        let rest = settings.drop_last();
        let key = settings.last();
        assert(settings[settings.len() - 1] == key);
        assert(!rest.contains(name)) by {
            if rest.contains(name) {
                let i = choose|i: int| 0 <= i < rest.len() && rest[i] == name;
                assert(settings[i] == name);
            }
        }
        lemma_patched_row_once(members, rest, before, after, name);
        let sofar = patched_row(members, rest, before, after);
        let done = patched_row(members, settings, before, after);
        lemma_find(sofar, key);
        let place = find(sofar, key);
        assert forall|i: int, j: int|
            #![trigger done[i], done[j]]
            0 <= i < j < done.len() && done[i].name == name implies done[j].name != name by {
            if done.len() < sofar.len() {
                let a = if i < place { i } else { i + 1 };
                let b = if j < place { j } else { j + 1 };
                assert(done[i] == sofar[a]);
                assert(done[j] == sofar[b]);
            } else {
                if j < sofar.len() {
                    assert(sofar[i].name == done[i].name);
                    assert(sofar[j].name == done[j].name);
                }
            }
        }
    }
}

/// What a source is after it went from one state to another: its schema and its version
/// stay, and so does every value that did not change.
pub open spec fn settled_source(before: SourceView, after: SourceView) -> SourceView {
    SourceView {
        schema: before.schema,
        version: before.version,
        base: settled_settings(before.base, after.base),
        profiles: Map::new(
            |name: Seq<char>| after.profiles.contains_key(name),
            |name: Seq<char>| settled_profile(at(before.profiles, name), after.profiles[name]),
        ),
    }
}

/// Every setting and every profile that changes stands at most once where it stands in
/// the tree of a source.
pub open spec fn source_changes_stand_once(
    node: Node,
    before: SourceView,
    after: SourceView,
) -> bool {
    &&& first_value(node->Object_0, "base"@) matches Some(Node::Object(inner))
        ==> changes_stand_once(inner, before.base, after.base)
    &&& first_value(node->Object_0, "profiles"@) matches Some(Node::Object(inner))
        ==> profile_changes_stand_once(inner, before.profiles, after.profiles)
}

/// A source that can be written.
pub open spec fn writable_source(
    denotes: spec_fn(Seq<char>, Num) -> bool,
    source: SourceView,
) -> bool {
    &&& sayable(denotes, Json::Object(source.base))
    &&& source.profiles.dom().finite()
    &&& forall|name: Seq<char>| #[trigger]
        source.profiles.contains_key(name) ==> writable(denotes, source.profiles[name])
}

/// The state of the fields of a tree while it is edited: the members read as the map, and
/// no name stands twice.
spec fn fields_read(
    denotes: spec_fn(Seq<char>, Num) -> bool,
    members: Seq<Member>,
    map: SettingsMap,
) -> bool {
    reads_members(denotes, members, map) && names_distinct(members)
}

/// A field that is made an object reads as the object that it was, or as an empty one
/// where it was not there.
proof fn lemma_field_made(
    denotes: spec_fn(Seq<char>, Num) -> bool,
    members: Seq<Member>,
    map: SettingsMap,
    name: Seq<char>,
) -> (made_map: SettingsMap)
    requires
        fields_read(denotes, members, map),
        map.contains_key(name) ==> map[name] is Object,
    ensures
        fields_read(denotes, with_object(members, name), made_map),
        made_map == (if map.contains_key(name) {
            map
        } else {
            map.insert(name, Json::Object(Map::empty()))
        }),
        named(with_object(members, name), name),
        with_object(members, name)[find(with_object(members, name), name)].value is Object,
        first_value(members, name) is Some ==> first_value(with_object(members, name), name)
            == first_value(members, name),
        first_value(members, name) is None ==> first_value(with_object(members, name), name)
            == Some(empty_object()),
        reads_members(
            denotes,
            with_object(members, name)[find(with_object(members, name), name)].value->Object_0,
            made_map[name]->Object_0,
        ),
{
    let made = with_object(members, name);
    lemma_distinct_once(members, name);
    lemma_named_reads(denotes, members, map, name);
    lemma_find(members, name);
    if named(members, name) {
        map
    } else {
        let empty = Map::<Seq<char>, Json>::empty();
        let none = Seq::<Member>::empty();
        assert(empty.dom() =~= node_names(none));
        assert(reads_members(denotes, none, empty));
        lemma_with_member_reads(
            denotes,
            members,
            map,
            name,
            empty_object(),
            Json::Object(empty),
        );
        assert forall|j: int| 0 <= j < members.len() implies (#[trigger] made[j]).name != name by {
            assert(members[j].name != name);
        }
        lemma_found_at(made, name, members.len() as int);
        assert forall|i: int, j: int|
            #![trigger made[i], made[j]]
            0 <= i < j < made.len() implies made[i].name != made[j].name by {
            if j < members.len() {
                assert(members[i].name != members[j].name);
            }
        }
        map.insert(name, Json::Object(empty))
    }
}

proof fn lemma_distinct_once(members: Seq<Member>, name: Seq<char>)
    requires
        names_distinct(members),
    ensures
        once(members, name),
{
}

/// A field that is given a value reads as the value.
proof fn lemma_field_set(
    denotes: spec_fn(Seq<char>, Num) -> bool,
    members: Seq<Member>,
    map: SettingsMap,
    name: Seq<char>,
    node: Node,
    json: Json,
)
    requires
        fields_read(denotes, members, map),
        named(members, name),
        reads_as(denotes, node, json),
    ensures
        fields_read(denotes, with_value(members, name, node), map.insert(name, json)),
{
    lemma_distinct_once(members, name);
    lemma_find(members, name);
    lemma_with_value_reads(denotes, members, map, name, node, json);
    let after = with_value(members, name, node);
    assert forall|i: int, j: int|
        #![trigger after[i], after[j]]
        0 <= i < j < after.len() implies after[i].name != after[j].name by {
        assert(members[i].name != members[j].name);
    }
}

/// What is written is read back: when the tree of a text reads as a source, then the tree
/// that is edited to hold another source reads as that one. Left out are sources that
/// stand in a list instead of an object, names that stand twice where they change, and
/// profiles with a setting of the name `uninherit`. The schema and the version are not
/// written.
pub proof fn law_written_source_reads_back(
    denotes: spec_fn(Seq<char>, Num) -> bool,
    node: Node,
    json: Json,
    before: SourceView,
    after: SourceView,
) -> (read: Json)
    requires
        node is Object,
        source_fits(node),
        reads_as(denotes, node, json),
        decoded(json) == Some(before),
        writable_source(denotes, after),
        source_changes_stand_once(node, before, after),
    ensures
        reads_as(denotes, patched_tree(Some(node), before, after), read),
        decoded(read) == Some(settled_source(before, after)),
        source_fits(patched_tree(Some(node), before, after)),
{
    reveal_strlit("$schema");
    reveal_strlit("version");
    reveal_strlit("base");
    reveal_strlit("profiles");
    let base = "base"@;
    let profiles = "profiles"@;
    assert(base.len() == 4 && profiles.len() == 8);
    let members = node->Object_0;
    let map = json->Object_0;
    assert(root_members(Some(node)) == members);
    // The base.
    let base_map = lemma_field_made(denotes, members, map, base);
    let base_made = with_object(members, base);
    let base_inner = base_made[find(base_made, base)].value->Object_0;
    assert(base_map[base]->Object_0 =~= before.base);
    assert(changes_stand_once(base_inner, before.base, after.base)) by {
        if first_value(members, base) is None {
            assert(base_inner =~= Seq::<Member>::empty());
        }
    }
    lemma_patched_settings_reads(denotes, base_inner, before.base, after.base);
    let base_json = Json::Object(settled_settings(before.base, after.base));
    let base_node = Node::Object(patched_settings(base_inner, before.base, after.base));
    lemma_field_set(denotes, base_made, base_map, base, base_node, base_json);
    let base_done = with_value(base_made, base, base_node);
    let base_done_map = base_map.insert(base, base_json);
    // The profiles.
    assert(first_value(base_done, profiles) == first_value(members, profiles)) by {
        lemma_first_value_with_value(base_made, base, base_node, profiles);
        if !named(members, base) {
            lemma_first_value_with_member(members, base, empty_object(), profiles);
        }
    }
    let profiles_map = lemma_field_made(denotes, base_done, base_done_map, profiles);
    let profiles_made = with_object(base_done, profiles);
    let inner = profiles_made[find(profiles_made, profiles)].value->Object_0;
    let inner_map = profiles_map[profiles]->Object_0;
    assert(first_value(members, profiles) is None ==> inner =~= Seq::<Member>::empty());
    assert(all_fit(inner)) by {
        if first_value(members, profiles) is Some {
            lemma_find(members, profiles);
            let i = find(members, profiles);
            assert(members[i].name == profiles);
            assert(profiles_fit(members[i].value));
            assert(members[i].value == Node::Object(inner));
        }
    }
    lemma_all_fit(inner);
    assert(profile_changes_stand_once(inner, before.profiles, after.profiles)) by {
        if first_value(members, profiles) is None {
            assert forall|name: Seq<char>| #[trigger] once(inner, name) by {}
            assert forall|name: Seq<char>| #[trigger] first_value(inner, name) is None by {}
        }
    }
    assert(decodes_to(inner_map, before.profiles)) by {
        assert forall|name: Seq<char>|
            #![trigger at(inner_map, name)]
            before.profiles.contains_key(name) == inner_map.contains_key(name) && (
            inner_map.contains_key(name) ==> decoded_delta(inner_map[name]) == Some(
                before.profiles[name],
            )) by {
            if map.contains_key(profiles) {
                assert(inner_map == map[profiles]->Object_0);
                if inner_map.contains_key(name) {
                    assert(decoded_delta(map[profiles]->Object_0[name]) is Some);
                }
            }
        }
    }
    assert(before.profiles.dom().finite()) by {
        lemma_node_names_finite(inner);
        assert(before.profiles.dom() =~= inner_map.dom()) by {
            assert forall|name: Seq<char>|
                #![trigger before.profiles.dom().contains(name)]
                before.profiles.dom().contains(name) == inner_map.dom().contains(name) by {
                assert(at(inner_map, name) == at(inner_map, name));
            }
        }
    }
    let all = before.profiles.dom().union(after.profiles.dom());
    let names = listed(all);
    lemma_finite_listed(all);
    let inner_read = lemma_patched_profiles_reads(
        denotes,
        inner,
        inner_map,
        names,
        before.profiles,
        after.profiles,
    );
    let profiles_node = Node::Object(patched_profiles(inner, before.profiles, after.profiles));
    let profiles_json = Json::Object(inner_read);
    lemma_field_set(denotes, profiles_made, profiles_map, profiles, profiles_node, profiles_json);
    let read = Json::Object(profiles_map.insert(profiles, profiles_json));
    let result = patched_tree(Some(node), before, after);
    assert(result == Node::Object(with_value(profiles_made, profiles, profiles_node)));
    // What is read.
    let goal = settled_source(before, after);
    assert(decoded_profiles(Some(profiles_json)) == Some(goal.profiles)) by {
        assert forall|name: Seq<char>| inner_read.contains_key(name) implies decoded_delta(
            #[trigger] inner_read[name],
        ) is Some by {
            assert(at(inner_read, name) is Some);
            assert(at(inner_map, name) == at(inner_map, name));
            assert(all.contains(name) == names.contains(name));
        }
        assert(decoded_profiles(Some(profiles_json))->0 =~= goal.profiles) by {
            assert forall|name: Seq<char>|
                #![trigger goal.profiles.dom().contains(name)]
                inner_read.contains_key(name) == goal.profiles.dom().contains(name) && (
                inner_read.contains_key(name) ==> decoded_delta(inner_read[name]) == Some(
                    goal.profiles[name],
                )) by {
                assert(at(inner_read, name) == at(inner_read, name));
                assert(at(inner_map, name) == at(inner_map, name));
                assert(all.contains(name) == names.contains(name));
            }
        }
    }
    let read_map = read->Object_0;
    assert(read_map.dom().subset_of(field_names())) by {
        assert forall|name: Seq<char>| read_map.dom().contains(name) implies field_names().contains(
            name,
        ) by {
            if name != base && name != profiles {
                assert(map.dom().contains(name));
            }
        }
    }
    assert(at(read_map, "$schema"@) == at(map, "$schema"@));
    assert(at(read_map, "version"@) == at(map, "version"@));
    assert(at(read_map, base) == Some(base_json));
    assert(at(read_map, profiles) == Some(profiles_json));
    assert(decoded(read) == Some(goal));
    // What fits.
    assert forall|name: Seq<char>| #[trigger] before.profiles.contains_key(name) implies
        !before.profiles[name].settings.contains_key(uninherit_name())
            && before.profiles[name].settings.dom().finite() by {
        assert(at(inner_map, name) is Some);
        let found = inner_map[name]->Object_0;
        assert(node_names(inner).contains(name));
        let last = lemma_last_of(inner, name);
        assert(reads_as(denotes, inner[last].value, inner_map[name]));
        lemma_node_names_finite(inner[last].value->Object_0);
    }
    lemma_patched_profiles_fit(denotes, inner, names, before.profiles, after.profiles);
    let fields = result->Object_0;
    lemma_find(profiles_made, profiles);
    assert forall|i: int|
        0 <= i < fields.len() && (#[trigger] fields[i]).name == profiles implies profiles_fit(
        fields[i].value,
    ) by {
        let place = find(profiles_made, profiles);
        if i != place {
            assert(fields[i].name != fields[place].name);
        }
    }
    read
}

/// A source after it was written equals the one that was to be written, but for the
/// schema and the version.
pub proof fn law_written_source_is_same(before: SourceView, after: SourceView)
    ensures
        same_settings(settled_source(before, after).base, after.base),
        settled_source(before, after).profiles.dom() == after.profiles.dom(),
        forall|name: Seq<char>| #[trigger]
            after.profiles.contains_key(name) ==> {
                let written = settled_source(before, after).profiles[name];
                written.uninherit == after.profiles[name].uninherit && same_settings(
                    written.settings,
                    after.profiles[name].settings,
                )
            },
{
    lemma_settled_same(before.base, after.base);
    assert(settled_source(before, after).profiles.dom() =~= after.profiles.dom());
    assert forall|name: Seq<char>| #[trigger] after.profiles.contains_key(name) implies ({
        let written = settled_source(before, after).profiles[name];
        written.uninherit == after.profiles[name].uninherit && same_settings(
            written.settings,
            after.profiles[name].settings,
        )
    }) by {
        let settings = after.profiles[name].settings;
        match at(before.profiles, name) {
            Some(delta) => {
                lemma_settled_same(delta.settings, settings);
            },
            None => {
                assert forall|key: Seq<char>| settings.contains_key(key) implies same_json(
                    #[trigger] settings[key],
                    settings[key],
                ) by {
                    law_same_json_reflexive(settings[key]);
                }
            },
        }
    }
}

proof fn lemma_settled_same(before: SettingsMap, after: SettingsMap)
    ensures
        same_settings(settled_settings(before, after), after),
{
    let settled = settled_settings(before, after);
    assert(settled.dom() =~= after.dom());
    assert forall|name: Seq<char>| settled.contains_key(name) implies same_json(
        #[trigger] settled[name],
        after[name],
    ) by {
        law_same_json_reflexive(after[name]);
    }
}

/// No literal stands for two numbers.
pub open spec fn functional(denotes: spec_fn(Seq<char>, Num) -> bool) -> bool {
    forall|text: Seq<char>, a: Num, b: Num| #[trigger]
        denotes(text, a) && #[trigger] denotes(text, b) ==> a == b
}

/// A tree reads as one value.
pub proof fn lemma_reads_once(
    denotes: spec_fn(Seq<char>, Num) -> bool,
    node: Node,
    a: Json,
    b: Json,
)
    requires
        functional(denotes),
        reads_as(denotes, node, a),
        reads_as(denotes, node, b),
    ensures
        a == b,
    decreases node,
{
    match node {
        Node::List(nodes) => {
            let x = a->List_0;
            let y = b->List_0;
            assert forall|i: int| 0 <= i < nodes.len() implies x[i] == y[i] by {
                assert(reads_as(denotes, nodes[i], x[i]));
                assert(reads_as(denotes, nodes[i], y[i]));
                lemma_reads_once(denotes, nodes[i], x[i], y[i]);
            }
            assert(x =~= y);
        },
        Node::Object(members) => {
            let x = a->Object_0;
            let y = b->Object_0;
            assert forall|name: Seq<char>| #[trigger] x.contains_key(name) implies x[name]
                == y[name] by {
                assert(node_names(members).contains(name));
                let i = lemma_last_of(members, name);
                assert(reads_as(denotes, members[i].value, x[members[i].name]));
                assert(reads_as(denotes, members[i].value, y[members[i].name]));
                lemma_reads_once(denotes, members[i].value, x[name], y[name]);
            }
            assert(x =~= y);
        },
        _ => {},
    }
}

} // verus!
