//! Trees of JSON with comments: what a text says, member by member.

use vstd::prelude::*;

verus! {

/// A member of an object.
#[verifier::ext_equal]
pub struct Member {
    pub name: Seq<char>,
    pub value: Node,
}

/// What a text of JSON says. An object holds its members in the order of the
/// text, and a name may stand more than once.
#[verifier::ext_equal]
pub enum Node {
    Null,
    Bool(bool),
    Number(Seq<char>),
    Text(Seq<char>),
    List(Seq<Node>),
    Object(Seq<Member>),
}

/// An edit of a document, in the object that a path reaches.
#[verifier::ext_equal]
pub enum Edit {
    /// The value of the document gives way to an empty object.
    MakeRoot,
    /// The first member of a name gives way to an empty object, or one is put behind the
    /// others.
    MakeObject { path: Seq<Seq<char>>, name: Seq<char> },
    /// The first member of a name is given a value.
    SetMember { path: Seq<Seq<char>>, name: Seq<char>, value: Node },
    /// A member is put behind the others.
    AppendMember { path: Seq<Seq<char>>, name: Seq<char>, value: Node },
    /// The first member of a name is taken away.
    RemoveMember { path: Seq<Seq<char>>, name: Seq<char> },
}

/// Where the first member of a name stands: the number of the members, where
/// there is none.
pub open spec fn find(members: Seq<Member>, name: Seq<char>) -> int
    decreases members.len(),
{
    if members.len() == 0 || members.first().name == name {
        0
    } else {
        1 + find(members.drop_first(), name)
    }
}

/// Whether there is a member of a name.
pub open spec fn named(members: Seq<Member>, name: Seq<char>) -> bool {
    find(members, name) < members.len()
}

/// An object without members.
pub open spec fn empty_object() -> Node {
    Node::Object(Seq::empty())
}

/// The members after a value was given to the first member of a name.
pub open spec fn with_value(members: Seq<Member>, name: Seq<char>, value: Node) -> Seq<Member> {
    members.update(find(members, name), Member { name, value })
}

/// The members after a member was put behind them.
pub open spec fn with_member(members: Seq<Member>, name: Seq<char>, value: Node) -> Seq<Member> {
    members.push(Member { name, value })
}

/// The members after the first member of a name was taken away.
pub open spec fn without(members: Seq<Member>, name: Seq<char>) -> Seq<Member> {
    members.remove(find(members, name))
}

/// The members after it was made sure that the first member of a name is an
/// object: it is put behind them where there is none, and takes the place of what
/// is not an object.
pub open spec fn with_object(members: Seq<Member>, name: Seq<char>) -> Seq<Member> {
    if !named(members, name) {
        with_member(members, name, empty_object())
    } else if members[find(members, name)].value is Object {
        members
    } else {
        with_value(members, name, empty_object())
    }
}

/// The members of the object that is reached from a tree by the first members of
/// the names of a path.
pub open spec fn members_at(node: Node, path: Seq<Seq<char>>) -> Option<Seq<Member>>
    decreases path.len(),
{
    match node {
        Node::Object(members) => if path.len() == 0 {
            Some(members)
        } else if named(members, path.first()) {
            members_at(members[find(members, path.first())].value, path.drop_first())
        } else {
            None
        },
        _ => None,
    }
}

/// The tree with other members in the object that a path reaches.
pub open spec fn with_members_at(node: Node, path: Seq<Seq<char>>, inner: Seq<Member>) -> Node
    decreases path.len(),
{
    match node {
        Node::Object(members) => if path.len() == 0 {
            Node::Object(inner)
        } else if named(members, path.first()) {
            Node::Object(
                with_value(
                    members,
                    path.first(),
                    with_members_at(
                        members[find(members, path.first())].value,
                        path.drop_first(),
                        inner,
                    ),
                ),
            )
        } else {
            node
        },
        _ => node,
    }
}

/// The path to the object that an edit is made in.
pub open spec fn edit_path(edit: Edit) -> Seq<Seq<char>> {
    match edit {
        Edit::MakeRoot => Seq::empty(),
        Edit::MakeObject { path, name } => path,
        Edit::SetMember { path, name, value } => path,
        Edit::AppendMember { path, name, value } => path,
        Edit::RemoveMember { path, name } => path,
    }
}

/// The members of the object that an edit is made in after it.
pub open spec fn edited_members(members: Seq<Member>, edit: Edit) -> Seq<Member> {
    match edit {
        Edit::MakeRoot => Seq::empty(),
        Edit::MakeObject { path, name } => with_object(members, name),
        Edit::SetMember { path, name, value } => with_value(members, name, value),
        Edit::AppendMember { path, name, value } => with_member(members, name, value),
        Edit::RemoveMember { path, name } => without(members, name),
    }
}

/// The tree of a document after an edit.
pub open spec fn after_edit(tree: Option<Node>, edit: Edit) -> Option<Node> {
    if edit is MakeRoot {
        Some(empty_object())
    } else {
        match tree {
            Some(node) => match members_at(node, edit_path(edit)) {
                Some(members) => Some(
                    with_members_at(node, edit_path(edit), edited_members(members, edit)),
                ),
                None => tree,
            },
            None => tree,
        }
    }
}

/// The tree of a document after a row of edits.
pub open spec fn after_edits(tree: Option<Node>, edits: Seq<Edit>) -> Option<Node>
    decreases edits.len(),
{
    if edits.len() == 0 {
        tree
    } else {
        after_edit(after_edits(tree, edits.drop_last()), edits.last())
    }
}

/// Every literal of a number within a tree is as asked.
pub open spec fn all_literals(node: Node, asked: spec_fn(Seq<char>) -> bool) -> bool
    decreases node,
{
    match node {
        Node::Number(literal) => asked(literal),
        Node::List(items) => forall|i: int|
            0 <= i < items.len() ==> all_literals(#[trigger] items[i], asked),
        Node::Object(members) => forall|i: int|
            0 <= i < members.len() ==> all_literals((#[trigger] members[i]).value, asked),
        _ => true,
    }
}

/// At most so many lists and objects of a tree stand in each other.
pub open spec fn tree_within(node: Node, n: nat) -> bool
    decreases n,
{
    match node {
        Node::List(items) => n > 0 && forall|i: int|
            0 <= i < items.len() ==> tree_within(#[trigger] items[i], (n - 1) as nat),
        Node::Object(members) => n > 0 && forall|i: int|
            0 <= i < members.len() ==> tree_within((#[trigger] members[i]).value, (n - 1) as nat),
        _ => true,
    }
}

/// Every literal of a number that an edit puts into a document is as asked.
pub open spec fn edit_literals(edit: Edit, asked: spec_fn(Seq<char>) -> bool) -> bool {
    match edit {
        Edit::SetMember { path, name, value } => all_literals(value, asked),
        Edit::AppendMember { path, name, value } => all_literals(value, asked),
        _ => true,
    }
}

/// Every literal of a number that a row of edits puts into a document is as asked.
pub open spec fn edits_literals(edits: Seq<Edit>, asked: spec_fn(Seq<char>) -> bool) -> bool {
    forall|i: int| 0 <= i < edits.len() ==> edit_literals(#[trigger] edits[i], asked)
}

/// The texts of a row of strings.
pub open spec fn texts(strings: Seq<String>) -> Seq<Seq<char>> {
    Seq::new(strings.len(), |i: int| strings[i]@)
}

/// The first member of a name has the name, and none before it has.
pub proof fn lemma_find(members: Seq<Member>, name: Seq<char>)
    ensures
        0 <= find(members, name) <= members.len(),
        named(members, name) ==> members[find(members, name)].name == name,
        forall|i: int| 0 <= i < find(members, name) ==> (#[trigger] members[i]).name != name,
    decreases members.len(),
{
    if members.len() > 0 && members.first().name != name {
        let rest = members.drop_first();
        lemma_find(rest, name);
        assert forall|i: int| 0 <= i < find(members, name) implies (#[trigger] members[i]).name
            != name by {
            if i > 0 {
                assert(members[i] == rest[i - 1]);
            }
        }
    }
}

/// A place is where the first member of a name stands when it has the name and none
/// before it has.
pub proof fn lemma_found_at(members: Seq<Member>, name: Seq<char>, i: int)
    requires
        0 <= i < members.len(),
        members[i].name == name,
        forall|j: int| 0 <= j < i ==> (#[trigger] members[j]).name != name,
    ensures
        find(members, name) == i,
{
    lemma_find(members, name);
    let found = find(members, name);
    if found < i {
        assert(members[found].name != name);
    }
    if i < found {
        assert(members[i].name != name);
    }
}

/// Giving a value to a member leaves it where it is.
pub proof fn lemma_with_value(members: Seq<Member>, name: Seq<char>, value: Node)
    requires
        named(members, name),
    ensures
        find(with_value(members, name, value), name) == find(members, name),
        named(with_value(members, name, value), name),
        with_value(members, name, value)[find(members, name)].value == value,
{
    lemma_find(members, name);
    let after = with_value(members, name, value);
    let i = find(members, name);
    assert forall|j: int| 0 <= j < i implies (#[trigger] after[j]).name != name by {
        assert(members[j].name != name);
    }
    lemma_found_at(after, name, i);
}

/// What is put at the end of a path is found there, and takes the place of what was put
/// there before.
pub proof fn lemma_with_members_at(
    node: Node,
    path: Seq<Seq<char>>,
    inner: Seq<Member>,
    other: Seq<Member>,
)
    requires
        members_at(node, path) is Some,
    ensures
        members_at(with_members_at(node, path, inner), path) == Some(inner),
        with_members_at(with_members_at(node, path, inner), path, other) == with_members_at(
            node,
            path,
            other,
        ),
        with_members_at(node, path, members_at(node, path)->0) == node,
    decreases path.len(),
{
    let members = node->Object_0;
    if path.len() > 0 {
        let name = path.first();
        let i = find(members, name);
        let below = members[i].value;
        lemma_find(members, name);
        lemma_with_members_at(below, path.drop_first(), inner, other);
        lemma_with_value(members, name, with_members_at(below, path.drop_first(), inner));
        let once = with_value(members, name, with_members_at(below, path.drop_first(), inner));
        assert(with_value(once, name, with_members_at(below, path.drop_first(), other))
            =~= with_value(members, name, with_members_at(below, path.drop_first(), other)));
        assert(with_value(members, name, below) =~= members);
    }
}

/// A path that goes one name further reaches the object that the member of the name
/// holds.
pub proof fn lemma_path_further(
    node: Node,
    path: Seq<Seq<char>>,
    name: Seq<char>,
    inner: Seq<Member>,
)
    requires
        members_at(node, path) is Some,
        named(members_at(node, path)->0, name),
        members_at(node, path)->0[find(members_at(node, path)->0, name)].value is Object,
    ensures
        members_at(node, path.push(name)) == Some(
            members_at(node, path)->0[find(members_at(node, path)->0, name)].value->Object_0,
        ),
        with_members_at(node, path.push(name), inner) == with_members_at(
            node,
            path,
            with_value(members_at(node, path)->0, name, Node::Object(inner)),
        ),
    decreases path.len(),
{
    reveal_with_fuel(members_at, 2);
    reveal_with_fuel(with_members_at, 2);
    let members = node->Object_0;
    let longer = path.push(name);
    if path.len() == 0 {
        assert(longer.drop_first() =~= path);
        assert(longer.first() == name);
    } else {
        assert(longer.first() == path.first());
        assert(longer.drop_first() =~= path.drop_first().push(name));
        lemma_path_further(
            members[find(members, path.first())].value,
            path.drop_first(),
            name,
            inner,
        );
    }
}

} // verus!
