//! Maps and sets of names, kept in the order of the names.

use vstd::prelude::*;
use crate::text::{
    compare_text, lemma_precedes_asymmetric, lemma_precedes_total, lemma_precedes_transitive,
    precedes, Order,
};

verus! {

/// A map from names to values whose entries stand in the order of their names.
#[derive(Debug, PartialEq)]
pub struct Table<T> {
    entries: Vec<(String, T)>,
}

/// A set of names, in their order.
#[derive(Debug, PartialEq)]
pub struct Names {
    table: Table<()>,
}

/// The names stand in their order, each once.
pub open spec fn in_order(names: Seq<Seq<char>>) -> bool {
    forall|i: int, j: int|
        #![trigger names[i], names[j]]
        0 <= i < j < names.len() ==> precedes(names[i], names[j])
}

/// `names` lists the members of `set` in their order.
pub open spec fn lists(names: Seq<Seq<char>>, set: Set<Seq<char>>) -> bool {
    &&& in_order(names)
    &&& forall|name: Seq<char>| #[trigger] set.contains(name) <==> names.contains(name)
}

/// The first `n` of `names`.
pub open spec fn first_of(names: Seq<Seq<char>>, n: int) -> Set<Seq<char>> {
    Set::new(|name: Seq<char>| exists|i: int| 0 <= i < n && i < names.len() && names[i] == name)
}

/// One more of the names that a list begins with: it was not among them before.
pub proof fn lemma_first_of(names: Seq<Seq<char>>, n: int)
    requires
        in_order(names),
        0 <= n < names.len(),
    ensures
        first_of(names, n + 1) == first_of(names, n).insert(names[n]),
        !first_of(names, n).contains(names[n]),
{
    assert(first_of(names, n + 1) =~= first_of(names, n).insert(names[n])) by {
        assert forall|name: Seq<char>| first_of(names, n + 1).contains(name) implies first_of(
            names,
            n,
        ).insert(names[n]).contains(name) by {
            let i = choose|i: int| 0 <= i < n + 1 && i < names.len() && names[i] == name;
            assert(names[i] == name);
        }
        assert forall|name: Seq<char>| first_of(names, n).insert(names[n]).contains(name) implies first_of(
            names,
            n + 1,
        ).contains(name) by {
            if name != names[n] {
                let i = choose|i: int| 0 <= i < n && i < names.len() && names[i] == name;
                assert(names[i] == name);
            }
        }
    }
    if first_of(names, n).contains(names[n]) {
        let i = choose|i: int| 0 <= i < n && i < names.len() && names[i] == names[n];
        lemma_precedes_asymmetric(names[i], names[n]);
    }
}

/// The whole of a list is the set that it lists; none of it is the empty set.
pub proof fn lemma_first_of_ends(names: Seq<Seq<char>>, set: Set<Seq<char>>)
    requires
        lists(names, set),
    ensures
        first_of(names, 0) == Set::<Seq<char>>::empty(),
        first_of(names, names.len() as int) == set,
{
    assert(first_of(names, 0) =~= Set::<Seq<char>>::empty());
    assert(first_of(names, names.len() as int) =~= set) by {
        assert forall|name: Seq<char>| set.contains(name) implies first_of(
            names,
            names.len() as int,
        ).contains(name) by {
            assert(names.contains(name));
            let i = choose|i: int| 0 <= i < names.len() && names[i] == name;
            assert(names[i] == name);
        }
        assert forall|name: Seq<char>|
            first_of(names, names.len() as int).contains(name) implies set.contains(name) by {
            let i = choose|i: int| 0 <= i < names.len() && i < names.len() && names[i] == name;
            assert(names.contains(names[i]));
        }
    }
}

/// A set has only one list.
pub proof fn lemma_lists_unique(a: Seq<Seq<char>>, b: Seq<Seq<char>>, set: Set<Seq<char>>)
    requires
        lists(a, set),
        lists(b, set),
    ensures
        a == b,
    decreases a.len(),
{
    if a.len() == 0 {
        if b.len() > 0 {
            assert(b.contains(b[0]));
            assert(set.contains(b[0]));
            assert(a.contains(b[0]));
        }
        assert(a =~= b);
    } else {
        assert(a.contains(a.last()));
        assert(set.contains(a.last()));
        assert(b.contains(a.last()));
        assert(b.contains(b.last()));
        assert(set.contains(b.last()));
        assert(a.contains(b.last()));
        let i = choose|i: int| 0 <= i < b.len() && b[i] == a.last();
        let j = choose|j: int| 0 <= j < a.len() && a[j] == b.last();
        if a.last() != b.last() {
            assert(precedes(b[i], b[b.len() - 1]));
            assert(precedes(a[j], a[a.len() - 1]));
            lemma_precedes_asymmetric(a.last(), b.last());
        }
        let rest = set.remove(a.last());
        lemma_lists_without_last(a, set);
        lemma_lists_without_last(b, set);
        lemma_lists_unique(a.drop_last(), b.drop_last(), rest);
        assert(a =~= a.drop_last().push(a.last()));
        assert(b =~= b.drop_last().push(b.last()));
    }
}

proof fn lemma_lists_without_last(names: Seq<Seq<char>>, set: Set<Seq<char>>)
    requires
        lists(names, set),
        names.len() > 0,
    ensures
        lists(names.drop_last(), set.remove(names.last())),
{
    let shorter = names.drop_last();
    assert forall|name: Seq<char>| #[trigger]
        set.remove(names.last()).contains(name) <==> shorter.contains(name) by {
        if set.remove(names.last()).contains(name) {
            let i = choose|i: int| 0 <= i < names.len() && names[i] == name;
            assert(shorter[i] == name);
        }
        if shorter.contains(name) {
            let i = choose|i: int| 0 <= i < shorter.len() && shorter[i] == name;
            assert(names.contains(names[i]));
            lemma_precedes_asymmetric(names[i], names.last());
        }
    }
    assert forall|i: int, j: int|
        #![trigger shorter[i], shorter[j]]
        0 <= i < j < shorter.len() implies precedes(shorter[i], shorter[j]) by {
        assert(precedes(names[i], names[j]));
    }
}

/// The members of a finite set of names in their order.
pub open spec fn listed(set: Set<Seq<char>>) -> Seq<Seq<char>> {
    choose|names: Seq<Seq<char>>| lists(names, set)
}

/// A list of a set is the list of the set.
pub proof fn lemma_listed(names: Seq<Seq<char>>, set: Set<Seq<char>>)
    requires
        lists(names, set),
    ensures
        listed(set) == names,
{
    lemma_lists_unique(names, listed(set), set);
}

/// A finite set has a list.
pub proof fn lemma_finite_listed(set: Set<Seq<char>>)
    requires
        set.finite(),
    ensures
        lists(listed(set), set),
    decreases set.len(),
{
    if set.len() == 0 {
        let names = Seq::<Seq<char>>::empty();
        assert(set =~= Set::<Seq<char>>::empty());
        assert(lists(names, set));
    } else {
        let name = set.choose();
        let rest = set.remove(name);
        lemma_finite_listed(rest);
        let names = listed(rest);
        let at = lemma_place_among(names, name, rest);
        let more = names.insert(at, name);
        assert forall|i: int, j: int|
            #![trigger more[i], more[j]]
            0 <= i < j < more.len() implies precedes(more[i], more[j]) by {
            let a = if i < at { i } else { i - 1 };
            let b = if j < at { j } else { j - 1 };
            if i != at && j != at {
                assert(precedes(names[a], names[b]));
            } else if i == at {
                assert(precedes(name, names[b]));
            } else {
                assert(precedes(names[a], name));
            }
        }
        assert forall|other: Seq<char>| #[trigger] set.contains(other) <==> more.contains(other) by {
            if set.contains(other) {
                if other == name {
                    assert(more[at] == other);
                } else {
                    assert(rest.contains(other));
                    let i = choose|i: int| 0 <= i < names.len() && names[i] == other;
                    let k = if i < at { i } else { i + 1 };
                    assert(more[k] == other);
                }
            }
            if more.contains(other) {
                let k = choose|k: int| 0 <= k < more.len() && more[k] == other;
                if k != at {
                    let i = if k < at { k } else { k - 1 };
                    assert(names.contains(names[i]));
                    assert(rest.contains(other));
                }
            }
        }
        assert(lists(more, set));
    }
}

/// Where a name that a list does not hold belongs in it.
proof fn lemma_place_among(names: Seq<Seq<char>>, name: Seq<char>, set: Set<Seq<char>>) -> (at: int)
    requires
        lists(names, set),
        !set.contains(name),
    ensures
        0 <= at <= names.len(),
        forall|i: int| 0 <= i < at ==> precedes(#[trigger] names[i], name),
        forall|i: int| at <= i < names.len() ==> precedes(name, #[trigger] names[i]),
    decreases names.len(),
{
    if names.len() == 0 {
        0
    } else {
        assert(names.contains(names.last()));
        assert(set.contains(names.last()));
        lemma_precedes_total(names.last(), name);
        if precedes(names.last(), name) {
            assert forall|i: int| 0 <= i < names.len() implies precedes(#[trigger] names[i], name) by {
                if i < names.len() - 1 {
                    lemma_precedes_transitive(names[i], names.last(), name);
                }
            }
            names.len() as int
        } else {
            lemma_lists_without_last(names, set);
            let shorter = names.drop_last();
            let at = lemma_place_among(shorter, name, set.remove(names.last()));
            assert forall|i: int| 0 <= i < at implies precedes(#[trigger] names[i], name) by {
                assert(shorter[i] == names[i]);
            }
            assert forall|i: int| at <= i < names.len() implies precedes(name, #[trigger] names[i]) by {
                if i < shorter.len() {
                    assert(shorter[i] == names[i]);
                }
            }
            at
        }
    }
}

spec fn name_at<T>(entries: Seq<(String, T)>, i: int, name: Seq<char>) -> bool {
    0 <= i < entries.len() && entries[i].0@ == name
}

spec fn names_of<T>(entries: Seq<(String, T)>) -> Seq<Seq<char>> {
    Seq::new(entries.len(), |i: int| entries[i].0@)
}

spec fn map_of<T>(entries: Seq<(String, T)>) -> Map<Seq<char>, T> {
    Map::new(
        |name: Seq<char>| exists|i: int| name_at(entries, i, name),
        |name: Seq<char>| entries[choose|i: int| name_at(entries, i, name)].1,
    )
}

proof fn lemma_only_place<T>(entries: Seq<(String, T)>, i: int, name: Seq<char>)
    requires
        in_order(names_of(entries)),
        name_at(entries, i, name),
    ensures
        map_of(entries).contains_key(name),
        map_of(entries)[name] == entries[i].1,
        forall|j: int| name_at(entries, j, name) ==> j == i,
{
    assert forall|j: int| name_at(entries, j, name) implies j == i by {
        assert(names_of(entries)[i] == names_of(entries)[j]);
        if i < j {
            lemma_precedes_asymmetric(names_of(entries)[i], names_of(entries)[j]);
        } else if j < i {
            lemma_precedes_asymmetric(names_of(entries)[j], names_of(entries)[i]);
        }
    }
}

proof fn lemma_entries_listed<T>(entries: Seq<(String, T)>)
    requires
        in_order(names_of(entries)),
    ensures
        lists(names_of(entries), map_of(entries).dom()),
{
    assert forall|name: Seq<char>| #[trigger]
        map_of(entries).dom().contains(name) <==> names_of(entries).contains(name) by {
        if map_of(entries).dom().contains(name) {
            let i = choose|i: int| name_at(entries, i, name);
            assert(names_of(entries)[i] == name);
        }
        if names_of(entries).contains(name) {
            let i = choose|i: int| 0 <= i < entries.len() && names_of(entries)[i] == name;
            assert(name_at(entries, i, name));
        }
    }
}

proof fn lemma_inserted<T>(entries: Seq<(String, T)>, at: int, entry: (String, T))
    requires
        in_order(names_of(entries)),
        0 <= at <= entries.len(),
        forall|i: int| 0 <= i < at ==> precedes(#[trigger] names_of(entries)[i], entry.0@),
        forall|i: int|
            at <= i < entries.len() ==> precedes(entry.0@, #[trigger] names_of(entries)[i]),
    ensures
        in_order(names_of(entries.insert(at, entry))),
        map_of(entries.insert(at, entry)) == map_of(entries).insert(entry.0@, entry.1),
{
    let longer = entries.insert(at, entry);
    assert(names_of(longer) =~= names_of(entries).insert(at, entry.0@));
    assert forall|i: int, j: int|
        #![trigger names_of(longer)[i], names_of(longer)[j]]
        0 <= i < j < longer.len() implies precedes(names_of(longer)[i], names_of(longer)[j]) by {
        let a = if i < at { i } else { i - 1 };
        let b = if j < at { j } else { j - 1 };
        if i != at && j != at {
            assert(precedes(names_of(entries)[a], names_of(entries)[b]));
        } else if i == at {
            assert(precedes(entry.0@, names_of(entries)[b]));
        } else {
            assert(precedes(names_of(entries)[a], entry.0@));
        }
    }
    assert(map_of(longer) =~= map_of(entries).insert(entry.0@, entry.1)) by {
        assert forall|name: Seq<char>|
            #![trigger map_of(longer).dom().contains(name)]
            map_of(longer).contains_key(name) == map_of(entries).insert(
                entry.0@,
                entry.1,
            ).contains_key(name) && (map_of(longer).contains_key(name) ==> map_of(longer)[name]
                == map_of(entries).insert(entry.0@, entry.1)[name]) by {
            if name == entry.0@ {
                assert(name_at(longer, at, name));
                lemma_only_place(longer, at, name);
            } else {
                if map_of(entries).contains_key(name) {
                    let i = choose|i: int| name_at(entries, i, name);
                    lemma_only_place(entries, i, name);
                    let k = if i < at { i } else { i + 1 };
                    assert(name_at(longer, k, name));
                    lemma_only_place(longer, k, name);
                }
                if map_of(longer).contains_key(name) {
                    let k = choose|k: int| name_at(longer, k, name);
                    let i = if k < at { k } else { k - 1 };
                    assert(name_at(entries, i, name));
                }
            }
        }
    }
}

proof fn lemma_replaced<T>(entries: Seq<(String, T)>, at: int, entry: (String, T))
    requires
        in_order(names_of(entries)),
        name_at(entries, at, entry.0@),
    ensures
        in_order(names_of(entries.update(at, entry))),
        map_of(entries.update(at, entry)) == map_of(entries).insert(entry.0@, entry.1),
{
    let other = entries.update(at, entry);
    assert(names_of(other) =~= names_of(entries));
    assert(map_of(other) =~= map_of(entries).insert(entry.0@, entry.1)) by {
        assert forall|name: Seq<char>|
            #![trigger map_of(other).dom().contains(name)]
            map_of(other).contains_key(name) == map_of(entries).insert(
                entry.0@,
                entry.1,
            ).contains_key(name) && (map_of(other).contains_key(name) ==> map_of(other)[name]
                == map_of(entries).insert(entry.0@, entry.1)[name]) by {
            if name == entry.0@ {
                assert(name_at(other, at, name));
                lemma_only_place(other, at, name);
            } else {
                if map_of(entries).contains_key(name) {
                    let i = choose|i: int| name_at(entries, i, name);
                    lemma_only_place(entries, i, name);
                    assert(name_at(other, i, name));
                    lemma_only_place(other, i, name);
                }
                if map_of(other).contains_key(name) {
                    let i = choose|i: int| name_at(other, i, name);
                    assert(name_at(entries, i, name));
                }
            }
        }
    }
}

proof fn lemma_removed<T>(entries: Seq<(String, T)>, at: int)
    requires
        in_order(names_of(entries)),
        0 <= at < entries.len(),
    ensures
        in_order(names_of(entries.remove(at))),
        map_of(entries.remove(at)) == map_of(entries).remove(entries[at].0@),
{
    let shorter = entries.remove(at);
    let gone = entries[at].0@;
    lemma_only_place(entries, at, gone);
    assert forall|i: int, j: int|
        #![trigger names_of(shorter)[i], names_of(shorter)[j]]
        0 <= i < j < shorter.len() implies precedes(names_of(shorter)[i], names_of(shorter)[j]) by {
        let a = if i < at { i } else { i + 1 };
        let b = if j < at { j } else { j + 1 };
        assert(precedes(names_of(entries)[a], names_of(entries)[b]));
    }
    assert(map_of(shorter) =~= map_of(entries).remove(gone)) by {
        assert forall|name: Seq<char>|
            #![trigger map_of(shorter).dom().contains(name)]
            map_of(shorter).contains_key(name) == map_of(entries).remove(gone).contains_key(name)
                && (map_of(shorter).contains_key(name) ==> map_of(shorter)[name] == map_of(
                entries,
            ).remove(gone)[name]) by {
            if map_of(entries).remove(gone).contains_key(name) {
                let i = choose|i: int| name_at(entries, i, name);
                lemma_only_place(entries, i, name);
                let k = if i < at { i } else { i - 1 };
                assert(name_at(shorter, k, name));
                lemma_only_place(shorter, k, name);
            }
            if map_of(shorter).contains_key(name) {
                let k = choose|k: int| name_at(shorter, k, name);
                let i = if k < at { k } else { k + 1 };
                assert(name_at(entries, i, name));
            }
        }
    }
}

impl<T> Table<T> {
    #[verifier::type_invariant]
    spec fn ordered(self) -> bool {
        in_order(names_of(self.entries@))
    }

    /// The names of the table in their order.
    pub closed spec fn names(self) -> Seq<Seq<char>> {
        names_of(self.entries@)
    }

    /// A table without entries.
    pub fn new() -> (table: Self)
        ensures
            table@ == Map::<Seq<char>, T>::empty(),
            table.names().len() == 0,
    {
        let table = Table { entries: Vec::new() };
        assert(table@ =~= Map::<Seq<char>, T>::empty());
        table
    }

    /// The number of entries.
    pub fn len(&self) -> (len: usize)
        ensures
            len == self.names().len(),
            lists(self.names(), self@.dom()),
            listed(self@.dom()) == self.names(),
    {
        proof {
            use_type_invariant(self);
            lemma_entries_listed(self.entries@);
            lemma_listed(self.names(), self@.dom());
        }
        self.entries.len()
    }

    /// Whether the table has no entries.
    pub fn is_empty(&self) -> (empty: bool)
        ensures
            empty == (self@.dom() == Set::<Seq<char>>::empty()),
    {
        let empty = self.len() == 0;
        proof {
            if empty {
                assert(self@.dom() =~= Set::<Seq<char>>::empty());
            } else {
                assert(self.names().contains(self.names()[0]));
                assert(self@.dom().contains(self.names()[0]));
            }
        }
        empty
    }

    /// The name of the entry at a place.
    pub fn name(&self, at: usize) -> (name: &str)
        requires
            at < self.names().len(),
        ensures
            name@ == self.names()[at as int],
            self@.contains_key(name@),
    {
        proof {
            use_type_invariant(self);
            assert(name_at(self.entries@, at as int, self.names()[at as int]));
        }
        self.entries[at].0.as_str()
    }

    /// The value of the entry at a place.
    pub fn value(&self, at: usize) -> (value: &T)
        requires
            at < self.names().len(),
        ensures
            self@.contains_key(self.names()[at as int]),
            *value == self@[self.names()[at as int]],
    {
        proof {
            use_type_invariant(self);
            lemma_only_place(self.entries@, at as int, self.names()[at as int]);
        }
        &self.entries[at].1
    }

    /// The first place whose name does not come before `name`, and whether it
    /// is that name's.
    fn place(&self, name: &str) -> (place: (usize, bool))
        ensures
            place.0 <= self.entries@.len(),
            place.1 ==> name_at(self.entries@, place.0 as int, name@),
            place.1 == self@.contains_key(name@),
            forall|i: int|
                0 <= i < place.0 ==> precedes(#[trigger] names_of(self.entries@)[i], name@),
            !place.1 ==> forall|i: int|
                place.0 <= i < self.entries@.len() ==> precedes(
                    name@,
                    #[trigger] names_of(self.entries@)[i],
                ),
    {
        proof {
            use_type_invariant(self);
        }
        let mut at: usize = 0;
        while at < self.entries.len()
            invariant
                at <= self.entries@.len(),
                in_order(names_of(self.entries@)),
                forall|i: int|
                    0 <= i < at ==> precedes(#[trigger] names_of(self.entries@)[i], name@),
            decreases self.entries@.len() - at,
        {
            match compare_text(self.entries[at].0.as_str(), name) {
                Order::Before => {
                    at += 1;
                },
                Order::Same => {
                    assert(name_at(self.entries@, at as int, name@));
                    return (at, true);
                },
                Order::After => {
                    proof {
                        assert forall|i: int| at <= i < self.entries@.len() implies precedes(
                            name@,
                            #[trigger] names_of(self.entries@)[i],
                        ) by {
                            if i > at {
                                lemma_precedes_transitive(
                                    name@,
                                    names_of(self.entries@)[at as int],
                                    names_of(self.entries@)[i],
                                );
                            }
                        }
                        self.lemma_absent(at as int, name@);
                    }
                    return (at, false);
                },
            }
        }
        proof {
            self.lemma_absent(at as int, name@);
        }
        (at, false)
    }

    proof fn lemma_absent(&self, at: int, name: Seq<char>)
        requires
            0 <= at <= self.entries@.len(),
            forall|i: int| 0 <= i < at ==> precedes(#[trigger] names_of(self.entries@)[i], name),
            forall|i: int|
                at <= i < self.entries@.len() ==> precedes(
                    name,
                    #[trigger] names_of(self.entries@)[i],
                ),
        ensures
            !self@.contains_key(name),
    {
        if self@.contains_key(name) {
            let i = choose|i: int| name_at(self.entries@, i, name);
            assert(names_of(self.entries@)[i] == name);
            lemma_precedes_asymmetric(name, name);
        }
    }

    /// The value under a name.
    pub fn get(&self, name: &str) -> (value: Option<&T>)
        ensures
            value is Some <==> self@.contains_key(name@),
            value is Some ==> *value->0 == self@[name@],
    {
        let (at, found) = self.place(name);
        if found {
            proof {
                use_type_invariant(self);
                lemma_only_place(self.entries@, at as int, name@);
            }
            Some(&self.entries[at].1)
        } else {
            None
        }
    }

    /// Whether there is an entry under a name.
    pub fn contains_key(&self, name: &str) -> (found: bool)
        ensures
            found == self@.contains_key(name@),
    {
        self.place(name).1
    }

    /// Puts a value under a name, in place of the one that was there.
    pub fn insert(&mut self, name: String, value: T)
        ensures
            final(self)@ == old(self)@.insert(name@, value),
    {
        let (at, found) = self.place(name.as_str());
        proof {
            use_type_invariant(&*self);
        }
        let ghost before = self.entries@;
        let mut entries: Vec<(String, T)> = Vec::new();
        std::mem::swap(&mut entries, &mut self.entries);
        if found {
            proof {
                lemma_replaced(before, at as int, (name, value));
            }
            entries[at] = (name, value);
        } else {
            proof {
                lemma_inserted(before, at as int, (name, value));
            }
            entries.insert(at, (name, value));
        }
        self.entries = entries;
    }

    /// Takes away the entry under a name and gives its value.
    pub fn remove(&mut self, name: &str) -> (value: Option<T>)
        ensures
            final(self)@ == old(self)@.remove(name@),
            value is Some <==> old(self)@.contains_key(name@),
            value is Some ==> value->0 == old(self)@[name@],
    {
        let (at, found) = self.place(name);
        proof {
            use_type_invariant(&*self);
        }
        if !found {
            assert(self@.remove(name@) =~= self@);
            return None;
        }
        let ghost before = self.entries@;
        let mut entries: Vec<(String, T)> = Vec::new();
        std::mem::swap(&mut entries, &mut self.entries);
        proof {
            lemma_removed(before, at as int);
            lemma_only_place(before, at as int, name@);
        }
        let (_, value) = entries.remove(at);
        self.entries = entries;
        Some(value)
    }
}

impl<T> View for Table<T> {
    type V = Map<Seq<char>, T>;

    closed spec fn view(&self) -> Map<Seq<char>, T> {
        map_of(self.entries@)
    }
}

impl<T: DeepView> DeepView for Table<T> {
    type V = Map<Seq<char>, <T as DeepView>::V>;

    open spec fn deep_view(&self) -> Map<Seq<char>, <T as DeepView>::V> {
        Map::new(
            |name: Seq<char>| self@.contains_key(name),
            |name: Seq<char>| self@[name].deep_view(),
        )
    }
}

impl<T: Clone> Clone for Table<T> {
    fn clone(&self) -> (copy: Self)
        ensures
            copy@.dom() == self@.dom(),
            forall|name: Seq<char>| #[trigger]
                copy@.contains_key(name) ==> cloned(self@[name], copy@[name]),
    {
        let mut copy: Table<T> = Table::new();
        let len = self.len();
        let ghost names = self.names();
        let mut at: usize = 0;
        proof {
            lemma_first_of_ends(names, self@.dom());
            assert(copy@.dom() =~= first_of(names, 0));
        }
        while at < len
            invariant
                at <= len,
                len == names.len(),
                names == self.names(),
                lists(names, self@.dom()),
                copy@.dom() == first_of(names, at as int),
                forall|name: Seq<char>| #[trigger]
                    copy@.contains_key(name) ==> cloned(self@[name], copy@[name]),
            decreases len - at,
        {
            proof {
                lemma_first_of(names, at as int);
            }
            copy.insert(self.name(at).to_owned(), self.value(at).clone());
            assert(copy@.dom() =~= first_of(names, at + 1));
            at += 1;
        }
        proof {
            lemma_first_of_ends(names, self@.dom());
        }
        copy
    }
}

impl<T> Default for Table<T> {
    fn default() -> (table: Self)
        ensures
            table@ == Map::<Seq<char>, T>::empty(),
    {
        Table::new()
    }
}

/// A table has a finite number of names.
pub proof fn lemma_table_finite<T>(table: Table<T>)
    ensures
        table@.dom().finite(),
{
    let names = table.names();
    vstd::seq_lib::seq_to_set_is_finite(names);
    assert(table@.dom().subset_of(names.to_set())) by {
        assert forall|name: Seq<char>| table@.dom().contains(name) implies names.to_set().contains(
            name,
        ) by {
            let i = choose|i: int| name_at(table.entries@, i, name);
            assert(names[i] == name);
        }
    }
    vstd::set_lib::lemma_len_subset(table@.dom(), names.to_set());
}

/// A set of names is finite.
pub proof fn lemma_names_finite(names: Names)
    ensures
        names@.finite(),
{
    lemma_table_finite(names.table);
}

/// A value in a table is smaller than the table.
pub proof fn lemma_table_decreases<T>(table: Table<T>, name: Seq<char>)
    requires
        table@.contains_key(name),
    ensures
        decreases_to!(table => table@[name]),
{
    let i = choose|i: int| name_at(table.entries@, i, name);
    assert(table@[name] == table.entries@[i].1);
    assert(decreases_to!(table => table.entries));
    assert(decreases_to!(table.entries => table.entries@));
    assert(decreases_to!(table.entries@ => table.entries@[i]));
    assert(decreases_to!(table.entries@[i] => table.entries@[i].1));
}

impl View for Names {
    type V = Set<Seq<char>>;

    closed spec fn view(&self) -> Set<Seq<char>> {
        self.table@.dom()
    }
}

impl DeepView for Names {
    type V = Set<Seq<char>>;

    open spec fn deep_view(&self) -> Set<Seq<char>> {
        self@
    }
}

impl Names {
    /// The names in their order.
    pub closed spec fn names(self) -> Seq<Seq<char>> {
        self.table.names()
    }

    /// The empty set.
    pub fn new() -> (set: Self)
        ensures
            set@ == Set::<Seq<char>>::empty(),
    {
        let set = Names { table: Table::new() };
        assert(set@ =~= Set::<Seq<char>>::empty());
        set
    }

    /// The number of names.
    pub fn len(&self) -> (len: usize)
        ensures
            len == self.names().len(),
            lists(self.names(), self@),
            listed(self@) == self.names(),
    {
        self.table.len()
    }

    /// Whether the set has no names.
    pub fn is_empty(&self) -> (empty: bool)
        ensures
            empty == (self@ == Set::<Seq<char>>::empty()),
    {
        self.table.is_empty()
    }

    /// The name at a place.
    pub fn name(&self, at: usize) -> (name: &str)
        requires
            at < self.names().len(),
        ensures
            name@ == self.names()[at as int],
            self@.contains(name@),
    {
        self.table.name(at)
    }

    /// Whether a name is in the set.
    pub fn contains(&self, name: &str) -> (found: bool)
        ensures
            found == self@.contains(name@),
    {
        self.table.contains_key(name)
    }

    /// Adds a name.
    pub fn insert(&mut self, name: String)
        ensures
            final(self)@ == old(self)@.insert(name@),
    {
        self.table.insert(name, ());
        assert(self@ =~= old(self)@.insert(name@));
    }

    /// Takes a name away and says whether it was there.
    pub fn remove(&mut self, name: &str) -> (found: bool)
        ensures
            final(self)@ == old(self)@.remove(name@),
            found == old(self)@.contains(name@),
    {
        let gone = self.table.remove(name);
        assert(self@ =~= old(self)@.remove(name@));
        gone.is_some()
    }

    /// Adds the names of a table.
    pub fn insert_names_of<T>(&mut self, table: &Table<T>)
        ensures
            final(self)@ == old(self)@.union(table@.dom()),
    {
        let len = table.len();
        let ghost names = table.names();
        let ghost before = self@;
        let mut at: usize = 0;
        proof {
            lemma_first_of_ends(names, table@.dom());
            assert(self@ =~= before.union(first_of(names, 0)));
        }
        while at < len
            invariant
                at <= len,
                len == names.len(),
                names == table.names(),
                lists(names, table@.dom()),
                self@ == before.union(first_of(names, at as int)),
            decreases len - at,
        {
            proof {
                lemma_first_of(names, at as int);
            }
            self.insert(table.name(at).to_owned());
            assert(self@ =~= before.union(first_of(names, at + 1)));
            at += 1;
        }
        proof {
            lemma_first_of_ends(names, table@.dom());
        }
    }
}

impl Clone for Names {
    fn clone(&self) -> (copy: Self)
        ensures
            copy@ == self@,
    {
        Names { table: self.table.clone() }
    }
}

impl Default for Names {
    fn default() -> (set: Self)
        ensures
            set@ == Set::<Seq<char>>::empty(),
    {
        Names::new()
    }
}

} // verus!
