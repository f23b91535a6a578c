//! The tokens of a text of JSON with comments: what stands at the top of a text that is too deep
//! to be read as a tree.

use vstd::prelude::*;
use crate::draft::drafts_tokens;
use crate::node::Node;
use crate::outside::{next_token, start_scan, tokens_in, tokens_left};
use crate::parse::uninherit_name;
use crate::table::Names;
use crate::text::same_text;

verus! {

/// A token of a text.
#[derive(Debug, PartialEq)]
pub enum Token {
    OpenBrace,
    CloseBrace,
    OpenBracket,
    CloseBracket,
    Comma,
    Colon,
    /// A string.
    Text(String),
    /// A word, a number, a boolean or null.
    Word(String),
    /// A comment as it is written, with what opens and closes it.
    Comment(String),
}

/// A token of a text.
#[verifier::ext_equal]
pub enum Mark {
    OpenBrace,
    CloseBrace,
    OpenBracket,
    CloseBracket,
    Comma,
    Colon,
    /// A string.
    Text(Seq<char>),
    /// A word, a number, a boolean or null.
    Word(Seq<char>),
    /// A comment as it is written, with what opens and closes it.
    Comment(Seq<char>),
}

impl View for Token {
    type V = Mark;

    open spec fn view(&self) -> Mark {
        match self {
            Token::OpenBrace => Mark::OpenBrace,
            Token::CloseBrace => Mark::CloseBrace,
            Token::OpenBracket => Mark::OpenBracket,
            Token::CloseBracket => Mark::CloseBracket,
            Token::Comma => Mark::Comma,
            Token::Colon => Mark::Colon,
            Token::Text(text) => Mark::Text(text@),
            Token::Word(text) => Mark::Word(text@),
            Token::Comment(text) => Mark::Comment(text@),
        }
    }
}

/// A token was the first of a row, and the rest is left.
pub open spec fn took(before: Seq<Mark>, token: Mark, after: Seq<Mark>) -> bool {
    before.len() > 0 && before.first() == token && after == before.drop_first()
}

/// The tokens that are no comments.
pub open spec fn without_comments(marks: Seq<Mark>) -> Seq<Mark>
    decreases marks.len(),
{
    if marks.len() == 0 {
        marks
    } else if marks.first() is Comment {
        without_comments(marks.drop_first())
    } else {
        seq![marks.first()] + without_comments(marks.drop_first())
    }
}

/// The texts of the tokens that are comments.
pub open spec fn comments_among(marks: Seq<Mark>) -> Seq<Seq<char>>
    decreases marks.len(),
{
    if marks.len() == 0 {
        Seq::empty()
    } else {
        match marks.first() {
            Mark::Comment(text) => seq![text] + comments_among(marks.drop_first()),
            _ => comments_among(marks.drop_first()),
        }
    }
}

/// What a row of tokens is.
pub open spec fn marks_of(tokens: Seq<Token>) -> Seq<Mark> {
    Seq::new(tokens.len(), |i: int| tokens[i]@)
}

/// The tokens of a tree, with a comma between each two members or items.
pub open spec fn node_marks(node: Node) -> Seq<Mark>
    decreases node, 1int, 0int,
{
    match node {
        Node::Null => seq![Mark::Word("null"@)],
        Node::Bool(b) => seq![Mark::Word(if b { "true"@ } else { "false"@ })],
        Node::Number(literal) => seq![Mark::Word(literal)],
        Node::Text(text) => seq![Mark::Text(text)],
        Node::List(_) => seq![Mark::OpenBracket] + item_marks(node, 0) + seq![Mark::CloseBracket],
        Node::Object(_) => seq![Mark::OpenBrace] + member_marks(node, 0) + seq![Mark::CloseBrace],
    }
}

/// The tokens of the members of an object, from a place among them on.
pub open spec fn member_marks(node: Node, i: int) -> Seq<Mark>
    decreases node, 0int, node->Object_0.len() - i,
{
    let members = node->Object_0;
    if !(node is Object) || i < 0 || i >= members.len() {
        Seq::empty()
    } else {
        seq![Mark::Text(members[i].name), Mark::Colon] + node_marks(members[i].value) + (if i + 1
            < members.len() {
            seq![Mark::Comma]
        } else {
            Seq::empty()
        }) + member_marks(node, i + 1)
    }
}

/// The tokens of the items of a list, from a place among them on.
pub open spec fn item_marks(node: Node, i: int) -> Seq<Mark>
    decreases node, 0int, node->List_0.len() - i,
{
    let items = node->List_0;
    if !(node is List) || i < 0 || i >= items.len() {
        Seq::empty()
    } else {
        node_marks(items[i]) + (if i + 1 < items.len() {
            seq![Mark::Comma]
        } else {
            Seq::empty()
        }) + item_marks(node, i + 1)
    }
}

/// Takes the tokens of a text that are no comments.
pub fn scan_tokens(text: &str) -> (tokens: Vec<Token>)
    ensures
        marks_of(tokens@) == without_comments(tokens_in(text@)),
        drafts_tokens(text@, tokens_in(text@)),
{
    let mut scanner = start_scan(text);
    let mut tokens: Vec<Token> = Vec::new();
    let ghost whole = without_comments(tokens_in(text@));
    assert(marks_of(tokens@) + whole =~= whole);
    loop
        invariant
            whole == without_comments(tokens_in(text@)),
            drafts_tokens(text@, tokens_in(text@)),
            marks_of(tokens@) + without_comments(tokens_left(scanner)) == whole,
        decreases tokens_left(scanner).len(),
    {
        let ghost before = tokens_left(scanner);
        let ghost sofar = marks_of(tokens@);
        match next_token(&mut scanner) {
            Some(Token::Comment(_)) => {},
            Some(token) => {
                let ghost mark = token@;
                tokens.push(token);
                proof {
                    let rest = without_comments(tokens_left(scanner));
                    assert(marks_of(tokens@) =~= sofar.push(mark));
                    assert(without_comments(before) == seq![mark] + rest);
                    assert(sofar.push(mark) + rest =~= sofar + (seq![mark] + rest));
                }
            },
            None => {
                assert(without_comments(before) =~= Seq::<Mark>::empty());
                assert(sofar + without_comments(before) =~= sofar);
                return tokens;
            },
        }
    }
}

/// The place behind the token that closes what is open, `depth` times, from a place on.
pub open spec fn closed_at(marks: Seq<Mark>, at: int, depth: nat) -> int
    decreases marks.len() - at,
{
    if at >= marks.len() {
        at
    } else {
        match marks[at] {
            Mark::OpenBrace | Mark::OpenBracket => closed_at(marks, at + 1, depth + 1),
            Mark::CloseBrace | Mark::CloseBracket => if depth <= 1 {
                at + 1
            } else {
                closed_at(marks, at + 1, (depth - 1) as nat)
            },
            _ => closed_at(marks, at + 1, depth),
        }
    }
}

/// The place behind a value.
pub open spec fn value_end(marks: Seq<Mark>, at: int) -> int {
    if 0 <= at < marks.len() && (marks[at] is OpenBrace || marks[at] is OpenBracket) {
        closed_at(marks, at + 1, 1)
    } else {
        at + 1
    }
}

/// The place behind a value, and behind the comma that follows it.
pub open spec fn next_value(marks: Seq<Mark>, at: int) -> int {
    let end = value_end(marks, at);
    if end < marks.len() && marks[end] is Comma {
        end + 1
    } else {
        end
    }
}

/// What closes stands behind what it closes, and inside the text.
pub proof fn lemma_closed_at(marks: Seq<Mark>, at: int, depth: nat)
    ensures
        at <= closed_at(marks, at, depth),
        at <= marks.len() ==> closed_at(marks, at, depth) <= marks.len(),
    decreases marks.len() - at,
{
    if at < marks.len() {
        match marks[at] {
            Mark::OpenBrace | Mark::OpenBracket => lemma_closed_at(marks, at + 1, depth + 1),
            Mark::CloseBrace | Mark::CloseBracket => if depth > 1 {
                lemma_closed_at(marks, at + 1, (depth - 1) as nat);
            },
            _ => lemma_closed_at(marks, at + 1, depth),
        }
    }
}

/// The text of a name.
pub open spec fn name_of(mark: Mark) -> Seq<char> {
    match mark {
        Mark::Text(text) => text,
        Mark::Word(text) => text,
        _ => Seq::empty(),
    }
}

/// A member of an object: its name, and the place of its value.
#[verifier::ext_equal]
pub struct Entry {
    pub name: Seq<char>,
    pub at: int,
}

/// The members of an object, from the place of a name on: a name, a colon and a value each.
pub open spec fn entries(marks: Seq<Mark>, at: int) -> Seq<Entry>
    decreases marks.len() - at,
{
    if at < 0 || at + 2 >= marks.len() || marks[at] is CloseBrace {
        Seq::empty()
    } else {
        proof {
            lemma_closed_at(marks, at + 3, 1);
        }
        seq![Entry { name: name_of(marks[at]), at: at + 2 }] + entries(
            marks,
            next_value(marks, at + 2),
        )
    }
}

/// The places of the items of a list, from the place of an item on.
pub open spec fn items(marks: Seq<Mark>, at: int) -> Seq<int>
    decreases marks.len() - at,
{
    if at < 0 || at >= marks.len() || marks[at] is CloseBracket {
        Seq::empty()
    } else {
        proof {
            lemma_closed_at(marks, at + 1, 1);
        }
        seq![at] + items(marks, next_value(marks, at))
    }
}

/// Whether an object stands at a place.
pub open spec fn object_at(marks: Seq<Mark>, at: int) -> bool {
    0 <= at < marks.len() && marks[at] is OpenBrace
}

/// Whether a list of texts stands at a place.
pub open spec fn text_list_at(marks: Seq<Mark>, at: int) -> bool {
    &&& 0 <= at < marks.len() && marks[at] is OpenBracket
    &&& forall|i: int|
        0 <= i < items(marks, at + 1).len() ==> marks[#[trigger] items(marks, at + 1)[i]] is Text
}

/// Whether what stands at a place fits a profile: an object in which `uninherit` stands at most
/// once, as a list of texts.
pub open spec fn delta_at_fits(marks: Seq<Mark>, at: int) -> bool {
    let members = entries(marks, at + 1);
    &&& object_at(marks, at)
    &&& forall|i: int|
        0 <= i < members.len() && (#[trigger] members[i]).name == uninherit_name()
            ==> text_list_at(marks, members[i].at)
    &&& forall|i: int, j: int|
        #![trigger members[i], members[j]]
        0 <= i < j < members.len() && members[i].name == uninherit_name() ==> members[j].name
            != uninherit_name()
}

/// Whether what stands at a place fits the profiles of a source: where it is an object, every
/// member fits a profile.
pub open spec fn profiles_at_fit(marks: Seq<Mark>, at: int) -> bool {
    let members = entries(marks, at + 1);
    object_at(marks, at) ==> forall|i: int|
        0 <= i < members.len() ==> delta_at_fits(marks, (#[trigger] members[i]).at)
}

/// Whether the tokens of a text fit a source: no field stands twice, and the profiles fit.
pub open spec fn marks_fit(marks: Seq<Mark>) -> bool {
    if object_at(marks, 0) {
        let members = entries(marks, 1);
        &&& forall|i: int, j: int|
            #![trigger members[i], members[j]]
            0 <= i < j < members.len() ==> members[i].name != members[j].name
        &&& forall|i: int|
            0 <= i < members.len() && (#[trigger] members[i]).name == "profiles"@
                ==> profiles_at_fit(marks, members[i].at)
    } else if marks.len() > 0 && marks[0] is OpenBracket {
        items(marks, 1).len() > 3 ==> profiles_at_fit(marks, items(marks, 1)[3])
    } else {
        true
    }
}

/// Finds the place behind a value.
fn find_value_end(tokens: &Vec<Token>, start: usize) -> (end: usize)
    requires
        start < tokens@.len(),
    ensures
        end == value_end(marks_of(tokens@), start as int),
        start < end <= tokens@.len(),
{
    let ghost marks = marks_of(tokens@);
    let count = tokens.len();
    assert(marks[start as int] == tokens@[start as int]@);
    match &tokens[start] {
        Token::OpenBrace | Token::OpenBracket => {},
        _ => {
            return start + 1;
        },
    }
    let mut depth: usize = 1;
    let mut at: usize = start + 1;
    while at < count
        invariant
            count == tokens@.len(),
            start < at <= count,
            1 <= depth <= at,
            value_end(marks, start as int) == closed_at(marks, start + 1, 1),
            marks == marks_of(tokens@),
            closed_at(marks, at as int, depth as nat) == closed_at(marks, start + 1, 1),
        decreases tokens@.len() - at,
    {
        assert(marks[at as int] == tokens@[at as int]@);
        match &tokens[at] {
            Token::OpenBrace | Token::OpenBracket => {
                depth += 1;
            },
            Token::CloseBrace | Token::CloseBracket => {
                if depth == 1 {
                    return at + 1;
                }
                depth -= 1;
            },
            _ => {},
        }
        at += 1;
    }
    at
}

/// Finds the place behind a value and the comma that follows it.
fn find_next(tokens: &Vec<Token>, start: usize) -> (next: usize)
    requires
        start < tokens@.len(),
    ensures
        next == next_value(marks_of(tokens@), start as int),
        start < next <= tokens@.len(),
{
    let end = find_value_end(tokens, start);
    if end < tokens.len() {
        assert(marks_of(tokens@)[end as int] == tokens@[end as int]@);
        match &tokens[end] {
            Token::Comma => {
                return end + 1;
            },
            _ => {},
        }
    }
    end
}

/// What a row of members is.
pub open spec fn entries_of(found: Seq<(String, usize)>) -> Seq<Entry> {
    Seq::new(found.len(), |i: int| Entry { name: found[i].0@, at: found[i].1 as int })
}

/// Lists the members of an object.
fn list_entries(tokens: &Vec<Token>, start: usize) -> (found: Vec<(String, usize)>)
    ensures
        entries_of(found@) == entries(marks_of(tokens@), start as int),
        forall|i: int| 0 <= i < found@.len() ==> (#[trigger] found@[i]).1 < tokens@.len(),
{
    let ghost marks = marks_of(tokens@);
    let ghost whole = entries(marks, start as int);
    let mut found: Vec<(String, usize)> = Vec::new();
    let mut at = start;
    assert(entries_of(found@) + whole =~= whole);
    while at < tokens.len() && tokens.len() - at > 2
        invariant
            marks == marks_of(tokens@),
            whole == entries(marks, start as int),
            entries_of(found@) + entries(marks, at as int) == whole,
            forall|i: int| 0 <= i < found@.len() ==> (#[trigger] found@[i]).1 < tokens@.len(),
        decreases tokens@.len() - at,
    {
        let ghost sofar = entries_of(found@);
        assert(marks[at as int] == tokens@[at as int]@);
        let name = match &tokens[at] {
            Token::CloseBrace => {
                assert(entries(marks, at as int) =~= Seq::<Entry>::empty());
                assert(sofar + entries(marks, at as int) =~= sofar);
                return found;
            },
            Token::Text(text) => text.as_str().to_owned(),
            Token::Word(text) => text.as_str().to_owned(),
            _ => "".to_owned(),
        };
        proof {
            reveal_strlit("");
            assert(name@ =~= name_of(marks[at as int]));
        }
        let ghost entry = Entry { name: name@, at: at + 2 };
        let next = find_next(tokens, at + 2);
        found.push((name, at + 2));
        proof {
            let rest = entries(marks, next as int);
            assert(entries(marks, at as int) == seq![entry] + rest);
            assert(entries_of(found@) =~= sofar.push(entry));
            assert(sofar.push(entry) + rest =~= sofar + (seq![entry] + rest));
        }
        at = next;
    }
    assert(entries(marks, at as int) =~= Seq::<Entry>::empty());
    assert(entries_of(found@) + entries(marks, at as int) =~= entries_of(found@));
    found
}

/// What a row of places is.
pub open spec fn places_of(found: Seq<usize>) -> Seq<int> {
    Seq::new(found.len(), |i: int| found[i] as int)
}

/// Lists the places of the items of a list.
fn list_items(tokens: &Vec<Token>, start: usize) -> (found: Vec<usize>)
    ensures
        places_of(found@) == items(marks_of(tokens@), start as int),
        forall|i: int| 0 <= i < found@.len() ==> (#[trigger] found@[i]) < tokens@.len(),
{
    let ghost marks = marks_of(tokens@);
    let ghost whole = items(marks, start as int);
    let mut found: Vec<usize> = Vec::new();
    let mut at = start;
    assert(places_of(found@) + whole =~= whole);
    while at < tokens.len()
        invariant
            marks == marks_of(tokens@),
            whole == items(marks, start as int),
            places_of(found@) + items(marks, at as int) == whole,
            forall|i: int| 0 <= i < found@.len() ==> (#[trigger] found@[i]) < tokens@.len(),
        decreases tokens@.len() - at,
    {
        let ghost sofar = places_of(found@);
        assert(marks[at as int] == tokens@[at as int]@);
        match &tokens[at] {
            Token::CloseBracket => {
                assert(items(marks, at as int) =~= Seq::<int>::empty());
                assert(sofar + items(marks, at as int) =~= sofar);
                return found;
            },
            _ => {},
        }
        let next = find_next(tokens, at);
        found.push(at);
        proof {
            let rest = items(marks, next as int);
            assert(items(marks, at as int) == seq![at as int] + rest);
            assert(places_of(found@) =~= sofar.push(at as int));
            assert(sofar.push(at as int) + rest =~= sofar + (seq![at as int] + rest));
        }
        at = next;
    }
    assert(items(marks, at as int) =~= Seq::<int>::empty());
    assert(places_of(found@) + items(marks, at as int) =~= places_of(found@));
    found
}

fn is_text_list_at(tokens: &Vec<Token>, at: usize) -> (fits: bool)
    requires
        at < tokens@.len(),
    ensures
        fits == text_list_at(marks_of(tokens@), at as int),
{
    let ghost marks = marks_of(tokens@);
    assert(tokens.len() == tokens@.len());
    assert(marks[at as int] == tokens@[at as int]@);
    match &tokens[at] {
        Token::OpenBracket => {},
        _ => {
            return false;
        },
    }
    let places = list_items(tokens, at + 1);
    let ghost row = items(marks, at + 1);
    let mut i: usize = 0;
    while i < places.len()
        invariant
            marks == marks_of(tokens@),
            row == items(marks, at + 1),
            row == places_of(places@),
            i <= places@.len(),
            at < tokens@.len(),
            forall|j: int| 0 <= j < places@.len() ==> (#[trigger] places@[j]) < tokens@.len(),
            forall|j: int| 0 <= j < i ==> marks[#[trigger] row[j]] is Text,
        decreases places@.len() - i,
    {
        assert(row[i as int] == places@[i as int]);
        assert(marks[places@[i as int] as int] == tokens@[places@[i as int] as int]@);
        match &tokens[places[i]] {
            Token::Text(_) => {},
            _ => {
                assert(!(marks[row[i as int]] is Text));
                return false;
            },
        }
        i += 1;
    }
    true
}

fn delta_fits_at(tokens: &Vec<Token>, at: usize) -> (fits: bool)
    requires
        at < tokens@.len(),
    ensures
        fits == delta_at_fits(marks_of(tokens@), at as int),
{
    let ghost marks = marks_of(tokens@);
    assert(tokens.len() == tokens@.len());
    assert(marks[at as int] == tokens@[at as int]@);
    match &tokens[at] {
        Token::OpenBrace => {},
        _ => {
            return false;
        },
    }
    let found = list_entries(tokens, at + 1);
    let ghost members = entries(marks, at + 1);
    let mut seen = false;
    let mut i: usize = 0;
    while i < found.len()
        invariant
            marks == marks_of(tokens@),
            members == entries(marks, at + 1),
            members == entries_of(found@),
            i <= found@.len(),
            at < tokens@.len(),
            object_at(marks, at as int),
            forall|j: int| 0 <= j < found@.len() ==> (#[trigger] found@[j]).1 < tokens@.len(),
            seen == exists|j: int|
                0 <= j < i && (#[trigger] members[j]).name == uninherit_name(),
            forall|j: int|
                0 <= j < i && (#[trigger] members[j]).name == uninherit_name() ==> text_list_at(
                    marks,
                    members[j].at,
                ),
            forall|j: int, k: int|
                #![trigger members[j], members[k]]
                0 <= j < k < i && members[j].name == uninherit_name() ==> members[k].name
                    != uninherit_name(),
        decreases found@.len() - i,
    {
        assert(members[i as int].name == found@[i as int].0@);
        assert(members[i as int].at == found@[i as int].1);
        if same_text(found[i].0.as_str(), "uninherit") {
            if seen || !is_text_list_at(tokens, found[i].1) {
                return false;
            }
            seen = true;
        }
        i += 1;
    }
    true
}

fn profiles_fit_at(tokens: &Vec<Token>, at: usize) -> (fits: bool)
    requires
        at < tokens@.len(),
    ensures
        fits == profiles_at_fit(marks_of(tokens@), at as int),
{
    let ghost marks = marks_of(tokens@);
    assert(tokens.len() == tokens@.len());
    assert(marks[at as int] == tokens@[at as int]@);
    match &tokens[at] {
        Token::OpenBrace => {},
        _ => {
            return true;
        },
    }
    let found = list_entries(tokens, at + 1);
    let ghost members = entries(marks, at + 1);
    let mut i: usize = 0;
    while i < found.len()
        invariant
            marks == marks_of(tokens@),
            members == entries(marks, at + 1),
            members == entries_of(found@),
            i <= found@.len(),
            at < tokens@.len(),
            object_at(marks, at as int),
            forall|j: int| 0 <= j < found@.len() ==> (#[trigger] found@[j]).1 < tokens@.len(),
            forall|j: int| 0 <= j < i ==> delta_at_fits(marks, (#[trigger] members[j]).at),
        decreases found@.len() - i,
    {
        assert(members[i as int].at == found@[i as int].1);
        if !delta_fits_at(tokens, found[i].1) {
            return false;
        }
        i += 1;
    }
    true
}

/// Whether the tokens of a text fit a source.
pub fn tokens_fit(tokens: &Vec<Token>) -> (fits: bool)
    ensures
        fits == marks_fit(marks_of(tokens@)),
{
    let ghost marks = marks_of(tokens@);
    if tokens.len() == 0 {
        return true;
    }
    assert(marks[0] == tokens@[0]@);
    match &tokens[0] {
        Token::OpenBrace => {},
        Token::OpenBracket => {
            let places = list_items(tokens, 1);
            if places.len() > 3 {
                assert(items(marks, 1)[3] == places@[3]);
                return profiles_fit_at(tokens, places[3]);
            }
            return true;
        },
        _ => {
            return true;
        },
    }
    let found = list_entries(tokens, 1);
    let ghost members = entries(marks, 1);
    let mut seen = Names::new();
    let mut i: usize = 0;
    while i < found.len()
        invariant
            marks == marks_of(tokens@),
            members == entries(marks, 1),
            members == entries_of(found@),
            i <= found@.len(),
            object_at(marks, 0),
            forall|j: int| 0 <= j < found@.len() ==> (#[trigger] found@[j]).1 < tokens@.len(),
            forall|name: Seq<char>| #[trigger]
                seen@.contains(name) <==> exists|j: int|
                    0 <= j < i && (#[trigger] members[j]).name == name,
            forall|j: int, k: int|
                #![trigger members[j], members[k]]
                0 <= j < k < i ==> members[j].name != members[k].name,
            forall|j: int|
                0 <= j < i && (#[trigger] members[j]).name == "profiles"@ ==> profiles_at_fit(
                    marks,
                    members[j].at,
                ),
        decreases found@.len() - i,
    {
        let ghost n = i as int;
        assert(members[n].name == found@[n].0@);
        assert(members[n].at == found@[n].1);
        if seen.contains(found[i].0.as_str()) {
            return false;
        }
        if same_text(found[i].0.as_str(), "profiles") {
            if !profiles_fit_at(tokens, found[i].1) {
                return false;
            }
        }
        let ghost before = seen@;
        seen.insert(found[i].0.as_str().to_owned());
        proof {
            let after = seen@;
            let added = members[n].name;
            assert forall|other: Seq<char>| #[trigger]
                after.contains(other) <==> exists|j: int|
                    0 <= j < n + 1 && (#[trigger] members[j]).name == other by {
                if other == added {
                    assert(members[n].name == other);
                } else if before.contains(other) {
                    let j = choose|j: int| 0 <= j < n && (#[trigger] members[j]).name == other;
                    assert(members[j].name == other);
                }
            }
        }
        i += 1;
    }
    true
}

} // verus!
