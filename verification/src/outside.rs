//! What the library has from other crates: JSON texts and values from
//! `serde_json`, JSON with comments from `jsonc_parser`, hashes from `blake3`, and texts of
//! bytes from `std`.
//! Nothing in this file is proved but what stands between the calls.

use vstd::prelude::*;
use vstd::utf8::{decode_utf8, encode_utf8, valid_utf8};
use crate::json::{nests_within, whole_numbers, Json, Num, Number};
use crate::node::{
    all_literals, edits_literals, empty_object, find, members_at, named, texts, tree_within,
    with_member, with_members_at, with_object, with_value, without, Edit, Member, Node,
};
use crate::patch::literal;
use crate::draft::{drafts_read, drafts_tokens, drafts_tree};
use crate::readback::reads_as;
use crate::remarks::{all_stand, carried, remark_texts, Remark};
use crate::tokens::{comments_among, took, Mark, Token};
use jsonc_parser::tokens::Token as Scanned;

verus! {

#[verifier::external_type_specification]
#[verifier::external_body]
pub struct ExJson(serde_json::Value);

/// What a `serde_json::Value` holds.
pub uninterp spec fn json_of(value: serde_json::Value) -> Json;

/// What `serde_json` makes of the text of a number that is not an integer:
/// `None`, where the text stands for no finite number.
pub uninterp spec fn float_read(text: Seq<char>) -> Option<Seq<char>>;

/// A `serde_json::Value`, opened by one level.
pub enum Layer {
    Null,
    Bool(bool),
    Number(Number),
    String(String),
    Array(Vec<serde_json::Value>),
    Object(Vec<(String, serde_json::Value)>),
}

/// The names of members.
pub open spec fn member_names(members: Seq<(String, serde_json::Value)>) -> Set<Seq<char>> {
    Set::new(|name: Seq<char>| exists|i: int| 0 <= i < members.len() && members[i].0@ == name)
}

/// No two members have the same name.
pub open spec fn members_distinct(members: Seq<(String, serde_json::Value)>) -> bool {
    forall|i: int, j: int|
        #![trigger members[i], members[j]]
        0 <= i < j < members.len() ==> members[i].0@ != members[j].0@
}

/// What `serde_json` holds for the text of a number that is not an integer: null,
/// where the text stands for no finite number.
pub open spec fn float_out(read: Option<Seq<char>>) -> Json {
    match read {
        Some(text) => Json::Number(Num::Float(text)),
        None => Json::Null,
    }
}

/// A number as `serde_json` holds it: an integer that is not negative is no negative one, and
/// the text of any other number is the one that `serde_json` writes for it. The literal of the
/// number is read by `jsonc_parser` as the number.
pub open spec fn canonical_number(number: Num) -> bool {
    &&& match number {
        Num::PosInt(_) => true,
        Num::NegInt(n) => n < 0,
        Num::Float(text) => float_read(text) == Some(text),
    }
    &&& jsonc_value(literal(number)) == Ok::<Json, Seq<char>>(Json::Number(number))
}

/// A value is a list of what the items hold.
pub open spec fn holds_items(json: Json, items: Seq<serde_json::Value>) -> bool {
    &&& json is List
    &&& json->List_0.len() == items.len()
    &&& forall|i: int| 0 <= i < items.len() ==> #[trigger] json->List_0[i] == json_of(items[i])
}

/// A value is an object of what the members hold.
pub open spec fn holds_members(json: Json, members: Seq<(String, serde_json::Value)>) -> bool {
    &&& json is Object
    &&& json->Object_0.dom() == member_names(members)
    &&& forall|i: int|
        #![trigger members[i]]
        0 <= i < members.len() ==> json->Object_0[members[i].0@] == json_of(members[i].1)
}

/// Opens a `serde_json::Value`: matches on its variants and moves its fields.
/// The claim is that the layer is what the value holds. A number is taken by
/// `as_u64`, by `as_i64`, or by the text that `Display` gives it: that text stands for
/// the number itself. Its decimal digits, or that text, are a literal that `jsonc_parser`
/// reads as the number.
#[verifier::external_body]
pub(crate) fn open_json(value: serde_json::Value) -> (layer: Layer)
    ensures
        match layer {
            Layer::Null => json_of(value) == Json::Null,
            Layer::Bool(b) => json_of(value) == Json::Bool(b),
            Layer::Number(n) => json_of(value) == Json::Number(n@) && canonical_number(n@),
            Layer::String(s) => json_of(value) == Json::Text(s@),
            Layer::Array(items) => holds_items(json_of(value), items@),
            Layer::Object(members) => holds_members(json_of(value), members@),
        },
{
    match value {
        serde_json::Value::Null => Layer::Null,
        serde_json::Value::Bool(b) => Layer::Bool(b),
        serde_json::Value::Number(n) => Layer::Number(match (n.as_u64(), n.as_i64()) {
            (Some(n), _) => Number::PosInt(n),
            (None, Some(n)) => Number::NegInt(n),
            (None, None) => Number::Float(n.to_string()),
        }),
        serde_json::Value::String(s) => Layer::String(s),
        serde_json::Value::Array(items) => Layer::Array(items),
        serde_json::Value::Object(members) => Layer::Object(members.into_iter().collect()),
    }
}

/// Makes a `serde_json::Value` of one level: the claims are that it holds what the
/// layer holds, and that a number in it is held as `serde_json` holds numbers. The text of a
/// number that is not an integer goes through `parse` and `serde_json::Number::from_f64`.
#[verifier::external_body]
pub(crate) fn close_json(layer: Layer) -> (value: serde_json::Value)
    requires
        layer matches Layer::Object(members) ==> members_distinct(members@),
    ensures
        match layer {
            Layer::Null => json_of(value) == Json::Null,
            Layer::Bool(b) => json_of(value) == Json::Bool(b),
            Layer::Number(Number::PosInt(n)) => json_of(value) == Json::Number(Num::PosInt(n)),
            Layer::Number(Number::NegInt(n)) => json_of(value) == Json::Number(
                if n < 0 {
                    Num::NegInt(n)
                } else {
                    Num::PosInt(n as u64)
                },
            ),
            Layer::Number(Number::Float(text)) => json_of(value) == float_out(float_read(text@)),
            Layer::String(s) => json_of(value) == Json::Text(s@),
            Layer::Array(items) => holds_items(json_of(value), items@),
            Layer::Object(members) => holds_members(json_of(value), members@),
        },
        json_of(value) is Number ==> canonical_number(json_of(value)->Number_0),
{
    match layer {
        Layer::Null => serde_json::Value::Null,
        Layer::Bool(b) => serde_json::Value::Bool(b),
        Layer::Number(Number::PosInt(n)) => n.into(),
        Layer::Number(Number::NegInt(n)) => n.into(),
        Layer::Number(Number::Float(text)) => text.parse().ok()
            .and_then(serde_json::Number::from_f64)
            .map_or(serde_json::Value::Null, serde_json::Value::Number),
        Layer::String(s) => serde_json::Value::String(s),
        Layer::Array(items) => serde_json::Value::Array(items),
        Layer::Object(members) => serde_json::Value::Object(members.into_iter().collect()),
    }
}

/// What `jsonc_parser` reads a text of JSON with comments as, or what it says is
/// wrong with it.
pub uninterp spec fn jsonc_value(text: Seq<char>) -> Result<Json, Seq<char>>;

/// The number of lists and objects that may stand in each other in a text that
/// `jsonc_parser` reads.
pub open spec fn nesting_limit() -> nat {
    512
}

/// The numbers that `jsonc_parser` reads a literal as.
pub open spec fn denoted() -> spec_fn(Seq<char>, Num) -> bool {
    |literal: Seq<char>, number: Num|
        jsonc_value(literal) == Ok::<Json, Seq<char>>(Json::Number(number))
}

/// Whether `jsonc_parser` reads a literal as a number.
pub open spec fn denotes_some() -> spec_fn(Seq<char>) -> bool {
    |literal: Seq<char>| jsonc_value(literal) is Ok && jsonc_value(literal)->Ok_0 is Number
}

/// Whether a literal is the one of the number that `jsonc_parser` reads it as.
pub open spec fn plain_literal() -> spec_fn(Seq<char>) -> bool {
    |text: Seq<char>|
        denotes_some()(text) && text == literal(jsonc_value(text)->Ok_0->Number_0)
}

/// What a text is read as goes by its tree: it is read where each of its literals is read as a
/// number and its lists and objects do not stand too deep in each other, and then its tree
/// reads as the value. A text without a tree is read as null. Of a text whose tree cannot be
/// read nothing is said.
pub open spec fn goes_by_tree(
    tree: Result<Option<Node>, Seq<char>>,
    read: Result<Json, Seq<char>>,
) -> bool {
    match tree {
        Ok(Some(node)) => {
            &&& read is Ok <==> all_literals(node, denotes_some()) && tree_within(
                node,
                nesting_limit(),
            )
            &&& read matches Ok(json) ==> reads_as(denoted(), node, json)
        },
        Ok(None) => read == Ok::<Json, Seq<char>>(Json::Null),
        Err(_) => true,
    }
}

/// What was read of a text.
pub open spec fn value_view(read: Result<serde_json::Value, String>) -> Result<Json, Seq<char>> {
    match read {
        Ok(value) => Ok(json_of(value)),
        Err(message) => Err(message@),
    }
}

/// Reads a text of JSON with comments by `jsonc_parser::parse_to_serde_value`. The
/// claims are that what it gives depends on the text alone, that it refuses a text
/// in which more lists and objects stand in each other than its limit allows, and that it
/// goes by the tokens and the grammar of `parse_to_ast`: where that gives a tree, the value is
/// the one of the tree, in which a number is what its literal is read as by itself and of
/// members with one name the last counts. A text that is laid out from values as `serde_json`
/// writes them is JSON, and is read as what is laid out in it.
#[verifier::external_body]
pub(crate) fn parse_jsonc(text: &str) -> (result: Result<serde_json::Value, String>)
    ensures
        match result {
            Ok(value) => jsonc_value(text@) == Ok::<Json, Seq<char>>(json_of(value))
                && nests_within(json_of(value), nesting_limit()),
            Err(message) => jsonc_value(text@) == Err::<Json, Seq<char>>(message@),
        },
        goes_by_tree(tree_read(text@), value_view(result)),
        drafts_read(text@, value_view(result)),
{
    jsonc_parser::parse_to_serde_value(text, &Default::default()).map_err(|e| e.to_string())
}

/// What `jsonc_parser` says of a text of JSON with comments that is to be an object and is none.
pub uninterp spec fn object_fault(text: Seq<char>) -> Seq<char>;

/// Reads a text of JSON with comments that is to be an object by
/// `jsonc_parser::parse_to_serde_value`, as a `BTreeMap` from names to values. The claims are
/// that it gives the value that `parse_jsonc` gives, where that is an object, and that it
/// refuses any other text with a message that depends on the text alone.
#[verifier::external_body]
pub(crate) fn parse_object(text: &str) -> (result: Result<serde_json::Value, String>)
    ensures
        match result {
            Ok(value) => json_of(value) is Object && nests_within(json_of(value), nesting_limit())
                && jsonc_value(text@) == value_view(result),
            Err(message) => message@ == object_fault(text@) && !(jsonc_value(text@) is Ok
                && jsonc_value(text@)->Ok_0 is Object),
        },
{
    jsonc_parser::parse_to_serde_value(text, &Default::default())
        .map(|members: std::collections::BTreeMap<String, serde_json::Value>| {
            members.into_iter().collect()
        })
        .map_err(|e| e.to_string())
}

/// What `serde_json` reads the bytes of a JSON text as: `None`, where they are none.
pub uninterp spec fn json_value(bytes: Seq<u8>) -> Option<Json>;

/// Reads the bytes of a JSON text by `serde_json::from_slice`. The claim is that
/// what it gives depends on the bytes alone.
#[verifier::external_body]
pub(crate) fn parse_json(bytes: &[u8]) -> (result: Option<serde_json::Value>)
    ensures
        match result {
            Some(value) => json_value(bytes@) == Some(json_of(value)),
            None => json_value(bytes@) is None,
        },
{
    serde_json::from_slice(bytes).ok()
}

/// The bytes that `serde_json` writes for a value, without white space.
pub uninterp spec fn compact(json: Json) -> Seq<u8>;

/// Writes a value by `serde_json::to_vec`. The claim is that the bytes depend on
/// what the value holds alone: `serde_json` keeps the members of an object in the
/// order of their names.
#[verifier::external_body]
pub(crate) fn write_compact(value: &serde_json::Value) -> (bytes: Vec<u8>)
    ensures
        bytes@ == compact(json_of(*value)),
{
    serde_json::to_vec(value).expect("a JSON value serializes")
}

/// The text that `serde_json` writes for a value, with white space.
pub uninterp spec fn pretty(json: Json) -> Seq<char>;

/// A text with a line feed behind it is read as a value, where `jsonc_parser` does not refuse
/// the value for how its lists and objects stand in each other.
pub open spec fn reads_back(text: Seq<char>, json: Json) -> bool {
    nests_within(json, nesting_limit()) ==> jsonc_value(text.push('\n')) == Ok::<Json, Seq<char>>(
        json,
    )
}

/// The bytes of a text are read as a value, where its numbers are integers and not more than
/// 127 of its lists and objects stand in each other.
pub open spec fn reads_back_plain(text: Seq<char>, json: Json) -> bool {
    whole_numbers(json) && nests_within(json, 127) ==> json_value(encode_utf8(text)) == Some(json)
}

/// Writes a value by `serde_json::to_string_pretty`. The claims are that the text
/// depends on what the value holds alone, and that `jsonc_parser` reads the text, with a
/// line feed behind it, as that value: it is JSON, in which a number stands as the
/// shortest text that is read as the number. `serde_json` reads it as that value too, but
/// for numbers that are not integers, which it may read as a number next to them.
#[verifier::external_body]
pub(crate) fn write_pretty(value: &serde_json::Value) -> (text: String)
    ensures
        text@ == pretty(json_of(*value)),
        reads_back(text@, json_of(*value)),
        reads_back_plain(text@, json_of(*value)),
{
    serde_json::to_string_pretty(value).expect("a JSON value serializes")
}

/// `String::push` puts a character behind a text.
pub assume_specification[ std::string::String::push ](text: &mut String, c: char)
    ensures
        final(text)@ == old(text)@.push(c),
;

/// Takes bytes for a text by `std::str::from_utf8`: the claims are that bytes that are no
/// UTF-8 are refused, and that others stand for the text that they encode.
#[verifier::external_body]
pub(crate) fn text_of_bytes(bytes: &[u8]) -> (text: Option<String>)
    ensures
        match text {
            Some(text) => valid_utf8(bytes@) && text@ == decode_utf8(bytes@),
            None => !valid_utf8(bytes@),
        },
{
    std::str::from_utf8(bytes).ok().map(str::to_owned)
}

/// The BLAKE3 hash of bytes in hexadecimal digits.
pub uninterp spec fn blake3_hex(bytes: Seq<u8>) -> Seq<char>;

/// Hashes bytes by `blake3::hash` and writes the hash by `to_hex`.
#[verifier::external_body]
pub(crate) fn hash_hex(bytes: &[u8]) -> (hex: String)
    ensures
        hex@ == blake3_hex(bytes@),
{
    blake3::hash(bytes).to_hex().to_string()
}

#[verifier::external_type_specification]
#[verifier::external_body]
pub struct ExSyntax<'a>(jsonc_parser::ast::Value<'a>);

/// What a value of the syntax tree of `jsonc_parser` holds.
pub uninterp spec fn syntax_node(value: jsonc_parser::ast::Value<'_>) -> Node;

/// A value of the syntax tree, opened by one level.
pub enum SyntaxLayer<'a> {
    Null,
    Bool(bool),
    Number(String),
    Text(String),
    List(Vec<jsonc_parser::ast::Value<'a>>),
    Object(Vec<(String, jsonc_parser::ast::Value<'a>)>),
}

/// A tree is a list of what the items hold.
pub open spec fn node_items(node: Node, items: Seq<jsonc_parser::ast::Value<'_>>) -> bool {
    &&& node is List
    &&& node->List_0.len() == items.len()
    &&& forall|i: int| 0 <= i < items.len() ==> #[trigger] node->List_0[i] == syntax_node(items[i])
}

/// A tree is an object of what the members hold, in their order.
pub open spec fn node_members(
    node: Node,
    members: Seq<(String, jsonc_parser::ast::Value<'_>)>,
) -> bool {
    &&& node is Object
    &&& node->Object_0.len() == members.len()
    &&& forall|i: int|
        #![trigger members[i]]
        0 <= i < members.len() ==> node->Object_0[i].name == members[i].0@
            && node->Object_0[i].value == syntax_node(members[i].1)
}

/// Opens a `jsonc_parser::ast::Value`: matches on its variants and moves its
/// fields. The claim is that the layer is what the value holds: an object has its
/// properties in the order of the text, and a name that stands twice stands twice.
#[verifier::external_body]
pub(crate) fn open_syntax<'a>(value: jsonc_parser::ast::Value<'a>) -> (layer: SyntaxLayer<'a>)
    ensures
        match layer {
            SyntaxLayer::Null => syntax_node(value) == Node::Null,
            SyntaxLayer::Bool(b) => syntax_node(value) == Node::Bool(b),
            SyntaxLayer::Number(text) => syntax_node(value) == Node::Number(text@),
            SyntaxLayer::Text(text) => syntax_node(value) == Node::Text(text@),
            SyntaxLayer::List(items) => node_items(syntax_node(value), items@),
            SyntaxLayer::Object(members) => node_members(syntax_node(value), members@),
        },
{
    match value {
        jsonc_parser::ast::Value::NullKeyword(_) => SyntaxLayer::Null,
        jsonc_parser::ast::Value::BooleanLit(literal) => SyntaxLayer::Bool(literal.value),
        jsonc_parser::ast::Value::NumberLit(literal) => SyntaxLayer::Number(literal.value.into()),
        jsonc_parser::ast::Value::StringLit(literal) => SyntaxLayer::Text(literal.value.into()),
        jsonc_parser::ast::Value::Array(array) => SyntaxLayer::List(array.elements),
        jsonc_parser::ast::Value::Object(object) => SyntaxLayer::Object(
            object.properties.into_iter().map(|p| (p.name.into_string(), p.value)).collect(),
        ),
    }
}

/// The tree that `jsonc_parser` reads a text as, `None` where the text holds no
/// value, or what it says is wrong with the text.
pub uninterp spec fn tree_read(text: Seq<char>) -> Result<Option<Node>, Seq<char>>;

/// A text is read as a tree.
pub open spec fn reads_tree(text: Seq<char>, tree: Option<Node>) -> bool {
    tree_read(text) == Ok::<Option<Node>, Seq<char>>(tree)
}

/// Reads the syntax tree of a text by `jsonc_parser::parse_to_ast`. The claims are
/// that the tree depends on the text alone, and that a text that is laid out from values as
/// `serde_json` writes them is read as the tree of what is laid out in it, where it is read.
#[verifier::external_body]
pub(crate) fn parse_syntax<'a>(text: &'a str) -> (tree: Option<jsonc_parser::ast::Value<'a>>)
    ensures
        match tree {
            Some(value) => tree_read(text@) == Ok::<Option<Node>, Seq<char>>(
                Some(syntax_node(value)),
            ),
            None => tree_read(text@) is Err || tree_read(text@)->Ok_0 is None,
        },
        tree is Some ==> drafts_tree(text@, syntax_node(tree->0)),
{
    jsonc_parser::parse_to_ast(text, &Default::default(), &Default::default()).ok()?.value
}

#[verifier::external_type_specification]
#[verifier::external_body]
pub struct ExScanner<'a>(jsonc_parser::Scanner<'a>);

/// The tokens of a text, up to its end or to what is no token.
pub uninterp spec fn tokens_in(text: Seq<char>) -> Seq<Mark>;

/// The tokens that a scanner has not come to yet, up to the end of its text or to what is no
/// token.
pub uninterp spec fn tokens_left(scanner: jsonc_parser::Scanner<'_>) -> Seq<Mark>;

/// Starts at the first token of a text by `jsonc_parser::Scanner::new`. The claims are that the
/// tokens depend on the text alone, and that those of a text that is laid out from values as
/// `serde_json` writes them are the tokens of its tree.
#[verifier::external_body]
pub(crate) fn start_scan<'a>(text: &'a str) -> (scanner: jsonc_parser::Scanner<'a>)
    ensures
        tokens_left(scanner) == tokens_in(text@),
        drafts_tokens(text@, tokens_left(scanner)),
{
    jsonc_parser::Scanner::new(text, &Default::default())
}

/// Takes the next token by `jsonc_parser::Scanner::scan`: none, where the text ends or goes on
/// with what is no token. A string is taken as it is decoded, a comment with what opens and
/// closes it, and a word, a number, a boolean and null by the text of the token, which
/// `Token::as_str` gives.
#[verifier::external_body]
pub(crate) fn next_token(scanner: &mut jsonc_parser::Scanner<'_>) -> (token: Option<Token>)
    ensures
        match token {
            Some(token) => took(tokens_left(*old(scanner)), token@, tokens_left(*final(scanner))),
            None => tokens_left(*old(scanner)).len() == 0,
        },
{
    let token = scanner.scan().ok()??;
    Some(match token {
        Scanned::OpenBrace => Token::OpenBrace,
        Scanned::CloseBrace => Token::CloseBrace,
        Scanned::OpenBracket => Token::OpenBracket,
        Scanned::CloseBracket => Token::CloseBracket,
        Scanned::Comma => Token::Comma,
        Scanned::Colon => Token::Colon,
        Scanned::String(text) => Token::Text(text.into()),
        Scanned::CommentLine(text) => Token::Comment(format!("//{text}")),
        Scanned::CommentBlock(text) => Token::Comment(format!("/*{text}*/")),
        word => Token::Word(word.as_str().into()),
    })
}

#[verifier::external_type_specification]
#[verifier::external_body]
pub struct ExDocument(jsonc_parser::cst::CstRootNode);

/// The tree of the value that a document holds: `None`, where it holds none. Strings
/// and names are taken as they are decoded, numbers by their literals.
pub uninterp spec fn document(root: jsonc_parser::cst::CstRootNode) -> Option<Node>;

/// The text that a document was read from.
pub uninterp spec fn document_origin(root: jsonc_parser::cst::CstRootNode) -> Seq<char>;

/// The edits of a document since it was read, in their order.
pub uninterp spec fn document_edits(root: jsonc_parser::cst::CstRootNode) -> Seq<Edit>;

/// The comments of a text that `jsonc_parser` reads as a document, in their order.
pub uninterp spec fn remarks_in(text: Seq<char>) -> Seq<Remark>;

/// The comments of a document, in their order.
pub uninterp spec fn document_remarks(root: jsonc_parser::cst::CstRootNode) -> Seq<Remark>;

/// A document went on from another by a row of edits. Each of them kept the comments that
/// neither stood in what it changed nor beside what it took away.
pub open spec fn edited(
    before: jsonc_parser::cst::CstRootNode,
    after: jsonc_parser::cst::CstRootNode,
    edits: Seq<Edit>,
) -> bool {
    &&& document_origin(after) == document_origin(before)
    &&& document_edits(after) == document_edits(before) + edits
    &&& carried(edits, document_remarks(before), document_remarks(after))
}

/// The text that `jsonc_parser` writes for a document that was read from a text, after
/// edits.
pub uninterp spec fn edited_text(text: Seq<char>, edits: Seq<Edit>) -> Seq<char>;

/// Reads a document by `jsonc_parser::cst::CstRootNode::parse`. The claims are that it
/// holds the tree of `parse_to_ast`, by which it reads the text, and that its comments, and where
/// they stand, depend on the text alone: they are those among the tokens of the text.
#[verifier::external_body]
pub(crate) fn parse_document(text: &str) -> (result: Result<jsonc_parser::cst::CstRootNode, String>)
    ensures
        match result {
            Ok(root) => tree_read(text@) == Ok::<Option<Node>, Seq<char>>(document(root))
                && document_origin(root) == text@ && document_edits(root) == Seq::<Edit>::empty()
                && document_remarks(root) == remarks_in(text@) && remark_texts(
                document_remarks(root),
            ) == comments_among(tokens_in(text@)),
            Err(message) => tree_read(text@) == Err::<Option<Node>, Seq<char>>(message@),
        },
{
    jsonc_parser::cst::CstRootNode::parse(text, &Default::default()).map_err(|e| e.to_string())
}

/// Whether `jsonc_parser` reads a text as a tree when names may stand without quotes or not,
/// and commas may be left out or not.
pub uninterp spec fn read_with(text: Seq<char>, loose_names: bool, missing_commas: bool) -> bool;

/// Reads a text by `jsonc_parser::parse_to_ast` with its options
/// `allow_loose_object_property_names` and `allow_missing_commas` as they are given. The claim
/// is that whether it is read depends on the text and on these two alone.
#[verifier::external_body]
pub(crate) fn reads_with(text: &str, loose_names: bool, missing_commas: bool) -> (read: bool)
    ensures
        read == read_with(text@, loose_names, missing_commas),
{
    let options = jsonc_parser::ParseOptions {
        allow_loose_object_property_names: loose_names,
        allow_missing_commas: missing_commas,
        ..Default::default()
    };
    jsonc_parser::parse_to_ast(text, &Default::default(), &options).is_ok()
}

/// Whether nothing in a text can run into a name: its names are quoted, or no comma is left
/// out.
pub open spec fn names_apart(text: Seq<char>) -> bool {
    read_with(text, false, true) || read_with(text, true, false)
}

/// The number of lists and objects that may stand in each other in any text that
/// `jsonc_parser` reads as a tree: an object and the member that is read in it count as two.
pub open spec fn tree_limit() -> nat {
    256
}

/// Whether a document is written so that its tree is read again: it was read from a text whose
/// names are quoted or that leaves out no comma, the numbers that were put into it stand as
/// plain literals, and its lists and objects do not stand too deep in each other.
pub open spec fn writes_its_tree(
    origin: Seq<char>,
    edits: Seq<Edit>,
    tree: Option<Node>,
) -> bool {
    &&& names_apart(origin)
    &&& edits_literals(edits, plain_literal())
    &&& tree is Some && tree_within(tree->0, tree_limit())
}

/// Writes a document by its `Display`. The claims are that the text depends on the text
/// that was read and on the edits since alone, and that a document that was not edited is
/// written as it was read: the tree keeps the white space and the comments of the text. The
/// comments of the document stand in the text one behind the other, as they are. Where
/// the names of that text are quoted or no comma is left out in it, and the numbers that were
/// put in are plain literals, `parse_to_ast` reads the text as the tree of the document: an edit
/// leaves a line break behind every comment that needs one and a comma between members that
/// had one, and nothing that stands in front of a quoted name runs into it. Nothing is said of
/// a text that leaves out a comma and has a name that is not quoted: an edit may take away what
/// stands between such a name and a word in front of it.
#[verifier::external_body]
pub(crate) fn print_document(root: &jsonc_parser::cst::CstRootNode) -> (text: String)
    ensures
        text@ == edited_text(document_origin(*root), document_edits(*root)),
        document_edits(*root).len() == 0 ==> text@ == document_origin(*root),
        all_stand(text@, document_remarks(*root)),
        writes_its_tree(document_origin(*root), document_edits(*root), document(*root))
            ==> reads_tree(text@, document(*root)),
{
    root.to_string()
}

#[verifier::external_type_specification]
#[verifier::external_body]
pub struct ExInput(jsonc_parser::cst::CstInputValue);

/// The tree of a value that is put into a document.
pub uninterp spec fn input_node(input: jsonc_parser::cst::CstInputValue) -> Node;

/// A value that is put into a document, by one level.
pub enum InputLayer {
    Null,
    Bool(bool),
    Number(String),
    Text(String),
    List(Vec<jsonc_parser::cst::CstInputValue>),
    Object(Vec<(String, jsonc_parser::cst::CstInputValue)>),
}

/// A tree is a list of the trees of the items.
pub open spec fn input_items(
    node: Node,
    items: Seq<jsonc_parser::cst::CstInputValue>,
) -> bool {
    &&& node is List
    &&& node->List_0.len() == items.len()
    &&& forall|i: int| 0 <= i < items.len() ==> #[trigger] node->List_0[i] == input_node(items[i])
}

/// A tree is an object of the trees of the members, in their order.
pub open spec fn input_members(
    node: Node,
    members: Seq<(String, jsonc_parser::cst::CstInputValue)>,
) -> bool {
    &&& node is Object
    &&& node->Object_0.len() == members.len()
    &&& forall|i: int|
        #![trigger members[i]]
        0 <= i < members.len() ==> node->Object_0[i].name == members[i].0@
            && node->Object_0[i].value == input_node(members[i].1)
}

/// Makes a `jsonc_parser::cst::CstInputValue` of one level: the claim is that its
/// tree is the one of the layer.
#[verifier::external_body]
pub(crate) fn close_input(layer: InputLayer) -> (input: jsonc_parser::cst::CstInputValue)
    ensures
        match layer {
            InputLayer::Null => input_node(input) == Node::Null,
            InputLayer::Bool(b) => input_node(input) == Node::Bool(b),
            InputLayer::Number(text) => input_node(input) == Node::Number(text@),
            InputLayer::Text(text) => input_node(input) == Node::Text(text@),
            InputLayer::List(items) => input_items(input_node(input), items@),
            InputLayer::Object(members) => input_members(input_node(input), members@),
        },
{
    match layer {
        InputLayer::Null => jsonc_parser::cst::CstInputValue::Null,
        InputLayer::Bool(b) => jsonc_parser::cst::CstInputValue::Bool(b),
        InputLayer::Number(text) => jsonc_parser::cst::CstInputValue::Number(text),
        InputLayer::Text(text) => jsonc_parser::cst::CstInputValue::String(text),
        InputLayer::List(items) => jsonc_parser::cst::CstInputValue::Array(items),
        InputLayer::Object(members) => jsonc_parser::cst::CstInputValue::Object(members),
    }
}

/// The members of the object that a path reaches in a document.
pub open spec fn document_members(
    root: jsonc_parser::cst::CstRootNode,
    path: Seq<String>,
) -> Option<Seq<Member>> {
    match document(root) {
        Some(node) => members_at(node, texts(path)),
        None => None,
    }
}

/// The edits that make the value of a document an object: none, where it is one.
pub open spec fn root_edits(tree: Option<Node>) -> Seq<Edit> {
    if tree is Some && tree->0 is Object {
        Seq::empty()
    } else {
        seq![Edit::MakeRoot]
    }
}

/// The edits that make the first member of a name an object: none, where it is one.
pub open spec fn object_edits(
    path: Seq<Seq<char>>,
    members: Seq<Member>,
    name: Seq<char>,
) -> Seq<Edit> {
    if named(members, name) && members[find(members, name)].value is Object {
        Seq::empty()
    } else {
        seq![Edit::MakeObject { path, name }]
    }
}

/// Makes the value of a document an object by `CstRootNode::object_value_or_set`: an
/// object stays as it is, and anything else gives way to an empty one. The comments outside the
/// value stay.
#[verifier::external_body]
pub(crate) fn make_root_object(root: &mut jsonc_parser::cst::CstRootNode)
    ensures
        document(*final(root)) == Some(
            if document(*old(root)) is Some && document(*old(root))->0 is Object {
                document(*old(root))->0
            } else {
                empty_object()
            },
        ),
        edited(*old(root), *final(root), root_edits(document(*old(root)))),
{
    root.object_value_or_set();
}

/// Makes the first member of a name an object by `CstObject::object_value_or_set`, in
/// the object that the path reaches by the same function. An object is handed back as it
/// is. The comments that do not stand in the member stay.
#[verifier::external_body]
pub(crate) fn make_object(
    root: &mut jsonc_parser::cst::CstRootNode,
    path: &Vec<String>,
    name: &str,
)
    requires
        document_members(*old(root), path@) is Some,
    ensures
        document(*final(root)) == Some(
            with_members_at(
                document(*old(root))->0,
                texts(path@),
                with_object(document_members(*old(root), path@)->0, name@),
            ),
        ),
        edited(
            *old(root),
            *final(root),
            object_edits(texts(path@), document_members(*old(root), path@)->0, name@),
        ),
{
    path.iter().fold(root.object_value_or_set(), |object, name| object.object_value_or_set(name))
        .object_value_or_set(name);
}

/// Looks for a member by `CstObject::get`, which finds the first of the name, in the
/// object that the path reaches.
#[verifier::external_body]
pub(crate) fn has_member(
    root: &jsonc_parser::cst::CstRootNode,
    path: &Vec<String>,
    name: &str,
) -> (found: bool)
    requires
        document_members(*root, path@) is Some,
    ensures
        found == named(document_members(*root, path@)->0, name@),
{
    path.iter().fold(root.object_value_or_set(), |object, name| object.object_value_or_set(name))
        .get(name).is_some()
}

/// Gives a value to the first member of a name by `CstObjectProp::set_value`, in the
/// object that the path reaches. The comments that do not stand in the member stay.
#[verifier::external_body]
pub(crate) fn set_member(
    root: &mut jsonc_parser::cst::CstRootNode,
    path: &Vec<String>,
    name: &str,
    input: jsonc_parser::cst::CstInputValue,
)
    requires
        document_members(*old(root), path@) is Some,
        named(document_members(*old(root), path@)->0, name@),
    ensures
        document(*final(root)) == Some(
            with_members_at(
                document(*old(root))->0,
                texts(path@),
                with_value(document_members(*old(root), path@)->0, name@, input_node(input)),
            ),
        ),
        edited(
            *old(root),
            *final(root),
            seq![Edit::SetMember { path: texts(path@), name: name@, value: input_node(input) }],
        ),
{
    path.iter().fold(root.object_value_or_set(), |object, name| object.object_value_or_set(name))
        .get(name).expect("the member is there").set_value(input);
}

/// Puts a member behind the others by `CstObject::append`, in the object that the
/// path reaches. All comments stay, and only those that no member stood behind may get the new
/// one beside them.
#[verifier::external_body]
pub(crate) fn append_member(
    root: &mut jsonc_parser::cst::CstRootNode,
    path: &Vec<String>,
    name: &str,
    input: jsonc_parser::cst::CstInputValue,
)
    requires
        document_members(*old(root), path@) is Some,
    ensures
        document(*final(root)) == Some(
            with_members_at(
                document(*old(root))->0,
                texts(path@),
                with_member(document_members(*old(root), path@)->0, name@, input_node(input)),
            ),
        ),
        edited(
            *old(root),
            *final(root),
            seq![Edit::AppendMember { path: texts(path@), name: name@, value: input_node(input) }],
        ),
{
    path.iter().fold(root.object_value_or_set(), |object, name| object.object_value_or_set(name))
        .append(name, input);
}

/// Takes away the first member of a name by `CstObjectProp::remove`, in the object that
/// the path reaches. The comments that stand neither in the member nor between it and the
/// members next to it stay: what is removed with it ends at those members.
#[verifier::external_body]
pub(crate) fn remove_member(
    root: &mut jsonc_parser::cst::CstRootNode,
    path: &Vec<String>,
    name: &str,
)
    requires
        document_members(*old(root), path@) is Some,
        named(document_members(*old(root), path@)->0, name@),
    ensures
        document(*final(root)) == Some(
            with_members_at(
                document(*old(root))->0,
                texts(path@),
                without(document_members(*old(root), path@)->0, name@),
            ),
        ),
        edited(
            *old(root),
            *final(root),
            seq![Edit::RemoveMember { path: texts(path@), name: name@ }],
        ),
{
    path.iter().fold(root.object_value_or_set(), |object, name| object.object_value_or_set(name))
        .get(name).expect("the member is there").remove();
}

} // verus!
