//! Requests: the frames they come in, what is done with each, and their parameters.

use vstd::prelude::*;
use crate::decimal::{
    decimal, decimal_text, law_numeral_reads_back, lemma_decimal_reads_back, numeral_value,
    read_numeral,
};
use crate::json::{jsons, lemma_array_json, Json, JsonValue, Num, Number};
use crate::parse::is_text_list;
use crate::registry::{get_member, member_of};
use crate::table::Names;
use crate::text::{
    after_prefix, before_first, begins_with, cut_before, has_char, same_text, trim, trimmed,
    trimmed_end, trimmed_start,
};

verus! {

/// What a line of the header of a frame leads to.
#[derive(Debug, PartialEq)]
pub enum HeaderStep {
    /// The header goes on: the length that it has told so far.
    More(Option<usize>),
    /// The header ends, and the body follows.
    End,
    /// The length is none.
    BadLength,
}

/// The length that a line of the header tells: `None`, where it tells none.
pub open spec fn told_length(line: Seq<char>) -> Option<Seq<char>> {
    if "Content-Length:"@.is_prefix_of(line) {
        Some(line.skip("Content-Length:"@.len() as int))
    } else if "content-length:"@.is_prefix_of(line) {
        Some(line.skip("content-length:"@.len() as int))
    } else {
        None
    }
}

/// What a line of the header of a frame leads to, when the header has told `length` so far.
pub open spec fn header_step(length: Option<usize>, line: Seq<char>) -> HeaderStep {
    if line == "\r\n"@ || line == "\n"@ {
        HeaderStep::End
    } else {
        match told_length(line) {
            Some(value) => match numeral_value(trimmed(value), usize::MAX as nat) {
                Some(n) => HeaderStep::More(Some(n as usize)),
                None => HeaderStep::BadLength,
            },
            None => HeaderStep::More(length),
        }
    }
}

/// Reads a line of the header of a frame.
pub fn read_header_line(length: Option<usize>, line: &str) -> (step: HeaderStep)
    ensures
        step == header_step(length, line@),
{
    if same_text(line, "\r\n") || same_text(line, "\n") {
        return HeaderStep::End;
    }
    let value = match after_prefix(line, "Content-Length:") {
        Some(value) => Some(value),
        None => after_prefix(line, "content-length:"),
    };
    match value {
        Some(value) => match read_numeral(trim(value.as_str()).as_str()) {
            Some(n) => HeaderStep::More(Some(n)),
            None => HeaderStep::BadLength,
        },
        None => HeaderStep::More(length),
    }
}

/// The line of a header that tells a length.
pub open spec fn length_line(length: nat) -> Seq<char> {
    "Content-Length: "@ + decimal(length) + "\r\n"@
}

/// The header of a frame whose body has a length.
pub open spec fn header_text(length: nat) -> Seq<char> {
    length_line(length) + "\r\n"@
}

/// Writes the header of a frame: the body follows it.
pub fn frame_header(length: usize) -> (header: String)
    ensures
        header@ == header_text(length as nat),
{
    let mut header = "Content-Length: ".to_owned();
    header.append(decimal_text(length as u128).as_str());
    header.append("\r\n");
    header.append("\r\n");
    header
}

/// The header of a frame is two lines: the first tells the length of the body, and the
/// second ends the header.
pub proof fn law_frame_header_reads_back(length: usize, before: Option<usize>)
    ensures
        header_text(length as nat) == length_line(length as nat) + "\r\n"@,
        header_step(before, length_line(length as nat)) == HeaderStep::More(Some(length)),
        header_step(Some(length), "\r\n"@) == HeaderStep::End,
{
    let n = length as nat;
    let line = length_line(n);
    let digits = decimal(n);
    reveal_strlit("Content-Length: ");
    reveal_strlit("Content-Length:");
    reveal_strlit("\r\n");
    reveal_strlit("\n");
    lemma_decimal_reads_back(n);
    let name = "Content-Length:"@;
    assert(line[0] == 'C');
    assert("\r\n"@[0] == '\r' && "\n"@[0] == '\n');
    assert(name =~= line.subrange(0, name.len() as int));
    let value = line.skip(name.len() as int);
    assert(value =~= seq![' '] + digits + "\r\n"@);
    assert(value.first() == ' ');
    assert(value.drop_first() =~= digits + "\r\n"@);
    let rest = digits + "\r\n"@;
    assert('0' <= digits[0] <= '9');
    assert(rest.first() == digits[0]);
    assert(trimmed_start(rest) == rest);
    assert(trimmed_start(value) == rest);
    let once = rest.drop_last();
    assert(rest.last() == '\n');
    assert(once =~= digits.push('\r'));
    assert(once.last() == '\r');
    assert(once.drop_last() =~= digits);
    assert('0' <= digits[digits.len() - 1] <= '9');
    assert(trimmed_end(digits) == digits);
    assert(trimmed_end(once) == digits);
    assert(trimmed_end(rest) == digits);
    assert(trimmed(value) == digits);
    law_numeral_reads_back(n, usize::MAX as nat);
}

/// What is done with a message.
#[derive(Clone, Copy, Debug, PartialEq, Eq, Structural)]
pub enum Reply {
    /// It is passed over.
    Ignore,
    /// The service ends without an answer.
    Stop,
    /// It is answered.
    Answer,
    /// It is answered, and the service ends.
    AnswerAndStop,
}

/// What is done with a message: `id` says whether it has one.
pub open spec fn reply_to(jsonrpc: Seq<char>, id: bool, method: Seq<char>) -> Reply {
    if jsonrpc != "2.0"@ {
        Reply::Ignore
    } else if !id {
        if method == "exit"@ {
            Reply::Stop
        } else {
            Reply::Ignore
        }
    } else if method == "shutdown"@ {
        Reply::AnswerAndStop
    } else {
        Reply::Answer
    }
}

/// Decides what is done with a message.
pub fn decide_reply(jsonrpc: &str, id: bool, method: &str) -> (reply: Reply)
    ensures
        reply == reply_to(jsonrpc@, id, method@),
{
    if !same_text(jsonrpc, "2.0") {
        Reply::Ignore
    } else if !id {
        if same_text(method, "exit") {
            Reply::Stop
        } else {
            Reply::Ignore
        }
    } else if same_text(method, "shutdown") {
        Reply::AnswerAndStop
    } else {
        Reply::Answer
    }
}

/// What is wrong with the parameters of a request.
#[derive(Debug, PartialEq)]
pub enum ParamError {
    /// A parameter is not there, or is not of its type.
    Required(String),
    /// A parameter of a query is not there, or is not of its type.
    Missing(String),
    /// `knownSettingPrefixes` holds something that is not a text.
    PrefixesNotTexts,
    /// The protocol is of another version.
    IncompatibleVersion(u64),
    /// There is no such method.
    MethodNotFound(String),
}

/// A text among the parameters.
pub open spec fn text_param(params: Json, name: Seq<char>) -> Option<Seq<char>> {
    match member_of(params, name) {
        Some(Json::Text(text)) => Some(text),
        _ => None,
    }
}

/// Takes a text from the parameters.
pub fn get_text(params: &JsonValue, name: &str) -> (text: Option<String>)
    ensures
        match text_param(params@, name@) {
            Some(view) => text matches Some(found) && found@ == view,
            None => text is None,
        },
{
    match get_member(params, name) {
        Some(JsonValue::String(text)) => Some(text.clone()),
        _ => None,
    }
}

/// Takes the path of an archive from the parameters: an empty one counts as none.
pub fn archive_path(params: &JsonValue, field: &str) -> (result: Result<String, ParamError>)
    ensures
        match text_param(params@, field@) {
            Some(view) => if view.len() > 0 {
                result matches Ok(found) && found@ == view
            } else {
                result matches Err(ParamError::Required(found)) && found@ == field@
            },
            None => result matches Err(ParamError::Required(found)) && found@ == field@,
        },
{
    match get_text(params, field) {
        Some(text) => if text.as_str().is_empty() {
            Err(ParamError::Required(field.to_owned()))
        } else {
            Ok(text)
        },
        None => Err(ParamError::Required(field.to_owned())),
    }
}

/// Whether a text is taken for a prefix of settings: something is left of it without the
/// white space around it, and it has no dot.
pub open spec fn is_prefix_text(text: Seq<char>) -> bool {
    trimmed(text).len() > 0 && !trimmed(text).contains('.')
}

/// The prefixes among texts, without the white space around them.
pub open spec fn prefixes_of(texts: Seq<Seq<char>>) -> Set<Seq<char>> {
    Set::new(
        |prefix: Seq<char>|
            exists|i: int|
                0 <= i < texts.len() && is_prefix_text(#[trigger] texts[i]) && trimmed(texts[i])
                    == prefix,
    )
}

/// Takes the prefixes among texts.
pub fn sanitize_prefixes(values: &Vec<String>) -> (prefixes: Names)
    ensures
        prefixes@ == prefixes_of(crate::node::texts(values@)),
{
    let ghost texts = crate::node::texts(values@);
    let mut prefixes = Names::new();
    let mut i: usize = 0;
    while i < values.len()
        invariant
            i <= values@.len(),
            texts == crate::node::texts(values@),
            forall|prefix: Seq<char>| #[trigger]
                prefixes@.contains(prefix) <==> exists|j: int|
                    0 <= j < i && is_prefix_text(#[trigger] texts[j]) && trimmed(texts[j])
                        == prefix,
        decreases values@.len() - i,
    {
        let ghost before = prefixes@;
        let value = trim(values[i].as_str());
        let ghost taken = value@;
        assert(texts[i as int] == values@[i as int]@);
        if !value.as_str().is_empty() && !has_char(value.as_str(), '.') {
            prefixes.insert(value);
        }
        proof {
            let after = prefixes@;
            assert forall|prefix: Seq<char>| #[trigger]
                after.contains(prefix) <==> exists|j: int|
                    0 <= j < i + 1 && is_prefix_text(#[trigger] texts[j]) && trimmed(texts[j])
                        == prefix by {
                if before.contains(prefix) {
                    let j = choose|j: int|
                        0 <= j < i && is_prefix_text(#[trigger] texts[j]) && trimmed(texts[j])
                            == prefix;
                    assert(is_prefix_text(texts[j]));
                } else if after.contains(prefix) {
                    assert(is_prefix_text(texts[i as int]));
                }
            }
        }
        i += 1;
    }
    assert(prefixes@ =~= prefixes_of(texts));
    prefixes
}

/// The part of a setting's name before the first dot is one of the prefixes.
pub open spec fn known_prefix(prefixes: Set<Seq<char>>, setting: Seq<char>) -> bool {
    prefixes.contains(before_first(setting, '.'))
}

/// Whether a setting is one that the base may hold.
pub fn has_known_prefix(prefixes: &Names, setting: &str) -> (known: bool)
    ensures
        known == known_prefix(prefixes@, setting@),
{
    prefixes.contains(cut_before(setting, '.').as_str())
}

/// The texts of a list of texts.
pub open spec fn list_texts(json: Json) -> Seq<Seq<char>> {
    Seq::new(json->List_0.len(), |i: int| json->List_0[i]->Text_0)
}

/// What [`known_setting_prefixes`] gives.
pub open spec fn prefixes_verdict(params: Json, result: Result<Names, ParamError>) -> bool {
    match member_of(params, "knownSettingPrefixes"@) {
        Some(Json::List(items)) => if is_text_list(Json::List(items)) {
            result matches Ok(prefixes) && prefixes@ == prefixes_of(list_texts(Json::List(items)))
        } else {
            result == Err::<Names, ParamError>(ParamError::PrefixesNotTexts)
        },
        _ => result matches Err(ParamError::Required(name)) && name@ == "knownSettingPrefixes"@,
    }
}

/// Takes the prefixes of the settings that the base may hold from the parameters.
pub fn known_setting_prefixes(params: &JsonValue) -> (result: Result<Names, ParamError>)
    ensures
        prefixes_verdict(params@, result),
{
    match get_member(params, "knownSettingPrefixes") {
        Some(JsonValue::Array(items)) => {
            proof {
                lemma_array_json(*items);
            }
            let ghost row = jsons(items@);
            let ghost list = Json::List(row);
            let mut texts: Vec<String> = Vec::new();
            let mut i: usize = 0;
            while i < items.len()
                invariant
                    i <= items@.len(),
                    row == jsons(items@),
                    list == Json::List(row),
                    member_of(params@, "knownSettingPrefixes"@) == Some(list),
                    texts@.len() == i,
                    forall|j: int|
                        0 <= j < i ==> #[trigger] row[j] == Json::Text(texts@[j]@),
                decreases items@.len() - i,
            {
                assert(row[i as int] == items@[i as int]@);
                match &items[i] {
                    JsonValue::String(text) => {
                        texts.push(text.clone());
                    },
                    _ => {
                        assert(!(list->List_0[i as int] is Text));
                        return Err(ParamError::PrefixesNotTexts);
                    },
                }
                i += 1;
            }
            proof {
                assert forall|j: int| 0 <= j < row.len() implies #[trigger] list->List_0[j] is Text by {
                    assert(row[j] == Json::Text(texts@[j]@));
                }
                assert(crate::node::texts(texts@) =~= list_texts(list)) by {
                    assert forall|j: int| 0 <= j < row.len() implies texts@[j]@
                        == list->List_0[j]->Text_0 by {
                        assert(row[j] == Json::Text(texts@[j]@));
                    }
                }
            }
            Ok(sanitize_prefixes(&texts))
        },
        _ => Err(ParamError::Required("knownSettingPrefixes".to_owned())),
    }
}

/// What a request asks for.
#[derive(Debug, PartialEq)]
pub enum Route {
    Initialize,
    ListProfiles,
    Export { destination: String },
    Import { archive: String },
    Status,
    BuildPreview(Names),
    BuildApply(Names),
    Compile,
    Reconcile,
    Diff,
    Doctor,
    Origin,
    ResolveConflicts,
    Mutate,
    SourcePath,
    Shutdown,
}

/// What [`check_version`] gives.
pub open spec fn version_verdict(
    params: Json,
    supported: u32,
    result: Result<(), ParamError>,
) -> bool {
    match member_of(params, "protocolVersion"@) {
        Some(Json::Number(Num::PosInt(version))) => if version == supported {
            result is Ok
        } else {
            result == Err::<(), ParamError>(ParamError::IncompatibleVersion(version))
        },
        _ => result matches Err(ParamError::Required(name)) && name@ == "protocolVersion"@,
    }
}

/// Checks that the version of the protocol in the parameters is the one that is supported.
pub fn check_version(params: &JsonValue, supported: u32) -> (result: Result<(), ParamError>)
    ensures
        version_verdict(params@, supported, result),
{
    match get_member(params, "protocolVersion") {
        Some(JsonValue::Number(Number::PosInt(version))) => if *version == supported as u64 {
            Ok(())
        } else {
            Err(ParamError::IncompatibleVersion(*version))
        },
        _ => Err(ParamError::Required("protocolVersion".to_owned())),
    }
}

/// What a request asks for, or what is wrong with it: the parameters are looked at where
/// they are needed before anything else.
pub open spec fn route_verdict(
    method: Seq<char>,
    params: Json,
    supported: u32,
    result: Result<Route, ParamError>,
) -> bool {
    if method == "initialize"@ {
        match result {
            Ok(route) => route == Route::Initialize && version_verdict(params, supported, Ok(())),
            Err(error) => version_verdict(params, supported, Err(error)),
        }
    } else if method == "profiles/list"@ {
        result == Ok::<Route, ParamError>(Route::ListProfiles)
    } else if method == "profiles/export"@ {
        match text_param(params, "destination"@) {
            Some(path) if path.len() > 0 => result matches Ok(Route::Export { destination })
                && destination@ == path,
            _ => result matches Err(ParamError::Required(name)) && name@ == "destination"@,
        }
    } else if method == "profiles/import"@ {
        match text_param(params, "archive"@) {
            Some(path) if path.len() > 0 => result matches Ok(Route::Import { archive })
                && archive@ == path,
            _ => result matches Err(ParamError::Required(name)) && name@ == "archive"@,
        }
    } else if method == "status"@ {
        result == Ok::<Route, ParamError>(Route::Status)
    } else if method == "build/preview"@ {
        match result {
            Ok(Route::BuildPreview(prefixes)) => prefixes_verdict(params, Ok(prefixes)),
            Ok(_) => false,
            Err(error) => prefixes_verdict(params, Err(error)),
        }
    } else if method == "build/apply"@ {
        match result {
            Ok(Route::BuildApply(prefixes)) => prefixes_verdict(params, Ok(prefixes)),
            Ok(_) => false,
            Err(error) => prefixes_verdict(params, Err(error)),
        }
    } else if method == "compile"@ {
        result == Ok::<Route, ParamError>(Route::Compile)
    } else if method == "reconcile"@ {
        result == Ok::<Route, ParamError>(Route::Reconcile)
    } else if method == "diff"@ {
        result == Ok::<Route, ParamError>(Route::Diff)
    } else if method == "doctor"@ {
        result == Ok::<Route, ParamError>(Route::Doctor)
    } else if method == "settings/origin"@ {
        result == Ok::<Route, ParamError>(Route::Origin)
    } else if method == "conflicts/resolveAll"@ {
        result == Ok::<Route, ParamError>(Route::ResolveConflicts)
    } else if "settings/"@.is_prefix_of(method) {
        result == Ok::<Route, ParamError>(Route::Mutate)
    } else if method == "source/path"@ {
        result == Ok::<Route, ParamError>(Route::SourcePath)
    } else if method == "shutdown"@ {
        result == Ok::<Route, ParamError>(Route::Shutdown)
    } else {
        result matches Err(ParamError::MethodNotFound(found)) && found@ == method
    }
}

/// Finds what a request asks for: `supported` is the version of the protocol.
pub fn route(method: &str, params: &JsonValue, supported: u32) -> (result: Result<
    Route,
    ParamError,
>)
    ensures
        route_verdict(method@, params@, supported, result),
{
    if same_text(method, "initialize") {
        match check_version(params, supported) {
            Ok(()) => Ok(Route::Initialize),
            Err(error) => Err(error),
        }
    } else if same_text(method, "profiles/list") {
        Ok(Route::ListProfiles)
    } else if same_text(method, "profiles/export") {
        match archive_path(params, "destination") {
            Ok(destination) => Ok(Route::Export { destination }),
            Err(error) => Err(error),
        }
    } else if same_text(method, "profiles/import") {
        match archive_path(params, "archive") {
            Ok(archive) => Ok(Route::Import { archive }),
            Err(error) => Err(error),
        }
    } else if same_text(method, "status") {
        Ok(Route::Status)
    } else if same_text(method, "build/preview") {
        match known_setting_prefixes(params) {
            Ok(prefixes) => Ok(Route::BuildPreview(prefixes)),
            Err(error) => Err(error),
        }
    } else if same_text(method, "build/apply") {
        match known_setting_prefixes(params) {
            Ok(prefixes) => Ok(Route::BuildApply(prefixes)),
            Err(error) => Err(error),
        }
    } else if same_text(method, "compile") {
        Ok(Route::Compile)
    } else if same_text(method, "reconcile") {
        Ok(Route::Reconcile)
    } else if same_text(method, "diff") {
        Ok(Route::Diff)
    } else if same_text(method, "doctor") {
        Ok(Route::Doctor)
    } else if same_text(method, "settings/origin") {
        Ok(Route::Origin)
    } else if same_text(method, "conflicts/resolveAll") {
        Ok(Route::ResolveConflicts)
    } else if begins_with(method, "settings/") {
        Ok(Route::Mutate)
    } else if same_text(method, "source/path") {
        Ok(Route::SourcePath)
    } else if same_text(method, "shutdown") {
        Ok(Route::Shutdown)
    } else {
        Err(ParamError::MethodNotFound(method.to_owned()))
    }
}

} // verus!
