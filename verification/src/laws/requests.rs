//! Laws of requests: the numbers and lines that they come with, and what each asks for.

use vstd::prelude::*;
use vstd::utf8::{decode_utf8, encode_utf8, valid_utf8};
use crate::backend::archive_name;
use crate::decimal::{
    decimal, decimal_text, digits_value, numeral_value, read_numeral, signed_decimal_text,
};
use crate::frames::{frame_of, frame_step, law_frame_reads_back, line_end, take_frame, FrameStep};
use crate::json::{Json, JsonValue, Num};
use crate::laws::edits::{says, says_no_text, says_nothing};
use crate::protocol::{
    archive_path, check_version, decide_reply, frame_header, get_text, header_step,
    known_setting_prefixes, read_header_line, route, HeaderStep, ParamError, Reply, Route,
};
use crate::registry::get_member;
use crate::table::Names;
use crate::text::trimmed;

verus! {

/// A numeral of one digit is the digit, and one of more is the numeral of the tens with the digit
/// of the ones behind it.
pub proof fn law_numerals(n: nat)
    ensures
        n < 10 ==> decimal(n).len() == 1 && decimal(n)[0] as u32 == n + 48,
        n >= 10 ==> decimal(n).len() == decimal(n / 10).len() + 1 && decimal(n).drop_last()
            == decimal(n / 10) && decimal(n).last() as u32 == n % 10 + 48,
        decimal(n).len() > 0,
{
    reveal_with_fuel(decimal, 2);
    if n >= 10 {
        assert(decimal(n).drop_last() =~= decimal(n / 10));
    }
}

/// Writing a number writes its numeral, with a minus sign before that of a negative one.
pub proof fn law_writing_numerals(n: u128, text: String, m: i64, signed: String)
    requires
        call_ensures(decimal_text, (n,), text),
        call_ensures(signed_decimal_text, (m,), signed),
    ensures
        text@ == decimal(n as nat),
        m >= 0 ==> signed@ == decimal(m as nat),
        m < 0 ==> signed@ == seq!['-'] + decimal((-m) as nat),
{
}

/// A row of digits stands for ten times what the row before its last digit stands for, and the
/// digit.
pub proof fn law_rows_of_digits(row: Seq<char>, digit: char)
    requires
        '0' <= digit <= '9',
    ensures
        digits_value(Seq::empty()) == 0,
        digits_value(row.push(digit)) == digits_value(row) * 10 + (digit as u32 - 48),
{
    assert(row.push(digit).drop_last() =~= row);
}

/// Reading a numeral gives the number that its digits stand for, with or without a plus sign. A
/// text that is no row of digits is no numeral, and neither is one of a number that is too great.
pub proof fn law_reading_numerals(text: &str, number: Option<usize>, row: Seq<char>)
    requires
        call_ensures(read_numeral, (text,), number),
        text@ == seq!['+'] + row || (text@ == row && (row.len() == 0 || row[0] != '+')),
    ensures
        number is Some <==> row.len() > 0 && (forall|i: int|
            0 <= i < row.len() ==> '0' <= #[trigger] row[i] <= '9') && digits_value(row)
            <= usize::MAX,
        number is Some ==> number->0 == digits_value(row),
{
    if text@ == seq!['+'] + row {
        assert(text@.first() == '+');
        assert(text@.drop_first() =~= row);
    }
}

/// A line of a header ends it where it is empty. One that tells a length is read for it, in either
/// spelling of its name, and any other is passed over.
pub proof fn law_reading_a_header_line(
    length: Option<usize>,
    line: &str,
    step: HeaderStep,
    value: Seq<char>,
)
    requires
        call_ensures(read_header_line, (length, line), step),
    ensures
        step is End <==> line@ == "\r\n"@ || line@ == "\n"@,
        line@ == "Content-Length:"@ + value || line@ == "content-length:"@ + value ==> match
        numeral_value(trimmed(value), usize::MAX as nat) {
            Some(n) => step == HeaderStep::More(Some(n as usize)),
            None => step == HeaderStep::BadLength,
        },
        !(step is End) && !"Content-Length:"@.is_prefix_of(line@)
            && !"content-length:"@.is_prefix_of(line@) ==> step == HeaderStep::More(length),
{
    reveal_strlit("Content-Length:");
    reveal_strlit("content-length:");
    reveal_strlit("\r\n");
    reveal_strlit("\n");
    let upper = "Content-Length:"@;
    let lower = "content-length:"@;
    if line@ == upper + value {
        assert(upper =~= line@.subrange(0, upper.len() as int));
        assert(line@.skip(upper.len() as int) =~= value);
        assert(line@[0] == 'C');
    }
    if line@ == lower + value {
        assert(lower =~= line@.subrange(0, lower.len() as int));
        assert(line@.skip(lower.len() as int) =~= value);
        assert(line@[0] == 'c');
        if upper.is_prefix_of(line@) {
            assert(upper[0] == line@.subrange(0, upper.len() as int)[0]);
        }
    }
}

/// The header of a frame tells the length of its body and ends with an empty line.
pub proof fn law_writing_a_header(length: usize, header: String)
    requires
        call_ensures(frame_header, (length,), header),
    ensures
        header@ == "Content-Length: "@ + decimal(length as nat) + "\r\n"@ + "\r\n"@,
{
}

/// A frame that is made of a body is taken again as it is, whatever follows it.
pub proof fn law_taking_frames(
    body: &[u8],
    frame: Vec<u8>,
    bytes: &[u8],
    ended: bool,
    step: FrameStep,
    rest: Seq<u8>,
)
    requires
        call_ensures(frame_of, (body,), frame),
        call_ensures(take_frame, (bytes, ended), step),
        bytes@ == frame@ + rest,
        bytes@.len() <= usize::MAX,
    ensures
        frame@ == encode_utf8(
            "Content-Length: "@ + decimal(body@.len()) + "\r\n"@ + "\r\n"@,
        ) + body@,
        step is Body,
        step->from <= step->to <= bytes@.len(),
        bytes@.subrange(step->from as int, step->to as int) == body@,
        bytes@.skip(step->to as int) == rest,
{
    law_frame_reads_back(body@, rest, ended);
}

/// The bytes of a header are taken line by line. A line that is no text, or tells a length that is
/// none, ends the reading, and so does the empty line: the body then has the length that was told
/// last. Any other line is passed over for what follows it.
pub proof fn law_taking_lines(
    before: Seq<u8>,
    line: Seq<u8>,
    rest: Seq<u8>,
    length: Option<usize>,
    ended: bool,
)
    requires
        line.len() > 0,
        line.last() == 10,
        forall|i: int| 0 <= i < line.len() - 1 ==> #[trigger] line[i] != 10,
        (before + line + rest).len() <= usize::MAX,
    ensures
        ({
            let bytes = before + line + rest;
            let start = before.len() as int;
            let end = (before.len() + line.len()) as int;
            let step = frame_step(bytes, start, length, ended);
            let text = decode_utf8(line);
            let empty = text == "\r\n"@ || text == "\n"@;
            &&& !valid_utf8(line) ==> step is NotText
            &&& valid_utf8(line) && empty && length is None ==> step is NoLength
            &&& valid_utf8(line) && empty && length is Some ==> if length->0 <= rest.len() {
                step is Body && step->from == end && step->to == end + length->0
            } else if ended {
                step is CutShort
            } else {
                step is More
            }
            &&& valid_utf8(line) && !empty ==> match header_step(length, text) {
                HeaderStep::BadLength => step is BadLength,
                HeaderStep::More(told) => step == frame_step(bytes, end, told, ended),
                HeaderStep::End => false,
            }
        }),
{
    let bytes = before + line + rest;
    let start = before.len() as int;
    let end = (before.len() + line.len()) as int;
    lemma_first_line(bytes, start, end, line);
    assert(bytes.subrange(start, end) =~= line);
}

proof fn lemma_first_line(bytes: Seq<u8>, at: int, end: int, line: Seq<u8>)
    requires
        0 <= at < end <= bytes.len(),
        end - at <= line.len(),
        bytes[end - 1] == 10,
        forall|i: int| 0 <= i < line.len() - 1 ==> #[trigger] line[i] != 10,
        forall|i: int|
            at <= i < end ==> #[trigger] bytes[i] == line[i - (end - line.len())],
    ensures
        line_end(bytes, at) == Some(end),
    decreases end - at,
{
    if at < end - 1 {
        assert(bytes[at] == line[at - (end - line.len())]);
        lemma_first_line(bytes, at + 1, end, line);
    }
}

/// Where no line ends any more, more bytes are waited for. Where none will come there is no
/// further frame, but for what is wrong with the line that does not end.
pub proof fn law_taking_the_last_line(before: Seq<u8>, line: Seq<u8>, length: Option<usize>)
    requires
        forall|i: int| 0 <= i < line.len() ==> #[trigger] line[i] != 10,
    ensures
        frame_step(before + line, before.len() as int, length, false) is More,
        line.len() == 0 ==> frame_step(before + line, before.len() as int, length, true) is Ended,
        line.len() > 0 && !valid_utf8(line) ==> frame_step(
            before + line,
            before.len() as int,
            length,
            true,
        ) is NotText,
        line.len() > 0 && valid_utf8(line) ==> if header_step(
            length,
            decode_utf8(line),
        ) is BadLength {
            frame_step(before + line, before.len() as int, length, true) is BadLength
        } else {
            frame_step(before + line, before.len() as int, length, true) is Ended
        },
{
    let bytes = before + line;
    let start = before.len() as int;
    assert forall|i: int| start <= i < bytes.len() implies #[trigger] bytes[i] != 10 by {
        assert(bytes[i] == line[i - start]);
    }
    lemma_no_line(bytes, start);
    assert(bytes.skip(start) =~= line);
}

proof fn lemma_no_line(bytes: Seq<u8>, at: int)
    requires
        0 <= at <= bytes.len(),
        forall|i: int| at <= i < bytes.len() ==> #[trigger] bytes[i] != 10,
    ensures
        line_end(bytes, at) is None,
    decreases bytes.len() - at,
{
    if at < bytes.len() {
        lemma_no_line(bytes, at + 1);
    }
}

/// Taking a frame begins with the first line, before any length is told.
pub proof fn law_taking_from_the_start(bytes: &[u8], ended: bool, step: FrameStep)
    requires
        call_ensures(take_frame, (bytes, ended), step),
    ensures
        step == frame_step(bytes@, 0, None, ended),
{
}

/// A message of another protocol is passed over. Without an id it is too, unless it asks to exit,
/// which ends the service. Any other is answered, and the service ends behind a shutdown.
pub proof fn law_deciding_replies(jsonrpc: &str, id: bool, method: &str, reply: Reply)
    requires
        call_ensures(decide_reply, (jsonrpc, id, method), reply),
    ensures
        jsonrpc@ != "2.0"@ ==> reply == Reply::Ignore,
        jsonrpc@ == "2.0"@ && !id && method@ == "exit"@ ==> reply == Reply::Stop,
        jsonrpc@ == "2.0"@ && !id && method@ != "exit"@ ==> reply == Reply::Ignore,
        jsonrpc@ == "2.0"@ && id && method@ == "shutdown"@ ==> reply == Reply::AnswerAndStop,
        jsonrpc@ == "2.0"@ && id && method@ != "shutdown"@ ==> reply == Reply::Answer,
{
}

/// A parameter is what the object of the parameters has under its name, and a text where that is
/// one.
pub proof fn law_taking_parameters(
    params: &JsonValue,
    name: &str,
    member: Option<&JsonValue>,
    text: Option<String>,
    path: Result<String, ParamError>,
    found: Seq<char>,
)
    requires
        call_ensures(get_member, (params, name), member),
        call_ensures(get_text, (params, name), text),
        call_ensures(archive_path, (params, name), path),
    ensures
        member is None <==> says_nothing(params@, name@),
        member is Some ==> says(params@, name@, member->0@),
        text is None <==> says_no_text(params@, name@),
        says(params@, name@, Json::Text(found)) ==> text is Some && text->0@ == found,
        says(params@, name@, Json::Text(found)) && found.len() > 0 ==> path is Ok && path->Ok_0@
            == found,
        says(params@, name@, Json::Text(found)) && found.len() == 0 ==> (path matches Err(
            ParamError::Required(lacking),
        ) && lacking@ == name@),
        says_no_text(params@, name@) ==> (path matches Err(ParamError::Required(lacking))
            && lacking@ == name@),
{
    if let Some(inner) = crate::protocol::text_param(params@, name@) {
        assert(says(params@, name@, Json::Text(inner)));
    }
}

/// The version of the protocol has to be there as a whole number, and to be the one that is
/// supported.
pub proof fn law_checking_versions(
    params: &JsonValue,
    supported: u32,
    result: Result<(), ParamError>,
    version: u64,
)
    requires
        call_ensures(check_version, (params, supported), result),
    ensures
        says(params@, "protocolVersion"@, Json::Number(Num::PosInt(version))) ==> (result is Ok
            <==> version == supported) && (version != supported ==> result == Err::<(), ParamError>(
            ParamError::IncompatibleVersion(version),
        )),
        (forall|n: u64| !(#[trigger] says(
            params@,
            "protocolVersion"@,
            Json::Number(Num::PosInt(n)),
        ))) ==> (result matches Err(ParamError::Required(name)) && name@ == "protocolVersion"@),
{
    if let Some(Json::Number(Num::PosInt(n))) = crate::registry::member_of(
        params@,
        "protocolVersion"@,
    ) {
        assert(says(params@, "protocolVersion"@, Json::Number(Num::PosInt(n))));
    }
}

/// The methods of requests are different ones.
proof fn lemma_method_names()
    ensures
        "initialize"@.len() == 10 && "initialize"@[0] == 'i',
        "profiles/list"@.len() == 13 && "profiles/list"@[0] == 'p',
        "profiles/export"@.len() == 15 && "profiles/export"@[9] == 'e' && "profiles/export"@[0]
            == 'p',
        "profiles/import"@.len() == 15 && "profiles/import"@[9] == 'i' && "profiles/import"@[0]
            == 'p',
        "status"@.len() == 6 && "status"@[0] == 's',
        "build/preview"@.len() == 13 && "build/preview"@[0] == 'b',
        "build/apply"@.len() == 11 && "build/apply"@[0] == 'b',
        "compile"@.len() == 7 && "compile"@[0] == 'c',
        "reconcile"@.len() == 9 && "reconcile"@[0] == 'r',
        "diff"@.len() == 4 && "diff"@[0] == 'd',
        "doctor"@.len() == 6 && "doctor"@[0] == 'd',
        "settings/origin"@.len() == 15 && "settings/origin"@[0] == 's',
        "conflicts/resolveAll"@.len() == 20 && "conflicts/resolveAll"@[0] == 'c',
        "source/path"@.len() == 11 && "source/path"@[0] == 's' && "source/path"@[1] == 'o',
        "shutdown"@.len() == 8 && "shutdown"@[0] == 's',
        "settings/"@.len() == 9 && "settings/"@[0] == 's' && "settings/"@[1] == 'e',
{
    reveal_strlit("initialize");
    reveal_strlit("profiles/list");
    reveal_strlit("profiles/export");
    reveal_strlit("profiles/import");
    reveal_strlit("status");
    reveal_strlit("build/preview");
    reveal_strlit("build/apply");
    reveal_strlit("compile");
    reveal_strlit("reconcile");
    reveal_strlit("diff");
    reveal_strlit("doctor");
    reveal_strlit("settings/origin");
    reveal_strlit("conflicts/resolveAll");
    reveal_strlit("source/path");
    reveal_strlit("shutdown");
    reveal_strlit("settings/");
}

/// Each request asks for what its method names, and no other method is known. Those that need
/// parameters are refused as their parameters are.
pub proof fn law_routing(
    method: &str,
    params: &JsonValue,
    supported: u32,
    result: Result<Route, ParamError>,
    version: Result<(), ParamError>,
    destination: Result<String, ParamError>,
    archive: Result<String, ParamError>,
    prefixes: Result<Names, ParamError>,
)
    requires
        call_ensures(route, (method, params, supported), result),
        call_ensures(check_version, (params, supported), version),
        call_ensures(archive_path, (params, "destination"), destination),
        call_ensures(archive_path, (params, "archive"), archive),
        call_ensures(known_setting_prefixes, (params,), prefixes),
    ensures
        method@ == "initialize"@ ==> if version is Ok {
            result matches Ok(Route::Initialize)
        } else {
            result is Err
        },
        method@ == "profiles/list"@ ==> result matches Ok(Route::ListProfiles),
        method@ == "profiles/export"@ ==> if destination is Ok {
            result matches Ok(Route::Export { destination: path }) && path@ == destination->Ok_0@
        } else {
            result matches Err(ParamError::Required(name)) && name@ == "destination"@
        },
        method@ == "profiles/import"@ ==> if archive is Ok {
            result matches Ok(Route::Import { archive: path }) && path@ == archive->Ok_0@
        } else {
            result matches Err(ParamError::Required(name)) && name@ == "archive"@
        },
        method@ == "status"@ ==> result matches Ok(Route::Status),
        method@ == "build/preview"@ ==> if prefixes is Ok {
            result matches Ok(Route::BuildPreview(found)) && found@ == prefixes->Ok_0@
        } else {
            result is Err
        },
        method@ == "build/apply"@ ==> if prefixes is Ok {
            result matches Ok(Route::BuildApply(found)) && found@ == prefixes->Ok_0@
        } else {
            result is Err
        },
        method@ == "compile"@ ==> result matches Ok(Route::Compile),
        method@ == "reconcile"@ ==> result matches Ok(Route::Reconcile),
        method@ == "diff"@ ==> result matches Ok(Route::Diff),
        method@ == "doctor"@ ==> result matches Ok(Route::Doctor),
        method@ == "settings/origin"@ ==> result matches Ok(Route::Origin),
        method@ == "conflicts/resolveAll"@ ==> result matches Ok(Route::ResolveConflicts),
        "settings/"@.is_prefix_of(method@) && method@ != "settings/origin"@ ==> result matches Ok(
            Route::Mutate,
        ),
        method@ == "source/path"@ ==> result matches Ok(Route::SourcePath),
        method@ == "shutdown"@ ==> result matches Ok(Route::Shutdown),
        method@ != "initialize"@ && method@ != "profiles/list"@ && method@ != "profiles/export"@
            && method@ != "profiles/import"@ && method@ != "status"@ && method@ != "build/preview"@
            && method@ != "build/apply"@ && method@ != "compile"@ && method@ != "reconcile"@
            && method@ != "diff"@ && method@ != "doctor"@ && method@ != "conflicts/resolveAll"@
            && !"settings/"@.is_prefix_of(method@) && method@ != "source/path"@ && method@
            != "shutdown"@ && method@ != "settings/origin"@ ==> (result matches Err(
            ParamError::MethodNotFound(name),
        ) && name@ == method@),
{
    lemma_method_names();
    let start = "settings/"@;
    assert forall|m: Seq<char>| start.is_prefix_of(m) implies m.len() >= 9 && #[trigger] m[0] == 's'
        && m[1] == 'e' by {
        assert(start[0] == m.subrange(0, 9)[0]);
        assert(start[1] == m.subrange(0, 9)[1]);
    }
    if start.is_prefix_of(method@) {
        assert(method@[0] == 's' && method@[1] == 'e');
    }
    reveal_strlit("shutdown");
    reveal_strlit("status");
    assert("shutdown"@[1] == 'h' && "status"@[1] == 't');
}

/// The name of an archive tells the time.
pub proof fn law_names_of_archives(timestamp: u128, name: String)
    requires
        call_ensures(archive_name, (timestamp,), name),
    ensures
        name@ == "strata-profiles-"@ + decimal(timestamp as nat),
{
}

} // verus!
