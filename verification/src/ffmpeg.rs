//! How ffmpeg is asked for samples, and what is made of its answer.

use crate::text;
use vstd::prelude::*;

verus! {

/// How many bytes of what ffmpeg complains about are reported.
pub const COMPLAINT_BYTES: usize = 500;

/// The arguments before the name of the input: read nothing from the terminal, and
/// print nothing but errors.
pub open spec fn before_input() -> Seq<Seq<char>> {
    seq!["-nostdin"@, "-hide_banner"@, "-loglevel"@, "error"@, "-y"@, "-i"@]
}

/// The arguments after the name of the input: no video, one channel at 16 kHz, in
/// bare 16-bit little-endian samples, to standard output.
pub open spec fn after_input() -> Seq<Seq<char>> {
    seq!["-vn"@, "-ac"@, "1"@, "-ar"@, "16000"@, "-c:a"@, "pcm_s16le"@, "-f"@, "s16le"@, "-"@]
}

/// The arguments before the name of the input.
pub fn args_before_input() -> (args: Vec<String>)
    ensures
        text::views(args@) == before_input(),
{
    let mut args: Vec<String> = Vec::new();
    text::push_text(&mut args, "-nostdin");
    text::push_text(&mut args, "-hide_banner");
    text::push_text(&mut args, "-loglevel");
    text::push_text(&mut args, "error");
    text::push_text(&mut args, "-y");
    text::push_text(&mut args, "-i");
    assert(text::views(args@) =~= before_input());
    args
}

/// The arguments after the name of the input.
pub fn args_after_input() -> (args: Vec<String>)
    ensures
        text::views(args@) == after_input(),
{
    let mut args: Vec<String> = Vec::new();
    text::push_text(&mut args, "-vn");
    text::push_text(&mut args, "-ac");
    text::push_text(&mut args, "1");
    text::push_text(&mut args, "-ar");
    text::push_text(&mut args, "16000");
    text::push_text(&mut args, "-c:a");
    text::push_text(&mut args, "pcm_s16le");
    text::push_text(&mut args, "-f");
    text::push_text(&mut args, "s16le");
    text::push_text(&mut args, "-");
    assert(text::views(args@) =~= after_input());
    args
}

/// How an exit code reads, if the program was not stopped by a signal.
pub open spec fn exit_text(code: Option<i32>) -> Seq<char> {
    match code {
        Some(c) => "Some("@ + text::signed_decimal(c as int) + ")"@,
        None => "None"@,
    }
}

fn exit_string(code: Option<i32>) -> (s: String)
    ensures
        s@ == exit_text(code),
{
    match code {
        Some(c) => {
            let mut s = "Some(".to_owned();
            s.append(text::to_signed_decimal(c).as_str());
            s.append(")");
            s
        },
        None => "None".to_owned(),
    }
}

/// Whether a result is the bytes that ffmpeg wrote if it succeeded, and else an error
/// that quotes the start of its complaint; nothing if that quotation would end within
/// a character.
pub open spec fn answered(
    success: bool,
    code: Option<i32>,
    stdout: Vec<u8>,
    complaint: Seq<char>,
    result: Option<Result<Vec<u8>, String>>,
) -> bool {
    let prefix = "ffmpeg failed (exit "@ + exit_text(code) + "): "@;
    let start = text::trimmed(complaint);
    match result {
        Some(Ok(bytes)) => success && bytes == stdout,
        Some(Err(message)) => !success && text::quotes(
            Some(message),
            prefix,
            start,
            COMPLAINT_BYTES as int,
        ),
        None => !success && text::quotes(None, prefix, start, COMPLAINT_BYTES as int),
    }
}

/// What ffmpeg answered, given what it complained about.
pub fn pcm_or(success: bool, code: Option<i32>, stdout: Vec<u8>, complaint: &str) -> (result: Option<
    Result<Vec<u8>, String>,
>)
    ensures
        answered(success, code, stdout, complaint@, result),
{
    if success {
        return Some(Ok(stdout));
    }
    let complaint = text::trim(complaint);
    let mut prefix = "ffmpeg failed (exit ".to_owned();
    prefix.append(exit_string(code).as_str());
    prefix.append("): ");
    match text::quote(prefix.as_str(), complaint.as_str(), COMPLAINT_BYTES) {
        Some(message) => Some(Err(message)),
        None => None,
    }
}

/// What ffmpeg answered.
pub fn pcm_of(success: bool, code: Option<i32>, stdout: Vec<u8>, stderr: &[u8]) -> (result: Option<
    Result<Vec<u8>, String>,
>)
    ensures
        answered(success, code, stdout, text::lossy_text(stderr@), result),
{
    let complaint = text::decode_lossy(stderr);
    pcm_or(success, code, stdout, complaint.as_str())
}

} // verus!
