//! Requests to the transcription server, and what is made of its replies.

use crate::text;
use vstd::prelude::*;

verus! {

/// How many bytes of a refusal are reported.
pub const REFUSAL_BYTES: usize = 400;

/// How many bytes of a reply that cannot be read are reported.
pub const UNREADABLE_BYTES: usize = 200;

/// A path on a server, whose address may end in slashes.
pub open spec fn url(server: Seq<char>, path: Seq<char>) -> Seq<char> {
    text::without_trailing(server, '/') + path
}

/// The address that lists the models of a server.
pub fn models_url(server: &str) -> (address: String)
    ensures
        address@ == url(server@, "/v1/models"@),
{
    let server = text::strip_trailing(server, '/');
    text::concat(server.as_str(), "/v1/models")
}

/// A slash at the end of the address of a server makes no difference.
pub proof fn law_server_slash(server: Seq<char>, path: Seq<char>)
    ensures
        url(server.push('/'), path) == url(server, path),
{
    assert(server.push('/').drop_last() =~= server);
}

/// What is asked of a transcription server.
pub struct AsrClient {
    pub url: String,
    pub model: String,
    pub language: Option<String>,
    pub max_tokens: u32,
}

/// A named value of a form.
pub struct Field {
    pub name: String,
    pub value: String,
}

/// The names and values of a form.
pub open spec fn field_views(fields: Seq<Field>) -> Seq<(Seq<char>, Seq<char>)> {
    fields.map_values(|f: Field| (f.name@, f.value@))
}

fn push_field(fields: &mut Vec<Field>, name: &str, value: &str)
    ensures
        field_views(final(fields)@) == field_views(old(fields)@).push((name@, value@)),
{
    fields.push(Field { name: name.to_owned(), value: value.to_owned() });
    assert(field_views(fields@) =~= field_views(old(fields)@).push((name@, value@)));
}

impl AsrClient {
    /// The values that are sent with each recording.
    pub open spec fn form(&self) -> Seq<(Seq<char>, Seq<char>)> {
        let always = seq![
            ("model"@, self.model@),
            ("max_completion_tokens"@, text::decimal(self.max_tokens as nat)),
        ];
        match self.language {
            Some(language) => always.push(("language"@, language@)),
            None => always,
        }
    }

    /// A client of the server at an address, which may end in slashes.
    pub fn new(
        server: String,
        model: String,
        language: Option<String>,
        max_tokens: u32,
    ) -> (client: Self)
        ensures
            client.url@ == url(server@, "/v1/audio/transcriptions"@),
            client.model == model,
            client.language == language,
            client.max_tokens == max_tokens,
    {
        let server = text::strip_trailing(server.as_str(), '/');
        let url = text::concat(server.as_str(), "/v1/audio/transcriptions");
        AsrClient { url, model, language, max_tokens }
    }

    /// The values that are sent with each recording.
    pub fn form_fields(&self) -> (fields: Vec<Field>)
        ensures
            field_views(fields@) == self.form(),
    {
        let mut fields: Vec<Field> = Vec::new();
        push_field(&mut fields, "model", self.model.as_str());
        let tokens = text::to_decimal(self.max_tokens as u64);
        push_field(&mut fields, "max_completion_tokens", tokens.as_str());
        if let Some(language) = &self.language {
            push_field(&mut fields, "language", language.as_str());
        }
        assert(field_views(fields@) =~= self.form());
        fields
    }
}

/// Whether a status says that the request was carried out.
pub open spec fn is_success(status: u16) -> bool {
    200 <= status < 300
}

/// What a reply comes to, given its status, how the status reads, what its body
/// says if it can be read (a text, or none) and the body itself.
///
/// A request that was not carried out is an error, and so is a body that cannot be
/// read; a body without a text is an empty transcription.  The error quotes the
/// start of the body.  There is no outcome if that quotation would end within a
/// character.
pub open spec fn outcome(
    status: u16,
    reason: Seq<char>,
    parsed: Result<Option<String>, String>,
    body: Seq<char>,
    result: Option<Result<String, String>>,
) -> bool {
    if !is_success(status) {
        fails_with(result, "ASR HTTP "@ + reason + ": "@, body, REFUSAL_BYTES as int)
    } else {
        match parsed {
            Ok(said) => result matches Some(Ok(t)) && t@ == match said {
                Some(s) => s@,
                None => Seq::empty(),
            },
            Err(error) => fails_with(
                result,
                "decode ASR json: "@ + error@ + " | body: "@,
                body,
                UNREADABLE_BYTES as int,
            ),
        }
    }
}

/// Whether a result is an error that quotes the first `n` bytes of a body, or nothing
/// if that quotation would end within a character.
pub open spec fn fails_with(
    result: Option<Result<String, String>>,
    prefix: Seq<char>,
    body: Seq<char>,
    n: int,
) -> bool {
    match result {
        Some(Ok(_)) => false,
        Some(Err(message)) => text::quotes(Some(message), prefix, body, n),
        None => text::quotes(None, prefix, body, n),
    }
}

fn failure(prefix: &str, body: &str, n: usize) -> (result: Option<Result<String, String>>)
    ensures
        fails_with(result, prefix@, body@, n as int),
{
    match text::quote(prefix, body, n) {
        Some(message) => Some(Err(message)),
        None => None,
    }
}

/// What a reply with a given text as its body comes to.
pub fn transcription_of(
    status: u16,
    reason: &str,
    parsed: Result<Option<String>, String>,
    body: &str,
) -> (result: Option<Result<String, String>>)
    ensures
        outcome(status, reason@, parsed, body@, result),
{
    if status < 200 || 300 <= status {
        let mut prefix = "ASR HTTP ".to_owned();
        prefix.append(reason);
        prefix.append(": ");
        return failure(prefix.as_str(), body, REFUSAL_BYTES);
    }
    match parsed {
        Ok(Some(said)) => Some(Ok(said)),
        Ok(None) => Some(Ok(String::new())),
        Err(error) => {
            let mut prefix = "decode ASR json: ".to_owned();
            prefix.append(error.as_str());
            prefix.append(" | body: ");
            failure(prefix.as_str(), body, UNREADABLE_BYTES)
        },
    }
}

/// What a reply comes to.
pub fn transcription(
    status: u16,
    reason: &str,
    parsed: Result<Option<String>, String>,
    body: &[u8],
) -> (result: Option<Result<String, String>>)
    ensures
        outcome(status, reason@, parsed, text::lossy_text(body@), result),
{
    let body = text::decode_lossy(body);
    transcription_of(status, reason, parsed, body.as_str())
}

} // verus!
