//! Requests to and results from the translation service, and the parts of a
//! service call that are computed rather than sent: the prompt, the
//! authorization header and the cleaned-up answer.

use crate::keyed::Keyed;
use vstd::prelude::*;
use vstd::string::*;

verus! {

/// One comment to translate into `language`.
#[derive(Clone, Debug)]
pub struct QueryRequest {
    pub language: String,
    pub text: String,
    pub text_checksum: u64,
}

/// A comment and its translation.
#[derive(Clone, Debug)]
pub struct QueryResult {
    pub text: String,
    pub text_translation: String,
    pub text_checksum: u64,
}

/// A result as a mathematical value.
pub struct ResultView {
    pub text: Seq<char>,
    pub text_translation: Seq<char>,
    pub text_checksum: u64,
}

impl Keyed for ResultView {
    open spec fn key(&self) -> u64 {
        self.text_checksum
    }
}

impl Keyed for QueryRequest {
    open spec fn key(&self) -> u64 {
        self.text_checksum
    }
}

impl View for QueryResult {
    type V = ResultView;

    open spec fn view(&self) -> ResultView {
        ResultView {
            text: self.text@,
            text_translation: self.text_translation@,
            text_checksum: self.text_checksum,
        }
    }
}

/// The results of `s` as values.
pub open spec fn views(s: Seq<QueryResult>) -> Seq<ResultView> {
    s.map_values(|q: QueryResult| q@)
}

impl QueryRequest {
    pub fn copied(&self) -> (r: QueryRequest)
        ensures
            r == *self,
    {
        QueryRequest {
            language: self.language.clone(),
            text: self.text.clone(),
            text_checksum: self.text_checksum,
        }
    }
}

impl QueryResult {
    pub fn copied(&self) -> (r: QueryResult)
        ensures
            r == *self,
    {
        QueryResult {
            text: self.text.clone(),
            text_translation: self.text_translation.clone(),
            text_checksum: self.text_checksum,
        }
    }
}

/// The address of the chat-completion service.
pub const ENDPOINT: &'static str = "https://openrouter.ai/api/v1/chat/completions";

/// What `str::trim` makes of a string.
pub uninterp spec fn trimmed(s: Seq<char>) -> Seq<char>;

/// Relies on `str::trim`: leading and trailing white space removed, a
/// result that depends on the characters alone.
#[verifier::external_body]
pub(crate) fn trim(s: &str) -> (r: String)
    ensures
        r@ == trimmed(s@),
{
    s.trim().to_string()
}

/// The instruction sent ahead of each comment.
pub open spec fn prompt_of(language: Seq<char>) -> Seq<char> {
    "You are a Language Translator. Detect the source language and translate it to \""@ + language
        + "\". Always just return the translation of the prompt. If there is nothing to translate, just return the original prompt."@
}

/// The model asked for.
pub open spec fn model_name() -> Seq<char> {
    "gpt-3.5-turbo"@
}

/// The answer of the service for a request: its first choice's content,
/// trimmed, or nothing where the reply holds none.
pub open spec fn answer_of(content: Option<Seq<char>>) -> Seq<char> {
    match content {
        Some(c) => trimmed(c),
        None => Seq::empty(),
    }
}

/// What a client of the service holds once built: the credential and the
/// model.
pub struct Translator {
    api_key: String,
    model: String,
}

impl Translator {
    pub closed spec fn spec_api_key(&self) -> Seq<char> {
        self.api_key@
    }

    pub closed spec fn spec_model(&self) -> Seq<char> {
        self.model@
    }

    /// Builds a client from the text of the credential file.
    pub fn new(key_file: &str) -> (r: Translator)
        ensures
            r.spec_api_key() == trimmed(key_file@),
            r.spec_model() == model_name(),
    {
        Translator { api_key: trim(key_file), model: String::from_str("gpt-3.5-turbo") }
    }

    pub fn model(&self) -> (r: &String)
        ensures
            r@ == self.spec_model(),
    {
        &self.model
    }

    /// The value of the `Authorization` header.
    pub fn authorization(&self) -> (r: String)
        ensures
            r@ == "Bearer "@ + self.spec_api_key(),
    {
        let mut r = String::from_str("Bearer ");
        r.append(self.api_key.as_str());
        r
    }

    /// The system instruction for a translation into `language`.
    pub fn system_prompt(&self, language: &str) -> (r: String)
        ensures
            r@ == prompt_of(language@),
    {
        let mut r = String::from_str(
            "You are a Language Translator. Detect the source language and translate it to \"",
        );
        r.append(language);
        r.append(
            "\". Always just return the translation of the prompt. If there is nothing to translate, just return the original prompt.",
        );
        r
    }

    /// The result for `request` once the service has replied with `content`,
    /// the first choice's message content where the reply holds one.
    pub fn query(&self, request: QueryRequest, content: Option<String>) -> (r: QueryResult)
        ensures
            r.text == request.text,
            r.text_checksum == request.text_checksum,
            r.text_translation@ == answer_of(
                match content {
                    Some(c) => Some(c@),
                    None => None,
                },
            ),
    {
        let text_translation = match content {
            Some(c) => trim(c.as_str()),
            None => String::new(),
        };
        QueryResult { text: request.text, text_translation, text_checksum: request.text_checksum }
    }
}

} // verus!
