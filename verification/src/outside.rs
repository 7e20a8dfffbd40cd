//! The calls into std and outside crates that this library makes, each with
//! the contract that is believed of it.
use vstd::prelude::*;

use base64::Engine;

use crate::convert::fields::keys_view;

verus! {

/// Collects the characters into a `String` (`FromIterator<char>` for
/// `String`): the result holds exactly these characters, in order.
#[verifier::external_body]
pub(crate) fn string_from_chars(v: &Vec<char>) -> (s: String)
    ensures
        s@ == v@,
{
    v.iter().collect()
}

/// A name for what `serde_yaml::from_str::<String>` gives for a YAML text:
/// the string that the text denotes, or none where it denotes no string.
pub uninterp spec fn yaml_str_scalar(text: Seq<char>) -> Option<Seq<char>>;

/// Calls `serde_yaml::from_str::<String>` on `text`: the string that the
/// YAML text denotes, or none where serde_yaml reports an error. Nothing is
/// stated of which texts denote which strings.
#[verifier::external_body]
pub(crate) fn parse_yaml_scalar(text: &str) -> (r: Option<String>)
    ensures
        match r {
            Some(s) => yaml_str_scalar(text@) == Some(s@),
            None => yaml_str_scalar(text@) is None,
        },
{
    serde_yaml::from_str::<String>(text).ok()
}

/// A URL as `url::Url` parses it, taken apart: scheme, user name and
/// password, host, explicit port (none where it is the scheme's default),
/// fragment, and the decoded query pairs in order.
pub struct UrlParts {
    pub scheme: String,
    pub username: String,
    pub password: Option<String>,
    pub host: Option<String>,
    pub port: Option<u16>,
    pub fragment: Option<String>,
    pub query: Vec<(String, String)>,
}

pub ghost struct UrlModel {
    pub scheme: Seq<char>,
    pub username: Seq<char>,
    pub password: Option<Seq<char>>,
    pub host: Option<Seq<char>>,
    pub port: Option<u16>,
    pub fragment: Option<Seq<char>>,
    pub query: Seq<(Seq<char>, Seq<char>)>,
}

pub open spec fn opt_text_view(o: Option<String>) -> Option<Seq<char>> {
    match o {
        Some(s) => Some(s@),
        None => None,
    }
}

impl View for UrlParts {
    type V = UrlModel;

    open spec fn view(&self) -> UrlModel {
        UrlModel {
            scheme: self.scheme@,
            username: self.username@,
            password: opt_text_view(self.password),
            host: opt_text_view(self.host),
            port: self.port,
            fragment: opt_text_view(self.fragment),
            query: Seq::new(self.query@.len(), |i: int| (self.query@[i].0@, self.query@[i].1@)),
        }
    }
}

/// A name for what `url::Url::parse` and the getters give for a text: the
/// parts of the URL, or none where the text is no URL.
pub uninterp spec fn url_parts(text: Seq<char>) -> Option<UrlModel>;

/// Parses `text` with `url::Url::parse` and reads `scheme`, `username`,
/// `password`, `host_str`, `port`, `fragment` and `query_pairs`. Nothing is
/// stated of which texts are URLs or what their parts are.
#[verifier::external_body]
pub(crate) fn parse_url(text: &str) -> (r: Option<UrlParts>)
    ensures
        match r {
            Some(u) => url_parts(text@) == Some(u@),
            None => url_parts(text@) is None,
        },
{
    let url = url::Url::parse(text).ok()?;
    Some(UrlParts {
        scheme: url.scheme().to_string(),
        username: url.username().to_string(),
        password: url.password().map(str::to_string),
        host: url.host_str().map(str::to_string),
        port: url.port(),
        fragment: url.fragment().map(str::to_string),
        query: url.query_pairs().map(|(k, v)| (k.into_owned(), v.into_owned())).collect(),
    })
}

/// A name for what `urlencoding::decode` gives for a text: the
/// percent-decoded text, or none where the decoded bytes are no UTF-8.
pub uninterp spec fn url_decoded(text: Seq<char>) -> Option<Seq<char>>;

/// Calls `urlencoding::decode`. A text without `%` comes back as it is (the
/// function returns its input borrowed); nothing else is stated of the
/// decoding.
#[verifier::external_body]
pub(crate) fn percent_decode(text: &str) -> (r: Option<String>)
    ensures
        match r {
            Some(s) => url_decoded(text@) == Some(s@),
            None => url_decoded(text@) is None,
        },
        !text@.contains('%') ==> r is Some && r->Some_0@ == text@,
{
    urlencoding::decode(text).ok().map(|v| v.into_owned())
}

/// A name for what the standard base64 engine of the `base64` crate
/// decodes a text to, or none where it reports an error.
pub uninterp spec fn base64_decoded(text: Seq<char>) -> Option<Seq<u8>>;

/// Calls `base64::engine::general_purpose::STANDARD.decode` on the text's
/// bytes. Nothing is stated of which texts decode to which bytes.
#[verifier::external_body]
pub(crate) fn base64_decode(text: &str) -> (r: Option<Vec<u8>>)
    ensures
        match r {
            Some(b) => base64_decoded(text@) == Some(b@),
            None => base64_decoded(text@) is None,
        },
{
    base64::engine::general_purpose::STANDARD.decode(text.as_bytes()).ok()
}

/// Calls `String::from_utf8`, which std documents as succeeding exactly when
/// the bytes are valid UTF-8, giving the characters they encode (vstd's
/// `valid_utf8` and `decode_utf8`).
#[verifier::external_body]
pub(crate) fn from_utf8(bytes: Vec<u8>) -> (r: Option<String>)
    ensures
        r is Some <==> vstd::utf8::valid_utf8(bytes@),
        r matches Some(s) ==> s@ == vstd::utf8::decode_utf8(bytes@),
{
    String::from_utf8(bytes).ok()
}

/// A member of a JSON object as a struct field of strings reads it.
pub enum JsonField {
    Absent,
    Null,
    Text(String),
    Other,
}

pub ghost enum JsonFieldModel {
    Absent,
    Null,
    Text(Seq<char>),
    Other,
}

impl View for JsonField {
    type V = JsonFieldModel;

    open spec fn view(&self) -> JsonFieldModel {
        match self {
            JsonField::Absent => JsonFieldModel::Absent,
            JsonField::Null => JsonFieldModel::Null,
            JsonField::Text(s) => JsonFieldModel::Text(s@),
            JsonField::Other => JsonFieldModel::Other,
        }
    }
}

/// A name for what `serde_json::from_str` reads from a text, taken as an
/// object and looked up at each of `keys`: none where the text is no JSON
/// object.
pub uninterp spec fn json_fields(text: Seq<char>, keys: Seq<Seq<char>>) -> Option<Seq<JsonFieldModel>>;

/// Parses the text with `serde_json::from_str` into a `serde_json::Value`
/// and, where it is an object, reads the member at each key: absent, null,
/// a string, or something else. One field per key, in order. Nothing is
/// stated of which texts are JSON objects or what they hold.
#[verifier::external_body]
pub(crate) fn json_object_fields(text: &str, keys: &[&str]) -> (r: Option<Vec<JsonField>>)
    ensures
        match r {
            Some(fs) => json_fields(text@, keys_view(keys@)) == Some(Seq::new(fs@.len(), |i: int| fs@[i]@)),
            None => json_fields(text@, keys_view(keys@)) is None,
        },
        r is Some ==> r->Some_0@.len() == keys@.len(),
{
    let value: serde_json::Value = serde_json::from_str(text).ok()?;
    let object = value.as_object()?;
    Some(keys.iter().map(|k| match object.get(*k) {
        None => JsonField::Absent,
        Some(serde_json::Value::Null) => JsonField::Null,
        Some(serde_json::Value::String(s)) => JsonField::Text(s.clone()),
        Some(_) => JsonField::Other,
    }).collect())
}

#[verifier::external_type_specification]
#[verifier::external_body]
pub struct ExRegex(regex::Regex);

/// A regular expression compiled by `regex::Regex::new`, with the pattern
/// it was compiled from. Only `compile_pattern` makes one.
pub struct CompiledPattern {
    pattern: String,
    re: regex::Regex,
}

impl CompiledPattern {
    /// The pattern that this regular expression was compiled from.
    pub closed spec fn pattern_of(&self) -> Seq<char> {
        self.pattern@
    }
}

/// A name for whether `regex::Regex::new` accepts a pattern: it refuses an
/// invalid one, and one whose compiled form would exceed the size limit.
pub uninterp spec fn regex_compiles(pattern: Seq<char>) -> bool;

/// A name for what `regex::Regex::is_match` gives: whether the pattern
/// matches somewhere in the text.
pub uninterp spec fn regex_matches(pattern: Seq<char>, text: Seq<char>) -> bool;

/// Compiles `pattern` with `regex::Regex::new`: a compiled expression where
/// the crate accepts the pattern. Nothing is stated of which patterns it
/// accepts.
#[verifier::external_body]
pub(crate) fn compile_pattern(pattern: &str) -> (r: Option<CompiledPattern>)
    ensures
        r is Some <==> regex_compiles(pattern@),
        r is Some ==> r->Some_0.pattern_of() == pattern@,
{
    regex::Regex::new(pattern).ok().map(|re| CompiledPattern { pattern: pattern.to_string(), re })
}

/// Whether the compiled expression matches somewhere in `text`
/// (`regex::Regex::is_match`). Nothing is stated of which texts match.
#[verifier::external_body]
pub(crate) fn pattern_matches(c: &CompiledPattern, text: &str) -> (r: bool)
    ensures
        r == regex_matches(c.pattern_of(), text@),
{
    c.re.is_match(text)
}

} // verus!
