//! The small pieces that reading share links needs: query values, base64
//! and percent decoding, `host:port`, and setting fields of a node.
use vstd::prelude::*;

use crate::convert::fields::{parse_u64, parse_u64_text};
use crate::input::UriError;
use crate::outside::{
    base64_decode, base64_decoded, from_utf8, percent_decode, url_decoded, UrlModel, UrlParts,
};
use crate::text::{
    chars_of, find_char, find_last_char, first_char_index, has_char, last_char_index, matches_at,
    slice_chars, starts_with, string_of_chars, trim, trimmed,
};
use crate::yaml::{lemma_mapping_model, lookup, pairs_model, set_entry, u64_number, with_entry, yaml_text, yaml_u64, YamlModel, YamlValue};

verus! {

/// The value of the first query pair named `key`.
pub open spec fn query_of(q: Seq<(Seq<char>, Seq<char>)>, key: Seq<char>) -> Option<Seq<char>>
    decreases q.len(),
{
    if q.len() == 0 {
        None
    } else if q[0].0 == key {
        Some(q[0].1)
    } else {
        query_of(q.subrange(1, q.len() as int), key)
    }
}

/// The value of the first query pair of `url` named `key`.
pub fn query_value(url: &UrlParts, key: &str) -> (r: Option<String>)
    ensures
        match r {
            Some(s) => query_of(url@.query, key@) == Some(s@),
            None => query_of(url@.query, key@) is None,
        },
{
    let ghost q = url@.query;
    let k = chars_of(key);
    let mut i: usize = 0;
    assert(q.subrange(0, q.len() as int) =~= q);
    while i < url.query.len()
        invariant
            i <= url.query@.len(),
            q == url@.query,
            k@ == key@,
            query_of(q, key@) == query_of(q.subrange(i as int, q.len() as int), key@),
        decreases url.query.len() - i,
    {
        let ghost rest = q.subrange(i as int, q.len() as int);
        assert(rest[0] == (url.query@[i as int].0@, url.query@[i as int].1@));
        assert(rest.subrange(1, rest.len() as int) =~= q.subrange(i + 1, q.len() as int));
        if crate::text::chars_eq(&chars_of(url.query[i].0.as_str()), &k) {
            return Some(url.query[i].1.clone());
        }
        i = i + 1;
    }
    None
}

/// Whether `p` occurs somewhere in `s`.
pub open spec fn contains_text(s: Seq<char>, p: Seq<char>) -> bool {
    exists|i: int| 0 <= i <= s.len() && #[trigger] starts_with(s.subrange(i, s.len() as int), p)
}

/// Whether `p` occurs somewhere in `s`.
pub fn has_text(s: &Vec<char>, p: &Vec<char>) -> (r: bool)
    ensures
        r == contains_text(s@, p@),
{
    let mut i: usize = 0;
    loop
        invariant
            i <= s@.len(),
            forall|j: int| 0 <= j < i ==> !#[trigger] starts_with(s@.subrange(j, s@.len() as int), p@),
        decreases s@.len() - i,
    {
        if matches_at(s, i, p) {
            return true;
        }
        if i == s.len() {
            return false;
        }
        i = i + 1;
    }
}

/// `-` and `_` of the URL-safe alphabet as `+` and `/`.
pub open spec fn sanitize(s: Seq<char>) -> Seq<char> {
    Seq::new(
        s.len(),
        |i: int|
            if s[i] == '-' {
                '+'
            } else if s[i] == '_' {
                '/'
            } else {
                s[i]
            },
    )
}

/// `s` padded with `=` to a multiple of four characters.
pub open spec fn padded(s: Seq<char>) -> Seq<char> {
    s + Seq::new((4 - s.len() % 4) as nat, |i: int| '=')
}

/// The text that the base64 text `c` decodes to.
pub open spec fn base64_try(c: Seq<char>) -> Option<Seq<char>> {
    match base64_decoded(c) {
        Some(b) => if vstd::utf8::valid_utf8(b) {
            Some(vstd::utf8::decode_utf8(b))
        } else {
            None
        },
        None => None,
    }
}

/// The text that a base64 text (standard or URL-safe alphabet, padded or
/// not) decodes to: the trimmed text as it is, else padded.
pub open spec fn base64_text(input: Seq<char>) -> Option<Seq<char>> {
    let s = sanitize(trim(input));
    match base64_try(s) {
        Some(t) => Some(t),
        None => if s.len() % 4 != 0 {
            base64_try(padded(s))
        } else {
            None
        },
    }
}

fn try_base64(c: &Vec<char>) -> (r: Option<String>)
    ensures
        match r {
            Some(s) => base64_try(c@) == Some(s@),
            None => base64_try(c@) is None,
        },
{
    let text = string_of_chars(c);
    match base64_decode(text.as_str()) {
        Some(bytes) => from_utf8(bytes),
        None => None,
    }
}

/// The text that a base64 text decodes to.
pub fn decode_base64_text(input: &str) -> (r: Option<String>)
    ensures
        match r {
            Some(s) => base64_text(input@) == Some(s@),
            None => base64_text(input@) is None,
        },
{
    let t = trimmed(&chars_of(input));
    let mut s: Vec<char> = Vec::new();
    let mut i: usize = 0;
    while i < t.len()
        invariant
            i <= t@.len(),
            s@ == sanitize(t@).take(i as int),
        decreases t.len() - i,
    {
        let c = t[i];
        let d = if c == '-' {
            '+'
        } else if c == '_' {
            '/'
        } else {
            c
        };
        s.push(d);
        assert(s@ =~= sanitize(t@).take(i + 1));
        i = i + 1;
    }
    assert(sanitize(t@).take(t@.len() as int) =~= sanitize(t@));
    match try_base64(&s) {
        Some(text) => {
            return Some(text);
        },
        None => {},
    }
    let rem = s.len() % 4;
    if rem == 0 {
        return None;
    }
    let ghost s0 = s@;
    let mut k: usize = 0;
    while k < 4 - rem
        invariant
            rem == s0.len() % 4,
            rem != 0,
            k <= 4 - rem,
            s@ == s0 + Seq::new(k as nat, |j: int| '='),
        decreases 4 - rem - k,
    {
        s.push('=');
        assert(s@ =~= s0 + Seq::new((k + 1) as nat, |j: int| '='));
        k = k + 1;
    }
    assert(s@ =~= padded(s0));
    try_base64(&s)
}

/// The decoded text of a subscription that is one base64 line holding
/// share links or a YAML `proxies:` list.
pub open spec fn subscription_text(content: Seq<char>) -> Option<Seq<char>> {
    let t = trim(content);
    if t.len() == 0 || t.contains('\n') {
        None
    } else {
        match base64_text(t) {
            Some(d) => if contains_text(d, "://"@) || contains_text(d, "proxies:"@) {
                Some(d)
            } else {
                None
            },
            None => None,
        }
    }
}

/// The decoded text of a base64 subscription, where the content is one.
pub fn decode_subscription(content: &str) -> (r: Option<String>)
    ensures
        match r {
            Some(s) => subscription_text(content@) == Some(s@),
            None => subscription_text(content@) is None,
        },
{
    let t = trimmed(&chars_of(content));
    if t.len() == 0 || has_char(&t, '\n') {
        return None;
    }
    let ts = string_of_chars(&t);
    let decoded = match decode_base64_text(ts.as_str()) {
        Some(d) => d,
        None => {
            return None;
        },
    };
    let dc = chars_of(decoded.as_str());
    if has_text(&dc, &chars_of("://")) || has_text(&dc, &chars_of("proxies:")) {
        Some(decoded)
    } else {
        None
    }
}

/// A percent-encoded URL component, decoded.
pub fn decode_url_component(input: &str) -> (r: Result<String, UriError>)
    ensures
        match r {
            Ok(s) => url_decoded(input@) == Some(s@),
            Err(e) => url_decoded(input@) is None && e == UriError::UrlDecodeFailed,
        },
{
    match percent_decode(input) {
        Some(s) => Ok(s),
        None => Err(UriError::UrlDecodeFailed),
    }
}

/// A port as `str::parse::<u16>` reads it.
pub open spec fn parse_u16(t: Seq<char>) -> Option<u16> {
    match parse_u64(t) {
        Some(v) => if v <= 65535 {
            Some(v as u16)
        } else {
            None
        },
        None => None,
    }
}

fn parse_port(t: &Vec<char>) -> (r: Result<u16, UriError>)
    ensures
        match r {
            Ok(p) => parse_u16(t@) == Some(p),
            Err(e) => parse_u16(t@) is None && e == UriError::InvalidPort,
        },
{
    match parse_u64_text(t) {
        Some(v) => if v <= 65535 {
            Ok(v as u16)
        } else {
            Err(UriError::InvalidPort)
        },
        None => Err(UriError::InvalidPort),
    }
}

/// `host:port`, or `[ipv6]:port`: the host and the port.
pub open spec fn host_port(v: Seq<char>) -> Result<(Seq<char>, u16), UriError> {
    if v.len() > 0 && v[0] == '[' {
        let s = v.subrange(1, v.len() as int);
        let b = first_char_index(s, ']');
        if b >= s.len() {
            Err(UriError::InvalidIpv6Host)
        } else {
            let right = s.subrange(b + 1, s.len() as int);
            if !(right.len() > 0 && right[0] == ':') {
                Err(UriError::MissingPort)
            } else {
                match parse_u16(right.subrange(1, right.len() as int)) {
                    Some(p) => Ok((s.take(b), p)),
                    None => Err(UriError::InvalidPort),
                }
            }
        }
    } else {
        let c = last_char_index(v, ':');
        if c < 0 {
            Err(UriError::MissingPort)
        } else {
            match parse_u16(v.subrange(c + 1, v.len() as int)) {
                Some(p) => Ok((v.take(c), p)),
                None => Err(UriError::InvalidPort),
            }
        }
    }
}

pub open spec fn host_port_view(r: Result<(String, u16), UriError>) -> Result<(Seq<char>, u16), UriError> {
    match r {
        Ok((h, p)) => Ok((h@, p)),
        Err(e) => Err(e),
    }
}

/// Splits `host:port`, or `[ipv6]:port`, into host and port.
pub fn split_host_port(value: &str) -> (r: Result<(String, u16), UriError>)
    ensures
        host_port_view(r) == host_port(value@),
{
    let v = chars_of(value);
    if v.len() > 0 && v[0] == '[' {
        let s = slice_chars(&v, 1, v.len());
        let b = find_char(&s, ']');
        if b >= s.len() {
            return Err(UriError::InvalidIpv6Host);
        }
        let right = slice_chars(&s, b + 1, s.len());
        if !(right.len() > 0 && right[0] == ':') {
            return Err(UriError::MissingPort);
        }
        let port = match parse_port(&slice_chars(&right, 1, right.len())) {
            Ok(p) => p,
            Err(e) => {
                return Err(e);
            },
        };
        Ok((string_of_chars(&slice_chars(&s, 0, b)), port))
    } else {
        match find_last_char(&v, ':') {
            None => Err(UriError::MissingPort),
            Some(c) => {
                let port = match parse_port(&slice_chars(&v, c + 1, v.len())) {
                    Ok(p) => p,
                    Err(e) => {
                        return Err(e);
                    },
                };
                Ok((string_of_chars(&slice_chars(&v, 0, c)), port))
            },
        }
    }
}

/// Sets `key` to the string `value`.
pub fn set_string(map: &mut Vec<(YamlValue, YamlValue)>, key: &str, value: &str)
    ensures
        pairs_model(final(map)@) == with_entry(pairs_model(old(map)@), key@, YamlModel::String(value@)),
{
    set_entry(map, key, yaml_text(value));
}

/// Sets `key` to the number `value`.
pub fn set_u64(map: &mut Vec<(YamlValue, YamlValue)>, key: &str, value: u64)
    ensures
        pairs_model(final(map)@) == with_entry(pairs_model(old(map)@), key@, YamlModel::Number(u64_number(value))),
{
    set_entry(map, key, yaml_u64(value));
}

/// Sets `key` to the flag `value`.
pub fn set_bool(map: &mut Vec<(YamlValue, YamlValue)>, key: &str, value: bool)
    ensures
        pairs_model(final(map)@) == with_entry(pairs_model(old(map)@), key@, YamlModel::Bool(value)),
{
    set_entry(map, key, YamlValue::Bool(value));
}

/// The sequence at `key`.
pub open spec fn sequence_at(m: Seq<(YamlModel, YamlModel)>, key: Seq<char>) -> Option<Seq<YamlModel>> {
    match lookup(m, key) {
        Some(YamlModel::Sequence(items)) => Some(items),
        _ => None,
    }
}

/// A copy of the sequence at `key`.
pub fn extract_yaml_sequence<'a>(map: &'a Vec<(YamlValue, YamlValue)>, key: &str) -> (r: Option<&'a Vec<YamlValue>>)
    ensures
        match r {
            Some(items) => sequence_at(pairs_model(map@), key@) == Some(Seq::new(items@.len(), |i: int| items@[i]@)),
            None => sequence_at(pairs_model(map@), key@) is None,
        },
{
    match crate::convert::fields::map_get(map, key) {
        Some(YamlValue::Sequence(items)) => {
            let ghost im = Seq::new(items@.len(), |i: int| items@[i]@);
            assert(YamlValue::Sequence(*items)@ == YamlModel::Sequence(im)) by {
                if let YamlModel::Sequence(a) = YamlValue::Sequence(*items)@ {
                    assert forall|i: int| 0 <= i < a.len() implies a[i] == im[i] by {}
                    assert(a =~= im);
                }
            }
            Some(items)
        },
        _ => None,
    }
}

} // verus!
