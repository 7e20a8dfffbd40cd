//! Share links (`ss://`, `vmess://`, `vless://`, `trojan://`, ...) read
//! into proxy nodes with the fields a mihomo config would give them.
use vstd::prelude::*;

use crate::convert::fields::{get_string, map_get_string, opt_string_view};
use crate::input::utils::{
    base64_text, decode_base64_text, decode_url_component, host_port, query_of, query_value,
    set_bool, set_string, set_u64, split_host_port,
};
use crate::input::{NodeModel, ProxyNode, UriError};
use crate::outside::{
    json_fields, json_object_fields, opt_text_view, parse_url, url_decoded, url_parts, JsonField,
    JsonFieldModel, UrlModel, UrlParts,
};
use crate::text::{
    chars_eq, chars_of, find_char, find_last_char, first_char_index, has_char, has_prefix,
    last_char_index, lowercase_ascii, push_all, replace_all, replaced, slice_chars, starts_with,
    string_of_chars, strip_prefixes, stripped_prefixes, to_lower,
};
use crate::yaml::{
    key_index, lemma_with_entry_lookup, lookup, pairs_model, set_entry, u64_number, with_entry, YamlModel,
    YamlValue,
};

verus! {

pub type Fields = Seq<(YamlModel, YamlModel)>;

pub open spec fn set_s(d: Fields, key: Seq<char>, v: Seq<char>) -> Fields {
    with_entry(d, key, YamlModel::String(v))
}

pub open spec fn set_b(d: Fields, key: Seq<char>, v: bool) -> Fields {
    with_entry(d, key, YamlModel::Bool(v))
}

pub open spec fn set_opt(d: Fields, key: Seq<char>, v: Option<Seq<char>>) -> Fields {
    match v {
        Some(s) => set_s(d, key, s),
        None => d,
    }
}

/// `key` of `d` as a mapping with `inner` set to `v`: made where it is
/// missing, left alone where it holds something else.
pub open spec fn set_in(d: Fields, key: Seq<char>, inner: Seq<char>, v: Seq<char>) -> Fields {
    match lookup(d, key) {
        Some(YamlModel::Mapping(m)) => with_entry(d, key, YamlModel::Mapping(set_s(m, inner, v))),
        Some(_) => d,
        None => with_entry(d, key, YamlModel::Mapping(set_s(seq![], inner, v))),
    }
}

/// The node type that a scheme stands for.
pub open spec fn alias_of(scheme: Seq<char>) -> Seq<char> {
    if scheme == "https"@ {
        "http"@
    } else {
        scheme
    }
}

/// The node type that a scheme stands for: `https` is `http`.
pub fn scheme_alias(scheme: &str) -> (r: String)
    ensures
        r@ == alias_of(scheme@),
{
    if chars_eq(&chars_of(scheme), &chars_of("https")) {
        "http".to_owned()
    } else {
        scheme.to_owned()
    }
}

fn set_opt_string(d: &mut Vec<(YamlValue, YamlValue)>, key: &str, v: Option<String>)
    ensures
        pairs_model(final(d)@) == set_opt(pairs_model(old(d)@), key@, opt_string_view(v)),
{
    match v {
        Some(s) => set_string(d, key, s.as_str()),
        None => {},
    }
}

fn set_inner(d: &mut Vec<(YamlValue, YamlValue)>, key: &str, inner: &str, v: &str)
    ensures
        pairs_model(final(d)@) == set_in(pairs_model(old(d)@), key@, inner@, v@),
{
    let ghost pm = pairs_model(d@);
    proof {
        crate::yaml::lemma_key_index(pm, key@);
    }
    let i = crate::yaml::find_key(d, key);
    if i < d.len() {
        let (k, val) = d.remove(i);
        assert(k@ == YamlModel::String(key@));
        match val {
            YamlValue::Mapping(m) => {
                let mut m2 = m;
                proof {
                    crate::yaml::lemma_mapping_model(m2);
                }
                set_string(&mut m2, inner, v);
                proof {
                    crate::yaml::lemma_mapping_model(m2);
                }
                d.insert(i, (k, YamlValue::Mapping(m2)));
                assert(pairs_model(d@) =~= set_in(pm, key@, inner@, v@));
            },
            other => {
                d.insert(i, (k, other));
                assert(pairs_model(d@) =~= pm);
            },
        }
    } else {
        let mut m: Vec<(YamlValue, YamlValue)> = Vec::new();
        assert(pairs_model(m@) =~= Seq::<(YamlModel, YamlModel)>::empty());
        set_string(&mut m, inner, v);
        proof {
            crate::yaml::lemma_mapping_model(m);
        }
        set_entry(d, key, YamlValue::Mapping(m));
    }
}

pub type Query = Seq<(Seq<char>, Seq<char>)>;

pub open spec fn reality_opts(q: Query) -> Fields {
    set_opt(set_opt(seq![], "public-key"@, query_of(q, "pbk"@)), "short-id"@, query_of(q, "sid"@))
}

/// The transport and TLS fields that the query gives: `type`, `security`
/// (with `reality` options), `sni`, `peer`, `alpn`.
pub open spec fn common_tls(q: Query, d: Fields) -> Fields {
    let d1 = set_opt(d, "network"@, query_of(q, "type"@));
    let d2 = match query_of(q, "security"@) {
        Some(sec) => {
            let t = if sec == "tls"@ || sec == "reality"@ {
                set_b(d1, "tls"@, true)
            } else {
                d1
            };
            if sec == "reality"@ && reality_opts(q).len() > 0 {
                with_entry(t, "reality-opts"@, YamlModel::Mapping(reality_opts(q)))
            } else {
                t
            }
        },
        None => d1,
    };
    let d3 = set_opt(d2, "servername"@, query_of(q, "sni"@));
    let d4 = set_opt(d3, "servername"@, query_of(q, "peer"@));
    set_opt(d4, "alpn"@, query_of(q, "alpn"@))
}

pub open spec fn or_query(q: Query, a: Seq<char>, b: Seq<char>) -> Option<Seq<char>> {
    match query_of(q, a) {
        Some(v) => Some(v),
        None => query_of(q, b),
    }
}

/// The `ws-opts` of a host header and an optional path.
pub open spec fn ws_opts(host: Seq<char>, path: Option<Seq<char>>) -> Fields {
    set_opt(with_entry(seq![], "headers"@, YamlModel::Mapping(set_s(seq![], "Host"@, host))), "path"@, path)
}

/// The fingerprint, verification, flow and host fields that the query
/// gives.
pub open spec fn common_host(q: Query, d: Fields) -> Fields {
    let d1 = set_opt(d, "client-fingerprint"@, or_query(q, "fp"@, "fingerprint"@));
    let d2 = if query_of(q, "allowInsecure"@) == Some("1"@) || query_of(q, "insecure"@) == Some("1"@) {
        set_b(d1, "skip-cert-verify"@, true)
    } else {
        d1
    };
    let d3 = set_opt(d2, "flow"@, query_of(q, "flow"@));
    match query_of(q, "host"@) {
        Some(h) => if query_of(q, "type"@) == Some("ws"@) {
            with_entry(d3, "ws-opts"@, YamlModel::Mapping(ws_opts(h, query_of(q, "path"@))))
        } else if query_of(q, "type"@) == Some("grpc"@) {
            set_s(d3, "servername"@, h)
        } else {
            set_s(d3, "host"@, h)
        },
        None => d3,
    }
}

/// The path and service-name fields that the query gives.
pub open spec fn common_path(q: Query, d: Fields) -> Fields {
    let d1 = match query_of(q, "path"@) {
        Some(p) => if query_of(q, "type"@) == Some("grpc"@) {
            with_entry(d, "grpc-opts"@, YamlModel::Mapping(set_s(seq![], "grpc-service-name"@, p)))
        } else if query_of(q, "type"@) == Some("ws"@) {
            set_in(d, "ws-opts"@, "path"@, p)
        } else {
            set_s(d, "path"@, p)
        },
        None => d,
    };
    match query_of(q, "serviceName"@) {
        Some(sn) => set_in(d1, "grpc-opts"@, "grpc-service-name"@, sn),
        None => d1,
    }
}

/// The hysteria2 and wireguard fields that the query gives.
pub open spec fn common_keys(q: Query, d: Fields) -> Fields {
    let d1 = set_opt(d, "obfs-password"@, query_of(q, "obfs-password"@));
    let d2 = set_opt(d1, "pinSHA256"@, query_of(q, "pinSHA256"@));
    let d3 = set_opt(d2, "ip"@, query_of(q, "address"@));
    let d4 = set_opt(d3, "public-key"@, or_query(q, "publickey"@, "peer"@));
    let d5 = set_opt(d4, "reserved"@, query_of(q, "reserved"@));
    let d6 = set_opt(d5, "mtu"@, query_of(q, "mtu"@));
    set_opt(d6, "pre-shared-key"@, query_of(q, "presharedkey"@))
}

/// All the fields that a link's query gives a node.
pub open spec fn common_fields(q: Query, d: Fields) -> Fields {
    common_keys(q, common_path(q, common_host(q, common_tls(q, d))))
}

fn populate_tls(url: &UrlParts, data: &mut Vec<(YamlValue, YamlValue)>)
    ensures
        pairs_model(final(data)@) == common_tls(url@.query, pairs_model(old(data)@)),
{
    set_opt_string(data, "network", query_value(url, "type"));
    match query_value(url, "security") {
        Some(security) => {
            let sec = chars_of(security.as_str());
            let is_reality = chars_eq(&sec, &chars_of("reality"));
            if chars_eq(&sec, &chars_of("tls")) || is_reality {
                set_bool(data, "tls", true);
            }
            if is_reality {
                let mut reality: Vec<(YamlValue, YamlValue)> = Vec::new();
                assert(pairs_model(reality@) =~= Seq::<(YamlModel, YamlModel)>::empty());
                set_opt_string(&mut reality, "public-key", query_value(url, "pbk"));
                set_opt_string(&mut reality, "short-id", query_value(url, "sid"));
                if reality.len() > 0 {
                    proof {
                        crate::yaml::lemma_mapping_model(reality);
                    }
                    set_entry(data, "reality-opts", YamlValue::Mapping(reality));
                }
            }
        },
        None => {},
    }
    set_opt_string(data, "servername", query_value(url, "sni"));
    set_opt_string(data, "servername", query_value(url, "peer"));
    set_opt_string(data, "alpn", query_value(url, "alpn"));
}

fn is_one(v: &Option<String>) -> (r: bool)
    ensures
        r == (opt_string_view(*v) == Some("1"@)),
{
    match v {
        Some(s) => chars_eq(&chars_of(s.as_str()), &chars_of("1")),
        None => false,
    }
}

fn query_is(url: &UrlParts, key: &str, value: &str) -> (r: bool)
    ensures
        r == (query_of(url@.query, key@) == Some(value@)),
{
    match query_value(url, key) {
        Some(s) => chars_eq(&chars_of(s.as_str()), &chars_of(value)),
        None => false,
    }
}

fn populate_host(url: &UrlParts, data: &mut Vec<(YamlValue, YamlValue)>)
    ensures
        pairs_model(final(data)@) == common_host(url@.query, pairs_model(old(data)@)),
{
    let fp = match query_value(url, "fp") {
        Some(f) => Some(f),
        None => query_value(url, "fingerprint"),
    };
    set_opt_string(data, "client-fingerprint", fp);
    if is_one(&query_value(url, "allowInsecure")) || is_one(&query_value(url, "insecure")) {
        set_bool(data, "skip-cert-verify", true);
    }
    set_opt_string(data, "flow", query_value(url, "flow"));
    match query_value(url, "host") {
        Some(host) => {
            if query_is(url, "type", "ws") {
                let mut headers: Vec<(YamlValue, YamlValue)> = Vec::new();
                assert(pairs_model(headers@) =~= Seq::<(YamlModel, YamlModel)>::empty());
                set_string(&mut headers, "Host", host.as_str());
                proof {
                    crate::yaml::lemma_mapping_model(headers);
                }
                let mut ws: Vec<(YamlValue, YamlValue)> = Vec::new();
                assert(pairs_model(ws@) =~= Seq::<(YamlModel, YamlModel)>::empty());
                set_entry(&mut ws, "headers", YamlValue::Mapping(headers));
                set_opt_string(&mut ws, "path", query_value(url, "path"));
                proof {
                    crate::yaml::lemma_mapping_model(ws);
                }
                set_entry(data, "ws-opts", YamlValue::Mapping(ws));
            } else if query_is(url, "type", "grpc") {
                set_string(data, "servername", host.as_str());
            } else {
                set_string(data, "host", host.as_str());
            }
        },
        None => {},
    }
}

fn populate_path(url: &UrlParts, data: &mut Vec<(YamlValue, YamlValue)>)
    ensures
        pairs_model(final(data)@) == common_path(url@.query, pairs_model(old(data)@)),
{
    match query_value(url, "path") {
        Some(path) => {
            if query_is(url, "type", "grpc") {
                let mut grpc: Vec<(YamlValue, YamlValue)> = Vec::new();
                assert(pairs_model(grpc@) =~= Seq::<(YamlModel, YamlModel)>::empty());
                set_string(&mut grpc, "grpc-service-name", path.as_str());
                proof {
                    crate::yaml::lemma_mapping_model(grpc);
                }
                set_entry(data, "grpc-opts", YamlValue::Mapping(grpc));
            } else if query_is(url, "type", "ws") {
                set_inner(data, "ws-opts", "path", path.as_str());
            } else {
                set_string(data, "path", path.as_str());
            }
        },
        None => {},
    }
    match query_value(url, "serviceName") {
        Some(sn) => set_inner(data, "grpc-opts", "grpc-service-name", sn.as_str()),
        None => {},
    }
}

fn populate_keys(url: &UrlParts, data: &mut Vec<(YamlValue, YamlValue)>)
    ensures
        pairs_model(final(data)@) == common_keys(url@.query, pairs_model(old(data)@)),
{
    set_opt_string(data, "obfs-password", query_value(url, "obfs-password"));
    set_opt_string(data, "pinSHA256", query_value(url, "pinSHA256"));
    set_opt_string(data, "ip", query_value(url, "address"));
    let pk = match query_value(url, "publickey") {
        Some(k) => Some(k),
        None => query_value(url, "peer"),
    };
    set_opt_string(data, "public-key", pk);
    set_opt_string(data, "reserved", query_value(url, "reserved"));
    set_opt_string(data, "mtu", query_value(url, "mtu"));
    set_opt_string(data, "pre-shared-key", query_value(url, "presharedkey"));
}

/// Sets the fields that a link's query gives: transport, TLS, reality,
/// SNI, fingerprint, flow, host, path, service name, and the hysteria2 and
/// wireguard keys.
pub fn populate_common_query_fields(url: &UrlParts, data: &mut Vec<(YamlValue, YamlValue)>)
    ensures
        pairs_model(final(data)@) == common_fields(url@.query, pairs_model(old(data)@)),
{
    populate_tls(url, data);
    populate_host(url, data);
    populate_path(url, data);
    populate_keys(url, data);
}

pub open spec fn opt_or(o: Option<Seq<char>>, dflt: Seq<char>) -> Seq<char> {
    match o {
        Some(s) => s,
        None => dflt,
    }
}

/// A link with the short schemes `hy2://`, `wg://` and `socks://` written
/// out, wherever they occur.
pub open spec fn normalized(line: Seq<char>) -> Seq<char> {
    replace_all(
        replace_all(replace_all(line, "hy2://"@, "hysteria2://"@), "wg://"@, "wireguard://"@),
        "socks://"@,
        "socks5://"@,
    )
}

/// A link's name: its decoded fragment, else its host, else `proxy`.
pub open spec fn link_name(u: UrlModel) -> Result<Seq<char>, UriError> {
    match u.fragment {
        Some(f) => if f.len() > 0 {
            match url_decoded(f) {
                Some(d) => Ok(d),
                None => Err(UriError::UrlDecodeFailed),
            }
        } else {
            Ok(opt_or(u.host, "proxy"@))
        },
        None => Ok(opt_or(u.host, "proxy"@)),
    }
}

/// The fields that a link's scheme gives from its user name and password.
pub open spec fn scheme_fields(u: UrlModel, d: Fields) -> Fields {
    let s = u.scheme;
    if s == "vless"@ {
        set_s(set_s(d, "uuid"@, u.username), "cipher"@, opt_or(query_of(u.query, "encryption"@), "none"@))
    } else if s == "trojan"@ || s == "hysteria2"@ {
        set_b(set_s(d, "password"@, u.username), "tls"@, true)
    } else if s == "socks5"@ || s == "http"@ || s == "https"@ {
        let d1 = if u.username.len() > 0 {
            set_s(d, "username"@, u.username)
        } else {
            d
        };
        let d2 = set_opt(d1, "password"@, u.password);
        if s == "https"@ {
            set_b(d2, "tls"@, true)
        } else {
            d2
        }
    } else if s == "wireguard"@ {
        set_s(d, "private-key"@, u.username)
    } else {
        d
    }
}

/// The fields of a node read from a parsed link with its name and port.
pub open spec fn standard_fields(u: UrlModel, name: Seq<char>, port: u16) -> Fields {
    let d = set_s(set_s(set_s(seq![], "type"@, alias_of(u.scheme)), "name"@, name), "server"@, opt_or(u.host, seq![]));
    let d1 = with_entry(d, "port"@, YamlModel::Number(u64_number(port as u64)));
    common_fields(u.query, scheme_fields(u, d1))
}

/// A node from a link in URL form (`vless://`, `trojan://`, `socks5://`,
/// `http(s)://`, `hysteria2://`, `wireguard://`, ...).
pub open spec fn standard_uri(line: Seq<char>) -> Result<NodeModel, UriError> {
    match url_parts(normalized(line)) {
        None => Err(UriError::InvalidUrl),
        Some(u) => match link_name(u) {
            Err(e) => Err(e),
            Ok(name) => match u.port {
                None => Err(UriError::MissingPort),
                Some(p) => {
                    let d = standard_fields(u, name, p);
                    Ok(
                        NodeModel {
                            name: opt_or(get_string(d, "name"@), "proxy"@),
                            ty: opt_or(get_string(d, "type"@), alias_of(u.scheme)),
                            data: d,
                        },
                    )
                },
            },
        },
    }
}

pub open spec fn node_res_view(r: Result<ProxyNode, UriError>) -> Result<NodeModel, UriError> {
    match r {
        Ok(n) => Ok(n@),
        Err(e) => Err(e),
    }
}

fn normalize_link(line: &str) -> (r: String)
    ensures
        r@ == normalized(line@),
{
    proof {
        reveal_strlit("hy2://");
        reveal_strlit("wg://");
        reveal_strlit("socks://");
    }
    let a = replaced(&chars_of(line), &chars_of("hy2://"), &chars_of("hysteria2://"));
    let b = replaced(&a, &chars_of("wg://"), &chars_of("wireguard://"));
    let c = replaced(&b, &chars_of("socks://"), &chars_of("socks5://"));
    string_of_chars(&c)
}

fn name_of_link(url: &UrlParts) -> (r: Result<String, UriError>)
    ensures
        match r {
            Ok(s) => link_name(url@) == Ok::<Seq<char>, UriError>(s@),
            Err(e) => link_name(url@) == Err::<Seq<char>, UriError>(e),
        },
{
    let from_host = match &url.host {
        Some(h) => h.clone(),
        None => "proxy".to_owned(),
    };
    match &url.fragment {
        Some(f) => {
            if f.as_str().is_empty() {
                Ok(from_host)
            } else {
                decode_url_component(f.as_str())
            }
        },
        None => Ok(from_host),
    }
}

fn add_scheme_fields(url: &UrlParts, data: &mut Vec<(YamlValue, YamlValue)>)
    ensures
        pairs_model(final(data)@) == scheme_fields(url@, pairs_model(old(data)@)),
{
    let s = chars_of(url.scheme.as_str());
    if chars_eq(&s, &chars_of("vless")) {
        set_string(data, "uuid", url.username.as_str());
        let cipher = match query_value(url, "encryption") {
            Some(c) => c,
            None => "none".to_owned(),
        };
        set_string(data, "cipher", cipher.as_str());
    } else if chars_eq(&s, &chars_of("trojan")) || chars_eq(&s, &chars_of("hysteria2")) {
        set_string(data, "password", url.username.as_str());
        set_bool(data, "tls", true);
    } else if chars_eq(&s, &chars_of("socks5")) || chars_eq(&s, &chars_of("http")) || chars_eq(&s, &chars_of("https")) {
        if !url.username.as_str().is_empty() {
            set_string(data, "username", url.username.as_str());
        }
        match &url.password {
            Some(p) => set_string(data, "password", p.as_str()),
            None => {},
        }
        if chars_eq(&s, &chars_of("https")) {
            set_bool(data, "tls", true);
        }
    } else if chars_eq(&s, &chars_of("wireguard")) {
        set_string(data, "private-key", url.username.as_str());
    }
}

/// The node of a link in URL form.
pub fn parse_standard_uri(line: &str) -> (r: Result<ProxyNode, UriError>)
    ensures
        node_res_view(r) == standard_uri(line@),
{
    let normalized_line = normalize_link(line);
    let url = match parse_url(normalized_line.as_str()) {
        Some(u) => u,
        None => {
            return Err(UriError::InvalidUrl);
        },
    };
    let name = match name_of_link(&url) {
        Ok(n) => n,
        Err(e) => {
            return Err(e);
        },
    };
    let port = match url.port {
        Some(p) => p,
        None => {
            return Err(UriError::MissingPort);
        },
    };
    let alias = scheme_alias(url.scheme.as_str());
    let mut data: Vec<(YamlValue, YamlValue)> = Vec::new();
    assert(pairs_model(data@) =~= Seq::<(YamlModel, YamlModel)>::empty());
    set_string(&mut data, "type", alias.as_str());
    set_string(&mut data, "name", name.as_str());
    let server = match &url.host {
        Some(h) => h.clone(),
        None => String::new(),
    };
    set_string(&mut data, "server", server.as_str());
    set_u64(&mut data, "port", port as u64);
    add_scheme_fields(&url, &mut data);
    populate_common_query_fields(&url, &mut data);
    let node_name = match map_get_string(&data, "name") {
        Some(n) => n,
        None => "proxy".to_owned(),
    };
    let ty = match map_get_string(&data, "type") {
        Some(t) => t,
        None => alias,
    };
    Ok(ProxyNode { name: node_name, ty, data })
}

/// `s` split at the first `c`: before it, and after it where there is one.
pub open spec fn split_at_char(s: Seq<char>, c: char) -> (Seq<char>, Option<Seq<char>>) {
    let i = first_char_index(s, c);
    if i < s.len() {
        (s.take(i), Some(s.skip(i + 1)))
    } else {
        (s, None)
    }
}

/// The text where it holds `@`, else its base64 decoding.
pub open spec fn plain_or_base64(s: Seq<char>, marker: char) -> Option<Seq<char>> {
    if s.contains(marker) {
        Some(s)
    } else {
        base64_text(s)
    }
}

/// The fields of a shadowsocks node from its link.
pub open spec fn ss_base(fragment: Seq<char>, server: Seq<char>, port: u16, method: Seq<char>, password: Seq<char>) -> Fields {
    let d = set_s(
        set_s(set_s(seq![], "type"@, "ss"@), "name"@, if fragment.len() == 0 {
            server
        } else {
            fragment
        }),
        "server"@,
        server,
    );
    set_s(set_s(with_entry(d, "port"@, YamlModel::Number(u64_number(port as u64))), "cipher"@, method), "password"@, password)
}

/// The `plugin` that a shadowsocks link's query names.
pub open spec fn ss_plugin_field(query: Option<Seq<char>>, d: Fields) -> Result<Fields, UriError> {
    match query {
        None => Ok(d),
        Some(qs) => match url_parts("ss://placeholder@host?"@ + qs) {
            None => Err(UriError::InvalidPluginQuery),
            Some(u) => Ok(set_opt(d, "plugin"@, query_of(u.query, "plugin"@))),
        },
    }
}

/// A node from an `ss://` link: `method:password@host:port`, either part
/// possibly base64, with the name after `#` and a `plugin` in the query.
pub open spec fn ss_uri(line: Seq<char>) -> Result<NodeModel, UriError> {
    let (main, frag) = split_at_char(strip_prefixes(line, "ss://"@), '#');
    let fragment = opt_or(frag, seq![]);
    let decoded_fragment = opt_or(url_decoded(fragment), fragment);
    let (head, query) = split_at_char(main, '?');
    match plain_or_base64(head, '@') {
        None => Err(UriError::InvalidShadowsocksPayload),
        Some(uh) => {
            let at = last_char_index(uh, '@');
            if at < 0 {
                Err(UriError::InvalidShadowsocksServer)
            } else {
                match plain_or_base64(uh.take(at), ':') {
                    None => Err(UriError::InvalidShadowsocksCredentials),
                    Some(ud) => {
                        let c = first_char_index(ud, ':');
                        if c >= ud.len() {
                            Err(UriError::InvalidShadowsocksMethod)
                        } else {
                            match host_port(uh.skip(at + 1)) {
                                Err(e) => Err(e),
                                Ok((server, port)) => match ss_plugin_field(
                                    query,
                                    ss_base(decoded_fragment, server, port, ud.take(c), ud.skip(c + 1)),
                                ) {
                                    Err(e) => Err(e),
                                    Ok(d) => Ok(NodeModel { name: opt_or(get_string(d, "name"@), server), ty: "ss"@, data: d }),
                                },
                            }
                        }
                    },
                }
            }
        },
    }
}

fn split_char(s: &Vec<char>, c: char) -> (r: (Vec<char>, Option<Vec<char>>))
    ensures
        r.0@ == split_at_char(s@, c).0,
        match r.1 {
            Some(t) => split_at_char(s@, c).1 == Some(t@),
            None => split_at_char(s@, c).1 is None,
        },
{
    let i = find_char(s, c);
    if i < s.len() {
        (slice_chars(s, 0, i), Some(slice_chars(s, i + 1, s.len())))
    } else {
        (slice_chars(s, 0, s.len()), None)
    }
}

fn decoded_unless(s: &Vec<char>, marker: char) -> (r: Option<Vec<char>>)
    ensures
        match r {
            Some(t) => plain_or_base64(s@, marker) == Some(t@),
            None => plain_or_base64(s@, marker) is None,
        },
{
    if has_char(s, marker) {
        Some(slice_chars(s, 0, s.len()))
    } else {
        match decode_base64_text(string_of_chars(s).as_str()) {
            Some(t) => Some(chars_of(t.as_str())),
            None => None,
        }
    }
}

fn add_ss_plugin(query: Option<Vec<char>>, data: &mut Vec<(YamlValue, YamlValue)>) -> (r: Result<(), UriError>)
    ensures
        match r {
            Ok(_) => ss_plugin_field(
                match query {
                    Some(q) => Some(q@),
                    None => None,
                },
                pairs_model(old(data)@),
            ) == Ok::<Fields, UriError>(pairs_model(final(data)@)),
            Err(e) => ss_plugin_field(
                match query {
                    Some(q) => Some(q@),
                    None => None,
                },
                pairs_model(old(data)@),
            ) == Err::<Fields, UriError>(e),
        },
{
    match query {
        None => Ok(()),
        Some(q) => {
            let mut full = chars_of("ss://placeholder@host?");
            push_all(&mut full, &q);
            let url = match parse_url(string_of_chars(&full).as_str()) {
                Some(u) => u,
                None => {
                    return Err(UriError::InvalidPluginQuery);
                },
            };
            set_opt_string(data, "plugin", query_value(&url, "plugin"));
            Ok(())
        },
    }
}

/// The node of an `ss://` link.
pub fn parse_ss_uri(line: &str) -> (r: Result<ProxyNode, UriError>)
    ensures
        node_res_view(r) == ss_uri(line@),
{
    let trimmed = stripped_prefixes(&chars_of(line), &chars_of("ss://"));
    let (main, frag) = split_char(&trimmed, '#');
    let fragment = match frag {
        Some(f) => f,
        None => Vec::new(),
    };
    let decoded_fragment = match crate::outside::percent_decode(string_of_chars(&fragment).as_str()) {
        Some(d) => d,
        None => string_of_chars(&fragment),
    };
    let (head, query) = split_char(&main, '?');
    let uh = match decoded_unless(&head, '@') {
        Some(t) => t,
        None => {
            return Err(UriError::InvalidShadowsocksPayload);
        },
    };
    let at = match find_last_char(&uh, '@') {
        Some(i) => i,
        None => {
            return Err(UriError::InvalidShadowsocksServer);
        },
    };
    let ud = match decoded_unless(&slice_chars(&uh, 0, at), ':') {
        Some(t) => t,
        None => {
            return Err(UriError::InvalidShadowsocksCredentials);
        },
    };
    let c = find_char(&ud, ':');
    if c >= ud.len() {
        return Err(UriError::InvalidShadowsocksMethod);
    }
    let (server, port) = match split_host_port(string_of_chars(&slice_chars(&uh, at + 1, uh.len())).as_str()) {
        Ok(hp) => hp,
        Err(e) => {
            return Err(e);
        },
    };
    let mut data: Vec<(YamlValue, YamlValue)> = Vec::new();
    assert(pairs_model(data@) =~= Seq::<(YamlModel, YamlModel)>::empty());
    set_string(&mut data, "type", "ss");
    if decoded_fragment.as_str().is_empty() {
        set_string(&mut data, "name", server.as_str());
    } else {
        set_string(&mut data, "name", decoded_fragment.as_str());
    }
    set_string(&mut data, "server", server.as_str());
    set_u64(&mut data, "port", port as u64);
    set_string(&mut data, "cipher", string_of_chars(&slice_chars(&ud, 0, c)).as_str());
    set_string(&mut data, "password", string_of_chars(&slice_chars(&ud, c + 1, ud.len())).as_str());
    match add_ss_plugin(query, &mut data) {
        Ok(_) => {},
        Err(e) => {
            return Err(e);
        },
    }
    let name = match map_get_string(&data, "name") {
        Some(n) => n,
        None => server,
    };
    Ok(ProxyNode { name, ty: "ss".to_owned(), data })
}

/// The members of a `vmess://` link's JSON.
pub open spec fn vmess_keys() -> Seq<Seq<char>> {
    seq![
        "ps"@,
        "add"@,
        "port"@,
        "id"@,
        "aid"@,
        "scy"@,
        "net"@,
        "type"@,
        "host"@,
        "path"@,
        "tls"@,
        "sni"@,
        "alpn"@,
        "fp"@,
    ]
}

/// The JSON of a `vmess://` link: `add`, `port` and `id` are strings, the
/// others strings where they are set.
pub struct VmessLink {
    pub ps: Option<String>,
    pub add: String,
    pub port: String,
    pub id: String,
    pub aid: Option<String>,
    pub scy: Option<String>,
    pub net: Option<String>,
    pub header_type: Option<String>,
    pub host: Option<String>,
    pub path: Option<String>,
    pub tls: Option<String>,
    pub sni: Option<String>,
    pub alpn: Option<String>,
    pub fp: Option<String>,
}

pub ghost struct VmessModel {
    pub ps: Option<Seq<char>>,
    pub add: Seq<char>,
    pub port: Seq<char>,
    pub id: Seq<char>,
    pub aid: Option<Seq<char>>,
    pub scy: Option<Seq<char>>,
    pub net: Option<Seq<char>>,
    pub header_type: Option<Seq<char>>,
    pub host: Option<Seq<char>>,
    pub path: Option<Seq<char>>,
    pub tls: Option<Seq<char>>,
    pub sni: Option<Seq<char>>,
    pub alpn: Option<Seq<char>>,
    pub fp: Option<Seq<char>>,
}

impl View for VmessLink {
    type V = VmessModel;

    open spec fn view(&self) -> VmessModel {
        VmessModel {
            ps: opt_text_view(self.ps),
            add: self.add@,
            port: self.port@,
            id: self.id@,
            aid: opt_text_view(self.aid),
            scy: opt_text_view(self.scy),
            net: opt_text_view(self.net),
            header_type: opt_text_view(self.header_type),
            host: opt_text_view(self.host),
            path: opt_text_view(self.path),
            tls: opt_text_view(self.tls),
            sni: opt_text_view(self.sni),
            alpn: opt_text_view(self.alpn),
            fp: opt_text_view(self.fp),
        }
    }
}

/// An optional string member: none where absent or null, no link where it
/// is no string.
pub open spec fn optional_field(f: JsonFieldModel) -> Option<Option<Seq<char>>> {
    match f {
        JsonFieldModel::Absent => Some(None),
        JsonFieldModel::Null => Some(None),
        JsonFieldModel::Text(s) => Some(Some(s)),
        JsonFieldModel::Other => None,
    }
}

/// A required string member.
pub open spec fn required_field(f: JsonFieldModel) -> Option<Seq<char>> {
    match f {
        JsonFieldModel::Text(s) => Some(s),
        _ => None,
    }
}

/// The link that the members read at `vmess_keys` make, where they make one.
pub open spec fn vmess_link_of(fs: Seq<JsonFieldModel>) -> Option<VmessModel> {
    if fs.len() == 14 && required_field(fs[1]) is Some && required_field(fs[2]) is Some && required_field(fs[3]) is Some
        && (forall|i: int| 0 <= i < 14 && i != 1 && i != 2 && i != 3 ==> optional_field(#[trigger] fs[i]) is Some) {
        Some(
            VmessModel {
                ps: optional_field(fs[0])->Some_0,
                add: required_field(fs[1])->Some_0,
                port: required_field(fs[2])->Some_0,
                id: required_field(fs[3])->Some_0,
                aid: optional_field(fs[4])->Some_0,
                scy: optional_field(fs[5])->Some_0,
                net: optional_field(fs[6])->Some_0,
                header_type: optional_field(fs[7])->Some_0,
                host: optional_field(fs[8])->Some_0,
                path: optional_field(fs[9])->Some_0,
                tls: optional_field(fs[10])->Some_0,
                sni: optional_field(fs[11])->Some_0,
                alpn: optional_field(fs[12])->Some_0,
                fp: optional_field(fs[13])->Some_0,
            },
        )
    } else {
        None
    }
}

/// The link that a JSON text makes.
pub open spec fn vmess_link(text: Seq<char>) -> Option<VmessModel> {
    match json_fields(text, vmess_keys()) {
        Some(fs) => vmess_link_of(fs),
        None => None,
    }
}

fn optional_member(f: &JsonField) -> (r: Option<Option<String>>)
    ensures
        match r {
            Some(o) => optional_field(f@) == Some(opt_text_view(o)),
            None => optional_field(f@) is None,
        },
{
    match f {
        JsonField::Absent => Some(None),
        JsonField::Null => Some(None),
        JsonField::Text(s) => Some(Some(s.clone())),
        JsonField::Other => None,
    }
}

fn required_member(f: &JsonField) -> (r: Option<String>)
    ensures
        opt_text_view(r) == required_field(f@),
{
    match f {
        JsonField::Text(s) => Some(s.clone()),
        _ => None,
    }
}

/// The link in a JSON text, where it holds one.
pub fn read_vmess_link(text: &str) -> (r: Option<VmessLink>)
    ensures
        match r {
            Some(l) => vmess_link(text@) == Some(l@),
            None => vmess_link(text@) is None,
        },
{
    let keys: [&str; 14] = ["ps", "add", "port", "id", "aid", "scy", "net", "type", "host", "path", "tls", "sni", "alpn", "fp"];
    assert(crate::convert::fields::keys_view(keys@) =~= vmess_keys());
    let fs = match json_object_fields(text, &keys) {
        Some(fs) => fs,
        None => {
            return None;
        },
    };
    let ghost fm = Seq::new(fs@.len(), |i: int| fs@[i]@);
    let add = required_member(&fs[1]);
    let port = required_member(&fs[2]);
    let id = required_member(&fs[3]);
    let ps = optional_member(&fs[0]);
    let aid = optional_member(&fs[4]);
    let scy = optional_member(&fs[5]);
    let net = optional_member(&fs[6]);
    let header_type = optional_member(&fs[7]);
    let host = optional_member(&fs[8]);
    let path = optional_member(&fs[9]);
    let tls = optional_member(&fs[10]);
    let sni = optional_member(&fs[11]);
    let alpn = optional_member(&fs[12]);
    let fp = optional_member(&fs[13]);
    match (add, port, id, ps, aid, scy, net, header_type, host, path, tls, sni, alpn, fp) {
        (Some(add), Some(port), Some(id), Some(ps), Some(aid), Some(scy), Some(net), Some(header_type), Some(host), Some(path), Some(tls), Some(sni), Some(alpn), Some(fp)) => {
            assert forall|i: int| 0 <= i < 14 && i != 1 && i != 2 && i != 3 implies optional_field(#[trigger] fm[i]) is Some by {
                assert(fm[i] == fs@[i]@);
            }
            Some(VmessLink { ps, add, port, id, aid, scy, net, header_type, host, path, tls, sni, alpn, fp })
        },
        _ => {
            assert(fm[0] == fs@[0]@ && fm[1] == fs@[1]@ && fm[2] == fs@[2]@ && fm[3] == fs@[3]@ && fm[4] == fs@[4]@);
            assert(fm[5] == fs@[5]@ && fm[6] == fs@[6]@ && fm[7] == fs@[7]@ && fm[8] == fs@[8]@ && fm[9] == fs@[9]@);
            assert(fm[10] == fs@[10]@ && fm[11] == fs@[11]@ && fm[12] == fs@[12]@ && fm[13] == fs@[13]@);
            None
        },
    }
}

/// The fields of a vmess node from the first part of its link: name,
/// server, port, id, cipher, alter id, network and header type.
pub open spec fn vmess_head(l: VmessModel) -> Fields {
    let d = set_s(set_s(set_s(seq![], "type"@, "vmess"@), "name"@, opt_or(l.ps, l.add)), "server"@, l.add);
    let d1 = set_s(set_s(set_s(d, "port"@, l.port), "uuid"@, l.id), "cipher"@, opt_or(l.scy, "auto"@));
    set_opt(set_opt(set_opt(d1, "alterId"@, l.aid), "network"@, l.net), "headerType"@, l.header_type)
}

/// The transport and TLS fields of a vmess link.
pub open spec fn vmess_tail(l: VmessModel, d: Fields) -> Fields {
    let d1 = match l.host {
        Some(h) => if l.net == Some("ws"@) {
            with_entry(d, "ws-opts"@, YamlModel::Mapping(ws_opts(h, l.path)))
        } else {
            set_s(d, "servername"@, h)
        },
        None => d,
    };
    let d2 = match l.path {
        Some(p) => if l.net == Some("grpc"@) {
            with_entry(d1, "grpc-opts"@, YamlModel::Mapping(set_s(seq![], "grpc-service-name"@, p)))
        } else if lookup(d1, "ws-opts"@) is None {
            set_s(d1, "path"@, p)
        } else {
            d1
        },
        None => d1,
    };
    let d3 = if l.tls == Some("tls"@) {
        set_b(d2, "tls"@, true)
    } else {
        d2
    };
    set_opt(set_opt(set_opt(d3, "servername"@, l.sni), "alpn"@, l.alpn), "client-fingerprint"@, l.fp)
}

/// The node of a vmess link's JSON.
pub open spec fn vmess_node(l: VmessModel) -> NodeModel {
    let d = vmess_tail(l, vmess_head(l));
    NodeModel { name: opt_or(get_string(d, "name"@), l.add), ty: "vmess"@, data: d }
}

/// A node from a `vmess://` link: base64 JSON, else a link in URL form.
pub open spec fn vmess_uri(line: Seq<char>) -> Result<NodeModel, UriError> {
    match base64_text(strip_prefixes(line, "vmess://"@)) {
        Some(decoded) => match vmess_link(decoded) {
            Some(l) => Ok(vmess_node(l)),
            None => standard_uri(line),
        },
        None => standard_uri(line),
    }
}

fn opt_is(v: &Option<String>, text: &str) -> (r: bool)
    ensures
        r == (opt_text_view(*v) == Some(text@)),
{
    match v {
        Some(s) => chars_eq(&chars_of(s.as_str()), &chars_of(text)),
        None => false,
    }
}

fn vmess_head_fields(link: &VmessLink) -> (r: Vec<(YamlValue, YamlValue)>)
    ensures
        pairs_model(r@) == vmess_head(link@),
{
    let mut data: Vec<(YamlValue, YamlValue)> = Vec::new();
    assert(pairs_model(data@) =~= Seq::<(YamlModel, YamlModel)>::empty());
    set_string(&mut data, "type", "vmess");
    match &link.ps {
        Some(ps) => set_string(&mut data, "name", ps.as_str()),
        None => set_string(&mut data, "name", link.add.as_str()),
    }
    set_string(&mut data, "server", link.add.as_str());
    set_string(&mut data, "port", link.port.as_str());
    set_string(&mut data, "uuid", link.id.as_str());
    match &link.scy {
        Some(scy) => set_string(&mut data, "cipher", scy.as_str()),
        None => set_string(&mut data, "cipher", "auto"),
    }
    set_opt_string(&mut data, "alterId", link.aid.clone());
    set_opt_string(&mut data, "network", link.net.clone());
    set_opt_string(&mut data, "headerType", link.header_type.clone());
    data
}

fn add_vmess_tail(link: &VmessLink, data: &mut Vec<(YamlValue, YamlValue)>)
    ensures
        pairs_model(final(data)@) == vmess_tail(link@, pairs_model(old(data)@)),
{
    match &link.host {
        Some(host) => {
            if opt_is(&link.net, "ws") {
                let mut headers: Vec<(YamlValue, YamlValue)> = Vec::new();
                assert(pairs_model(headers@) =~= Seq::<(YamlModel, YamlModel)>::empty());
                set_string(&mut headers, "Host", host.as_str());
                proof {
                    crate::yaml::lemma_mapping_model(headers);
                }
                let mut ws: Vec<(YamlValue, YamlValue)> = Vec::new();
                assert(pairs_model(ws@) =~= Seq::<(YamlModel, YamlModel)>::empty());
                set_entry(&mut ws, "headers", YamlValue::Mapping(headers));
                set_opt_string(&mut ws, "path", link.path.clone());
                proof {
                    crate::yaml::lemma_mapping_model(ws);
                }
                set_entry(data, "ws-opts", YamlValue::Mapping(ws));
            } else {
                set_string(data, "servername", host.as_str());
            }
        },
        None => {},
    }
    match &link.path {
        Some(path) => {
            if opt_is(&link.net, "grpc") {
                let mut grpc: Vec<(YamlValue, YamlValue)> = Vec::new();
                assert(pairs_model(grpc@) =~= Seq::<(YamlModel, YamlModel)>::empty());
                set_string(&mut grpc, "grpc-service-name", path.as_str());
                proof {
                    crate::yaml::lemma_mapping_model(grpc);
                }
                set_entry(data, "grpc-opts", YamlValue::Mapping(grpc));
            } else if crate::yaml::find_key(data, "ws-opts") >= data.len() {
                proof {
                    crate::yaml::lemma_key_index(pairs_model(data@), "ws-opts"@);
                }
                set_string(data, "path", path.as_str());
            } else {
                proof {
                    crate::yaml::lemma_key_index(pairs_model(data@), "ws-opts"@);
                }
            }
        },
        None => {},
    }
    if opt_is(&link.tls, "tls") {
        set_bool(data, "tls", true);
    }
    set_opt_string(data, "servername", link.sni.clone());
    set_opt_string(data, "alpn", link.alpn.clone());
    set_opt_string(data, "client-fingerprint", link.fp.clone());
}

/// The node of a `vmess://` link.
pub fn parse_vmess_uri(line: &str) -> (r: Result<ProxyNode, UriError>)
    ensures
        node_res_view(r) == vmess_uri(line@),
{
    let payload = stripped_prefixes(&chars_of(line), &chars_of("vmess://"));
    match decode_base64_text(string_of_chars(&payload).as_str()) {
        Some(decoded) => match read_vmess_link(decoded.as_str()) {
            Some(link) => {
                let mut data = vmess_head_fields(&link);
                add_vmess_tail(&link, &mut data);
                let name = match map_get_string(&data, "name") {
                    Some(n) => n,
                    None => link.add.clone(),
                };
                Ok(ProxyNode { name, ty: "vmess".to_owned(), data })
            },
            None => parse_standard_uri(line),
        },
        None => parse_standard_uri(line),
    }
}

/// The schemes read as links in URL form.
pub open spec fn standard_scheme(lower: Seq<char>) -> bool {
    ||| starts_with(lower, "vless://"@)
    ||| starts_with(lower, "trojan://"@)
    ||| starts_with(lower, "socks://"@)
    ||| starts_with(lower, "socks5://"@)
    ||| starts_with(lower, "http://"@)
    ||| starts_with(lower, "https://"@)
    ||| starts_with(lower, "hysteria2://"@)
    ||| starts_with(lower, "hy2://"@)
    ||| starts_with(lower, "wireguard://"@)
    ||| starts_with(lower, "wg://"@)
}

/// A node from a share link, by its scheme in any case.
pub open spec fn uri_node(line: Seq<char>) -> Result<NodeModel, UriError> {
    let lower = to_lower(line);
    if starts_with(lower, "vmess://"@) {
        vmess_uri(line)
    } else if starts_with(lower, "ss://"@) {
        ss_uri(line)
    } else if standard_scheme(lower) {
        standard_uri(line)
    } else {
        Err(UriError::UnsupportedScheme)
    }
}

fn is_standard_scheme(lower: &Vec<char>) -> (r: bool)
    ensures
        r == standard_scheme(lower@),
{
    has_prefix(lower, &chars_of("vless://")) || has_prefix(lower, &chars_of("trojan://"))
        || has_prefix(lower, &chars_of("socks://")) || has_prefix(lower, &chars_of("socks5://"))
        || has_prefix(lower, &chars_of("http://")) || has_prefix(lower, &chars_of("https://"))
        || has_prefix(lower, &chars_of("hysteria2://")) || has_prefix(lower, &chars_of("hy2://"))
        || has_prefix(lower, &chars_of("wireguard://")) || has_prefix(lower, &chars_of("wg://"))
}

/// The node of a share link.
pub fn parse_uri_node(line: &str) -> (r: Result<ProxyNode, UriError>)
    ensures
        node_res_view(r) == uri_node(line@),
{
    let lower = lowercase_ascii(&chars_of(line));
    if has_prefix(&lower, &chars_of("vmess://")) {
        return parse_vmess_uri(line);
    }
    if has_prefix(&lower, &chars_of("ss://")) {
        return parse_ss_uri(line);
    }
    if is_standard_scheme(&lower) {
        return parse_standard_uri(line);
    }
    Err(UriError::UnsupportedScheme)
}

proof fn lemma_set_opt_keeps(d: Fields, key: Seq<char>, v: Option<Seq<char>>, k2: Seq<char>)
    requires
        k2 != key,
    ensures
        lookup(set_opt(d, key, v), k2) == lookup(d, k2),
{
    if let Some(x) = v {
        lemma_with_entry_lookup(d, key, YamlModel::String(x), k2);
    }
}

proof fn lemma_set_in_keeps(d: Fields, key: Seq<char>, inner: Seq<char>, v: Seq<char>, k2: Seq<char>)
    requires
        k2 != key,
    ensures
        lookup(set_in(d, key, inner, v), k2) == lookup(d, k2),
{
    match lookup(d, key) {
        Some(YamlModel::Mapping(m)) => lemma_with_entry_lookup(d, key, YamlModel::Mapping(set_s(m, inner, v)), k2),
        Some(_) => {},
        None => lemma_with_entry_lookup(d, key, YamlModel::Mapping(set_s(seq![], inner, v)), k2),
    }
}

/// Whether the `security` of a link's query asks for TLS: `tls`, or
/// `reality`, which runs over TLS.
pub open spec fn asks_for_tls(q: Query) -> bool {
    query_of(q, "security"@) == Some("tls"@) || query_of(q, "security"@) == Some("reality"@)
}

/// A link whose query asks for TLS (`security=tls` or `security=reality`)
/// gives a node with `tls: true`; any other query leaves `tls` as it was.
pub proof fn secure_queries_turn_on_tls(q: Query, d: Fields)
    ensures
        asks_for_tls(q) ==> lookup(common_tls(q, d), "tls"@) == Some(YamlModel::Bool(true)),
        !asks_for_tls(q) ==> lookup(common_tls(q, d), "tls"@) == lookup(d, "tls"@),
{
    reveal_strlit("tls");
    reveal_strlit("network");
    reveal_strlit("reality-opts");
    reveal_strlit("servername");
    reveal_strlit("alpn");
    reveal_strlit("security");
    reveal_strlit("reality");
    assert("network"@ != "tls"@) by {
        assert("network"@.len() != "tls"@.len());
    }
    assert("reality-opts"@ != "tls"@) by {
        assert("reality-opts"@.len() != "tls"@.len());
    }
    assert("servername"@ != "tls"@) by {
        assert("servername"@.len() != "tls"@.len());
    }
    assert("alpn"@ != "tls"@) by {
        assert("alpn"@.len() != "tls"@.len());
    }
    let d1 = set_opt(d, "network"@, query_of(q, "type"@));
    lemma_set_opt_keeps(d, "network"@, query_of(q, "type"@), "tls"@);
    let d2 = match query_of(q, "security"@) {
        Some(sec) => {
            let t = if sec == "tls"@ || sec == "reality"@ {
                set_b(d1, "tls"@, true)
            } else {
                d1
            };
            if sec == "tls"@ || sec == "reality"@ {
                lemma_with_entry_lookup(d1, "tls"@, YamlModel::Bool(true), "tls"@);
            }
            if sec == "reality"@ && reality_opts(q).len() > 0 {
                lemma_with_entry_lookup(t, "reality-opts"@, YamlModel::Mapping(reality_opts(q)), "tls"@);
            }
            if sec == "reality"@ && reality_opts(q).len() > 0 {
                with_entry(t, "reality-opts"@, YamlModel::Mapping(reality_opts(q)))
            } else {
                t
            }
        },
        None => d1,
    };
    let d3 = set_opt(d2, "servername"@, query_of(q, "sni"@));
    lemma_set_opt_keeps(d2, "servername"@, query_of(q, "sni"@), "tls"@);
    let d4 = set_opt(d3, "servername"@, query_of(q, "peer"@));
    lemma_set_opt_keeps(d3, "servername"@, query_of(q, "peer"@), "tls"@);
    lemma_set_opt_keeps(d4, "alpn"@, query_of(q, "alpn"@), "tls"@);
}

proof fn lemma_host_keeps_tls(q: Query, d: Fields)
    ensures
        lookup(common_host(q, d), "tls"@) == lookup(d, "tls"@),
{
    reveal_strlit("tls");
    reveal_strlit("client-fingerprint");
    reveal_strlit("skip-cert-verify");
    reveal_strlit("flow");
    reveal_strlit("ws-opts");
    reveal_strlit("servername");
    reveal_strlit("host");
    assert("client-fingerprint"@ != "tls"@) by {
        assert("client-fingerprint"@.len() != "tls"@.len());
    }
    assert("skip-cert-verify"@ != "tls"@) by {
        assert("skip-cert-verify"@.len() != "tls"@.len());
    }
    assert("flow"@ != "tls"@) by {
        assert("flow"@.len() != "tls"@.len());
    }
    assert("ws-opts"@ != "tls"@) by {
        assert("ws-opts"@.len() != "tls"@.len());
    }
    assert("servername"@ != "tls"@) by {
        assert("servername"@.len() != "tls"@.len());
    }
    assert("host"@ != "tls"@) by {
        assert("host"@.len() != "tls"@.len());
    }
    let d1 = set_opt(d, "client-fingerprint"@, or_query(q, "fp"@, "fingerprint"@));
    lemma_set_opt_keeps(d, "client-fingerprint"@, or_query(q, "fp"@, "fingerprint"@), "tls"@);
    lemma_with_entry_lookup(d1, "skip-cert-verify"@, YamlModel::Bool(true), "tls"@);
    let d2 = if query_of(q, "allowInsecure"@) == Some("1"@) || query_of(q, "insecure"@) == Some("1"@) {
        set_b(d1, "skip-cert-verify"@, true)
    } else {
        d1
    };
    let d3 = set_opt(d2, "flow"@, query_of(q, "flow"@));
    lemma_set_opt_keeps(d2, "flow"@, query_of(q, "flow"@), "tls"@);
    match query_of(q, "host"@) {
        Some(h) => {
            lemma_with_entry_lookup(d3, "ws-opts"@, YamlModel::Mapping(ws_opts(h, query_of(q, "path"@))), "tls"@);
            lemma_with_entry_lookup(d3, "servername"@, YamlModel::String(h), "tls"@);
            lemma_with_entry_lookup(d3, "host"@, YamlModel::String(h), "tls"@);
        },
        None => {},
    }
}

proof fn lemma_path_keeps_tls(q: Query, d: Fields)
    ensures
        lookup(common_path(q, d), "tls"@) == lookup(d, "tls"@),
{
    reveal_strlit("tls");
    reveal_strlit("grpc-opts");
    reveal_strlit("ws-opts");
    reveal_strlit("path");
    reveal_strlit("grpc-service-name");
    assert("grpc-opts"@ != "tls"@) by {
        assert("grpc-opts"@.len() != "tls"@.len());
    }
    assert("ws-opts"@ != "tls"@) by {
        assert("ws-opts"@.len() != "tls"@.len());
    }
    assert("path"@ != "tls"@) by {
        assert("path"@.len() != "tls"@.len());
    }
    let d1 = match query_of(q, "path"@) {
        Some(p) => if query_of(q, "type"@) == Some("grpc"@) {
            with_entry(d, "grpc-opts"@, YamlModel::Mapping(set_s(seq![], "grpc-service-name"@, p)))
        } else if query_of(q, "type"@) == Some("ws"@) {
            set_in(d, "ws-opts"@, "path"@, p)
        } else {
            set_s(d, "path"@, p)
        },
        None => d,
    };
    if let Some(p) = query_of(q, "path"@) {
        lemma_with_entry_lookup(d, "grpc-opts"@, YamlModel::Mapping(set_s(seq![], "grpc-service-name"@, p)), "tls"@);
        lemma_set_in_keeps(d, "ws-opts"@, "path"@, p, "tls"@);
        lemma_with_entry_lookup(d, "path"@, YamlModel::String(p), "tls"@);
    }
    if let Some(sn) = query_of(q, "serviceName"@) {
        lemma_set_in_keeps(d1, "grpc-opts"@, "grpc-service-name"@, sn, "tls"@);
    }
}

proof fn lemma_keys_keep_tls(q: Query, d: Fields)
    ensures
        lookup(common_keys(q, d), "tls"@) == lookup(d, "tls"@),
{
    reveal_strlit("tls");
    reveal_strlit("obfs-password");
    reveal_strlit("pinSHA256");
    reveal_strlit("ip");
    reveal_strlit("public-key");
    reveal_strlit("reserved");
    reveal_strlit("mtu");
    reveal_strlit("pre-shared-key");
    assert("obfs-password"@ != "tls"@) by {
        assert("obfs-password"@.len() != "tls"@.len());
    }
    assert("pinSHA256"@ != "tls"@) by {
        assert("pinSHA256"@.len() != "tls"@.len());
    }
    assert("ip"@ != "tls"@) by {
        assert("ip"@.len() != "tls"@.len());
    }
    assert("public-key"@ != "tls"@) by {
        assert("public-key"@.len() != "tls"@.len());
    }
    assert("reserved"@ != "tls"@) by {
        assert("reserved"@.len() != "tls"@.len());
    }
    assert("mtu"@ != "tls"@) by {
        assert("mtu"@[0] != "tls"@[0]);
    }
    assert("pre-shared-key"@ != "tls"@) by {
        assert("pre-shared-key"@.len() != "tls"@.len());
    }
    let d1 = set_opt(d, "obfs-password"@, query_of(q, "obfs-password"@));
    lemma_set_opt_keeps(d, "obfs-password"@, query_of(q, "obfs-password"@), "tls"@);
    let d2 = set_opt(d1, "pinSHA256"@, query_of(q, "pinSHA256"@));
    lemma_set_opt_keeps(d1, "pinSHA256"@, query_of(q, "pinSHA256"@), "tls"@);
    let d3 = set_opt(d2, "ip"@, query_of(q, "address"@));
    lemma_set_opt_keeps(d2, "ip"@, query_of(q, "address"@), "tls"@);
    let d4 = set_opt(d3, "public-key"@, or_query(q, "publickey"@, "peer"@));
    lemma_set_opt_keeps(d3, "public-key"@, or_query(q, "publickey"@, "peer"@), "tls"@);
    let d5 = set_opt(d4, "reserved"@, query_of(q, "reserved"@));
    lemma_set_opt_keeps(d4, "reserved"@, query_of(q, "reserved"@), "tls"@);
    let d6 = set_opt(d5, "mtu"@, query_of(q, "mtu"@));
    lemma_set_opt_keeps(d5, "mtu"@, query_of(q, "mtu"@), "tls"@);
    lemma_set_opt_keeps(d6, "pre-shared-key"@, query_of(q, "presharedkey"@), "tls"@);
}

/// A share link in URL form whose query asks for TLS (`security=tls` or
/// `security=reality`) is read as a node with `tls: true`.
pub proof fn secure_links_give_tls_nodes(line: Seq<char>)
    requires
        standard_uri(line) is Ok,
        url_parts(normalized(line)) matches Some(u) && asks_for_tls(u.query),
    ensures
        lookup(standard_uri(line)->Ok_0.data, "tls"@) == Some(YamlModel::Bool(true)),
{
    let u = url_parts(normalized(line))->Some_0;
    let q = u.query;
    let name = link_name(u)->Ok_0;
    let p = u.port->Some_0;
    let d = set_s(set_s(set_s(seq![], "type"@, alias_of(u.scheme)), "name"@, name), "server"@, opt_or(u.host, seq![]));
    let d1 = with_entry(d, "port"@, YamlModel::Number(u64_number(p as u64)));
    let sf = scheme_fields(u, d1);
    secure_queries_turn_on_tls(q, sf);
    let t = common_tls(q, sf);
    lemma_host_keeps_tls(q, t);
    lemma_path_keeps_tls(q, common_host(q, t));
    lemma_keys_keep_tls(q, common_path(q, common_host(q, t)));
    assert(standard_uri(line)->Ok_0.data == standard_fields(u, name, p));
}

/// A share link in URL form (`vless://`, `trojan://`, `socks5://`,
/// `https://`, `hysteria2://`, `wireguard://`, ...) whose query asks for TLS
/// (`security=tls` or `security=reality`) is read as a node with
/// `tls: true`.
pub proof fn secure_share_links_give_tls_nodes(line: Seq<char>)
    requires
        standard_scheme(to_lower(line)),
        uri_node(line) is Ok,
        url_parts(normalized(line)) matches Some(u) && asks_for_tls(u.query),
    ensures
        lookup(uri_node(line)->Ok_0.data, "tls"@) == Some(YamlModel::Bool(true)),
{
    reveal_strlit("vless://");
    reveal_strlit("trojan://");
    reveal_strlit("socks://");
    reveal_strlit("socks5://");
    reveal_strlit("http://");
    reveal_strlit("https://");
    reveal_strlit("hysteria2://");
    reveal_strlit("hy2://");
    reveal_strlit("wireguard://");
    reveal_strlit("wg://");
    reveal_strlit("vmess://");
    reveal_strlit("ss://");
    let lower = to_lower(line);
    // no link in URL form starts as a `vmess://` or `ss://` link does
    if starts_with(lower, "vless://"@) {
        assert(lower[0] == lower.subrange(0, "vless://"@.len() as int)[0]);
        assert(lower[1] == lower.subrange(0, "vless://"@.len() as int)[1]);
    }
    if starts_with(lower, "trojan://"@) {
        assert(lower[0] == lower.subrange(0, "trojan://"@.len() as int)[0]);
        assert(lower[1] == lower.subrange(0, "trojan://"@.len() as int)[1]);
    }
    if starts_with(lower, "socks://"@) {
        assert(lower[0] == lower.subrange(0, "socks://"@.len() as int)[0]);
        assert(lower[1] == lower.subrange(0, "socks://"@.len() as int)[1]);
    }
    if starts_with(lower, "socks5://"@) {
        assert(lower[0] == lower.subrange(0, "socks5://"@.len() as int)[0]);
        assert(lower[1] == lower.subrange(0, "socks5://"@.len() as int)[1]);
    }
    if starts_with(lower, "http://"@) {
        assert(lower[0] == lower.subrange(0, "http://"@.len() as int)[0]);
        assert(lower[1] == lower.subrange(0, "http://"@.len() as int)[1]);
    }
    if starts_with(lower, "https://"@) {
        assert(lower[0] == lower.subrange(0, "https://"@.len() as int)[0]);
        assert(lower[1] == lower.subrange(0, "https://"@.len() as int)[1]);
    }
    if starts_with(lower, "hysteria2://"@) {
        assert(lower[0] == lower.subrange(0, "hysteria2://"@.len() as int)[0]);
        assert(lower[1] == lower.subrange(0, "hysteria2://"@.len() as int)[1]);
    }
    if starts_with(lower, "hy2://"@) {
        assert(lower[0] == lower.subrange(0, "hy2://"@.len() as int)[0]);
        assert(lower[1] == lower.subrange(0, "hy2://"@.len() as int)[1]);
    }
    if starts_with(lower, "wireguard://"@) {
        assert(lower[0] == lower.subrange(0, "wireguard://"@.len() as int)[0]);
        assert(lower[1] == lower.subrange(0, "wireguard://"@.len() as int)[1]);
    }
    if starts_with(lower, "wg://"@) {
        assert(lower[0] == lower.subrange(0, "wg://"@.len() as int)[0]);
        assert(lower[1] == lower.subrange(0, "wg://"@.len() as int)[1]);
    }
    assert(!starts_with(lower, "vmess://"@)) by {
        if starts_with(lower, "vmess://"@) {
            assert(lower[0] == lower.subrange(0, 8)[0]);
            assert(lower[1] == lower.subrange(0, 8)[1]);
        }
    }
    assert(!starts_with(lower, "ss://"@)) by {
        if starts_with(lower, "ss://"@) {
            assert(lower[0] == lower.subrange(0, 5)[0]);
            assert(lower[1] == lower.subrange(0, 5)[1]);
        }
    }
    assert(uri_node(line) == standard_uri(line));
    secure_links_give_tls_nodes(line);
}

} // verus!
