//! The TLS, transport and multiplex settings of an outbound.
use vstd::prelude::*;

use crate::convert::fields::{
    any_bool, any_bool_of, first_string, first_string_list, first_string_list_of, first_string_of,
    get_bool, get_mapping, get_string, get_string_list, get_u64, json_members, keys_view,
    map_get_bool, map_get_mapping, map_get_string, map_get_string_list, map_get_u64,
    opt_string_view, opt_strings_view, strings_view, yaml_map_to_json, Pairs,
};
use crate::convert::object::{
    flag_member, js, jlist, opt_list, opt_member, opt_members_view, opt_obj, opt_str,
    opt_u64, string_array, Members, ObjectBuilder,
};
use crate::json::{lemma_object_model, members_model, JsonModel, JsonValue};
use crate::outside::string_from_chars;
use crate::text::{chars_eq, chars_of};
use crate::yaml::{pairs_model, YamlValue};

verus! {

/// Why a node could not be converted.
#[derive(Debug, Clone, PartialEq, Eq)]
pub enum ConvertError {
    /// A required field is missing.
    MissingField(String),
    /// A required number is missing or not a number.
    InvalidNumber(String),
    /// None of these fields is set.
    MissingOneOf(Vec<String>),
    /// `reality-opts` has no `public-key`.
    MissingRealityKey,
    /// The transport (`network`) is not one that sing-box has.
    UnsupportedTransport(String),
    /// The node's type is not one that is converted.
    UnsupportedProtocol(String),
}

pub ghost enum ConvertFailure {
    MissingField(Seq<char>),
    InvalidNumber(Seq<char>),
    MissingOneOf(Seq<Seq<char>>),
    MissingRealityKey,
    UnsupportedTransport(Seq<char>),
    UnsupportedProtocol(Seq<char>),
}

impl ConvertError {
    pub open spec fn model(&self) -> ConvertFailure {
        match self {
            ConvertError::MissingField(k) => ConvertFailure::MissingField(k@),
            ConvertError::InvalidNumber(k) => ConvertFailure::InvalidNumber(k@),
            ConvertError::MissingOneOf(ks) => ConvertFailure::MissingOneOf(strings_view(ks@)),
            ConvertError::MissingRealityKey => ConvertFailure::MissingRealityKey,
            ConvertError::UnsupportedTransport(t) => ConvertFailure::UnsupportedTransport(t@),
            ConvertError::UnsupportedProtocol(t) => ConvertFailure::UnsupportedProtocol(t@),
        }
    }
}

/// `reality` settings: present where `reality-opts` is a mapping, which must
/// hold a `public-key`.
pub open spec fn reality_spec(d: Pairs) -> Result<Option<Members>, ConvertFailure> {
    match get_mapping(d, "reality-opts"@) {
        None => Ok(None),
        Some(r) => match get_string(r, "public-key"@) {
            None => Err(ConvertFailure::MissingRealityKey),
            Some(pk) => {
                let sid = match get_string(r, "short-id"@) {
                    Some(s) => s,
                    None => seq![],
                };
                Ok(
                    Some(
                        seq![("enabled"@, JsonModel::Bool(true)), ("public_key"@, js(pk))] + if sid.len() > 0 {
                            seq![("short_id"@, js(sid))]
                        } else {
                            seq![]
                        },
                    ),
                )
            },
        },
    }
}

/// `utls` settings: present where `client-fingerprint` is set.
pub open spec fn utls_spec(d: Pairs) -> Option<Members> {
    match get_string(d, "client-fingerprint"@) {
        Some(fp) => Some(seq![("enabled"@, JsonModel::Bool(true)), ("fingerprint"@, js(fp))]),
        None => None,
    }
}

/// The first TLS members: SNI, verification and protocol versions.
pub open spec fn tls_head_spec(d: Pairs) -> Members {
    seq![("enabled"@, JsonModel::Bool(true))]
        + flag_member("disable_sni"@, any_bool(d, seq!["disable-sni"@, "disable_sni"@]))
        + opt_member("server_name"@, opt_str(first_string(d, seq!["servername"@, "sni"@])))
        + flag_member("insecure"@, get_bool(d, "skip-cert-verify"@))
        + opt_member("alpn"@, opt_list(get_string_list(d, "alpn"@)))
        + opt_member("min_version"@, opt_str(first_string(d, seq!["tls-min-version"@, "min_version"@])))
        + opt_member("max_version"@, opt_str(first_string(d, seq!["tls-max-version"@, "max_version"@])))
        + opt_member("cipher_suites"@, opt_list(first_string_list(d, seq!["cipher-suites"@, "cipher_suites"@])))
        + opt_member("curve_preferences"@, opt_list(first_string_list(d, seq!["curve-preferences"@, "curve_preferences"@])))
}

/// The TLS members that name certificates and keys.
pub open spec fn tls_cert_spec(d: Pairs) -> Members {
    opt_member("certificate"@, opt_str(get_string(d, "certificate"@)))
        + opt_member("certificate_path"@, opt_str(first_string(d, seq!["certificate-path"@, "certificate_path"@])))
        + opt_member(
        "certificate_public_key_sha256"@,
        opt_list(first_string_list(d, seq!["certificate-public-key-sha256"@, "certificate_public_key_sha256"@])),
    )
        + opt_member("client_certificate"@, opt_list(first_string_list(d, seq!["client-certificate"@, "client_certificate"@])))
        + opt_member("client_certificate_path"@, opt_str(first_string(d, seq!["client-certificate-path"@, "client_certificate_path"@])))
        + opt_member("client_key"@, opt_list(first_string_list(d, seq!["client-key"@, "client_key"@])))
        + opt_member("client_key_path"@, opt_str(first_string(d, seq!["client-key-path"@, "client_key_path"@])))
}

/// The TLS settings that a node's fields give.
pub open spec fn tls_spec(d: Pairs) -> Result<Members, ConvertFailure> {
    match reality_spec(d) {
        Err(e) => Err(e),
        Ok(reality) => Ok(
            tls_head_spec(d) + tls_cert_spec(d) + opt_member("utls"@, opt_obj(utls_spec(d))) + opt_member(
                "reality"@,
                opt_obj(reality),
            ),
        ),
    }
}

/// Whether a node asks for TLS: `tls`, `udp-over-tcp`, or `reality-opts`.
pub open spec fn wants_tls(d: Pairs) -> bool {
    get_bool(d, "tls"@) || get_bool(d, "udp-over-tcp"@) || get_mapping(d, "reality-opts"@) is Some
}

/// The TLS settings of a node that may go without.
pub open spec fn optional_tls_spec(d: Pairs) -> Result<Option<Members>, ConvertFailure> {
    if !wants_tls(d) {
        Ok(None)
    } else {
        match tls_spec(d) {
            Ok(t) => Ok(Some(t)),
            Err(e) => Err(e),
        }
    }
}

pub open spec fn result_members_view(r: Result<Vec<(String, JsonValue)>, ConvertError>) -> Result<Members, ConvertFailure> {
    match r {
        Ok(m) => Ok(members_model(m@)),
        Err(e) => Err(e.model()),
    }
}

pub open spec fn result_opt_members_view(r: Result<Option<Vec<(String, JsonValue)>>, ConvertError>) -> Result<Option<Members>, ConvertFailure> {
    match r {
        Ok(m) => Ok(opt_members_view(m)),
        Err(e) => Err(e.model()),
    }
}

fn build_reality_from_data(data: &Vec<(YamlValue, YamlValue)>) -> (r: Result<Option<Vec<(String, JsonValue)>>, ConvertError>)
    ensures
        result_opt_members_view(r) == reality_spec(pairs_model(data@)),
{
    let reality = match map_get_mapping(data, "reality-opts") {
        Some(r) => r,
        None => {
            return Ok(None);
        },
    };
    let public_key = match map_get_string(reality, "public-key") {
        Some(k) => k,
        None => {
            return Err(ConvertError::MissingRealityKey);
        },
    };
    let short_id = match map_get_string(reality, "short-id") {
        Some(s) => s,
        None => String::new(),
    };
    let mut b = ObjectBuilder::new();
    b.push("enabled", JsonValue::Bool(true));
    b.push("public_key", JsonValue::String(public_key));
    let sid_chars = chars_of(short_id.as_str());
    let ghost before = b.members();
    if sid_chars.len() > 0 {
        b.push("short_id", JsonValue::String(short_id));
    }
    let ghost pk = get_string(get_mapping(pairs_model(data@), "reality-opts"@).unwrap(), "public-key"@).unwrap();
    assert(b.members() =~= seq![("enabled"@, JsonModel::Bool(true)), ("public_key"@, js(pk))] + if sid_chars@.len() > 0 {
        seq![("short_id"@, js(sid_chars@))]
    } else {
        seq![]
    });
    Ok(Some(b.finish()))
}

fn build_utls_from_data(data: &Vec<(YamlValue, YamlValue)>) -> (r: Option<Vec<(String, JsonValue)>>)
    ensures
        opt_members_view(r) == utls_spec(pairs_model(data@)),
{
    match map_get_string(data, "client-fingerprint") {
        Some(fp) => {
            let mut b = ObjectBuilder::new();
            b.push("enabled", JsonValue::Bool(true));
            b.push("fingerprint", JsonValue::String(fp));
            let ghost m = b.members();
            let r = b.finish();
            assert(m =~= seq![("enabled"@, JsonModel::Bool(true)), ("fingerprint"@, js(get_string(pairs_model(data@), "client-fingerprint"@).unwrap()))]);
            Some(r)
        },
        None => None,
    }
}

fn tls_head(data: &Vec<(YamlValue, YamlValue)>) -> (b: ObjectBuilder)
    ensures
        b.members() == tls_head_spec(pairs_model(data@)),
{
    let mut b = ObjectBuilder::new();
    let k_disable: [&str; 2] = ["disable-sni", "disable_sni"];
    let k_sni: [&str; 2] = ["servername", "sni"];
    let k_min: [&str; 2] = ["tls-min-version", "min_version"];
    let k_max: [&str; 2] = ["tls-max-version", "max_version"];
    let k_cipher: [&str; 2] = ["cipher-suites", "cipher_suites"];
    let k_curve: [&str; 2] = ["curve-preferences", "curve_preferences"];
    assert(keys_view(k_disable@) =~= seq!["disable-sni"@, "disable_sni"@]);
    assert(keys_view(k_sni@) =~= seq!["servername"@, "sni"@]);
    assert(keys_view(k_min@) =~= seq!["tls-min-version"@, "min_version"@]);
    assert(keys_view(k_max@) =~= seq!["tls-max-version"@, "max_version"@]);
    assert(keys_view(k_cipher@) =~= seq!["cipher-suites"@, "cipher_suites"@]);
    assert(keys_view(k_curve@) =~= seq!["curve-preferences"@, "curve_preferences"@]);
    b.push("enabled", JsonValue::Bool(true));
    b.push_flag("disable_sni", any_bool_of(data, &k_disable));
    b.push_opt_str("server_name", first_string_of(data, &k_sni));
    b.push_flag("insecure", map_get_bool(data, "skip-cert-verify"));
    b.push_opt_list("alpn", map_get_string_list(data, "alpn"));
    b.push_opt_str("min_version", first_string_of(data, &k_min));
    b.push_opt_str("max_version", first_string_of(data, &k_max));
    b.push_opt_list("cipher_suites", first_string_list_of(data, &k_cipher));
    b.push_opt_list("curve_preferences", first_string_list_of(data, &k_curve));
    assert(b.members() =~= tls_head_spec(pairs_model(data@)));
    b
}

fn tls_certs(data: &Vec<(YamlValue, YamlValue)>) -> (b: ObjectBuilder)
    ensures
        b.members() == tls_cert_spec(pairs_model(data@)),
{
    let mut b = ObjectBuilder::new();
    let k_cert_path: [&str; 2] = ["certificate-path", "certificate_path"];
    let k_pin: [&str; 2] = ["certificate-public-key-sha256", "certificate_public_key_sha256"];
    let k_client_cert: [&str; 2] = ["client-certificate", "client_certificate"];
    let k_client_cert_path: [&str; 2] = ["client-certificate-path", "client_certificate_path"];
    let k_client_key: [&str; 2] = ["client-key", "client_key"];
    let k_client_key_path: [&str; 2] = ["client-key-path", "client_key_path"];
    assert(keys_view(k_cert_path@) =~= seq!["certificate-path"@, "certificate_path"@]);
    assert(keys_view(k_pin@) =~= seq!["certificate-public-key-sha256"@, "certificate_public_key_sha256"@]);
    assert(keys_view(k_client_cert@) =~= seq!["client-certificate"@, "client_certificate"@]);
    assert(keys_view(k_client_cert_path@) =~= seq!["client-certificate-path"@, "client_certificate_path"@]);
    assert(keys_view(k_client_key@) =~= seq!["client-key"@, "client_key"@]);
    assert(keys_view(k_client_key_path@) =~= seq!["client-key-path"@, "client_key_path"@]);
    b.push_opt_str("certificate", map_get_string(data, "certificate"));
    b.push_opt_str("certificate_path", first_string_of(data, &k_cert_path));
    b.push_opt_list("certificate_public_key_sha256", first_string_list_of(data, &k_pin));
    b.push_opt_list("client_certificate", first_string_list_of(data, &k_client_cert));
    b.push_opt_str("client_certificate_path", first_string_of(data, &k_client_cert_path));
    b.push_opt_list("client_key", first_string_list_of(data, &k_client_key));
    b.push_opt_str("client_key_path", first_string_of(data, &k_client_key_path));
    assert(b.members() =~= tls_cert_spec(pairs_model(data@)));
    b
}

/// The TLS settings that a node's fields give.
pub fn build_tls_from_data(data: &Vec<(YamlValue, YamlValue)>) -> (r: Result<Vec<(String, JsonValue)>, ConvertError>)
    ensures
        result_members_view(r) == tls_spec(pairs_model(data@)),
{
    let ghost d = pairs_model(data@);
    let reality = match build_reality_from_data(data) {
        Ok(r) => r,
        Err(e) => {
            return Err(e);
        },
    };
    let mut b = tls_head(data);
    b.append(tls_certs(data));
    b.push_opt_object("utls", build_utls_from_data(data));
    b.push_opt_object("reality", reality);
    let ghost m = b.members();
    assert(m =~= tls_spec(d)->Ok_0);
    Ok(b.finish())
}

/// The TLS settings of a node (it must have them).
pub fn build_required_tls(data: &Vec<(YamlValue, YamlValue)>) -> (r: Result<Vec<(String, JsonValue)>, ConvertError>)
    ensures
        result_members_view(r) == tls_spec(pairs_model(data@)),
{
    build_tls_from_data(data)
}

/// The TLS settings of a node, where it asks for TLS.
pub fn build_optional_tls(data: &Vec<(YamlValue, YamlValue)>) -> (r: Result<Option<Vec<(String, JsonValue)>>, ConvertError>)
    ensures
        result_opt_members_view(r) == optional_tls_spec(pairs_model(data@)),
{
    let enabled = map_get_bool(data, "tls") || map_get_bool(data, "udp-over-tcp") || map_get_mapping(data, "reality-opts").is_some();
    if !enabled {
        return Ok(None);
    }
    match build_required_tls(data) {
        Ok(t) => Ok(Some(t)),
        Err(e) => Err(e),
    }
}

/// The `ws` transport: path and headers from `ws-opts`, else the node's
/// `path` and its `host` as the `Host` header.
pub open spec fn ws_spec(d: Pairs) -> Members {
    let (path, headers) = match get_mapping(d, "ws-opts"@) {
        Some(w) => (
            get_string(w, "path"@),
            match get_mapping(w, "headers"@) {
                Some(h) => if json_members(h).len() > 0 {
                    Some(json_members(h))
                } else {
                    None
                },
                None => None,
            },
        ),
        None => (
            get_string(d, "path"@),
            match get_string(d, "host"@) {
                Some(h) => Some(seq![("Host"@, js(h))]),
                None => None,
            },
        ),
    };
    seq![("type"@, js("ws"@))] + opt_member("path"@, opt_str(path)) + opt_member("headers"@, opt_obj(headers))
}

/// The `grpc` transport.
pub open spec fn grpc_spec(d: Pairs) -> Members {
    let from_opts = match get_mapping(d, "grpc-opts"@) {
        Some(g) => get_string(g, "grpc-service-name"@),
        None => None,
    };
    let service_name = match from_opts {
        Some(s) => Some(s),
        None => get_string(d, "serviceName"@),
    };
    seq![("type"@, js("grpc"@))] + opt_member("service_name"@, opt_str(service_name)) + opt_member(
        "authority"@,
        opt_str(get_string(d, "authority"@)),
    )
}

/// The `http` transport: hosts and path from `h2-opts` or `http-opts`, else
/// the node's `host` and `path`.
pub open spec fn http_spec(d: Pairs) -> Members {
    let opts = match get_mapping(d, "h2-opts"@) {
        Some(o) => Some(o),
        None => get_mapping(d, "http-opts"@),
    };
    let (host, path) = match opts {
        Some(o) => (get_string_list(o, "host"@), get_string(o, "path"@)),
        None => (
            match get_string(d, "host"@) {
                Some(h) => Some(seq![h]),
                None => None,
            },
            get_string(d, "path"@),
        ),
    };
    seq![("type"@, js("http"@))] + opt_member("host"@, opt_list(host)) + opt_member("path"@, opt_str(path))
}

/// The transport of a node by its `network` (default `tcp`, which needs
/// none).
pub open spec fn transport_spec(d: Pairs) -> Result<Option<Members>, ConvertFailure> {
    let network = match get_string(d, "network"@) {
        Some(n) => n,
        None => "tcp"@,
    };
    if network == "tcp"@ {
        Ok(None)
    } else if network == "ws"@ {
        Ok(Some(ws_spec(d)))
    } else if network == "grpc"@ {
        Ok(Some(grpc_spec(d)))
    } else if network == "http"@ || network == "h2"@ {
        Ok(Some(http_spec(d)))
    } else {
        Err(ConvertFailure::UnsupportedTransport(network))
    }
}

fn build_ws_transport(data: &Vec<(YamlValue, YamlValue)>) -> (r: Vec<(String, JsonValue)>)
    ensures
        members_model(r@) == ws_spec(pairs_model(data@)),
{
    let (path, headers) = match map_get_mapping(data, "ws-opts") {
        Some(w) => {
            let path = map_get_string(w, "path");
            let headers = match map_get_mapping(w, "headers") {
                Some(h) => {
                    let m = yaml_map_to_json(h);
                    if m.len() > 0 {
                        Some(m)
                    } else {
                        None
                    }
                },
                None => None,
            };
            (path, headers)
        },
        None => {
            let path = map_get_string(data, "path");
            let headers = match map_get_string(data, "host") {
                Some(h) => {
                    let mut b = ObjectBuilder::new();
                    b.push("Host", JsonValue::String(h));
                    Some(b.finish())
                },
                None => None,
            };
            (path, headers)
        },
    };
    let mut b = ObjectBuilder::new();
    b.push_str("type", "ws");
    b.push_opt_str("path", path);
    b.push_opt_object("headers", headers);
    let ghost m = b.members();
    assert(m =~= ws_spec(pairs_model(data@)));
    b.finish()
}

fn build_grpc_transport(data: &Vec<(YamlValue, YamlValue)>) -> (r: Vec<(String, JsonValue)>)
    ensures
        members_model(r@) == grpc_spec(pairs_model(data@)),
{
    let from_opts = match map_get_mapping(data, "grpc-opts") {
        Some(g) => map_get_string(g, "grpc-service-name"),
        None => None,
    };
    let service_name = match from_opts {
        Some(s) => Some(s),
        None => map_get_string(data, "serviceName"),
    };
    let mut b = ObjectBuilder::new();
    b.push_str("type", "grpc");
    b.push_opt_str("service_name", service_name);
    b.push_opt_str("authority", map_get_string(data, "authority"));
    let ghost m = b.members();
    assert(m =~= grpc_spec(pairs_model(data@)));
    b.finish()
}

fn build_http_transport(data: &Vec<(YamlValue, YamlValue)>) -> (r: Vec<(String, JsonValue)>)
    ensures
        members_model(r@) == http_spec(pairs_model(data@)),
{
    let opts = match map_get_mapping(data, "h2-opts") {
        Some(o) => Some(o),
        None => map_get_mapping(data, "http-opts"),
    };
    let (host, path) = match opts {
        Some(o) => (map_get_string_list(o, "host"), map_get_string(o, "path")),
        None => {
            let host = match map_get_string(data, "host") {
                Some(h) => {
                    let mut v: Vec<String> = Vec::new();
                    v.push(h);
                    assert(strings_view(v@) =~= seq![v@[0]@]);
                    Some(v)
                },
                None => None,
            };
            (host, map_get_string(data, "path"))
        },
    };
    let mut b = ObjectBuilder::new();
    b.push_str("type", "http");
    b.push_opt_list("host", host);
    b.push_opt_str("path", path);
    let ghost m = b.members();
    assert(m =~= http_spec(pairs_model(data@)));
    b.finish()
}

/// The transport of a node by its `network`.
pub fn build_transport(data: &Vec<(YamlValue, YamlValue)>) -> (r: Result<Option<Vec<(String, JsonValue)>>, ConvertError>)
    ensures
        result_opt_members_view(r) == transport_spec(pairs_model(data@)),
{
    let network = match map_get_string(data, "network") {
        Some(n) => chars_of(n.as_str()),
        None => chars_of("tcp"),
    };
    if chars_eq(&network, &chars_of("tcp")) {
        Ok(None)
    } else if chars_eq(&network, &chars_of("ws")) {
        Ok(Some(build_ws_transport(data)))
    } else if chars_eq(&network, &chars_of("grpc")) {
        Ok(Some(build_grpc_transport(data)))
    } else if chars_eq(&network, &chars_of("http")) || chars_eq(&network, &chars_of("h2")) {
        Ok(Some(build_http_transport(data)))
    } else {
        Err(ConvertError::UnsupportedTransport(string_from_chars(&network)))
    }
}

/// The multiplex settings of a node: present where `smux.enabled` is set.
pub open spec fn multiplex_spec(d: Pairs) -> Option<Members> {
    match get_mapping(d, "smux"@) {
        None => None,
        Some(s) => if !get_bool(s, "enabled"@) {
            None
        } else {
            let brutal = match get_mapping(s, "brutal-opts"@) {
                Some(o) => if get_bool(o, "enabled"@) {
                    Some(
                        seq![("enabled"@, JsonModel::Bool(true))] + opt_member("up_mbps"@, opt_u64(get_u64(o, "up"@)))
                            + opt_member("down_mbps"@, opt_u64(get_u64(o, "down"@))),
                    )
                } else {
                    None
                },
                None => None,
            };
            Some(
                seq![("enabled"@, JsonModel::Bool(true))] + opt_member("protocol"@, opt_str(get_string(s, "protocol"@)))
                    + opt_member("max_connections"@, opt_u64(get_u64(s, "max-connections"@)))
                    + opt_member("min_streams"@, opt_u64(get_u64(s, "min-streams"@)))
                    + opt_member("max_streams"@, opt_u64(get_u64(s, "max-streams"@)))
                    + flag_member("padding"@, get_bool(s, "padding"@))
                    + opt_member("brutal"@, opt_obj(brutal)),
            )
        },
    }
}

/// The multiplex settings of a node.
pub fn build_multiplex(data: &Vec<(YamlValue, YamlValue)>) -> (r: Option<Vec<(String, JsonValue)>>)
    ensures
        opt_members_view(r) == multiplex_spec(pairs_model(data@)),
{
    let smux = match map_get_mapping(data, "smux") {
        Some(s) => s,
        None => {
            return None;
        },
    };
    if !map_get_bool(smux, "enabled") {
        return None;
    }
    let brutal = match map_get_mapping(smux, "brutal-opts") {
        Some(o) => {
            if map_get_bool(o, "enabled") {
                let mut b = ObjectBuilder::new();
                b.push("enabled", JsonValue::Bool(true));
                b.push_opt_u64("up_mbps", map_get_u64(o, "up"));
                b.push_opt_u64("down_mbps", map_get_u64(o, "down"));
                let ghost m = b.members();
                assert(m =~= seq![("enabled"@, JsonModel::Bool(true))] + opt_member("up_mbps"@, opt_u64(get_u64(pairs_model(o@), "up"@)))
                    + opt_member("down_mbps"@, opt_u64(get_u64(pairs_model(o@), "down"@))));
                Some(b.finish())
            } else {
                None
            }
        },
        None => None,
    };
    let mut b = ObjectBuilder::new();
    b.push("enabled", JsonValue::Bool(true));
    b.push_opt_str("protocol", map_get_string(smux, "protocol"));
    b.push_opt_u64("max_connections", map_get_u64(smux, "max-connections"));
    b.push_opt_u64("min_streams", map_get_u64(smux, "min-streams"));
    b.push_opt_u64("max_streams", map_get_u64(smux, "max-streams"));
    b.push_flag("padding", map_get_bool(smux, "padding"));
    b.push_opt_object("brutal", brutal);
    let ghost m = b.members();
    assert(m =~= multiplex_spec(pairs_model(data@))->Some_0);
    Some(b.finish())
}

} // verus!
