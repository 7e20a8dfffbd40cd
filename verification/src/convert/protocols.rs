//! One sing-box outbound per mihomo proxy node, by the node's type.
use vstd::prelude::*;

use crate::convert::fields::{
    any_bool, any_bool_of, first_string, first_string_of, first_u64, first_u64_of, get_csv_numbers,
    get_mapping, get_string, get_string_list, get_u64, keys_view, map_get_csv, map_get_csv_numbers,
    map_get_mapping, map_get_string, map_get_u64, opt_string_view, scalar_text, strings_view, Pairs,
};
use crate::convert::object::{
    flag_member, jnums, js, ju, number_array, opt_list, opt_member, opt_members_view, opt_obj, opt_str,
    opt_u64, Members, ObjectBuilder,
};
use crate::convert::options::{
    build_multiplex, build_optional_tls, build_required_tls, build_transport, multiplex_spec,
    optional_tls_spec, tls_spec, transport_spec, ConvertError, ConvertFailure,
};
use crate::input::{warnings_view, NodeModel, ProxyNode, Warning, WarningModel};
use crate::json::{lemma_object_model, members_model, JsonModel, JsonValue};
use crate::text::{
    chars_eq, chars_of, decimal, decimal_chars, find_char, first_char_index, join, push_all, slice_chars,
    string_of_chars,
};
use crate::yaml::{pairs_model, YamlModel, YamlValue};

verus! {

/// The text at `key`, which must be there.
pub open spec fn need_string(d: Pairs, key: Seq<char>) -> Result<Seq<char>, ConvertFailure> {
    match get_string(d, key) {
        Some(s) => Ok(s),
        None => Err(ConvertFailure::MissingField(key)),
    }
}

/// The number at `key`, which must be there.
pub open spec fn need_u64(d: Pairs, key: Seq<char>) -> Result<u64, ConvertFailure> {
    match get_u64(d, key) {
        Some(u) => Ok(u),
        None => Err(ConvertFailure::InvalidNumber(key)),
    }
}

/// The text of the first of `keys` that is set; one must be.
pub open spec fn need_one_of(d: Pairs, keys: Seq<Seq<char>>) -> Result<Seq<char>, ConvertFailure> {
    match first_string(d, keys) {
        Some(s) => Ok(s),
        None => Err(ConvertFailure::MissingOneOf(keys)),
    }
}

pub open spec fn res_string_view(r: Result<String, ConvertError>) -> Result<Seq<char>, ConvertFailure> {
    match r {
        Ok(s) => Ok(s@),
        Err(e) => Err(e.model()),
    }
}

pub open spec fn res_builder_view(r: Result<ObjectBuilder, ConvertError>) -> Result<Members, ConvertFailure> {
    match r {
        Ok(b) => Ok(b.members()),
        Err(e) => Err(e.model()),
    }
}

/// The text at `key`, or an error that names the key.
pub fn required_string(data: &Vec<(YamlValue, YamlValue)>, key: &str) -> (r: Result<String, ConvertError>)
    ensures
        res_string_view(r) == need_string(pairs_model(data@), key@),
{
    match map_get_string(data, key) {
        Some(s) => Ok(s),
        None => Err(ConvertError::MissingField(key.to_owned())),
    }
}

/// The number at `key`, or an error that names the key.
pub fn required_u64(data: &Vec<(YamlValue, YamlValue)>, key: &str) -> (r: Result<u64, ConvertError>)
    ensures
        match r {
            Ok(u) => need_u64(pairs_model(data@), key@) == Ok::<u64, ConvertFailure>(u),
            Err(e) => need_u64(pairs_model(data@), key@) == Err::<u64, ConvertFailure>(e.model()),
        },
{
    match map_get_u64(data, key) {
        Some(u) => Ok(u),
        None => Err(ConvertError::InvalidNumber(key.to_owned())),
    }
}

fn key_strings(keys: &[&str]) -> (r: Vec<String>)
    ensures
        strings_view(r@) == keys_view(keys@),
{
    let mut out: Vec<String> = Vec::new();
    let mut i: usize = 0;
    while i < keys.len()
        invariant
            i <= keys@.len(),
            strings_view(out@) == keys_view(keys@).take(i as int),
        decreases keys.len() - i,
    {
        let ghost before = strings_view(out@);
        out.push(keys[i].to_owned());
        assert(strings_view(out@) =~= before.push(keys@[i as int]@));
        assert(keys_view(keys@).take(i + 1) =~= keys_view(keys@).take(i as int).push(keys@[i as int]@));
        i = i + 1;
    }
    assert(keys_view(keys@).take(keys@.len() as int) =~= keys_view(keys@));
    out
}

/// The text of the first of `keys` that is set, or an error that names
/// them all.
pub fn required_one_of(data: &Vec<(YamlValue, YamlValue)>, keys: &[&str]) -> (r: Result<String, ConvertError>)
    ensures
        res_string_view(r) == need_one_of(pairs_model(data@), keys_view(keys@)),
{
    match first_string_of(data, keys) {
        Some(s) => Ok(s),
        None => Err(ConvertError::MissingOneOf(key_strings(keys))),
    }
}

/// The members that every outbound starts with: its sing-box type, its
/// tag (the node's name), and the server and port, which must be there.
pub open spec fn head_spec(label: Seq<char>, name: Seq<char>, d: Pairs) -> Result<Members, ConvertFailure> {
    match need_string(d, "server"@) {
        Err(e) => Err(e),
        Ok(server) => match need_u64(d, "port"@) {
            Err(e) => Err(e),
            Ok(port) => Ok(
                seq![("type"@, js(label)), ("tag"@, js(name)), ("server"@, js(server)), ("server_port"@, ju(port))],
            ),
        },
    }
}

fn outbound_head(label: &str, name: &String, data: &Vec<(YamlValue, YamlValue)>) -> (r: Result<ObjectBuilder, ConvertError>)
    ensures
        res_builder_view(r) == head_spec(label@, name@, pairs_model(data@)),
{
    let server = match required_string(data, "server") {
        Ok(s) => s,
        Err(e) => {
            return Err(e);
        },
    };
    let port = match required_u64(data, "port") {
        Ok(p) => p,
        Err(e) => {
            return Err(e);
        },
    };
    let mut b = ObjectBuilder::new();
    b.push_str("type", label);
    b.push("tag", JsonValue::String(name.clone()));
    b.push("server", JsonValue::String(server));
    b.push("server_port", JsonValue::Number(crate::json::JsonNumber::PosInt(port)));
    assert(b.members() =~= head_spec(label@, name@, pairs_model(data@))->Ok_0);
    Ok(b)
}

/// The `key=value` items of a plugin's options: the string-keyed entries
/// whose value is a scalar, in order.
pub open spec fn opts_items(pairs: Pairs) -> Seq<Seq<char>>
    decreases pairs.len(),
{
    if pairs.len() == 0 {
        seq![]
    } else {
        let rest = opts_items(pairs.drop_last());
        match pairs.last().0 {
            YamlModel::String(k) => match scalar_text(pairs.last().1) {
                Some(t) => rest.push(k + "="@ + t),
                None => rest,
            },
            _ => rest,
        }
    }
}

/// A warning for each string-keyed plugin option whose value is no scalar.
pub open spec fn opts_warnings(pairs: Pairs, node: Seq<char>) -> Seq<WarningModel>
    decreases pairs.len(),
{
    if pairs.len() == 0 {
        seq![]
    } else {
        let rest = opts_warnings(pairs.drop_last(), node);
        match pairs.last().0 {
            YamlModel::String(k) => match scalar_text(pairs.last().1) {
                Some(t) => rest,
                None => rest.push(WarningModel::PluginOptionSkipped { key: k, node }),
            },
            _ => rest,
        }
    }
}

/// A plugin's options as one text, `key=value` items joined by `;`.
pub fn yaml_mapping_to_opts(map: &Vec<(YamlValue, YamlValue)>, node_name: &String, warnings: &mut Vec<Warning>) -> (r: String)
    ensures
        r@ == join(opts_items(pairs_model(map@)), ";"@),
        warnings_view(final(warnings)@) == warnings_view(old(warnings)@) + opts_warnings(pairs_model(map@), node_name@),
{
    let ghost pm = pairs_model(map@);
    let ghost w0 = warnings_view(warnings@);
    assert(pm.take(0) =~= Seq::<(YamlModel, YamlModel)>::empty());
    let mut out: Vec<char> = Vec::new();
    let mut count: usize = 0;
    let mut i: usize = 0;
    while i < map.len()
        invariant
            i <= map@.len(),
            pm == pairs_model(map@),
            count == opts_items(pm.take(i as int)).len(),
            count <= i,
            out@ == join(opts_items(pm.take(i as int)), ";"@),
            warnings_view(warnings@) == w0 + opts_warnings(pm.take(i as int), node_name@),
        decreases map.len() - i,
    {
        let ghost pre = pm.take(i as int);
        let ghost cur = pm.take(i + 1);
        assert(cur.drop_last() =~= pre);
        assert(cur.last() == pm[i as int]);
        let ghost wb = warnings_view(warnings@);
        let (k, v) = &map[i];
        match k {
            YamlValue::String(key) => {
                let text: Option<Vec<char>> = match v {
                    YamlValue::String(s) => Some(chars_of(s.as_str())),
                    YamlValue::Bool(b) => if *b {
                        Some(chars_of("true"))
                    } else {
                        Some(chars_of("false"))
                    },
                    YamlValue::Number(n) => Some(chars_of(n.text.as_str())),
                    _ => None,
                };
                match text {
                    Some(t) => {
                        let ghost before = out@;
                        if count > 0 {
                            out.push(';');
                        }
                        push_all(&mut out, &chars_of(key.as_str()));
                        out.push('=');
                        push_all(&mut out, &t);
                        let ghost item = key@ + "="@ + t@;
                        proof {
                            reveal_strlit("=");
                            reveal_strlit(";");
                        }
                        assert(scalar_text(v@) == Some(t@));
                        assert(opts_items(cur) == opts_items(pre).push(item));
                        assert(opts_items(cur).drop_last() =~= opts_items(pre));
                        if count > 0 {
                            assert(out@ =~= before + ";"@ + item);
                        } else {
                            assert(out@ =~= item);
                        }
                        count = count + 1;
                    },
                    None => {
                        warnings.push(Warning::PluginOptionSkipped { key: key.clone(), node: node_name.clone() });
                        assert(warnings_view(warnings@) =~= wb.push(WarningModel::PluginOptionSkipped { key: key@, node: node_name@ }));
                    },
                }
            },
            _ => {},
        }
        i = i + 1;
    }
    assert(pm.take(map@.len() as int) =~= pm);
    string_of_chars(&out)
}


pub open spec fn opt_or(o: Option<Seq<char>>, dflt: Seq<char>) -> Seq<char> {
    match o {
        Some(s) => s,
        None => dflt,
    }
}

/// `plugin` and `plugin_opts` of a shadowsocks node: the options come from
/// `plugin-opts` where it is a mapping, else from what follows the first
/// `;` of `plugin`.
pub open spec fn plugin_spec(d: Pairs) -> (Option<Seq<char>>, Option<Seq<char>>) {
    match get_string(d, "plugin"@) {
        None => (None, None),
        Some(raw) => match get_mapping(d, "plugin-opts"@) {
            Some(o) => (Some(raw), Some(join(opts_items(o), ";"@))),
            None => {
                let i = first_char_index(raw, ';');
                if i < raw.len() {
                    (Some(raw.take(i)), Some(raw.skip(i + 1)))
                } else {
                    (Some(raw), None)
                }
            },
        },
    }
}

/// The warnings that a shadowsocks node gives: one per plugin option that
/// was skipped.
pub open spec fn ss_warnings(name: Seq<char>, d: Pairs) -> Seq<WarningModel> {
    match get_string(d, "plugin"@) {
        Some(_) => match get_mapping(d, "plugin-opts"@) {
            Some(o) => opts_warnings(o, name),
            None => seq![],
        },
        None => seq![],
    }
}

pub open spec fn ss_rest(d: Pairs, method: Seq<char>, password: Seq<char>) -> Members {
    seq![("method"@, js(method)), ("password"@, js(password))]
        + opt_member("plugin"@, opt_str(plugin_spec(d).0))
        + opt_member("plugin_opts"@, opt_str(plugin_spec(d).1))
        + opt_member("detour"@, opt_str(get_string(d, "dialer-proxy"@)))
        + opt_member("multiplex"@, opt_obj(multiplex_spec(d)))
}

/// A `shadowsocks` outbound.
pub open spec fn ss_spec(name: Seq<char>, d: Pairs) -> Result<Members, ConvertFailure> {
    match head_spec("shadowsocks"@, name, d) {
        Err(e) => Err(e),
        Ok(h) => match need_one_of(d, seq!["cipher"@, "method"@]) {
            Err(e) => Err(e),
            Ok(method) => match need_string(d, "password"@) {
                Err(e) => Err(e),
                Ok(password) => Ok(h + ss_rest(d, method, password)),
            },
        },
    }
}

fn ss_plugin(data: &Vec<(YamlValue, YamlValue)>, name: &String, warnings: &mut Vec<Warning>) -> (r: (Option<String>, Option<String>))
    ensures
        opt_string_view(r.0) == plugin_spec(pairs_model(data@)).0,
        opt_string_view(r.1) == plugin_spec(pairs_model(data@)).1,
        warnings_view(final(warnings)@) == warnings_view(old(warnings)@) + ss_warnings(name@, pairs_model(data@)),
{
    let ghost w0 = warnings_view(warnings@);
    match map_get_string(data, "plugin") {
        Some(raw) => match map_get_mapping(data, "plugin-opts") {
            Some(o) => {
                let opts = yaml_mapping_to_opts(o, name, warnings);
                (Some(raw), Some(opts))
            },
            None => {
                assert(warnings_view(warnings@) =~= w0 + ss_warnings(name@, pairs_model(data@)));
                let rc = chars_of(raw.as_str());
                let i = find_char(&rc, ';');
                if i < rc.len() {
                    let head = slice_chars(&rc, 0, i);
                    let tail = slice_chars(&rc, i + 1, rc.len());
                    (Some(string_of_chars(&head)), Some(string_of_chars(&tail)))
                } else {
                    (Some(raw), None)
                }
            },
        },
        None => {
            assert(warnings_view(warnings@) =~= w0 + ss_warnings(name@, pairs_model(data@)));
            (None, None)
        },
    }
}

pub open spec fn result_view(r: Result<Vec<(String, JsonValue)>, ConvertError>) -> Result<Members, ConvertFailure> {
    match r {
        Ok(m) => Ok(members_model(m@)),
        Err(e) => Err(e.model()),
    }
}

/// A shadowsocks node as a `shadowsocks` outbound.
pub fn convert_ss(node: &ProxyNode, warnings: &mut Vec<Warning>) -> (r: Result<Vec<(String, JsonValue)>, ConvertError>)
    ensures
        result_view(r) == ss_spec(node.name@, pairs_model(node.data@)),
        warnings_view(final(warnings)@) == warnings_view(old(warnings)@) + ss_warnings(node.name@, pairs_model(node.data@)),
{
    let data = &node.data;
    let ghost d = pairs_model(data@);
    let (plugin, plugin_opts) = ss_plugin(data, &node.name, warnings);
    let mut b = match outbound_head("shadowsocks", &node.name, data) {
        Ok(b) => b,
        Err(e) => {
            return Err(e);
        },
    };
    let k_method: [&str; 2] = ["cipher", "method"];
    assert(keys_view(k_method@) =~= seq!["cipher"@, "method"@]);
    let method = match required_one_of(data, &k_method) {
        Ok(m) => m,
        Err(e) => {
            return Err(e);
        },
    };
    let password = match required_string(data, "password") {
        Ok(p) => p,
        Err(e) => {
            return Err(e);
        },
    };
    let mut rest = ObjectBuilder::new();
    rest.push("method", JsonValue::String(method));
    rest.push("password", JsonValue::String(password));
    rest.push_opt_str("plugin", plugin);
    rest.push_opt_str("plugin_opts", plugin_opts);
    rest.push_opt_str("detour", map_get_string(data, "dialer-proxy"));
    rest.push_opt_object("multiplex", build_multiplex(data));
    assert(rest.members() =~= ss_rest(d, need_one_of(d, seq!["cipher"@, "method"@])->Ok_0, need_string(d, "password"@)->Ok_0));
    b.append(rest);
    Ok(b.finish())
}

pub open spec fn vmess_rest(d: Pairs, uuid: Seq<char>, transport: Option<Members>, tls: Option<Members>) -> Members {
    seq![("uuid"@, js(uuid)), ("security"@, js(opt_or(get_string(d, "cipher"@), "auto"@)))]
        + opt_member("alter_id"@, opt_u64(get_u64(d, "alterId"@)))
        + opt_member("detour"@, opt_str(get_string(d, "dialer-proxy"@)))
        + opt_member("transport"@, opt_obj(transport))
        + opt_member("tls"@, opt_obj(tls))
        + opt_member("multiplex"@, opt_obj(multiplex_spec(d)))
}

/// A `vmess` outbound.
pub open spec fn vmess_spec(name: Seq<char>, d: Pairs) -> Result<Members, ConvertFailure> {
    match head_spec("vmess"@, name, d) {
        Err(e) => Err(e),
        Ok(h) => match need_one_of(d, seq!["uuid"@, "id"@]) {
            Err(e) => Err(e),
            Ok(uuid) => match transport_spec(d) {
                Err(e) => Err(e),
                Ok(transport) => match optional_tls_spec(d) {
                    Err(e) => Err(e),
                    Ok(tls) => Ok(h + vmess_rest(d, uuid, transport, tls)),
                },
            },
        },
    }
}

/// A vmess node as a `vmess` outbound.
pub fn convert_vmess(node: &ProxyNode) -> (r: Result<Vec<(String, JsonValue)>, ConvertError>)
    ensures
        result_view(r) == vmess_spec(node.name@, pairs_model(node.data@)),
{
    let data = &node.data;
    let ghost d = pairs_model(data@);
    let mut b = match outbound_head("vmess", &node.name, data) {
        Ok(b) => b,
        Err(e) => {
            return Err(e);
        },
    };
    let k_uuid: [&str; 2] = ["uuid", "id"];
    assert(keys_view(k_uuid@) =~= seq!["uuid"@, "id"@]);
    let uuid = match required_one_of(data, &k_uuid) {
        Ok(u) => u,
        Err(e) => {
            return Err(e);
        },
    };
    let transport = match build_transport(data) {
        Ok(t) => t,
        Err(e) => {
            return Err(e);
        },
    };
    let tls = match build_optional_tls(data) {
        Ok(t) => t,
        Err(e) => {
            return Err(e);
        },
    };
    let security = match map_get_string(data, "cipher") {
        Some(c) => c,
        None => "auto".to_owned(),
    };
    let mut rest = ObjectBuilder::new();
    rest.push("uuid", JsonValue::String(uuid));
    rest.push("security", JsonValue::String(security));
    rest.push_opt_u64("alter_id", map_get_u64(data, "alterId"));
    rest.push_opt_str("detour", map_get_string(data, "dialer-proxy"));
    rest.push_opt_object("transport", transport);
    rest.push_opt_object("tls", tls);
    rest.push_opt_object("multiplex", build_multiplex(data));
    proof {
        reveal_strlit("auto");
    }
    assert(rest.members() =~= vmess_rest(
        d,
        need_one_of(d, seq!["uuid"@, "id"@])->Ok_0,
        transport_spec(d)->Ok_0,
        optional_tls_spec(d)->Ok_0,
    ));
    b.append(rest);
    Ok(b.finish())
}

pub open spec fn vless_rest(d: Pairs, uuid: Seq<char>, transport: Option<Members>, tls: Option<Members>) -> Members {
    seq![("uuid"@, js(uuid))]
        + opt_member("flow"@, opt_str(get_string(d, "flow"@)))
        + opt_member("detour"@, opt_str(get_string(d, "dialer-proxy"@)))
        + opt_member("transport"@, opt_obj(transport))
        + opt_member("tls"@, opt_obj(tls))
        + opt_member("packet_encoding"@, opt_str(get_string(d, "packet-encoding"@)))
        + opt_member("multiplex"@, opt_obj(multiplex_spec(d)))
}

/// A `vless` outbound.
pub open spec fn vless_spec(name: Seq<char>, d: Pairs) -> Result<Members, ConvertFailure> {
    match head_spec("vless"@, name, d) {
        Err(e) => Err(e),
        Ok(h) => match need_one_of(d, seq!["uuid"@, "id"@]) {
            Err(e) => Err(e),
            Ok(uuid) => match transport_spec(d) {
                Err(e) => Err(e),
                Ok(transport) => match optional_tls_spec(d) {
                    Err(e) => Err(e),
                    Ok(tls) => Ok(h + vless_rest(d, uuid, transport, tls)),
                },
            },
        },
    }
}

/// A vless node as a `vless` outbound.
pub fn convert_vless(node: &ProxyNode) -> (r: Result<Vec<(String, JsonValue)>, ConvertError>)
    ensures
        result_view(r) == vless_spec(node.name@, pairs_model(node.data@)),
{
    let data = &node.data;
    let ghost d = pairs_model(data@);
    let mut b = match outbound_head("vless", &node.name, data) {
        Ok(b) => b,
        Err(e) => {
            return Err(e);
        },
    };
    let k_uuid: [&str; 2] = ["uuid", "id"];
    assert(keys_view(k_uuid@) =~= seq!["uuid"@, "id"@]);
    let uuid = match required_one_of(data, &k_uuid) {
        Ok(u) => u,
        Err(e) => {
            return Err(e);
        },
    };
    let transport = match build_transport(data) {
        Ok(t) => t,
        Err(e) => {
            return Err(e);
        },
    };
    let tls = match build_optional_tls(data) {
        Ok(t) => t,
        Err(e) => {
            return Err(e);
        },
    };
    let mut rest = ObjectBuilder::new();
    rest.push("uuid", JsonValue::String(uuid));
    rest.push_opt_str("flow", map_get_string(data, "flow"));
    rest.push_opt_str("detour", map_get_string(data, "dialer-proxy"));
    rest.push_opt_object("transport", transport);
    rest.push_opt_object("tls", tls);
    rest.push_opt_str("packet_encoding", map_get_string(data, "packet-encoding"));
    rest.push_opt_object("multiplex", build_multiplex(data));
    assert(rest.members() =~= vless_rest(
        d,
        need_one_of(d, seq!["uuid"@, "id"@])->Ok_0,
        transport_spec(d)->Ok_0,
        optional_tls_spec(d)->Ok_0,
    ));
    b.append(rest);
    Ok(b.finish())
}

pub open spec fn trojan_rest(d: Pairs, password: Seq<char>, transport: Option<Members>, tls: Option<Members>) -> Members {
    seq![("password"@, js(password))]
        + opt_member("flow"@, opt_str(get_string(d, "flow"@)))
        + opt_member("detour"@, opt_str(get_string(d, "dialer-proxy"@)))
        + opt_member("transport"@, opt_obj(transport))
        + opt_member("tls"@, opt_obj(tls))
        + opt_member("multiplex"@, opt_obj(multiplex_spec(d)))
}

/// A `trojan` outbound.
pub open spec fn trojan_spec(name: Seq<char>, d: Pairs) -> Result<Members, ConvertFailure> {
    match head_spec("trojan"@, name, d) {
        Err(e) => Err(e),
        Ok(h) => match need_string(d, "password"@) {
            Err(e) => Err(e),
            Ok(password) => match transport_spec(d) {
                Err(e) => Err(e),
                Ok(transport) => match optional_tls_spec(d) {
                    Err(e) => Err(e),
                    Ok(tls) => Ok(h + trojan_rest(d, password, transport, tls)),
                },
            },
        },
    }
}

/// A trojan node as a `trojan` outbound.
pub fn convert_trojan(node: &ProxyNode) -> (r: Result<Vec<(String, JsonValue)>, ConvertError>)
    ensures
        result_view(r) == trojan_spec(node.name@, pairs_model(node.data@)),
{
    let data = &node.data;
    let ghost d = pairs_model(data@);
    let mut b = match outbound_head("trojan", &node.name, data) {
        Ok(b) => b,
        Err(e) => {
            return Err(e);
        },
    };
    let password = match required_string(data, "password") {
        Ok(p) => p,
        Err(e) => {
            return Err(e);
        },
    };
    let transport = match build_transport(data) {
        Ok(t) => t,
        Err(e) => {
            return Err(e);
        },
    };
    let tls = match build_optional_tls(data) {
        Ok(t) => t,
        Err(e) => {
            return Err(e);
        },
    };
    let mut rest = ObjectBuilder::new();
    rest.push("password", JsonValue::String(password));
    rest.push_opt_str("flow", map_get_string(data, "flow"));
    rest.push_opt_str("detour", map_get_string(data, "dialer-proxy"));
    rest.push_opt_object("transport", transport);
    rest.push_opt_object("tls", tls);
    rest.push_opt_object("multiplex", build_multiplex(data));
    assert(rest.members() =~= trojan_rest(
        d,
        need_string(d, "password"@)->Ok_0,
        transport_spec(d)->Ok_0,
        optional_tls_spec(d)->Ok_0,
    ));
    b.append(rest);
    Ok(b.finish())
}

pub open spec fn socks_rest(d: Pairs) -> Members {
    seq![("version"@, js("5"@))]
        + opt_member("detour"@, opt_str(get_string(d, "dialer-proxy"@)))
        + opt_member("username"@, opt_str(get_string(d, "username"@)))
        + opt_member("password"@, opt_str(get_string(d, "password"@)))
        + opt_member("multiplex"@, opt_obj(multiplex_spec(d)))
}

/// A `socks` outbound (SOCKS version 5).
pub open spec fn socks_spec(name: Seq<char>, d: Pairs) -> Result<Members, ConvertFailure> {
    match head_spec("socks"@, name, d) {
        Err(e) => Err(e),
        Ok(h) => Ok(h + socks_rest(d)),
    }
}

/// A socks node as a `socks` outbound.
pub fn convert_socks(node: &ProxyNode) -> (r: Result<Vec<(String, JsonValue)>, ConvertError>)
    ensures
        result_view(r) == socks_spec(node.name@, pairs_model(node.data@)),
{
    let data = &node.data;
    let ghost d = pairs_model(data@);
    let mut b = match outbound_head("socks", &node.name, data) {
        Ok(b) => b,
        Err(e) => {
            return Err(e);
        },
    };
    let mut rest = ObjectBuilder::new();
    rest.push_str("version", "5");
    rest.push_opt_str("detour", map_get_string(data, "dialer-proxy"));
    rest.push_opt_str("username", map_get_string(data, "username"));
    rest.push_opt_str("password", map_get_string(data, "password"));
    rest.push_opt_object("multiplex", build_multiplex(data));
    assert(rest.members() =~= socks_rest(d));
    b.append(rest);
    Ok(b.finish())
}

pub open spec fn http_rest(d: Pairs, tls: Option<Members>) -> Members {
    opt_member("detour"@, opt_str(get_string(d, "dialer-proxy"@)))
        + opt_member("username"@, opt_str(get_string(d, "username"@)))
        + opt_member("password"@, opt_str(get_string(d, "password"@)))
        + opt_member("tls"@, opt_obj(tls))
        + opt_member("multiplex"@, opt_obj(multiplex_spec(d)))
}

/// An `http` outbound.
pub open spec fn http_spec(name: Seq<char>, d: Pairs) -> Result<Members, ConvertFailure> {
    match head_spec("http"@, name, d) {
        Err(e) => Err(e),
        Ok(h) => match optional_tls_spec(d) {
            Err(e) => Err(e),
            Ok(tls) => Ok(h + http_rest(d, tls)),
        },
    }
}

/// An http node as an `http` outbound.
pub fn convert_http(node: &ProxyNode) -> (r: Result<Vec<(String, JsonValue)>, ConvertError>)
    ensures
        result_view(r) == http_spec(node.name@, pairs_model(node.data@)),
{
    let data = &node.data;
    let ghost d = pairs_model(data@);
    let mut b = match outbound_head("http", &node.name, data) {
        Ok(b) => b,
        Err(e) => {
            return Err(e);
        },
    };
    let tls = match build_optional_tls(data) {
        Ok(t) => t,
        Err(e) => {
            return Err(e);
        },
    };
    let mut rest = ObjectBuilder::new();
    rest.push_opt_str("detour", map_get_string(data, "dialer-proxy"));
    rest.push_opt_str("username", map_get_string(data, "username"));
    rest.push_opt_str("password", map_get_string(data, "password"));
    rest.push_opt_object("tls", tls);
    rest.push_opt_object("multiplex", build_multiplex(data));
    assert(rest.members() =~= http_rest(d, optional_tls_spec(d)->Ok_0));
    b.append(rest);
    Ok(b.finish())
}

pub open spec fn or_else<T>(a: Option<T>, b: Option<T>) -> Option<T> {
    match a {
        Some(x) => Some(x),
        None => b,
    }
}

pub open spec fn opt_nums(v: Option<Seq<u64>>) -> Option<JsonModel> {
    match v {
        Some(ns) => Some(jnums(ns)),
        None => None,
    }
}

pub open spec fn wireguard_rest(d: Pairs, private_key: Seq<char>, peer: Seq<char>) -> Members {
    seq![("private_key"@, js(private_key)), ("peer_public_key"@, js(peer))]
        + opt_member("detour"@, opt_str(get_string(d, "dialer-proxy"@)))
        + opt_member("local_address"@, opt_list(or_else(get_string_list(d, "ip"@), get_string_list(d, "address"@))))
        + opt_member("pre_shared_key"@, opt_str(or_else(get_string(d, "pre-shared-key"@), get_string(d, "pre_shared_key"@))))
        + opt_member("reserved"@, opt_nums(get_csv_numbers(d, "reserved"@)))
        + opt_member("mtu"@, opt_u64(get_u64(d, "mtu"@)))
}

/// A `wireguard` outbound.
pub open spec fn wireguard_spec(name: Seq<char>, d: Pairs) -> Result<Members, ConvertFailure> {
    match head_spec("wireguard"@, name, d) {
        Err(e) => Err(e),
        Ok(h) => match need_one_of(d, seq!["private-key"@, "private_key"@]) {
            Err(e) => Err(e),
            Ok(pk) => match need_one_of(d, seq!["public-key"@, "public_key"@]) {
                Err(e) => Err(e),
                Ok(peer) => Ok(h + wireguard_rest(d, pk, peer)),
            },
        },
    }
}

/// A wireguard node as a `wireguard` outbound.
pub fn convert_wireguard(node: &ProxyNode) -> (r: Result<Vec<(String, JsonValue)>, ConvertError>)
    ensures
        result_view(r) == wireguard_spec(node.name@, pairs_model(node.data@)),
{
    let data = &node.data;
    let ghost d = pairs_model(data@);
    let mut b = match outbound_head("wireguard", &node.name, data) {
        Ok(b) => b,
        Err(e) => {
            return Err(e);
        },
    };
    let k_private: [&str; 2] = ["private-key", "private_key"];
    let k_public: [&str; 2] = ["public-key", "public_key"];
    assert(keys_view(k_private@) =~= seq!["private-key"@, "private_key"@]);
    assert(keys_view(k_public@) =~= seq!["public-key"@, "public_key"@]);
    let private_key = match required_one_of(data, &k_private) {
        Ok(k) => k,
        Err(e) => {
            return Err(e);
        },
    };
    let peer = match required_one_of(data, &k_public) {
        Ok(k) => k,
        Err(e) => {
            return Err(e);
        },
    };
    let local_address = match map_get_csv(data, "ip") {
        Some(l) => Some(l),
        None => map_get_csv(data, "address"),
    };
    let pre_shared_key = match map_get_string(data, "pre-shared-key") {
        Some(k) => Some(k),
        None => map_get_string(data, "pre_shared_key"),
    };
    let reserved = match map_get_csv_numbers(data, "reserved") {
        Some(ns) => Some(number_array(ns)),
        None => None,
    };
    let mut rest = ObjectBuilder::new();
    rest.push("private_key", JsonValue::String(private_key));
    rest.push("peer_public_key", JsonValue::String(peer));
    rest.push_opt_str("detour", map_get_string(data, "dialer-proxy"));
    rest.push_opt_list("local_address", local_address);
    rest.push_opt_str("pre_shared_key", pre_shared_key);
    rest.push_opt("reserved", reserved);
    rest.push_opt_u64("mtu", map_get_u64(data, "mtu"));
    assert(rest.members() =~= wireguard_rest(
        d,
        need_one_of(d, seq!["private-key"@, "private_key"@])->Ok_0,
        need_one_of(d, seq!["public-key"@, "public_key"@])->Ok_0,
    ));
    b.append(rest);
    Ok(b.finish())
}

/// A number of seconds as sing-box writes a duration: `30s`.
pub open spec fn seconds(v: Option<u64>) -> Option<Seq<char>> {
    match v {
        Some(n) => Some(decimal(n as nat).push('s')),
        None => None,
    }
}

fn seconds_text(v: Option<u64>) -> (r: Option<String>)
    ensures
        opt_string_view(r) == seconds(v),
{
    match v {
        Some(n) => {
            let mut cs = decimal_chars(n);
            cs.push('s');
            Some(string_of_chars(&cs))
        },
        None => None,
    }
}

pub open spec fn anytls_rest(d: Pairs, password: Seq<char>, tls: Members) -> Members {
    seq![("password"@, js(password))]
        + opt_member("detour"@, opt_str(get_string(d, "dialer-proxy"@)))
        + opt_member("idle_session_check_interval"@, opt_str(seconds(get_u64(d, "idle-session-check-interval"@))))
        + opt_member("idle_session_timeout"@, opt_str(seconds(get_u64(d, "idle-session-timeout"@))))
        + opt_member("min_idle_session"@, opt_u64(get_u64(d, "min-idle-session"@)))
        + seq![("tls"@, JsonModel::Object(tls))]
        + opt_member("multiplex"@, opt_obj(multiplex_spec(d)))
}

/// An `anytls` outbound, which always has TLS.
pub open spec fn anytls_spec(name: Seq<char>, d: Pairs) -> Result<Members, ConvertFailure> {
    match head_spec("anytls"@, name, d) {
        Err(e) => Err(e),
        Ok(h) => match need_string(d, "password"@) {
            Err(e) => Err(e),
            Ok(password) => match tls_spec(d) {
                Err(e) => Err(e),
                Ok(tls) => Ok(h + anytls_rest(d, password, tls)),
            },
        },
    }
}

/// An anytls node as an `anytls` outbound.
pub fn convert_anytls(node: &ProxyNode) -> (r: Result<Vec<(String, JsonValue)>, ConvertError>)
    ensures
        result_view(r) == anytls_spec(node.name@, pairs_model(node.data@)),
{
    let data = &node.data;
    let ghost d = pairs_model(data@);
    let mut b = match outbound_head("anytls", &node.name, data) {
        Ok(b) => b,
        Err(e) => {
            return Err(e);
        },
    };
    let password = match required_string(data, "password") {
        Ok(p) => p,
        Err(e) => {
            return Err(e);
        },
    };
    let tls = match build_required_tls(data) {
        Ok(t) => t,
        Err(e) => {
            return Err(e);
        },
    };
    proof {
        lemma_object_model(tls);
    }
    let mut rest = ObjectBuilder::new();
    rest.push("password", JsonValue::String(password));
    rest.push_opt_str("detour", map_get_string(data, "dialer-proxy"));
    rest.push_opt_str("idle_session_check_interval", seconds_text(map_get_u64(data, "idle-session-check-interval")));
    rest.push_opt_str("idle_session_timeout", seconds_text(map_get_u64(data, "idle-session-timeout")));
    rest.push_opt_u64("min_idle_session", map_get_u64(data, "min-idle-session"));
    rest.push("tls", JsonValue::Object(tls));
    rest.push_opt_object("multiplex", build_multiplex(data));
    assert(rest.members() =~= anytls_rest(d, need_string(d, "password"@)->Ok_0, tls_spec(d)->Ok_0));
    b.append(rest);
    Ok(b.finish())
}

/// `salamander` obfuscation, where an obfuscation password is set.
pub open spec fn obfs_spec(d: Pairs) -> Option<Members> {
    match first_string(d, seq!["obfs-password"@, "obfs_password"@]) {
        Some(p) => Some(seq![("type"@, js("salamander"@)), ("password"@, js(p))]),
        None => None,
    }
}

pub open spec fn hysteria2_rest(d: Pairs, password: Seq<char>, tls: Members) -> Members {
    seq![("password"@, js(password))]
        + opt_member("detour"@, opt_str(get_string(d, "dialer-proxy"@)))
        + opt_member("up_mbps"@, opt_u64(first_u64(d, seq!["up_mbps"@, "up"@, "up-speed"@])))
        + opt_member("down_mbps"@, opt_u64(first_u64(d, seq!["down_mbps"@, "down"@, "down-speed"@])))
        + opt_member("obfs"@, opt_obj(obfs_spec(d)))
        + opt_member("network"@, opt_str(get_string(d, "network"@)))
        + seq![("tls"@, JsonModel::Object(tls))]
        + flag_member("brutal_debug"@, any_bool(d, seq!["brutal-debug"@, "brutal_debug"@]))
}

/// A `hysteria2` outbound, which always has TLS.
pub open spec fn hysteria2_spec(name: Seq<char>, d: Pairs) -> Result<Members, ConvertFailure> {
    match head_spec("hysteria2"@, name, d) {
        Err(e) => Err(e),
        Ok(h) => match need_string(d, "password"@) {
            Err(e) => Err(e),
            Ok(password) => match tls_spec(d) {
                Err(e) => Err(e),
                Ok(tls) => Ok(h + hysteria2_rest(d, password, tls)),
            },
        },
    }
}

fn hysteria2_obfs(data: &Vec<(YamlValue, YamlValue)>) -> (r: Option<Vec<(String, JsonValue)>>)
    ensures
        opt_members_view(r) == obfs_spec(pairs_model(data@)),
{
    let k_obfs: [&str; 2] = ["obfs-password", "obfs_password"];
    assert(keys_view(k_obfs@) =~= seq!["obfs-password"@, "obfs_password"@]);
    match first_string_of(data, &k_obfs) {
        Some(p) => {
            let mut b = ObjectBuilder::new();
            b.push_str("type", "salamander");
            b.push("password", JsonValue::String(p));
            let ghost m = b.members();
            let r = b.finish();
            assert(m =~= obfs_spec(pairs_model(data@))->Some_0);
            Some(r)
        },
        None => None,
    }
}

/// A hysteria2 node as a `hysteria2` outbound.
pub fn convert_hysteria2(node: &ProxyNode) -> (r: Result<Vec<(String, JsonValue)>, ConvertError>)
    ensures
        result_view(r) == hysteria2_spec(node.name@, pairs_model(node.data@)),
{
    let data = &node.data;
    let ghost d = pairs_model(data@);
    let mut b = match outbound_head("hysteria2", &node.name, data) {
        Ok(b) => b,
        Err(e) => {
            return Err(e);
        },
    };
    let password = match required_string(data, "password") {
        Ok(p) => p,
        Err(e) => {
            return Err(e);
        },
    };
    let tls = match build_required_tls(data) {
        Ok(t) => t,
        Err(e) => {
            return Err(e);
        },
    };
    proof {
        lemma_object_model(tls);
    }
    let k_up: [&str; 3] = ["up_mbps", "up", "up-speed"];
    let k_down: [&str; 3] = ["down_mbps", "down", "down-speed"];
    let k_brutal: [&str; 2] = ["brutal-debug", "brutal_debug"];
    assert(keys_view(k_up@) =~= seq!["up_mbps"@, "up"@, "up-speed"@]);
    assert(keys_view(k_down@) =~= seq!["down_mbps"@, "down"@, "down-speed"@]);
    assert(keys_view(k_brutal@) =~= seq!["brutal-debug"@, "brutal_debug"@]);
    let mut rest = ObjectBuilder::new();
    rest.push("password", JsonValue::String(password));
    rest.push_opt_str("detour", map_get_string(data, "dialer-proxy"));
    rest.push_opt_u64("up_mbps", first_u64_of(data, &k_up));
    rest.push_opt_u64("down_mbps", first_u64_of(data, &k_down));
    rest.push_opt_object("obfs", hysteria2_obfs(data));
    rest.push_opt_str("network", map_get_string(data, "network"));
    rest.push("tls", JsonValue::Object(tls));
    rest.push_flag("brutal_debug", any_bool_of(data, &k_brutal));
    assert(rest.members() =~= hysteria2_rest(d, need_string(d, "password"@)->Ok_0, tls_spec(d)->Ok_0));
    b.append(rest);
    Ok(b.finish())
}

pub open spec fn lift(r: Result<Members, ConvertFailure>) -> Result<Option<Members>, ConvertFailure> {
    match r {
        Ok(m) => Ok(Some(m)),
        Err(e) => Err(e),
    }
}

/// The outbound of a node by its type: none for the built-in `direct` and
/// `dns`, which sing-box already has; an error for a type that is not
/// converted.
pub open spec fn node_spec(n: NodeModel) -> Result<Option<Members>, ConvertFailure> {
    let t = n.ty;
    if t == "direct"@ || t == "dns"@ {
        Ok(None)
    } else if t == "ss"@ {
        lift(ss_spec(n.name, n.data))
    } else if t == "vmess"@ {
        lift(vmess_spec(n.name, n.data))
    } else if t == "vless"@ {
        lift(vless_spec(n.name, n.data))
    } else if t == "trojan"@ {
        lift(trojan_spec(n.name, n.data))
    } else if t == "socks5"@ || t == "socks"@ {
        lift(socks_spec(n.name, n.data))
    } else if t == "http"@ {
        lift(http_spec(n.name, n.data))
    } else if t == "wireguard"@ {
        lift(wireguard_spec(n.name, n.data))
    } else if t == "hysteria2"@ || t == "hy2"@ {
        lift(hysteria2_spec(n.name, n.data))
    } else if t == "anytls"@ {
        lift(anytls_spec(n.name, n.data))
    } else {
        Err(ConvertFailure::UnsupportedProtocol(t))
    }
}

/// The warnings that converting a node gives.
pub open spec fn node_warnings(n: NodeModel) -> Seq<WarningModel> {
    if n.ty == "direct"@ || n.ty == "dns"@ {
        seq![WarningModel::BuiltinSkipped { name: n.name, ty: n.ty }]
    } else if n.ty == "ss"@ {
        ss_warnings(n.name, n.data)
    } else {
        seq![]
    }
}

pub open spec fn node_result_view(r: Result<Option<Vec<(String, JsonValue)>>, ConvertError>) -> Result<Option<Members>, ConvertFailure> {
    match r {
        Ok(Some(m)) => Ok(Some(members_model(m@))),
        Ok(None) => Ok(None),
        Err(e) => Err(e.model()),
    }
}

fn lifted(r: Result<Vec<(String, JsonValue)>, ConvertError>) -> (o: Result<Option<Vec<(String, JsonValue)>>, ConvertError>)
    ensures
        node_result_view(o) == lift(result_view(r)),
{
    match r {
        Ok(m) => Ok(Some(m)),
        Err(e) => Err(e),
    }
}

/// A node as a sing-box outbound, by its type.
pub fn convert_node(node: &ProxyNode, warnings: &mut Vec<Warning>) -> (r: Result<Option<Vec<(String, JsonValue)>>, ConvertError>)
    ensures
        node_result_view(r) == node_spec(node@),
        warnings_view(final(warnings)@) == warnings_view(old(warnings)@) + node_warnings(node@),
{
    let ghost w0 = warnings_view(warnings@);
    let t = chars_of(node.ty.as_str());
    if chars_eq(&t, &chars_of("direct")) || chars_eq(&t, &chars_of("dns")) {
        warnings.push(Warning::BuiltinSkipped { name: node.name.clone(), ty: node.ty.clone() });
        assert(warnings_view(warnings@) =~= w0 + node_warnings(node@));
        return Ok(None);
    }
    if chars_eq(&t, &chars_of("ss")) {
        return lifted(convert_ss(node, warnings));
    }
    assert(warnings_view(warnings@) =~= w0 + node_warnings(node@));
    if chars_eq(&t, &chars_of("vmess")) {
        lifted(convert_vmess(node))
    } else if chars_eq(&t, &chars_of("vless")) {
        lifted(convert_vless(node))
    } else if chars_eq(&t, &chars_of("trojan")) {
        lifted(convert_trojan(node))
    } else if chars_eq(&t, &chars_of("socks5")) || chars_eq(&t, &chars_of("socks")) {
        lifted(convert_socks(node))
    } else if chars_eq(&t, &chars_of("http")) {
        lifted(convert_http(node))
    } else if chars_eq(&t, &chars_of("wireguard")) {
        lifted(convert_wireguard(node))
    } else if chars_eq(&t, &chars_of("hysteria2")) || chars_eq(&t, &chars_of("hy2")) {
        lifted(convert_hysteria2(node))
    } else if chars_eq(&t, &chars_of("anytls")) {
        lifted(convert_anytls(node))
    } else {
        Err(ConvertError::UnsupportedProtocol(node.ty.clone()))
    }
}

/// A node's `dialer-proxy` becomes the `detour` of its outbound: whatever
/// outbound a node with a `dialer-proxy` converts to carries the member
/// `detour` naming that proxy.
pub proof fn dialer_proxy_becomes_detour(n: NodeModel, x: Seq<char>)
    requires
        get_string(n.data, "dialer-proxy"@) == Some(x),
        node_spec(n) matches Ok(Some(_)),
    ensures
        node_spec(n)->Ok_0->Some_0.contains(("detour"@, js(x))),
{
    broadcast use vstd::seq_lib::lemma_seq_concat_contains_all_elements;

    let e = ("detour"@, js(x));
    assert(opt_member("detour"@, opt_str(get_string(n.data, "dialer-proxy"@))) == seq![e]);
    assert(seq![e][0] == e);
    assert(seq![e].contains(e));
}

/// A vmess outbound's `security` is the node's `cipher` where the node sets
/// one as text, and `auto` where it sets none.
pub proof fn vmess_security_is_the_cipher(name: Seq<char>, d: Pairs)
    requires
        vmess_spec(name, d) is Ok,
    ensures
        get_string(d, "cipher"@) matches Some(c) ==> vmess_spec(name, d)->Ok_0.contains(("security"@, js(c))),
        get_string(d, "cipher"@) is None ==> vmess_spec(name, d)->Ok_0.contains(("security"@, js("auto"@))),
{
    broadcast use vstd::seq_lib::lemma_seq_concat_contains_all_elements;

    let sec = opt_or(get_string(d, "cipher"@), "auto"@);
    let e = ("security"@, js(sec));
    let two = seq![("uuid"@, js(need_one_of(d, seq!["uuid"@, "id"@])->Ok_0)), e];
    assert(two[1] == e);
    assert(two.contains(e));
}

/// A node of type `vmess` converts to an outbound whose `security` is the
/// node's `cipher` where it sets one as text, and `auto` where it sets none.
pub proof fn vmess_node_security_is_the_cipher(n: NodeModel)
    requires
        n.ty == "vmess"@,
        node_spec(n) matches Ok(Some(_)),
    ensures
        get_string(n.data, "cipher"@) matches Some(c) ==> node_spec(n)->Ok_0->Some_0.contains(("security"@, js(c))),
        get_string(n.data, "cipher"@) is None ==> node_spec(n)->Ok_0->Some_0.contains(("security"@, js("auto"@))),
{
    reveal_strlit("vmess");
    reveal_strlit("direct");
    reveal_strlit("dns");
    reveal_strlit("ss");
    assert("vmess"@ != "direct"@ && "vmess"@ != "dns"@ && "vmess"@ != "ss"@) by {
        assert("vmess"@.len() != "direct"@.len());
        assert("vmess"@.len() != "dns"@.len());
        assert("vmess"@.len() != "ss"@.len());
    }
    vmess_security_is_the_cipher(n.name, n.data);
}

} // verus!
