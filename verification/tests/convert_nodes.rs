use boxmanager::convert::options::ConvertError;
use boxmanager::convert::protocols::convert_node;
use boxmanager::convert::{render_outbounds, unique_tag};
use boxmanager::input::{ProxyNode, Warning};
use boxmanager::json::{JsonNumber, JsonValue};
use boxmanager::yaml::{YamlNumber, YamlValue};

fn to_lib(v: &serde_yaml::Value) -> YamlValue {
    match v {
        serde_yaml::Value::Null => YamlValue::Null,
        serde_yaml::Value::Bool(b) => YamlValue::Bool(*b),
        serde_yaml::Value::Number(n) => YamlValue::Number(YamlNumber {
            text: n.to_string(),
            unsigned: n.as_u64(),
            signed: n.as_i64(),
        }),
        serde_yaml::Value::String(s) => YamlValue::String(s.clone()),
        serde_yaml::Value::Sequence(items) => YamlValue::Sequence(items.iter().map(to_lib).collect()),
        serde_yaml::Value::Mapping(m) => YamlValue::Mapping(m.iter().map(|(k, v)| (to_lib(k), to_lib(v))).collect()),
        serde_yaml::Value::Tagged(t) => YamlValue::Tagged(t.tag.to_string(), Box::new(to_lib(&t.value))),
    }
}

fn node(yaml: &str) -> ProxyNode {
    let value: serde_yaml::Value = serde_yaml::from_str(yaml).unwrap();
    let map = match to_lib(&value) {
        YamlValue::Mapping(m) => m,
        _ => panic!("not a mapping"),
    };
    let name = value["name"].as_str().unwrap_or("").to_string();
    let ty = value["type"].as_str().unwrap_or("").to_string();
    ProxyNode { name, ty, data: map }
}

fn member<'a>(members: &'a [(String, JsonValue)], key: &str) -> Option<&'a JsonValue> {
    members.iter().find(|(k, _)| k == key).map(|(_, v)| v)
}

fn text<'a>(members: &'a [(String, JsonValue)], key: &str) -> Option<&'a str> {
    match member(members, key) {
        Some(JsonValue::String(s)) => Some(s.as_str()),
        _ => None,
    }
}

fn object(v: &JsonValue) -> &[(String, JsonValue)] {
    match v {
        JsonValue::Object(m) => m,
        _ => panic!("not an object"),
    }
}

fn strings(v: &JsonValue) -> Vec<String> {
    match v {
        JsonValue::Array(items) => items
            .iter()
            .map(|i| match i {
                JsonValue::String(s) => s.clone(),
                _ => panic!("not a string"),
            })
            .collect(),
        _ => panic!("not an array"),
    }
}

#[test]
fn converts_shadowsocks_with_plugin_options() {
    let n = node(
        "{name: ss1, type: ss, server: a.example, port: 8388, cipher: aes-128-gcm, password: pw, plugin: obfs, plugin-opts: {mode: tls, host: b.example, extra: [1, 2]}, dialer-proxy: relay}",
    );
    let mut warnings = Vec::new();
    let out = convert_node(&n, &mut warnings).unwrap().unwrap();
    assert_eq!(text(&out, "type"), Some("shadowsocks"));
    assert_eq!(text(&out, "tag"), Some("ss1"));
    assert_eq!(text(&out, "server"), Some("a.example"));
    assert!(matches!(member(&out, "server_port"), Some(JsonValue::Number(JsonNumber::PosInt(8388)))));
    assert_eq!(text(&out, "method"), Some("aes-128-gcm"));
    assert_eq!(text(&out, "plugin"), Some("obfs"));
    assert_eq!(text(&out, "plugin_opts"), Some("mode=tls;host=b.example"));
    assert_eq!(text(&out, "detour"), Some("relay"));
    assert_eq!(
        warnings,
        vec![Warning::PluginOptionSkipped { key: "extra".to_string(), node: "ss1".to_string() }]
    );
}

#[test]
fn shadowsocks_plugin_text_splits_at_first_semicolon() {
    let n = node("{name: s, type: ss, server: h, port: 1, method: m, password: p, plugin: 'v2ray;mode=ws;tls'}");
    let mut warnings = Vec::new();
    let out = convert_node(&n, &mut warnings).unwrap().unwrap();
    assert_eq!(text(&out, "plugin"), Some("v2ray"));
    assert_eq!(text(&out, "plugin_opts"), Some("mode=ws;tls"));
}

#[test]
fn missing_fields_are_reported_in_order() {
    let mut warnings = Vec::new();
    let n = node("{name: x, type: trojan, port: 443, password: p}");
    assert_eq!(convert_node(&n, &mut warnings), Err(ConvertError::MissingField("server".to_string())));
    let n = node("{name: x, type: trojan, server: h, port: abc, password: p}");
    assert_eq!(convert_node(&n, &mut warnings), Err(ConvertError::InvalidNumber("port".to_string())));
    let n = node("{name: x, type: vless, server: h, port: 1}");
    assert_eq!(
        convert_node(&n, &mut warnings),
        Err(ConvertError::MissingOneOf(vec!["uuid".to_string(), "id".to_string()]))
    );
    let n = node("{name: x, type: vless, server: h, port: 1, uuid: u, network: quic}");
    assert_eq!(convert_node(&n, &mut warnings), Err(ConvertError::UnsupportedTransport("quic".to_string())));
    let n = node("{name: x, type: vless, server: h, port: 1, uuid: u, reality-opts: {short-id: ab}}");
    assert_eq!(convert_node(&n, &mut warnings), Err(ConvertError::MissingRealityKey));
    let n = node("{name: x, type: tuic, server: h, port: 1}");
    assert_eq!(convert_node(&n, &mut warnings), Err(ConvertError::UnsupportedProtocol("tuic".to_string())));
    assert!(warnings.is_empty());
}

#[test]
fn builtin_proxies_are_skipped_with_a_warning() {
    let mut warnings = Vec::new();
    let n = node("{name: DIRECT, type: direct}");
    assert_eq!(convert_node(&n, &mut warnings), Ok(None));
    assert_eq!(
        warnings,
        vec![Warning::BuiltinSkipped { name: "DIRECT".to_string(), ty: "direct".to_string() }]
    );
}

#[test]
fn vmess_with_ws_transport_and_tls() {
    let n = node(
        "{name: v, type: vmess, server: h, port: 443, uuid: id1, alterId: 0, network: ws, ws-opts: {path: /ws, headers: {Host: cdn.example}}, tls: true, servername: sni.example, client-fingerprint: chrome}",
    );
    let mut warnings = Vec::new();
    let out = convert_node(&n, &mut warnings).unwrap().unwrap();
    assert_eq!(text(&out, "security"), Some("auto"));
    assert!(matches!(member(&out, "alter_id"), Some(JsonValue::Number(JsonNumber::PosInt(0)))));
    let transport = object(member(&out, "transport").unwrap());
    assert_eq!(text(transport, "type"), Some("ws"));
    assert_eq!(text(transport, "path"), Some("/ws"));
    let headers = object(member(transport, "headers").unwrap());
    assert_eq!(text(headers, "Host"), Some("cdn.example"));
    let tls = object(member(&out, "tls").unwrap());
    assert!(matches!(member(tls, "enabled"), Some(JsonValue::Bool(true))));
    assert_eq!(text(tls, "server_name"), Some("sni.example"));
    let utls = object(member(tls, "utls").unwrap());
    assert_eq!(text(utls, "fingerprint"), Some("chrome"));
}

#[test]
fn vless_reality_and_grpc() {
    let n = node(
        "{name: r, type: vless, server: h, port: 443, uuid: u, flow: xtls-rprx-vision, network: grpc, grpc-opts: {grpc-service-name: svc}, reality-opts: {public-key: pk, short-id: sid}, packet-encoding: xudp}",
    );
    let mut warnings = Vec::new();
    let out = convert_node(&n, &mut warnings).unwrap().unwrap();
    assert_eq!(text(&out, "flow"), Some("xtls-rprx-vision"));
    assert_eq!(text(&out, "packet_encoding"), Some("xudp"));
    let transport = object(member(&out, "transport").unwrap());
    assert_eq!(text(transport, "service_name"), Some("svc"));
    let tls = object(member(&out, "tls").unwrap());
    let reality = object(member(tls, "reality").unwrap());
    assert_eq!(text(reality, "public_key"), Some("pk"));
    assert_eq!(text(reality, "short_id"), Some("sid"));
}

#[test]
fn anytls_durations_and_hysteria2_obfs() {
    let mut warnings = Vec::new();
    let n = node("{name: a, type: anytls, server: h, port: 443, password: p, idle-session-check-interval: 30, idle-session-timeout: '120', min-idle-session: 2}");
    let out = convert_node(&n, &mut warnings).unwrap().unwrap();
    assert_eq!(text(&out, "idle_session_check_interval"), Some("30s"));
    assert_eq!(text(&out, "idle_session_timeout"), Some("120s"));
    assert!(matches!(member(&out, "min_idle_session"), Some(JsonValue::Number(JsonNumber::PosInt(2)))));
    assert!(member(&out, "tls").is_some());

    let n = node("{name: h, type: hy2, server: h, port: 443, password: p, up: 100, down-speed: '200', obfs-password: secret, brutal-debug: true, sni: s.example}");
    let out = convert_node(&n, &mut warnings).unwrap().unwrap();
    assert_eq!(text(&out, "type"), Some("hysteria2"));
    assert!(matches!(member(&out, "up_mbps"), Some(JsonValue::Number(JsonNumber::PosInt(100)))));
    assert!(matches!(member(&out, "down_mbps"), Some(JsonValue::Number(JsonNumber::PosInt(200)))));
    let obfs = object(member(&out, "obfs").unwrap());
    assert_eq!(text(obfs, "type"), Some("salamander"));
    assert_eq!(text(obfs, "password"), Some("secret"));
    assert!(matches!(member(&out, "brutal_debug"), Some(JsonValue::Bool(true))));
}

#[test]
fn wireguard_addresses_and_reserved_bytes() {
    let mut warnings = Vec::new();
    let n = node("{name: w, type: wireguard, server: h, port: 51820, private-key: k, public-key: pk, ip: '10.0.0.2/32, fd00::2/128', reserved: '1, 2, x, 3', mtu: 1280, pre_shared_key: psk}");
    let out = convert_node(&n, &mut warnings).unwrap().unwrap();
    assert_eq!(strings(member(&out, "local_address").unwrap()), vec!["10.0.0.2/32", "fd00::2/128"]);
    match member(&out, "reserved").unwrap() {
        JsonValue::Array(items) => {
            let ns: Vec<u64> = items
                .iter()
                .map(|i| match i {
                    JsonValue::Number(JsonNumber::PosInt(n)) => *n,
                    _ => panic!(),
                })
                .collect();
            assert_eq!(ns, vec![1, 2, 3]);
        }
        _ => panic!(),
    }
    assert_eq!(text(&out, "pre_shared_key"), Some("psk"));
}

#[test]
fn socks_and_http_nodes() {
    let mut warnings = Vec::new();
    let n = node("{name: s, type: socks5, server: h, port: 1080, username: u, password: p}");
    let out = convert_node(&n, &mut warnings).unwrap().unwrap();
    assert_eq!(text(&out, "type"), Some("socks"));
    assert_eq!(text(&out, "version"), Some("5"));
    assert_eq!(text(&out, "username"), Some("u"));
    let n = node("{name: w, type: http, server: h, port: 8080, tls: true}");
    let out = convert_node(&n, &mut warnings).unwrap().unwrap();
    assert!(member(&out, "tls").is_some());
}

#[test]
fn unique_tag_counts_each_base() {
    let mut counts = Vec::new();
    assert_eq!(unique_tag("a", &mut counts), "a");
    assert_eq!(unique_tag("a", &mut counts), "a-2");
    assert_eq!(unique_tag("b", &mut counts), "b");
    assert_eq!(unique_tag("a", &mut counts), "a-3");
}

#[test]
fn renders_unique_tags_with_selector_and_urltest() {
    let nodes = vec![
        node("{name: HK, type: trojan, server: h1, port: 443, password: p}"),
        node("{name: HK, type: trojan, server: h2, port: 443, password: p}"),
        node("{name: bad, type: trojan, port: 443}"),
        node("{name: JP, type: socks5, server: h3, port: 1080}"),
    ];
    let rendered = render_outbounds(nodes, "Proxy", true, "Auto");
    let tags: Vec<&str> = rendered.outbounds.iter().map(|o| text(object(o), "tag").unwrap()).collect();
    assert_eq!(tags, vec!["HK", "HK-2", "JP", "Auto", "Proxy"]);
    let urltest = object(&rendered.outbounds[3]);
    assert_eq!(text(urltest, "type"), Some("urltest"));
    assert_eq!(strings(member(urltest, "outbounds").unwrap()), vec!["HK", "HK-2", "JP"]);
    assert_eq!(text(urltest, "interval"), Some("10m"));
    let selector = object(&rendered.outbounds[4]);
    assert_eq!(strings(member(selector, "outbounds").unwrap()), vec!["direct", "Auto", "HK", "HK-2", "JP"]);
    assert_eq!(text(selector, "default"), Some("Auto"));
    assert_eq!(
        rendered.warnings,
        vec![Warning::NodeSkipped {
            name: "bad".to_string(),
            ty: "trojan".to_string(),
            error: ConvertError::MissingField("server".to_string()),
        }]
    );
}

#[test]
fn selector_without_urltest_defaults_to_first_node() {
    let nodes = vec![node("{name: A, type: trojan, server: h, port: 1, password: p}")];
    let rendered = render_outbounds(nodes, "Proxy", false, "Auto");
    assert_eq!(rendered.outbounds.len(), 2);
    let selector = object(&rendered.outbounds[1]);
    assert_eq!(strings(member(selector, "outbounds").unwrap()), vec!["direct", "A"]);
    assert_eq!(text(selector, "default"), Some("A"));
}

#[test]
fn nothing_is_added_when_no_node_converts() {
    let nodes = vec![node("{name: d, type: dns}")];
    let rendered = render_outbounds(nodes, "Proxy", true, "Auto");
    assert!(rendered.outbounds.is_empty());
    assert_eq!(rendered.warnings.len(), 1);
}
