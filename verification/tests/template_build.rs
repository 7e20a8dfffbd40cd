use boxmanager::template::{is_subscription_metadata_tag, subscription_cache_file};

#[test]
fn build_cache_filename_matches_shell_squeezing_behavior() {
    let path = subscription_cache_file("/tmp/demo", "香港 节点#1");
    assert_eq!(path, "/tmp/demo/_1.txt");
}

#[test]
fn cache_filename_matches_shell_squeezing_behavior() {
    let path = subscription_cache_file("/tmp/demo", "香港 节点#1");
    assert_eq!(path, "/tmp/demo/_1.txt");
}

#[test]
fn cache_filename_keeps_safe_characters() {
    assert_eq!(subscription_cache_file("/tmp/demo/", "demo-sub"), "/tmp/demo/demo-sub.txt");
    assert_eq!(subscription_cache_file("", "a_#b"), "a__b.txt");
    assert_eq!(subscription_cache_file("dir", "###"), "dir/_.txt");
    assert_eq!(subscription_cache_file("dir", ""), "dir/_.txt");
}

#[test]
fn metadata_tags_are_recognised() {
    assert!(is_subscription_metadata_tag("剩余流量：10GB"));
    assert!(is_subscription_metadata_tag("套餐到期：2030-01-01"));
    assert!(!is_subscription_metadata_tag("HK-01"));
}

use boxmanager::input::{parse_input, resume_parse_input, InputError, InputStep, ParsedInput};
use boxmanager::json::{JsonNumber, JsonValue};
use boxmanager::outbound_providers::list_singbox_subscriptions;
use boxmanager::template::{
    add_subscription, expand_template_outbound, finish_build, inspect_subscription, record_missing_cache, BuildError,
    BuildState, BuildWarning, CacheStatus, InspectNote, TemplateField,
};
use boxmanager::yaml::{YamlNumber, YamlValue};

fn yaml_to_lib(v: &serde_yaml::Value) -> YamlValue {
    match v {
        serde_yaml::Value::Null => YamlValue::Null,
        serde_yaml::Value::Bool(b) => YamlValue::Bool(*b),
        serde_yaml::Value::Number(n) => YamlValue::Number(YamlNumber {
            text: n.to_string(),
            unsigned: n.as_u64(),
            signed: n.as_i64(),
        }),
        serde_yaml::Value::String(s) => YamlValue::String(s.clone()),
        serde_yaml::Value::Sequence(items) => YamlValue::Sequence(items.iter().map(yaml_to_lib).collect()),
        serde_yaml::Value::Mapping(m) => {
            YamlValue::Mapping(m.iter().map(|(k, v)| (yaml_to_lib(k), yaml_to_lib(v))).collect())
        }
        serde_yaml::Value::Tagged(t) => YamlValue::Tagged(t.tag.to_string(), Box::new(yaml_to_lib(&t.value))),
    }
}

fn json_to_lib(value: &serde_json::Value) -> JsonValue {
    match value {
        serde_json::Value::Null => JsonValue::Null,
        serde_json::Value::Bool(b) => JsonValue::Bool(*b),
        serde_json::Value::Number(n) => match (n.as_u64(), n.as_i64()) {
            (Some(u), _) => JsonValue::Number(JsonNumber::PosInt(u)),
            (None, Some(i)) => JsonValue::Number(JsonNumber::NegInt(i)),
            _ => JsonValue::Number(JsonNumber::Other(n.to_string())),
        },
        serde_json::Value::String(s) => JsonValue::String(s.clone()),
        serde_json::Value::Array(items) => JsonValue::Array(items.iter().map(json_to_lib).collect()),
        serde_json::Value::Object(m) => {
            JsonValue::Object(m.iter().map(|(k, v)| (k.clone(), json_to_lib(v))).collect())
        }
    }
}

fn json_from_lib(value: &JsonValue) -> serde_json::Value {
    match value {
        JsonValue::Null => serde_json::Value::Null,
        JsonValue::Bool(b) => serde_json::Value::Bool(*b),
        JsonValue::Number(JsonNumber::PosInt(u)) => serde_json::Value::from(*u),
        JsonValue::Number(JsonNumber::NegInt(i)) => serde_json::Value::from(*i),
        JsonValue::Number(JsonNumber::Other(t)) => serde_json::from_str(t).unwrap_or(serde_json::Value::Null),
        JsonValue::String(s) => serde_json::Value::String(s.clone()),
        JsonValue::Array(items) => serde_json::Value::Array(items.iter().map(json_from_lib).collect()),
        JsonValue::Object(m) => {
            let mut out = serde_json::Map::new();
            for (k, v) in m {
                out.insert(k.clone(), json_from_lib(v));
            }
            serde_json::Value::Object(out)
        }
    }
}

fn parse_subscription(content: &str) -> Result<ParsedInput, InputError> {
    let yaml = serde_yaml::from_str::<serde_yaml::Value>(content).ok().map(|v| yaml_to_lib(&v));
    match parse_input(content, yaml) {
        InputStep::Done(r) => r,
        InputStep::Decoded(decoded) => resume_parse_input(content, parse_subscription(&decoded)),
    }
}

/// Builds a config from a template and the cache text of each subscription
/// (none where there is no cache), as the command line does with files.
fn build(template: &str, caches: &[(&str, Option<&str>)]) -> Result<(serde_json::Value, boxmanager::template::SingboxBuildSummary), BuildError> {
    let root = json_to_lib(&serde_json::from_str::<serde_json::Value>(template).unwrap());
    let subscriptions = list_singbox_subscriptions(&root).unwrap();
    let mut state = BuildState::new();
    for subscription in &subscriptions {
        let cache = caches.iter().find(|(name, _)| *name == subscription.name).and_then(|(_, c)| *c);
        match cache {
            Some(content) => add_subscription(&mut state, &subscription.name, parse_subscription(content)),
            None => record_missing_cache(&mut state, &subscription.name, &"cache".to_string(), "missing".to_string()),
        }
    }
    let (config, summary) = finish_build(root, state, subscriptions.len())?;
    Ok((json_from_lib(&config), summary))
}

fn group<'a>(config: &'a serde_json::Value, tag: &str) -> &'a serde_json::Value {
    config["outbounds"].as_array().unwrap().iter().find(|item| item["tag"] == tag).unwrap()
}

const DEMO_CACHE: &str = "ss://YWVzLTI1Ni1nY206cGFzc0BleGFtcGxlLmNvbTo0NDM=#HK-01\nss://YWVzLTI1Ni1nY206cGFzc0BleGFtcGxlLm5ldDo0NDM=#SG-02\nss://YWVzLTI1Ni1nY206cGFzc0BleGFtcGxlLm9yZzo0NDM=#US-03\n";

#[test]
fn builds_singbox_config_with_include_and_filter() {
    let template = r#"{
  "outbound_providers": [
    { "tag": "demo-sub", "type": "remote", "url": "https://example.com/sub", "update_time": "" }
  ],
  "outbounds": [
    { "tag": "direct", "type": "direct" },
    { "tag": "group-asia", "type": "urltest", "include": ["demo-sub"], "filter": "HK|SG", "url": "https://www.gstatic.com/generate_204", "interval": "10m" },
    { "tag": "group-exclude", "type": "selector", "exclude_filter": "HK" },
    { "tag": "group-static", "type": "selector", "outbounds": ["group-asia"], "include": ["demo-sub"], "filter": "US" }
  ]
}"#;
    let (generated, summary) = build(template, &[("demo-sub", Some(DEMO_CACHE))]).unwrap();
    assert_eq!(summary.subscriptions_total, 1);
    assert_eq!(summary.subscriptions_built, 1);
    assert_eq!(summary.subscriptions_failed, 0);
    assert!(generated.get("outbound_providers").is_none());
    assert!(generated.get("box_subscriptions").is_none());

    let group_asia = group(&generated, "group-asia");
    let asia_items = group_asia["outbounds"].as_array().unwrap();
    assert_eq!(asia_items.len(), 2);
    assert!(asia_items.iter().any(|item| item == "HK-01"));
    assert!(asia_items.iter().any(|item| item == "SG-02"));

    let group_exclude = group(&generated, "group-exclude");
    let exclude_items = group_exclude["outbounds"].as_array().unwrap();
    assert_eq!(exclude_items.len(), 2);
    assert!(exclude_items.iter().any(|item| item == "SG-02"));
    assert!(exclude_items.iter().any(|item| item == "US-03"));

    let group_static = group(&generated, "group-static");
    let static_items = group_static["outbounds"].as_array().unwrap();
    assert_eq!(static_items.len(), 2);
    assert_eq!(static_items[0], "group-asia");
    assert!(static_items.iter().any(|item| item == "US-03"));

    assert!(group_asia.get("include").is_none());
    assert!(group_asia.get("filter").is_none());
    assert!(group_exclude.get("exclude_filter").is_none());
}

#[test]
fn builds_with_multiple_providers_and_selective_include() {
    let template = r#"{
  "outbound_providers": [
    { "tag": "sub-a", "type": "remote", "url": "https://a.example", "update_time": "" },
    { "tag": "sub-b", "type": "remote", "url": "https://b.example", "update_time": "" }
  ],
  "outbounds": [
    { "tag": "direct", "type": "direct" },
    { "tag": "only-a", "type": "urltest", "include": ["sub-a"], "url": "https://www.gstatic.com/generate_204", "interval": "10m" },
    { "tag": "only-b", "type": "urltest", "include": ["sub-b"], "url": "https://www.gstatic.com/generate_204", "interval": "10m" },
    { "tag": "all-subs", "type": "selector", "filter": ".*" }
  ]
}"#;
    let caches = [
        ("sub-a", Some("ss://YWVzLTI1Ni1nY206cGFzc0BleGFtcGxlLmNvbTo0NDM=#A-Node1\n")),
        (
            "sub-b",
            Some("ss://YWVzLTI1Ni1nY206cGFzc0BleGFtcGxlLm5ldDo0NDM=#B-Node1\nss://YWVzLTI1Ni1nY206cGFzc0BleGFtcGxlLm9yZzo0NDM=#B-Node2\n"),
        ),
    ];
    let (generated, summary) = build(template, &caches).unwrap();
    assert_eq!(summary.subscriptions_built, 2);
    assert_eq!(summary.outbounds_added, 3);
    let only_a = group(&generated, "only-a")["outbounds"].as_array().unwrap().clone();
    assert_eq!(only_a.len(), 1);
    assert_eq!(only_a[0], "A-Node1");
    assert_eq!(group(&generated, "only-b")["outbounds"].as_array().unwrap().len(), 2);
    assert_eq!(group(&generated, "all-subs")["outbounds"].as_array().unwrap().len(), 3);
    assert_eq!(generated["outbounds"].as_array().unwrap().len(), 7);
}

#[test]
fn plain_outbound_without_template_fields_is_untouched() {
    let template = r#"{
  "outbound_providers": [],
  "outbounds": [
    { "tag": "direct", "type": "direct" },
    { "tag": "manual", "type": "selector", "outbounds": ["direct"], "default": "direct" }
  ]
}"#;
    let (generated, summary) = build(template, &[]).unwrap();
    let items = group(&generated, "manual")["outbounds"].as_array().unwrap().clone();
    assert_eq!(items.len(), 1);
    assert_eq!(items[0], "direct");
    assert_eq!(summary.subscriptions_total, 0);
}

#[test]
fn failures_and_fallbacks_are_reported() {
    let template = r#"{
  "outbound_providers": [
    { "tag": "gone", "type": "remote", "url": "https://g.example", "update_time": "" },
    { "tag": "meta", "type": "remote", "url": "https://m.example", "update_time": "" }
  ],
  "outbounds": [
    { "tag": "pick", "type": "selector", "include": ["nowhere"] }
  ]
}"#;
    let meta = "ss://YWVzLTI1Ni1nY206cGFzc0BleGFtcGxlLmNvbTo0NDM=#%E5%89%A9%E4%BD%99%E6%B5%81%E9%87%8F\n";
    let (generated, summary) = build(template, &[("gone", None), ("meta", Some(meta))]).unwrap();
    assert_eq!(summary.subscriptions_failed, 2);
    assert_eq!(summary.subscriptions_built, 0);
    assert_eq!(group(&generated, "pick")["outbounds"].as_array().unwrap().clone(), vec![serde_json::Value::String("direct".to_string())]);
    assert_eq!(
        summary.warnings,
        vec![
            BuildWarning::CacheMissing { name: "gone".to_string(), path: "cache".to_string(), reason: "missing".to_string() },
            BuildWarning::NoUsableNodes { name: "meta".to_string() },
            BuildWarning::UnknownProvider { outbound: "pick".to_string(), provider: "nowhere".to_string() },
            BuildWarning::NoMatches { outbound: "pick".to_string() },
        ]
    );
}

#[test]
fn bad_filters_and_templates_are_refused() {
    let bad_regex = r#"{ "outbounds": [ { "tag": "g", "filter": "(" } ] }"#;
    assert_eq!(
        build(bad_regex, &[]).map(|_| ()),
        Err(BuildError::InvalidRegex { field: TemplateField::Filter, outbound: Some("g".to_string()) })
    );
    let not_string = r#"{ "outbounds": [ { "tag": "g", "exclude_filter": 1 } ] }"#;
    assert_eq!(
        build(not_string, &[]).map(|_| ()),
        Err(BuildError::FilterNotString { field: TemplateField::ExcludeFilter })
    );
    assert_eq!(build(r#"{ "outbounds": {} }"#, &[]).map(|_| ()), Err(BuildError::MissingOutbounds));
    let mut warnings = Vec::new();
    let plain = JsonValue::String("x".to_string());
    assert_eq!(expand_template_outbound(plain, &Vec::new(), &mut warnings), Ok(JsonValue::String("x".to_string())));
}

#[test]
fn build_inspects_singbox_subscriptions_from_cache() {
    let parsed = parse_subscription(
        "ss://YWVzLTI1Ni1nY206cGFzc0BleGFtcGxlLmNvbTo0NDM=#HK-01\nss://YWVzLTI1Ni1nY206cGFzc0BleGFtcGxlLm5ldDo0NDM=#US-02\n",
    );
    let view = inspect_subscription(
        "demo-sub".to_string(),
        "https://example.com/sub".to_string(),
        subscription_cache_file("/tmp/subs", "demo-sub"),
        10,
        Some(parsed),
    );
    assert_eq!(view.status, CacheStatus::Usable);
    assert_eq!(view.nodes.len(), 2);
    assert_eq!(view.nodes[0].name, "HK-01");
    assert_eq!(view.nodes[0].node_type, "ss");
    assert_eq!(view.cache_file, "/tmp/subs/demo-sub.txt");

    let missing = inspect_subscription("x".to_string(), "u".to_string(), "/c/x.txt".to_string(), 0, None);
    assert_eq!(missing.status, CacheStatus::MissingCache);
    assert!(!missing.cache_exists);
    assert_eq!(missing.warnings, vec![InspectNote::CacheFileMissing { path: "/c/x.txt".to_string() }]);

    let broken = inspect_subscription("x".to_string(), "u".to_string(), "c".to_string(), 3, Some(parse_subscription("???")));
    assert_eq!(broken.status, CacheStatus::ParseError);
    assert_eq!(broken.warnings, vec![InspectNote::Failed { cause: InputError::NotRecognized }]);
}

#[test]
fn filter_and_exclusion_combine_after_static_members() {
    let template = r#"{
  "outbound_providers": [
    { "tag": "demo-sub", "type": "remote", "url": "https://example.com/sub", "update_time": "" }
  ],
  "outbounds": [
    { "tag": "direct", "type": "direct" },
    { "tag": "mixed", "type": "selector", "outbounds": ["direct", "block"], "filter": "-0", "exclude_filter": "SG" }
  ]
}"#;
    let (generated, _) = build(template, &[("demo-sub", Some(DEMO_CACHE))]).unwrap();
    let mixed = group(&generated, "mixed");
    let items = mixed["outbounds"].as_array().unwrap();
    assert_eq!(items.len(), 4);
    assert_eq!(items[0], "direct");
    assert_eq!(items[1], "block");
    assert_eq!(items[2], "HK-01");
    assert_eq!(items[3], "US-03");
    assert!(mixed.get("filter").is_none());
    assert!(mixed.get("exclude_filter").is_none());
}
