use boxmanager::mihomo::{
    detect_provider_template, parse_provider_blocks, parse_provider_key_line, provider_document,
    remove_provider_from_text, set_provider_in_text, MihomoError, ProviderTemplate,
};
use boxmanager::yaml::{YamlNumber, YamlValue};

fn sample_config() -> &'static str {
    r#"p: &p {type: http, interval: 86400}
proxy-providers:
  provider1:
    <<: *p
    url: "https://one.example"
    health-check:
      enable: true
  local:
    type: file
    path: ./local.yaml
  provider2:
    <<: *p
    url: 'https://two.example'
proxy-groups:
  - name: Proxy
"#
}

fn to_lib(v: &serde_yaml::Value) -> YamlValue {
    match v {
        serde_yaml::Value::Null => YamlValue::Null,
        serde_yaml::Value::Bool(b) => YamlValue::Bool(*b),
        serde_yaml::Value::Number(n) => YamlValue::Number(YamlNumber {
            text: n.to_string(),
            unsigned: n.as_u64(),
            signed: n.as_i64(),
        }),
        serde_yaml::Value::String(s) => YamlValue::String(s.clone()),
        serde_yaml::Value::Sequence(items) => YamlValue::Sequence(items.iter().map(to_lib).collect()),
        serde_yaml::Value::Mapping(m) => {
            YamlValue::Mapping(m.iter().map(|(k, v)| (to_lib(k), to_lib(v))).collect())
        }
        serde_yaml::Value::Tagged(t) => YamlValue::Tagged(t.tag.to_string(), Box::new(to_lib(&t.value))),
    }
}

fn from_lib(v: &YamlValue) -> serde_yaml::Value {
    match v {
        YamlValue::Null => serde_yaml::Value::Null,
        YamlValue::Bool(b) => serde_yaml::Value::Bool(*b),
        YamlValue::Number(n) => serde_yaml::from_str(&n.text).unwrap_or(serde_yaml::Value::Null),
        YamlValue::String(s) => serde_yaml::Value::String(s.clone()),
        YamlValue::Sequence(items) => serde_yaml::Value::Sequence(items.iter().map(from_lib).collect()),
        YamlValue::Mapping(m) => {
            let mut out = serde_yaml::Mapping::new();
            for (k, v) in m {
                out.insert(from_lib(k), from_lib(v));
            }
            serde_yaml::Value::Mapping(out)
        }
        YamlValue::Tagged(_, inner) => from_lib(inner),
    }
}

fn template_for(content: &str, name: &str, url: &str) -> ProviderTemplate {
    let doc: serde_yaml::Value = match serde_yaml::from_str(content) {
        Ok(doc) => doc,
        Err(_) => return ProviderTemplate::Unreadable,
    };
    match detect_provider_template(to_lib(&doc)) {
        None => ProviderTemplate::Absent,
        Some(t) => {
            let rendered = serde_yaml::to_string(&from_lib(&provider_document(name, url, t))).unwrap();
            ProviderTemplate::Rendered(rendered)
        }
    }
}

fn lines_of(text: &str) -> Vec<Vec<char>> {
    text.lines().map(|l| l.chars().collect()).collect()
}

#[test]
fn parses_provider_keys() {
    assert_eq!(parse_provider_key_line("  provider1:"), Some((2, "provider1".to_string())));
    assert_eq!(parse_provider_key_line("    url: test"), None);
}

#[test]
fn updates_only_url_and_name() {
    let template = template_for(sample_config(), "provider1-renamed", "https://new.example");
    let output = set_provider_in_text(
        sample_config(),
        "provider1",
        "provider1-renamed",
        "https://new.example",
        &template,
    )
    .unwrap();
    assert!(output.contains("  provider1-renamed:"));
    assert!(output.contains("    health-check:"));
    assert!(output.contains("    url: \"https://new.example\""));
    assert!(!output.contains("  provider1:\n"));
}

#[test]
fn inserts_new_provider_at_end_of_section() {
    let template = template_for(sample_config(), "added", "https://add.example");
    let output = set_provider_in_text(sample_config(), "added", "added", "https://add.example", &template).unwrap();
    assert!(output.contains("  added:\n"));
    assert!(output.contains("    type: http\n"));
    assert!(output.contains("    interval: 86400\n"));
    assert!(output.contains("    health-check:\n"));
    assert!(output.contains("      enable: true\n"));
    assert!(output.contains("    url: https://add.example\n"));
    assert!(output.contains("proxy-groups:"));
}

#[test]
fn parses_blocks_with_mixed_entries() {
    let lines = lines_of(sample_config());
    let blocks = parse_provider_blocks(&lines, 2..11).unwrap();
    assert_eq!(blocks.len(), 3);
    assert_eq!(blocks[0].name, "provider1");
    assert_eq!(blocks[1].name, "local");
    assert_eq!(blocks[2].name, "provider2");
}

#[test]
fn removes_named_provider_from_text() {
    let output = remove_provider_from_text(sample_config(), "provider1").unwrap();
    assert!(!output.contains("provider1:"));
    assert!(output.contains("provider2:"));
}

#[test]
fn renaming_onto_another_provider_is_refused() {
    let template = template_for(sample_config(), "provider2", "https://x.example");
    let result = set_provider_in_text(sample_config(), "provider1", "provider2", "https://x.example", &template);
    assert_eq!(result, Err(MihomoError::DuplicateName("provider2".to_string())));
}

#[test]
fn config_without_section_is_refused() {
    let template = ProviderTemplate::Absent;
    let result = set_provider_in_text("proxies: []\n", "a", "a", "https://a.example", &template);
    assert_eq!(result, Err(MihomoError::MissingSection));
}

use boxmanager::entries::{EntryError, ProviderEntry};
use boxmanager::mihomo::{list_mihomo_providers, sync_mihomo_proxy_providers, sync_mihomo_step, upsert_mihomo_provider};

fn doc_of(content: &str) -> Option<YamlValue> {
    serde_yaml::from_str::<serde_yaml::Value>(content).ok().map(|v| to_lib(&v))
}

#[test]
fn lists_only_providers_with_url() {
    let entries = list_mihomo_providers(sample_config(), &doc_of(sample_config())).unwrap();
    assert_eq!(
        entries,
        vec![
            ProviderEntry { name: "provider1".to_string(), url: "https://one.example".to_string() },
            ProviderEntry { name: "provider2".to_string(), url: "https://two.example".to_string() },
        ]
    );
}

#[test]
fn upsert_checks_names_urls_and_config() {
    let template = template_for(sample_config(), "x", "https://x.example");
    let doc = doc_of(sample_config());
    assert_eq!(
        upsert_mihomo_provider(sample_config(), None, "bad\tname", "https://x.example", &doc, &template),
        Err(MihomoError::Entry(EntryError::InvalidName))
    );
    assert_eq!(
        upsert_mihomo_provider(sample_config(), None, "x", "", &doc, &template),
        Err(MihomoError::Entry(EntryError::EmptyUrl))
    );
    assert_eq!(
        upsert_mihomo_provider("a: 1\n", None, "x", "https://x.example", &doc_of("a: 1\n"), &template),
        Err(MihomoError::MissingProvidersKey)
    );
    assert_eq!(
        upsert_mihomo_provider("{{", None, "x", "https://x.example", &None, &template),
        Err(MihomoError::ConfigNotYaml)
    );
    let updated = upsert_mihomo_provider(sample_config(), None, "provider2", "https://2.example", &doc, &template).unwrap();
    let entries = list_mihomo_providers(&updated, &doc_of(&updated)).unwrap();
    assert_eq!(entries[1], ProviderEntry { name: "provider2".to_string(), url: "https://2.example".to_string() });
}

#[test]
fn syncs_mihomo_providers_from_state() {
    let outcomes = sync_mihomo_proxy_providers(&doc_of(sample_config()), "p3\thttps://three.example\n\nbroken\n").unwrap();
    assert_eq!(outcomes.len(), 2);
    assert_eq!(outcomes[0], Ok(("p3".to_string(), "https://three.example".to_string())));
    assert_eq!(outcomes[1], Err(MihomoError::InvalidStateLine(3)));
    let mut content = sample_config().to_string();
    let mut stopped = None;
    for outcome in outcomes {
        let template = match &outcome {
            Ok((name, url)) => template_for(&content, name, url),
            Err(_) => ProviderTemplate::Absent,
        };
        match sync_mihomo_step(&content, outcome, &template) {
            Ok(next) => content = next,
            Err(e) => {
                stopped = Some(e);
                break;
            }
        }
    }
    assert_eq!(stopped, Some(MihomoError::InvalidStateLine(3)));
    let entries = list_mihomo_providers(&content, &doc_of(&content)).unwrap();
    assert_eq!(entries.len(), 3);
    assert_eq!(entries[2], ProviderEntry { name: "p3".to_string(), url: "https://three.example".to_string() });
}

#[test]
fn renamed_provider_reads_back_with_escaped_url() {
    let url = r#"https://q.example/?a="b"&c=\d"#;
    let template = template_for(sample_config(), "renamed", url);
    let updated = set_provider_in_text(sample_config(), "provider1", "renamed", url, &template).unwrap();
    assert!(updated.contains("  renamed:\n"));
    assert!(updated.contains(r#"    url: "https://q.example/?a=\"b\"&c=\\d""#));
    let entries = list_mihomo_providers(&updated, &doc_of(&updated)).unwrap();
    assert_eq!(entries[0], ProviderEntry { name: "renamed".to_string(), url: url.to_string() });
    assert_eq!(entries[1], ProviderEntry { name: "provider2".to_string(), url: "https://two.example".to_string() });
}

#[test]
fn removing_a_provider_keeps_the_others_listed() {
    let output = remove_provider_from_text(sample_config(), "provider1").unwrap();
    let entries = list_mihomo_providers(&output, &doc_of(&output)).unwrap();
    assert_eq!(entries, vec![ProviderEntry { name: "provider2".to_string(), url: "https://two.example".to_string() }]);
    let output = remove_provider_from_text(sample_config(), "local").unwrap();
    let entries = list_mihomo_providers(&output, &doc_of(&output)).unwrap();
    assert_eq!(entries.len(), 2);
    assert_eq!(entries[0].name, "provider1");
    assert_eq!(entries[1].name, "provider2");
}

#[test]
fn new_provider_without_template_is_listed_last() {
    let config = "p: &p {type: http, interval: 3600}\nproxy-providers:\n  local:\n    type: file\n    path: ./local.yaml\nrules:\n  - MATCH,DIRECT\n";
    let template = template_for(config, "fresh", "https://fresh.example");
    assert!(matches!(template, ProviderTemplate::Absent));
    let output = set_provider_in_text(config, "fresh", "fresh", "https://fresh.example", &template).unwrap();
    assert_eq!(
        output,
        "p: &p {type: http, interval: 3600}\nproxy-providers:\n  local:\n    type: file\n    path: ./local.yaml\n  fresh:\n    <<: *p\n    url: \"https://fresh.example\"\nrules:\n  - MATCH,DIRECT\n"
    );
    let entries = list_mihomo_providers(&output, &doc_of(&output)).unwrap();
    assert_eq!(entries, vec![ProviderEntry { name: "fresh".to_string(), url: "https://fresh.example".to_string() }]);
}

#[test]
fn update_keeps_nested_health_check_url() {
    let content = "proxy-providers:\n  p1:\n    url: \"https://old.example\"\n    health-check:\n      enable: true\n      url: https://hc.example\n";
    let template = template_for(content, "p1", "https://new.example");
    let out = set_provider_in_text(content, "p1", "p1", "https://new.example", &template).unwrap();
    assert_eq!(
        out,
        "proxy-providers:\n  p1:\n    url: \"https://new.example\"\n    health-check:\n      enable: true\n      url: https://hc.example\n"
    );
    let entries = list_mihomo_providers(&out, &doc_of(&out)).unwrap();
    assert_eq!(entries, vec![ProviderEntry { name: "p1".to_string(), url: "https://new.example".to_string() }]);
}

#[test]
fn update_writes_url_two_deeper_than_the_key() {
    let content = "proxy-providers:\n  p1:\n      type: http\n      health-check:\n        url: https://hc.example\nrules:\n";
    let template = template_for(content, "p1", "https://new.example");
    let out = set_provider_in_text(content, "p1", "p1", "https://new.example", &template).unwrap();
    assert_eq!(
        out,
        "proxy-providers:\n  p1:\n      type: http\n      health-check:\n        url: https://hc.example\n    url: \"https://new.example\"\nrules:\n"
    );
    let content = "proxy-providers:\n  p1:\n      url: https://old.example\n      health-check:\n        url: https://hc.example\n";
    let template = template_for(content, "p1", "https://new.example");
    let out = set_provider_in_text(content, "p1", "p1", "https://new.example", &template).unwrap();
    assert_eq!(
        out,
        "proxy-providers:\n  p1:\n    url: \"https://new.example\"\n      health-check:\n        url: https://hc.example\n"
    );
}
