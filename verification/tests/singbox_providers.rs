use boxmanager::box_subscriptions;
use boxmanager::entries::{EntryError, ProviderEntry, StateError};
use boxmanager::json::{JsonNumber, JsonValue};
use boxmanager::outbound_providers::{
    list_singbox_subscriptions, remove_singbox_subscription, sync_singbox_subscriptions,
    upsert_singbox_subscription, SingboxError,
};

fn to_lib(value: &serde_json::Value) -> JsonValue {
    match value {
        serde_json::Value::Null => JsonValue::Null,
        serde_json::Value::Bool(b) => JsonValue::Bool(*b),
        serde_json::Value::Number(n) => match (n.as_u64(), n.as_i64()) {
            (Some(u), _) => JsonValue::Number(JsonNumber::PosInt(u)),
            (None, Some(i)) => JsonValue::Number(JsonNumber::NegInt(i)),
            _ => JsonValue::Number(JsonNumber::Other(n.to_string())),
        },
        serde_json::Value::String(s) => JsonValue::String(s.clone()),
        serde_json::Value::Array(items) => JsonValue::Array(items.iter().map(to_lib).collect()),
        serde_json::Value::Object(m) => JsonValue::Object(m.iter().map(|(k, v)| (k.clone(), to_lib(v))).collect()),
    }
}

fn from_lib(value: &JsonValue) -> serde_json::Value {
    match value {
        JsonValue::Null => serde_json::Value::Null,
        JsonValue::Bool(b) => serde_json::Value::Bool(*b),
        JsonValue::Number(JsonNumber::PosInt(u)) => serde_json::Value::from(*u),
        JsonValue::Number(JsonNumber::NegInt(i)) => serde_json::Value::from(*i),
        JsonValue::Number(JsonNumber::Other(t)) => serde_json::from_str(t).unwrap_or(serde_json::Value::Null),
        JsonValue::String(s) => serde_json::Value::String(s.clone()),
        JsonValue::Array(items) => serde_json::Value::Array(items.iter().map(from_lib).collect()),
        JsonValue::Object(m) => {
            let mut out = serde_json::Map::new();
            for (k, v) in m {
                out.insert(k.clone(), from_lib(v));
            }
            serde_json::Value::Object(out)
        }
    }
}

fn parse(text: &str) -> JsonValue {
    to_lib(&serde_json::from_str::<serde_json::Value>(text).unwrap())
}

fn pretty(value: &JsonValue) -> String {
    serde_json::to_string_pretty(&from_lib(value)).unwrap()
}

fn sample_providers_template() -> &'static str {
    r#"{
  "log": {
    "level": "info"
  },
  "outbound_providers": [
    {
      "tag": "provider1",
      "type": "remote",
      "url": "https://one.example",
      "update_time": ""
    },
    {
      "tag": "provider2",
      "type": "local",
      "url": "https://two.example",
      "update_time": ""
    }
  ],
  "outbounds": [
    {
      "tag": "direct",
      "type": "direct"
    }
  ]
}"#
}

fn sample_subscriptions_template() -> &'static str {
    r#"{
  "log": {
    "level": "info"
  },
  "box_subscriptions": [
    {
      "name": "provider1",
      "url": "https://one.example"
    },
    {
      "name": "provider2",
      "url": "https://two.example"
    }
  ],
  "outbounds": [
    {
      "tag": "direct",
      "type": "direct"
    }
  ]
}"#
}

#[test]
fn lists_singbox_providers() {
    let entries = list_singbox_subscriptions(&parse(sample_providers_template())).unwrap();
    assert_eq!(entries.len(), 2);
    assert_eq!(entries[0].name, "provider1");
    assert_eq!(entries[0].provider_type.as_deref(), Some("remote"));
    assert_eq!(entries[1].name, "provider2");
    assert_eq!(entries[1].provider_type.as_deref(), Some("local"));
}

#[test]
fn updates_singbox_provider() {
    let root = upsert_singbox_subscription(
        parse(sample_providers_template()),
        Some("provider1"),
        "provider1-renamed",
        "https://new.example",
        "local",
        None,
    )
    .unwrap();
    let content = pretty(&root);
    assert!(content.contains("\"tag\": \"provider1-renamed\""));
    assert!(content.contains("\"url\": \"https://new.example\""));
    assert!(content.contains("\"type\": \"local\""));
    assert!(!content.contains("\"tag\": \"provider1\""));
    assert!(content.contains("outbound_providers"));
}

#[test]
fn removes_singbox_provider() {
    let root = remove_singbox_subscription(parse(sample_providers_template()), "provider2").unwrap();
    let entries = list_singbox_subscriptions(&root).unwrap();
    assert_eq!(entries.len(), 1);
    assert_eq!(entries[0].name, "provider1");
}

#[test]
fn syncs_singbox_providers_from_state() {
    let root = sync_singbox_subscriptions(
        parse(sample_providers_template()),
        "provider3\thttps://three.example\nprovider4\thttps://four.example\n",
    )
    .unwrap();
    let entries = list_singbox_subscriptions(&root).unwrap();
    assert_eq!(entries.len(), 2);
    assert_eq!(entries[0].name, "provider3");
    assert_eq!(entries[1].name, "provider4");
    assert_eq!(entries[0].provider_type.as_deref(), Some("remote"));
    assert_eq!(entries[0].update_time.as_deref(), Some(""));
}

#[test]
fn provider_updates_are_validated() {
    let root = parse(sample_providers_template());
    assert_eq!(
        upsert_singbox_subscription(root, None, "", "https://x.example", "remote", None),
        Err(SingboxError::Entry(EntryError::InvalidName))
    );
    let root = parse(sample_providers_template());
    assert_eq!(
        upsert_singbox_subscription(root, None, "x", "", "remote", None),
        Err(SingboxError::Entry(EntryError::EmptyUrl))
    );
    let root = parse(sample_providers_template());
    assert_eq!(
        upsert_singbox_subscription(root, None, "x", "https://x.example", "cloud", None),
        Err(SingboxError::Entry(EntryError::InvalidType))
    );
}

#[test]
fn state_without_tab_is_refused() {
    let result = sync_singbox_subscriptions(parse(sample_providers_template()), "ok\thttps://a\n\nbroken line\n");
    assert_eq!(result, Err(SingboxError::State(StateError::MissingTab(3))));
}

#[test]
fn malformed_provider_lists_are_refused() {
    assert_eq!(list_singbox_subscriptions(&parse("[]")), Err(SingboxError::RootNotObject));
    assert_eq!(
        list_singbox_subscriptions(&parse(r#"{"outbound_providers": {}}"#)),
        Err(SingboxError::ProvidersNotArray)
    );
    assert_eq!(
        list_singbox_subscriptions(&parse(r#"{"outbound_providers": [1]}"#)),
        Err(SingboxError::ProviderNotObject(0))
    );
    assert_eq!(
        list_singbox_subscriptions(&parse(r#"{"outbound_providers": [{"url": "u"}]}"#)),
        Err(SingboxError::MissingName(0))
    );
    assert_eq!(
        list_singbox_subscriptions(&parse(r#"{"outbound_providers": [{"tag": "t"}]}"#)),
        Err(SingboxError::MissingUrl(0))
    );
    assert_eq!(
        list_singbox_subscriptions(&parse(
            r#"{"outbound_providers": [{"tag": "a", "type": "remote", "url": "https://a.example"}, {"tag": "b", "url": "https://b.example"}]}"#
        )),
        Err(SingboxError::MissingType(1))
    );
    assert_eq!(list_singbox_subscriptions(&parse("{}")).unwrap().len(), 0);
}

#[test]
fn written_providers_read_back_on_a_template() {
    let root = upsert_singbox_subscription(
        parse(sample_providers_template()),
        None,
        "added",
        "https://added.example",
        "remote",
        Some("2024-01-01T00:00:00Z".to_string()),
    )
    .unwrap();
    let entries = list_singbox_subscriptions(&root).unwrap();
    assert_eq!(entries.len(), 3);
    assert_eq!(entries[2].name, "added");
    assert_eq!(entries[2].url, "https://added.example");
    assert_eq!(entries[2].update_time.as_deref(), Some("2024-01-01T00:00:00Z"));
}

#[test]
fn lists_singbox_subscriptions_from_template() {
    let entries = box_subscriptions::list_singbox_subscriptions(&parse(sample_subscriptions_template())).unwrap();
    assert_eq!(
        entries,
        vec![
            ProviderEntry { name: "provider1".to_string(), url: "https://one.example".to_string() },
            ProviderEntry { name: "provider2".to_string(), url: "https://two.example".to_string() },
        ]
    );
}

#[test]
fn updates_singbox_subscription_in_template() {
    let root = box_subscriptions::upsert_singbox_subscription(
        parse(sample_subscriptions_template()),
        Some("provider1"),
        "provider1-renamed",
        "https://new.example",
    )
    .unwrap();
    let content = pretty(&root);
    assert!(content.contains("\"name\": \"provider1-renamed\""));
    assert!(content.contains("\"url\": \"https://new.example\""));
    assert!(!content.contains("\"name\": \"provider1\""));
}

#[test]
fn removes_singbox_subscription_from_template() {
    let root = box_subscriptions::remove_singbox_subscription(parse(sample_subscriptions_template()), "provider2").unwrap();
    let entries = box_subscriptions::list_singbox_subscriptions(&root).unwrap();
    assert_eq!(entries.len(), 1);
    assert_eq!(entries[0].name, "provider1");
}

#[test]
fn syncs_singbox_subscriptions_from_legacy_state() {
    let root = box_subscriptions::sync_singbox_subscriptions(
        parse(sample_subscriptions_template()),
        "provider3\thttps://three.example\nprovider4\thttps://four.example\n",
    )
    .unwrap();
    let entries = box_subscriptions::list_singbox_subscriptions(&root).unwrap();
    assert_eq!(
        entries,
        vec![
            ProviderEntry { name: "provider3".to_string(), url: "https://three.example".to_string() },
            ProviderEntry { name: "provider4".to_string(), url: "https://four.example".to_string() },
        ]
    );
}

#[test]
fn upsert_and_remove_list_back_and_a_second_removal_changes_nothing() {
    let root = parse(sample_subscriptions_template());
    let root = box_subscriptions::upsert_singbox_subscription(root, Some("provider1"), "renamed", "https://r.example").unwrap();
    let entries = box_subscriptions::list_singbox_subscriptions(&root).unwrap();
    assert_eq!(entries[0], ProviderEntry { name: "renamed".to_string(), url: "https://r.example".to_string() });
    assert!(entries.iter().all(|e| e.name != "provider1"));
    let once = box_subscriptions::remove_singbox_subscription(root, "renamed").unwrap();
    let entries = box_subscriptions::list_singbox_subscriptions(&once).unwrap();
    assert!(entries.iter().all(|e| e.name != "renamed"));
    assert_eq!(entries, vec![ProviderEntry { name: "provider2".to_string(), url: "https://two.example".to_string() }]);
    let again = box_subscriptions::remove_singbox_subscription(parse(sample_subscriptions_template()), "provider1").unwrap();
    let again_once = box_subscriptions::remove_singbox_subscription(parse(sample_subscriptions_template()), "provider1").unwrap();
    let twice = box_subscriptions::remove_singbox_subscription(again, "provider1").unwrap();
    assert_eq!(twice, again_once);

    let once = remove_singbox_subscription(parse(sample_providers_template()), "provider1").unwrap();
    let first = remove_singbox_subscription(parse(sample_providers_template()), "provider1").unwrap();
    let twice = remove_singbox_subscription(first, "provider1").unwrap();
    assert_eq!(twice, once);
    let entries = list_singbox_subscriptions(&once).unwrap();
    assert_eq!(entries.len(), 1);
    assert_eq!(entries[0].name, "provider2");
}
