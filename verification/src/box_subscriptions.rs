//! The subscriptions of a sing-box template kept in its `box_subscriptions`
//! array of `{name, url}` objects.
use vstd::prelude::*;

use crate::entries::{
    entry_models, lemma_removed_within, lemma_upserted_within, not_named, removing_twice_is_removing_once, parse_subscription_state, removed, remove_entry, state_result_model,
    state_results, upsert_entry, upserted, valid_name, valid_url, validate_provider_name,
    validate_provider_url, EntryError, EntryModel, ProviderEntry, StateError,
};
use crate::json::{
    find_member, get_member_str, items_model, lemma_array_model, lemma_member_index,
    lemma_object_model, member, member_index, member_str, members_model, set_member, with_member,
    JsonModel, JsonValue,
};
use crate::outbound_providers::SingboxError;
use crate::outside::string_from_chars;
use crate::text::{chars_of, lines_of};

verus! {

/// The key of the subscriptions array.
pub open spec fn subscriptions_key() -> Seq<char> {
    "box_subscriptions"@
}

/// The subscription at `index` of the array, or why it was refused.
pub open spec fn subscription_item(item: JsonModel, index: int) -> Result<EntryModel, SingboxError> {
    match item {
        JsonModel::Object(o) => match member_str(o, "name"@) {
            None => Err(SingboxError::MissingName(index as usize)),
            Some(name) => match member_str(o, "url"@) {
                None => Err(SingboxError::MissingUrl(index as usize)),
                Some(url) => if !valid_name(name) {
                    Err(SingboxError::Entry(EntryError::InvalidName))
                } else if !valid_url(url) {
                    Err(SingboxError::Entry(EntryError::EmptyUrl))
                } else {
                    Ok(EntryModel { name: name, url: url })
                },
            },
        },
        _ => Err(SingboxError::ProviderNotObject(index as usize)),
    }
}

/// The subscriptions of the array, or the first refusal.
pub open spec fn subscription_items(items: Seq<JsonModel>) -> Result<Seq<EntryModel>, SingboxError>
    decreases items.len(),
{
    if items.len() == 0 {
        Ok(seq![])
    } else {
        match subscription_items(items.drop_last()) {
            Err(e) => Err(e),
            Ok(es) => match subscription_item(items.last(), items.len() - 1) {
                Err(e) => Err(e),
                Ok(x) => Ok(es.push(x)),
            },
        }
    }
}

/// The subscriptions of a template: none where it has no subscriptions key.
pub open spec fn subscriptions_of(root: JsonModel) -> Result<Seq<EntryModel>, SingboxError> {
    match root {
        JsonModel::Object(o) => match member(o, subscriptions_key()) {
            None => Ok(seq![]),
            Some(JsonModel::Array(items)) => subscription_items(items),
            Some(_) => Err(SingboxError::ProvidersNotArray),
        },
        _ => Err(SingboxError::RootNotObject),
    }
}

/// A subscription as the template stores it.
pub open spec fn subscription_json(e: EntryModel) -> JsonModel {
    JsonModel::Object(seq![("name"@, JsonModel::String(e.name)), ("url"@, JsonModel::String(e.url))])
}

/// The template with its subscriptions array replaced by `es`.
pub open spec fn with_subscriptions(root: JsonModel, es: Seq<EntryModel>) -> Result<JsonModel, SingboxError> {
    match root {
        JsonModel::Object(o) => Ok(
            JsonModel::Object(
                with_member(o, subscriptions_key(), JsonModel::Array(es.map_values(|e: EntryModel| subscription_json(e)))),
            ),
        ),
        _ => Err(SingboxError::RootNotObject),
    }
}

pub open spec fn all_valid_entries(es: Seq<EntryModel>) -> bool {
    forall|i: int| 0 <= i < es.len() ==> valid_name(#[trigger] es[i].name) && valid_url(es[i].url)
}

proof fn lemma_with_member_member(o: Seq<(Seq<char>, JsonModel)>, key: Seq<char>, v: JsonModel)
    ensures
        member(with_member(o, key, v), key) == Some(v),
{
    lemma_member_index(o, key);
    let w = with_member(o, key, v);
    lemma_member_index(w, key);
    let i = member_index(o, key);
    if i < o.len() {
        assert(w[i].0 == key);
        if member_index(w, key) < i {
            assert(w[member_index(w, key)] == o[member_index(w, key)]);
        }
    } else {
        assert(w[o.len() as int].0 == key);
        if member_index(w, key) < o.len() {
            assert(w[member_index(w, key)] == o[member_index(w, key)]);
        }
    }
}

proof fn lemma_subscription_json_item(e: EntryModel, index: int)
    requires
        valid_name(e.name),
        valid_url(e.url),
    ensures
        subscription_item(subscription_json(e), index) == Ok::<EntryModel, SingboxError>(e),
{
    reveal_strlit("name");
    reveal_strlit("url");
    let o = match subscription_json(e) {
        JsonModel::Object(o) => o,
        _ => seq![],
    };
    assert("name"@.len() != "url"@.len());
    lemma_member_index(o, "name"@);
    lemma_member_index(o, "url"@);
    assert(member_index(o, "name"@) == 0);
    assert(member_index(o, "url"@) == 1);
}

proof fn lemma_items_read_back(es: Seq<EntryModel>)
    requires
        all_valid_entries(es),
    ensures
        subscription_items(es.map_values(|e: EntryModel| subscription_json(e))) == Ok::<Seq<EntryModel>, SingboxError>(es),
    decreases es.len(),
{
    let arr = es.map_values(|e: EntryModel| subscription_json(e));
    if es.len() > 0 {
        let q = es.drop_last();
        assert(all_valid_entries(q)) by {
            assert forall|i: int| 0 <= i < q.len() implies valid_name(#[trigger] q[i].name) && valid_url(q[i].url) by {
                assert(q[i] == es[i]);
            }
        }
        lemma_items_read_back(q);
        assert(arr.drop_last() =~= q.map_values(|e: EntryModel| subscription_json(e)));
        assert(valid_name(es[es.len() - 1].name));
        lemma_subscription_json_item(es.last(), arr.len() - 1);
        assert(es =~= q.push(es.last()));
    } else {
        assert(arr =~= seq![]);
        assert(es =~= seq![]);
    }
}

/// What is written reads back: the subscriptions of a template whose array
/// was replaced by valid entries `es` are `es`.
pub proof fn written_subscriptions_read_back(root: JsonModel, es: Seq<EntryModel>)
    requires
        root is Object,
        all_valid_entries(es),
    ensures
        subscriptions_of(with_subscriptions(root, es)->Ok_0) == Ok::<Seq<EntryModel>, SingboxError>(es),
{
    let o = match root {
        JsonModel::Object(o) => o,
        _ => seq![],
    };
    let arr = es.map_values(|e: EntryModel| subscription_json(e));
    lemma_with_member_member(o, subscriptions_key(), JsonModel::Array(arr));
    lemma_items_read_back(es);
}

proof fn lemma_items_valid(items: Seq<JsonModel>)
    requires
        subscription_items(items) is Ok,
    ensures
        all_valid_entries(subscription_items(items)->Ok_0),
    decreases items.len(),
{
    if items.len() > 0 {
        lemma_items_valid(items.drop_last());
        let es = subscription_items(items)->Ok_0;
        let q = subscription_items(items.drop_last())->Ok_0;
        assert forall|i: int| 0 <= i < es.len() implies valid_name(#[trigger] es[i].name) && valid_url(es[i].url) by {
            if i < q.len() {
                assert(es[i] == q[i]);
            }
        }
    }
}

proof fn lemma_subscriptions_valid(root: JsonModel)
    requires
        subscriptions_of(root) is Ok,
    ensures
        all_valid_entries(subscriptions_of(root)->Ok_0),
{
    match root {
        JsonModel::Object(o) => match member(o, subscriptions_key()) {
            Some(JsonModel::Array(items)) => lemma_items_valid(items),
            _ => {},
        },
        _ => {},
    }
}

proof fn lemma_valid_within(es: Seq<EntryModel>, fs: Seq<EntryModel>, new: EntryModel)
    requires
        all_valid_entries(es),
        valid_name(new.name),
        valid_url(new.url),
        forall|j: int| 0 <= j < fs.len() ==> #[trigger] fs[j] == new || es.contains(fs[j]),
    ensures
        all_valid_entries(fs),
{
    assert forall|j: int| 0 <= j < fs.len() implies valid_name(#[trigger] fs[j].name) && valid_url(fs[j].url) by {
        if fs[j] != new {
            assert(es.contains(fs[j]));
            let i = choose|i: int| 0 <= i < es.len() && es[i] == fs[j];
            assert(valid_name(es[i].name));
        }
    }
}

/// Listing after an upsert gives the upserted entries: the subscriptions of
/// the template that `upsert_singbox_subscription` writes are those of the
/// template with `new` in place of the first one named `current` (or added),
/// and no other one named `current` or `next`.
pub proof fn upserted_subscriptions_read_back(root: JsonModel, current: Seq<char>, next: Seq<char>, url: Seq<char>)
    requires
        root is Object,
        subscriptions_of(root) is Ok,
        valid_name(next),
        valid_url(url),
    ensures
        ({
            let up = upserted(
                subscriptions_of(root)->Ok_0,
                |e: EntryModel| e.name,
                current,
                next,
                EntryModel { name: next, url: url },
            );
            subscriptions_of(with_subscriptions(root, up)->Ok_0) == Ok::<Seq<EntryModel>, SingboxError>(up)
        }),
{
    let es = subscriptions_of(root)->Ok_0;
    let new = EntryModel { name: next, url: url };
    lemma_subscriptions_valid(root);
    lemma_upserted_within(es, |e: EntryModel| e.name, current, next, new);
    let up = upserted(es, |e: EntryModel| e.name, current, next, new);
    lemma_valid_within(es, up, new);
    written_subscriptions_read_back(root, up);
}

/// Listing after a removal gives the other entries, in order.
pub proof fn removed_subscriptions_read_back(root: JsonModel, name: Seq<char>)
    requires
        root is Object,
        subscriptions_of(root) is Ok,
    ensures
        ({
            let rest = removed(subscriptions_of(root)->Ok_0, |e: EntryModel| e.name, name);
            subscriptions_of(with_subscriptions(root, rest)->Ok_0) == Ok::<Seq<EntryModel>, SingboxError>(rest)
        }),
{
    let es = subscriptions_of(root)->Ok_0;
    lemma_subscriptions_valid(root);
    lemma_removed_within(es, |e: EntryModel| e.name, name);
    let rest = removed(es, |e: EntryModel| e.name, name);
    assert forall|j: int| 0 <= j < rest.len() implies valid_name(#[trigger] rest[j].name) && valid_url(rest[j].url) by {
        assert(es.contains(rest[j]));
        let i = choose|i: int| 0 <= i < es.len() && es[i] == rest[j];
        assert(valid_name(es[i].name));
    }
    written_subscriptions_read_back(root, rest);
}

proof fn lemma_with_member_twice(o: Seq<(Seq<char>, JsonModel)>, key: Seq<char>, v: JsonModel)
    ensures
        with_member(with_member(o, key, v), key, v) == with_member(o, key, v),
{
    let w = with_member(o, key, v);
    lemma_with_member_member(o, key, v);
    lemma_member_index(w, key);
    let i = member_index(w, key);
    assert(w[i] == (key, v));
    assert(w.update(i, (key, v)) =~= w);
}

/// Removing a subscription a second time leaves the template as the first
/// removal left it.
pub proof fn removing_a_subscription_twice_changes_nothing(root: JsonModel, name: Seq<char>)
    requires
        root is Object,
        subscriptions_of(root) is Ok,
    ensures
        ({
            let once = with_subscriptions(root, removed(subscriptions_of(root)->Ok_0, |e: EntryModel| e.name, name))->Ok_0;
            &&& subscriptions_of(once) is Ok
            &&& with_subscriptions(once, removed(subscriptions_of(once)->Ok_0, |e: EntryModel| e.name, name)) == Ok::<
                JsonModel,
                SingboxError,
            >(once)
        }),
{
    let es = subscriptions_of(root)->Ok_0;
    let rest = removed(es, |e: EntryModel| e.name, name);
    removed_subscriptions_read_back(root, name);
    removing_twice_is_removing_once(es, |e: EntryModel| e.name, name);
    let o = match root {
        JsonModel::Object(o) => o,
        _ => seq![],
    };
    lemma_with_member_twice(o, subscriptions_key(), JsonModel::Array(rest.map_values(|e: EntryModel| subscription_json(e))));
}

/// Writing the subscription list of a template, as an upsert or a removal does,
/// leaves every other member of the template as it was.
pub proof fn writing_subscriptions_keeps_other_members(root: JsonModel, xs: Seq<EntryModel>, k: Seq<char>)
    requires
        root is Object,
        k != subscriptions_key(),
    ensures
        member(with_subscriptions(root, xs)->Ok_0->Object_0, k) == member(root->Object_0, k),
{
    let o = root->Object_0;
    crate::json::lemma_with_member_other(o, subscriptions_key(), JsonModel::Array(xs.map_values(|x: EntryModel| subscription_json(x))), k);
}

proof fn lemma_items_err_prefix(items: Seq<JsonModel>, m: int)
    requires
        0 <= m <= items.len(),
        subscription_items(items.take(m)) is Err,
    ensures
        subscription_items(items) == subscription_items(items.take(m)),
    decreases items.len() - m,
{
    if m < items.len() {
        assert(items.take(m + 1).drop_last() =~= items.take(m));
        lemma_items_err_prefix(items, m + 1);
    } else {
        assert(items.take(m) =~= items);
    }
}

/// The subscriptions of the `box_subscriptions` array of a template.
pub fn parse_singbox_subscription_entries(root: &JsonValue) -> (r: Result<Vec<ProviderEntry>, SingboxError>)
    ensures
        match subscriptions_of(root@) {
            Ok(es) => r matches Ok(v) && entry_models(v@) == es,
            Err(e) => r == Err::<Vec<ProviderEntry>, SingboxError>(e),
        },
{
    let o = match root {
        JsonValue::Object(o) => o,
        _ => {
            return Err(SingboxError::RootNotObject);
        },
    };
    proof {
        lemma_object_model(*o);
    }
    let k = find_member(o, "box_subscriptions");
    if k >= o.len() {
        let v: Vec<ProviderEntry> = Vec::new();
        assert(entry_models(v@) =~= seq![]);
        return Ok(v);
    }
    let items = match &o[k].1 {
        JsonValue::Array(items) => items,
        _ => {
            return Err(SingboxError::ProvidersNotArray);
        },
    };
    proof {
        lemma_array_model(*items);
    }
    let ghost im = items_model(items@);
    assert(subscriptions_of(root@) == subscription_items(im)) by {
        assert(members_model(o@)[k as int].1 == JsonModel::Array(im));
    }
    let mut out: Vec<ProviderEntry> = Vec::new();
    let mut i: usize = 0;
    assert(im.take(0) =~= seq![]);
    assert(entry_models(out@) =~= seq![]);
    while i < items.len()
        invariant
            i <= items@.len(),
            im == items_model(items@),
            subscriptions_of(root@) == subscription_items(im),
            subscription_items(im.take(i as int)) == Ok::<Seq<EntryModel>, SingboxError>(entry_models(out@)),
        decreases items.len() - i,
    {
        assert(im.take(i + 1).drop_last() =~= im.take(i as int));
        assert(im.take(i + 1).last() == items@[i as int]@);
        let item = match &items[i] {
            JsonValue::Object(fields) => {
                proof {
                    lemma_object_model(*fields);
                }
                match get_member_str(fields, "name") {
                    None => Err(SingboxError::MissingName(i)),
                    Some(name) => match get_member_str(fields, "url") {
                        None => Err(SingboxError::MissingUrl(i)),
                        Some(url) => match validate_provider_name(name.as_str()) {
                            Err(e) => Err(SingboxError::Entry(e)),
                            Ok(()) => match validate_provider_url(url.as_str()) {
                                Err(e) => Err(SingboxError::Entry(e)),
                                Ok(()) => Ok(ProviderEntry { name: name, url: url }),
                            },
                        },
                    },
                }
            },
            _ => Err(SingboxError::ProviderNotObject(i)),
        };
        match item {
            Ok(x) => {
                let ghost before = entry_models(out@);
                assert(subscription_item(im[i as int], i as int) == Ok::<EntryModel, SingboxError>(x.model()));
                out.push(x);
                assert(entry_models(out@) =~= before.push(out@.last().model()));
            },
            Err(e) => {
                proof {
                    assert(subscription_item(im[i as int], i as int) == Err::<EntryModel, SingboxError>(e));
                    assert(subscription_items(im.take(i + 1)) == Err::<Seq<EntryModel>, SingboxError>(e));
                    lemma_items_err_prefix(im, i + 1);
                }
                return Err(e);
            },
        }
        i = i + 1;
    }
    assert(im.take(im.len() as int) =~= im);
    Ok(out)
}

fn subscription_to_json(e: &ProviderEntry) -> (r: JsonValue)
    ensures
        r@ == subscription_json(e.model()),
{
    let mut fields: Vec<(String, JsonValue)> = Vec::new();
    fields.push((string_from_chars(&chars_of("name")), JsonValue::String(e.name.clone())));
    fields.push((string_from_chars(&chars_of("url")), JsonValue::String(e.url.clone())));
    proof {
        let o = match subscription_json(e.model()) {
            JsonModel::Object(o) => o,
            _ => seq![],
        };
        let mm = members_model(fields@);
        assert(mm[0] == o[0]);
        assert(mm[1] == o[1]);
        lemma_object_model(fields);
        assert(members_model(fields@) =~= o);
    }
    JsonValue::Object(fields)
}

/// The template with its `box_subscriptions` array replaced by `entries`.
pub fn write_singbox_subscriptions(root: JsonValue, entries: &Vec<ProviderEntry>) -> (r: Result<JsonValue, SingboxError>)
    ensures
        match with_subscriptions(root@, entry_models(entries@)) {
            Ok(v) => r matches Ok(w) && w@ == v,
            Err(e) => r == Err::<JsonValue, SingboxError>(e),
        },
{
    let mut o = match root {
        JsonValue::Object(o) => o,
        _ => {
            return Err(SingboxError::RootNotObject);
        },
    };
    proof {
        lemma_object_model(o);
    }
    let mut items: Vec<JsonValue> = Vec::new();
    let mut i: usize = 0;
    let ghost em = entry_models(entries@);
    while i < entries.len()
        invariant
            i <= entries@.len(),
            em == entry_models(entries@),
            items_model(items@) == em.take(i as int).map_values(|e: EntryModel| subscription_json(e)),
        decreases entries.len() - i,
    {
        let ghost before = items_model(items@);
        let j = subscription_to_json(&entries[i]);
        items.push(j);
        assert(items_model(items@) =~= before.push(subscription_json(em[i as int])));
        assert(em.take(i + 1).map_values(|e: EntryModel| subscription_json(e)) =~= em.take(i as int).map_values(|e: EntryModel| subscription_json(e)).push(subscription_json(em[i as int])));
        i = i + 1;
    }
    assert(em.take(em.len() as int) =~= em);
    proof {
        lemma_array_model(items);
    }
    set_member(&mut o, "box_subscriptions", JsonValue::Array(items));
    proof {
        lemma_object_model(o);
    }
    Ok(JsonValue::Object(o))
}

/// The subscriptions of a sing-box template.
pub fn list_singbox_subscriptions(root: &JsonValue) -> (r: Result<Vec<ProviderEntry>, SingboxError>)
    ensures
        match subscriptions_of(root@) {
            Ok(es) => r matches Ok(v) && entry_models(v@) == es,
            Err(e) => r == Err::<Vec<ProviderEntry>, SingboxError>(e),
        },
{
    parse_singbox_subscription_entries(root)
}

/// Sets the subscription named `current_name` (default `next_name`) to
/// `next_name` and `url`, or adds it.
pub fn upsert_singbox_subscription(root: JsonValue, current_name: Option<&str>, next_name: &str, url: &str) -> (r: Result<JsonValue, SingboxError>)
    ensures
        !valid_name(next_name@) ==> r == Err::<JsonValue, SingboxError>(SingboxError::Entry(EntryError::InvalidName)),
        valid_name(next_name@) && !valid_url(url@) ==> r == Err::<JsonValue, SingboxError>(SingboxError::Entry(EntryError::EmptyUrl)),
        valid_name(next_name@) && valid_url(url@) && (current_name matches Some(c) && !valid_name(c@))
            ==> r == Err::<JsonValue, SingboxError>(SingboxError::Entry(EntryError::InvalidName)),
        valid_name(next_name@) && valid_url(url@) && !(current_name matches Some(c) && !valid_name(c@)) ==> match subscriptions_of(root@) {
            Err(e) => r == Err::<JsonValue, SingboxError>(e),
            Ok(es) => match with_subscriptions(
                root@,
                upserted(
                    es,
                    |e: EntryModel| e.name,
                    match current_name {
                        Some(c) => c@,
                        None => next_name@,
                    },
                    next_name@,
                    EntryModel { name: next_name@, url: url@ },
                ),
            ) {
                Ok(v) => r matches Ok(w) && w@ == v,
                Err(e) => r == Err::<JsonValue, SingboxError>(e),
            },
        },
{
    if let Err(e) = validate_provider_name(next_name) {
        return Err(SingboxError::Entry(e));
    }
    if let Err(e) = validate_provider_url(url) {
        return Err(SingboxError::Entry(e));
    }
    if let Some(c) = current_name {
        if let Err(e) = validate_provider_name(c) {
            return Err(SingboxError::Entry(e));
        }
    }
    let mut entries = match list_singbox_subscriptions(&root) {
        Ok(v) => v,
        Err(e) => {
            return Err(e);
        },
    };
    let current = match current_name {
        Some(c) => c,
        None => next_name,
    };
    upsert_entry(&mut entries, current, next_name, url);
    write_singbox_subscriptions(root, &entries)
}

/// Removes every subscription named `name`.
pub fn remove_singbox_subscription(root: JsonValue, name: &str) -> (r: Result<JsonValue, SingboxError>)
    ensures
        !valid_name(name@) ==> r == Err::<JsonValue, SingboxError>(SingboxError::Entry(EntryError::InvalidName)),
        valid_name(name@) ==> match subscriptions_of(root@) {
            Err(e) => r == Err::<JsonValue, SingboxError>(e),
            Ok(es) => match with_subscriptions(root@, removed(es, |e: EntryModel| e.name, name@)) {
                Ok(v) => r matches Ok(w) && w@ == v,
                Err(e) => r == Err::<JsonValue, SingboxError>(e),
            },
        },
{
    if let Err(e) = validate_provider_name(name) {
        return Err(SingboxError::Entry(e));
    }
    let mut entries = match list_singbox_subscriptions(&root) {
        Ok(v) => v,
        Err(e) => {
            return Err(e);
        },
    };
    remove_entry(&mut entries, name);
    write_singbox_subscriptions(root, &entries)
}

/// The subscriptions that a state text yields, applied one line after
/// another as upserts, or the first refused line.
pub open spec fn state_entries(results: Seq<Result<(Seq<char>, Seq<char>), StateError>>) -> Result<Seq<EntryModel>, StateError>
    decreases results.len(),
{
    if results.len() == 0 {
        Ok(seq![])
    } else {
        match state_entries(results.drop_last()) {
            Err(e) => Err(e),
            Ok(es) => match results.last() {
                Err(e) => Err(e),
                Ok((n, u)) => Ok(upserted(es, |e: EntryModel| e.name, n, n, EntryModel { name: n, url: u })),
            },
        }
    }
}

proof fn lemma_state_err_prefix(results: Seq<Result<(Seq<char>, Seq<char>), StateError>>, m: int)
    requires
        0 <= m <= results.len(),
        state_entries(results.take(m)) is Err,
    ensures
        state_entries(results) == state_entries(results.take(m)),
    decreases results.len() - m,
{
    if m < results.len() {
        assert(results.take(m + 1).drop_last() =~= results.take(m));
        lemma_state_err_prefix(results, m + 1);
    } else {
        assert(results.take(m) =~= results);
    }
}

/// Replaces the subscriptions of the template by those of a state text
/// (one `name<TAB>url` per line).
pub fn sync_singbox_subscriptions(root: JsonValue, state: &str) -> (r: Result<JsonValue, SingboxError>)
    ensures
        match state_entries(state_results(lines_of(state@))) {
            Err(e) => r == Err::<JsonValue, SingboxError>(SingboxError::State(e)),
            Ok(es) => match with_subscriptions(root@, es) {
                Ok(v) => r matches Ok(w) && w@ == v,
                Err(e) => r == Err::<JsonValue, SingboxError>(e),
            },
        },
{
    let results = parse_subscription_state(state);
    let ghost rs = results@.map_values(|x: Result<(String, String), StateError>| state_result_model(x));
    let mut entries: Vec<ProviderEntry> = Vec::new();
    let mut i: usize = 0;
    assert(rs.take(0) =~= seq![]);
    assert(entry_models(entries@) =~= seq![]);
    while i < results.len()
        invariant
            i <= results@.len(),
            rs == results@.map_values(|x: Result<(String, String), StateError>| state_result_model(x)),
            rs == state_results(lines_of(state@)),
            state_entries(rs.take(i as int)) == Ok::<Seq<EntryModel>, StateError>(entry_models(entries@)),
        decreases results.len() - i,
    {
        assert(rs.take(i + 1).drop_last() =~= rs.take(i as int));
        assert(rs.take(i + 1).last() == state_result_model(results@[i as int]));
        match &results[i] {
            Err(e) => {
                proof {
                    assert(state_entries(rs.take(i + 1)) == Err::<Seq<EntryModel>, StateError>(*e));
                    lemma_state_err_prefix(rs, i + 1);
                }
                return Err(SingboxError::State(*e));
            },
            Ok((n, u)) => {
                upsert_entry(&mut entries, n.as_str(), n.as_str(), u.as_str());
            },
        }
        i = i + 1;
    }
    assert(rs.take(rs.len() as int) =~= rs);
    write_singbox_subscriptions(root, &entries)
}

} // verus!
