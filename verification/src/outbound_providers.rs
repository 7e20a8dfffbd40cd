//! The subscription providers of a sing-box template, kept in its
//! `outbound_providers` array: `{tag, type, url, update_time}` objects.
use vstd::prelude::*;

use crate::entries::{
    first_entry_named, lemma_first_entry_named, lemma_removed_none_named, lemma_removed_within,
    lemma_upserted_within, remove_leaves_none_named, removing_twice_is_removing_once, not_named, parse_subscription_state, removed,
    state_result_model, state_results, kept_by_upsert, upserted, valid_name, valid_type, valid_url,
    validate_provider_name, validate_provider_type, validate_provider_url, EntryError,
    StateError,
};
use crate::json::{
    find_member, get_member_str, lemma_array_model, lemma_member_index, lemma_object_model,
    member, member_index, member_str, members_model, set_member, with_member, json_text,
    items_model, JsonModel, JsonValue,
};
use crate::outside::string_from_chars;
use crate::text::{chars_of, lines_of};

verus! {

/// Why a sing-box template's providers could not be read or written.
#[derive(Debug, Clone, PartialEq, Eq)]
pub enum SingboxError {
    /// The template's root is not an object.
    RootNotObject,
    /// The providers key holds something other than an array.
    ProvidersNotArray,
    /// The provider at this index is not an object.
    ProviderNotObject(usize),
    /// The provider at this index has no string `tag` (or `name`).
    MissingName(usize),
    /// The provider at this index has no string `url`.
    MissingUrl(usize),
    /// The provider at this index has no string `type`.
    MissingType(usize),
    /// A name, url or type was refused.
    Entry(EntryError),
    /// A line of the subscription state was refused.
    State(StateError),
}

/// A provider of a sing-box template.
#[derive(Debug, Clone, PartialEq, Eq)]
pub struct OutboundProvider {
    pub name: String,
    pub url: String,
    pub provider_type: Option<String>,
    pub update_time: Option<String>,
}

pub ghost struct ProviderModel {
    pub name: Seq<char>,
    pub url: Seq<char>,
    pub provider_type: Option<Seq<char>>,
    pub update_time: Option<Seq<char>>,
}

pub open spec fn opt_view(s: Option<String>) -> Option<Seq<char>> {
    match s {
        Some(t) => Some(t@),
        None => None,
    }
}

impl OutboundProvider {
    pub open spec fn model(&self) -> ProviderModel {
        ProviderModel {
            name: self.name@,
            url: self.url@,
            provider_type: opt_view(self.provider_type),
            update_time: opt_view(self.update_time),
        }
    }
}

pub open spec fn provider_models(ps: Seq<OutboundProvider>) -> Seq<ProviderModel> {
    Seq::new(ps.len(), |i: int| ps[i].model())
}

/// The key of the providers array.
pub open spec fn providers_key() -> Seq<char> {
    "outbound_providers"@
}

/// The provider at `index` of the array, or why it was refused.
pub open spec fn provider_item(item: JsonModel, index: int) -> Result<ProviderModel, SingboxError> {
    match item {
        JsonModel::Object(o) => match member_str(o, "tag"@) {
            None => Err(SingboxError::MissingName(index as usize)),
            Some(tag) => match member_str(o, "url"@) {
                None => Err(SingboxError::MissingUrl(index as usize)),
                Some(url) => match member_str(o, "type"@) {
                    None => Err(SingboxError::MissingType(index as usize)),
                    Some(ty) => if !valid_name(tag) {
                        Err(SingboxError::Entry(EntryError::InvalidName))
                    } else if !valid_url(url) {
                        Err(SingboxError::Entry(EntryError::EmptyUrl))
                    } else {
                        Ok(
                            ProviderModel {
                                name: tag,
                                url: url,
                                provider_type: Some(ty),
                                update_time: member_str(o, "update_time"@),
                            },
                        )
                    },
                },
            },
        },
        _ => Err(SingboxError::ProviderNotObject(index as usize)),
    }
}

/// The providers of the array, or the first refusal.
pub open spec fn provider_items(items: Seq<JsonModel>) -> Result<Seq<ProviderModel>, SingboxError>
    decreases items.len(),
{
    if items.len() == 0 {
        Ok(seq![])
    } else {
        match provider_items(items.drop_last()) {
            Err(e) => Err(e),
            Ok(ps) => match provider_item(items.last(), items.len() - 1) {
                Err(e) => Err(e),
                Ok(p) => Ok(ps.push(p)),
            },
        }
    }
}

/// The providers of a template: none where it has no providers key.
pub open spec fn providers_of(root: JsonModel) -> Result<Seq<ProviderModel>, SingboxError> {
    match root {
        JsonModel::Object(o) => match member(o, providers_key()) {
            None => Ok(seq![]),
            Some(JsonModel::Array(items)) => provider_items(items),
            Some(_) => Err(SingboxError::ProvidersNotArray),
        },
        _ => Err(SingboxError::RootNotObject),
    }
}

/// A provider as the template stores it; a missing type is written as
/// `remote` and a missing update time as the empty string.
pub open spec fn provider_json(p: ProviderModel) -> JsonModel {
    JsonModel::Object(
        seq![
            ("tag"@, JsonModel::String(p.name)),
            ("type"@, JsonModel::String(
                match p.provider_type {
                    Some(t) => t,
                    None => "remote"@,
                },
            )),
            ("url"@, JsonModel::String(p.url)),
            ("update_time"@, JsonModel::String(
                match p.update_time {
                    Some(t) => t,
                    None => seq![],
                },
            )),
        ],
    )
}

/// The template with its providers array replaced by `ps`.
pub open spec fn with_providers(root: JsonModel, ps: Seq<ProviderModel>) -> Result<JsonModel, SingboxError> {
    match root {
        JsonModel::Object(o) => Ok(
            JsonModel::Object(
                with_member(o, providers_key(), JsonModel::Array(ps.map_values(|p: ProviderModel| provider_json(p)))),
            ),
        ),
        _ => Err(SingboxError::RootNotObject),
    }
}

/// A provider as it reads back after being written: with its type and
/// update time filled in.
pub open spec fn filled(p: ProviderModel) -> ProviderModel {
    ProviderModel {
        name: p.name,
        url: p.url,
        provider_type: Some(
            match p.provider_type {
                Some(t) => t,
                None => "remote"@,
            },
        ),
        update_time: Some(
            match p.update_time {
                Some(t) => t,
                None => seq![],
            },
        ),
    }
}

pub open spec fn all_valid(ps: Seq<ProviderModel>) -> bool {
    forall|i: int| 0 <= i < ps.len() ==> valid_name(#[trigger] ps[i].name) && valid_url(ps[i].url)
}

proof fn lemma_with_member_member(o: Seq<(Seq<char>, JsonModel)>, key: Seq<char>, v: JsonModel)
    ensures
        member(with_member(o, key, v), key) == Some(v),
{
    lemma_member_index(o, key);
    let w = with_member(o, key, v);
    lemma_member_index(w, key);
    let i = member_index(o, key);
    if i < o.len() {
        assert(w[i].0 == key);
        if member_index(w, key) < i {
            assert(w[member_index(w, key)] == o[member_index(w, key)]);
        }
    } else {
        assert(w[o.len() as int].0 == key);
        if member_index(w, key) < o.len() {
            assert(w[member_index(w, key)] == o[member_index(w, key)]);
        }
    }
}

proof fn lemma_provider_json_item(p: ProviderModel, index: int)
    requires
        valid_name(p.name),
        valid_url(p.url),
    ensures
        provider_item(provider_json(p), index) == Ok::<ProviderModel, SingboxError>(filled(p)),
{
    reveal_strlit("tag");
    reveal_strlit("type");
    reveal_strlit("url");
    reveal_strlit("update_time");
    let o = match provider_json(p) {
        JsonModel::Object(o) => o,
        _ => seq![],
    };
    assert("tag"@.len() != "type"@.len());
    assert("tag"@[0] != "url"@[0]);
    assert("tag"@.len() != "update_time"@.len());
    assert("url"@.len() != "type"@.len());
    assert("url"@.len() != "update_time"@.len());
    assert("type"@.len() != "update_time"@.len());
    lemma_member_index(o, "tag"@);
    lemma_member_index(o, "url"@);
    lemma_member_index(o, "type"@);
    lemma_member_index(o, "update_time"@);
    assert(member_index(o, "tag"@) == 0);
    assert(member_index(o, "url"@) == 2);
    assert(member_index(o, "type"@) == 1);
    assert(member_index(o, "update_time"@) == 3);
}

/// What is written reads back: the providers of a template whose providers
/// array was replaced by `ps` are `ps`, with type and update time filled in.
pub proof fn written_providers_read_back(root: JsonModel, ps: Seq<ProviderModel>)
    requires
        root is Object,
        all_valid(ps),
    ensures
        providers_of(with_providers(root, ps)->Ok_0) == Ok::<Seq<ProviderModel>, SingboxError>(
            ps.map_values(|p: ProviderModel| filled(p)),
        ),
    decreases ps.len(),
{
    let o = match root {
        JsonModel::Object(o) => o,
        _ => seq![],
    };
    let arr = ps.map_values(|p: ProviderModel| provider_json(p));
    lemma_with_member_member(o, providers_key(), JsonModel::Array(arr));
    lemma_items_read_back(ps);
}

proof fn lemma_items_read_back(ps: Seq<ProviderModel>)
    requires
        all_valid(ps),
    ensures
        provider_items(ps.map_values(|p: ProviderModel| provider_json(p))) == Ok::<Seq<ProviderModel>, SingboxError>(
            ps.map_values(|p: ProviderModel| filled(p)),
        ),
    decreases ps.len(),
{
    let arr = ps.map_values(|p: ProviderModel| provider_json(p));
    if ps.len() > 0 {
        let q = ps.drop_last();
        assert(all_valid(q)) by {
            assert forall|i: int| 0 <= i < q.len() implies valid_name(#[trigger] q[i].name) && valid_url(q[i].url) by {
                assert(q[i] == ps[i]);
            }
        }
        lemma_items_read_back(q);
        assert(arr.drop_last() =~= q.map_values(|p: ProviderModel| provider_json(p)));
        assert(valid_name(ps[ps.len() - 1].name));
        lemma_provider_json_item(ps.last(), arr.len() - 1);
        assert(ps.map_values(|p: ProviderModel| filled(p)) =~= q.map_values(|p: ProviderModel| filled(p)).push(filled(ps.last())));
    } else {
        assert(arr =~= seq![]);
        assert(ps.map_values(|p: ProviderModel| filled(p)) =~= seq![]);
    }
}

proof fn lemma_provider_items_valid(items: Seq<JsonModel>)
    requires
        provider_items(items) is Ok,
    ensures
        all_valid(provider_items(items)->Ok_0),
    decreases items.len(),
{
    if items.len() > 0 {
        lemma_provider_items_valid(items.drop_last());
        let ps = provider_items(items)->Ok_0;
        let q = provider_items(items.drop_last())->Ok_0;
        assert forall|i: int| 0 <= i < ps.len() implies valid_name(#[trigger] ps[i].name) && valid_url(ps[i].url) by {
            if i < q.len() {
                assert(ps[i] == q[i]);
            }
        }
    }
}

proof fn lemma_providers_valid(root: JsonModel)
    requires
        providers_of(root) is Ok,
    ensures
        all_valid(providers_of(root)->Ok_0),
{
    match root {
        JsonModel::Object(o) => match member(o, providers_key()) {
            Some(JsonModel::Array(items)) => lemma_provider_items_valid(items),
            _ => {},
        },
        _ => {},
    }
}

proof fn lemma_all_valid_within(ps: Seq<ProviderModel>, fs: Seq<ProviderModel>, new: ProviderModel)
    requires
        all_valid(ps),
        valid_name(new.name),
        valid_url(new.url),
        forall|j: int| 0 <= j < fs.len() ==> #[trigger] fs[j] == new || ps.contains(fs[j]),
    ensures
        all_valid(fs),
{
    assert forall|j: int| 0 <= j < fs.len() implies valid_name(#[trigger] fs[j].name) && valid_url(fs[j].url) by {
        if fs[j] != new {
            assert(ps.contains(fs[j]));
            let i = choose|i: int| 0 <= i < ps.len() && ps[i] == fs[j];
            assert(valid_name(ps[i].name));
        }
    }
}

/// Listing after an upsert gives the upserted providers: the providers of
/// the template that `upsert_singbox_subscription` writes are those of the
/// template with the new provider in place of the first one named
/// `current` (or added), and no other one named `current` or `next`; each
/// with its type and update time filled in as written.
pub proof fn upserted_providers_read_back(
    root: JsonModel,
    current: Seq<char>,
    next: Seq<char>,
    url: Seq<char>,
    provider_type: Seq<char>,
    update_time: Option<Seq<char>>,
)
    requires
        root is Object,
        providers_of(root) is Ok,
        valid_name(next),
        valid_url(url),
    ensures
        ({
            let up = upserted(
                providers_of(root)->Ok_0,
                |p: ProviderModel| p.name,
                current,
                next,
                new_provider(next, url, provider_type, update_time),
            );
            providers_of(with_providers(root, up)->Ok_0) == Ok::<Seq<ProviderModel>, SingboxError>(
                up.map_values(|p: ProviderModel| filled(p)),
            )
        }),
{
    let ps = providers_of(root)->Ok_0;
    let new = new_provider(next, url, provider_type, update_time);
    lemma_providers_valid(root);
    lemma_upserted_within(ps, |p: ProviderModel| p.name, current, next, new);
    let up = upserted(ps, |p: ProviderModel| p.name, current, next, new);
    lemma_all_valid_within(ps, up, new);
    written_providers_read_back(root, up);
}

/// Listing after a removal gives the other providers, in order, each with
/// its type and update time filled in as written.
pub proof fn removed_providers_read_back(root: JsonModel, name: Seq<char>)
    requires
        root is Object,
        providers_of(root) is Ok,
    ensures
        ({
            let rest = removed(providers_of(root)->Ok_0, |p: ProviderModel| p.name, name);
            providers_of(with_providers(root, rest)->Ok_0) == Ok::<Seq<ProviderModel>, SingboxError>(
                rest.map_values(|p: ProviderModel| filled(p)),
            )
        }),
{
    let ps = providers_of(root)->Ok_0;
    lemma_providers_valid(root);
    lemma_removed_within(ps, |p: ProviderModel| p.name, name);
    let rest = removed(ps, |p: ProviderModel| p.name, name);
    assert forall|j: int| 0 <= j < rest.len() implies valid_name(#[trigger] rest[j].name) && valid_url(rest[j].url) by {
        assert(ps.contains(rest[j]));
        let i = choose|i: int| 0 <= i < ps.len() && ps[i] == rest[j];
        assert(valid_name(ps[i].name));
    }
    written_providers_read_back(root, rest);
}

proof fn lemma_filled_json(p: ProviderModel)
    ensures
        provider_json(filled(p)) == provider_json(p),
{
    let t = match p.provider_type {
        Some(t) => t,
        None => "remote"@,
    };
    let u = match p.update_time {
        Some(t) => t,
        None => seq![],
    };
    let f = filled(p);
    assert(f.provider_type == Some(t));
    assert(f.update_time == Some(u));
    let of = match provider_json(f) {
        JsonModel::Object(o) => o,
        _ => seq![],
    };
    let op = match provider_json(p) {
        JsonModel::Object(o) => o,
        _ => seq![],
    };
    assert(of.len() == 4 && op.len() == 4);
    assert(of[1] == op[1]);
    assert(of[3] == op[3]);
    assert(of =~= op);
}

proof fn lemma_with_member_twice(o: Seq<(Seq<char>, JsonModel)>, key: Seq<char>, v: JsonModel)
    ensures
        with_member(with_member(o, key, v), key, v) == with_member(o, key, v),
{
    let w = with_member(o, key, v);
    lemma_with_member_member(o, key, v);
    lemma_member_index(w, key);
    let i = member_index(w, key);
    assert(w[i] == (key, v));
    assert(w.update(i, (key, v)) =~= w);
}

/// Removing a provider a second time leaves the template as the first
/// removal left it.
pub proof fn removing_a_provider_twice_changes_nothing(root: JsonModel, name: Seq<char>)
    requires
        root is Object,
        providers_of(root) is Ok,
    ensures
        ({
            let once = with_providers(root, removed(providers_of(root)->Ok_0, |p: ProviderModel| p.name, name))->Ok_0;
            &&& providers_of(once) is Ok
            &&& with_providers(once, removed(providers_of(once)->Ok_0, |p: ProviderModel| p.name, name)) == Ok::<
                JsonModel,
                SingboxError,
            >(once)
        }),
{
    let ps = providers_of(root)->Ok_0;
    let rest = removed(ps, |p: ProviderModel| p.name, name);
    removed_providers_read_back(root, name);
    let back = rest.map_values(|p: ProviderModel| filled(p));
    remove_leaves_none_named(ps, |p: ProviderModel| p.name, name);
    assert forall|j: int| 0 <= j < back.len() implies (|p: ProviderModel| p.name)(#[trigger] back[j]) != name by {
        assert(back[j].name == rest[j].name);
    }
    lemma_removed_none_named(back, |p: ProviderModel| p.name, name);
    let arr = rest.map_values(|p: ProviderModel| provider_json(p));
    let arr2 = back.map_values(|p: ProviderModel| provider_json(p));
    assert(arr2 =~= arr) by {
        assert forall|j: int| 0 <= j < arr2.len() implies #[trigger] arr2[j] == arr[j] by {
            let p = rest[j];
            assert(back[j] == filled(p));
            assert(arr2[j] == provider_json(back[j]));
            assert(arr[j] == provider_json(p));
            lemma_filled_json(p);
        }
    }
    let o = match root {
        JsonModel::Object(o) => o,
        _ => seq![],
    };
    lemma_with_member_twice(o, providers_key(), JsonModel::Array(arr));
}

fn opt_string(s: &Option<String>) -> (r: Option<String>)
    ensures
        opt_view(r) == opt_view(*s),
{
    match s {
        Some(t) => Some(t.clone()),
        None => None,
    }
}

/// The providers of the `outbound_providers` array of a template.
pub fn parse_singbox_provider_entries(root: &JsonValue) -> (r: Result<Vec<OutboundProvider>, SingboxError>)
    ensures
        match providers_of(root@) {
            Ok(ps) => r matches Ok(v) && provider_models(v@) == ps,
            Err(e) => r == Err::<Vec<OutboundProvider>, SingboxError>(e),
        },
{
    let o = match root {
        JsonValue::Object(o) => o,
        _ => {
            return Err(SingboxError::RootNotObject);
        },
    };
    proof {
        lemma_object_model(*o);
    }
    let k = find_member(o, "outbound_providers");
    if k >= o.len() {
        let v: Vec<OutboundProvider> = Vec::new();
        assert(provider_models(v@) =~= seq![]);
        return Ok(v);
    }
    let items = match &o[k].1 {
        JsonValue::Array(items) => items,
        _ => {
            return Err(SingboxError::ProvidersNotArray);
        },
    };
    proof {
        lemma_array_model(*items);
    }
    let ghost im = items_model(items@);
    assert(providers_of(root@) == provider_items(im)) by {
        assert(members_model(o@)[k as int].1 == JsonModel::Array(im));
    }
    let mut out: Vec<OutboundProvider> = Vec::new();
    let mut i: usize = 0;
    assert(im.take(0) =~= seq![]);
    assert(provider_models(out@) =~= seq![]);
    while i < items.len()
        invariant
            i <= items@.len(),
            im == items_model(items@),
            providers_of(root@) == provider_items(im),
            provider_items(im.take(i as int)) == Ok::<Seq<ProviderModel>, SingboxError>(provider_models(out@)),
        decreases items.len() - i,
    {
        assert(im.take(i + 1).drop_last() =~= im.take(i as int));
        assert(im.take(i + 1).last() == items@[i as int]@);
        let item = match &items[i] {
            JsonValue::Object(fields) => {
                proof {
                    lemma_object_model(*fields);
                }
                match get_member_str(fields, "tag") {
                    None => Err(SingboxError::MissingName(i)),
                    Some(tag) => match get_member_str(fields, "url") {
                        None => Err(SingboxError::MissingUrl(i)),
                        Some(url) => match get_member_str(fields, "type") {
                            None => Err(SingboxError::MissingType(i)),
                            Some(ty) => match validate_provider_name(tag.as_str()) {
                                Err(e) => Err(SingboxError::Entry(e)),
                                Ok(()) => match validate_provider_url(url.as_str()) {
                                    Err(e) => Err(SingboxError::Entry(e)),
                                    Ok(()) => Ok(
                                        OutboundProvider {
                                            name: tag,
                                            url: url,
                                            provider_type: Some(ty),
                                            update_time: get_member_str(fields, "update_time"),
                                        },
                                    ),
                                },
                            },
                        },
                    },
                }
            },
            _ => Err(SingboxError::ProviderNotObject(i)),
        };
        match item {
            Ok(p) => {
                let ghost before = provider_models(out@);
                assert(provider_item(im[i as int], i as int) == Ok::<ProviderModel, SingboxError>(p.model()));
                out.push(p);
                assert(provider_models(out@) =~= before.push(out@.last().model()));
            },
            Err(e) => {
                proof {
                    assert(provider_item(im[i as int], i as int) == Err::<ProviderModel, SingboxError>(e));
                    assert(provider_items(im.take(i + 1)) == Err::<Seq<ProviderModel>, SingboxError>(e));
                    lemma_items_err_prefix(im, i + 1);
                }
                return Err(e);
            },
        }
        i = i + 1;
    }
    assert(im.take(im.len() as int) =~= im);
    Ok(out)
}

/// Writing the provider list of a template, as an upsert or a removal does,
/// leaves every other member of the template as it was.
pub proof fn writing_providers_keeps_other_members(root: JsonModel, xs: Seq<ProviderModel>, k: Seq<char>)
    requires
        root is Object,
        k != providers_key(),
    ensures
        member(with_providers(root, xs)->Ok_0->Object_0, k) == member(root->Object_0, k),
{
    let o = root->Object_0;
    crate::json::lemma_with_member_other(o, providers_key(), JsonModel::Array(xs.map_values(|x: ProviderModel| provider_json(x))), k);
}

proof fn lemma_items_err_prefix(items: Seq<JsonModel>, m: int)
    requires
        0 <= m <= items.len(),
        provider_items(items.take(m)) is Err,
    ensures
        provider_items(items) == provider_items(items.take(m)),
    decreases items.len() - m,
{
    if m < items.len() {
        assert(items.take(m + 1).drop_last() =~= items.take(m));
        lemma_items_err_prefix(items, m + 1);
    } else {
        assert(items.take(m) =~= items);
    }
}

fn provider_to_json(p: &OutboundProvider) -> (r: JsonValue)
    ensures
        r@ == provider_json(p.model()),
{
    let mut fields: Vec<(String, JsonValue)> = Vec::new();
    fields.push((string_from_chars(&chars_of("tag")), JsonValue::String(p.name.clone())));
    let t = match &p.provider_type {
        Some(t) => JsonValue::String(t.clone()),
        None => json_text("remote"),
    };
    fields.push((string_from_chars(&chars_of("type")), t));
    fields.push((string_from_chars(&chars_of("url")), JsonValue::String(p.url.clone())));
    let u = match &p.update_time {
        Some(t) => JsonValue::String(t.clone()),
        None => JsonValue::String(String::new()),
    };
    fields.push((string_from_chars(&chars_of("update_time")), u));
    proof {
        let o = match provider_json(p.model()) {
            JsonModel::Object(o) => o,
            _ => seq![],
        };
        let mm = members_model(fields@);
        assert(mm.len() == 4);
        assert(mm[0] == o[0]);
        assert(mm[1] == o[1]);
        assert(mm[2] == o[2]);
        assert(mm[3] == o[3]);
        lemma_object_model(fields);
        assert(members_model(fields@) =~= match provider_json(p.model()) {
            JsonModel::Object(o) => o,
            _ => seq![],
        });
    }
    JsonValue::Object(fields)
}

/// The template with its `outbound_providers` array replaced by `entries`.
pub fn write_singbox_providers(root: JsonValue, entries: &Vec<OutboundProvider>) -> (r: Result<JsonValue, SingboxError>)
    ensures
        match with_providers(root@, provider_models(entries@)) {
            Ok(v) => r matches Ok(w) && w@ == v,
            Err(e) => r == Err::<JsonValue, SingboxError>(e),
        },
{
    let ghost rm = root@;
    let mut o = match root {
        JsonValue::Object(o) => o,
        _ => {
            return Err(SingboxError::RootNotObject);
        },
    };
    proof {
        lemma_object_model(o);
    }
    let ghost om = members_model(o@);
    let mut items: Vec<JsonValue> = Vec::new();
    let mut i: usize = 0;
    let ghost pm = provider_models(entries@);
    while i < entries.len()
        invariant
            i <= entries@.len(),
            pm == provider_models(entries@),
            items_model(items@) == pm.take(i as int).map_values(|p: ProviderModel| provider_json(p)),
        decreases entries.len() - i,
    {
        let ghost before = items_model(items@);
        let j = provider_to_json(&entries[i]);
        items.push(j);
        assert(items_model(items@) =~= before.push(provider_json(pm[i as int])));
        assert(pm.take(i + 1).map_values(|p: ProviderModel| provider_json(p)) =~= pm.take(i as int).map_values(|p: ProviderModel| provider_json(p)).push(provider_json(pm[i as int])));
        i = i + 1;
    }
    assert(pm.take(pm.len() as int) =~= pm);
    proof {
        lemma_array_model(items);
    }
    set_member(&mut o, "outbound_providers", JsonValue::Array(items));
    proof {
        lemma_object_model(o);
    }
    Ok(JsonValue::Object(o))
}

/// The providers of a sing-box template.
pub fn list_singbox_subscriptions(root: &JsonValue) -> (r: Result<Vec<OutboundProvider>, SingboxError>)
    ensures
        match providers_of(root@) {
            Ok(ps) => r matches Ok(v) && provider_models(v@) == ps,
            Err(e) => r == Err::<Vec<OutboundProvider>, SingboxError>(e),
        },
{
    parse_singbox_provider_entries(root)
}

/// The new provider of an upsert.
pub open spec fn new_provider(next: Seq<char>, url: Seq<char>, provider_type: Seq<char>, update_time: Option<Seq<char>>) -> ProviderModel {
    ProviderModel { name: next, url: url, provider_type: Some(provider_type), update_time: update_time }
}

/// Puts the provider `new` (named `next_name`) in the place of the first
/// provider named `current_name`, as `upserted` states.
pub fn upsert_provider(
    entries: &mut Vec<OutboundProvider>,
    current_name: &str,
    next_name: &str,
    url: &str,
    provider_type: &str,
    update_time: &Option<String>,
)
    ensures
        provider_models(final(entries)@) == upserted(
            provider_models(old(entries)@),
            |p: ProviderModel| p.name,
            current_name@,
            next_name@,
            new_provider(next_name@, url@, provider_type@, opt_view(*update_time)),
        ),
{
    let ghost es = provider_models(entries@);
    let ghost name_of = |p: ProviderModel| p.name;
    let ghost new = new_provider(next_name@, url@, provider_type@, opt_view(*update_time));
    let ghost keep = kept_by_upsert(name_of, current_name@, next_name@);
    let cur_s = string_from_chars(&chars_of(current_name));
    let next_s = string_from_chars(&chars_of(next_name));
    let url_s = string_from_chars(&chars_of(url));
    let type_s = string_from_chars(&chars_of(provider_type));
    let same = cur_s == next_s;
    let mut updated = false;
    let ghost mut k: int = 0;
    let mut out: Vec<OutboundProvider> = Vec::new();
    let mut i: usize = 0;
    proof {
        lemma_first_entry_named(es, name_of, current_name@);
    }
    while i < entries.len()
        invariant
            i <= entries@.len(),
            es == provider_models(entries@),
            cur_s@ == current_name@,
            next_s@ == next_name@,
            url_s@ == url@,
            type_s@ == provider_type@,
            same == (current_name@ == next_name@),
            new == new_provider(next_name@, url@, provider_type@, opt_view(*update_time)),
            keep == kept_by_upsert(name_of, current_name@, next_name@),
            name_of == (|p: ProviderModel| p.name),
            0 <= first_entry_named(es, name_of, current_name@) <= es.len(),
            forall|j: int| 0 <= j < first_entry_named(es, name_of, current_name@) ==> es[j].name != current_name@,
            first_entry_named(es, name_of, current_name@) < es.len() ==> es[first_entry_named(es, name_of, current_name@)].name == current_name@,
            !updated ==> i <= first_entry_named(es, name_of, current_name@),
            !updated ==> provider_models(out@) == es.take(i as int).filter(keep),
            updated ==> k == first_entry_named(es, name_of, current_name@) && k < i,
            updated ==> provider_models(out@) == es.take(k).filter(keep) + seq![new] + es.subrange(k + 1, i as int).filter(keep),
        decreases entries.len() - i,
    {
        let ghost before = provider_models(out@);
        let e = &entries[i];
        assert(es[i as int] == e.model());
        assert(es.take(i + 1) =~= es.take(i as int).push(es[i as int]));
        if e.name == cur_s {
            if !updated {
                out.push(OutboundProvider {
                    name: next_s.clone(),
                    url: url_s.clone(),
                    provider_type: Some(type_s.clone()),
                    update_time: opt_string(update_time),
                });
                proof {
                    k = i as int;
                    assert(provider_models(out@) =~= before.push(new));
                    es.take(i as int).lemma_filter_push(es[i as int], keep);
                    assert(es.subrange(k + 1, i + 1) =~= Seq::<ProviderModel>::empty());
                    assert(Seq::<ProviderModel>::empty().filter(keep) =~= Seq::<ProviderModel>::empty()) by {
                        reveal(Seq::filter);
                    }
                    assert(provider_models(out@) =~= es.take(k).filter(keep) + seq![new] + es.subrange(k + 1, i + 1).filter(keep));
                }
                updated = true;
            } else {
                proof {
                    assert(es.subrange(k + 1, i + 1) =~= es.subrange(k + 1, i as int).push(es[i as int]));
                    es.subrange(k + 1, i as int).lemma_filter_push(es[i as int], keep);
                }
            }
        } else if !same && e.name == next_s {
            proof {
                if updated {
                    assert(es.subrange(k + 1, i + 1) =~= es.subrange(k + 1, i as int).push(es[i as int]));
                    es.subrange(k + 1, i as int).lemma_filter_push(es[i as int], keep);
                } else {
                    es.take(i as int).lemma_filter_push(es[i as int], keep);
                    if i as int == first_entry_named(es, name_of, current_name@) {
                        assert(false);
                    }
                }
            }
        } else {
            out.push(OutboundProvider {
                name: e.name.clone(),
                url: e.url.clone(),
                provider_type: opt_string(&e.provider_type),
                update_time: opt_string(&e.update_time),
            });
            proof {
                assert(provider_models(out@) =~= before.push(es[i as int]));
                assert(keep(es[i as int]));
                if updated {
                    assert(es.subrange(k + 1, i + 1) =~= es.subrange(k + 1, i as int).push(es[i as int]));
                    es.subrange(k + 1, i as int).lemma_filter_push(es[i as int], keep);
                } else {
                    es.take(i as int).lemma_filter_push(es[i as int], keep);
                    if i as int == first_entry_named(es, name_of, current_name@) {
                        assert(false);
                    }
                }
            }
        }
        i = i + 1;
    }
    if !updated {
        let ghost before = provider_models(out@);
        out.push(OutboundProvider {
            name: next_s,
            url: url_s,
            provider_type: Some(type_s),
            update_time: opt_string(update_time),
        });
        proof {
            assert(provider_models(out@) =~= before.push(new));
            assert(es.take(es.len() as int) =~= es);
        }
    } else {
        proof {
            assert(es.subrange(k + 1, es.len() as int) =~= es.skip(k + 1));
        }
    }
    assert(provider_models(out@) =~= upserted(es, name_of, current_name@, next_name@, new));
    *entries = out;
}

/// The outcome of an upsert on a template: the template with the provider
/// set, or the first refusal.
pub open spec fn upsert_result(
    root: JsonModel,
    current: Option<Seq<char>>,
    next: Seq<char>,
    url: Seq<char>,
    provider_type: Seq<char>,
    update_time: Option<Seq<char>>,
) -> Result<JsonModel, SingboxError> {
    if !valid_name(next) {
        Err(SingboxError::Entry(EntryError::InvalidName))
    } else if !valid_url(url) {
        Err(SingboxError::Entry(EntryError::EmptyUrl))
    } else if !valid_type(provider_type) {
        Err(SingboxError::Entry(EntryError::InvalidType))
    } else if current matches Some(c) && !valid_name(c) {
        Err(SingboxError::Entry(EntryError::InvalidName))
    } else {
        match providers_of(root) {
            Err(e) => Err(e),
            Ok(ps) => with_providers(
                root,
                upserted(
                    ps,
                    |p: ProviderModel| p.name,
                    match current {
                        Some(c) => c,
                        None => next,
                    },
                    next,
                    new_provider(next, url, provider_type, update_time),
                ),
            ),
        }
    }
}

pub open spec fn opt_str_view(s: Option<&str>) -> Option<Seq<char>> {
    match s {
        Some(t) => Some(t@),
        None => None,
    }
}

/// Sets the provider named `current_name` (default `next_name`) to
/// `next_name`, `url`, `provider_type` and `update_time`, or adds it.
pub fn upsert_singbox_subscription(
    root: JsonValue,
    current_name: Option<&str>,
    next_name: &str,
    url: &str,
    provider_type: &str,
    update_time: Option<String>,
) -> (r: Result<JsonValue, SingboxError>)
    ensures
        match upsert_result(root@, opt_str_view(current_name), next_name@, url@, provider_type@, opt_view(update_time)) {
            Ok(v) => r matches Ok(w) && w@ == v,
            Err(e) => r == Err::<JsonValue, SingboxError>(e),
        },
{
    if let Err(e) = validate_provider_name(next_name) {
        return Err(SingboxError::Entry(e));
    }
    if let Err(e) = validate_provider_url(url) {
        return Err(SingboxError::Entry(e));
    }
    if let Err(e) = validate_provider_type(provider_type) {
        return Err(SingboxError::Entry(e));
    }
    if let Some(c) = current_name {
        if let Err(e) = validate_provider_name(c) {
            return Err(SingboxError::Entry(e));
        }
    }
    let mut entries = match list_singbox_subscriptions(&root) {
        Ok(v) => v,
        Err(e) => {
            return Err(e);
        },
    };
    let current = match current_name {
        Some(c) => c,
        None => next_name,
    };
    upsert_provider(&mut entries, current, next_name, url, provider_type, &update_time);
    write_singbox_providers(root, &entries)
}

/// Removes every provider named `name`.
pub fn remove_singbox_subscription(root: JsonValue, name: &str) -> (r: Result<JsonValue, SingboxError>)
    ensures
        !valid_name(name@) ==> r == Err::<JsonValue, SingboxError>(SingboxError::Entry(EntryError::InvalidName)),
        valid_name(name@) ==> match providers_of(root@) {
            Err(e) => r == Err::<JsonValue, SingboxError>(e),
            Ok(ps) => match with_providers(root@, removed(ps, |p: ProviderModel| p.name, name@)) {
                Ok(v) => r matches Ok(w) && w@ == v,
                Err(e) => r == Err::<JsonValue, SingboxError>(e),
            },
        },
{
    if let Err(e) = validate_provider_name(name) {
        return Err(SingboxError::Entry(e));
    }
    let entries = match list_singbox_subscriptions(&root) {
        Ok(v) => v,
        Err(e) => {
            return Err(e);
        },
    };
    let ghost es = provider_models(entries@);
    let ghost p = not_named(|q: ProviderModel| q.name, name@);
    let name_s = string_from_chars(&chars_of(name));
    let mut out: Vec<OutboundProvider> = Vec::new();
    let mut i: usize = 0;
    while i < entries.len()
        invariant
            i <= entries@.len(),
            es == provider_models(entries@),
            name_s@ == name@,
            p == not_named(|q: ProviderModel| q.name, name@),
            provider_models(out@) == es.take(i as int).filter(p),
        decreases entries.len() - i,
    {
        let ghost before = provider_models(out@);
        let e = &entries[i];
        assert(es[i as int] == e.model());
        assert(es.take(i + 1) =~= es.take(i as int).push(es[i as int]));
        proof {
            es.take(i as int).lemma_filter_push(es[i as int], p);
        }
        if e.name != name_s {
            out.push(OutboundProvider {
                name: e.name.clone(),
                url: e.url.clone(),
                provider_type: opt_string(&e.provider_type),
                update_time: opt_string(&e.update_time),
            });
            assert(provider_models(out@) =~= before.push(es[i as int]));
        }
        i = i + 1;
    }
    assert(es.take(es.len() as int) =~= es);
    write_singbox_providers(root, &out)
}

/// The providers that a subscription state yields, applied one line after
/// another as upserts of `remote` providers, or the first refused line.
pub open spec fn state_providers(results: Seq<Result<(Seq<char>, Seq<char>), StateError>>) -> Result<Seq<ProviderModel>, StateError>
    decreases results.len(),
{
    if results.len() == 0 {
        Ok(seq![])
    } else {
        match state_providers(results.drop_last()) {
            Err(e) => Err(e),
            Ok(ps) => match results.last() {
                Err(e) => Err(e),
                Ok((n, u)) => Ok(upserted(ps, |p: ProviderModel| p.name, n, n, new_provider(n, u, "remote"@, None))),
            },
        }
    }
}

proof fn lemma_state_err_prefix(results: Seq<Result<(Seq<char>, Seq<char>), StateError>>, m: int)
    requires
        0 <= m <= results.len(),
        state_providers(results.take(m)) is Err,
    ensures
        state_providers(results) == state_providers(results.take(m)),
    decreases results.len() - m,
{
    if m < results.len() {
        assert(results.take(m + 1).drop_last() =~= results.take(m));
        lemma_state_err_prefix(results, m + 1);
    } else {
        assert(results.take(m) =~= results);
    }
}

/// Replaces the providers of the template by those of a subscription state
/// text (one `name<TAB>url` per line, all `remote`).
pub fn sync_singbox_subscriptions(root: JsonValue, state: &str) -> (r: Result<JsonValue, SingboxError>)
    ensures
        match state_providers(state_results(lines_of(state@))) {
            Err(e) => r == Err::<JsonValue, SingboxError>(SingboxError::State(e)),
            Ok(ps) => match with_providers(root@, ps) {
                Ok(v) => r matches Ok(w) && w@ == v,
                Err(e) => r == Err::<JsonValue, SingboxError>(e),
            },
        },
{
    let results = parse_subscription_state(state);
    let ghost rs = results@.map_values(|x: Result<(String, String), StateError>| state_result_model(x));
    let mut entries: Vec<OutboundProvider> = Vec::new();
    let mut i: usize = 0;
    assert(rs.take(0) =~= seq![]);
    assert(provider_models(entries@) =~= seq![]);
    while i < results.len()
        invariant
            i <= results@.len(),
            rs == results@.map_values(|x: Result<(String, String), StateError>| state_result_model(x)),
            rs == state_results(lines_of(state@)),
            state_providers(rs.take(i as int)) == Ok::<Seq<ProviderModel>, StateError>(provider_models(entries@)),
        decreases results.len() - i,
    {
        assert(rs.take(i + 1).drop_last() =~= rs.take(i as int));
        assert(rs.take(i + 1).last() == state_result_model(results@[i as int]));
        match &results[i] {
            Err(e) => {
                proof {
                    assert(state_providers(rs.take(i + 1)) == Err::<Seq<ProviderModel>, StateError>(*e));
                    lemma_state_err_prefix(rs, i + 1);
                }
                return Err(SingboxError::State(*e));
            },
            Ok((n, u)) => {
                upsert_provider(&mut entries, n.as_str(), n.as_str(), u.as_str(), "remote", &None);
            },
        }
        i = i + 1;
    }
    assert(rs.take(rs.len() as int) =~= rs);
    write_singbox_providers(root, &entries)
}

} // verus!
