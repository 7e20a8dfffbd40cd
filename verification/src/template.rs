//! Building a sing-box config from a template: the subscriptions' nodes
//! become outbounds, and template groups (`include`, `filter`,
//! `exclude_filter`) get the tags of the nodes they select.
use vstd::prelude::*;

use crate::convert::fields::{opt_strings_view, strings_view};
use crate::convert::object::Members;
use crate::input::utils::{contains_text, has_text};
use crate::convert::{render_outbounds, render_warnings, rendered_outbounds, RenderedOutbounds};
use crate::input::{input_result_view, nodes_view, warnings_view, InputError, InputModel, NodeModel, ParsedInput, ProxyNode, Warning, WarningModel};
use crate::json::{
    find_member, get_member_str, items_model, lemma_array_model, lemma_object_model, member, member_str,
    members_model, remove_member, with_member, without_member, JsonModel, JsonValue,
};
use crate::outside::{compile_pattern, opt_text_view, pattern_matches, regex_compiles, regex_matches, CompiledPattern};
use crate::text::{chars_of, push_all, string_of_chars};

verus! {

/// A character that a cache file name keeps as it is.
pub open spec fn file_safe(c: char) -> bool {
    ||| 'A' <= c <= 'Z'
    ||| 'a' <= c <= 'z'
    ||| '0' <= c <= '9'
    ||| c == '.'
    ||| c == '_'
    ||| c == '-'
}

/// A name with each run of other characters replaced by one `_`, and
/// whether it ends in such a replacement.
pub open spec fn encode_name(s: Seq<char>) -> (Seq<char>, bool)
    decreases s.len(),
{
    if s.len() == 0 {
        (seq![], false)
    } else {
        let (o, squeezed) = encode_name(s.drop_last());
        let c = s.last();
        if file_safe(c) {
            (o.push(c), false)
        } else if !squeezed {
            (o.push('_'), true)
        } else {
            (o, true)
        }
    }
}

/// The cache file name of a subscription: its encoded name (`_` where that
/// is empty) and `.txt`.
pub open spec fn cache_file_name(name: Seq<char>) -> Seq<char> {
    let e = encode_name(name).0;
    (if e.len() == 0 {
        seq!['_']
    } else {
        e
    }) + ".txt"@
}

/// `file` in directory `dir`, as `Path::join` puts a relative name.
pub open spec fn join_path(dir: Seq<char>, file: Seq<char>) -> Seq<char> {
    if dir.len() == 0 {
        file
    } else if dir.last() == '/' {
        dir + file
    } else {
        dir + seq!['/'] + file
    }
}

fn is_file_safe(c: char) -> (r: bool)
    ensures
        r == file_safe(c),
{
    (c >= 'A' && c <= 'Z') || (c >= 'a' && c <= 'z') || (c >= '0' && c <= '9') || c == '.' || c == '_' || c == '-'
}

/// The path of the cache file of subscription `name` in
/// `subscriptions_dir`: the name with each run of characters other than
/// ASCII letters, digits, `.`, `_` and `-` squeezed to one `_`.
pub fn subscription_cache_file(subscriptions_dir: &str, name: &str) -> (r: String)
    ensures
        r@ == join_path(subscriptions_dir@, cache_file_name(name@)),
{
    let s = chars_of(name);
    let mut encoded: Vec<char> = Vec::new();
    let mut squeezed = false;
    let mut i: usize = 0;
    assert(s@.take(0) =~= Seq::<char>::empty());
    while i < s.len()
        invariant
            i <= s@.len(),
            (encoded@, squeezed) == encode_name(s@.take(i as int)),
        decreases s.len() - i,
    {
        assert(s@.take(i + 1).drop_last() =~= s@.take(i as int));
        assert(s@.take(i + 1).last() == s@[i as int]);
        let c = s[i];
        if is_file_safe(c) {
            encoded.push(c);
            squeezed = false;
        } else if !squeezed {
            encoded.push('_');
            squeezed = true;
        }
        i = i + 1;
    }
    assert(s@.take(s@.len() as int) =~= s@);
    if encoded.len() == 0 {
        encoded.push('_');
    }
    push_all(&mut encoded, &chars_of(".txt"));
    let file = encoded;
    let dir = chars_of(subscriptions_dir);
    let mut out = chars_of(subscriptions_dir);
    if dir.len() > 0 && dir[dir.len() - 1] != '/' {
        out.push('/');
    }
    push_all(&mut out, &file);
    proof {
        if dir@.len() > 0 {
            assert(dir@.last() == dir@[dir@.len() - 1]);
        }
    }
    assert(out@ =~= join_path(subscriptions_dir@, cache_file_name(name@)));
    string_of_chars(&out)
}

/// The texts that mark a subscription's metadata pseudo-nodes (traffic
/// left, next reset, expiry, notices).
pub open spec fn metadata_markers() -> Seq<Seq<char>> {
    seq!["剩余流量"@, "下次重置"@, "套餐到期"@, "温馨提示"@, "订阅"@, "流量"@]
}

/// Whether a node name is a subscription's metadata rather than a proxy.
pub open spec fn is_metadata_tag(name: Seq<char>) -> bool {
    exists|i: int| 0 <= i < metadata_markers().len() && contains_text(name, #[trigger] metadata_markers()[i])
}

/// Whether a node name is a subscription's metadata (traffic left, next
/// reset, expiry, notices) rather than a proxy.
pub fn is_subscription_metadata_tag(name: &str) -> (r: bool)
    ensures
        r == is_metadata_tag(name@),
{
    let markers: [&str; 6] = ["剩余流量", "下次重置", "套餐到期", "温馨提示", "订阅", "流量"];
    assert(crate::convert::fields::keys_view(markers@) =~= metadata_markers());
    let n = chars_of(name);
    let mut i: usize = 0;
    while i < 6
        invariant
            i <= 6,
            n@ == name@,
            crate::convert::fields::keys_view(markers@) == metadata_markers(),
            forall|j: int| 0 <= j < i ==> !contains_text(name@, #[trigger] metadata_markers()[j]),
        decreases 6 - i,
    {
        assert(metadata_markers()[i as int] == markers@[i as int]@);
        if has_text(&n, &chars_of(markers[i])) {
            return true;
        }
        i = i + 1;
    }
    false
}

/// The template field that holds a pattern.
#[derive(Debug, Clone, Copy, PartialEq, Eq)]
pub enum TemplateField {
    Filter,
    ExcludeFilter,
}

/// Why a sing-box config could not be built.
#[derive(Debug, Clone, PartialEq, Eq)]
pub enum BuildError {
    /// The template is no JSON object.
    RootNotObject,
    /// The template has no `outbounds` array.
    MissingOutbounds,
    /// A `filter` or `exclude_filter` is no string.
    FilterNotString { field: TemplateField },
    /// A `filter` or `exclude_filter` is no regular expression that the
    /// `regex` crate accepts; the outbound's tag, where it has one.
    InvalidRegex { field: TemplateField, outbound: Option<String> },
}

pub ghost enum BuildFailure {
    RootNotObject,
    MissingOutbounds,
    FilterNotString { field: TemplateField },
    InvalidRegex { field: TemplateField, outbound: Option<Seq<char>> },
}

impl BuildError {
    pub open spec fn model(&self) -> BuildFailure {
        match self {
            BuildError::RootNotObject => BuildFailure::RootNotObject,
            BuildError::MissingOutbounds => BuildFailure::MissingOutbounds,
            BuildError::FilterNotString { field } => BuildFailure::FilterNotString { field: *field },
            BuildError::InvalidRegex { field, outbound } => BuildFailure::InvalidRegex { field: *field, outbound: opt_text_view(*outbound) },
        }
    }
}

/// Something skipped or worked around while building.
#[derive(Debug, Clone, PartialEq, Eq)]
pub enum BuildWarning {
    /// A subscription's cache file could not be read.
    CacheMissing { name: String, path: String, reason: String },
    /// Something skipped while reading or converting a subscription's nodes.
    Subscription { name: String, warning: Warning },
    /// A subscription whose cache holds no proxy node.
    NoUsableNodes { name: String },
    /// A subscription whose cache could not be read as nodes.
    ParseFailed { name: String, cause: InputError },
    /// A template group includes a subscription that was not built.
    UnknownProvider { outbound: String, provider: String },
    /// A template group that selected nothing, given `direct` instead.
    NoMatches { outbound: String },
}

pub ghost enum BuildWarningModel {
    CacheMissing { name: Seq<char>, path: Seq<char>, reason: Seq<char> },
    Subscription { name: Seq<char>, warning: WarningModel },
    NoUsableNodes { name: Seq<char> },
    ParseFailed { name: Seq<char>, cause: InputError },
    UnknownProvider { outbound: Seq<char>, provider: Seq<char> },
    NoMatches { outbound: Seq<char> },
}

impl View for BuildWarning {
    type V = BuildWarningModel;

    open spec fn view(&self) -> BuildWarningModel {
        match self {
            BuildWarning::CacheMissing { name, path, reason } => BuildWarningModel::CacheMissing { name: name@, path: path@, reason: reason@ },
            BuildWarning::Subscription { name, warning } => BuildWarningModel::Subscription { name: name@, warning: warning@ },
            BuildWarning::NoUsableNodes { name } => BuildWarningModel::NoUsableNodes { name: name@ },
            BuildWarning::ParseFailed { name, cause } => BuildWarningModel::ParseFailed { name: name@, cause: *cause },
            BuildWarning::UnknownProvider { outbound, provider } => BuildWarningModel::UnknownProvider { outbound: outbound@, provider: provider@ },
            BuildWarning::NoMatches { outbound } => BuildWarningModel::NoMatches { outbound: outbound@ },
        }
    }
}

pub open spec fn build_warnings_view(ws: Seq<BuildWarning>) -> Seq<BuildWarningModel> {
    Seq::new(ws.len(), |i: int| ws[i]@)
}

/// The node tags of each subscription that was built, by name.
pub type Providers = Seq<(Seq<char>, Seq<Seq<char>>)>;

pub open spec fn providers_view(ps: Seq<(String, Vec<String>)>) -> Providers {
    Seq::new(ps.len(), |i: int| (ps[i].0@, strings_view(ps[i].1@)))
}

/// The strings among JSON items, in order.
pub open spec fn json_strings(items: Seq<JsonModel>) -> Seq<Seq<char>>
    decreases items.len(),
{
    if items.len() == 0 {
        seq![]
    } else {
        let r = json_strings(items.drop_last());
        match items.last() {
            JsonModel::String(s) => r.push(s),
            _ => r,
        }
    }
}

/// The subscriptions that an `include` names: the strings of its array,
/// none where it is no array.
pub open spec fn include_names(v: Option<JsonModel>) -> Option<Seq<Seq<char>>> {
    match v {
        None => None,
        Some(JsonModel::Array(items)) => Some(json_strings(items)),
        Some(_) => Some(seq![]),
    }
}

/// The tags of the first subscription named `name`.
pub open spec fn provider_tags(ps: Providers, name: Seq<char>) -> Option<Seq<Seq<char>>>
    decreases ps.len(),
{
    if ps.len() == 0 {
        None
    } else if ps[0].0 == name {
        Some(ps[0].1)
    } else {
        provider_tags(ps.subrange(1, ps.len() as int), name)
    }
}

/// The tags of all subscriptions, one after another.
pub open spec fn all_provider_tags(ps: Providers) -> Seq<Seq<char>>
    decreases ps.len(),
{
    if ps.len() == 0 {
        seq![]
    } else {
        all_provider_tags(ps.drop_last()) + ps.last().1
    }
}

/// The tags of the named subscriptions in order, and a warning for each
/// name that is no subscription (where the group has a tag to name).
pub open spec fn candidates(ps: Providers, names: Seq<Seq<char>>, outbound: Option<Seq<char>>) -> (Seq<Seq<char>>, Seq<BuildWarningModel>)
    decreases names.len(),
{
    if names.len() == 0 {
        (seq![], seq![])
    } else {
        let (c, w) = candidates(ps, names.drop_last(), outbound);
        match provider_tags(ps, names.last()) {
            Some(t) => (c + t, w),
            None => (
                c,
                match outbound {
                    Some(o) => w.push(BuildWarningModel::UnknownProvider { outbound: o, provider: names.last() }),
                    None => w,
                },
            ),
        }
    }
}

/// The pattern of a `filter` or `exclude_filter`, where there is one.
pub open spec fn pattern_field(v: Option<JsonModel>, field: TemplateField, outbound: Option<Seq<char>>) -> Result<Option<Seq<char>>, BuildFailure> {
    match v {
        None => Ok(None),
        Some(JsonModel::String(p)) => if regex_compiles(p) {
            Ok(Some(p))
        } else {
            Err(BuildFailure::InvalidRegex { field, outbound })
        },
        Some(_) => Err(BuildFailure::FilterNotString { field }),
    }
}

/// Whether a tag is kept: it matches the filter, where there is one, and
/// not the exclusion, where there is one.
pub open spec fn keeps(t: Seq<char>, filter: Option<Seq<char>>, exclude: Option<Seq<char>>) -> bool {
    &&& (match filter {
        Some(f) => regex_matches(f, t),
        None => true,
    })
    &&& (match exclude {
        Some(x) => !regex_matches(x, t),
        None => true,
    })
}

/// The tags that are kept, in order.
pub open spec fn selected(tags: Seq<Seq<char>>, filter: Option<Seq<char>>, exclude: Option<Seq<char>>) -> Seq<Seq<char>>
    decreases tags.len(),
{
    if tags.len() == 0 {
        seq![]
    } else {
        let r = selected(tags.drop_last(), filter, exclude);
        if keeps(tags.last(), filter, exclude) {
            r.push(tags.last())
        } else {
            r
        }
    }
}

pub open spec fn json_texts(ts: Seq<Seq<char>>) -> Seq<JsonModel> {
    Seq::new(ts.len(), |i: int| JsonModel::String(ts[i]))
}

/// A group's `outbounds` with the selected tags added; `direct` where it
/// stays empty.
pub open spec fn with_selected(o: Members, items: Seq<JsonModel>, matched: Seq<Seq<char>>, outbound: Option<Seq<char>>, w: Seq<BuildWarningModel>) -> (Members, Seq<BuildWarningModel>) {
    let arr = items + json_texts(matched);
    if arr.len() == 0 {
        (
            with_member(o, "outbounds"@, JsonModel::Array(seq![JsonModel::String("direct"@)])),
            match outbound {
                Some(t) => w.push(BuildWarningModel::NoMatches { outbound: t }),
                None => w,
            },
        )
    } else {
        (with_member(o, "outbounds"@, JsonModel::Array(arr)), w)
    }
}

/// A template outbound expanded: `include`, `filter` and `exclude_filter`
/// removed, and where it had any of them, the tags of the included
/// subscriptions' nodes (all subscriptions' without `include`) that the
/// filters keep added to its `outbounds`; the warnings that gives.
pub open spec fn expanded(o: Members, ps: Providers) -> Result<(Members, Seq<BuildWarningModel>), BuildFailure> {
    let tag = member_str(o, "tag"@);
    let inc = member(o, "include"@);
    let oa = without_member(o, "include"@);
    let fil = member(oa, "filter"@);
    let ob = without_member(oa, "filter"@);
    let exc = member(ob, "exclude_filter"@);
    let o1 = without_member(ob, "exclude_filter"@);
    if inc is None && fil is None && exc is None {
        Ok((o1, seq![]))
    } else {
        match pattern_field(fil, TemplateField::Filter, tag) {
            Err(e) => Err(e),
            Ok(f) => match pattern_field(exc, TemplateField::ExcludeFilter, tag) {
                Err(e) => Err(e),
                Ok(x) => {
                    let (cands, w) = match include_names(inc) {
                        Some(names) => candidates(ps, names, tag),
                        None => (all_provider_tags(ps), seq![]),
                    };
                    let matched = selected(cands, f, x);
                    match member(o1, "outbounds"@) {
                        None => Ok(with_selected(o1, seq![], matched, tag, w)),
                        Some(JsonModel::Array(items)) => Ok(with_selected(o1, items, matched, tag, w)),
                        Some(_) => Ok((o1, w)),
                    }
                },
            },
        }
    }
}

/// An outbound of the template as it goes into the config: objects
/// expanded, anything else as it is.
pub open spec fn expanded_outbound(v: JsonModel, ps: Providers) -> Result<(JsonModel, Seq<BuildWarningModel>), BuildFailure> {
    match v {
        JsonModel::Object(o) => match expanded(o, ps) {
            Ok((o2, w)) => Ok((JsonModel::Object(o2), w)),
            Err(e) => Err(e),
        },
        _ => Ok((v, seq![])),
    }
}

pub open spec fn json_opt_view(v: Option<JsonValue>) -> Option<JsonModel> {
    match v {
        Some(x) => Some(x@),
        None => None,
    }
}

pub open spec fn pattern_opt_view(c: Option<CompiledPattern>) -> Option<Seq<char>> {
    match c {
        Some(p) => Some(p.pattern_of()),
        None => None,
    }
}

fn include_names_of(v: &Option<JsonValue>) -> (r: Option<Vec<String>>)
    ensures
        opt_strings_view(r) == include_names(json_opt_view(*v)),
{
    match v {
        None => None,
        Some(JsonValue::Array(items)) => {
            proof {
                lemma_array_model(*items);
            }
            let ghost im = items_model(items@);
            let mut out: Vec<String> = Vec::new();
            let mut i: usize = 0;
            assert(im.take(0) =~= Seq::<JsonModel>::empty());
            while i < items.len()
                invariant
                    i <= items@.len(),
                    im == items_model(items@),
                    strings_view(out@) == json_strings(im.take(i as int)),
                decreases items.len() - i,
            {
                assert(im.take(i + 1).drop_last() =~= im.take(i as int));
                assert(im.take(i + 1).last() == items@[i as int]@);
                match &items[i] {
                    JsonValue::String(s) => {
                        let ghost before = strings_view(out@);
                        out.push(s.clone());
                        assert(strings_view(out@) =~= before.push(s@));
                    },
                    _ => {},
                }
                i = i + 1;
            }
            assert(im.take(items@.len() as int) =~= im);
            Some(out)
        },
        Some(_) => {
            let out: Vec<String> = Vec::new();
            assert(strings_view(out@) =~= Seq::<Seq<char>>::empty());
            Some(out)
        },
    }
}

fn compile_optional_regex(v: &Option<JsonValue>, field: TemplateField, outbound: &Option<String>) -> (r: Result<Option<CompiledPattern>, BuildError>)
    ensures
        match r {
            Ok(c) => pattern_field(json_opt_view(*v), field, opt_text_view(*outbound)) == Ok::<Option<Seq<char>>, BuildFailure>(pattern_opt_view(c)),
            Err(e) => pattern_field(json_opt_view(*v), field, opt_text_view(*outbound)) == Err::<Option<Seq<char>>, BuildFailure>(e.model()),
        },
{
    match v {
        None => Ok(None),
        Some(JsonValue::String(p)) => match compile_pattern(p.as_str()) {
            Some(c) => Ok(Some(c)),
            None => Err(BuildError::InvalidRegex { field, outbound: outbound.clone() }),
        },
        Some(_) => Err(BuildError::FilterNotString { field }),
    }
}

fn find_provider(ps: &Vec<(String, Vec<String>)>, name: &String) -> (r: Option<usize>)
    ensures
        match r {
            Some(i) => i < ps@.len() && provider_tags(providers_view(ps@), name@) == Some(strings_view(ps@[i as int].1@))
                && ps@[i as int].0@ == name@ && forall|j: int| 0 <= j < i ==> #[trigger] ps@[j].0@ != name@,
            None => provider_tags(providers_view(ps@), name@) is None && forall|j: int| 0 <= j < ps@.len() ==> #[trigger] ps@[j].0@ != name@,
        },
{
    let ghost pv = providers_view(ps@);
    let n = chars_of(name.as_str());
    let mut i: usize = 0;
    assert(pv.subrange(0, pv.len() as int) =~= pv);
    while i < ps.len()
        invariant
            i <= ps@.len(),
            pv == providers_view(ps@),
            n@ == name@,
            forall|j: int| 0 <= j < i ==> #[trigger] ps@[j].0@ != name@,
            provider_tags(pv, name@) == provider_tags(pv.subrange(i as int, pv.len() as int), name@),
        decreases ps.len() - i,
    {
        let ghost rest = pv.subrange(i as int, pv.len() as int);
        assert(rest[0] == pv[i as int]);
        assert(rest.subrange(1, rest.len() as int) =~= pv.subrange(i + 1, pv.len() as int));
        if crate::text::chars_eq(&chars_of(ps[i].0.as_str()), &n) {
            return Some(i);
        }
        i = i + 1;
    }
    None
}

fn append_tags(out: &mut Vec<String>, tags: &Vec<String>)
    ensures
        strings_view(final(out)@) == strings_view(old(out)@) + strings_view(tags@),
{
    let ghost o0 = strings_view(out@);
    let mut i: usize = 0;
    while i < tags.len()
        invariant
            i <= tags@.len(),
            strings_view(out@) == o0 + strings_view(tags@).take(i as int),
        decreases tags.len() - i,
    {
        let ghost before = strings_view(out@);
        out.push(tags[i].clone());
        assert(strings_view(out@) =~= before.push(tags@[i as int]@));
        assert(strings_view(tags@).take(i + 1) =~= strings_view(tags@).take(i as int).push(tags@[i as int]@));
        i = i + 1;
    }
    assert(strings_view(tags@).take(tags@.len() as int) =~= strings_view(tags@));
}

fn candidate_tags(ps: &Vec<(String, Vec<String>)>, names: &Vec<String>, outbound: &Option<String>, warnings: &mut Vec<BuildWarning>) -> (r: Vec<String>)
    ensures
        strings_view(r@) == candidates(providers_view(ps@), strings_view(names@), opt_text_view(*outbound)).0,
        build_warnings_view(final(warnings)@) == build_warnings_view(old(warnings)@) + candidates(
            providers_view(ps@),
            strings_view(names@),
            opt_text_view(*outbound),
        ).1,
{
    let ghost pv = providers_view(ps@);
    let ghost nv = strings_view(names@);
    let ghost w0 = build_warnings_view(warnings@);
    let mut out: Vec<String> = Vec::new();
    let mut i: usize = 0;
    assert(nv.take(0) =~= Seq::<Seq<char>>::empty());
    assert(strings_view(out@) =~= Seq::<Seq<char>>::empty());
    assert(build_warnings_view(warnings@) =~= w0 + Seq::<BuildWarningModel>::empty());
    while i < names.len()
        invariant
            i <= names@.len(),
            pv == providers_view(ps@),
            nv == strings_view(names@),
            strings_view(out@) == candidates(pv, nv.take(i as int), opt_text_view(*outbound)).0,
            build_warnings_view(warnings@) == w0 + candidates(pv, nv.take(i as int), opt_text_view(*outbound)).1,
        decreases names.len() - i,
    {
        assert(nv.take(i + 1).drop_last() =~= nv.take(i as int));
        assert(nv.take(i + 1).last() == names@[i as int]@);
        let ghost wb = build_warnings_view(warnings@);
        match find_provider(ps, &names[i]) {
            Some(k) => {
                append_tags(&mut out, &ps[k].1);
            },
            None => {
                match outbound {
                    Some(o) => {
                        warnings.push(BuildWarning::UnknownProvider { outbound: o.clone(), provider: names[i].clone() });
                        assert(build_warnings_view(warnings@) =~= wb.push(
                            BuildWarningModel::UnknownProvider { outbound: o@, provider: names@[i as int]@ },
                        ));
                    },
                    None => {},
                }
            },
        }
        i = i + 1;
    }
    assert(nv.take(names@.len() as int) =~= nv);
    out
}

fn every_tag(ps: &Vec<(String, Vec<String>)>) -> (r: Vec<String>)
    ensures
        strings_view(r@) == all_provider_tags(providers_view(ps@)),
{
    let ghost pv = providers_view(ps@);
    let mut out: Vec<String> = Vec::new();
    let mut i: usize = 0;
    assert(pv.take(0) =~= Seq::<(Seq<char>, Seq<Seq<char>>)>::empty());
    assert(strings_view(out@) =~= Seq::<Seq<char>>::empty());
    while i < ps.len()
        invariant
            i <= ps@.len(),
            pv == providers_view(ps@),
            strings_view(out@) == all_provider_tags(pv.take(i as int)),
        decreases ps.len() - i,
    {
        assert(pv.take(i + 1).drop_last() =~= pv.take(i as int));
        assert(pv.take(i + 1).last() == pv[i as int]);
        append_tags(&mut out, &ps[i].1);
        i = i + 1;
    }
    assert(pv.take(ps@.len() as int) =~= pv);
    out
}

fn keeps_tag(t: &String, filter: &Option<CompiledPattern>, exclude: &Option<CompiledPattern>) -> (r: bool)
    ensures
        r == keeps(t@, pattern_opt_view(*filter), pattern_opt_view(*exclude)),
{
    let f = match filter {
        Some(c) => pattern_matches(c, t.as_str()),
        None => true,
    };
    let x = match exclude {
        Some(c) => !pattern_matches(c, t.as_str()),
        None => true,
    };
    f && x
}

fn select_tags(cands: &Vec<String>, filter: &Option<CompiledPattern>, exclude: &Option<CompiledPattern>) -> (r: Vec<JsonValue>)
    ensures
        items_model(r@) == json_texts(selected(strings_view(cands@), pattern_opt_view(*filter), pattern_opt_view(*exclude))),
{
    let ghost cv = strings_view(cands@);
    let ghost f = pattern_opt_view(*filter);
    let ghost x = pattern_opt_view(*exclude);
    let mut out: Vec<JsonValue> = Vec::new();
    let mut i: usize = 0;
    assert(cv.take(0) =~= Seq::<Seq<char>>::empty());
    assert(items_model(out@) =~= json_texts(selected(cv.take(0), f, x)));
    while i < cands.len()
        invariant
            i <= cands@.len(),
            cv == strings_view(cands@),
            f == pattern_opt_view(*filter),
            x == pattern_opt_view(*exclude),
            items_model(out@) == json_texts(selected(cv.take(i as int), f, x)),
        decreases cands.len() - i,
    {
        assert(cv.take(i + 1).drop_last() =~= cv.take(i as int));
        assert(cv.take(i + 1).last() == cands@[i as int]@);
        let ghost before = items_model(out@);
        if keeps_tag(&cands[i], filter, exclude) {
            let v = JsonValue::String(cands[i].clone());
            assert(v@ == JsonModel::String(cands@[i as int]@));
            out.push(v);
            assert(items_model(out@) =~= before.push(JsonModel::String(cands@[i as int]@)));
            assert(json_texts(selected(cv.take(i + 1), f, x)) =~= json_texts(selected(cv.take(i as int), f, x)).push(
                JsonModel::String(cands@[i as int]@),
            ));
        }
        i = i + 1;
    }
    assert(cv.take(cands@.len() as int) =~= cv);
    out
}

fn add_selected(arr: &mut Vec<JsonValue>, matched: Vec<JsonValue>, outbound: &Option<String>, warnings: &mut Vec<BuildWarning>)
    ensures
        items_model(final(arr)@) == (if items_model(old(arr)@).len() + items_model(matched@).len() == 0 {
            seq![JsonModel::String("direct"@)]
        } else {
            items_model(old(arr)@) + items_model(matched@)
        }),
        build_warnings_view(final(warnings)@) == (if items_model(old(arr)@).len() + items_model(matched@).len() == 0 {
            match opt_text_view(*outbound) {
                Some(t) => build_warnings_view(old(warnings)@).push(BuildWarningModel::NoMatches { outbound: t }),
                None => build_warnings_view(old(warnings)@),
            }
        } else {
            build_warnings_view(old(warnings)@)
        }),
{
    let ghost a0 = items_model(arr@);
    let ghost m0 = items_model(matched@);
    let ghost w0 = build_warnings_view(warnings@);
    let mut m = matched;
    arr.append(&mut m);
    assert(items_model(arr@) =~= a0 + m0);
    if arr.len() == 0 {
        let d = JsonValue::String("direct".to_owned());
        arr.push(d);
        assert(items_model(arr@) =~= seq![JsonModel::String("direct"@)]);
        match outbound {
            Some(t) => {
                warnings.push(BuildWarning::NoMatches { outbound: t.clone() });
                assert(build_warnings_view(warnings@) =~= w0.push(BuildWarningModel::NoMatches { outbound: t@ }));
            },
            None => {},
        }
    }
}

/// Expands a template outbound: removes `include`, `filter` and
/// `exclude_filter`, and where it had any of them adds the tags of the
/// selected nodes to its `outbounds` (`direct` where none is selected).
pub fn expand_template_outbound(outbound: JsonValue, providers: &Vec<(String, Vec<String>)>, warnings: &mut Vec<BuildWarning>) -> (r: Result<JsonValue, BuildError>)
    ensures
        match expanded_outbound(outbound@, providers_view(providers@)) {
            Ok((v, w)) => r matches Ok(o) && o@ == v && build_warnings_view(final(warnings)@) == build_warnings_view(old(warnings)@) + w,
            Err(e) => r matches Err(x) && x.model() == e && final(warnings)@ == old(warnings)@,
        },
{
    let ghost w0 = build_warnings_view(warnings@);
    let ghost pv = providers_view(providers@);
    let mut o = match outbound {
        JsonValue::Object(m) => m,
        other => {
            assert(build_warnings_view(warnings@) =~= w0 + Seq::<BuildWarningModel>::empty());
            return Ok(other);
        },
    };
    proof {
        lemma_object_model(o);
    }
    let ghost om = members_model(o@);
    let tag = get_member_str(&o, "tag");
    assert(opt_text_view(tag) == member_str(om, "tag"@));
    let inc = remove_member(&mut o, "include");
    let fil = remove_member(&mut o, "filter");
    let exc = remove_member(&mut o, "exclude_filter");
    let ghost o1 = members_model(o@);
    if inc.is_none() && fil.is_none() && exc.is_none() {
        proof {
            lemma_object_model(o);
        }
        assert(build_warnings_view(warnings@) =~= w0 + Seq::<BuildWarningModel>::empty());
        return Ok(JsonValue::Object(o));
    }
    let filter = match compile_optional_regex(&fil, TemplateField::Filter, &tag) {
        Ok(f) => f,
        Err(e) => {
            return Err(e);
        },
    };
    let exclude = match compile_optional_regex(&exc, TemplateField::ExcludeFilter, &tag) {
        Ok(x) => x,
        Err(e) => {
            return Err(e);
        },
    };
    let cands = match include_names_of(&inc) {
        Some(names) => candidate_tags(providers, &names, &tag, warnings),
        None => {
            assert(build_warnings_view(warnings@) =~= w0 + Seq::<BuildWarningModel>::empty());
            every_tag(providers)
        },
    };
    let ghost w1 = build_warnings_view(warnings@);
    let matched = select_tags(&cands, &filter, &exclude);
    let i = find_member(&o, "outbounds");
    proof {
        crate::json::lemma_member_index(o1, "outbounds"@);
    }
    if i < o.len() {
        let (k, v) = o.remove(i);
        match v {
            JsonValue::Array(items) => {
                proof {
                    lemma_array_model(items);
                }
                let mut arr = items;
                add_selected(&mut arr, matched, &tag, warnings);
                proof {
                    lemma_array_model(arr);
                }
                o.insert(i, (k, JsonValue::Array(arr)));
                assert(members_model(o@) =~= with_member(o1, "outbounds"@, JsonModel::Array(items_model(arr@))));
            },
            other => {
                o.insert(i, (k, other));
                assert(members_model(o@) =~= o1);
                assert(build_warnings_view(warnings@) == w1);
            },
        }
    } else {
        let mut arr: Vec<JsonValue> = Vec::new();
        assert(items_model(arr@) =~= Seq::<JsonModel>::empty());
        add_selected(&mut arr, matched, &tag, warnings);
        proof {
            lemma_array_model(arr);
        }
        let key = "outbounds".to_owned();
        o.push((key, JsonValue::Array(arr)));
        assert(members_model(o@) =~= with_member(o1, "outbounds"@, JsonModel::Array(items_model(arr@))));
    }
    proof {
        lemma_object_model(o);
    }
    Ok(JsonValue::Object(o))
}

/// What building has gathered from the subscriptions so far: the node tags
/// of each subscription built, their outbounds, the warnings, and counts.
pub struct BuildState {
    pub providers: Vec<(String, Vec<String>)>,
    pub outbounds: Vec<JsonValue>,
    pub warnings: Vec<BuildWarning>,
    pub built: usize,
    pub failed: usize,
    pub tags_added: usize,
}

pub ghost struct BuildModel {
    pub providers: Providers,
    pub outbounds: Seq<JsonModel>,
    pub warnings: Seq<BuildWarningModel>,
    pub built: nat,
    pub failed: nat,
    pub tags_added: nat,
}

impl BuildState {
    pub open spec fn model(&self) -> BuildModel {
        BuildModel {
            providers: providers_view(self.providers@),
            outbounds: items_model(self.outbounds@),
            warnings: build_warnings_view(self.warnings@),
            built: self.built as nat,
            failed: self.failed as nat,
            tags_added: self.tags_added as nat,
        }
    }

    /// The counts fit: no more tags were added than outbounds gathered.
    pub open spec fn wf(&self) -> bool {
        self.tags_added <= self.outbounds@.len()
    }

    /// Nothing gathered yet.
    pub fn new() -> (r: BuildState)
        ensures
            r.wf(),
            r.model() == (BuildModel {
                providers: seq![],
                outbounds: seq![],
                warnings: seq![],
                built: 0,
                failed: 0,
                tags_added: 0,
            }),
    {
        let r = BuildState { providers: Vec::new(), outbounds: Vec::new(), warnings: Vec::new(), built: 0, failed: 0, tags_added: 0 };
        assert(r.model().providers =~= Seq::<(Seq<char>, Seq<Seq<char>>)>::empty());
        assert(r.model().outbounds =~= Seq::<JsonModel>::empty());
        assert(r.model().warnings =~= Seq::<BuildWarningModel>::empty());
        r
    }
}

/// The subscriptions with `name` given `tags`: in place where it is
/// there, else added at the end.
pub open spec fn with_provider(ps: Providers, name: Seq<char>, tags: Seq<Seq<char>>) -> Providers
    decreases ps.len(),
{
    if ps.len() == 0 {
        seq![(name, tags)]
    } else if ps[0].0 == name {
        ps.update(0, (name, tags))
    } else {
        seq![ps[0]] + with_provider(ps.subrange(1, ps.len() as int), name, tags)
    }
}

/// The string tags of the outbounds, in order.
pub open spec fn outbound_tags(os: Seq<JsonModel>) -> Seq<Seq<char>>
    decreases os.len(),
{
    if os.len() == 0 {
        seq![]
    } else {
        let r = outbound_tags(os.drop_last());
        match os.last() {
            JsonModel::Object(m) => match member_str(m, "tag"@) {
                Some(t) => r.push(t),
                None => r,
            },
            _ => r,
        }
    }
}

/// The nodes that are proxies rather than a subscription's metadata.
pub open spec fn usable(ns: Seq<NodeModel>) -> Seq<NodeModel>
    decreases ns.len(),
{
    if ns.len() == 0 {
        seq![]
    } else if is_metadata_tag(ns.last().name) {
        usable(ns.drop_last())
    } else {
        usable(ns.drop_last()).push(ns.last())
    }
}

/// Warnings of a subscription, each marked with its name.
pub open spec fn marked(name: Seq<char>, ws: Seq<WarningModel>) -> Seq<BuildWarningModel> {
    Seq::new(ws.len(), |i: int| BuildWarningModel::Subscription { name, warning: ws[i] })
}

/// What building gathers from one more subscription, given what reading
/// its cache gave: its proxy nodes (not its metadata) as outbounds with
/// unique tags, and those tags as the subscription's; a failure where it
/// could not be read or has no proxy node.
pub open spec fn subscription_added(st: BuildModel, name: Seq<char>, parsed: Result<InputModel, InputError>) -> BuildModel {
    match parsed {
        Err(e) => BuildModel { failed: st.failed + 1, warnings: st.warnings.push(BuildWarningModel::ParseFailed { name, cause: e }), ..st },
        Ok(p) => {
            let w1 = st.warnings + marked(name, p.warnings);
            let nodes = usable(p.nodes);
            if nodes.len() == 0 {
                BuildModel { failed: st.failed + 1, warnings: w1.push(BuildWarningModel::NoUsableNodes { name }), ..st }
            } else {
                let outs = rendered_outbounds(nodes, seq![], false, seq![]);
                let tags = outbound_tags(outs);
                BuildModel {
                    providers: with_provider(st.providers, name, tags),
                    outbounds: st.outbounds + outs,
                    warnings: w1 + marked(name, render_warnings(nodes)),
                    built: st.built + 1,
                    failed: st.failed,
                    tags_added: st.tags_added + tags.len(),
                }
            }
        },
    }
}

/// Records a subscription whose cache file could not be read.
pub fn record_missing_cache(state: &mut BuildState, name: &String, path: &String, reason: String)
    requires
        old(state).wf(),
        old(state).failed < usize::MAX,
    ensures
        final(state).wf(),
        final(state).model() == (BuildModel {
            failed: old(state).model().failed + 1,
            warnings: old(state).model().warnings.push(BuildWarningModel::CacheMissing { name: name@, path: path@, reason: reason@ }),
            ..old(state).model()
        }),
{
    let ghost w0 = build_warnings_view(state.warnings@);
    state.failed = state.failed + 1;
    state.warnings.push(BuildWarning::CacheMissing { name: name.clone(), path: path.clone(), reason });
    assert(build_warnings_view(state.warnings@) =~= w0.push(BuildWarningModel::CacheMissing { name: name@, path: path@, reason: reason@ }));
}

fn push_marked(warnings: &mut Vec<BuildWarning>, name: &String, ws: Vec<Warning>)
    ensures
        build_warnings_view(final(warnings)@) == build_warnings_view(old(warnings)@) + marked(name@, warnings_view(ws@)),
{
    let ghost w0 = build_warnings_view(warnings@);
    let ghost wv = warnings_view(ws@);
    let mut rest = ws;
    let mut k: usize = 0;
    let n = rest.len();
    assert(marked(name@, wv.take(0)) =~= Seq::<BuildWarningModel>::empty());
    assert(build_warnings_view(warnings@) =~= w0 + marked(name@, wv.take(0)));
    while rest.len() > 0
        invariant
            k + rest@.len() == wv.len(),
            n == wv.len(),
            forall|j: int| 0 <= j < rest@.len() ==> #[trigger] rest@[j]@ == wv[k + j],
            build_warnings_view(warnings@) == w0 + marked(name@, wv.take(k as int)),
        decreases rest.len(),
    {
        let ghost r0 = rest@;
        let w = rest.remove(0);
        assert(w@ == wv[k as int]) by {
            assert(r0[0]@ == wv[k + 0]);
        }
        assert forall|j: int| 0 <= j < rest@.len() implies #[trigger] rest@[j]@ == wv[k + 1 + j] by {
            assert(rest@[j] == r0[j + 1]);
            assert(r0[j + 1]@ == wv[k + (j + 1)]);
        }
        let ghost before = build_warnings_view(warnings@);
        warnings.push(BuildWarning::Subscription { name: name.clone(), warning: w });
        assert(build_warnings_view(warnings@) =~= before.push(BuildWarningModel::Subscription { name: name@, warning: wv[k as int] }));
        assert(marked(name@, wv.take(k + 1)) =~= marked(name@, wv.take(k as int)).push(
            BuildWarningModel::Subscription { name: name@, warning: wv[k as int] },
        ));
        k = k + 1;
    }
    assert(wv.take(k as int) =~= wv);
}

fn usable_nodes(nodes: Vec<ProxyNode>) -> (r: Vec<ProxyNode>)
    ensures
        nodes_view(r@) == usable(nodes_view(nodes@)),
{
    let ghost all = nodes_view(nodes@);
    let n = nodes.len();
    let mut rest = nodes;
    let mut out: Vec<ProxyNode> = Vec::new();
    let mut k: usize = 0;
    assert(all.take(0) =~= Seq::<NodeModel>::empty());
    assert(nodes_view(out@) =~= usable(all.take(0)));
    while rest.len() > 0
        invariant
            n == all.len(),
            k + rest@.len() == all.len(),
            forall|j: int| 0 <= j < rest@.len() ==> #[trigger] rest@[j]@ == all[k + j],
            nodes_view(out@) == usable(all.take(k as int)),
        decreases rest.len(),
    {
        let ghost r0 = rest@;
        let node = rest.remove(0);
        assert(node@ == all[k as int]) by {
            assert(r0[0]@ == all[k + 0]);
        }
        assert forall|j: int| 0 <= j < rest@.len() implies #[trigger] rest@[j]@ == all[k + 1 + j] by {
            assert(rest@[j] == r0[j + 1]);
            assert(r0[j + 1]@ == all[k + (j + 1)]);
        }
        assert(all.take(k + 1).drop_last() =~= all.take(k as int));
        assert(all.take(k + 1).last() == all[k as int]);
        if !is_subscription_metadata_tag(node.name.as_str()) {
            let ghost before = nodes_view(out@);
            out.push(node);
            assert(nodes_view(out@) =~= before.push(all[k as int]));
        }
        k = k + 1;
    }
    assert(all.take(k as int) =~= all);
    out
}

fn tags_of(os: &Vec<JsonValue>) -> (r: Vec<String>)
    ensures
        strings_view(r@) == outbound_tags(items_model(os@)),
        r@.len() <= os@.len(),
{
    let ghost om = items_model(os@);
    let mut out: Vec<String> = Vec::new();
    let mut i: usize = 0;
    assert(om.take(0) =~= Seq::<JsonModel>::empty());
    assert(strings_view(out@) =~= outbound_tags(om.take(0)));
    while i < os.len()
        invariant
            i <= os@.len(),
            om == items_model(os@),
            out@.len() <= i,
            strings_view(out@) == outbound_tags(om.take(i as int)),
        decreases os.len() - i,
    {
        assert(om.take(i + 1).drop_last() =~= om.take(i as int));
        assert(om.take(i + 1).last() == os@[i as int]@);
        match &os[i] {
            JsonValue::Object(m) => {
                proof {
                    lemma_object_model(*m);
                }
                match get_member_str(m, "tag") {
                    Some(t) => {
                        let ghost before = strings_view(out@);
                        out.push(t);
                        assert(strings_view(out@) =~= before.push(t@));
                    },
                    None => {},
                }
            },
            _ => {},
        }
        i = i + 1;
    }
    assert(om.take(os@.len() as int) =~= om);
    out
}

proof fn lemma_provider_index(pv: Providers, name: Seq<char>, k: int, t: Seq<Seq<char>>)
    requires
        0 <= k < pv.len(),
        pv[k].0 == name,
        forall|j: int| 0 <= j < k ==> #[trigger] pv[j].0 != name,
    ensures
        with_provider(pv, name, t) == pv.update(k, (name, t)),
    decreases pv.len(),
{
    if k > 0 {
        let rest = pv.subrange(1, pv.len() as int);
        assert(pv[0].0 != name);
        assert forall|j: int| 0 <= j < k - 1 implies #[trigger] rest[j].0 != name by {
            assert(rest[j] == pv[j + 1]);
        }
        lemma_provider_index(rest, name, k - 1, t);
        assert(seq![pv[0]] + rest.update(k - 1, (name, t)) =~= pv.update(k, (name, t)));
    }
}

proof fn lemma_provider_absent(pv: Providers, name: Seq<char>, t: Seq<Seq<char>>)
    requires
        forall|j: int| 0 <= j < pv.len() ==> #[trigger] pv[j].0 != name,
    ensures
        with_provider(pv, name, t) == pv.push((name, t)),
    decreases pv.len(),
{
    if pv.len() > 0 {
        let rest = pv.subrange(1, pv.len() as int);
        assert(pv[0].0 != name);
        assert forall|j: int| 0 <= j < rest.len() implies #[trigger] rest[j].0 != name by {
            assert(rest[j] == pv[j + 1]);
        }
        lemma_provider_absent(rest, name, t);
        assert(seq![pv[0]] + rest.push((name, t)) =~= pv.push((name, t)));
    }
}

fn set_provider(ps: &mut Vec<(String, Vec<String>)>, name: &String, tags: Vec<String>)
    ensures
        providers_view(final(ps)@) == with_provider(providers_view(old(ps)@), name@, strings_view(tags@)),
{
    let ghost pv = providers_view(ps@);
    let ghost tv = strings_view(tags@);
    match find_provider(ps, name) {
        Some(k) => {
            proof {
                assert forall|j: int| 0 <= j < k implies #[trigger] pv[j].0 != name@ by {
                    assert(pv[j].0 == ps@[j].0@);
                }
                lemma_provider_index(pv, name@, k as int, tv);
            }
            ps.set(k, (name.clone(), tags));
            assert(providers_view(ps@) =~= pv.update(k as int, (name@, tv)));
        },
        None => {
            proof {
                assert forall|j: int| 0 <= j < pv.len() implies #[trigger] pv[j].0 != name@ by {
                    assert(pv[j].0 == ps@[j].0@);
                }
                lemma_provider_absent(pv, name@, tv);
            }
            ps.push((name.clone(), tags));
            assert(providers_view(ps@) =~= pv.push((name@, tv)));
        },
    }
}

/// Gathers one more subscription, given what reading its cache gave: its
/// proxy nodes (metadata pseudo-nodes dropped) rendered as outbounds, and
/// their tags kept under its name; a failure where it gave no proxy node.
pub fn add_subscription(state: &mut BuildState, name: &String, parsed: Result<ParsedInput, InputError>)
    requires
        old(state).wf(),
        old(state).built < usize::MAX,
        old(state).failed < usize::MAX,
    ensures
        final(state).wf(),
        final(state).model() == subscription_added(old(state).model(), name@, input_result_view(parsed)),
{
    let ghost st = state.model();
    match parsed {
        Err(e) => {
            let ghost w0 = build_warnings_view(state.warnings@);
            state.failed = state.failed + 1;
            state.warnings.push(BuildWarning::ParseFailed { name: name.clone(), cause: e });
            assert(build_warnings_view(state.warnings@) =~= w0.push(BuildWarningModel::ParseFailed { name: name@, cause: e }));
        },
        Ok(p) => {
            let ghost pm = p.model();
            let ParsedInput { nodes, warnings } = p;
            push_marked(&mut state.warnings, name, warnings);
            let usable_list = usable_nodes(nodes);
            if usable_list.len() == 0 {
                let ghost w1 = build_warnings_view(state.warnings@);
                state.failed = state.failed + 1;
                state.warnings.push(BuildWarning::NoUsableNodes { name: name.clone() });
                assert(build_warnings_view(state.warnings@) =~= w1.push(BuildWarningModel::NoUsableNodes { name: name@ }));
                return;
            }
            let rendered = render_outbounds(usable_list, "", false, "");
            proof {
                reveal_strlit("");
            }
            let RenderedOutbounds { outbounds, warnings: rendered_warnings } = rendered;
            push_marked(&mut state.warnings, name, rendered_warnings);
            let tags = tags_of(&outbounds);
            let ghost tv = strings_view(tags@);
            let count = tags.len();
            set_provider(&mut state.providers, name, tags);
            let ghost o0 = items_model(state.outbounds@);
            let ghost om = items_model(outbounds@);
            let mut outs = outbounds;
            let ghost added = outs@.len();
            state.outbounds.append(&mut outs);
            assert(items_model(state.outbounds@) =~= o0 + om);
            let total = state.outbounds.len();
            assert(state.tags_added + count <= total);
            state.tags_added = state.tags_added + count;
            assert(""@ =~= Seq::<char>::empty());
            state.built = state.built + 1;
        },
    }
}

/// Every outbound of the template expanded, in order; the first error.
pub open spec fn expand_all(items: Seq<JsonModel>, ps: Providers) -> Result<(Seq<JsonModel>, Seq<BuildWarningModel>), BuildFailure>
    decreases items.len(),
{
    if items.len() == 0 {
        Ok((seq![], seq![]))
    } else {
        match expand_all(items.drop_last(), ps) {
            Err(e) => Err(e),
            Ok((vs, w)) => match expanded_outbound(items.last(), ps) {
                Err(e) => Err(e),
                Ok((v, w2)) => Ok((vs.push(v), w + w2)),
            },
        }
    }
}

/// The config built from the template and what was gathered: the
/// subscriptions removed, each template outbound expanded, and the
/// subscriptions' outbounds added after the template's; with all warnings.
pub open spec fn built_config(root: JsonModel, st: BuildModel) -> Result<(JsonModel, Seq<BuildWarningModel>), BuildFailure> {
    match root {
        JsonModel::Object(m) => {
            let m1 = without_member(m, "outbound_providers"@);
            match member(m1, "outbounds"@) {
                Some(JsonModel::Array(items)) => match expand_all(items, st.providers) {
                    Err(e) => Err(e),
                    Ok((vs, w)) => Ok((JsonModel::Object(with_member(m1, "outbounds"@, JsonModel::Array(vs + st.outbounds))), st.warnings + w)),
                },
                _ => Err(BuildFailure::MissingOutbounds),
            }
        },
        _ => Err(BuildFailure::RootNotObject),
    }
}

/// What a build did.
pub struct SingboxBuildSummary {
    pub subscriptions_total: usize,
    pub subscriptions_built: usize,
    pub subscriptions_failed: usize,
    pub outbounds_added: usize,
    pub warnings: Vec<BuildWarning>,
}

fn expand_outbounds(items: Vec<JsonValue>, ps: &Vec<(String, Vec<String>)>, warnings: &mut Vec<BuildWarning>) -> (r: Result<Vec<JsonValue>, BuildError>)
    ensures
        match expand_all(items_model(items@), providers_view(ps@)) {
            Ok((vs, w)) => r matches Ok(v) && items_model(v@) == vs && build_warnings_view(final(warnings)@) == build_warnings_view(old(warnings)@) + w,
            Err(e) => r matches Err(x) && x.model() == e,
        },
{
    let ghost all = items_model(items@);
    let ghost pv = providers_view(ps@);
    let ghost w0 = build_warnings_view(warnings@);
    let n = items.len();
    let mut rest = items;
    let mut out: Vec<JsonValue> = Vec::new();
    let mut k: usize = 0;
    assert(all.take(0) =~= Seq::<JsonModel>::empty());
    assert(items_model(out@) =~= Seq::<JsonModel>::empty());
    assert(build_warnings_view(warnings@) =~= w0 + Seq::<BuildWarningModel>::empty());
    while rest.len() > 0
        invariant
            n == all.len(),
            all == items_model(items@),
            pv == providers_view(ps@),
            k + rest@.len() == all.len(),
            forall|j: int| 0 <= j < rest@.len() ==> #[trigger] rest@[j]@ == all[k + j],
            expand_all(all.take(k as int), pv) matches Ok((vs, w)) && items_model(out@) == vs && build_warnings_view(warnings@) == w0 + w,
        decreases rest.len(),
    {
        let ghost r0 = rest@;
        let item = rest.remove(0);
        assert(item@ == all[k as int]) by {
            assert(r0[0]@ == all[k + 0]);
        }
        assert forall|j: int| 0 <= j < rest@.len() implies #[trigger] rest@[j]@ == all[k + 1 + j] by {
            assert(rest@[j] == r0[j + 1]);
            assert(r0[j + 1]@ == all[k + (j + 1)]);
        }
        assert(all.take(k + 1).drop_last() =~= all.take(k as int));
        assert(all.take(k + 1).last() == all[k as int]);
        let ghost before = items_model(out@);
        let ghost wb = build_warnings_view(warnings@);
        match expand_template_outbound(item, ps, warnings) {
            Ok(v) => {
                out.push(v);
                assert(items_model(out@) =~= before.push(v@));
                assert(build_warnings_view(warnings@) =~= w0 + expand_all(all.take(k + 1), pv)->Ok_0.1);
            },
            Err(e) => {
                assert(expand_all(all.take(k + 1), pv) == Err::<(Seq<JsonModel>, Seq<BuildWarningModel>), BuildFailure>(e.model()));
                proof {
                    lemma_expand_all_error(all, pv, (k + 1) as int);
                }
                return Err(e);
            },
        }
        k = k + 1;
    }
    assert(all.take(k as int) =~= all);
    assert(expand_all(all, pv) matches Ok((vs, w)) && items_model(out@) == vs && build_warnings_view(warnings@) == w0 + w);
    Ok(out)
}

proof fn lemma_expand_all_error(all: Seq<JsonModel>, ps: Providers, k: int)
    requires
        0 < k <= all.len(),
        expand_all(all.take(k), ps) is Err,
    ensures
        expand_all(all, ps) == expand_all(all.take(k), ps),
    decreases all.len() - k,
{
    if k < all.len() {
        assert(all.take(k + 1).drop_last() =~= all.take(k));
        lemma_expand_all_error(all, ps, k + 1);
    } else {
        assert(all.take(k) =~= all);
    }
}

/// Builds the config from the template `root` and what was gathered from
/// its `subscriptions_total` subscriptions.
pub fn finish_build(root: JsonValue, state: BuildState, subscriptions_total: usize) -> (r: Result<(JsonValue, SingboxBuildSummary), BuildError>)
    ensures
        match built_config(root@, state.model()) {
            Ok((v, w)) => r matches Ok((c, s)) && c@ == v && build_warnings_view(s.warnings@) == w
                && s.subscriptions_total == subscriptions_total && s.subscriptions_built == state.built
                && s.subscriptions_failed == state.failed && s.outbounds_added == state.tags_added,
            Err(e) => r matches Err(x) && x.model() == e,
        },
{
    let BuildState { providers, outbounds, warnings, built, failed, tags_added } = state;
    let mut warnings = warnings;
    let mut m = match root {
        JsonValue::Object(m) => m,
        _ => {
            return Err(BuildError::RootNotObject);
        },
    };
    proof {
        lemma_object_model(m);
    }
    let _ = remove_member(&mut m, "outbound_providers");
    let ghost m1 = members_model(m@);
    let i = find_member(&m, "outbounds");
    proof {
        crate::json::lemma_member_index(m1, "outbounds"@);
    }
    if i >= m.len() {
        return Err(BuildError::MissingOutbounds);
    }
    let (k, v) = m.remove(i);
    let items = match v {
        JsonValue::Array(items) => items,
        _ => {
            return Err(BuildError::MissingOutbounds);
        },
    };
    proof {
        lemma_array_model(items);
    }
    let mut expanded = match expand_outbounds(items, &providers, &mut warnings) {
        Ok(e) => e,
        Err(e) => {
            return Err(e);
        },
    };
    let ghost ev = items_model(expanded@);
    let ghost ov = items_model(outbounds@);
    let mut extra = outbounds;
    expanded.append(&mut extra);
    assert(items_model(expanded@) =~= ev + ov);
    proof {
        lemma_array_model(expanded);
    }
    m.insert(i, (k, JsonValue::Array(expanded)));
    assert(members_model(m@) =~= with_member(m1, "outbounds"@, JsonModel::Array(ev + ov)));
    proof {
        lemma_object_model(m);
    }
    let summary = SingboxBuildSummary {
        subscriptions_total,
        subscriptions_built: built,
        subscriptions_failed: failed,
        outbounds_added: tags_added,
        warnings,
    };
    Ok((JsonValue::Object(m), summary))
}

/// How a subscription's cache stands.
#[derive(Debug, Clone, Copy, PartialEq, Eq)]
pub enum CacheStatus {
    /// There is no cache file.
    MissingCache,
    /// The cache holds proxy nodes.
    Usable,
    /// The cache holds no proxy node.
    Empty,
    /// The cache could not be read as nodes.
    ParseError,
}

/// A remark on a subscription's cache.
#[derive(Debug, Clone, PartialEq, Eq)]
pub enum InspectNote {
    /// There is no cache file at this path.
    CacheFileMissing { path: String },
    /// Something skipped while reading the cache's nodes.
    Parse { warning: Warning },
    /// Why the cache could not be read as nodes.
    Failed { cause: InputError },
}

pub ghost enum InspectNoteModel {
    CacheFileMissing { path: Seq<char> },
    Parse { warning: WarningModel },
    Failed { cause: InputError },
}

impl View for InspectNote {
    type V = InspectNoteModel;

    open spec fn view(&self) -> InspectNoteModel {
        match self {
            InspectNote::CacheFileMissing { path } => InspectNoteModel::CacheFileMissing { path: path@ },
            InspectNote::Parse { warning } => InspectNoteModel::Parse { warning: warning@ },
            InspectNote::Failed { cause } => InspectNoteModel::Failed { cause: *cause },
        }
    }
}

/// A proxy node of a subscription's cache: its name and type.
pub struct SingboxSubscriptionNodeView {
    pub name: String,
    pub node_type: String,
}

/// A subscription and the state of its cache.
pub struct SingboxSubscriptionView {
    pub name: String,
    pub url: String,
    pub cache_file: String,
    pub cache_exists: bool,
    pub cache_size: u64,
    pub status: CacheStatus,
    pub warnings: Vec<InspectNote>,
    pub nodes: Vec<SingboxSubscriptionNodeView>,
}

pub open spec fn note_of(w: WarningModel) -> InspectNoteModel {
    InspectNoteModel::Parse { warning: w }
}

pub open spec fn notes_view(ns: Seq<InspectNote>) -> Seq<InspectNoteModel> {
    Seq::new(ns.len(), |i: int| ns[i]@)
}

pub open spec fn node_views(ns: Seq<SingboxSubscriptionNodeView>) -> Seq<(Seq<char>, Seq<char>)> {
    Seq::new(ns.len(), |i: int| (ns[i].name@, ns[i].node_type@))
}

pub open spec fn names_and_types(ns: Seq<NodeModel>) -> Seq<(Seq<char>, Seq<char>)> {
    Seq::new(ns.len(), |i: int| (ns[i].name, ns[i].ty))
}

/// The status, remarks and proxy nodes of a cache, given what reading it
/// gave (none where there is no cache file).
pub open spec fn inspected(cache_file: Seq<char>, parsed: Option<Result<InputModel, InputError>>) -> (CacheStatus, Seq<InspectNoteModel>, Seq<(Seq<char>, Seq<char>)>) {
    match parsed {
        None => (CacheStatus::MissingCache, seq![InspectNoteModel::CacheFileMissing { path: cache_file }], seq![]),
        Some(Err(e)) => (CacheStatus::ParseError, seq![InspectNoteModel::Failed { cause: e }], seq![]),
        Some(Ok(p)) => {
            let nodes = names_and_types(usable(p.nodes));
            (
                if nodes.len() == 0 {
                    CacheStatus::Empty
                } else {
                    CacheStatus::Usable
                },
                Seq::new(p.warnings.len(), |i: int| note_of(p.warnings[i])),
                nodes,
            )
        },
    }
}

fn parse_notes(ws: Vec<Warning>) -> (r: Vec<InspectNote>)
    ensures
        notes_view(r@) == Seq::new(ws@.len(), |i: int| note_of(ws@[i]@)),
{
    let ghost target = Seq::new(ws@.len(), |i: int| note_of(ws@[i]@));
    let ghost wv = warnings_view(ws@);
    let n = ws.len();
    let mut rest = ws;
    let mut out: Vec<InspectNote> = Vec::new();
    let mut k: usize = 0;
    assert(notes_view(out@) =~= target.take(0));
    while rest.len() > 0
        invariant
            n == target.len(),
            k + rest@.len() == target.len(),
            forall|j: int| 0 <= j < rest@.len() ==> #[trigger] note_of(rest@[j]@) == target[k + j],
            notes_view(out@) == target.take(k as int),
        decreases rest.len(),
    {
        let ghost r0 = rest@;
        let w = rest.remove(0);
        assert(note_of(w@) == target[k as int]) by {
            assert(note_of(r0[0]@) == target[k + 0]);
        }
        assert forall|j: int| 0 <= j < rest@.len() implies #[trigger] note_of(rest@[j]@) == target[k + 1 + j] by {
            assert(rest@[j] == r0[j + 1]);
            assert(note_of(r0[j + 1]@) == target[k + (j + 1)]);
        }
        let ghost before = notes_view(out@);
        let ghost wm = w@;
        out.push(InspectNote::Parse { warning: w });
        assert(notes_view(out@) =~= before.push(note_of(wm)));
        assert(target.take(k + 1) =~= target.take(k as int).push(target[k as int]));
        k = k + 1;
    }
    assert(target.take(k as int) =~= target);
    out
}

fn node_list(nodes: Vec<ProxyNode>) -> (r: Vec<SingboxSubscriptionNodeView>)
    ensures
        node_views(r@) == names_and_types(nodes_view(nodes@)),
{
    let ghost target = names_and_types(nodes_view(nodes@));
    let n = nodes.len();
    let mut rest = nodes;
    let mut out: Vec<SingboxSubscriptionNodeView> = Vec::new();
    let mut k: usize = 0;
    assert(node_views(out@) =~= target.take(0));
    while rest.len() > 0
        invariant
            n == target.len(),
            k + rest@.len() == target.len(),
            forall|j: int| 0 <= j < rest@.len() ==> (#[trigger] rest@[j].name@, rest@[j].ty@) == target[k + j],
            node_views(out@) == target.take(k as int),
        decreases rest.len(),
    {
        let ghost r0 = rest@;
        let node = rest.remove(0);
        assert((node.name@, node.ty@) == target[k as int]) by {
            assert((r0[0].name@, r0[0].ty@) == target[k + 0]);
        }
        assert forall|j: int| 0 <= j < rest@.len() implies (#[trigger] rest@[j].name@, rest@[j].ty@) == target[k + 1 + j] by {
            assert(rest@[j] == r0[j + 1]);
            assert((r0[j + 1].name@, r0[j + 1].ty@) == target[k + (j + 1)]);
        }
        let ghost before = node_views(out@);
        let ProxyNode { name, ty, data: _ } = node;
        let ghost pair = (name@, ty@);
        out.push(SingboxSubscriptionNodeView { name, node_type: ty });
        assert(node_views(out@) =~= before.push(pair));
        assert(target.take(k + 1) =~= target.take(k as int).push(target[k as int]));
        k = k + 1;
    }
    assert(target.take(k as int) =~= target);
    out
}

/// A subscription's cache as inspected, given what reading it gave (none
/// where there is no cache file): missing, unreadable, empty or ok, with the
/// remarks and the proxy nodes.
pub fn inspect_subscription(
    name: String,
    url: String,
    cache_file: String,
    cache_size: u64,
    parsed: Option<Result<ParsedInput, InputError>>,
) -> (r: SingboxSubscriptionView)
    ensures
        r.name == name,
        r.url == url,
        r.cache_file == cache_file,
        r.cache_exists == parsed is Some,
        r.cache_size == cache_size,
        (r.status, notes_view(r.warnings@), node_views(r.nodes@)) == inspected(
            cache_file@,
            match parsed {
                Some(p) => Some(input_result_view(p)),
                None => None,
            },
        ),
{
    let cache_exists = parsed.is_some();
    let (status, warnings, nodes) = match parsed {
        None => {
            let mut w: Vec<InspectNote> = Vec::new();
            w.push(InspectNote::CacheFileMissing { path: cache_file.clone() });
            let nodes: Vec<SingboxSubscriptionNodeView> = Vec::new();
            assert(notes_view(w@) =~= seq![InspectNoteModel::CacheFileMissing { path: cache_file@ }]);
            assert(node_views(nodes@) =~= Seq::<(Seq<char>, Seq<char>)>::empty());
            (CacheStatus::MissingCache, w, nodes)
        },
        Some(Err(e)) => {
            let mut w: Vec<InspectNote> = Vec::new();
            w.push(InspectNote::Failed { cause: e });
            let nodes: Vec<SingboxSubscriptionNodeView> = Vec::new();
            assert(notes_view(w@) =~= seq![InspectNoteModel::Failed { cause: e }]);
            assert(node_views(nodes@) =~= Seq::<(Seq<char>, Seq<char>)>::empty());
            (CacheStatus::ParseError, w, nodes)
        },
        Some(Ok(p)) => {
            let ParsedInput { nodes, warnings } = p;
            let list = node_list(usable_nodes(nodes));
            let status = if list.len() == 0 {
                CacheStatus::Empty
            } else {
                CacheStatus::Usable
            };
            (status, parse_notes(warnings), list)
        },
    };
    SingboxSubscriptionView { name, url, cache_file, cache_exists, cache_size, status, warnings, nodes }
}

/// No member of `o` has the key `k`.
pub open spec fn absent(o: Members, k: Seq<char>) -> bool {
    forall|i: int| 0 <= i < o.len() ==> #[trigger] o[i].0 != k
}

/// No two members of `o` share a key, as in any JSON object that a parser
/// reads.
pub open spec fn distinct_keys(o: Members) -> bool {
    forall|i: int, j: int| 0 <= i < j < o.len() ==> #[trigger] o[i].0 != #[trigger] o[j].0
}

proof fn lemma_absent_member(o: Members, k: Seq<char>)
    ensures
        member(o, k) is None <==> absent(o, k),
{
    crate::json::lemma_member_index(o, k);
}

proof fn lemma_without_keeps_absent(o: Members, k: Seq<char>, k2: Seq<char>)
    requires
        absent(o, k),
    ensures
        absent(without_member(o, k2), k),
{
    crate::json::lemma_member_index(o, k2);
    let i = crate::json::member_index(o, k2);
    if i < o.len() {
        assert forall|j: int| 0 <= j < o.remove(i).len() implies #[trigger] o.remove(i)[j].0 != k by {
            if j < i {
                assert(o.remove(i)[j] == o[j]);
            } else {
                assert(o.remove(i)[j] == o[j + 1]);
            }
        }
    }
}

proof fn lemma_with_keeps_absent(o: Members, k: Seq<char>, k2: Seq<char>, v: JsonModel)
    requires
        absent(o, k),
        k != k2,
    ensures
        absent(with_member(o, k2, v), k),
{
    crate::json::lemma_member_index(o, k2);
    let w = with_member(o, k2, v);
    assert forall|j: int| 0 <= j < w.len() implies #[trigger] w[j].0 != k by {
        if j < o.len() {
            if j != crate::json::member_index(o, k2) {
                assert(w[j] == o[j]);
            }
        }
    }
}

proof fn lemma_without_removes(o: Members, k: Seq<char>)
    requires
        distinct_keys(o),
    ensures
        absent(without_member(o, k), k),
        distinct_keys(without_member(o, k)),
{
    crate::json::lemma_member_index(o, k);
    let i = crate::json::member_index(o, k);
    if i < o.len() {
        let r = o.remove(i);
        assert forall|j: int| 0 <= j < r.len() implies #[trigger] r[j].0 != k by {
            if j < i {
                assert(r[j] == o[j]);
            } else {
                assert(r[j] == o[j + 1]);
                assert(o[i].0 != o[j + 1].0);
            }
        }
        assert forall|a: int, b: int| 0 <= a < b < r.len() implies #[trigger] r[a].0 != #[trigger] r[b].0 by {
            let oa = if a < i {
                a
            } else {
                a + 1
            };
            let ob = if b < i {
                b
            } else {
                b + 1
            };
            assert(r[a] == o[oa]);
            assert(r[b] == o[ob]);
            assert(o[oa].0 != o[ob].0);
        }
    }
}

/// An outbound without `include`, `filter` and `exclude_filter` goes into
/// the config exactly as the template has it, and warns of nothing.
pub proof fn plain_outbound_is_untouched(o: Members, ps: Providers)
    requires
        member(o, "include"@) is None,
        member(o, "filter"@) is None,
        member(o, "exclude_filter"@) is None,
    ensures
        expanded(o, ps) == Ok::<(Members, Seq<BuildWarningModel>), BuildFailure>((o, seq![])),
{
    crate::json::lemma_member_index(o, "include"@);
    crate::json::lemma_member_index(o, "filter"@);
    crate::json::lemma_member_index(o, "exclude_filter"@);
}

/// Whatever a template outbound becomes, it keeps none of the template
/// fields `include`, `filter` and `exclude_filter`.
pub proof fn template_fields_are_removed(o: Members, ps: Providers)
    requires
        distinct_keys(o),
        expanded(o, ps) is Ok,
    ensures
        member(expanded(o, ps)->Ok_0.0, "include"@) is None,
        member(expanded(o, ps)->Ok_0.0, "filter"@) is None,
        member(expanded(o, ps)->Ok_0.0, "exclude_filter"@) is None,
{
    let oa = without_member(o, "include"@);
    lemma_without_removes(o, "include"@);
    let ob = without_member(oa, "filter"@);
    lemma_without_removes(oa, "filter"@);
    lemma_without_keeps_absent(oa, "include"@, "filter"@);
    let o1 = without_member(ob, "exclude_filter"@);
    lemma_without_removes(ob, "exclude_filter"@);
    lemma_without_keeps_absent(ob, "include"@, "exclude_filter"@);
    lemma_without_keeps_absent(ob, "filter"@, "exclude_filter"@);
    let r = expanded(o, ps)->Ok_0.0;
    assert(absent(r, "include"@) && absent(r, "filter"@) && absent(r, "exclude_filter"@)) by {
        reveal_strlit("include");
        reveal_strlit("filter");
        reveal_strlit("exclude_filter");
        reveal_strlit("outbounds");
        assert("include"@ != "outbounds"@) by {
            assert("include"@[0] != "outbounds"@[0]);
        }
        assert("filter"@ != "outbounds"@) by {
            assert("filter"@[0] != "outbounds"@[0]);
        }
        assert("exclude_filter"@ != "outbounds"@) by {
            assert("exclude_filter"@[0] != "outbounds"@[0]);
        }
        lemma_with_keeps_absent(o1, "include"@, "outbounds"@, JsonModel::Array(seq![JsonModel::String("direct"@)]));
        lemma_with_keeps_absent(o1, "filter"@, "outbounds"@, JsonModel::Array(seq![JsonModel::String("direct"@)]));
        lemma_with_keeps_absent(o1, "exclude_filter"@, "outbounds"@, JsonModel::Array(seq![JsonModel::String("direct"@)]));
        assert forall|v: JsonModel| absent(with_member(o1, "outbounds"@, v), "include"@) && absent(with_member(o1, "outbounds"@, v), "filter"@)
            && absent(with_member(o1, "outbounds"@, v), "exclude_filter"@) by {
            lemma_with_keeps_absent(o1, "include"@, "outbounds"@, v);
            lemma_with_keeps_absent(o1, "filter"@, "outbounds"@, v);
            lemma_with_keeps_absent(o1, "exclude_filter"@, "outbounds"@, v);
        }
    }
    lemma_absent_member(r, "include"@);
    lemma_absent_member(r, "filter"@);
    lemma_absent_member(r, "exclude_filter"@);
}

/// A built config keeps no `outbound_providers`: the subscriptions are the
/// template's own business.
pub proof fn providers_leave_the_config(root: JsonModel, st: BuildModel)
    requires
        root matches JsonModel::Object(m) && distinct_keys(m),
        built_config(root, st) is Ok,
    ensures
        built_config(root, st)->Ok_0.0 matches JsonModel::Object(m2) && member(m2, "outbound_providers"@) is None,
{
    if let JsonModel::Object(m) = root {
        let m1 = without_member(m, "outbound_providers"@);
        lemma_without_removes(m, "outbound_providers"@);
        assert("outbound_providers"@ != "outbounds"@) by {
            reveal_strlit("outbound_providers");
            reveal_strlit("outbounds");
            assert("outbound_providers"@.len() != "outbounds"@.len());
        }
        assert forall|v: JsonModel| absent(with_member(m1, "outbounds"@, v), "outbound_providers"@) by {
            lemma_with_keeps_absent(m1, "outbound_providers"@, "outbounds"@, v);
        }
        if let JsonModel::Object(m2) = built_config(root, st)->Ok_0.0 {
            lemma_absent_member(m2, "outbound_providers"@);
        }
    }
}

proof fn lemma_encoded_safe(s: Seq<char>)
    ensures
        forall|i: int| 0 <= i < encode_name(s).0.len() ==> file_safe(#[trigger] encode_name(s).0[i]),
    decreases s.len(),
{
    if s.len() > 0 {
        lemma_encoded_safe(s.drop_last());
        let (o, sq) = encode_name(s.drop_last());
        let r = encode_name(s).0;
        assert forall|i: int| 0 <= i < r.len() implies file_safe(#[trigger] r[i]) by {
            if i < o.len() {
                assert(r[i] == o[i]);
            }
        }
    }
}

proof fn lemma_encoded_identity(s: Seq<char>)
    requires
        forall|i: int| 0 <= i < s.len() ==> file_safe(#[trigger] s[i]),
    ensures
        encode_name(s) == (s, false),
    decreases s.len(),
{
    if s.len() > 0 {
        assert forall|i: int| 0 <= i < s.drop_last().len() implies file_safe(#[trigger] s.drop_last()[i]) by {
            assert(s.drop_last()[i] == s[i]);
        }
        lemma_encoded_identity(s.drop_last());
        assert(s.drop_last().push(s.last()) =~= s);
    }
}

/// A cache file name is made only of ASCII letters, digits, `.`, `_` and
/// `-`, so it is one path component whatever the subscription is called;
/// a name made only of those characters is kept as it is.
pub proof fn cache_file_names_are_safe(name: Seq<char>)
    ensures
        forall|i: int| 0 <= i < cache_file_name(name).len() ==> file_safe(#[trigger] cache_file_name(name)[i]),
        name.len() > 0 && (forall|i: int| 0 <= i < name.len() ==> file_safe(#[trigger] name[i])) ==> cache_file_name(name)
            == name + ".txt"@,
{
    lemma_encoded_safe(name);
    reveal_strlit(".txt");
    let e = encode_name(name).0;
    let head = if e.len() == 0 {
        seq!['_']
    } else {
        e
    };
    assert forall|i: int| 0 <= i < cache_file_name(name).len() implies file_safe(#[trigger] cache_file_name(name)[i]) by {
        if i < head.len() {
            assert(cache_file_name(name)[i] == head[i]);
        } else {
            assert(cache_file_name(name)[i] == ".txt"@[i - head.len()]);
        }
    }
    if name.len() > 0 && (forall|i: int| 0 <= i < name.len() ==> file_safe(#[trigger] name[i])) {
        lemma_encoded_identity(name);
    }
}

/// Every tag that a template group selects passes its filters: it matches
/// `filter` (where there is one) and does not match `exclude_filter`
/// (where there is one); and every candidate that passes is selected.
pub proof fn selected_tags_pass_the_filters(tags: Seq<Seq<char>>, filter: Option<Seq<char>>, exclude: Option<Seq<char>>)
    ensures
        forall|i: int| 0 <= i < selected(tags, filter, exclude).len() ==> keeps(#[trigger] selected(tags, filter, exclude)[i], filter, exclude),
        forall|i: int| 0 <= i < tags.len() && keeps(#[trigger] tags[i], filter, exclude) ==> selected(tags, filter, exclude).contains(tags[i]),
    decreases tags.len(),
{
    if tags.len() > 0 {
        let rest = tags.drop_last();
        selected_tags_pass_the_filters(rest, filter, exclude);
        let r = selected(rest, filter, exclude);
        let all = selected(tags, filter, exclude);
        assert forall|i: int| 0 <= i < all.len() implies keeps(#[trigger] all[i], filter, exclude) by {
            if i < r.len() {
                assert(all[i] == r[i]);
            }
        }
        assert forall|i: int| 0 <= i < tags.len() && keeps(#[trigger] tags[i], filter, exclude) implies all.contains(tags[i]) by {
            if i < rest.len() {
                assert(rest[i] == tags[i]);
                let j = choose|j: int| 0 <= j < r.len() && r[j] == rest[i];
                assert(all[j] == r[j]);
            } else {
                assert(all[all.len() - 1] == tags[i]);
            }
        }
    }
}

proof fn lemma_without_keeps_member(o: Members, k: Seq<char>, k2: Seq<char>)
    requires
        distinct_keys(o),
        k != k2,
    ensures
        member(without_member(o, k2), k) == member(o, k),
        distinct_keys(without_member(o, k2)),
{
    lemma_without_removes(o, k2);
    crate::json::lemma_member_index(o, k2);
    crate::json::lemma_member_index(o, k);
    let i2 = crate::json::member_index(o, k2);
    let w = without_member(o, k2);
    crate::json::lemma_member_index(w, k);
    let a = crate::json::member_index(o, k);
    let b = crate::json::member_index(w, k);
    if i2 < o.len() {
        // the members of `w` are those of `o` without the one at `i2`
        if a < o.len() {
            assert(a != i2);
            let wa = if a < i2 {
                a
            } else {
                a - 1
            };
            assert(w[wa] == o[a]);
            if b < wa {
                let ob = if b < i2 {
                    b
                } else {
                    b + 1
                };
                assert(w[b] == o[ob]);
            }
            assert(b == wa);
        } else {
            if b < w.len() {
                let ob = if b < i2 {
                    b
                } else {
                    b + 1
                };
                assert(w[b] == o[ob]);
            }
        }
    }
}

proof fn lemma_with_sets_member(o: Members, k: Seq<char>, v: JsonModel)
    ensures
        member(with_member(o, k, v), k) == Some(v),
{
    crate::json::lemma_member_index(o, k);
    let w = with_member(o, k, v);
    crate::json::lemma_member_index(w, k);
    let i = crate::json::member_index(o, k);
    let j = crate::json::member_index(w, k);
    // `w` holds the pair at `i`, and no earlier member of `w` has key `k`
    assert(w[i] == (k, v));
    assert(w[i].0 == k);
    if j < i {
        assert(w[j] == o[j]);
        assert(o[j].0 != k);
    }
    assert(j == i);
}

/// A template group keeps the `outbounds` it already lists, first, and
/// only adds the selected tags after them.
pub proof fn static_outbounds_come_first(o: Members, ps: Providers)
    requires
        distinct_keys(o),
        member(o, "outbounds"@) matches Some(JsonModel::Array(items)) && items.len() > 0,
        expanded(o, ps) is Ok,
    ensures
        member(expanded(o, ps)->Ok_0.0, "outbounds"@) matches Some(JsonModel::Array(out)) && out.len() >= member(
            o,
            "outbounds"@,
        )->Some_0->Array_0.len() && out.take(member(o, "outbounds"@)->Some_0->Array_0.len() as int) == member(
            o,
            "outbounds"@,
        )->Some_0->Array_0,
{
    reveal_strlit("include");
    reveal_strlit("filter");
    reveal_strlit("exclude_filter");
    reveal_strlit("outbounds");
    assert("include"@ != "outbounds"@) by {
        assert("include"@[0] != "outbounds"@[0]);
    }
    assert("filter"@ != "outbounds"@) by {
        assert("filter"@[0] != "outbounds"@[0]);
    }
    assert("exclude_filter"@ != "outbounds"@) by {
        assert("exclude_filter"@[0] != "outbounds"@[0]);
    }
    let items = member(o, "outbounds"@)->Some_0->Array_0;
    let oa = without_member(o, "include"@);
    lemma_without_keeps_member(o, "outbounds"@, "include"@);
    let ob = without_member(oa, "filter"@);
    lemma_without_keeps_member(oa, "outbounds"@, "filter"@);
    let o1 = without_member(ob, "exclude_filter"@);
    lemma_without_keeps_member(ob, "outbounds"@, "exclude_filter"@);
    assert(member(o1, "outbounds"@) == member(o, "outbounds"@));
    assert forall|v: JsonModel| member(with_member(o1, "outbounds"@, v), "outbounds"@) == Some(v) by {
        lemma_with_sets_member(o1, "outbounds"@, v);
    }
    plain_or_expanded_keeps(o, ps, items);
}

proof fn plain_or_expanded_keeps(o: Members, ps: Providers, items: Seq<JsonModel>)
    requires
        distinct_keys(o),
        member(o, "outbounds"@) == Some(JsonModel::Array(items)),
        items.len() > 0,
        expanded(o, ps) is Ok,
        member(without_member(without_member(without_member(o, "include"@), "filter"@), "exclude_filter"@), "outbounds"@)
            == Some(JsonModel::Array(items)),
        forall|v: JsonModel|
            member(
                #[trigger] with_member(without_member(without_member(without_member(o, "include"@), "filter"@), "exclude_filter"@), "outbounds"@, v),
                "outbounds"@,
            ) == Some(v),
    ensures
        member(expanded(o, ps)->Ok_0.0, "outbounds"@) matches Some(JsonModel::Array(out)) && out.len() >= items.len()
            && out.take(items.len() as int) == items,
{
    let r = expanded(o, ps)->Ok_0.0;
    let o1 = without_member(without_member(without_member(o, "include"@), "filter"@), "exclude_filter"@);
    if member(o, "include"@) is None && member(without_member(o, "include"@), "filter"@) is None
        && member(without_member(without_member(o, "include"@), "filter"@), "exclude_filter"@) is None {
        assert(r == o1);
        assert(items.take(items.len() as int) =~= items);
    } else {
        let tag = member_str(o, "tag"@);
        let f = pattern_field(member(without_member(o, "include"@), "filter"@), TemplateField::Filter, tag)->Ok_0;
        let x = pattern_field(
            member(without_member(without_member(o, "include"@), "filter"@), "exclude_filter"@),
            TemplateField::ExcludeFilter,
            tag,
        )->Ok_0;
        let (cands, w) = match include_names(member(o, "include"@)) {
            Some(names) => candidates(ps, names, tag),
            None => (all_provider_tags(ps), seq![]),
        };
        let matched = selected(cands, f, x);
        let arr = items + json_texts(matched);
        assert(r == with_selected(o1, items, matched, tag, w).0);
        assert(arr.len() > 0);
        assert(r == with_member(o1, "outbounds"@, JsonModel::Array(arr)));
        assert(arr.take(items.len() as int) =~= items);
    }
}

/// The candidates of an include list are those of its first part followed
/// by those of the rest: each included subscription adds its tags, in
/// include order, after those of the subscriptions named before it.
pub proof fn included_tags_concatenate(ps: Providers, a: Seq<Seq<char>>, b: Seq<Seq<char>>, outbound: Option<Seq<char>>)
    ensures
        candidates(ps, a + b, outbound).0 == candidates(ps, a, outbound).0 + candidates(ps, b, outbound).0,
    decreases b.len(),
{
    if b.len() == 0 {
        assert(a + b =~= a);
        assert(candidates(ps, a, outbound).0 + candidates(ps, b, outbound).0 =~= candidates(ps, a, outbound).0);
    } else {
        let b0 = b.drop_last();
        included_tags_concatenate(ps, a, b0, outbound);
        assert((a + b).drop_last() =~= a + b0);
        assert((a + b).last() == b.last());
        match provider_tags(ps, b.last()) {
            Some(t) => {
                assert(candidates(ps, a + b, outbound).0 =~= candidates(ps, a, outbound).0 + candidates(ps, b, outbound).0);
            },
            None => {},
        }
    }
}

/// Including one subscription gives exactly its tags, in order, and
/// nothing where there is no subscription of that name.
pub proof fn one_include_gives_its_tags(ps: Providers, n: Seq<char>, outbound: Option<Seq<char>>)
    ensures
        candidates(ps, seq![n], outbound).0 == match provider_tags(ps, n) {
            Some(t) => t,
            None => Seq::<Seq<char>>::empty(),
        },
{
    assert(seq![n].drop_last() =~= Seq::<Seq<char>>::empty());
    assert(seq![n].last() == n);
    assert(candidates(ps, Seq::<Seq<char>>::empty(), outbound).0 == Seq::<Seq<char>>::empty());
    assert(candidates(ps, seq![n].drop_last(), outbound).0 == Seq::<Seq<char>>::empty());
    match provider_tags(ps, n) {
        Some(t) => {
            assert(Seq::<Seq<char>>::empty() + t =~= t);
        },
        None => {},
    }
}

/// Every tag of every included subscription that exists is a candidate of
/// the group.
pub proof fn every_included_tag_is_a_candidate(ps: Providers, names: Seq<Seq<char>>, outbound: Option<Seq<char>>)
    ensures
        forall|i: int, j: int|
            0 <= i < names.len() && provider_tags(ps, names[i]) is Some && 0 <= j < provider_tags(ps, names[i])->Some_0.len()
                ==> candidates(ps, names, outbound).0.contains(#[trigger] provider_tags(ps, names[i])->Some_0[j]),
    decreases names.len(),
{
    if names.len() > 0 {
        let n0 = names.drop_last();
        every_included_tag_is_a_candidate(ps, n0, outbound);
        let c0 = candidates(ps, n0, outbound).0;
        let c = candidates(ps, names, outbound).0;
        assert forall|i: int, j: int|
            0 <= i < names.len() && provider_tags(ps, names[i]) is Some && 0 <= j < provider_tags(ps, names[i])->Some_0.len()
                implies c.contains(#[trigger] provider_tags(ps, names[i])->Some_0[j]) by {
            let t = provider_tags(ps, names[i])->Some_0;
            if i < n0.len() {
                assert(names[i] == n0[i]);
                assert(c0.contains(t[j]));
                let k = choose|k: int| 0 <= k < c0.len() && c0[k] == t[j];
                match provider_tags(ps, names.last()) {
                    Some(tl) => {
                        assert(c == c0 + tl);
                        assert(c[k] == t[j]);
                    },
                    None => {},
                }
            } else {
                assert(names[i] == names.last());
                assert(c == c0 + t);
                assert(c[c0.len() + j] == t[j]);
            }
        }
    }
}

/// A group that includes subscriptions offers, among its `outbounds`, every
/// tag of every included subscription that passes its `filter` and
/// `exclude_filter`.
pub proof fn kept_included_tags_are_offered(o: Members, ps: Providers, i: int, j: int)
    requires
        distinct_keys(o),
        expanded(o, ps) is Ok,
        member(o, "include"@) matches Some(JsonModel::Array(_)),
        member(o, "outbounds"@) is None || member(o, "outbounds"@) matches Some(JsonModel::Array(_)),
        ({
            let names = include_names(member(o, "include"@))->Some_0;
            &&& 0 <= i < names.len()
            &&& provider_tags(ps, names[i]) is Some
            &&& 0 <= j < provider_tags(ps, names[i])->Some_0.len()
            &&& keeps(
                provider_tags(ps, names[i])->Some_0[j],
                pattern_field(member(without_member(o, "include"@), "filter"@), TemplateField::Filter, member_str(o, "tag"@))->Ok_0,
                pattern_field(
                    member(without_member(without_member(o, "include"@), "filter"@), "exclude_filter"@),
                    TemplateField::ExcludeFilter,
                    member_str(o, "tag"@),
                )->Ok_0,
            )
        }),
    ensures
        member(expanded(o, ps)->Ok_0.0, "outbounds"@) matches Some(JsonModel::Array(out)) && out.contains(
            JsonModel::String(provider_tags(ps, include_names(member(o, "include"@))->Some_0[i])->Some_0[j]),
        ),
{
    reveal_strlit("include");
    reveal_strlit("filter");
    reveal_strlit("exclude_filter");
    reveal_strlit("outbounds");
    assert("include"@ != "outbounds"@) by {
        assert("include"@[0] != "outbounds"@[0]);
    }
    assert("filter"@ != "outbounds"@) by {
        assert("filter"@[0] != "outbounds"@[0]);
    }
    assert("exclude_filter"@ != "outbounds"@) by {
        assert("exclude_filter"@[0] != "outbounds"@[0]);
    }
    let names = include_names(member(o, "include"@))->Some_0;
    let t = provider_tags(ps, names[i])->Some_0;
    let tag = member_str(o, "tag"@);
    let oa = without_member(o, "include"@);
    lemma_without_keeps_member(o, "outbounds"@, "include"@);
    let ob = without_member(oa, "filter"@);
    lemma_without_keeps_member(oa, "outbounds"@, "filter"@);
    let o1 = without_member(ob, "exclude_filter"@);
    lemma_without_keeps_member(ob, "outbounds"@, "exclude_filter"@);
    assert(member(o1, "outbounds"@) == member(o, "outbounds"@));
    let f = pattern_field(member(oa, "filter"@), TemplateField::Filter, tag)->Ok_0;
    let x = pattern_field(member(ob, "exclude_filter"@), TemplateField::ExcludeFilter, tag)->Ok_0;
    let cands = candidates(ps, names, tag).0;
    let w = candidates(ps, names, tag).1;
    every_included_tag_is_a_candidate(ps, names, tag);
    assert(cands.contains(t[j]));
    let k = choose|k: int| 0 <= k < cands.len() && cands[k] == t[j];
    selected_tags_pass_the_filters(cands, f, x);
    let matched = selected(cands, f, x);
    assert(keeps(cands[k], f, x));
    assert(matched.contains(cands[k]));
    let m = choose|m: int| 0 <= m < matched.len() && matched[m] == t[j];
    let items = match member(o1, "outbounds"@) {
        Some(JsonModel::Array(items)) => items,
        _ => seq![],
    };
    let arr = items + json_texts(matched);
    assert(arr[items.len() + m] == JsonModel::String(t[j]));
    assert(arr.len() > 0);
    lemma_with_sets_member(o1, "outbounds"@, JsonModel::Array(arr));
    assert(expanded(o, ps)->Ok_0.0 == with_selected(o1, items, matched, tag, w).0);
    assert(with_selected(o1, items, matched, tag, w).0 == with_member(o1, "outbounds"@, JsonModel::Array(arr)));
}

/// Whether `t` is a tag of some subscription.
pub open spec fn is_subscription_tag(ps: Providers, t: Seq<char>) -> bool {
    exists|i: int, j: int| #![trigger ps[i].1[j]] 0 <= i < ps.len() && 0 <= j < ps[i].1.len() && ps[i].1[j] == t
}

/// Without `include`, the candidates are the tags of every subscription:
/// each tag of each subscription is among them, and there are no others.
pub proof fn every_subscription_tag_is_a_candidate(ps: Providers)
    ensures
        forall|i: int, j: int| 0 <= i < ps.len() && 0 <= j < ps[i].1.len() ==> all_provider_tags(ps).contains(#[trigger] ps[i].1[j]),
        forall|k: int| 0 <= k < all_provider_tags(ps).len() ==> is_subscription_tag(ps, #[trigger] all_provider_tags(ps)[k]),
    decreases ps.len(),
{
    if ps.len() > 0 {
        let p0 = ps.drop_last();
        every_subscription_tag_is_a_candidate(p0);
        let a0 = all_provider_tags(p0);
        let a = all_provider_tags(ps);
        let last = ps.last().1;
        assert(a == a0 + last);
        assert forall|i: int, j: int| 0 <= i < ps.len() && 0 <= j < ps[i].1.len() implies a.contains(#[trigger] ps[i].1[j]) by {
            if i < p0.len() {
                assert(ps[i] == p0[i]);
                assert(a0.contains(p0[i].1[j]));
                let k = choose|k: int| 0 <= k < a0.len() && a0[k] == p0[i].1[j];
                assert(a[k] == a0[k]);
            } else {
                assert(a[a0.len() + j] == last[j]);
            }
        }
        assert forall|k: int| 0 <= k < a.len() implies is_subscription_tag(ps, #[trigger] a[k]) by {
            if k < a0.len() {
                assert(a[k] == a0[k]);
                assert(is_subscription_tag(p0, a0[k]));
                let (i, j) = choose|i: int, j: int|
                    #![trigger p0[i].1[j]]
                    0 <= i < p0.len() && 0 <= j < p0[i].1.len() && p0[i].1[j] == a0[k];
                assert(ps[i] == p0[i]);
                assert(a[k] == ps[i].1[j]);
                assert(0 <= i < ps.len() && 0 <= j < ps[i].1.len() && ps[i].1[j] == a[k]);
            } else {
                let j = k - a0.len();
                let i = ps.len() - 1;
                assert(a[k] == last[j]);
                assert(ps[i] == ps.last());
                assert(0 <= i < ps.len() && 0 <= j < ps[i].1.len() && ps[i].1[j] == a[k]);
            }
        }
    }
}

/// A name finds the tags of the first subscription of that name, and
/// nothing where no subscription has it.
pub proof fn a_name_finds_its_subscription(ps: Providers, name: Seq<char>)
    ensures
        provider_tags(ps, name) is Some <==> exists|k: int| 0 <= k < ps.len() && #[trigger] ps[k].0 == name,
        provider_tags(ps, name) is Some ==> exists|k: int|
            0 <= k < ps.len() && #[trigger] ps[k].0 == name && provider_tags(ps, name) == Some(ps[k].1) && forall|j: int|
                0 <= j < k ==> ps[j].0 != name,
    decreases ps.len(),
{
    if ps.len() > 0 {
        let rest = ps.subrange(1, ps.len() as int);
        a_name_finds_its_subscription(rest, name);
        if ps[0].0 == name {
            assert(provider_tags(ps, name) == Some(ps[0].1));
        } else {
            if exists|k: int| 0 <= k < ps.len() && #[trigger] ps[k].0 == name {
                let k = choose|k: int| 0 <= k < ps.len() && #[trigger] ps[k].0 == name;
                assert(rest[k - 1] == ps[k]);
            }
            if provider_tags(ps, name) is Some {
                let k = choose|k: int|
                    0 <= k < rest.len() && #[trigger] rest[k].0 == name && provider_tags(rest, name) == Some(rest[k].1)
                        && forall|j: int| 0 <= j < k ==> rest[j].0 != name;
                assert(ps[k + 1] == rest[k]);
                assert forall|j: int| 0 <= j < k + 1 implies ps[j].0 != name by {
                    if j > 0 {
                        assert(ps[j] == rest[j - 1]);
                    }
                }
            } else {
                assert forall|k: int| 0 <= k < ps.len() implies #[trigger] ps[k].0 != name by {
                    if k > 0 {
                        assert(ps[k] == rest[k - 1]);
                    }
                }
            }
        }
    }
}

} // verus!
