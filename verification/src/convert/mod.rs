//! Turning proxy nodes into sing-box outbounds, with an optional `urltest`
//! group and `selector` over them.
pub mod fields;
pub mod object;
pub mod options;
pub mod protocols;

use vstd::prelude::*;

use crate::convert::fields::strings_view;
use crate::convert::object::{jlist, js, ju, string_array, Members, ObjectBuilder};
use crate::convert::protocols::{convert_node, node_result_view, node_spec, node_warnings};
use crate::input::{nodes_view, warnings_view, NodeModel, ProxyNode, Warning, WarningModel};
use crate::json::{
    get_member_str, lemma_object_model, member_str, members_model, set_member, with_member,
    items_model, JsonModel, JsonValue, NumberValue,
};
use crate::text::{chars_eq, chars_of, decimal, decimal_chars, digit_char, push_all, string_of_chars};

verus! {

/// How often `x` occurs in `s`.
pub open spec fn count_of(s: Seq<Seq<char>>, x: Seq<char>) -> nat
    decreases s.len(),
{
    if s.len() == 0 {
        0
    } else {
        count_of(s.drop_last(), x) + if s.last() == x {
            1nat
        } else {
            0nat
        }
    }
}

/// The tag of a base tag seen `k` times before: the base itself the first
/// time, then `base-2`, `base-3`, ...
pub open spec fn tag_with_count(base: Seq<char>, k: nat) -> Seq<char> {
    if k == 0 {
        base
    } else {
        base + "-"@ + decimal(k + 1)
    }
}

/// The tags given to outbounds with these base tags, in order.
pub open spec fn unique_tags(bases: Seq<Seq<char>>) -> Seq<Seq<char>> {
    Seq::new(bases.len(), |i: int| tag_with_count(bases[i], count_of(bases.take(i), bases[i])))
}

/// How many times each tag was given out so far: the count of the first
/// entry for `key`, or zero.
pub open spec fn count_in(cs: Seq<(String, usize)>, key: Seq<char>) -> nat
    decreases cs.len(),
{
    if cs.len() == 0 {
        0
    } else if cs[0].0@ == key {
        cs[0].1 as nat
    } else {
        count_in(cs.subrange(1, cs.len() as int), key)
    }
}

proof fn lemma_count_in_update(cs: Seq<(String, usize)>, i: int, key: Seq<char>, n: usize, other: Seq<char>)
    requires
        0 <= i < cs.len(),
        cs[i].0@ == key,
        forall|j: int| 0 <= j < i ==> cs[j].0@ != key,
    ensures
        count_in(cs.update(i, (cs[i].0, n)), key) == n,
        other != key ==> count_in(cs.update(i, (cs[i].0, n)), other) == count_in(cs, other),
        count_in(cs, key) == cs[i].1,
    decreases cs.len(),
{
    let u = cs.update(i, (cs[i].0, n));
    assert(u.subrange(1, u.len() as int) =~= cs.subrange(1, cs.len() as int).update(i - 1, (cs[i].0, n)) || i == 0);
    if i == 0 {
        assert(u.subrange(1, u.len() as int) =~= cs.subrange(1, cs.len() as int));
    } else {
        assert(cs[0].0@ != key);
        let t = cs.subrange(1, cs.len() as int);
        assert(u.subrange(1, u.len() as int) =~= t.update(i - 1, (t[i - 1].0, n)));
        assert forall|j: int| 0 <= j < i - 1 implies t[j].0@ != key by {
            assert(t[j] == cs[j + 1]);
        }
        lemma_count_in_update(t, i - 1, key, n, other);
    }
}

proof fn lemma_count_in_push(cs: Seq<(String, usize)>, k: String, n: usize, other: Seq<char>)
    requires
        forall|j: int| 0 <= j < cs.len() ==> cs[j].0@ != k@,
    ensures
        count_in(cs.push((k, n)), k@) == n,
        other != k@ ==> count_in(cs.push((k, n)), other) == count_in(cs, other),
        count_in(cs, k@) == 0,
    decreases cs.len(),
{
    let p = cs.push((k, n));
    if cs.len() > 0 {
        let t = cs.subrange(1, cs.len() as int);
        assert(cs[0].0@ != k@);
        assert(p[0] == cs[0]);
        assert(p.subrange(1, p.len() as int) =~= t.push((k, n)));
        assert forall|j: int| 0 <= j < t.len() implies t[j].0@ != k@ by {
            assert(t[j] == cs[j + 1]);
        }
        lemma_count_in_push(t, k, n, other);
        if other != k@ {
            if cs[0].0@ == other {
                assert(count_in(p, other) == cs[0].1);
            } else {
                assert(count_in(p, other) == count_in(t.push((k, n)), other));
                assert(count_in(cs, other) == count_in(t, other));
            }
        }
    } else {
        assert(p.subrange(1, p.len() as int) =~= Seq::<(String, usize)>::empty());
        assert(p[0].0@ == k@);
        assert(count_in(p, k@) == n);
        assert(count_in(p.subrange(1, p.len() as int), other) == 0);
        if other != k@ {
            assert(count_in(p, other) == count_in(p.subrange(1, p.len() as int), other));
        }
    }
}

fn find_count(cs: &Vec<(String, usize)>, key: &Vec<char>) -> (r: usize)
    ensures
        r <= cs@.len(),
        forall|j: int| 0 <= j < r ==> cs@[j].0@ != key@,
        r < cs@.len() ==> cs@[r as int].0@ == key@,
{
    let mut i: usize = 0;
    while i < cs.len() && !chars_eq(&chars_of(cs[i].0.as_str()), key)
        invariant
            i <= cs@.len(),
            forall|j: int| 0 <= j < i ==> cs@[j].0@ != key@,
        decreases cs.len() - i,
    {
        i = i + 1;
    }
    i
}

/// The tag for one more outbound with base tag `tag`: counts it, and adds
/// `-k` where it is the k-th with that base tag (k from 2).
pub fn unique_tag(tag: &str, tag_counts: &mut Vec<(String, usize)>) -> (r: String)
    requires
        count_in(old(tag_counts)@, tag@) < usize::MAX,
    ensures
        r@ == tag_with_count(tag@, count_in(old(tag_counts)@, tag@)),
        count_in(final(tag_counts)@, tag@) == count_in(old(tag_counts)@, tag@) + 1,
        forall|x: Seq<char>| x != tag@ ==> count_in(final(tag_counts)@, x) == count_in(old(tag_counts)@, x),
{
    let key = chars_of(tag);
    let ghost old_cs = tag_counts@;
    let i = find_count(tag_counts, &key);
    let k: usize;
    if i < tag_counts.len() {
        k = tag_counts[i].1;
        proof {
            lemma_count_in_update(old_cs, i as int, tag@, (k + 1) as usize, tag@);
        }
        let name = tag_counts[i].0.clone();
        tag_counts.set(i, (name, k + 1));
        assert forall|x: Seq<char>| x != tag@ implies count_in(tag_counts@, x) == count_in(old_cs, x) by {
            lemma_count_in_update(old_cs, i as int, tag@, (k + 1) as usize, x);
        }
    } else {
        k = 0;
        let name = string_of_chars(&key);
        proof {
            lemma_count_in_push(old_cs, name, 1, tag@);
        }
        tag_counts.push((name, 1));
        assert forall|x: Seq<char>| x != tag@ implies count_in(tag_counts@, x) == count_in(old_cs, x) by {
            lemma_count_in_push(old_cs, name, 1, x);
        }
    }
    if k == 0 {
        string_of_chars(&key)
    } else {
        let mut out = key;
        out.push('-');
        push_all(&mut out, &decimal_chars((k + 1) as u64));
        proof {
            reveal_strlit("-");
        }
        assert(out@ =~= tag@ + "-"@ + decimal((k + 1) as nat));
        string_of_chars(&out)
    }
}

/// The outbounds of the nodes that convert, in order.
pub open spec fn converted(ns: Seq<NodeModel>) -> Seq<Members>
    decreases ns.len(),
{
    if ns.len() == 0 {
        seq![]
    } else {
        let rest = converted(ns.drop_last());
        match node_spec(ns.last()) {
            Ok(Some(m)) => rest.push(m),
            _ => rest,
        }
    }
}

/// The tag an outbound came with, else `proxy`.
pub open spec fn base_tag(m: Members) -> Seq<char> {
    match member_str(m, "tag"@) {
        Some(t) => t,
        None => "proxy"@,
    }
}

pub open spec fn base_tags(ms: Seq<Members>) -> Seq<Seq<char>> {
    Seq::new(ms.len(), |i: int| base_tag(ms[i]))
}

/// The outbounds with their tags made unique.
pub open spec fn tagged(ms: Seq<Members>) -> Seq<JsonModel> {
    Seq::new(ms.len(), |i: int| JsonModel::Object(with_member(ms[i], "tag"@, js(unique_tags(base_tags(ms))[i]))))
}

/// The warnings of converting the nodes in order: those of each node, then
/// one for each node that could not be converted.
pub open spec fn render_warnings(ns: Seq<NodeModel>) -> Seq<WarningModel>
    decreases ns.len(),
{
    if ns.len() == 0 {
        seq![]
    } else {
        let n = ns.last();
        render_warnings(ns.drop_last()) + node_warnings(n) + match node_spec(n) {
            Err(e) => seq![WarningModel::NodeSkipped { name: n.name, ty: n.ty, error: e }],
            _ => seq![],
        }
    }
}

/// The `urltest` group over all the outbounds.
pub open spec fn urltest_members(tag: Seq<char>, tags: Seq<Seq<char>>) -> Members {
    seq![
        ("type"@, js("urltest"@)),
        ("tag"@, js(tag)),
        ("outbounds"@, jlist(tags)),
        ("url"@, js("https://cp.cloudflare.com/generate_204"@)),
        ("interval"@, js("10m"@)),
        ("tolerance"@, ju(50)),
        ("interrupt_exist_connections"@, JsonModel::Bool(true)),
    ]
}

/// The tags other than the selector's and the urltest group's, in order.
pub open spec fn other_tags(tags: Seq<Seq<char>>, selector_tag: Seq<char>, urltest_tag: Seq<char>) -> Seq<Seq<char>>
    decreases tags.len(),
{
    if tags.len() == 0 {
        seq![]
    } else {
        let rest = other_tags(tags.drop_last(), selector_tag, urltest_tag);
        if tags.last() != selector_tag && tags.last() != urltest_tag {
            rest.push(tags.last())
        } else {
            rest
        }
    }
}

/// What the selector offers: `direct`, the urltest group where there is
/// one, then the other tags.
pub open spec fn selector_list(tags: Seq<Seq<char>>, selector_tag: Seq<char>, include_urltest: bool, urltest_tag: Seq<char>) -> Seq<Seq<char>> {
    seq!["direct"@] + (if include_urltest {
        seq![urltest_tag]
    } else {
        seq![]
    }) + other_tags(tags, selector_tag, urltest_tag)
}

/// The first entry that is not `direct`, else `direct`.
pub open spec fn first_not_direct(l: Seq<Seq<char>>) -> Seq<char>
    decreases l.len(),
{
    if l.len() == 0 {
        "direct"@
    } else if l[0] != "direct"@ {
        l[0]
    } else {
        first_not_direct(l.subrange(1, l.len() as int))
    }
}

/// The `selector` over the outbounds.
pub open spec fn selector_members(selector_tag: Seq<char>, list: Seq<Seq<char>>) -> Members {
    seq![
        ("type"@, js("selector"@)),
        ("tag"@, js(selector_tag)),
        ("outbounds"@, jlist(list)),
        ("default"@, js(first_not_direct(list))),
        ("interrupt_exist_connections"@, JsonModel::Bool(true)),
    ]
}

/// The outbounds rendered from the nodes: one per node that converts, with
/// unique tags; then the urltest group where it is asked for, and the
/// selector where it has a tag, each only where there is an outbound.
pub open spec fn rendered_outbounds(ns: Seq<NodeModel>, selector_tag: Seq<char>, include_urltest: bool, urltest_tag: Seq<char>) -> Seq<JsonModel> {
    let ms = converted(ns);
    let outs = tagged(ms);
    let tags = unique_tags(base_tags(ms));
    let with_urltest = if include_urltest && outs.len() > 0 {
        outs.push(JsonModel::Object(urltest_members(urltest_tag, tags)))
    } else {
        outs
    };
    if selector_tag.len() > 0 && outs.len() > 0 {
        with_urltest.push(JsonModel::Object(selector_members(selector_tag, selector_list(tags, selector_tag, include_urltest, urltest_tag))))
    } else {
        with_urltest
    }
}

/// The outbounds rendered from some nodes, and what was skipped.
pub struct RenderedOutbounds {
    pub outbounds: Vec<JsonValue>,
    pub warnings: Vec<Warning>,
}

pub proof fn lemma_count_of_bound(s: Seq<Seq<char>>, x: Seq<char>)
    ensures
        count_of(s, x) <= s.len(),
    decreases s.len(),
{
    if s.len() > 0 {
        lemma_count_of_bound(s.drop_last(), x);
    }
}

proof fn lemma_unique_tags_push(bs: Seq<Seq<char>>, b: Seq<char>)
    ensures
        unique_tags(bs.push(b)) == unique_tags(bs).push(tag_with_count(b, count_of(bs, b))),
{
    let p = bs.push(b);
    assert(p.take(bs.len() as int) =~= bs);
    assert forall|j: int| 0 <= j < bs.len() implies #[trigger] p.take(j) == bs.take(j) by {
        assert(p.take(j) =~= bs.take(j));
    }
    assert(unique_tags(p) =~= unique_tags(bs).push(tag_with_count(b, count_of(bs, b))));
}

proof fn lemma_converted_push(ns: Seq<NodeModel>, i: int)
    requires
        0 <= i < ns.len(),
    ensures
        converted(ns.take(i + 1)) == match node_spec(ns[i]) {
            Ok(Some(m)) => converted(ns.take(i)).push(m),
            _ => converted(ns.take(i)),
        },
        render_warnings(ns.take(i + 1)) == render_warnings(ns.take(i)) + node_warnings(ns[i]) + match node_spec(ns[i]) {
            Err(e) => seq![WarningModel::NodeSkipped { name: ns[i].name, ty: ns[i].ty, error: e }],
            _ => seq![],
        },
{
    assert(ns.take(i + 1).drop_last() =~= ns.take(i));
    assert(ns.take(i + 1).last() == ns[i]);
}

fn tag_array(tags: &Vec<String>) -> (r: JsonValue)
    ensures
        r@ == jlist(strings_view(tags@)),
{
    let mut v: Vec<String> = Vec::new();
    let mut i: usize = 0;
    while i < tags.len()
        invariant
            i <= tags@.len(),
            strings_view(v@) == strings_view(tags@).take(i as int),
        decreases tags.len() - i,
    {
        let ghost before = strings_view(v@);
        v.push(tags[i].clone());
        assert(strings_view(v@) =~= before.push(tags@[i as int]@));
        assert(strings_view(tags@).take(i + 1) =~= strings_view(tags@).take(i as int).push(tags@[i as int]@));
        i = i + 1;
    }
    assert(strings_view(tags@).take(tags@.len() as int) =~= strings_view(tags@));
    string_array(v)
}

fn urltest_group(urltest_tag: &str, tags: &Vec<String>) -> (r: JsonValue)
    ensures
        r@ == JsonModel::Object(urltest_members(urltest_tag@, strings_view(tags@))),
{
    let mut b = ObjectBuilder::new();
    b.push_str("type", "urltest");
    b.push_str("tag", urltest_tag);
    b.push("outbounds", tag_array(tags));
    b.push_str("url", "https://cp.cloudflare.com/generate_204");
    b.push_str("interval", "10m");
    b.push("tolerance", JsonValue::Number(crate::json::JsonNumber::PosInt(50)));
    b.push("interrupt_exist_connections", JsonValue::Bool(true));
    let ghost m = b.members();
    let fields = b.finish();
    proof {
        lemma_object_model(fields);
    }
    assert(m =~= urltest_members(urltest_tag@, strings_view(tags@)));
    JsonValue::Object(fields)
}

fn selector_entries(tags: &Vec<String>, selector_tag: &str, include_urltest: bool, urltest_tag: &str) -> (r: Vec<String>)
    ensures
        strings_view(r@) == selector_list(strings_view(tags@), selector_tag@, include_urltest, urltest_tag@),
{
    let ghost tv = strings_view(tags@);
    let mut out: Vec<String> = Vec::new();
    out.push("direct".to_owned());
    if include_urltest {
        out.push(urltest_tag.to_owned());
    }
    let ghost head = strings_view(out@);
    assert(head =~= seq!["direct"@] + (if include_urltest {
        seq![urltest_tag@]
    } else {
        seq![]
    }));
    let sel = chars_of(selector_tag);
    let url = chars_of(urltest_tag);
    let mut i: usize = 0;
    while i < tags.len()
        invariant
            i <= tags@.len(),
            tv == strings_view(tags@),
            sel@ == selector_tag@,
            url@ == urltest_tag@,
            strings_view(out@) == head + other_tags(tv.take(i as int), selector_tag@, urltest_tag@),
        decreases tags.len() - i,
    {
        assert(tv.take(i + 1).drop_last() =~= tv.take(i as int));
        assert(tv.take(i + 1).last() == tags@[i as int]@);
        let t = chars_of(tags[i].as_str());
        let ghost before = strings_view(out@);
        if !chars_eq(&t, &sel) && !chars_eq(&t, &url) {
            out.push(tags[i].clone());
            assert(strings_view(out@) =~= before.push(tags@[i as int]@));
        }
        i = i + 1;
    }
    assert(tv.take(tags@.len() as int) =~= tv);
    out
}

fn first_entry_not_direct(l: &Vec<String>) -> (r: String)
    ensures
        r@ == first_not_direct(strings_view(l@)),
{
    let ghost lv = strings_view(l@);
    let direct = chars_of("direct");
    let mut i: usize = 0;
    assert(lv.subrange(0, lv.len() as int) =~= lv);
    while i < l.len()
        invariant
            i <= l@.len(),
            lv == strings_view(l@),
            direct@ == "direct"@,
            first_not_direct(lv) == first_not_direct(lv.subrange(i as int, lv.len() as int)),
        decreases l.len() - i,
    {
        let ghost rest = lv.subrange(i as int, lv.len() as int);
        assert(rest[0] == l@[i as int]@);
        assert(rest.subrange(1, rest.len() as int) =~= lv.subrange(i + 1, lv.len() as int));
        if !chars_eq(&chars_of(l[i].as_str()), &direct) {
            return l[i].clone();
        }
        i = i + 1;
    }
    "direct".to_owned()
}

fn selector_group(selector_tag: &str, list: Vec<String>) -> (r: JsonValue)
    ensures
        r@ == JsonModel::Object(selector_members(selector_tag@, strings_view(list@))),
{
    let default = first_entry_not_direct(&list);
    let mut b = ObjectBuilder::new();
    b.push_str("type", "selector");
    b.push_str("tag", selector_tag);
    b.push("outbounds", tag_array(&list));
    b.push("default", JsonValue::String(default));
    b.push("interrupt_exist_connections", JsonValue::Bool(true));
    let ghost m = b.members();
    let fields = b.finish();
    proof {
        lemma_object_model(fields);
    }
    assert(m =~= selector_members(selector_tag@, strings_view(list@)));
    JsonValue::Object(fields)
}

/// The sing-box outbounds of the nodes, in order, each tagged uniquely;
/// then an `urltest` group over them where `include_urltest` is set, and a
/// `selector` where `selector_tag` is not empty (neither where no node
/// converts). A node that cannot be converted is skipped with a warning.
pub fn render_outbounds(nodes: Vec<ProxyNode>, selector_tag: &str, include_urltest: bool, urltest_tag: &str) -> (r: RenderedOutbounds)
    ensures
        items_model(r.outbounds@) == rendered_outbounds(nodes_view(nodes@), selector_tag@, include_urltest, urltest_tag@),
        warnings_view(r.warnings@) == render_warnings(nodes_view(nodes@)),
{
    let ghost nv = nodes_view(nodes@);
    let mut warnings: Vec<Warning> = Vec::new();
    let mut outbounds: Vec<JsonValue> = Vec::new();
    let mut tags: Vec<String> = Vec::new();
    let mut counts: Vec<(String, usize)> = Vec::new();
    let mut i: usize = 0;
    assert(nv.take(0) =~= Seq::<NodeModel>::empty());
    assert(warnings_view(warnings@) =~= Seq::<WarningModel>::empty());
    assert(items_model(outbounds@) =~= tagged(converted(nv.take(0))));
    assert(strings_view(tags@) =~= unique_tags(base_tags(converted(nv.take(0)))));
    while i < nodes.len()
        invariant
            i <= nodes@.len(),
            nv == nodes_view(nodes@),
            converted(nv.take(i as int)).len() <= i,
            items_model(outbounds@) == tagged(converted(nv.take(i as int))),
            strings_view(tags@) == unique_tags(base_tags(converted(nv.take(i as int)))),
            forall|x: Seq<char>| #[trigger] count_in(counts@, x) == count_of(base_tags(converted(nv.take(i as int))), x),
            warnings_view(warnings@) == render_warnings(nv.take(i as int)),
        decreases nodes.len() - i,
    {
        let ghost ms = converted(nv.take(i as int));
        let ghost bs = base_tags(ms);
        proof {
            lemma_converted_push(nv, i as int);
        }
        let ghost w0 = warnings_view(warnings@);
        let node = &nodes[i];
        assert(node@ == nv[i as int]);
        match convert_node(node, &mut warnings) {
            Ok(Some(m)) => {
                let mut m = m;
                let ghost mm = members_model(m@);
                let base = match get_member_str(&m, "tag") {
                    Some(t) => t,
                    None => "proxy".to_owned(),
                };
                assert(base@ == base_tag(mm));
                proof {
                    lemma_count_of_bound(bs, base@);
                }
                let unique = unique_tag(base.as_str(), &mut counts);
                set_member(&mut m, "tag", JsonValue::String(unique.clone()));
                proof {
                    lemma_object_model(m);
                    lemma_unique_tags_push(bs, base@);
                }
                let ghost ms2 = ms.push(mm);
                assert(base_tags(ms2) =~= bs.push(base@));
                let ghost ob = items_model(outbounds@);
                outbounds.push(JsonValue::Object(m));
                let ghost tb = strings_view(tags@);
                tags.push(unique);
                assert(strings_view(tags@) =~= tb.push(unique@));
                let ghost om = JsonModel::Object(with_member(mm, "tag"@, js(unique@)));
                assert(items_model(outbounds@) =~= ob.push(om));
                assert(unique_tags(base_tags(ms2)) == unique_tags(bs).push(unique@));
                assert(tagged(ms2) =~= tagged(ms).push(om));
                assert(items_model(outbounds@) =~= tagged(ms2));
                assert forall|x: Seq<char>| #[trigger] count_in(counts@, x) == count_of(base_tags(ms2), x) by {
                    assert(bs.push(base@).drop_last() =~= bs);
                }
                assert(warnings_view(warnings@) =~= render_warnings(nv.take(i + 1)));
            },
            Ok(None) => {
                assert(warnings_view(warnings@) =~= render_warnings(nv.take(i + 1)));
            },
            Err(e) => {
                warnings.push(Warning::NodeSkipped { name: node.name.clone(), ty: node.ty.clone(), error: e });
                assert(warnings_view(warnings@) =~= render_warnings(nv.take(i + 1)));
            },
        }
        i = i + 1;
    }
    assert(nv.take(nodes@.len() as int) =~= nv);
    let ghost outs = items_model(outbounds@);
    assert(outs == tagged(converted(nv)));
    assert(strings_view(tags@) == unique_tags(base_tags(converted(nv))));
    assert(outs.len() == outbounds@.len());
    let any = outbounds.len() > 0;
    if include_urltest && any {
        outbounds.push(urltest_group(urltest_tag, &tags));
        assert(items_model(outbounds@) =~= outs.push(JsonModel::Object(urltest_members(urltest_tag@, strings_view(tags@)))));
    }
    let ghost with_urltest = items_model(outbounds@);
    if !selector_tag.is_empty() && any {
        let list = selector_entries(&tags, selector_tag, include_urltest, urltest_tag);
        outbounds.push(selector_group(selector_tag, list));
        assert(items_model(outbounds@) =~= with_urltest.push(
            JsonModel::Object(selector_members(selector_tag@, selector_list(strings_view(tags@), selector_tag@, include_urltest, urltest_tag@))),
        ));
    }
    RenderedOutbounds { outbounds, warnings }
}

proof fn lemma_other_tags_exclude(tags: Seq<Seq<char>>, selector_tag: Seq<char>, urltest_tag: Seq<char>)
    ensures
        forall|i: int|
            0 <= i < other_tags(tags, selector_tag, urltest_tag).len() ==> #[trigger] other_tags(tags, selector_tag, urltest_tag)[i]
                != selector_tag && other_tags(tags, selector_tag, urltest_tag)[i] != urltest_tag,
    decreases tags.len(),
{
    if tags.len() > 0 {
        lemma_other_tags_exclude(tags.drop_last(), selector_tag, urltest_tag);
        let r = other_tags(tags.drop_last(), selector_tag, urltest_tag);
        let o = other_tags(tags, selector_tag, urltest_tag);
        assert forall|i: int| 0 <= i < o.len() implies #[trigger] o[i] != selector_tag && o[i] != urltest_tag by {
            if i < r.len() {
                assert(o[i] == r[i]);
            }
        }
    }
}

/// The selector never offers itself: besides `direct` and the urltest
/// group, it lists only the other outbounds.
pub proof fn selector_never_offers_itself(tags: Seq<Seq<char>>, selector_tag: Seq<char>, include_urltest: bool, urltest_tag: Seq<char>)
    requires
        selector_tag != "direct"@,
        !(include_urltest && selector_tag == urltest_tag),
    ensures
        !selector_list(tags, selector_tag, include_urltest, urltest_tag).contains(selector_tag),
{
    lemma_other_tags_exclude(tags, selector_tag, urltest_tag);
    let l = selector_list(tags, selector_tag, include_urltest, urltest_tag);
    let head = seq!["direct"@] + (if include_urltest {
        seq![urltest_tag]
    } else {
        seq![]
    });
    let rest = other_tags(tags, selector_tag, urltest_tag);
    assert forall|i: int| 0 <= i < l.len() implies l[i] != selector_tag by {
        if i >= head.len() {
            assert(l[i] == rest[i - head.len()]);
        }
    }
}

proof fn lemma_decimal_digits(n: nat)
    ensures
        decimal(n).len() >= 1,
        n >= 10 ==> decimal(n).len() >= 2,
        forall|i: int| 0 <= i < decimal(n).len() ==> 48 <= #[trigger] decimal(n)[i] as u32 <= 57,
    decreases n,
{
    if n >= 10 {
        lemma_decimal_digits(n / 10);
        let d = decimal(n / 10);
        assert forall|i: int| 0 <= i < decimal(n).len() implies 48 <= #[trigger] decimal(n)[i] as u32 <= 57 by {
            if i < d.len() {
                assert(decimal(n)[i] == d[i]);
            }
        }
    }
}

proof fn lemma_decimal_injective(a: nat, b: nat)
    requires
        decimal(a) == decimal(b),
    ensures
        a == b,
    decreases a,
{
    lemma_decimal_digits(a);
    lemma_decimal_digits(b);
    if a >= 10 && b >= 10 {
        assert(decimal(a).drop_last() =~= decimal(a / 10));
        assert(decimal(b).drop_last() =~= decimal(b / 10));
        lemma_decimal_injective(a / 10, b / 10);
        let ca = digit_char(a % 10);
        let cb = digit_char(b % 10);
        assert(decimal(a).last() == ca);
        assert(decimal(b).last() == cb);
        assert(ca as u32 == 48 + a % 10);
        assert(cb as u32 == 48 + b % 10);
    } else if a < 10 && b < 10 {
        assert(decimal(a)[0] == digit_char(a));
        assert(decimal(b)[0] == digit_char(b));
        assert(digit_char(a) as u32 == 48 + a);
        assert(digit_char(b) as u32 == 48 + b);
    }
}

proof fn lemma_last_dash(b: Seq<char>, d: Seq<char>)
    requires
        forall|i: int| 0 <= i < d.len() ==> #[trigger] d[i] != '-',
    ensures
        crate::text::last_char_index(b + seq!['-'] + d, '-') == b.len(),
    decreases d.len(),
{
    if d.len() == 0 {
        assert(b + seq!['-'] + d =~= b.push('-'));
    } else {
        assert((b + seq!['-'] + d).drop_last() =~= b + seq!['-'] + d.drop_last());
        assert forall|i: int| 0 <= i < d.drop_last().len() implies #[trigger] d.drop_last()[i] != '-' by {
            assert(d.drop_last()[i] == d[i]);
        }
        lemma_last_dash(b, d.drop_last());
    }
}

proof fn lemma_count_of_grows(s: Seq<Seq<char>>, x: Seq<char>, m: int, n: int)
    requires
        0 <= m <= n <= s.len(),
    ensures
        count_of(s.take(m), x) <= count_of(s.take(n), x),
    decreases n - m,
{
    if m < n {
        assert(s.take(n).drop_last() =~= s.take(n - 1));
        lemma_count_of_grows(s, x, m, n - 1);
    }
}

proof fn lemma_count_of_passes(s: Seq<Seq<char>>, i: int, j: int)
    requires
        0 <= i < j <= s.len(),
    ensures
        count_of(s.take(i), s[i]) < count_of(s.take(j), s[i]),
{
    assert(s.take(i + 1).drop_last() =~= s.take(i));
    assert(s.take(i + 1).last() == s[i]);
    lemma_count_of_grows(s, s[i], i + 1, j);
}

/// The tags that outbounds get are all different, unless some node's name
/// already reads like another's with a `-n` suffix (as `a-2` beside two
/// nodes named `a`).
pub proof fn unique_tags_are_distinct(bases: Seq<Seq<char>>)
    requires
        forall|i: int, j: int, n: nat|
            0 <= i < bases.len() && 0 <= j < bases.len() && n >= 2 ==> #[trigger] bases[i] != #[trigger] bases[j] + "-"@ + #[trigger] decimal(n),
    ensures
        forall|i: int, j: int| 0 <= i < j < bases.len() ==> #[trigger] unique_tags(bases)[i] != #[trigger] unique_tags(bases)[j],
{
    reveal_strlit("-");
    assert forall|i: int, j: int| 0 <= i < j < bases.len() implies #[trigger] unique_tags(bases)[i] != #[trigger] unique_tags(bases)[j] by {
        let bi = bases[i];
        let bj = bases[j];
        let ki = count_of(bases.take(i), bi);
        let kj = count_of(bases.take(j), bj);
        let ti = unique_tags(bases)[i];
        let tj = unique_tags(bases)[j];
        if ti == tj {
            if ki == 0 && kj == 0 {
                lemma_count_of_passes(bases, i, j);
            } else if ki == 0 {
                assert(bi == bj + "-"@ + decimal(kj + 1));
            } else if kj == 0 {
                assert(bj == bi + "-"@ + decimal(ki + 1));
            } else {
                let di = decimal(ki + 1);
                let dj = decimal(kj + 1);
                lemma_decimal_digits(ki + 1);
                lemma_decimal_digits(kj + 1);
                assert forall|q: int| 0 <= q < di.len() implies #[trigger] di[q] != '-' by {
                    assert(48 <= di[q] as u32 <= 57);
                }
                assert forall|q: int| 0 <= q < dj.len() implies #[trigger] dj[q] != '-' by {
                    assert(48 <= dj[q] as u32 <= 57);
                }
                assert(ti == bi + seq!['-'] + di);
                assert(tj == bj + seq!['-'] + dj);
                lemma_last_dash(bi, di);
                lemma_last_dash(bj, dj);
                assert(bi.len() == bj.len());
                assert(bi =~= ti.take(bi.len() as int));
                assert(bj =~= tj.take(bj.len() as int));
                assert(di =~= ti.skip(bi.len() as int + 1));
                assert(dj =~= tj.skip(bj.len() as int + 1));
                lemma_decimal_injective(ki + 1, kj + 1);
                lemma_count_of_passes(bases, i, j);
            }
        }
    }
}

} // verus!
