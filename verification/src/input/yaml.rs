//! Proxy nodes from a YAML document: a config's `proxies` list, or a bare
//! list.
use vstd::prelude::*;

use crate::convert::fields::{get_string, map_get_string};
use crate::input::utils::sequence_at;
use crate::input::{nodes_view, warnings_view, NodeModel, ParsedInput, ProxyNode, Warning, WarningModel};
use crate::text::{chars_of, decimal, decimal_chars, push_all, string_of_chars};
use crate::yaml::{find_key, lemma_key_index, pairs_model, YamlModel, YamlValue};

verus! {

/// The proxies of a YAML document: the sequence at `proxies` of a mapping,
/// or the document itself where it is a sequence.
pub open spec fn yaml_items(v: YamlModel) -> Option<Seq<YamlModel>> {
    match v {
        YamlModel::Mapping(m) => sequence_at(m, "proxies"@),
        YamlModel::Sequence(items) => Some(items),
        _ => None,
    }
}

/// The name of the `n`-th node that has none.
pub open spec fn unnamed(n: nat) -> Seq<char> {
    "unnamed-"@ + decimal(n)
}

/// The nodes and warnings after reading one more proxy entry.
pub open spec fn yaml_step(st: (Seq<NodeModel>, Seq<WarningModel>), item: YamlModel) -> (Seq<NodeModel>, Seq<WarningModel>) {
    match item {
        YamlModel::Mapping(m) => {
            let ty = match get_string(m, "type"@) {
                Some(t) => t,
                None => seq![],
            };
            let name = match get_string(m, "name"@) {
                Some(n) => n,
                None => unnamed(st.0.len() + 1),
            };
            if ty.len() == 0 {
                (st.0, st.1.push(WarningModel::MissingType { name }))
            } else {
                (st.0.push(NodeModel { name, ty, data: m }), st.1)
            }
        },
        _ => (st.0, st.1.push(WarningModel::NonMappingEntry)),
    }
}

/// The nodes and warnings of a list of proxy entries.
pub open spec fn yaml_fold(items: Seq<YamlModel>) -> (Seq<NodeModel>, Seq<WarningModel>)
    decreases items.len(),
{
    if items.len() == 0 {
        (seq![], seq![])
    } else {
        yaml_step(yaml_fold(items.drop_last()), items.last())
    }
}

/// The nodes and warnings of a YAML document.
pub open spec fn yaml_nodes(v: YamlModel) -> (Seq<NodeModel>, Seq<WarningModel>) {
    match yaml_items(v) {
        Some(items) => yaml_fold(items),
        None => (seq![], seq![]),
    }
}

/// Adds the node of one proxy entry, or a warning where it has no type.
pub fn push_yaml_proxy_node(parsed: &mut ParsedInput, map: Vec<(YamlValue, YamlValue)>)
    requires
        old(parsed).nodes@.len() < usize::MAX,
    ensures
        (nodes_view(final(parsed).nodes@), warnings_view(final(parsed).warnings@)) == yaml_step(
            (nodes_view(old(parsed).nodes@), warnings_view(old(parsed).warnings@)),
            YamlModel::Mapping(pairs_model(map@)),
        ),
{
    let ghost n0 = nodes_view(parsed.nodes@);
    let ghost w0 = warnings_view(parsed.warnings@);
    let ty = match map_get_string(&map, "type") {
        Some(t) => t,
        None => String::new(),
    };
    let name = match map_get_string(&map, "name") {
        Some(n) => n,
        None => {
            let mut cs = chars_of("unnamed-");
            let n = parsed.nodes.len() + 1;
            push_all(&mut cs, &decimal_chars(n as u64));
            proof {
                reveal_strlit("unnamed-");
            }
            string_of_chars(&cs)
        },
    };
    if ty.as_str().is_empty() {
        parsed.warnings.push(Warning::MissingType { name });
        assert(warnings_view(parsed.warnings@) =~= w0.push(WarningModel::MissingType { name: name@ }));
    } else {
        parsed.nodes.push(ProxyNode { name, ty, data: map });
        assert(nodes_view(parsed.nodes@) =~= n0.push(NodeModel { name: name@, ty: ty@, data: pairs_model(map@) }));
    }
}

fn owned_items(value: YamlValue) -> (r: Option<Vec<YamlValue>>)
    ensures
        match r {
            Some(items) => yaml_items(value@) == Some(Seq::new(items@.len(), |i: int| items@[i]@)),
            None => yaml_items(value@) is None,
        },
{
    match value {
        YamlValue::Mapping(m) => {
            let ghost pm = pairs_model(m@);
            proof {
                crate::yaml::lemma_mapping_model(m);
                lemma_key_index(pm, "proxies"@);
            }
            let mut m = m;
            let i = find_key(&m, "proxies");
            if i < m.len() {
                let (_, v) = m.remove(i);
                match v {
                    YamlValue::Sequence(items) => {
                        let ghost im = Seq::new(items@.len(), |i: int| items@[i]@);
                        assert(YamlValue::Sequence(items)@ == YamlModel::Sequence(im)) by {
                            if let YamlModel::Sequence(a) = YamlValue::Sequence(items)@ {
                                assert forall|i: int| 0 <= i < a.len() implies a[i] == im[i] by {}
                                assert(a =~= im);
                            }
                        }
                        Some(items)
                    },
                    _ => None,
                }
            } else {
                None
            }
        },
        YamlValue::Sequence(items) => {
            let ghost im = Seq::new(items@.len(), |i: int| items@[i]@);
            assert(YamlValue::Sequence(items)@ == YamlModel::Sequence(im)) by {
                if let YamlModel::Sequence(a) = YamlValue::Sequence(items)@ {
                    assert forall|i: int| 0 <= i < a.len() implies a[i] == im[i] by {}
                    assert(a =~= im);
                }
            }
            Some(items)
        },
        _ => None,
    }
}

/// The nodes of a YAML document (a config with `proxies`, or a list); an
/// entry that is no mapping, or has no type, is skipped with a warning.
pub fn parse_yaml_nodes(value: YamlValue) -> (r: ParsedInput)
    ensures
        (nodes_view(r.nodes@), warnings_view(r.warnings@)) == yaml_nodes(value@),
{
    let mut parsed = ParsedInput { nodes: Vec::new(), warnings: Vec::new() };
    assert(nodes_view(parsed.nodes@) =~= Seq::<NodeModel>::empty());
    assert(warnings_view(parsed.warnings@) =~= Seq::<WarningModel>::empty());
    let ghost vm = value@;
    let mut items = match owned_items(value) {
        Some(items) => items,
        None => {
            return parsed;
        },
    };
    let ghost all = Seq::new(items@.len(), |i: int| items@[i]@);
    let n = items.len();
    let ghost total = items@.len();
    let mut k: usize = 0;
    assert(all.take(0) =~= Seq::<YamlModel>::empty());
    while items.len() > 0
        invariant
            yaml_items(vm) == Some(all),
            total == all.len(),
            total <= usize::MAX,
            k + items@.len() == total,
            forall|j: int| 0 <= j < items@.len() ==> #[trigger] items@[j]@ == all[k + j],
            nodes_view(parsed.nodes@).len() <= k,
            (nodes_view(parsed.nodes@), warnings_view(parsed.warnings@)) == yaml_fold(all.take(k as int)),
        decreases items.len(),
    {
        let ghost rest = items@;
        let item = items.remove(0);
        assert(item@ == all[k as int]) by {
            assert(rest[0]@ == all[k + 0]);
        }
        assert forall|j: int| 0 <= j < items@.len() implies #[trigger] items@[j]@ == all[k + 1 + j] by {
            assert(items@[j] == rest[j + 1]);
            assert(rest[j + 1]@ == all[k + (j + 1)]);
        }
        assert(all.take(k + 1).drop_last() =~= all.take(k as int));
        assert(all.take(k + 1).last() == all[k as int]);
        match item {
            YamlValue::Mapping(map) => {
                proof {
                    crate::yaml::lemma_mapping_model(map);
                }
                push_yaml_proxy_node(&mut parsed, map);
            },
            _ => {
                let ghost w0 = warnings_view(parsed.warnings@);
                parsed.warnings.push(Warning::NonMappingEntry);
                assert(warnings_view(parsed.warnings@) =~= w0.push(WarningModel::NonMappingEntry));
            },
        }
        k = k + 1;
    }
    assert(all.take(k as int) =~= all);
    parsed
}

} // verus!
