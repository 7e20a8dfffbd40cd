//! YAML values as this library reads them: scalars, sequences and mappings
//! that keep the order of their keys.
use vstd::prelude::*;

use crate::outside::string_from_chars;
use crate::text::{chars_of, decimal, decimal_chars};

verus! {

/// A YAML number: its text, and its value where it is an integer that fits.
#[derive(Debug, PartialEq)]
pub struct YamlNumber {
    pub text: String,
    pub unsigned: Option<u64>,
    pub signed: Option<i64>,
}

/// A YAML value. A mapping keeps its entries in order, each key once.
#[derive(Debug, PartialEq)]
pub enum YamlValue {
    Null,
    Bool(bool),
    Number(YamlNumber),
    String(String),
    Sequence(Vec<YamlValue>),
    Mapping(Vec<(YamlValue, YamlValue)>),
    Tagged(String, Box<YamlValue>),
}

pub ghost struct NumberModel {
    pub text: Seq<char>,
    pub unsigned: Option<u64>,
    pub signed: Option<i64>,
}

#[verifier::ext_equal]
pub ghost enum YamlModel {
    Null,
    Bool(bool),
    Number(NumberModel),
    String(Seq<char>),
    Sequence(Seq<YamlModel>),
    Mapping(Seq<(YamlModel, YamlModel)>),
    Tagged(Seq<char>, Box<YamlModel>),
}

impl YamlNumber {
    pub open spec fn model(&self) -> NumberModel {
        NumberModel { text: self.text@, unsigned: self.unsigned, signed: self.signed }
    }
}

/// The mathematical value of a YAML value.
pub open spec fn yaml_model(v: YamlValue) -> YamlModel
    decreases v,
{
    match v {
        YamlValue::Null => YamlModel::Null,
        YamlValue::Bool(b) => YamlModel::Bool(b),
        YamlValue::Number(n) => YamlModel::Number(n.model()),
        YamlValue::String(s) => YamlModel::String(s@),
        YamlValue::Sequence(items) => YamlModel::Sequence(
            Seq::new(
                items@.len(),
                |i: int|
                    if 0 <= i < items@.len() {
                        proof {
                            vstd::std_specs::vec::axiom_vec_index_decreases(items, i);
                        }
                        yaml_model(items@[i])
                    } else {
                        YamlModel::Null
                    },
            ),
        ),
        YamlValue::Mapping(pairs) => YamlModel::Mapping(
            Seq::new(
                pairs@.len(),
                |i: int|
                    if 0 <= i < pairs@.len() {
                        proof {
                            vstd::std_specs::vec::axiom_vec_index_decreases(pairs, i);
                        }
                        (yaml_model(pairs@[i].0), yaml_model(pairs@[i].1))
                    } else {
                        (YamlModel::Null, YamlModel::Null)
                    },
            ),
        ),
        YamlValue::Tagged(tag, inner) => YamlModel::Tagged(tag@, Box::new(yaml_model(*inner))),
    }
}

impl View for YamlValue {
    type V = YamlModel;

    open spec fn view(&self) -> YamlModel {
        yaml_model(*self)
    }
}

/// The mathematical value of the entries of a mapping.
pub open spec fn pairs_model(pairs: Seq<(YamlValue, YamlValue)>) -> Seq<(YamlModel, YamlModel)> {
    Seq::new(pairs.len(), |i: int| (pairs[i].0@, pairs[i].1@))
}

pub proof fn lemma_mapping_model(pairs: Vec<(YamlValue, YamlValue)>)
    ensures
        YamlValue::Mapping(pairs)@ == YamlModel::Mapping(pairs_model(pairs@)),
{
    let v = YamlValue::Mapping(pairs);
    if let YamlModel::Mapping(a) = yaml_model(v) {
        let b = pairs_model(pairs@);
        assert(a.len() == b.len());
        assert forall|i: int| 0 <= i < a.len() implies a[i] == b[i] by {
            assert(a[i] == (yaml_model(pairs@[i].0), yaml_model(pairs@[i].1)));
        }
        assert(a =~= b);
    }
}

/// The index of the first entry whose key is the string `key`, or the
/// number of entries.
pub open spec fn key_index(m: Seq<(YamlModel, YamlModel)>, key: Seq<char>) -> int
    decreases m.len(),
{
    if m.len() == 0 {
        0
    } else if key_index(m.drop_last(), key) < m.len() - 1 {
        key_index(m.drop_last(), key)
    } else if m.last().0 == YamlModel::String(key) {
        m.len() - 1
    } else {
        m.len() as int
    }
}

/// The value of the string key `key`.
pub open spec fn lookup(m: Seq<(YamlModel, YamlModel)>, key: Seq<char>) -> Option<YamlModel> {
    if key_index(m, key) < m.len() {
        Some(m[key_index(m, key)].1)
    } else {
        None
    }
}

pub proof fn lemma_key_index(m: Seq<(YamlModel, YamlModel)>, key: Seq<char>)
    ensures
        0 <= key_index(m, key) <= m.len(),
        key_index(m, key) < m.len() ==> m[key_index(m, key)].0 == YamlModel::String(key),
        forall|j: int| 0 <= j < key_index(m, key) ==> m[j].0 != YamlModel::String(key),
    decreases m.len(),
{
    if m.len() > 0 {
        lemma_key_index(m.drop_last(), key);
        assert forall|j: int| 0 <= j < key_index(m, key) implies m[j].0 != YamlModel::String(key) by {
            if j < m.len() - 1 {
                assert(m[j] == m.drop_last()[j]);
            }
        }
    }
}

/// Whether the key is the string `key`.
pub fn is_string_key(k: &YamlValue, key: &str) -> (r: bool)
    ensures
        r == (k@ == YamlModel::String(key@)),
{
    match k {
        YamlValue::String(s) => {
            let a = chars_of(s.as_str());
            let b = chars_of(key);
            let eq = crate::text::chars_eq(&a, &b);
            eq
        },
        _ => false,
    }
}

/// The index of the entry with the string key `key`, or the number of
/// entries.
pub fn find_key(m: &Vec<(YamlValue, YamlValue)>, key: &str) -> (r: usize)
    ensures
        r == key_index(pairs_model(m@), key@),
{
    let ghost pm = pairs_model(m@);
    proof {
        lemma_key_index(pm, key@);
    }
    let mut i: usize = 0;
    while i < m.len()
        invariant
            i <= m@.len(),
            pm == pairs_model(m@),
            forall|j: int| 0 <= j < i ==> pm[j].0 != YamlModel::String(key@),
            0 <= key_index(pm, key@) <= pm.len(),
            key_index(pm, key@) < pm.len() ==> pm[key_index(pm, key@)].0 == YamlModel::String(key@),
            forall|j: int| 0 <= j < key_index(pm, key@) ==> pm[j].0 != YamlModel::String(key@),
        decreases m.len() - i,
    {
        if is_string_key(&m[i].0, key) {
            assert(pm[i as int].0 == YamlModel::String(key@));
            return i;
        }
        i = i + 1;
    }
    i
}

/// A string value.
pub fn yaml_text(s: &str) -> (r: YamlValue)
    ensures
        r@ == YamlModel::String(s@),
{
    let cs = chars_of(s);
    YamlValue::String(string_from_chars(&cs))
}

/// The entries with the string key `key` set to `v`: in place where the key
/// exists, else added at the end.
pub open spec fn with_entry(m: Seq<(YamlModel, YamlModel)>, key: Seq<char>, v: YamlModel) -> Seq<(YamlModel, YamlModel)> {
    let i = key_index(m, key);
    if i < m.len() {
        m.update(i, (YamlModel::String(key), v))
    } else {
        m.push((YamlModel::String(key), v))
    }
}

/// Sets the string key `key` to `v`, as a YAML mapping's `insert` does.
pub fn set_entry(m: &mut Vec<(YamlValue, YamlValue)>, key: &str, v: YamlValue)
    ensures
        pairs_model(final(m)@) == with_entry(pairs_model(old(m)@), key@, v@),
{
    let ghost pm = pairs_model(m@);
    let ghost vm = v@;
    proof {
        lemma_key_index(pm, key@);
    }
    let i = find_key(m, key);
    if i < m.len() {
        let k = yaml_text(key);
        m.set(i, (k, v));
        assert(pairs_model(m@) =~= with_entry(pm, key@, vm));
    } else {
        m.push((yaml_text(key), v));
        assert(pairs_model(m@) =~= with_entry(pm, key@, vm));
    }
}

/// A number made from a `u64`: its decimal text, and its value as unsigned
/// and, where it fits, as signed.
pub open spec fn u64_number(v: u64) -> NumberModel {
    NumberModel {
        text: decimal(v as nat),
        unsigned: Some(v),
        signed: if v <= i64::MAX as u64 {
            Some(v as i64)
        } else {
            None
        },
    }
}

/// The YAML number `v`.
pub fn yaml_u64(v: u64) -> (r: YamlValue)
    ensures
        r@ == YamlModel::Number(u64_number(v)),
{
    let text = string_from_chars(&decimal_chars(v));
    let signed: Option<i64> = if v <= 9223372036854775807u64 {
        Some(v as i64)
    } else {
        None
    };
    YamlValue::Number(YamlNumber { text, unsigned: Some(v), signed })
}

/// Setting a key gives it the new value and leaves every other key's value
/// as it was.
pub proof fn lemma_with_entry_lookup(m: Seq<(YamlModel, YamlModel)>, key: Seq<char>, v: YamlModel, k2: Seq<char>)
    ensures
        lookup(with_entry(m, key, v), k2) == if k2 == key {
            Some(v)
        } else {
            lookup(m, k2)
        },
{
    let w = with_entry(m, key, v);
    lemma_key_index(m, key);
    lemma_key_index(m, k2);
    lemma_key_index(w, k2);
    let i = key_index(m, key);
    let a = key_index(m, k2);
    let b = key_index(w, k2);
    assert forall|j: int| 0 <= j < m.len() && j != i implies #[trigger] w[j] == m[j] by {}
    if i < m.len() {
        assert(w[i] == (YamlModel::String(key), v));
    } else {
        assert(w[m.len() as int] == (YamlModel::String(key), v));
    }
    if k2 == key {
        if b < i && b < m.len() {
            assert(w[b] == m[b]);
        }
        assert(b == (if i < m.len() { i } else { m.len() as int }));
    } else {
        assert(YamlModel::String(k2) != YamlModel::String(key));
        if a < m.len() {
            assert(a != i);
            assert(w[a] == m[a]);
            if b < a {
                assert(b != i);
                assert(w[b] == m[b]);
            }
            assert(b == a);
        } else {
            if b < w.len() && b < m.len() && b != i {
                assert(w[b] == m[b]);
            }
            assert(b >= w.len());
        }
    }
}

} // verus!
