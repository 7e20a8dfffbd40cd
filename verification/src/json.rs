//! JSON values as this library builds and reads them.
use vstd::prelude::*;

use crate::outside::string_from_chars;
use crate::text::{chars_eq, chars_of};

verus! {

/// A JSON number: a non-negative or a negative integer, or the text of any
/// other number.
#[derive(Debug, PartialEq)]
pub enum JsonNumber {
    PosInt(u64),
    NegInt(i64),
    Other(String),
}

/// A JSON value. An object keeps its members in order, each key once.
#[derive(Debug, PartialEq)]
pub enum JsonValue {
    Null,
    Bool(bool),
    Number(JsonNumber),
    String(String),
    Array(Vec<JsonValue>),
    Object(Vec<(String, JsonValue)>),
}

pub ghost enum NumberValue {
    PosInt(u64),
    NegInt(i64),
    Other(Seq<char>),
}

#[verifier::ext_equal]
pub ghost enum JsonModel {
    Null,
    Bool(bool),
    Number(NumberValue),
    String(Seq<char>),
    Array(Seq<JsonModel>),
    Object(Seq<(Seq<char>, JsonModel)>),
}

pub open spec fn number_model(n: JsonNumber) -> NumberValue {
    match n {
        JsonNumber::PosInt(u) => NumberValue::PosInt(u),
        JsonNumber::NegInt(i) => NumberValue::NegInt(i),
        JsonNumber::Other(s) => NumberValue::Other(s@),
    }
}

/// The mathematical value of a JSON value.
pub open spec fn json_model(v: JsonValue) -> JsonModel
    decreases v,
{
    match v {
        JsonValue::Null => JsonModel::Null,
        JsonValue::Bool(b) => JsonModel::Bool(b),
        JsonValue::Number(n) => JsonModel::Number(number_model(n)),
        JsonValue::String(s) => JsonModel::String(s@),
        JsonValue::Array(items) => JsonModel::Array(
            Seq::new(
                items@.len(),
                |i: int|
                    if 0 <= i < items@.len() {
                        proof {
                            vstd::std_specs::vec::axiom_vec_index_decreases(items, i);
                        }
                        json_model(items@[i])
                    } else {
                        JsonModel::Null
                    },
            ),
        ),
        JsonValue::Object(members) => JsonModel::Object(
            Seq::new(
                members@.len(),
                |i: int|
                    if 0 <= i < members@.len() {
                        proof {
                            vstd::std_specs::vec::axiom_vec_index_decreases(members, i);
                        }
                        (members@[i].0@, json_model(members@[i].1))
                    } else {
                        (Seq::empty(), JsonModel::Null)
                    },
            ),
        ),
    }
}

impl View for JsonValue {
    type V = JsonModel;

    open spec fn view(&self) -> JsonModel {
        json_model(*self)
    }
}

pub open spec fn items_model(items: Seq<JsonValue>) -> Seq<JsonModel> {
    Seq::new(items.len(), |i: int| items[i]@)
}

pub open spec fn members_model(members: Seq<(String, JsonValue)>) -> Seq<(Seq<char>, JsonModel)> {
    Seq::new(members.len(), |i: int| (members[i].0@, members[i].1@))
}

pub proof fn lemma_object_model(members: Vec<(String, JsonValue)>)
    ensures
        JsonValue::Object(members)@ == JsonModel::Object(members_model(members@)),
{
    let v = JsonValue::Object(members);
    if let JsonModel::Object(a) = json_model(v) {
        let b = members_model(members@);
        assert(a.len() == b.len());
        assert forall|i: int| 0 <= i < a.len() implies a[i] == b[i] by {
            assert(a[i] == (members@[i].0@, json_model(members@[i].1)));
        }
        assert(a =~= b);
    }
}

pub proof fn lemma_array_model(items: Vec<JsonValue>)
    ensures
        JsonValue::Array(items)@ == JsonModel::Array(items_model(items@)),
{
    let v = JsonValue::Array(items);
    if let JsonModel::Array(a) = json_model(v) {
        let b = items_model(items@);
        assert(a.len() == b.len());
        assert forall|i: int| 0 <= i < a.len() implies a[i] == b[i] by {
            assert(a[i] == json_model(items@[i]));
        }
        assert(a =~= b);
    }
}

/// The index of the member `key`, or the number of members.
pub open spec fn member_index(o: Seq<(Seq<char>, JsonModel)>, key: Seq<char>) -> int
    decreases o.len(),
{
    if o.len() == 0 {
        0
    } else if member_index(o.drop_last(), key) < o.len() - 1 {
        member_index(o.drop_last(), key)
    } else if o.last().0 == key {
        o.len() - 1
    } else {
        o.len() as int
    }
}

/// The value of member `key`.
pub open spec fn member(o: Seq<(Seq<char>, JsonModel)>, key: Seq<char>) -> Option<JsonModel> {
    if member_index(o, key) < o.len() {
        Some(o[member_index(o, key)].1)
    } else {
        None
    }
}

/// The string value of member `key`.
pub open spec fn member_str(o: Seq<(Seq<char>, JsonModel)>, key: Seq<char>) -> Option<Seq<char>> {
    match member(o, key) {
        Some(JsonModel::String(s)) => Some(s),
        _ => None,
    }
}

/// The members with `key` set to `v`: in place where the key exists, else
/// added at the end.
pub open spec fn with_member(o: Seq<(Seq<char>, JsonModel)>, key: Seq<char>, v: JsonModel) -> Seq<(Seq<char>, JsonModel)> {
    let i = member_index(o, key);
    if i < o.len() {
        o.update(i, (key, v))
    } else {
        o.push((key, v))
    }
}

/// The members without `key`.
pub open spec fn without_member(o: Seq<(Seq<char>, JsonModel)>, key: Seq<char>) -> Seq<(Seq<char>, JsonModel)> {
    let i = member_index(o, key);
    if i < o.len() {
        o.remove(i)
    } else {
        o
    }
}

pub proof fn lemma_member_index(o: Seq<(Seq<char>, JsonModel)>, key: Seq<char>)
    ensures
        0 <= member_index(o, key) <= o.len(),
        member_index(o, key) < o.len() ==> o[member_index(o, key)].0 == key,
        forall|j: int| 0 <= j < member_index(o, key) ==> o[j].0 != key,
    decreases o.len(),
{
    if o.len() > 0 {
        lemma_member_index(o.drop_last(), key);
        assert forall|j: int| 0 <= j < member_index(o, key) implies o[j].0 != key by {
            if j < o.len() - 1 {
                assert(o[j] == o.drop_last()[j]);
            }
        }
    }
}

/// The index of member `key`, or the number of members.
pub fn find_member(o: &Vec<(String, JsonValue)>, key: &str) -> (r: usize)
    ensures
        r == member_index(members_model(o@), key@),
{
    let ghost m = members_model(o@);
    proof {
        lemma_member_index(m, key@);
    }
    let k = chars_of(key);
    let mut i: usize = 0;
    while i < o.len()
        invariant
            i <= o@.len(),
            m == members_model(o@),
            k@ == key@,
            forall|j: int| 0 <= j < i ==> m[j].0 != key@,
            0 <= member_index(m, key@) <= m.len(),
            member_index(m, key@) < m.len() ==> m[member_index(m, key@)].0 == key@,
            forall|j: int| 0 <= j < member_index(m, key@) ==> m[j].0 != key@,
        decreases o.len() - i,
    {
        let name = chars_of(o[i].0.as_str());
        if chars_eq(&name, &k) {
            assert(m[i as int].0 == key@);
            return i;
        }
        i = i + 1;
    }
    i
}

/// The string value of member `key`.
pub fn get_member_str(o: &Vec<(String, JsonValue)>, key: &str) -> (r: Option<String>)
    ensures
        match r {
            Some(s) => member_str(members_model(o@), key@) == Some(s@),
            None => member_str(members_model(o@), key@) is None,
        },
{
    let i = find_member(o, key);
    if i >= o.len() {
        return None;
    }
    match &o[i].1 {
        JsonValue::String(s) => Some(s.clone()),
        _ => None,
    }
}

/// Sets member `key` to `v`: in place where the key exists, else at the end.
pub fn set_member(o: &mut Vec<(String, JsonValue)>, key: &str, v: JsonValue)
    ensures
        members_model(final(o)@) == with_member(members_model(old(o)@), key@, v@),
{
    let i = find_member(o, key);
    let k = string_from_chars(&chars_of(key));
    let ghost m = members_model(o@);
    let ghost vm = v@;
    if i < o.len() {
        o.set(i, (k, v));
        assert(members_model(o@) =~= with_member(m, key@, vm));
    } else {
        o.push((k, v));
        assert(members_model(o@) =~= with_member(m, key@, vm));
    }
}

/// Removes member `key`, keeping the order of the others; gives its value.
pub fn remove_member(o: &mut Vec<(String, JsonValue)>, key: &str) -> (r: Option<JsonValue>)
    ensures
        members_model(final(o)@) == without_member(members_model(old(o)@), key@),
        match r {
            Some(v) => member(members_model(old(o)@), key@) == Some(v@),
            None => member(members_model(old(o)@), key@) is None,
        },
{
    let i = find_member(o, key);
    let ghost m = members_model(o@);
    if i < o.len() {
        let (_, v) = o.remove(i);
        assert(members_model(o@) =~= without_member(m, key@));
        Some(v)
    } else {
        None
    }
}

/// A string value.
pub fn json_text(s: &str) -> (r: JsonValue)
    ensures
        r@ == JsonModel::String(s@),
{
    JsonValue::String(string_from_chars(&chars_of(s)))
}

/// Setting a member leaves every other member as it was.
pub proof fn lemma_with_member_other(o: Seq<(Seq<char>, JsonModel)>, key: Seq<char>, v: JsonModel, k: Seq<char>)
    requires
        k != key,
    ensures
        member(with_member(o, key, v), k) == member(o, k),
{
    let w = with_member(o, key, v);
    lemma_member_index(o, key);
    lemma_member_index(o, k);
    lemma_member_index(w, k);
    let i = member_index(o, key);
    let a = member_index(o, k);
    let b = member_index(w, k);
    assert forall|j: int| 0 <= j < o.len() && j != i implies #[trigger] w[j] == o[j] by {}
    if i < o.len() {
        assert(w[i] == (key, v));
    } else {
        assert(w[o.len() as int] == (key, v));
    }
    if a < o.len() {
        assert(a != i);
        assert(w[a] == o[a]);
        if b < a {
            assert(b != i);
            assert(w[b] == o[b]);
        }
        assert(b == a);
    } else {
        if b < w.len() {
            if b < o.len() && b != i {
                assert(w[b] == o[b]);
            }
        }
        assert(b >= w.len());
    }
}

} // verus!
