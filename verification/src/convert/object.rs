//! Building JSON objects member by member.
use vstd::prelude::*;

use crate::convert::fields::{opt_string_view, opt_strings_view, strings_view};
use crate::json::{items_model, lemma_array_model, lemma_object_model, members_model, JsonModel, JsonNumber, JsonValue, NumberValue};
use crate::outside::string_from_chars;
use crate::text::chars_of;

verus! {

pub type Members = Seq<(Seq<char>, JsonModel)>;

pub open spec fn js(s: Seq<char>) -> JsonModel {
    JsonModel::String(s)
}

pub open spec fn ju(u: u64) -> JsonModel {
    JsonModel::Number(NumberValue::PosInt(u))
}

pub open spec fn jlist(ss: Seq<Seq<char>>) -> JsonModel {
    JsonModel::Array(ss.map_values(|s: Seq<char>| JsonModel::String(s)))
}

pub open spec fn jnums(ns: Seq<u64>) -> JsonModel {
    JsonModel::Array(ns.map_values(|n: u64| JsonModel::Number(NumberValue::PosInt(n))))
}

/// The member `key: v` where `v` is present.
pub open spec fn opt_member(key: Seq<char>, v: Option<JsonModel>) -> Members {
    match v {
        Some(x) => seq![(key, x)],
        None => seq![],
    }
}

/// The member `key: true` where `flag` holds.
pub open spec fn flag_member(key: Seq<char>, flag: bool) -> Members {
    if flag {
        seq![(key, JsonModel::Bool(true))]
    } else {
        seq![]
    }
}

pub open spec fn opt_str(v: Option<Seq<char>>) -> Option<JsonModel> {
    match v {
        Some(s) => Some(js(s)),
        None => None,
    }
}

pub open spec fn opt_u64(v: Option<u64>) -> Option<JsonModel> {
    match v {
        Some(u) => Some(ju(u)),
        None => None,
    }
}

pub open spec fn opt_list(v: Option<Seq<Seq<char>>>) -> Option<JsonModel> {
    match v {
        Some(l) => Some(jlist(l)),
        None => None,
    }
}

pub open spec fn opt_obj(v: Option<Members>) -> Option<JsonModel> {
    match v {
        Some(m) => Some(JsonModel::Object(m)),
        None => None,
    }
}

pub open spec fn opt_members_view(v: Option<Vec<(String, JsonValue)>>) -> Option<Members> {
    match v {
        Some(m) => Some(members_model(m@)),
        None => None,
    }
}

/// A JSON object of members being built.
pub struct ObjectBuilder {
    pub fields: Vec<(String, JsonValue)>,
}

impl ObjectBuilder {
    pub open spec fn members(&self) -> Members {
        members_model(self.fields@)
    }

    pub fn new() -> (r: ObjectBuilder)
        ensures
            r.members() == Seq::<(Seq<char>, JsonModel)>::empty(),
    {
        let r = ObjectBuilder { fields: Vec::new() };
        assert(r.members() =~= Seq::<(Seq<char>, JsonModel)>::empty());
        r
    }

    pub fn push(&mut self, key: &str, v: JsonValue)
        ensures
            final(self).members() == old(self).members().push((key@, v@)),
    {
        let ghost before = self.members();
        let ghost vm = v@;
        let k = string_from_chars(&chars_of(key));
        self.fields.push((k, v));
        assert(self.members() =~= before.push((key@, vm)));
    }

    pub fn push_opt(&mut self, key: &str, v: Option<JsonValue>)
        ensures
            final(self).members() == old(self).members() + opt_member(
                key@,
                match v {
                    Some(x) => Some(x@),
                    None => None,
                },
            ),
    {
        let ghost before = self.members();
        match v {
            Some(x) => {
                self.push(key, x);
                assert(self.members() =~= before + opt_member(key@, Some(x@)));
            },
            None => {
                assert(self.members() =~= before + opt_member(key@, None));
            },
        }
    }

    pub fn push_str(&mut self, key: &str, v: &str)
        ensures
            final(self).members() == old(self).members().push((key@, js(v@))),
    {
        let s = string_from_chars(&chars_of(v));
        self.push(key, JsonValue::String(s));
    }

    pub fn push_opt_str(&mut self, key: &str, v: Option<String>)
        ensures
            final(self).members() == old(self).members() + opt_member(key@, opt_str(opt_string_view(v))),
    {
        let x = match v {
            Some(s) => Some(JsonValue::String(s)),
            None => None,
        };
        self.push_opt(key, x);
    }

    pub fn push_opt_u64(&mut self, key: &str, v: Option<u64>)
        ensures
            final(self).members() == old(self).members() + opt_member(key@, opt_u64(v)),
    {
        let x = match v {
            Some(u) => Some(JsonValue::Number(JsonNumber::PosInt(u))),
            None => None,
        };
        self.push_opt(key, x);
    }

    pub fn push_opt_list(&mut self, key: &str, v: Option<Vec<String>>)
        ensures
            final(self).members() == old(self).members() + opt_member(key@, opt_list(opt_strings_view(v))),
    {
        let x = match v {
            Some(l) => Some(string_array(l)),
            None => None,
        };
        self.push_opt(key, x);
    }

    pub fn push_opt_object(&mut self, key: &str, v: Option<Vec<(String, JsonValue)>>)
        ensures
            final(self).members() == old(self).members() + opt_member(key@, opt_obj(opt_members_view(v))),
    {
        let x = match v {
            Some(m) => {
                proof {
                    lemma_object_model(m);
                }
                Some(JsonValue::Object(m))
            },
            None => None,
        };
        self.push_opt(key, x);
    }

    pub fn push_flag(&mut self, key: &str, flag: bool)
        ensures
            final(self).members() == old(self).members() + flag_member(key@, flag),
    {
        let ghost before = self.members();
        if flag {
            self.push(key, JsonValue::Bool(true));
            assert(self.members() =~= before + flag_member(key@, flag));
        } else {
            assert(self.members() =~= before + flag_member(key@, flag));
        }
    }

    /// Appends the members of another builder, in their order.
    pub fn append(&mut self, other: ObjectBuilder)
        ensures
            final(self).members() == old(self).members() + other.members(),
    {
        let ghost before = self.fields@;
        let mut rest = other.fields;
        let ghost added = rest@;
        self.fields.append(&mut rest);
        assert(members_model(before + added) =~= members_model(before) + members_model(added));
    }

    pub fn finish(self) -> (r: Vec<(String, JsonValue)>)
        ensures
            members_model(r@) == self.members(),
    {
        self.fields
    }
}

/// An array of strings.
pub fn string_array(l: Vec<String>) -> (r: JsonValue)
    ensures
        r@ == jlist(strings_view(l@)),
{
    let mut items: Vec<JsonValue> = Vec::new();
    let mut i: usize = 0;
    let ghost sv = strings_view(l@);
    while i < l.len()
        invariant
            i <= l@.len(),
            sv == strings_view(l@),
            items_model(items@) == sv.take(i as int).map_values(|s: Seq<char>| JsonModel::String(s)),
        decreases l.len() - i,
    {
        let ghost before = items_model(items@);
        items.push(JsonValue::String(l[i].clone()));
        assert(items_model(items@) =~= before.push(JsonModel::String(sv[i as int])));
        assert(sv.take(i + 1).map_values(|s: Seq<char>| JsonModel::String(s)) =~= sv.take(i as int).map_values(|s: Seq<char>| JsonModel::String(s)).push(JsonModel::String(sv[i as int])));
        i = i + 1;
    }
    assert(sv.take(sv.len() as int) =~= sv);
    proof {
        lemma_array_model(items);
    }
    JsonValue::Array(items)
}

/// An array of numbers.
pub fn number_array(l: Vec<u64>) -> (r: JsonValue)
    ensures
        r@ == jnums(l@),
{
    let mut items: Vec<JsonValue> = Vec::new();
    let mut i: usize = 0;
    while i < l.len()
        invariant
            i <= l@.len(),
            items_model(items@) == l@.take(i as int).map_values(|n: u64| JsonModel::Number(NumberValue::PosInt(n))),
        decreases l.len() - i,
    {
        let ghost before = items_model(items@);
        items.push(JsonValue::Number(JsonNumber::PosInt(l[i])));
        assert(items_model(items@) =~= before.push(JsonModel::Number(NumberValue::PosInt(l@[i as int]))));
        assert(l@.take(i + 1).map_values(|n: u64| JsonModel::Number(NumberValue::PosInt(n))) =~= l@.take(i as int).map_values(|n: u64| JsonModel::Number(NumberValue::PosInt(n))).push(JsonModel::Number(NumberValue::PosInt(l@[i as int]))));
        i = i + 1;
    }
    assert(l@.take(l@.len() as int) =~= l@);
    proof {
        lemma_array_model(items);
    }
    JsonValue::Array(items)
}

} // verus!
