//! Reading the fields of a proxy node: strings, numbers, flags, nested
//! mappings and lists, as mihomo writes them.
use vstd::prelude::*;

use crate::json::{items_model, lemma_array_model, lemma_object_model, members_model, JsonModel, JsonNumber, JsonValue, NumberValue};
use crate::outside::string_from_chars;
use crate::text::{chars_eq, chars_of, split_chars, split_on, trim, trimmed, views};
use crate::yaml::{
    find_key, key_index, lemma_key_index, lemma_mapping_model, lookup, pairs_model, NumberModel,
    YamlModel, YamlValue,
};

verus! {

pub type Pairs = Seq<(YamlModel, YamlModel)>;

/// The text of a scalar: a string as it is, a number as it prints, a flag as
/// `true` or `false`.
pub open spec fn scalar_text(v: YamlModel) -> Option<Seq<char>> {
    match v {
        YamlModel::String(s) => Some(s),
        YamlModel::Number(n) => Some(n.text),
        YamlModel::Bool(b) => Some(
            if b {
                "true"@
            } else {
                "false"@
            },
        ),
        _ => None,
    }
}

/// The text of the scalar at `key`.
pub open spec fn get_string(m: Pairs, key: Seq<char>) -> Option<Seq<char>> {
    match lookup(m, key) {
        Some(v) => scalar_text(v),
        None => None,
    }
}

pub open spec fn is_digit(c: char) -> bool {
    48 <= c as u32 <= 57
}

/// The value of a string of decimal digits.
pub open spec fn digits_value(d: Seq<char>) -> int
    decreases d.len(),
{
    if d.len() == 0 {
        0
    } else {
        digits_value(d.drop_last()) * 10 + ((d.last() as u32) as int - 48)
    }
}

/// A `u64` as `str::parse` reads it: an optional `+`, then at least one
/// decimal digit, with a value that fits.
pub open spec fn parse_u64(t: Seq<char>) -> Option<u64> {
    let d = unsigned_digits(t);
    if d.len() == 0 || !all_digits(d) || digits_value(d) > u64::MAX {
        None
    } else {
        Some(digits_value(d) as u64)
    }
}

/// The digits of an unsigned number: the text without a leading `+`.
pub open spec fn unsigned_digits(t: Seq<char>) -> Seq<char> {
    if t.len() > 0 && t[0] == '+' {
        t.subrange(1, t.len() as int)
    } else {
        t
    }
}

pub open spec fn all_digits(d: Seq<char>) -> bool {
    forall|i: int| 0 <= i < d.len() ==> is_digit(#[trigger] d[i])
}

/// A number as a `u64`: its unsigned value, else its signed value cast.
pub open spec fn number_u64(n: NumberModel) -> Option<u64> {
    match n.unsigned {
        Some(u) => Some(u),
        None => match n.signed {
            Some(i) => Some(i as u64),
            None => None,
        },
    }
}

/// The number at `key`, or the number that its string holds.
pub open spec fn get_u64(m: Pairs, key: Seq<char>) -> Option<u64> {
    match lookup(m, key) {
        Some(YamlModel::Number(n)) => number_u64(n),
        Some(YamlModel::String(t)) => parse_u64(t),
        _ => None,
    }
}

/// Whether `key` is set: `true`, or the string `true` or `1`.
pub open spec fn get_bool(m: Pairs, key: Seq<char>) -> bool {
    match lookup(m, key) {
        Some(YamlModel::Bool(b)) => b,
        Some(YamlModel::String(t)) => t == "true"@ || t == "1"@,
        _ => false,
    }
}

/// The mapping at `key`.
pub open spec fn get_mapping(m: Pairs, key: Seq<char>) -> Option<Pairs> {
    match lookup(m, key) {
        Some(YamlModel::Mapping(p)) => Some(p),
        _ => None,
    }
}

/// The strings among `items`, in order.
pub open spec fn strings_of(items: Seq<YamlModel>) -> Seq<Seq<char>>
    decreases items.len(),
{
    if items.len() == 0 {
        seq![]
    } else {
        match items.last() {
            YamlModel::String(s) => strings_of(items.drop_last()).push(s),
            _ => strings_of(items.drop_last()),
        }
    }
}

/// The non-empty trimmed pieces of a comma-separated text.
pub open spec fn csv_parts(t: Seq<char>) -> Seq<Seq<char>> {
    split_on(t, ',').map_values(|p: Seq<char>| trim(p)).filter(|p: Seq<char>| p.len() > 0)
}

/// A list at `key`: the strings of a sequence, or the comma-separated
/// parts of a string.
pub open spec fn get_string_list(m: Pairs, key: Seq<char>) -> Option<Seq<Seq<char>>> {
    match lookup(m, key) {
        Some(YamlModel::Sequence(items)) => Some(strings_of(items)),
        Some(YamlModel::String(t)) => Some(csv_parts(t)),
        _ => None,
    }
}

/// The numbers among the trimmed comma-separated parts.
pub open spec fn parsed_numbers(parts: Seq<Seq<char>>) -> Seq<u64>
    decreases parts.len(),
{
    if parts.len() == 0 {
        seq![]
    } else {
        match parse_u64(trim(parts.last())) {
            Some(n) => parsed_numbers(parts.drop_last()).push(n),
            None => parsed_numbers(parts.drop_last()),
        }
    }
}

/// The numbers of the comma-separated text at `key`.
pub open spec fn get_csv_numbers(m: Pairs, key: Seq<char>) -> Option<Seq<u64>> {
    match get_string(m, key) {
        Some(t) => Some(parsed_numbers(split_on(t, ','))),
        None => None,
    }
}

/// The first of `keys` whose text is set.
pub open spec fn first_string(m: Pairs, keys: Seq<Seq<char>>) -> Option<Seq<char>>
    decreases keys.len(),
{
    if keys.len() == 0 {
        None
    } else {
        match get_string(m, keys[0]) {
            Some(s) => Some(s),
            None => first_string(m, keys.subrange(1, keys.len() as int)),
        }
    }
}

/// The first of `keys` whose list is set.
pub open spec fn first_string_list(m: Pairs, keys: Seq<Seq<char>>) -> Option<Seq<Seq<char>>>
    decreases keys.len(),
{
    if keys.len() == 0 {
        None
    } else {
        match get_string_list(m, keys[0]) {
            Some(s) => Some(s),
            None => first_string_list(m, keys.subrange(1, keys.len() as int)),
        }
    }
}

/// The first of `keys` whose number is set.
pub open spec fn first_u64(m: Pairs, keys: Seq<Seq<char>>) -> Option<u64>
    decreases keys.len(),
{
    if keys.len() == 0 {
        None
    } else {
        match get_u64(m, keys[0]) {
            Some(s) => Some(s),
            None => first_u64(m, keys.subrange(1, keys.len() as int)),
        }
    }
}

/// Whether any of `keys` is set.
pub open spec fn any_bool(m: Pairs, keys: Seq<Seq<char>>) -> bool {
    exists|i: int| 0 <= i < keys.len() && get_bool(m, keys[i])
}

/// A YAML value as JSON: numbers that fit an `i64` as integers, other
/// numbers by their text, mappings without their non-string keys, tagged
/// values as null.
pub open spec fn yaml_to_json(v: YamlModel) -> JsonModel
    decreases v, 0int,
{
    match v {
        YamlModel::Null => JsonModel::Null,
        YamlModel::Bool(b) => JsonModel::Bool(b),
        YamlModel::Number(n) => JsonModel::Number(
            match n.signed {
                Some(i) => if i >= 0 {
                    NumberValue::PosInt(i as u64)
                } else {
                    NumberValue::NegInt(i)
                },
                None => NumberValue::Other(n.text),
            },
        ),
        YamlModel::String(s) => JsonModel::String(s),
        YamlModel::Sequence(items) => JsonModel::Array(item_list(items, items.len() as int)),
        YamlModel::Mapping(pairs) => JsonModel::Object(member_list(pairs, pairs.len() as int)),
        YamlModel::Tagged(_, _) => JsonModel::Null,
    }
}

/// The first `n` items as JSON.
pub open spec fn item_list(items: Seq<YamlModel>, n: int) -> Seq<JsonModel>
    decreases items, n,
{
    if n <= 0 || n > items.len() {
        seq![]
    } else {
        item_list(items, n - 1).push(yaml_to_json(items[n - 1]))
    }
}

/// The string-keyed entries among the first `n` of a mapping, as JSON
/// members.
pub open spec fn member_list(pairs: Seq<(YamlModel, YamlModel)>, n: int) -> Seq<(Seq<char>, JsonModel)>
    decreases pairs, n,
{
    if n <= 0 || n > pairs.len() {
        seq![]
    } else {
        match pairs[n - 1].0 {
            YamlModel::String(k) => member_list(pairs, n - 1).push((k, yaml_to_json(pairs[n - 1].1))),
            _ => member_list(pairs, n - 1),
        }
    }
}

/// The views of a list of keys.
pub open spec fn keys_view(keys: Seq<&str>) -> Seq<Seq<char>> {
    Seq::new(keys.len(), |i: int| keys[i]@)
}

/// The views of a vector of strings.
pub open spec fn strings_view(v: Seq<String>) -> Seq<Seq<char>> {
    Seq::new(v.len(), |i: int| v[i]@)
}

/// The view of an optional string.
pub open spec fn opt_string_view(v: Option<String>) -> Option<Seq<char>> {
    match v {
        Some(s) => Some(s@),
        None => None,
    }
}

/// The view of an optional list of strings.
pub open spec fn opt_strings_view(v: Option<Vec<String>>) -> Option<Seq<Seq<char>>> {
    match v {
        Some(l) => Some(strings_view(l@)),
        None => None,
    }
}

/// The entry at `key`, if any.
pub fn map_get<'a>(m: &'a Vec<(YamlValue, YamlValue)>, key: &str) -> (r: Option<&'a YamlValue>)
    ensures
        match r {
            Some(v) => lookup(pairs_model(m@), key@) == Some(v@),
            None => lookup(pairs_model(m@), key@) is None,
        },
{
    let i = find_key(m, key);
    if i < m.len() {
        Some(&m[i].1)
    } else {
        None
    }
}

/// The text of the scalar at `key`.
pub fn map_get_string(m: &Vec<(YamlValue, YamlValue)>, key: &str) -> (r: Option<String>)
    ensures
        opt_string_view(r) == get_string(pairs_model(m@), key@),
{
    match map_get(m, key) {
        Some(YamlValue::String(t)) => Some(t.clone()),
        Some(YamlValue::Number(n)) => Some(n.text.clone()),
        Some(YamlValue::Bool(b)) => {
            if *b {
                Some(string_from_chars(&chars_of("true")))
            } else {
                Some(string_from_chars(&chars_of("false")))
            }
        },
        _ => None,
    }
}

/// A `u64` as `str::parse` reads it.
pub fn parse_u64_text(t: &Vec<char>) -> (r: Option<u64>)
    ensures
        r == parse_u64(t@),
{
    let start: usize = if t.len() > 0 && t[0] == '+' {
        1
    } else {
        0
    };
    let ghost d = t@.subrange(start as int, t@.len() as int);
    assert(d =~= unsigned_digits(t@));
    if start >= t.len() {
        return None;
    }
    let mut value: u64 = 0;
    let mut i = start;
    while i < t.len()
        invariant
            start <= i <= t@.len(),
            d == t@.subrange(start as int, t@.len() as int),
            d == unsigned_digits(t@),
            forall|j: int| 0 <= j < i - start ==> is_digit(#[trigger] d[j]),
            value == digits_value(d.take(i - start)),
        decreases t.len() - i,
    {
        let c = t[i];
        let u = c as u32;
        if !(48 <= u && u <= 57) {
            assert(!is_digit(d[i - start]));
            assert(!all_digits(d));
            return None;
        }
        let digit = (u - 48) as u64;
        assert(d.take(i - start + 1).drop_last() =~= d.take(i - start));
        if value > (u64::MAX - digit) / 10 {
            assert(digits_value(d.take(i - start + 1)) > u64::MAX) by (nonlinear_arith)
                requires
                    value > (u64::MAX - digit) / 10,
                    digits_value(d.take(i - start + 1)) == value * 10 + digit,
                    digit <= 9,
            ;
            proof {
                lemma_digits_prefix_bound(d, i - start + 1);
            }
            return None;
        }
        assert(value * 10 + digit <= u64::MAX) by (nonlinear_arith)
            requires
                value <= (u64::MAX - digit) / 10,
                digit <= 9,
        ;
        value = value * 10 + digit;
        i = i + 1;
    }
    assert(d.take(d.len() as int) =~= d);
    Some(value)
}

/// A longer run of digits is worth at least as much as its prefix.
proof fn lemma_digits_prefix_bound(d: Seq<char>, k: int)
    requires
        0 <= k <= d.len(),
        forall|j: int| 0 <= j < k ==> is_digit(#[trigger] d[j]),
        digits_value(d.take(k)) > u64::MAX,
    ensures
        all_digits(d) ==> digits_value(d) > u64::MAX,
    decreases d.len() - k,
{
    if k < d.len() && all_digits(d) {
        assert(d.take(k + 1).drop_last() =~= d.take(k));
        assert(is_digit(d[k]));
        assert(digits_value(d.take(k + 1)) >= digits_value(d.take(k)) * 10);
        lemma_digits_prefix_bound(d, k + 1);
    } else if k == d.len() {
        assert(d.take(k) =~= d);
    }
}

/// The number at `key`, or the number that its string holds.
pub fn map_get_u64(m: &Vec<(YamlValue, YamlValue)>, key: &str) -> (r: Option<u64>)
    ensures
        r == get_u64(pairs_model(m@), key@),
{
    match map_get(m, key) {
        Some(YamlValue::Number(n)) => match n.unsigned {
            Some(u) => Some(u),
            None => match n.signed {
                Some(i) => Some(i as u64),
                None => None,
            },
        },
        Some(YamlValue::String(t)) => parse_u64_text(&chars_of(t.as_str())),
        _ => None,
    }
}

/// Whether `key` is `true`, or the string `true` or `1`.
pub fn map_get_bool(m: &Vec<(YamlValue, YamlValue)>, key: &str) -> (r: bool)
    ensures
        r == get_bool(pairs_model(m@), key@),
{
    match map_get(m, key) {
        Some(YamlValue::Bool(b)) => *b,
        Some(YamlValue::String(t)) => {
            let cs = chars_of(t.as_str());
            chars_eq(&cs, &chars_of("true")) || chars_eq(&cs, &chars_of("1"))
        },
        _ => false,
    }
}

/// The mapping at `key`.
pub fn map_get_mapping<'a>(m: &'a Vec<(YamlValue, YamlValue)>, key: &str) -> (r: Option<&'a Vec<(YamlValue, YamlValue)>>)
    ensures
        match r {
            Some(p) => get_mapping(pairs_model(m@), key@) == Some(pairs_model(p@)),
            None => get_mapping(pairs_model(m@), key@) is None,
        },
{
    match map_get(m, key) {
        Some(YamlValue::Mapping(p)) => {
            proof {
                lemma_mapping_model(*p);
            }
            Some(p)
        },
        _ => None,
    }
}

/// The non-empty trimmed pieces of a comma-separated text.
pub fn csv_parts_of(t: &Vec<char>) -> (r: Vec<String>)
    ensures
        strings_view(r@) == csv_parts(t@),
{
    let pieces = split_chars(t, ',');
    let ghost ps = views(pieces@);
    let ghost f = |p: Seq<char>| trim(p);
    let ghost q = |p: Seq<char>| p.len() > 0;
    let ghost mapped = ps.map_values(f);
    let mut out: Vec<String> = Vec::new();
    let mut i: usize = 0;
    while i < pieces.len()
        invariant
            i <= pieces@.len(),
            ps == views(pieces@),
            mapped == ps.map_values(f),
            f == (|p: Seq<char>| trim(p)),
            q == (|p: Seq<char>| p.len() > 0),
            strings_view(out@) == mapped.take(i as int).filter(q),
        decreases pieces.len() - i,
    {
        let ghost before = strings_view(out@);
        let part = trimmed(&pieces[i]);
        assert(part@ == mapped[i as int]);
        assert(mapped.take(i + 1) =~= mapped.take(i as int).push(mapped[i as int]));
        proof {
            mapped.take(i as int).lemma_filter_push(mapped[i as int], q);
        }
        if part.len() > 0 {
            out.push(string_from_chars(&part));
            assert(strings_view(out@) =~= before.push(part@));
        }
        i = i + 1;
    }
    assert(mapped.take(mapped.len() as int) =~= mapped);
    out
}

/// A list at `key`: the strings of a sequence, or the comma-separated
/// parts of a string.
pub fn map_get_string_list(m: &Vec<(YamlValue, YamlValue)>, key: &str) -> (r: Option<Vec<String>>)
    ensures
        opt_strings_view(r) == get_string_list(pairs_model(m@), key@),
{
    match map_get(m, key) {
        Some(YamlValue::Sequence(items)) => {
            let ghost im = Seq::new(items@.len(), |i: int| items@[i]@);
            assert(YamlValue::Sequence(*items)@ == YamlModel::Sequence(im)) by {
                if let YamlModel::Sequence(a) = YamlValue::Sequence(*items)@ {
                    assert forall|i: int| 0 <= i < a.len() implies a[i] == im[i] by {}
                    assert(a =~= im);
                }
            }
            let mut out: Vec<String> = Vec::new();
            let mut i: usize = 0;
            while i < items.len()
                invariant
                    i <= items@.len(),
                    im == Seq::new(items@.len(), |i: int| items@[i]@),
                    strings_view(out@) == strings_of(im.take(i as int)),
                decreases items.len() - i,
            {
                let ghost before = strings_view(out@);
                assert(im.take(i + 1).drop_last() =~= im.take(i as int));
                assert(im.take(i + 1).last() == items@[i as int]@);
                match &items[i] {
                    YamlValue::String(t) => {
                        out.push(t.clone());
                        assert(strings_view(out@) =~= before.push(t@));
                    },
                    _ => {},
                }
                i = i + 1;
            }
            assert(im.take(im.len() as int) =~= im);
            Some(out)
        },
        Some(YamlValue::String(t)) => Some(csv_parts_of(&chars_of(t.as_str()))),
        _ => None,
    }
}

/// The same as `map_get_string_list`.
pub fn map_get_csv(m: &Vec<(YamlValue, YamlValue)>, key: &str) -> (r: Option<Vec<String>>)
    ensures
        opt_strings_view(r) == get_string_list(pairs_model(m@), key@),
{
    map_get_string_list(m, key)
}

/// The numbers of the comma-separated text at `key`.
pub fn map_get_csv_numbers(m: &Vec<(YamlValue, YamlValue)>, key: &str) -> (r: Option<Vec<u64>>)
    ensures
        match r {
            Some(v) => get_csv_numbers(pairs_model(m@), key@) == Some(v@),
            None => get_csv_numbers(pairs_model(m@), key@) is None,
        },
{
    let text = match map_get_string(m, key) {
        Some(t) => t,
        None => {
            return None;
        },
    };
    let pieces = split_chars(&chars_of(text.as_str()), ',');
    let ghost ps = views(pieces@);
    let mut out: Vec<u64> = Vec::new();
    let mut i: usize = 0;
    while i < pieces.len()
        invariant
            i <= pieces@.len(),
            ps == views(pieces@),
            out@ == parsed_numbers(ps.take(i as int)),
        decreases pieces.len() - i,
    {
        assert(ps.take(i + 1).drop_last() =~= ps.take(i as int));
        assert(ps.take(i + 1).last() == pieces@[i as int]@);
        let part = trimmed(&pieces[i]);
        match parse_u64_text(&part) {
            Some(n) => {
                out.push(n);
            },
            None => {},
        }
        i = i + 1;
    }
    assert(ps.take(ps.len() as int) =~= ps);
    Some(out)
}

/// The text of the first of `keys` that is set.
pub fn first_string_of(m: &Vec<(YamlValue, YamlValue)>, keys: &[&str]) -> (r: Option<String>)
    ensures
        opt_string_view(r) == first_string(pairs_model(m@), keys_view(keys@)),
{
    let ghost ks = keys_view(keys@);
    let mut i: usize = 0;
    assert(ks.subrange(0, ks.len() as int) =~= ks);
    while i < keys.len()
        invariant
            i <= keys@.len(),
            ks == keys_view(keys@),
            first_string(pairs_model(m@), ks) == first_string(pairs_model(m@), ks.subrange(i as int, ks.len() as int)),
        decreases keys.len() - i,
    {
        let ghost rest = ks.subrange(i as int, ks.len() as int);
        assert(rest[0] == keys@[i as int]@);
        assert(rest.subrange(1, rest.len() as int) =~= ks.subrange(i + 1, ks.len() as int));
        match map_get_string(m, keys[i]) {
            Some(s) => {
                return Some(s);
            },
            None => {},
        }
        i = i + 1;
    }
    None
}

/// The list of the first of `keys` that is set.
pub fn first_string_list_of(m: &Vec<(YamlValue, YamlValue)>, keys: &[&str]) -> (r: Option<Vec<String>>)
    ensures
        opt_strings_view(r) == first_string_list(pairs_model(m@), keys_view(keys@)),
{
    let ghost ks = keys_view(keys@);
    let mut i: usize = 0;
    assert(ks.subrange(0, ks.len() as int) =~= ks);
    while i < keys.len()
        invariant
            i <= keys@.len(),
            ks == keys_view(keys@),
            first_string_list(pairs_model(m@), ks) == first_string_list(pairs_model(m@), ks.subrange(i as int, ks.len() as int)),
        decreases keys.len() - i,
    {
        let ghost rest = ks.subrange(i as int, ks.len() as int);
        assert(rest[0] == keys@[i as int]@);
        assert(rest.subrange(1, rest.len() as int) =~= ks.subrange(i + 1, ks.len() as int));
        match map_get_string_list(m, keys[i]) {
            Some(s) => {
                return Some(s);
            },
            None => {},
        }
        i = i + 1;
    }
    None
}

/// The number of the first of `keys` that is set.
pub fn first_u64_of(m: &Vec<(YamlValue, YamlValue)>, keys: &[&str]) -> (r: Option<u64>)
    ensures
        r == first_u64(pairs_model(m@), keys_view(keys@)),
{
    let ghost ks = keys_view(keys@);
    let mut i: usize = 0;
    assert(ks.subrange(0, ks.len() as int) =~= ks);
    while i < keys.len()
        invariant
            i <= keys@.len(),
            ks == keys_view(keys@),
            first_u64(pairs_model(m@), ks) == first_u64(pairs_model(m@), ks.subrange(i as int, ks.len() as int)),
        decreases keys.len() - i,
    {
        let ghost rest = ks.subrange(i as int, ks.len() as int);
        assert(rest[0] == keys@[i as int]@);
        assert(rest.subrange(1, rest.len() as int) =~= ks.subrange(i + 1, ks.len() as int));
        match map_get_u64(m, keys[i]) {
            Some(s) => {
                return Some(s);
            },
            None => {},
        }
        i = i + 1;
    }
    None
}

/// Whether any of `keys` is set.
pub fn any_bool_of(m: &Vec<(YamlValue, YamlValue)>, keys: &[&str]) -> (r: bool)
    ensures
        r == any_bool(pairs_model(m@), keys_view(keys@)),
{
    let ghost ks = keys_view(keys@);
    let mut i: usize = 0;
    while i < keys.len()
        invariant
            i <= keys@.len(),
            ks == keys_view(keys@),
            forall|j: int| 0 <= j < i ==> !get_bool(pairs_model(m@), ks[j]),
        decreases keys.len() - i,
    {
        if map_get_bool(m, keys[i]) {
            assert(get_bool(pairs_model(m@), ks[i as int]));
            return true;
        }
        i = i + 1;
    }
    false
}

/// A YAML value as JSON.
#[verifier::loop_isolation(false)]
pub fn yaml_value_to_json(v: &YamlValue) -> (r: JsonValue)
    ensures
        r@ == yaml_to_json(v@),
    decreases v,
{
    match v {
        YamlValue::Null => JsonValue::Null,
        YamlValue::Bool(b) => JsonValue::Bool(*b),
        YamlValue::Number(n) => {
            let r = match n.signed {
                Some(i) => {
                    if i >= 0 {
                        JsonValue::Number(JsonNumber::PosInt(i as u64))
                    } else {
                        JsonValue::Number(JsonNumber::NegInt(i))
                    }
                },
                None => JsonValue::Number(JsonNumber::Other(n.text.clone())),
            };
            assert(r@ == yaml_to_json(v@));
            r
        },
        YamlValue::String(s) => {
            let r = JsonValue::String(s.clone());
            assert(r@ == yaml_to_json(v@));
            r
        },
        YamlValue::Sequence(items) => {
            let ghost im = Seq::new(items@.len(), |i: int| items@[i]@);
            assert(v@ == YamlModel::Sequence(im)) by {
                if let YamlModel::Sequence(a) = v@ {
                    assert(a =~= im);
                }
            }
            let mut out: Vec<JsonValue> = Vec::new();
            let mut i: usize = 0;
            while i < items.len()
                invariant
                    i <= items@.len(),
                    im == Seq::new(items@.len(), |i: int| items@[i]@),
                    *v == YamlValue::Sequence(*items),
                    items_model(out@) == item_list(im, i as int),
                decreases items.len() - i,
            {
                proof {
                    vstd::std_specs::vec::axiom_vec_index_decreases(*items, i as int);
                }
                let ghost before = items_model(out@);
                let j = yaml_value_to_json(&items[i]);
                out.push(j);
                assert(items_model(out@) =~= before.push(yaml_to_json(im[i as int])));
                i = i + 1;
            }
            proof {
                lemma_array_model(out);
            }
            JsonValue::Array(out)
        },
        YamlValue::Mapping(pairs) => {
            let members = yaml_map_to_json(pairs);
            proof {
                lemma_object_model(members);
                lemma_mapping_model(*pairs);
            }
            JsonValue::Object(members)
        },
        YamlValue::Tagged(_, _) => JsonValue::Null,
    }
}

/// The JSON members of a mapping: its string-keyed entries.
pub open spec fn json_members(pm: Pairs) -> Seq<(Seq<char>, JsonModel)> {
    member_list(pm, pm.len() as int)
}

/// The string-keyed entries of a mapping as JSON members.
#[verifier::loop_isolation(false)]
pub fn yaml_map_to_json(pairs: &Vec<(YamlValue, YamlValue)>) -> (r: Vec<(String, JsonValue)>)
    ensures
        members_model(r@) == json_members(pairs_model(pairs@)),
    decreases pairs,
{
    let ghost pm = pairs_model(pairs@);
    let mut out: Vec<(String, JsonValue)> = Vec::new();
    let mut i: usize = 0;
    while i < pairs.len()
        invariant
            i <= pairs@.len(),
            pm == pairs_model(pairs@),
            members_model(out@) == member_list(pm, i as int),
        decreases pairs.len() - i,
    {
        let ghost before = members_model(out@);
        match &pairs[i].0 {
            YamlValue::String(k) => {
                proof {
                    vstd::std_specs::vec::axiom_vec_index_decreases(*pairs, i as int);
                }
                let j = yaml_value_to_json(&pairs[i].1);
                out.push((k.clone(), j));
                assert(members_model(out@) =~= before.push((k@, yaml_to_json(pm[i as int].1))));
            },
            _ => {},
        }
        i = i + 1;
    }
    out
}

} // verus!
