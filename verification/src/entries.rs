//! Subscription providers as name/url entries: what makes a name, url or
//! type acceptable, and how an entry is added, renamed or removed.
use vstd::prelude::*;

use crate::outside::string_from_chars;
use crate::text::{chars_of, find_char, first_char_index, has_char, lines_of, slice_chars, split_lines, trim, trimmed, views};

verus! {

/// Why a provider name, url or type was refused.
#[derive(Debug, Clone, Copy, PartialEq, Eq)]
pub enum EntryError {
    /// The name is empty or holds a newline, carriage return or tab.
    InvalidName,
    /// The url is empty.
    EmptyUrl,
    /// The type is neither `remote` nor `local`.
    InvalidType,
}

/// Why a line of a subscription state file was refused.
#[derive(Debug, Clone, Copy, PartialEq, Eq)]
pub enum StateError {
    /// The line (counted from 1) has no tab between name and url.
    MissingTab(usize),
    /// The name or url of a line was refused.
    Entry(EntryError),
}

/// A subscription provider: its name and url.
#[derive(Debug, Clone, PartialEq, Eq)]
pub struct ProviderEntry {
    pub name: String,
    pub url: String,
}

pub ghost struct EntryModel {
    pub name: Seq<char>,
    pub url: Seq<char>,
}

impl ProviderEntry {
    pub open spec fn model(&self) -> EntryModel {
        EntryModel { name: self.name@, url: self.url@ }
    }
}

pub open spec fn entry_models(es: Seq<ProviderEntry>) -> Seq<EntryModel> {
    Seq::new(es.len(), |i: int| es[i].model())
}

/// A name is non-empty and holds no newline, carriage return or tab.
pub open spec fn valid_name(name: Seq<char>) -> bool {
    name.len() > 0 && !name.contains('\n') && !name.contains('\r') && !name.contains('\t')
}

pub open spec fn valid_url(url: Seq<char>) -> bool {
    url.len() > 0
}

pub open spec fn valid_type(t: Seq<char>) -> bool {
    t == "remote"@ || t == "local"@
}

/// The index of the first entry named `name`, or the number of entries.
pub open spec fn first_entry_named<E>(es: Seq<E>, name_of: spec_fn(E) -> Seq<char>, name: Seq<char>) -> int
    decreases es.len(),
{
    if es.len() == 0 {
        0
    } else if first_entry_named(es.drop_last(), name_of, name) < es.len() - 1 {
        first_entry_named(es.drop_last(), name_of, name)
    } else if name_of(es.last()) == name {
        es.len() - 1
    } else {
        es.len() as int
    }
}

/// The entries that an upsert keeps as they are: those named neither
/// `current` nor `next`.
pub open spec fn kept_by_upsert<E>(name_of: spec_fn(E) -> Seq<char>, current: Seq<char>, next: Seq<char>) -> spec_fn(E) -> bool {
    |e: E| name_of(e) != current && name_of(e) != next
}

/// The entries after `new` (named `next`) takes the place of the first entry
/// named `current`, other entries named `current` or `next` are dropped, and
/// `new` is appended when no entry is named `current`.
pub open spec fn upserted<E>(es: Seq<E>, name_of: spec_fn(E) -> Seq<char>, current: Seq<char>, next: Seq<char>, new: E) -> Seq<E> {
    let k = first_entry_named(es, name_of, current);
    let keep = kept_by_upsert(name_of, current, next);
    if k < es.len() {
        es.take(k).filter(keep) + seq![new] + es.skip(k + 1).filter(keep)
    } else {
        es.filter(keep) + seq![new]
    }
}

/// Whether an entry is not named `name`.
pub open spec fn not_named<E>(name_of: spec_fn(E) -> Seq<char>, name: Seq<char>) -> spec_fn(E) -> bool {
    |e: E| name_of(e) != name
}

/// The entries not named `name`.
pub open spec fn removed<E>(es: Seq<E>, name_of: spec_fn(E) -> Seq<char>, name: Seq<char>) -> Seq<E> {
    es.filter(not_named(name_of, name))
}

pub proof fn lemma_first_entry_named<E>(es: Seq<E>, name_of: spec_fn(E) -> Seq<char>, name: Seq<char>)
    ensures
        0 <= first_entry_named(es, name_of, name) <= es.len(),
        first_entry_named(es, name_of, name) < es.len() ==> name_of(
            es[first_entry_named(es, name_of, name)],
        ) == name,
        forall|j: int| 0 <= j < first_entry_named(es, name_of, name) ==> name_of(es[j]) != name,
    decreases es.len(),
{
    if es.len() > 0 {
        lemma_first_entry_named(es.drop_last(), name_of, name);
        assert forall|j: int| 0 <= j < first_entry_named(es, name_of, name) implies name_of(es[j])
            != name by {
            if j < es.len() - 1 {
                assert(es[j] == es.drop_last()[j]);
            }
        }
    }
}

/// An upsert leaves exactly one entry named `next`, the new one, and keeps
/// every entry named neither `current` nor `next`, in order.
pub proof fn upsert_leaves_one_entry_named<E>(es: Seq<E>, name_of: spec_fn(E) -> Seq<char>, current: Seq<char>, next: Seq<char>, new: E)
    requires
        name_of(new) == next,
    ensures
        ({
            let r = upserted(es, name_of, current, next, new);
            &&& exists|j: int| 0 <= j < r.len() && r[j] == new
            &&& forall|j: int| 0 <= j < r.len() && name_of(r[j]) == next ==> r[j] == new
            &&& forall|i: int, j: int| 0 <= i < j < r.len() ==> !(name_of(r[i]) == next && name_of(r[j]) == next)
            &&& r.filter(kept_by_upsert(name_of, current, next)) == es.filter(kept_by_upsert(name_of, current, next))
        }),
{
    broadcast use vstd::seq_lib::group_filter_ensures;
    let keep = kept_by_upsert(name_of, current, next);
    let k = first_entry_named(es, name_of, current);
    lemma_first_entry_named(es, name_of, current);
    let r = upserted(es, name_of, current, next, new);
    if k < es.len() {
        let a = es.take(k).filter(keep);
        let c = es.skip(k + 1).filter(keep);
        assert(r == a + seq![new] + c);
        assert(r[a.len() as int] == new);
        assert forall|j: int| 0 <= j < r.len() && name_of(r[j]) == next implies j == a.len() by {
            if j < a.len() {
                assert(r[j] == a[j]);
                assert(keep(a[j]));
            } else if j > a.len() {
                assert(r[j] == c[j - a.len() - 1]);
                assert(keep(c[j - a.len() - 1]));
            }
        }
        assert(!keep(new));
        vstd::seq_lib::lemma_seq_skip_nothing(es, 0);
        assert(es == es.take(k) + seq![es[k]] + es.skip(k + 1)) by {
            assert(es =~= es.take(k) + seq![es[k]] + es.skip(k + 1));
        }
        assert(!keep(es[k]));
        vstd::seq::Seq::filter_distributes_over_add(a + seq![new], c, keep);
        vstd::seq::Seq::filter_distributes_over_add(es.take(k).filter(keep), seq![new], keep);
        vstd::seq::Seq::filter_distributes_over_add(es.take(k), seq![es[k]], keep);
        vstd::seq::Seq::filter_distributes_over_add(es.take(k) + seq![es[k]], es.skip(k + 1), keep);
        lemma_filter_twice(es.take(k), keep);
        lemma_filter_twice(es.skip(k + 1), keep);
        lemma_filter_single_dropped(new, keep);
        lemma_filter_single_dropped(es[k], keep);
        assert(r.filter(keep) =~= es.filter(keep));
    } else {
        let a = es.filter(keep);
        assert(r == a + seq![new]);
        assert(r[a.len() as int] == new);
        assert forall|j: int| 0 <= j < r.len() && name_of(r[j]) == next implies j == a.len() by {
            if j < a.len() {
                assert(r[j] == a[j]);
                assert(keep(a[j]));
            }
        }
        vstd::seq::Seq::filter_distributes_over_add(a, seq![new], keep);
        lemma_filter_twice(es, keep);
        lemma_filter_single_dropped(new, keep);
        assert(r.filter(keep) =~= es.filter(keep));
    }
}

proof fn lemma_filter_twice<E>(s: Seq<E>, p: spec_fn(E) -> bool)
    ensures
        s.filter(p).filter(p) == s.filter(p),
    decreases s.len(),
{
    reveal(Seq::filter);
    if s.len() > 0 {
        lemma_filter_twice(s.drop_last(), p);
        let sub = s.drop_last().filter(p);
        if p(s.last()) {
            assert(sub.push(s.last()).drop_last() =~= sub);
        }
    }
}

proof fn lemma_filter_single_dropped<E>(x: E, p: spec_fn(E) -> bool)
    ensures
        !p(x) ==> seq![x].filter(p) == Seq::<E>::empty(),
        p(x) ==> seq![x].filter(p) == seq![x],
{
    reveal_with_fuel(Seq::filter, 2);
    assert(seq![x].drop_last() =~= Seq::<E>::empty());
}

/// After a removal no entry has the name, and the other entries stay in
/// order.
pub proof fn remove_leaves_none_named<E>(es: Seq<E>, name_of: spec_fn(E) -> Seq<char>, name: Seq<char>)
    ensures
        forall|j: int| 0 <= j < removed(es, name_of, name).len() ==> name_of(removed(es, name_of, name)[j]) != name,
        removed(es, name_of, name).len() <= es.len(),
{
    broadcast use vstd::seq_lib::group_filter_ensures;
    let p = not_named(name_of, name);
    assert forall|j: int| 0 <= j < removed(es, name_of, name).len() implies name_of(removed(es, name_of, name)[j]) != name by {
        es.lemma_filter_pred(p, j);
    }
}

/// Every entry left by a removal was an entry before.
pub proof fn lemma_removed_within<E>(es: Seq<E>, name_of: spec_fn(E) -> Seq<char>, name: Seq<char>)
    ensures
        forall|j: int| 0 <= j < removed(es, name_of, name).len() ==> es.contains(#[trigger] removed(es, name_of, name)[j]),
{
    let r = removed(es, name_of, name);
    assert forall|j: int| 0 <= j < r.len() implies es.contains(#[trigger] r[j]) by {
        assert(r.contains(r[j]));
        es.lemma_filter_contains_rev(not_named(name_of, name), r[j]);
    }
}

/// Every entry left by an upsert is the new one or was an entry before.
pub proof fn lemma_upserted_within<E>(es: Seq<E>, name_of: spec_fn(E) -> Seq<char>, current: Seq<char>, next: Seq<char>, new: E)
    ensures
        forall|j: int|
            0 <= j < upserted(es, name_of, current, next, new).len() ==> #[trigger] upserted(es, name_of, current, next, new)[j]
                == new || es.contains(upserted(es, name_of, current, next, new)[j]),
{
    let keep = kept_by_upsert(name_of, current, next);
    let k = first_entry_named(es, name_of, current);
    lemma_first_entry_named(es, name_of, current);
    let r = upserted(es, name_of, current, next, new);
    if k < es.len() {
        let a = es.take(k).filter(keep);
        let c = es.skip(k + 1).filter(keep);
        assert forall|j: int| 0 <= j < r.len() implies #[trigger] r[j] == new || es.contains(r[j]) by {
            if j < a.len() {
                assert(r[j] == a[j]);
                assert(a.contains(a[j]));
                es.take(k).lemma_filter_contains_rev(keep, a[j]);
                let head = es.take(k);
                let i = choose|i: int| 0 <= i < head.len() && #[trigger] head[i] == a[j];
                assert(es[i] == a[j]);
            } else if j > a.len() {
                let q = j - a.len() - 1;
                assert(r[j] == c[q]);
                assert(c.contains(c[q]));
                es.skip(k + 1).lemma_filter_contains_rev(keep, c[q]);
                let tail = es.skip(k + 1);
                let i = choose|i: int| 0 <= i < tail.len() && #[trigger] tail[i] == c[q];
                assert(es[i + k + 1] == c[q]);
            }
        }
    } else {
        let a = es.filter(keep);
        assert forall|j: int| 0 <= j < r.len() implies #[trigger] r[j] == new || es.contains(r[j]) by {
            if j < a.len() {
                assert(r[j] == a[j]);
                assert(a.contains(a[j]));
                es.lemma_filter_contains_rev(keep, a[j]);
            }
        }
    }
}

/// Removing the same name twice removes nothing more.
pub proof fn removing_twice_is_removing_once<E>(es: Seq<E>, name_of: spec_fn(E) -> Seq<char>, name: Seq<char>)
    ensures
        removed(removed(es, name_of, name), name_of, name) == removed(es, name_of, name),
{
    lemma_filter_twice(es, not_named(name_of, name));
}

/// Removing a name that no entry has leaves the entries as they are.
pub proof fn lemma_removed_none_named<E>(es: Seq<E>, name_of: spec_fn(E) -> Seq<char>, name: Seq<char>)
    requires
        forall|j: int| 0 <= j < es.len() ==> name_of(#[trigger] es[j]) != name,
    ensures
        removed(es, name_of, name) == es,
    decreases es.len(),
{
    reveal(Seq::filter);
    if es.len() > 0 {
        let q = es.drop_last();
        assert forall|j: int| 0 <= j < q.len() implies name_of(#[trigger] q[j]) != name by {
            assert(q[j] == es[j]);
        }
        lemma_removed_none_named(q, name_of, name);
        assert(name_of(es[es.len() - 1]) != name);
        assert(q.push(es.last()) =~= es);
    }
}

/// Refuses an empty name and one with a newline, carriage return or tab.
pub fn validate_provider_name(name: &str) -> (r: Result<(), EntryError>)
    ensures
        r is Ok <==> valid_name(name@),
        r matches Err(e) ==> e == EntryError::InvalidName,
{
    let cs = chars_of(name);
    if cs.len() == 0 || has_char(&cs, '\n') || has_char(&cs, '\r') || has_char(&cs, '\t') {
        return Err(EntryError::InvalidName);
    }
    Ok(())
}

/// Refuses an empty url.
pub fn validate_provider_url(url: &str) -> (r: Result<(), EntryError>)
    ensures
        r is Ok <==> valid_url(url@),
        r matches Err(e) ==> e == EntryError::EmptyUrl,
{
    let cs = chars_of(url);
    if cs.len() == 0 {
        return Err(EntryError::EmptyUrl);
    }
    Ok(())
}

/// Refuses a provider type other than `remote` and `local`.
pub fn validate_provider_type(provider_type: &str) -> (r: Result<(), EntryError>)
    ensures
        r is Ok <==> valid_type(provider_type@),
        r matches Err(e) ==> e == EntryError::InvalidType,
{
    let cs = chars_of(provider_type);
    let remote = chars_of("remote");
    let local = chars_of("local");
    if crate::text::chars_eq(&cs, &remote) || crate::text::chars_eq(&cs, &local) {
        Ok(())
    } else {
        Err(EntryError::InvalidType)
    }
}

/// Renames the first entry named `current_name` to `next_name` with `url`
/// (appending such an entry when there is none), and drops the other entries
/// named `current_name` or `next_name`.
pub fn upsert_entry(entries: &mut Vec<ProviderEntry>, current_name: &str, next_name: &str, url: &str)
    ensures
        entry_models(final(entries)@) == upserted(
            entry_models(old(entries)@),
            |e: EntryModel| e.name,
            current_name@,
            next_name@,
            EntryModel { name: next_name@, url: url@ },
        ),
{
    let ghost es = entry_models(entries@);
    let ghost name_of = |e: EntryModel| e.name;
    let ghost new = EntryModel { name: next_name@, url: url@ };
    let ghost keep = kept_by_upsert(name_of, current_name@, next_name@);
    let cur_s = string_from_chars(&chars_of(current_name));
    let next_s = string_from_chars(&chars_of(next_name));
    let url_s = string_from_chars(&chars_of(url));
    let same = cur_s == next_s;
    let mut updated = false;
    let ghost mut k: int = 0;
    let mut out: Vec<ProviderEntry> = Vec::new();
    let mut i: usize = 0;
    proof {
        lemma_first_entry_named(es, name_of, current_name@);
    }
    while i < entries.len()
        invariant
            i <= entries@.len(),
            es == entry_models(entries@),
            cur_s@ == current_name@,
            next_s@ == next_name@,
            url_s@ == url@,
            same == (current_name@ == next_name@),
            new == (EntryModel { name: next_name@, url: url@ }),
            keep == kept_by_upsert(name_of, current_name@, next_name@),
            name_of == (|e: EntryModel| e.name),
            0 <= first_entry_named(es, name_of, current_name@) <= es.len(),
            forall|j: int| 0 <= j < first_entry_named(es, name_of, current_name@) ==> es[j].name != current_name@,
            first_entry_named(es, name_of, current_name@) < es.len() ==> es[first_entry_named(es, name_of, current_name@)].name == current_name@,
            !updated ==> i <= first_entry_named(es, name_of, current_name@),
            !updated ==> entry_models(out@) == es.take(i as int).filter(keep),
            updated ==> k == first_entry_named(es, name_of, current_name@) && k < i,
            updated ==> entry_models(out@) == es.take(k).filter(keep) + seq![new] + es.subrange(k + 1, i as int).filter(keep),
        decreases entries.len() - i,
    {
        let ghost before = entry_models(out@);
        let e = &entries[i];
        assert(es[i as int] == e.model());
        assert(es.take(i + 1) =~= es.take(i as int).push(es[i as int]));
        if e.name == cur_s {
            if !updated {
                out.push(ProviderEntry { name: next_s.clone(), url: url_s.clone() });
                proof {
                    k = i as int;
                    assert(entry_models(out@) =~= before.push(new));
                    assert(es.take(i as int).push(es[i as int]).filter(keep) == es.take(i as int).filter(keep)) by {
                        es.take(i as int).lemma_filter_push(es[i as int], keep);
                    }
                    assert(es.subrange(k + 1, i + 1) =~= Seq::<EntryModel>::empty());
                    assert(Seq::<EntryModel>::empty().filter(keep) =~= Seq::<EntryModel>::empty()) by {
                        reveal(Seq::filter);
                    }
                    assert(entry_models(out@) =~= es.take(k).filter(keep) + seq![new] + es.subrange(k + 1, i + 1).filter(keep));
                }
                updated = true;
            } else {
                proof {
                    assert(es.subrange(k + 1, i + 1) =~= es.subrange(k + 1, i as int).push(es[i as int]));
                    es.subrange(k + 1, i as int).lemma_filter_push(es[i as int], keep);
                }
            }
        } else if !same && e.name == next_s {
            proof {
                if updated {
                    assert(es.subrange(k + 1, i + 1) =~= es.subrange(k + 1, i as int).push(es[i as int]));
                    es.subrange(k + 1, i as int).lemma_filter_push(es[i as int], keep);
                } else {
                    es.take(i as int).lemma_filter_push(es[i as int], keep);
                    if i as int == first_entry_named(es, name_of, current_name@) {
                        assert(false);
                    }
                }
            }
        } else {
            out.push(ProviderEntry { name: e.name.clone(), url: e.url.clone() });
            proof {
                assert(entry_models(out@) =~= before.push(es[i as int]));
                assert(keep(es[i as int]));
                if updated {
                    assert(es.subrange(k + 1, i + 1) =~= es.subrange(k + 1, i as int).push(es[i as int]));
                    es.subrange(k + 1, i as int).lemma_filter_push(es[i as int], keep);
                } else {
                    es.take(i as int).lemma_filter_push(es[i as int], keep);
                    if i as int == first_entry_named(es, name_of, current_name@) {
                        assert(false);
                    }
                }
            }
        }
        i = i + 1;
    }
    if !updated {
        let ghost before = entry_models(out@);
        out.push(ProviderEntry { name: next_s, url: url_s });
        proof {
            assert(entry_models(out@) =~= before.push(new));
            assert(es.take(es.len() as int) =~= es);
        }
    } else {
        proof {
            assert(es.subrange(k + 1, es.len() as int) =~= es.skip(k + 1));
        }
    }
    assert(entry_models(out@) =~= upserted(es, name_of, current_name@, next_name@, new));
    *entries = out;
}

/// The entries not named `name`, in order.
pub fn remove_entry(entries: &mut Vec<ProviderEntry>, name: &str)
    ensures
        entry_models(final(entries)@) == removed(entry_models(old(entries)@), |e: EntryModel| e.name, name@),
{
    let ghost es = entry_models(entries@);
    let ghost p = not_named(|e: EntryModel| e.name, name@);
    let name_s = string_from_chars(&chars_of(name));
    let mut out: Vec<ProviderEntry> = Vec::new();
    let mut i: usize = 0;
    while i < entries.len()
        invariant
            i <= entries@.len(),
            es == entry_models(entries@),
            name_s@ == name@,
            p == not_named(|e: EntryModel| e.name, name@),
            entry_models(out@) == es.take(i as int).filter(p),
        decreases entries.len() - i,
    {
        let ghost before = entry_models(out@);
        let e = &entries[i];
        assert(es[i as int] == e.model());
        assert(es.take(i + 1) =~= es.take(i as int).push(es[i as int]));
        proof {
            es.take(i as int).lemma_filter_push(es[i as int], p);
        }
        if e.name != name_s {
            out.push(ProviderEntry { name: e.name.clone(), url: e.url.clone() });
            assert(entry_models(out@) =~= before.push(es[i as int]));
        }
        i = i + 1;
    }
    assert(es.take(es.len() as int) =~= es);
    *entries = out;
}

/// A line `name<TAB>url` of a subscription state text, numbered from 1:
/// the name and url, or why the line was refused.
pub open spec fn state_line(line: Seq<char>, number: int) -> Result<(Seq<char>, Seq<char>), StateError> {
    let t = first_char_index(line, '\t');
    if t >= line.len() {
        Err(StateError::MissingTab(number as usize))
    } else if !valid_name(line.take(t)) {
        Err(StateError::Entry(EntryError::InvalidName))
    } else if !valid_url(line.skip(t + 1)) {
        Err(StateError::Entry(EntryError::EmptyUrl))
    } else {
        Ok((line.take(t), line.skip(t + 1)))
    }
}

/// The outcome of each non-blank line of a subscription state text, in
/// order.
pub open spec fn state_results(ls: Seq<Seq<char>>) -> Seq<Result<(Seq<char>, Seq<char>), StateError>>
    decreases ls.len(),
{
    if ls.len() == 0 {
        seq![]
    } else if trim(ls.last()).len() == 0 {
        state_results(ls.drop_last())
    } else {
        state_results(ls.drop_last()).push(state_line(ls.last(), ls.len() as int))
    }
}

pub open spec fn state_result_model(r: Result<(String, String), StateError>) -> Result<(Seq<char>, Seq<char>), StateError> {
    match r {
        Ok((n, u)) => Ok((n@, u@)),
        Err(e) => Err(e),
    }
}

/// The outcome of each non-blank line `name<TAB>url` of a subscription
/// state text.
pub fn parse_subscription_state(state: &str) -> (r: Vec<Result<(String, String), StateError>>)
    ensures
        r@.map_values(|x: Result<(String, String), StateError>| state_result_model(x)) == state_results(lines_of(state@)),
{
    let lines = split_lines(&chars_of(state));
    let ghost ls = views(lines@);
    let mut out: Vec<Result<(String, String), StateError>> = Vec::new();
    let mut i: usize = 0;
    while i < lines.len()
        invariant
            i <= lines@.len(),
            ls == views(lines@),
            ls == lines_of(state@),
            out@.map_values(|x: Result<(String, String), StateError>| state_result_model(x)) == state_results(ls.take(i as int)),
        decreases lines.len() - i,
    {
        let ghost before = out@;
        let line = &lines[i];
        assert(ls.take(i + 1).drop_last() =~= ls.take(i as int));
        assert(ls.take(i + 1).last() == line@);
        let t = trimmed(line);
        if t.len() != 0 {
            let tab = find_char(line, '\t');
            let item = if tab >= line.len() {
                Err(StateError::MissingTab(i + 1))
            } else {
                let name = slice_chars(line, 0, tab);
                let url = slice_chars(line, tab + 1, line.len());
                assert(name@ =~= line@.take(tab as int));
                assert(url@ =~= line@.skip(tab + 1));
                if name.len() == 0 || has_char(&name, '\n') || has_char(&name, '\r') || has_char(&name, '\t') {
                    Err(StateError::Entry(EntryError::InvalidName))
                } else if url.len() == 0 {
                    Err(StateError::Entry(EntryError::EmptyUrl))
                } else {
                    Ok((string_from_chars(&name), string_from_chars(&url)))
                }
            };
            assert(state_result_model(item) == state_line(line@, i + 1));
            out.push(item);
            assert(out@.map_values(|x: Result<(String, String), StateError>| state_result_model(x)) =~= before.map_values(|x: Result<(String, String), StateError>| state_result_model(x)).push(state_result_model(item)));
        }
        i = i + 1;
    }
    assert(ls.take(ls.len() as int) =~= ls);
    out
}

} // verus!
