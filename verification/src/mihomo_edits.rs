//! What an edit of the `proxy-providers:` section leaves for a reader of the
//! edited config.
use vstd::prelude::*;

use crate::mihomo::{
    base_indent, block_keys_from, blocks_of, first_named, header_from, indent_of, is_blank_or_comment,
    is_block_key, is_section_header, is_top_level_key, is_own_url_line, url_line_indent, child_indent, deeper_line,
    first_deeper_from, lemma_child_indent_deeper, lemma_first_deeper_shift, lemma_block_keys,
    lemma_first_named, lemma_indent_spaces, lemma_key_line_reads_back, lemma_url_line_reads_back,
    listing, min_indent_from, plain_key_name, provider_key, provider_url, section_of, spaces, top_level_from,
    update_lines, updated_block, updated_block_reads_back, url_line, url_line_from, url_raw, yaml_quoted,
    escape_all, escape_char, new_block, BlockModel,
};
use crate::entries::EntryModel;
use crate::outside::yaml_str_scalar;
use crate::text::{concat_lines, ends_with, finish_lines_spec, is_ws, lines_acc, lines_of, strip_cr, trim_end};

verus! {

proof fn lemma_header_at(s: Seq<Seq<char>>, i: int, h: int)
    requires
        0 <= i <= h < s.len(),
        is_section_header(s[h]),
        forall|j: int| i <= j < h ==> !is_section_header(#[trigger] s[j]),
    ensures
        header_from(s, i) == h,
    decreases h - i,
{
    if i < h {
        lemma_header_at(s, i + 1, h);
    }
}

proof fn lemma_header_found(s: Seq<Seq<char>>, i: int)
    requires
        0 <= i <= s.len(),
    ensures
        i <= header_from(s, i) <= s.len(),
        header_from(s, i) < s.len() ==> is_section_header(s[header_from(s, i)]),
        forall|j: int| i <= j < header_from(s, i) ==> !is_section_header(#[trigger] s[j]),
    decreases s.len() - i,
{
    if i < s.len() && !is_section_header(s[i]) {
        lemma_header_found(s, i + 1);
    }
}

proof fn lemma_top_level_at(s: Seq<Seq<char>>, i: int, m: int)
    requires
        0 <= i <= m <= s.len(),
        m < s.len() ==> is_top_level_key(s[m]),
        forall|j: int| i <= j < m ==> !is_top_level_key(#[trigger] s[j]),
    ensures
        top_level_from(s, i) == m,
    decreases m - i,
{
    if i < m {
        lemma_top_level_at(s, i + 1, m);
    }
}

proof fn lemma_top_level_found(s: Seq<Seq<char>>, i: int)
    requires
        0 <= i <= s.len(),
    ensures
        i <= top_level_from(s, i) <= s.len(),
        top_level_from(s, i) < s.len() ==> is_top_level_key(s[top_level_from(s, i)]),
        forall|j: int| i <= j < top_level_from(s, i) ==> !is_top_level_key(#[trigger] s[j]),
    decreases s.len() - i,
{
    if i < s.len() && !is_top_level_key(s[i]) {
        lemma_top_level_found(s, i + 1);
    }
}

/// A line that counts towards the indentation of provider keys.
pub open spec fn counted(l: Seq<char>) -> bool {
    !is_blank_or_comment(l) && indent_of(l) > 0
}

proof fn lemma_min_indent(s: Seq<Seq<char>>, i: int, e: int)
    requires
        0 <= i,
        e <= s.len(),
    ensures
        match min_indent_from(s, i, e) {
            None => forall|j: int| i <= j < e ==> !counted(#[trigger] s[j]),
            Some(m) => {
                &&& forall|j: int| i <= j < e && counted(#[trigger] s[j]) ==> indent_of(s[j]) >= m
                &&& exists|j: int| i <= j < e && counted(#[trigger] s[j]) && indent_of(s[j]) == m
            },
        },
    decreases e - i,
{
    if i < e {
        lemma_min_indent(s, i + 1, e);
        match min_indent_from(s, i + 1, e) {
            None => {},
            Some(m) => {
                let j = choose|j: int| i + 1 <= j < e && counted(#[trigger] s[j]) && indent_of(s[j]) == m;
                assert(i <= j < e && counted(s[j]) && indent_of(s[j]) == m);
            },
        }
    }
}

proof fn lemma_min_indent_is(s: Seq<Seq<char>>, i: int, e: int, m: int, w: int)
    requires
        0 <= i <= w < e <= s.len(),
        forall|j: int| i <= j < e && counted(#[trigger] s[j]) ==> indent_of(s[j]) >= m,
        counted(s[w]),
        indent_of(s[w]) == m,
    ensures
        min_indent_from(s, i, e) == Some(m),
{
    lemma_min_indent(s, i, e);
    match min_indent_from(s, i, e) {
        None => {
            assert(!counted(s[w]));
        },
        Some(r) => {
            let j = choose|j: int| i <= j < e && counted(#[trigger] s[j]) && indent_of(s[j]) == r;
            assert(indent_of(s[j]) >= m);
            assert(indent_of(s[w]) >= r);
        },
    }
}

proof fn lemma_block_keys_split(s: Seq<Seq<char>>, base: int, i: int, m: int, e: int)
    requires
        i <= m <= e,
    ensures
        block_keys_from(s, base, i, e) == block_keys_from(s, base, i, m) + block_keys_from(s, base, m, e),
    decreases m - i,
{
    if i < m {
        lemma_block_keys_split(s, base, i + 1, m, e);
        if is_block_key(s, base, i) {
            assert(block_keys_from(s, base, i, e) =~= block_keys_from(s, base, i, m) + block_keys_from(s, base, m, e));
        }
    } else {
        assert(block_keys_from(s, base, i, m) =~= Seq::<int>::empty());
        assert(block_keys_from(s, base, i, e) =~= block_keys_from(s, base, i, m) + block_keys_from(s, base, m, e));
    }
}

proof fn lemma_block_keys_shift(s1: Seq<Seq<char>>, s2: Seq<Seq<char>>, base: int, i: int, e: int, d: int)
    requires
        forall|j: int| i <= j < e ==> is_block_key(s2, base, j + d) == #[trigger] is_block_key(s1, base, j),
    ensures
        block_keys_from(s2, base, i + d, e + d) == block_keys_from(s1, base, i, e).map_values(|x: int| x + d),
    decreases e - i,
{
    if i < e {
        lemma_block_keys_shift(s1, s2, base, i + 1, e, d);
        assert(is_block_key(s2, base, i + d) == is_block_key(s1, base, i));
        assert(block_keys_from(s2, base, i + d, e + d) =~= block_keys_from(s1, base, i, e).map_values(|x: int| x + d));
    } else {
        assert(block_keys_from(s2, base, i + d, e + d) =~= block_keys_from(s1, base, i, e).map_values(|x: int| x + d));
    }
}

proof fn lemma_no_block_keys(s: Seq<Seq<char>>, base: int, i: int, e: int)
    requires
        forall|j: int| i <= j < e ==> !#[trigger] is_block_key(s, base, j),
    ensures
        block_keys_from(s, base, i, e) == Seq::<int>::empty(),
    decreases e - i,
{
    if i < e {
        assert(!is_block_key(s, base, i));
        lemma_no_block_keys(s, base, i + 1, e);
    }
}

proof fn lemma_block_keys_complete(s: Seq<Seq<char>>, base: int, i: int, e: int, j: int)
    requires
        i <= j < e,
        is_block_key(s, base, j),
    ensures
        block_keys_from(s, base, i, e).contains(j),
    decreases j - i,
{
    if i < j {
        lemma_block_keys_complete(s, base, i + 1, e, j);
        let r = block_keys_from(s, base, i + 1, e);
        let q = choose|q: int| 0 <= q < r.len() && r[q] == j;
        if is_block_key(s, base, i) {
            assert(block_keys_from(s, base, i, e)[q + 1] == j);
        }
    } else {
        assert(block_keys_from(s, base, i, e)[0] == j);
    }
}

proof fn lemma_indent_nonneg(s: Seq<char>)
    ensures
        indent_of(s) >= 0,
    decreases s.len(),
{
    if s.len() > 0 && (s[0] == ' ' || s[0] == '\t') {
        lemma_indent_nonneg(s.subrange(1, s.len() as int));
    }
}

/// Where the lines of `update_lines` come from.
proof fn lemma_update_lines_index(ls: Seq<Seq<char>>, blk: BlockModel, next: Seq<char>, url: Seq<char>)
    requires
        0 <= blk.key_line < blk.end <= ls.len(),
    ensures
        ({
            let out = update_lines(ls, blk, next, url);
            let ub = updated_block(ls, blk, next, url);
            let d = ub.len() - (blk.end - blk.key_line);
            &&& d == 0 || d == 1
            &&& out.len() == ls.len() + d
            &&& forall|j: int| 0 <= j < blk.key_line ==> #[trigger] out[j] == ls[j]
            &&& forall|j: int| blk.key_line <= j < blk.key_line + ub.len() ==> #[trigger] out[j] == ub[j - blk.key_line]
            &&& forall|j: int| blk.end + d <= j < out.len() ==> #[trigger] out[j] == ls[j - d]
            &&& ub[0] == spaces(blk.indent) + next + seq![':']
            &&& forall|q: int|
                1 <= q < blk.end - blk.key_line ==> #[trigger] ub[q] == (if is_own_url_line(
                    ls[blk.key_line + q],
                    blk.indent,
                    child_indent(ls, blk),
                ) {
                    url_line(blk.indent + 2, url)
                } else {
                    ls[blk.key_line + q]
                })
            &&& d == 1 ==> ub[ub.len() - 1] == url_line(blk.indent + 2, url)
        }),
{
    let out = update_lines(ls, blk, next, url);
    let ub = updated_block(ls, blk, next, url);
    let d = ub.len() - (blk.end - blk.key_line);
    let pre = ls.subrange(0, blk.key_line);
    let post = ls.subrange(blk.end, ls.len() as int);
    assert(out == pre + ub + post);
    assert forall|j: int| 0 <= j < blk.key_line implies #[trigger] out[j] == ls[j] by {
        assert(out[j] == pre[j]);
    }
    assert forall|j: int| blk.key_line <= j < blk.key_line + ub.len() implies #[trigger] out[j] == ub[j - blk.key_line] by {
        assert((pre + ub)[j] == ub[j - blk.key_line]);
    }
    assert forall|j: int| blk.end + d <= j < out.len() implies #[trigger] out[j] == ls[j - d] by {
        assert(out[j] == post[j - pre.len() - ub.len()]);
    }
}

/// The facts about the section, its key indentation and the edited block
/// that the laws below start from.
proof fn lemma_section_facts(ls: Seq<Seq<char>>, current: Seq<char>)
    requires
        section_of(ls) is Some,
        first_named(blocks_of(ls, section_of(ls)->Some_0.0, section_of(ls)->Some_0.1), current) < blocks_of(
            ls,
            section_of(ls)->Some_0.0,
            section_of(ls)->Some_0.1,
        ).len(),
    ensures
        ({
            let (a, b) = section_of(ls)->Some_0;
            let base = base_indent(ls, a, b);
            let keys = block_keys_from(ls, base, a, b);
            let bs = blocks_of(ls, a, b);
            let k = first_named(bs, current);
            let blk = bs[k];
            &&& 0 <= k < bs.len()
            &&& 1 <= a <= blk.key_line < blk.end <= b <= ls.len()
            &&& header_from(ls, 0) == a - 1
            &&& is_section_header(ls[a - 1])
            &&& forall|j: int| 0 <= j < a - 1 ==> !is_section_header(#[trigger] ls[j])
            &&& top_level_from(ls, a) == b
            &&& forall|j: int| a <= j < b ==> !is_top_level_key(#[trigger] ls[j])
            &&& b < ls.len() ==> is_top_level_key(ls[b])
            &&& base > 0
            &&& blk.indent == base
            &&& forall|j: int| a <= j < b && counted(#[trigger] ls[j]) ==> indent_of(ls[j]) >= base
            &&& blk.name == current
            &&& keys.len() == bs.len()
            &&& blk.key_line == keys[k]
            &&& blk.end == if k + 1 < keys.len() {
                keys[k + 1]
            } else {
                b
            }
            &&& forall|j: int| blk.key_line < j < blk.end ==> !#[trigger] is_block_key(ls, base, j)
            &&& is_block_key(ls, base, blk.key_line)
        }),
{
    let (a, b) = section_of(ls)->Some_0;
    lemma_header_found(ls, 0);
    lemma_top_level_found(ls, a);
    let base = base_indent(ls, a, b);
    let keys = block_keys_from(ls, base, a, b);
    lemma_block_keys(ls, base, a, b);
    let bs = blocks_of(ls, a, b);
    let k = first_named(bs, current);
    lemma_first_named(bs, current);
    let blk = bs[k];
    assert(blk.key_line == keys[k]);
    if k + 1 < keys.len() {
        assert(keys[k] < keys[k + 1]);
    }
    let kl = blk.key_line;
    assert(is_block_key(ls, base, kl));
    lemma_indent_nonneg(ls[kl]);
    assert(counted(ls[kl]));
    lemma_min_indent(ls, a, b);
    match min_indent_from(ls, a, b) {
        None => {
            assert(!counted(ls[kl]));
        },
        Some(m) => {
            assert(base == m);
            let w = choose|j: int| a <= j < b && counted(#[trigger] ls[j]) && indent_of(ls[j]) == m;
            assert(counted(ls[w]));
        },
    }
    assert forall|j: int| kl < j < blk.end implies !#[trigger] is_block_key(ls, base, j) by {
        if is_block_key(ls, base, j) {
            lemma_block_keys_complete(ls, base, a, b, j);
            let p = choose|p: int| 0 <= p < keys.len() && keys[p] == j;
            if p < k {
                assert(keys[p] < keys[k]);
            } else if p == k {
            } else if k + 1 < keys.len() {
                if p > k + 1 {
                    assert(keys[k + 1] < keys[p]);
                }
            }
        }
    }
}

/// Updating a provider keeps the config readable as before: in the updated
/// lines the `proxy-providers:` section is found again (one line longer
/// where a `url:` line was added), it holds as many providers, the updated
/// one in its place under its new name and with its lines, and every other
/// provider unchanged (those after it one line further down where a line
/// was added). This holds where the new name has no whitespace and starts
/// no comment, so that its key line reads back as that name.
pub proof fn updated_provider_stays_in_section(ls: Seq<Seq<char>>, current: Seq<char>, next: Seq<char>, url: Seq<char>)
    requires
        section_of(ls) is Some,
        first_named(blocks_of(ls, section_of(ls)->Some_0.0, section_of(ls)->Some_0.1), current) < blocks_of(
            ls,
            section_of(ls)->Some_0.0,
            section_of(ls)->Some_0.1,
        ).len(),
        plain_key_name(next),
    ensures
        ({
            let (a, b) = section_of(ls)->Some_0;
            let bs = blocks_of(ls, a, b);
            let k = first_named(bs, current);
            let blk = bs[k];
            let out = update_lines(ls, blk, next, url);
            let d = updated_block(ls, blk, next, url).len() - (blk.end - blk.key_line);
            let nbs = blocks_of(out, a, b + d);
            &&& section_of(out) == Some((a, b + d))
            &&& nbs.len() == bs.len()
            &&& nbs[k] == BlockModel { name: next, key_line: blk.key_line, end: blk.end + d, indent: blk.indent }
            &&& forall|j: int| 0 <= j < k ==> #[trigger] nbs[j] == bs[j]
            &&& forall|j: int|
                k < j < bs.len() ==> #[trigger] nbs[j] == BlockModel {
                    name: bs[j].name,
                    key_line: bs[j].key_line + d,
                    end: bs[j].end + d,
                    indent: bs[j].indent,
                }
        }),
{
    lemma_section_facts(ls, current);
    let (a, b) = section_of(ls)->Some_0;
    let base = base_indent(ls, a, b);
    let keys = block_keys_from(ls, base, a, b);
    lemma_block_keys(ls, base, a, b);
    let bs = blocks_of(ls, a, b);
    let k = first_named(bs, current);
    let blk = bs[k];
    let kl = blk.key_line;
    let end = blk.end;
    let out = update_lines(ls, blk, next, url);
    let ub = updated_block(ls, blk, next, url);
    let d = ub.len() - (end - kl);
    let repl = url_line(base + 2, url);
    lemma_update_lines_index(ls, blk, next, url);
    lemma_key_line_reads_back(base, next);
    lemma_url_line_reads_back(base + 2, url);
    let key_text = next + seq![':'];
    assert(ub[0] =~= spaces(base) + key_text);
    assert(!is_ws(next[0]));
    assert(key_text[0] == next[0]);
    lemma_indent_spaces(base, key_text);
    assert(indent_of(ub[0]) == base);
    assert(ub[0][0] == ' ');
    assert(out[kl] == ub[0]);
    // the section is found again
    assert forall|j: int| 0 <= j < a - 1 implies !is_section_header(#[trigger] out[j]) by {
        assert(out[j] == ls[j]);
    }
    assert(out[a - 1] == ls[a - 1]);
    lemma_header_at(out, 0, a - 1);
    assert forall|j: int| a <= j < b + d implies !is_top_level_key(#[trigger] out[j]) by {
        if j < kl {
            assert(out[j] == ls[j]);
        } else if j < end + d {
            let q = j - kl;
            assert(out[j] == ub[q]);
            if q == 0 {
            } else if q < end - kl {
                assert(out[j] == ls[kl + q] || out[j] == repl);
            } else {
                assert(out[j] == repl);
            }
        } else {
            assert(out[j] == ls[j - d]);
        }
    }
    if b + d < out.len() {
        assert(out[b + d] == ls[b]);
    }
    lemma_top_level_at(out, a, b + d);
    assert(section_of(out) == Some((a, b + d)));
    // the keys keep their indentation
    assert(provider_key(out[kl]) == Some((base, next)));
    assert(counted(out[kl]));
    assert forall|j: int| a <= j < b + d && counted(#[trigger] out[j]) implies indent_of(out[j]) >= base by {
        if j < kl {
            assert(out[j] == ls[j]);
        } else if j < end + d {
            let q = j - kl;
            assert(out[j] == ub[q]);
            if q == 0 {
            } else if q < end - kl {
                if out[j] != repl {
                    assert(out[j] == ls[kl + q]);
                }
            } else {
                assert(out[j] == repl);
            }
        } else {
            assert(out[j] == ls[j - d]);
        }
    }
    lemma_min_indent_is(out, a, b + d, base, kl);
    assert(base_indent(out, a, b + d) == base);
    // the keys of the updated lines
    assert(is_block_key(out, base, kl));
    assert forall|j: int| kl + 1 <= j < end + d implies !#[trigger] is_block_key(out, base, j) by {
        let q = j - kl;
        assert(out[j] == ub[q]);
        if q < end - kl {
            if out[j] != repl {
                assert(out[j] == ls[kl + q]);
                assert(!is_block_key(ls, base, kl + q));
            }
        } else {
            assert(out[j] == repl);
        }
    }
    lemma_no_block_keys(out, base, kl + 1, end + d);
    assert forall|j: int| kl + 1 <= j < end implies !#[trigger] is_block_key(ls, base, j) by {}
    lemma_no_block_keys(ls, base, kl + 1, end);
    let pre = block_keys_from(ls, base, a, kl);
    let post = block_keys_from(ls, base, end, b);
    lemma_block_keys_split(ls, base, a, kl, b);
    lemma_block_keys_split(ls, base, kl, end, b);
    assert(block_keys_from(ls, base, kl, end) =~= seq![kl]);
    assert(keys =~= pre + seq![kl] + post);
    lemma_block_keys_split(out, base, a, kl, b + d);
    lemma_block_keys_split(out, base, kl, end + d, b + d);
    assert(block_keys_from(out, base, kl, end + d) =~= seq![kl]);
    assert forall|j: int| a <= j < kl implies is_block_key(out, base, j + 0) == #[trigger] is_block_key(ls, base, j) by {
        assert(out[j] == ls[j]);
    }
    lemma_block_keys_shift(ls, out, base, a, kl, 0);
    assert(pre.map_values(|x: int| x + 0) =~= pre);
    assert forall|j: int| end <= j < b implies is_block_key(out, base, j + d) == #[trigger] is_block_key(ls, base, j) by {
        assert(out[j + d] == ls[j]);
    }
    lemma_block_keys_shift(ls, out, base, end, b, d);
    let post2 = post.map_values(|x: int| x + d);
    let keys2 = block_keys_from(out, base, a, b + d);
    assert(keys2 =~= pre + seq![kl] + post2);
    // the edited block keeps its index
    lemma_block_keys(ls, base, a, kl);
    assert(keys[pre.len() as int] == kl);
    if pre.len() < k {
        assert(keys[pre.len() as int] < keys[k]);
    }
    assert(k < bs.len());
    assert(keys.len() == bs.len());
    if pre.len() > k {
        assert(keys[k] == pre[k]);
    }
    assert(pre.len() == k);
    lemma_block_keys(ls, base, end, b);
    let nbs = blocks_of(out, a, b + d);
    assert(nbs.len() == bs.len());
    if k + 1 < keys.len() {
        assert(keys[k + 1] == post[0]);
        assert(keys2[k + 1] == post2[0]);
    }
    assert(nbs[k] == BlockModel { name: next, key_line: kl, end: end + d, indent: base });
    assert forall|j: int| 0 <= j < k implies #[trigger] nbs[j] == bs[j] by {
        assert(keys2[j] == pre[j]);
        assert(keys[j] == pre[j]);
        assert(out[pre[j]] == ls[pre[j]]);
        assert(keys2[j + 1] == keys[j + 1]);
    }
    assert forall|j: int| k < j < bs.len() implies #[trigger] nbs[j] == BlockModel {
        name: bs[j].name,
        key_line: bs[j].key_line + d,
        end: bs[j].end + d,
        indent: bs[j].indent,
    } by {
        let p = j - k - 1;
        assert(keys[j] == post[p]);
        assert(keys2[j] == post2[p]);
        assert(end <= post[p] < b);
        assert(out[post[p] + d] == ls[post[p]]);
        if j + 1 < keys.len() {
            assert(keys[j + 1] == post[p + 1]);
            assert(keys2[j + 1] == post2[p + 1]);
        }
    }
}

/// A block moved by `d` lines reads the same url.
proof fn lemma_url_line_shift(ls: Seq<Seq<char>>, out: Seq<Seq<char>>, b: BlockModel, nb: BlockModel, i: int, d: int)
    requires
        nb.key_line == b.key_line + d,
        nb.end == b.end + d,
        nb.indent == b.indent,
        b.key_line < i,
        b.end <= ls.len(),
        forall|j: int| i <= j < b.end ==> #[trigger] out[j + d] == ls[j],
        child_indent(out, nb) == child_indent(ls, b),
    ensures
        url_line_from(out, nb, i + d) == url_line_from(ls, b, i) + d,
    decreases b.end - i,
{
    if i < b.end {
        assert(out[i + d] == ls[i]);
        if !is_own_url_line(ls[i], b.indent, child_indent(ls, b)) {
            lemma_url_line_shift(ls, out, b, nb, i + 1, d);
            assert(i + 1 + d == i + d + 1);
        }
    }
}

proof fn lemma_provider_url_shift(ls: Seq<Seq<char>>, out: Seq<Seq<char>>, b: BlockModel, nb: BlockModel, d: int)
    requires
        nb.key_line == b.key_line + d,
        nb.end == b.end + d,
        nb.indent == b.indent,
        0 <= b.key_line < b.end <= ls.len(),
        forall|j: int| b.key_line < j < b.end ==> #[trigger] out[j + d] == ls[j],
    ensures
        provider_url(out, nb) == provider_url(ls, b),
{
    assert forall|j: int| b.key_line + 1 <= j < b.end implies deeper_line(out[j + d], b.indent)
        == #[trigger] deeper_line(ls[j], b.indent) && (deeper_line(ls[j], b.indent) ==> indent_of(out[j + d])
        == indent_of(ls[j])) by {
        assert(out[j + d] == ls[j]);
    }
    lemma_first_deeper_shift(ls, b, out, nb, b.key_line + 1, d);
    assert(b.key_line + 1 + d == nb.key_line + 1);
    assert(child_indent(out, nb) == child_indent(ls, b));
    lemma_url_line_shift(ls, out, b, nb, b.key_line + 1, d);
    assert(b.key_line + 1 + d == nb.key_line + 1);
    let k = url_line_from(ls, b, b.key_line + 1);
    if k < b.end {
        crate::mihomo::lemma_url_line_bounds(ls, b, b.key_line + 1);
        assert(out[k + d] == ls[k]);
    }
}

/// Reading the providers of two block lists that agree but at `k`, where the
/// second reads the url `u`.
proof fn lemma_listing_pointwise(
    ls: Seq<Seq<char>>,
    bs: Seq<BlockModel>,
    out: Seq<Seq<char>>,
    nbs: Seq<BlockModel>,
    k: int,
    n: Seq<char>,
    u: Seq<char>,
    m: int,
)
    requires
        bs.len() == nbs.len(),
        0 <= k < bs.len(),
        0 <= m <= bs.len(),
        forall|j: int| 0 <= j < bs.len() && j != k ==> (#[trigger] nbs[j]).name == bs[j].name,
        forall|j: int| 0 <= j < bs.len() && j != k ==> provider_url(out, #[trigger] nbs[j]) == provider_url(ls, bs[j]),
        nbs[k].name == n,
        provider_url(out, nbs[k]) == Ok::<Option<Seq<char>>, ()>(Some(u)),
    ensures
        listing(ls, bs.take(m)) is Ok ==> listing(out, nbs.take(m)) is Ok,
        m > k ==> (listing(out, nbs.take(m)) matches Ok(es) ==> es.contains(EntryModel { name: n, url: u })),
    decreases m,
{
    if m > 0 {
        lemma_listing_pointwise(ls, bs, out, nbs, k, n, u, m - 1);
        assert(bs.take(m).drop_last() =~= bs.take(m - 1));
        assert(nbs.take(m).drop_last() =~= nbs.take(m - 1));
        assert(bs.take(m).last() == bs[m - 1]);
        assert(nbs.take(m).last() == nbs[m - 1]);
        match listing(out, nbs.take(m - 1)) {
            Ok(es) => {
                if m - 1 == k {
                    let e = EntryModel { name: n, url: u };
                    assert(es.push(e)[es.len() as int] == e);
                } else if m > k + 1 {
                    if es.contains(EntryModel { name: n, url: u }) {
                        let i = choose|i: int| 0 <= i < es.len() && es[i] == EntryModel { name: n, url: u };
                        match provider_url(out, nbs[m - 1]) {
                            Ok(Some(v)) => {
                                assert(es.push(EntryModel { name: nbs[m - 1].name, url: v })[i] == es[i]);
                            },
                            _ => {},
                        }
                    }
                }
            },
            Err(_) => {},
        }
    } else {
        assert(nbs.take(0) =~= Seq::<BlockModel>::empty());
        assert(bs.take(0) =~= Seq::<BlockModel>::empty());
    }
}

/// Every provider listed is named as one of the blocks.
proof fn lemma_listing_names(ls: Seq<Seq<char>>, bs: Seq<BlockModel>)
    ensures
        listing(ls, bs) matches Ok(es) ==> forall|i: int|
            0 <= i < es.len() ==> exists|j: int| 0 <= j < bs.len() && #[trigger] es[i].name == bs[j].name,
    decreases bs.len(),
{
    if bs.len() > 0 {
        lemma_listing_names(ls, bs.drop_last());
        match listing(ls, bs.drop_last()) {
            Ok(es0) => {
                match listing(ls, bs) {
                    Ok(es) => {
                        assert forall|i: int| 0 <= i < es.len() implies exists|j: int|
                            0 <= j < bs.len() && #[trigger] es[i].name == bs[j].name by {
                            if i < es0.len() {
                                assert(es[i] == es0[i]);
                                let j = choose|j: int| 0 <= j < bs.drop_last().len() && es0[i].name == bs.drop_last()[j].name;
                                assert(bs.drop_last()[j] == bs[j]);
                            } else {
                                assert(es[i].name == bs[bs.len() - 1].name);
                            }
                        }
                    },
                    Err(_) => {},
                }
            },
            Err(_) => {},
        }
    }
}

/// A provider that was updated is listed again with its new name and url:
/// where the providers of the config could all be read before the update,
/// they can all be read after it, and the listing holds the new name with
/// the string that the double-quoted new url reads as; every other provider
/// reads as before. Where the name changed and no other provider had the
/// old name, no provider listed has it any more. This holds where the new
/// name has no whitespace and starts no comment.
pub proof fn updated_provider_is_listed(ls: Seq<Seq<char>>, current: Seq<char>, next: Seq<char>, url: Seq<char>)
    requires
        section_of(ls) is Some,
        first_named(blocks_of(ls, section_of(ls)->Some_0.0, section_of(ls)->Some_0.1), current) < blocks_of(
            ls,
            section_of(ls)->Some_0.0,
            section_of(ls)->Some_0.1,
        ).len(),
        plain_key_name(next),
        yaml_str_scalar(yaml_quoted(url)) is Some,
        child_indent(
            ls,
            blocks_of(ls, section_of(ls)->Some_0.0, section_of(ls)->Some_0.1)[first_named(
                blocks_of(ls, section_of(ls)->Some_0.0, section_of(ls)->Some_0.1),
                current,
            )],
        ) != blocks_of(ls, section_of(ls)->Some_0.0, section_of(ls)->Some_0.1)[first_named(
            blocks_of(ls, section_of(ls)->Some_0.0, section_of(ls)->Some_0.1),
            current,
        )].indent + 1,
    ensures
        ({
            let (a, b) = section_of(ls)->Some_0;
            let bs = blocks_of(ls, a, b);
            let k = first_named(bs, current);
            let out = update_lines(ls, bs[k], next, url);
            let d = updated_block(ls, bs[k], next, url).len() - (bs[k].end - bs[k].key_line);
            let nbs = blocks_of(out, a, b + d);
            &&& forall|j: int| 0 <= j < bs.len() && j != k ==> provider_url(out, #[trigger] nbs[j]) == provider_url(ls, bs[j])
            &&& provider_url(out, nbs[k]) == Ok::<Option<Seq<char>>, ()>(Some(yaml_str_scalar(yaml_quoted(url))->Some_0))
            &&& listing(ls, bs) is Ok ==> (listing(out, nbs) matches Ok(es) && es.contains(
                EntryModel { name: next, url: yaml_str_scalar(yaml_quoted(url))->Some_0 },
            ))
            &&& (current != next && forall|j: int| 0 <= j < bs.len() && j != k ==> #[trigger] bs[j].name != current)
                ==> (listing(out, nbs) matches Ok(es) ==> forall|i: int| 0 <= i < es.len() ==> #[trigger] es[i].name
                != current)
        }),
{
    lemma_section_facts(ls, current);
    updated_provider_stays_in_section(ls, current, next, url);
    let (a, b) = section_of(ls)->Some_0;
    let base = base_indent(ls, a, b);
    let keys = block_keys_from(ls, base, a, b);
    lemma_block_keys(ls, base, a, b);
    let bs = blocks_of(ls, a, b);
    let k = first_named(bs, current);
    let blk = bs[k];
    let kl = blk.key_line;
    let end = blk.end;
    let out = update_lines(ls, blk, next, url);
    let ub = updated_block(ls, blk, next, url);
    let d = ub.len() - (end - kl);
    let nbs = blocks_of(out, a, b + d);
    let u = yaml_str_scalar(yaml_quoted(url))->Some_0;
    lemma_update_lines_index(ls, blk, next, url);
    assert forall|j: int| 0 <= j < bs.len() && j != k implies provider_url(out, #[trigger] nbs[j]) == provider_url(ls, bs[j]) by {
        assert(bs[j].key_line == keys[j]);
        if j < k {
            assert(nbs[j] == bs[j]);
            assert(bs[j].end == keys[j + 1]);
            if j + 1 < k {
                assert(keys[j + 1] < keys[k]);
            }
            assert forall|i: int| bs[j].key_line < i < bs[j].end implies #[trigger] out[i + 0] == ls[i] by {
                assert(out[i] == ls[i]);
            }
            lemma_provider_url_shift(ls, out, bs[j], nbs[j], 0);
        } else {
            if j > k + 1 {
                assert(keys[k + 1] < keys[j]);
            }
            assert(end <= bs[j].key_line);
            if j + 1 < keys.len() {
                assert(bs[j].end == keys[j + 1]);
                assert(keys[j] < keys[j + 1]);
            }
            assert(bs[j].end <= b);
            assert forall|i: int| bs[j].key_line < i < bs[j].end implies #[trigger] out[i + d] == ls[i] by {
                assert(out[i + d] == ls[i + d - d]);
            }
            lemma_provider_url_shift(ls, out, bs[j], nbs[j], d);
        }
    }
    updated_block_reads_back(ls, blk, next, url);
    assert(nbs[k] == BlockModel { name: next, key_line: kl, end: kl + ub.len(), indent: blk.indent });
    assert(provider_url(out, nbs[k]) == Ok::<Option<Seq<char>>, ()>(Some(u)));
    lemma_listing_pointwise(ls, bs, out, nbs, k, next, u, bs.len() as int);
    assert(bs.take(bs.len() as int) =~= bs);
    assert(nbs.take(nbs.len() as int) =~= nbs);
    lemma_listing_names(out, nbs);
    if current != next && forall|j: int| 0 <= j < bs.len() && j != k ==> #[trigger] bs[j].name != current {
        if listing(out, nbs) is Ok {
            let es = listing(out, nbs)->Ok_0;
            assert forall|i: int| 0 <= i < es.len() implies #[trigger] es[i].name != current by {
                let j = choose|j: int| 0 <= j < nbs.len() && es[i].name == nbs[j].name;
                if j != k {
                    assert(nbs[j].name == bs[j].name);
                }
            }
        }
    }
}

proof fn lemma_lines_acc_line(cur: Seq<char>, l: Seq<char>, rest: Seq<char>)
    requires
        !l.contains('\n'),
    ensures
        lines_acc(cur, l + seq!['\n'] + rest) == seq![strip_cr(cur + l)] + lines_acc(seq![], rest),
    decreases l.len(),
{
    let t = l + seq!['\n'] + rest;
    if l.len() == 0 {
        assert(t =~= seq!['\n'] + rest);
        assert(t[0] == '\n');
        assert(t.subrange(1, t.len() as int) =~= rest);
        assert(cur + l =~= cur);
    } else {
        assert(t[0] == l[0]);
        assert(l[0] != '\n') by {
            if l[0] == '\n' {
                assert(l.contains('\n'));
            }
        }
        let l2 = l.subrange(1, l.len() as int);
        assert(!l2.contains('\n')) by {
            if l2.contains('\n') {
                let i = choose|i: int| 0 <= i < l2.len() && l2[i] == '\n';
                assert(l[i + 1] == '\n');
            }
        }
        assert(t.subrange(1, t.len() as int) =~= l2 + seq!['\n'] + rest);
        lemma_lines_acc_line(cur.push(l[0]), l2, rest);
        assert(cur.push(l[0]) + l2 =~= cur + l);
    }
}

proof fn lemma_concat_front(x: Seq<char>, r: Seq<Seq<char>>)
    ensures
        concat_lines(seq![x] + r) == x + seq!['\n'] + concat_lines(r),
    decreases r.len(),
{
    if r.len() == 0 {
        assert(seq![x] + r =~= seq![x]);
        assert(seq![x].drop_last() =~= Seq::<Seq<char>>::empty());
        assert(concat_lines(Seq::<Seq<char>>::empty()) =~= Seq::<char>::empty());
        assert(concat_lines(r) =~= Seq::<char>::empty());
        assert(seq![x].last() == x);
        assert(concat_lines(seq![x]) =~= x + seq!['\n'] + concat_lines(r));
    } else {
        lemma_concat_front(x, r.drop_last());
        assert((seq![x] + r).drop_last() =~= seq![x] + r.drop_last());
        assert((seq![x] + r).last() == r.last());
        assert(concat_lines(seq![x] + r) =~= x + seq!['\n'] + concat_lines(r));
    }
}

/// Lines without line breaks, none ending in a carriage return, are read
/// back from the text that puts a newline after each.
proof fn lemma_lines_round_trip(ls: Seq<Seq<char>>)
    requires
        forall|i: int| 0 <= i < ls.len() ==> !(#[trigger] ls[i]).contains('\n') && !(ls[i].len() > 0 && ls[i].last() == '\r'),
    ensures
        lines_of(concat_lines(ls)) == ls,
    decreases ls.len(),
{
    if ls.len() > 0 {
        let rest = ls.subrange(1, ls.len() as int);
        assert(ls =~= seq![ls[0]] + rest);
        lemma_concat_front(ls[0], rest);
        assert forall|i: int| 0 <= i < rest.len() implies !(#[trigger] rest[i]).contains('\n') && !(rest[i].len() > 0
            && rest[i].last() == '\r') by {
            assert(rest[i] == ls[i + 1]);
        }
        lemma_lines_round_trip(rest);
        lemma_lines_acc_line(seq![], ls[0], concat_lines(rest));
        assert(seq![] + ls[0] =~= ls[0]);
        assert(strip_cr(ls[0]) == ls[0]);
        assert(lines_of(concat_lines(ls)) =~= seq![ls[0]] + rest);
    } else {
        assert(concat_lines(ls) =~= Seq::<char>::empty());
    }
}

/// The lines of a text hold no line break, and no character that the text
/// does not hold.
proof fn lemma_lines_chars(cur: Seq<char>, rest: Seq<char>, c: char)
    requires
        !cur.contains(c),
        c == '\n' || !rest.contains(c),
    ensures
        forall|i: int| 0 <= i < lines_acc(cur, rest).len() ==> !(#[trigger] lines_acc(cur, rest)[i]).contains(c),
    decreases rest.len(),
{
    if rest.len() == 0 {
        if cur.len() > 0 {
            assert(lines_acc(cur, rest) == seq![cur]);
            assert(lines_acc(cur, rest)[0] == cur);
        }
    } else {
        let r2 = rest.subrange(1, rest.len() as int);
        assert(c == '\n' || !r2.contains(c)) by {
            if c != '\n' && r2.contains(c) {
                let i = choose|i: int| 0 <= i < r2.len() && r2[i] == c;
                assert(rest[i + 1] == c);
            }
        }
        if rest[0] == '\n' {
            lemma_lines_chars(seq![], r2, c);
            let first = strip_cr(cur);
            assert(!first.contains(c)) by {
                if first.contains(c) {
                    let i = choose|i: int| 0 <= i < first.len() && first[i] == c;
                    assert(cur[i] == c);
                }
            }
            let all = lines_acc(cur, rest);
            assert(all == seq![first] + lines_acc(seq![], r2));
            assert forall|i: int| 0 <= i < all.len() implies !(#[trigger] all[i]).contains(c) by {
                if i == 0 {
                    assert(all[0] == first);
                } else {
                    assert(all[i] == lines_acc(seq![], r2)[i - 1]);
                }
            }
        } else {
            assert(rest[0] != c) by {
                if rest[0] == c {
                    assert(rest.contains(c));
                }
            }
            let cur2 = cur.push(rest[0]);
            assert(!cur2.contains(c)) by {
                if cur2.contains(c) {
                    let i = choose|i: int| 0 <= i < cur2.len() && cur2[i] == c;
                    if i < cur.len() {
                        assert(cur[i] == c);
                    }
                }
            }
            lemma_lines_chars(cur2, r2, c);
            assert(lines_acc(cur, rest) == lines_acc(cur2, r2));
        }
    }
}

proof fn lemma_escape_keeps_out(s: Seq<char>, c: char)
    requires
        !s.contains(c),
        c != '\\',
        c != '"',
    ensures
        !escape_all(s).contains(c),
    decreases s.len(),
{
    if s.len() > 0 {
        let p = s.drop_last();
        assert(!p.contains(c)) by {
            if p.contains(c) {
                let i = choose|i: int| 0 <= i < p.len() && p[i] == c;
                assert(s[i] == c);
            }
        }
        lemma_escape_keeps_out(p, c);
        assert(s.last() != c) by {
            if s.last() == c {
                assert(s[s.len() - 1] == c);
            }
        }
        let e = escape_char(s.last());
        assert(!e.contains(c)) by {
            if e.contains(c) {
                let i = choose|i: int| 0 <= i < e.len() && e[i] == c;
            }
        }
        let all = escape_all(s);
        assert(all == escape_all(p) + e);
        if all.contains(c) {
            let i = choose|i: int| 0 <= i < all.len() && all[i] == c;
            if i < escape_all(p).len() {
                assert(escape_all(p)[i] == c);
            } else {
                assert(e[i - escape_all(p).len()] == c);
            }
        }
    }
}

/// No line ends in a carriage return (one before a line's newline is not
/// part of the line).
pub open spec fn no_line_ends_in_cr(ls: Seq<Seq<char>>) -> bool {
    forall|i: int| 0 <= i < ls.len() ==> !((#[trigger] ls[i]).len() > 0 && ls[i].last() == '\r')
}

proof fn lemma_spaces_plain(n: int, c: char)
    requires
        c != ' ',
    ensures
        !spaces(n).contains(c),
{
    if spaces(n).contains(c) {
        let i = choose|i: int| 0 <= i < spaces(n).len() && spaces(n)[i] == c;
    }
}

/// Every line of an updated config holds no line break and ends in no
/// carriage return, where no line of the config text ends in one and the
/// new url holds no line break.
proof fn lemma_updated_lines_plain(content: Seq<char>, current: Seq<char>, next: Seq<char>, url: Seq<char>)
    requires
        section_of(lines_of(content)) is Some,
        first_named(
            blocks_of(lines_of(content), section_of(lines_of(content))->Some_0.0, section_of(lines_of(content))->Some_0.1),
            current,
        ) < blocks_of(lines_of(content), section_of(lines_of(content))->Some_0.0, section_of(lines_of(content))->Some_0.1).len(),
        plain_key_name(next),
        no_line_ends_in_cr(lines_of(content)),
        !url.contains('\n'),
    ensures
        ({
            let ls = lines_of(content);
            let (a, b) = section_of(ls)->Some_0;
            let bs = blocks_of(ls, a, b);
            let out = update_lines(ls, bs[first_named(bs, current)], next, url);
            &&& out.len() > 0
            &&& forall|i: int| 0 <= i < out.len() ==> !(#[trigger] out[i]).contains('\n') && !(out[i].len() > 0 && out[i].last() == '\r')
        }),
{
    broadcast use vstd::seq_lib::lemma_seq_concat_contains_all_elements;

    reveal_strlit("url: ");
    let ls = lines_of(content);
    lemma_section_facts(ls, current);
    let (a, b) = section_of(ls)->Some_0;
    let bs = blocks_of(ls, a, b);
    let k = first_named(bs, current);
    let blk = bs[k];
    let kl = blk.key_line;
    let end = blk.end;
    let base = blk.indent;
    let out = update_lines(ls, blk, next, url);
    let ub = updated_block(ls, blk, next, url);
    let d = ub.len() - (end - kl);
    lemma_update_lines_index(ls, blk, next, url);
    lemma_lines_chars(seq![], content, '\n');
    assert(forall|i: int| 0 <= i < ls.len() ==> !(#[trigger] ls[i]).contains('\n'));
    // the new key line
    let key = ub[0];
    assert(!next.contains('\n') && !next.contains('\r')) by {
        if next.contains('\n') || next.contains('\r') {
            let i = choose|i: int| 0 <= i < next.len() && (next[i] == '\n' || next[i] == '\r');
            assert(!is_ws(next[i]));
        }
    }
    lemma_spaces_plain(base, '\n');
    assert(!seq![':'].contains('\n')) by {
        if seq![':'].contains('\n') {
            let i = choose|i: int| 0 <= i < 1 && seq![':'][i] == '\n';
        }
    }
    assert(key == spaces(base) + next + seq![':']);
    assert(!key.contains('\n'));
    assert(key.last() == ':');
    // the new url line
    let repl = url_line(base + 2, url);
    lemma_spaces_plain(base + 2, '\n');
    assert(!"url: "@.contains('\n')) by {
        if "url: "@.contains('\n') {
            let i = choose|i: int| 0 <= i < "url: "@.len() && "url: "@[i] == '\n';
        }
    }
    lemma_escape_keeps_out(url, '\n');
    assert(!seq!['"'].contains('\n')) by {
        if seq!['"'].contains('\n') {
            let i = choose|i: int| 0 <= i < 1 && seq!['"'][i] == '\n';
        }
    }
    assert(yaml_quoted(url) == seq!['"'] + escape_all(url) + seq!['"']);
    assert(!yaml_quoted(url).contains('\n'));
    assert(!repl.contains('\n'));
    assert(repl.last() == '"');
    assert forall|i: int| 0 <= i < out.len() implies !(#[trigger] out[i]).contains('\n') && !(out[i].len() > 0
        && out[i].last() == '\r') by {
        if i < kl {
            assert(out[i] == ls[i]);
        } else if i < end + d {
            let q = i - kl;
            assert(out[i] == ub[q]);
            if q == 0 {
            } else if q < end - kl {
                if out[i] != repl {
                    assert(out[i] == ls[kl + q]);
                }
            } else {
                assert(out[i] == repl);
            }
        } else {
            assert(out[i] == ls[i - d]);
        }
        if i < kl {
            assert(out[i] == ls[i]);
        } else if i >= end + d {
            assert(out[i] == ls[i - d]);
        } else if out[i] != key && out[i] != repl {
            assert(out[i] == ls[i]);
        }
    }
}

/// What `set_provider_in_text` writes for a provider that the config has
/// is read back by `list_mihomo_providers`: the text it gives still has a
/// `proxy-providers:` section, and where every provider of the config could
/// be read before, every one can be read from the new text, which lists the
/// new name with the string that the double-quoted new url reads as; where
/// the name changed and no other provider had the old name, none listed has
/// it any more. This holds where the config text has no line ending in a carriage return,
/// the url no line break, and the new name no whitespace and no leading `#`.
pub proof fn set_provider_text_lists_provider(content: Seq<char>, current: Seq<char>, next: Seq<char>, url: Seq<char>)
    requires
        section_of(lines_of(content)) is Some,
        first_named(
            blocks_of(lines_of(content), section_of(lines_of(content))->Some_0.0, section_of(lines_of(content))->Some_0.1),
            current,
        ) < blocks_of(lines_of(content), section_of(lines_of(content))->Some_0.0, section_of(lines_of(content))->Some_0.1).len(),
        plain_key_name(next),
        no_line_ends_in_cr(lines_of(content)),
        !url.contains('\n'),
        yaml_str_scalar(yaml_quoted(url)) is Some,
        child_indent(
            lines_of(content),
            blocks_of(lines_of(content), section_of(lines_of(content))->Some_0.0, section_of(lines_of(content))->Some_0.1)[first_named(
                blocks_of(lines_of(content), section_of(lines_of(content))->Some_0.0, section_of(lines_of(content))->Some_0.1),
                current,
            )],
        ) != blocks_of(lines_of(content), section_of(lines_of(content))->Some_0.0, section_of(lines_of(content))->Some_0.1)[first_named(
            blocks_of(lines_of(content), section_of(lines_of(content))->Some_0.0, section_of(lines_of(content))->Some_0.1),
            current,
        )].indent + 1,
    ensures
        ({
            let ls = lines_of(content);
            let (a, b) = section_of(ls)->Some_0;
            let bs = blocks_of(ls, a, b);
            let text = finish_lines_spec(update_lines(ls, bs[first_named(bs, current)], next, url));
            let ls2 = lines_of(text);
            &&& section_of(ls2) is Some
            &&& listing(ls, bs) is Ok ==> (listing(ls2, blocks_of(ls2, section_of(ls2)->Some_0.0, section_of(ls2)->Some_0.1))
                matches Ok(es) && es.contains(EntryModel { name: next, url: yaml_str_scalar(yaml_quoted(url))->Some_0 }))
            &&& (current != next && forall|j: int|
                0 <= j < bs.len() && j != first_named(bs, current) ==> #[trigger] bs[j].name != current) ==> (listing(
                ls2,
                blocks_of(ls2, section_of(ls2)->Some_0.0, section_of(ls2)->Some_0.1),
            ) matches Ok(es) ==> forall|i: int| 0 <= i < es.len() ==> #[trigger] es[i].name != current)
        }),
{
    let ls = lines_of(content);
    let (a, b) = section_of(ls)->Some_0;
    let bs = blocks_of(ls, a, b);
    let out = update_lines(ls, bs[first_named(bs, current)], next, url);
    lemma_updated_lines_plain(content, current, next, url);
    lemma_lines_round_trip(out);
    assert(lines_of(finish_lines_spec(out)) == out);
    updated_provider_stays_in_section(ls, current, next, url);
    updated_provider_is_listed(ls, current, next, url);
}

proof fn lemma_listing_same(ls: Seq<Seq<char>>, bs: Seq<BlockModel>, out: Seq<Seq<char>>, nbs: Seq<BlockModel>)
    requires
        bs.len() == nbs.len(),
        forall|j: int| 0 <= j < bs.len() ==> (#[trigger] nbs[j]).name == bs[j].name,
        forall|j: int| 0 <= j < bs.len() ==> provider_url(out, #[trigger] nbs[j]) == provider_url(ls, bs[j]),
    ensures
        listing(out, nbs) == listing(ls, bs),
    decreases bs.len(),
{
    if bs.len() > 0 {
        let b2 = bs.drop_last();
        let n2 = nbs.drop_last();
        assert forall|j: int| 0 <= j < b2.len() implies (#[trigger] n2[j]).name == b2[j].name && provider_url(out, n2[j])
            == provider_url(ls, b2[j]) by {
            assert(n2[j] == nbs[j]);
            assert(b2[j] == bs[j]);
        }
        lemma_listing_same(ls, b2, out, n2);
        assert(nbs.last() == nbs[nbs.len() - 1]);
        assert(bs.last() == bs[bs.len() - 1]);
    }
}

/// The section and the blocks of the lines left by removing a block.
#[verifier::spinoff_prover]
#[verifier::rlimit(40)]
proof fn lemma_removed_structure(ls: Seq<Seq<char>>, name: Seq<char>)
    requires
        section_of(ls) is Some,
        first_named(blocks_of(ls, section_of(ls)->Some_0.0, section_of(ls)->Some_0.1), name) < blocks_of(
            ls,
            section_of(ls)->Some_0.0,
            section_of(ls)->Some_0.1,
        ).len(),
        blocks_of(ls, section_of(ls)->Some_0.0, section_of(ls)->Some_0.1).len() >= 2,
    ensures
        ({
            let (a, b) = section_of(ls)->Some_0;
            let bs = blocks_of(ls, a, b);
            let k = first_named(bs, name);
            let out = ls.subrange(0, bs[k].key_line) + ls.subrange(bs[k].end, ls.len() as int);
            let d = bs[k].end - bs[k].key_line;
            let nbs = blocks_of(out, a, b - d);
            &&& section_of(out) == Some((a, b - d))
            &&& nbs.len() == bs.len() - 1
            &&& forall|j: int| 0 <= j < k ==> #[trigger] nbs[j] == bs[j]
            &&& forall|j: int|
                k <= j < nbs.len() ==> #[trigger] nbs[j] == BlockModel {
                    name: bs[j + 1].name,
                    key_line: bs[j + 1].key_line - d,
                    end: bs[j + 1].end - d,
                    indent: bs[j + 1].indent,
                }
        }),
{
    lemma_section_facts(ls, name);
    let (a, b) = section_of(ls)->Some_0;
    let base = base_indent(ls, a, b);
    let keys = block_keys_from(ls, base, a, b);
    lemma_block_keys(ls, base, a, b);
    let bs = blocks_of(ls, a, b);
    let k = first_named(bs, name);
    let blk = bs[k];
    let kl = blk.key_line;
    let end = blk.end;
    let d = end - kl;
    let pre_l = ls.subrange(0, kl);
    let post_l = ls.subrange(end, ls.len() as int);
    let out = pre_l + post_l;
    assert forall|j: int| 0 <= j < kl implies #[trigger] out[j] == ls[j] by {
        assert(out[j] == pre_l[j]);
    }
    assert forall|j: int| kl <= j < out.len() implies #[trigger] out[j] == ls[j + d] by {
        assert(out[j] == post_l[j - kl]);
    }
    // the section is found again
    assert forall|j: int| 0 <= j < a - 1 implies !is_section_header(#[trigger] out[j]) by {
        assert(out[j] == ls[j]);
    }
    assert(out[a - 1] == ls[a - 1]);
    lemma_header_at(out, 0, a - 1);
    assert forall|j: int| a <= j < b - d implies !is_top_level_key(#[trigger] out[j]) by {
        if j < kl {
            assert(out[j] == ls[j]);
        } else {
            assert(out[j] == ls[j + d]);
        }
    }
    if b - d < out.len() {
        assert(out[b - d] == ls[b]);
    }
    lemma_top_level_at(out, a, b - d);
    assert(section_of(out) == Some((a, b - d)));
    // another key keeps the indentation of the keys
    let other = if k > 0 {
        keys[k - 1]
    } else {
        keys[k + 1]
    };
    if k > 0 {
        assert(keys[k - 1] < keys[k]);
    } else {
        assert(keys[k] < keys[k + 1]);
        assert(keys[k + 1] == end);
    }
    assert(is_block_key(ls, base, other));
    lemma_indent_nonneg(ls[other]);
    let w = if k > 0 {
        other
    } else {
        other - d
    };
    assert(out[w] == ls[other]);
    assert(counted(out[w]));
    assert forall|j: int| a <= j < b - d && counted(#[trigger] out[j]) implies indent_of(out[j]) >= base by {
        if j < kl {
            assert(out[j] == ls[j]);
        } else {
            assert(out[j] == ls[j + d]);
        }
    }
    lemma_min_indent_is(out, a, b - d, base, w);
    assert(base_indent(out, a, b - d) == base);
    // the keys of the remaining lines
    assert forall|j: int| kl + 1 <= j < end implies !#[trigger] is_block_key(ls, base, j) by {}
    lemma_no_block_keys(ls, base, kl + 1, end);
    let pre = block_keys_from(ls, base, a, kl);
    let post = block_keys_from(ls, base, end, b);
    lemma_block_keys_split(ls, base, a, kl, b);
    lemma_block_keys_split(ls, base, kl, end, b);
    assert(block_keys_from(ls, base, kl, end) =~= seq![kl]);
    assert(keys =~= pre + seq![kl] + post);
    lemma_block_keys_split(out, base, a, kl, b - d);
    assert forall|j: int| a <= j < kl implies is_block_key(out, base, j + 0) == #[trigger] is_block_key(ls, base, j) by {
        assert(out[j] == ls[j]);
    }
    lemma_block_keys_shift(ls, out, base, a, kl, 0);
    assert(pre.map_values(|x: int| x + 0) =~= pre);
    assert forall|j: int| end <= j < b implies is_block_key(out, base, j + -d) == #[trigger] is_block_key(ls, base, j) by {
        assert(out[j - d] == ls[j]);
    }
    lemma_block_keys_shift(ls, out, base, end, b, -d);
    assert(end + -d == kl);
    let post2 = post.map_values(|x: int| x + -d);
    let keys2 = block_keys_from(out, base, a, b - d);
    assert(keys2 =~= pre + post2);
    lemma_block_keys(ls, base, a, kl);
    assert(keys[pre.len() as int] == kl);
    if pre.len() < k {
        assert(keys[pre.len() as int] < keys[k]);
    }
    if pre.len() > k {
        assert(keys[k] == pre[k]);
    }
    assert(pre.len() == k);
    lemma_block_keys(ls, base, end, b);
    let nbs = blocks_of(out, a, b - d);
    assert(nbs.len() == bs.len() - 1);
    assert forall|j: int| 0 <= j < k implies #[trigger] nbs[j] == bs[j] by {
        assert(keys2[j] == pre[j]);
        assert(keys[j] == pre[j]);
        assert(out[pre[j]] == ls[pre[j]]);
        if j + 1 < k {
            assert(keys2[j + 1] == keys[j + 1]);
        } else if k + 1 < keys.len() {
            assert(keys[k + 1] == post[0]);
            assert(keys2[k] == post2[0]);
        }
    }
    assert forall|j: int| k <= j < nbs.len() implies #[trigger] nbs[j] == BlockModel {
        name: bs[j + 1].name,
        key_line: bs[j + 1].key_line - d,
        end: bs[j + 1].end - d,
        indent: bs[j + 1].indent,
    } by {
        let p = j - k;
        assert(keys[j + 1] == post[p]);
        assert(keys2[j] == post2[p]);
        assert(end <= post[p] < b);
        assert(out[post[p] - d] == ls[post[p]]);
        if j + 2 < keys.len() {
            assert(keys[j + 2] == post[p + 1]);
            assert(keys2[j + 1] == post2[p + 1]);
        }
    }
}

/// Removing a provider leaves the others as they were: in the remaining
/// lines the `proxy-providers:` section is found again, shorter by the
/// removed block, and its providers are the others in order, each reading
/// the same url; so the providers listed are those listed before, without
/// the removed one. This holds where another provider remains.
pub proof fn removed_provider_leaves_the_others(ls: Seq<Seq<char>>, name: Seq<char>)
    requires
        section_of(ls) is Some,
        first_named(blocks_of(ls, section_of(ls)->Some_0.0, section_of(ls)->Some_0.1), name) < blocks_of(
            ls,
            section_of(ls)->Some_0.0,
            section_of(ls)->Some_0.1,
        ).len(),
        blocks_of(ls, section_of(ls)->Some_0.0, section_of(ls)->Some_0.1).len() >= 2,
    ensures
        ({
            let (a, b) = section_of(ls)->Some_0;
            let bs = blocks_of(ls, a, b);
            let k = first_named(bs, name);
            let out = ls.subrange(0, bs[k].key_line) + ls.subrange(bs[k].end, ls.len() as int);
            let d = bs[k].end - bs[k].key_line;
            let nbs = blocks_of(out, a, b - d);
            &&& section_of(out) == Some((a, b - d))
            &&& nbs.len() == bs.len() - 1
            &&& forall|j: int| 0 <= j < k ==> #[trigger] nbs[j] == bs[j]
            &&& forall|j: int|
                k <= j < nbs.len() ==> #[trigger] nbs[j] == BlockModel {
                    name: bs[j + 1].name,
                    key_line: bs[j + 1].key_line - d,
                    end: bs[j + 1].end - d,
                    indent: bs[j + 1].indent,
                }
            &&& listing(out, nbs) == listing(ls, bs.remove(k))
        }),
{
    lemma_section_facts(ls, name);
    lemma_removed_structure(ls, name);
    let (a, b) = section_of(ls)->Some_0;
    let base = base_indent(ls, a, b);
    let keys = block_keys_from(ls, base, a, b);
    lemma_block_keys(ls, base, a, b);
    let bs = blocks_of(ls, a, b);
    let k = first_named(bs, name);
    let blk = bs[k];
    let kl = blk.key_line;
    let end = blk.end;
    let d = end - kl;
    let pre_l = ls.subrange(0, kl);
    let post_l = ls.subrange(end, ls.len() as int);
    let out = pre_l + post_l;
    assert forall|j: int| 0 <= j < kl implies #[trigger] out[j] == ls[j] by {
        assert(out[j] == pre_l[j]);
    }
    assert forall|j: int| kl <= j < out.len() implies #[trigger] out[j] == ls[j + d] by {
        assert(out[j] == post_l[j - kl]);
    }
    let nbs = blocks_of(out, a, b - d);
    let cs = bs.remove(k);
    assert forall|j: int| 0 <= j < cs.len() implies (#[trigger] nbs[j]).name == cs[j].name && provider_url(out, nbs[j])
        == provider_url(ls, cs[j]) by {
        if j < k {
            assert(cs[j] == bs[j]);
            assert(bs[j].key_line == keys[j]);
            assert(bs[j].end == keys[j + 1]);
            if j + 1 < k {
                assert(keys[j + 1] < keys[k]);
            }
            assert forall|i: int| bs[j].key_line < i < bs[j].end implies #[trigger] out[i + 0] == ls[i] by {
                assert(out[i] == ls[i]);
            }
            lemma_provider_url_shift(ls, out, bs[j], nbs[j], 0);
        } else {
            assert(cs[j] == bs[j + 1]);
            assert(bs[j + 1].key_line == keys[j + 1]);
            if j + 1 > k + 1 {
                assert(keys[k + 1] < keys[j + 1]);
            }
            assert(end <= bs[j + 1].key_line);
            if j + 2 < keys.len() {
                assert(bs[j + 1].end == keys[j + 2]);
                assert(keys[j + 1] < keys[j + 2]);
            }
            assert(bs[j + 1].end <= b);
            assert forall|i: int| bs[j + 1].key_line < i < bs[j + 1].end implies #[trigger] out[i + -d] == ls[i] by {
                assert(out[i - d] == ls[i - d + d]);
            }
            lemma_provider_url_shift(ls, out, bs[j + 1], nbs[j], -d);
        }
    }
    lemma_listing_same(ls, cs, out, nbs);
}

/// What `remove_provider_from_text` writes for a provider that the config
/// has, where another provider remains, is read back by
/// `list_mihomo_providers` as the config without it: the text it gives
/// still has a `proxy-providers:` section, whose providers read exactly as
/// the providers of the config other than the removed one. This holds
/// where the config text has no line ending in a carriage return.
pub proof fn remove_provider_text_keeps_the_others(content: Seq<char>, name: Seq<char>)
    requires
        section_of(lines_of(content)) is Some,
        first_named(
            blocks_of(lines_of(content), section_of(lines_of(content))->Some_0.0, section_of(lines_of(content))->Some_0.1),
            name,
        ) < blocks_of(lines_of(content), section_of(lines_of(content))->Some_0.0, section_of(lines_of(content))->Some_0.1).len(),
        blocks_of(lines_of(content), section_of(lines_of(content))->Some_0.0, section_of(lines_of(content))->Some_0.1).len() >= 2,
        no_line_ends_in_cr(lines_of(content)),
    ensures
        ({
            let ls = lines_of(content);
            let (a, b) = section_of(ls)->Some_0;
            let bs = blocks_of(ls, a, b);
            let k = first_named(bs, name);
            let text = finish_lines_spec(ls.subrange(0, bs[k].key_line) + ls.subrange(bs[k].end, ls.len() as int));
            let ls2 = lines_of(text);
            &&& section_of(ls2) is Some
            &&& listing(ls2, blocks_of(ls2, section_of(ls2)->Some_0.0, section_of(ls2)->Some_0.1)) == listing(ls, bs.remove(k))
        }),
{
    let ls = lines_of(content);
    lemma_section_facts(ls, name);
    removed_provider_leaves_the_others(ls, name);
    let (a, b) = section_of(ls)->Some_0;
    let bs = blocks_of(ls, a, b);
    let k = first_named(bs, name);
    let kl = bs[k].key_line;
    let end = bs[k].end;
    let pre_l = ls.subrange(0, kl);
    let post_l = ls.subrange(end, ls.len() as int);
    let out = pre_l + post_l;
    lemma_lines_chars(seq![], content, '\n');
    assert forall|i: int| 0 <= i < out.len() implies !(#[trigger] out[i]).contains('\n') && !(out[i].len() > 0
        && out[i].last() == '\r') by {
        if i < kl {
            assert(out[i] == ls[i]);
        } else {
            assert(out[i] == ls[i - kl + end]);
        }
    }
    lemma_lines_round_trip(out);
    assert(out.len() > 0);
    assert(lines_of(finish_lines_spec(out)) == out);
}

proof fn lemma_merge_line_plain()
    ensures
        provider_key("    <<: *p"@) is None,
        url_line_indent("    <<: *p"@) is None,
        !is_blank_or_comment("    <<: *p"@),
        !is_top_level_key("    <<: *p"@),
        indent_of("    <<: *p"@) == 4,
        !"    <<: *p"@.contains('\n'),
        "    <<: *p"@.last() == 'p',
{
    reveal_strlit("    <<: *p");
    reveal_strlit("url:");
    let l = "    <<: *p"@;
    let body = "<<: *p"@;
    reveal_strlit("<<: *p");
    assert(l =~= spaces(4) + body);
    crate::mihomo::lemma_trim_start_spaces(4, body);
    assert(!is_ws('<'));
    assert(crate::text::trim_start(body) == body);
    assert(!is_ws('p'));
    assert(body.last() == 'p');
    assert(trim_end(body) == body);
    assert(crate::text::trim(l) == body);
    assert(!crate::text::starts_with(body, seq!['#'])) by {
        if crate::text::starts_with(body, seq!['#']) {
            assert(body.subrange(0, 1)[0] == body[0]);
        }
    }
    assert(!crate::text::starts_with(body, "url:"@)) by {
        if crate::text::starts_with(body, "url:"@) {
            assert(body.subrange(0, 4)[0] == body[0]);
        }
    }
    lemma_indent_spaces(4, body);
    assert(!is_ws('p'));
    assert(trim_end(l) == l);
    assert(!ends_with(l, seq![':'])) by {
        if ends_with(l, seq![':']) {
            assert(l.subrange(l.len() - 1, l.len() as int)[0] == l.last());
        }
    }
    if l.contains('\n') {
        let i = choose|i: int| 0 <= i < l.len() && l[i] == '\n';
    }
}

/// Adding a provider that the config does not have, with no provider to
/// copy settings from, lists it after the others: in the extended lines the
/// `proxy-providers:` section is found again, three lines longer, its
/// providers are those of the config followed by the new one, and the
/// listing is the one of the config with the new name and the string that
/// the double-quoted url reads as added at the end. This holds where the
/// provider keys of the section are indented by two spaces, as the added
/// key is, and the new name has no whitespace and starts no comment.
pub proof fn inserted_provider_is_listed(ls: Seq<Seq<char>>, next: Seq<char>, url: Seq<char>)
    requires
        section_of(ls) is Some,
        base_indent(ls, section_of(ls)->Some_0.0, section_of(ls)->Some_0.1) == 2,
        plain_key_name(next),
        yaml_str_scalar(yaml_quoted(url)) is Some,
    ensures
        ({
            let (a, b) = section_of(ls)->Some_0;
            let bs = blocks_of(ls, a, b);
            let out = ls.subrange(0, b) + new_block(next, url, None) + ls.subrange(b, ls.len() as int);
            let nbs = blocks_of(out, a, b + 3);
            &&& section_of(out) == Some((a, b + 3))
            &&& nbs == bs.push(BlockModel { name: next, key_line: b, end: b + 3, indent: 2 })
            &&& listing(out, nbs) == match listing(ls, bs) {
                Ok(es) => Ok(es.push(EntryModel { name: next, url: yaml_str_scalar(yaml_quoted(url))->Some_0 })),
                Err(n) => Err(n),
            }
        }),
{
    reveal_strlit("  ");
    reveal_strlit("    url: ");
    reveal_strlit("url: ");
    let (a, b) = section_of(ls)->Some_0;
    lemma_header_found(ls, 0);
    lemma_top_level_found(ls, a);
    let base = 2int;
    let keys = block_keys_from(ls, base, a, b);
    lemma_block_keys(ls, base, a, b);
    let bs = blocks_of(ls, a, b);
    let key = "  "@ + next + seq![':'];
    let merge = "    <<: *p"@;
    let uline = "    url: "@ + yaml_quoted(url);
    let nb3 = seq![key, merge, uline];
    assert(new_block(next, url, None) == nb3);
    let pre_l = ls.subrange(0, b);
    let post_l = ls.subrange(b, ls.len() as int);
    let out = pre_l + nb3 + post_l;
    assert forall|j: int| 0 <= j < b implies #[trigger] out[j] == ls[j] by {
        assert(out[j] == pre_l[j]);
    }
    assert(out[b] == key);
    assert(out[b + 1] == merge);
    assert(out[b + 2] == uline);
    assert forall|j: int| b + 3 <= j < out.len() implies #[trigger] out[j] == ls[j - 3] by {
        assert(out[j] == post_l[j - b - 3]);
    }
    assert(key =~= spaces(2) + next + seq![':']);
    assert(uline =~= url_line(4, url));
    lemma_key_line_reads_back(2, next);
    lemma_url_line_reads_back(4, url);
    lemma_merge_line_plain();
    let key_text = next + seq![':'];
    assert(key =~= spaces(2) + key_text);
    assert(!is_ws(next[0]));
    assert(key_text[0] == next[0]);
    lemma_indent_spaces(2, key_text);
    assert(key[0] == ' ');
    // the section is found again
    assert forall|j: int| 0 <= j < a - 1 implies !is_section_header(#[trigger] out[j]) by {
        assert(out[j] == ls[j]);
    }
    assert(out[a - 1] == ls[a - 1]);
    lemma_header_at(out, 0, a - 1);
    assert forall|j: int| a <= j < b + 3 implies !is_top_level_key(#[trigger] out[j]) by {
        if j < b {
            assert(out[j] == ls[j]);
        }
    }
    if b + 3 < out.len() {
        assert(out[b + 3] == ls[b]);
    }
    lemma_top_level_at(out, a, b + 3);
    assert(section_of(out) == Some((a, b + 3)));
    // the keys keep their indentation
    lemma_min_indent(ls, a, b);
    assert(provider_key(key) == Some((2int, next)));
    assert(counted(out[b]));
    assert forall|j: int| a <= j < b + 3 && counted(#[trigger] out[j]) implies indent_of(out[j]) >= 2 by {
        if j < b {
            assert(out[j] == ls[j]);
            match min_indent_from(ls, a, b) {
                None => {},
                Some(m) => {
                    assert(m == 2);
                },
            }
        }
    }
    lemma_min_indent_is(out, a, b + 3, 2, b);
    assert(base_indent(out, a, b + 3) == 2);
    // the keys: those of the config, then the new one
    lemma_block_keys_split(out, base, a, b, b + 3);
    assert forall|j: int| a <= j < b implies is_block_key(out, base, j + 0) == #[trigger] is_block_key(ls, base, j) by {
        assert(out[j] == ls[j]);
    }
    lemma_block_keys_shift(ls, out, base, a, b, 0);
    assert(keys.map_values(|x: int| x + 0) =~= keys);
    assert(is_block_key(out, base, b));
    assert(!is_block_key(out, base, b + 1));
    assert(!is_block_key(out, base, b + 2));
    assert(block_keys_from(out, base, b + 3, b + 3) =~= Seq::<int>::empty());
    assert(block_keys_from(out, base, b + 2, b + 3) =~= Seq::<int>::empty());
    assert(block_keys_from(out, base, b + 1, b + 3) =~= Seq::<int>::empty());
    assert(block_keys_from(out, base, b, b + 3) =~= seq![b]);
    let keys2 = block_keys_from(out, base, a, b + 3);
    assert(keys2 =~= keys.push(b));
    let nbs = blocks_of(out, a, b + 3);
    let nb = BlockModel { name: next, key_line: b, end: b + 3, indent: 2 };
    assert forall|j: int| 0 <= j < bs.len() implies #[trigger] nbs[j] == bs[j] by {
        assert(keys2[j] == keys[j]);
        assert(out[keys[j]] == ls[keys[j]]);
        if j + 1 < keys.len() {
            assert(keys2[j + 1] == keys[j + 1]);
        } else {
            assert(keys2[j + 1] == b);
        }
    }
    assert(nbs[bs.len() as int] == nb);
    assert(nbs =~= bs.push(nb));
    // the others read the same urls, and the new one its url
    assert forall|j: int| 0 <= j < bs.len() implies (#[trigger] nbs.take(bs.len() as int)[j]).name == bs[j].name && provider_url(
        out,
        nbs.take(bs.len() as int)[j],
    ) == provider_url(ls, bs[j]) by {
        assert(nbs.take(bs.len() as int)[j] == bs[j]);
        assert(bs[j].key_line == keys[j]);
        if j + 1 < keys.len() {
            assert(bs[j].end == keys[j + 1]);
        }
        assert(bs[j].end <= b);
        assert forall|i: int| bs[j].key_line < i < bs[j].end implies #[trigger] out[i + 0] == ls[i] by {
            assert(out[i] == ls[i]);
        }
        lemma_provider_url_shift(ls, out, bs[j], bs[j], 0);
    }
    lemma_listing_same(ls, bs, out, nbs.take(bs.len() as int));
    assert(nbs.drop_last() =~= nbs.take(bs.len() as int));
    assert(nbs.last() == nb);
    assert(deeper_line(out[b + 1], 2));
    assert(first_deeper_from(out, nb, b + 1) == b + 1);
    assert(child_indent(out, nb) == 4);
    assert(url_line_from(out, nb, b + 2) == b + 2);
    assert(url_line_from(out, nb, b + 1) == b + 2);
    assert(provider_url(out, nb) == Ok::<Option<Seq<char>>, ()>(Some(yaml_str_scalar(yaml_quoted(url))->Some_0)));
}

/// What `set_provider_in_text` writes for a provider that the config does
/// not have, with no provider to copy settings from, is read back by
/// `list_mihomo_providers` as the providers of the config followed by the
/// new one, named as asked, with the string that the double-quoted url
/// reads as. This holds where the config text has no line ending in a carriage return, the
/// url no line break, the provider keys are indented by two spaces, and the
/// new name has no whitespace and starts no comment.
pub proof fn set_provider_text_lists_new_provider(content: Seq<char>, next: Seq<char>, url: Seq<char>)
    requires
        section_of(lines_of(content)) is Some,
        base_indent(lines_of(content), section_of(lines_of(content))->Some_0.0, section_of(lines_of(content))->Some_0.1) == 2,
        plain_key_name(next),
        no_line_ends_in_cr(lines_of(content)),
        !url.contains('\n'),
        yaml_str_scalar(yaml_quoted(url)) is Some,
    ensures
        ({
            let ls = lines_of(content);
            let (a, b) = section_of(ls)->Some_0;
            let bs = blocks_of(ls, a, b);
            let text = finish_lines_spec(ls.subrange(0, b) + new_block(next, url, None) + ls.subrange(b, ls.len() as int));
            let ls2 = lines_of(text);
            &&& section_of(ls2) is Some
            &&& listing(ls2, blocks_of(ls2, section_of(ls2)->Some_0.0, section_of(ls2)->Some_0.1)) == match listing(ls, bs) {
                Ok(es) => Ok(es.push(EntryModel { name: next, url: yaml_str_scalar(yaml_quoted(url))->Some_0 })),
                Err(n) => Err(n),
            }
        }),
{
    broadcast use vstd::seq_lib::lemma_seq_concat_contains_all_elements;

    reveal_strlit("  ");
    reveal_strlit("url: ");
    reveal_strlit("    url: ");
    let ls = lines_of(content);
    inserted_provider_is_listed(ls, next, url);
    let (a, b) = section_of(ls)->Some_0;
    lemma_header_found(ls, 0);
    lemma_top_level_found(ls, a);
    let key = "  "@ + next + seq![':'];
    let merge = "    <<: *p"@;
    let uline = "    url: "@ + yaml_quoted(url);
    let nb3 = seq![key, merge, uline];
    assert(new_block(next, url, None) == nb3);
    let pre_l = ls.subrange(0, b);
    let post_l = ls.subrange(b, ls.len() as int);
    let out = pre_l + nb3 + post_l;
    lemma_lines_chars(seq![], content, '\n');
    lemma_merge_line_plain();
    assert(!next.contains('\n')) by {
        if next.contains('\n') {
            let i = choose|i: int| 0 <= i < next.len() && next[i] == '\n';
            assert(!is_ws(next[i]));
        }
    }
    assert(!"  "@.contains('\n')) by {
        if "  "@.contains('\n') {
            let i = choose|i: int| 0 <= i < 2 && "  "@[i] == '\n';
        }
    }
    assert(!seq![':'].contains('\n')) by {
        if seq![':'].contains('\n') {
            let i = choose|i: int| 0 <= i < 1 && seq![':'][i] == '\n';
        }
    }
    assert(!key.contains('\n'));
    assert(key.last() == ':');
    assert(uline =~= url_line(4, url));
    lemma_escape_keeps_out(url, '\n');
    assert(!seq!['"'].contains('\n')) by {
        if seq!['"'].contains('\n') {
            let i = choose|i: int| 0 <= i < 1 && seq!['"'][i] == '\n';
        }
    }
    assert(!"    url: "@.contains('\n')) by {
        if "    url: "@.contains('\n') {
            let i = choose|i: int| 0 <= i < "    url: "@.len() && "    url: "@[i] == '\n';
        }
    }
    assert(yaml_quoted(url) == seq!['"'] + escape_all(url) + seq!['"']);
    assert(!uline.contains('\n'));
    assert(uline.last() == '"');
    assert forall|i: int| 0 <= i < out.len() implies !(#[trigger] out[i]).contains('\n') && !(out[i].len() > 0
        && out[i].last() == '\r') by {
        if i < b {
            assert(out[i] == ls[i]);
        } else if i < b + 3 {
            assert(out[i] == nb3[i - b]);
        } else {
            assert(out[i] == post_l[i - b - 3]);
            assert(out[i] == ls[i - 3]);
        }
    }
    lemma_lines_round_trip(out);
    assert(out.len() > 0);
    assert(lines_of(finish_lines_spec(out)) == out);
}

} // verus!
