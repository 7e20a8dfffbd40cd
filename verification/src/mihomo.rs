//! Editing the `proxy-providers:` section of a mihomo config as text, line
//! by line, so that everything outside the edited provider stays as written.
use vstd::prelude::*;

use crate::entries::{
    entry_models, parse_subscription_state, state_result_model, state_results, valid_name, valid_url,
    validate_provider_name, validate_provider_url, EntryError, EntryModel, ProviderEntry, StateError,
};
use crate::outside::{parse_yaml_scalar, string_from_chars, yaml_str_scalar};
use crate::yaml::{
    find_key, key_index, lemma_key_index, lemma_mapping_model, lookup, pairs_model, yaml_text,
    YamlModel, YamlValue,
};
use crate::text::{
    chars_eq, chars_of, concat_lines, ends_with, finish_lines, finish_lines_spec, has_char,
    has_prefix, is_ws, lines_of, push_all, slice_chars, split_lines, starts_with, trim, trim_end, trim_start,
    trimmed, trimmed_end, trimmed_start, views,
};

verus! {

/// Why a mihomo config could not be read or edited.
#[derive(Debug, Clone, PartialEq, Eq)]
pub enum MihomoError {
    /// The config text is not YAML.
    ConfigNotYaml,
    /// The YAML root is not a mapping.
    RootNotMapping,
    /// The root mapping has no `proxy-providers` key.
    MissingProvidersKey,
    /// `proxy-providers` is not a mapping.
    ProvidersNotMapping,
    /// No line reads `proxy-providers:`.
    MissingSection,
    /// Renaming the provider would give it the name of another provider.
    DuplicateName(String),
    /// The `url:` value of the named provider is not a YAML string.
    UnreadableUrl(String),
    /// A provider name, url or type was refused.
    Entry(EntryError),
    /// A line of the subscription state (counted from 1) has no tab.
    InvalidStateLine(usize),
}

/// A provider of the `proxy-providers:` section: its key line, the lines it
/// spans (from the key line up to `end`), and the indentation of its key.
pub struct ProviderBlock {
    pub name: String,
    pub key_line: usize,
    pub end: usize,
    pub indent: usize,
}

pub ghost struct BlockModel {
    pub name: Seq<char>,
    pub key_line: int,
    pub end: int,
    pub indent: int,
}

impl ProviderBlock {
    pub open spec fn model(&self) -> BlockModel {
        BlockModel {
            name: self.name@,
            key_line: self.key_line as int,
            end: self.end as int,
            indent: self.indent as int,
        }
    }
}

pub open spec fn block_models(bs: Seq<ProviderBlock>) -> Seq<BlockModel> {
    Seq::new(bs.len(), |i: int| bs[i].model())
}

/// Where a provider is inserted when none has the name asked for: the YAML
/// that serialising the provider's mapping gave, or none when no provider
/// in the config has a `url` to copy the other settings from.
pub enum ProviderTemplate {
    /// The config text is not YAML.
    Unreadable,
    /// No provider to copy settings from.
    Absent,
    /// The serialised mapping `name: {settings..., url: ...}`.
    Rendered(String),
}

// ---------------------------------------------------------------------------
// Line classification
// ---------------------------------------------------------------------------

/// The number of spaces and tabs that start `s`.
pub open spec fn indent_of(s: Seq<char>) -> int
    decreases s.len(),
{
    if s.len() > 0 && (s[0] == ' ' || s[0] == '\t') {
        1 + indent_of(s.subrange(1, s.len() as int))
    } else {
        0
    }
}

/// A key of the YAML root: starts at column 0, not a comment, ends with `:`.
pub open spec fn is_top_level_key(l: Seq<char>) -> bool {
    &&& l.len() > 0
    &&& l[0] != ' '
    &&& l[0] != '\t'
    &&& l[0] != '#'
    &&& l.last() == ':'
}

pub open spec fn is_blank_or_comment(l: Seq<char>) -> bool {
    trim(l).len() == 0 || starts_with(trim_start(l), seq!['#'])
}

/// The indentation and name of a provider key line `  name:`.
pub open spec fn provider_key(l: Seq<char>) -> Option<(int, Seq<char>)> {
    if is_blank_or_comment(l) || indent_of(l) == 0 || !ends_with(trim_end(l), seq![':']) {
        None
    } else {
        let t = trim(trim_end(l));
        if !ends_with(t, seq![':']) {
            None
        } else {
            let name = trim(t.drop_last());
            if name.len() == 0 || name.contains(' ') {
                None
            } else {
                Some((indent_of(l), name))
            }
        }
    }
}

/// The indentation of a `url:` line.
pub open spec fn url_line_indent(l: Seq<char>) -> Option<int> {
    if starts_with(trim_start(l), "url:"@) {
        Some(indent_of(l))
    } else {
        None
    }
}

/// A `url:` line indented deeper than a provider key at `indent`.
pub open spec fn is_url_line_under(l: Seq<char>, indent: int) -> bool {
    url_line_indent(l) matches Some(ui) && ui > indent
}

/// A line that nests under a key indented by `indent`: neither blank nor a
/// comment, and indented deeper.
pub open spec fn deeper_line(l: Seq<char>, indent: int) -> bool {
    !is_blank_or_comment(l) && indent_of(l) > indent
}

/// The first line of block `b` from `i` on that nests under its key, or the
/// block's end.
pub open spec fn first_deeper_from(ls: Seq<Seq<char>>, b: BlockModel, i: int) -> int
    decreases b.end - i,
{
    if i >= b.end {
        b.end
    } else if deeper_line(ls[i], b.indent) {
        i
    } else {
        first_deeper_from(ls, b, i + 1)
    }
}

/// The indentation of the settings of provider `b`: that of the first line
/// nested under its key, or two more than the key's where there is none.
pub open spec fn child_indent(ls: Seq<Seq<char>>, b: BlockModel) -> int {
    let f = first_deeper_from(ls, b, b.key_line + 1);
    if f < b.end {
        indent_of(ls[f])
    } else {
        b.indent + 2
    }
}

/// The provider's own `url:` line: a `url:` line nested under a key at
/// `indent`, no deeper than the provider's settings at `ci` (not one of a
/// nested mapping such as `health-check`).
pub open spec fn is_own_url_line(l: Seq<char>, indent: int, ci: int) -> bool {
    url_line_indent(l) matches Some(ui) && indent < ui <= ci
}

pub open spec fn is_section_header(l: Seq<char>) -> bool {
    trim(l) == "proxy-providers:"@
}

// ---------------------------------------------------------------------------
// The section and its provider blocks
// ---------------------------------------------------------------------------

/// The first index from `i` on holding the section header, or the length.
pub open spec fn header_from(ls: Seq<Seq<char>>, i: int) -> int
    decreases ls.len() - i,
{
    if i >= ls.len() {
        ls.len() as int
    } else if is_section_header(ls[i]) {
        i
    } else {
        header_from(ls, i + 1)
    }
}

/// The first index from `i` on holding a top-level key, or the length.
pub open spec fn top_level_from(ls: Seq<Seq<char>>, i: int) -> int
    decreases ls.len() - i,
{
    if i >= ls.len() {
        ls.len() as int
    } else if is_top_level_key(ls[i]) {
        i
    } else {
        top_level_from(ls, i + 1)
    }
}

/// The lines of the `proxy-providers:` section: from the line after its
/// header up to the next top-level key.
pub open spec fn section_of(ls: Seq<Seq<char>>) -> Option<(int, int)> {
    let h = header_from(ls, 0);
    if h >= ls.len() {
        None
    } else {
        Some((h + 1, top_level_from(ls, h + 1)))
    }
}

/// The least indentation of the non-blank, non-comment, indented lines of
/// `ls[i..end]`.
pub open spec fn min_indent_from(ls: Seq<Seq<char>>, i: int, end: int) -> Option<int>
    decreases end - i,
{
    if i >= end {
        None
    } else {
        let rest = min_indent_from(ls, i + 1, end);
        let l = ls[i];
        if !is_blank_or_comment(l) && indent_of(l) > 0 {
            match rest {
                None => Some(indent_of(l)),
                Some(m) => Some(if indent_of(l) <= m { indent_of(l) } else { m }),
            }
        } else {
            rest
        }
    }
}

/// The indentation of the provider keys of the section `ls[a..b]`.
pub open spec fn base_indent(ls: Seq<Seq<char>>, a: int, b: int) -> int {
    match min_indent_from(ls, a, b) {
        Some(m) => m,
        None => 2,
    }
}

pub open spec fn is_block_key(ls: Seq<Seq<char>>, base: int, i: int) -> bool {
    provider_key(ls[i]) matches Some((ind, _)) && ind == base
}

/// The provider key lines of `ls[i..end]`, in order.
pub open spec fn block_keys_from(ls: Seq<Seq<char>>, base: int, i: int, end: int) -> Seq<int>
    decreases end - i,
{
    if i >= end {
        seq![]
    } else if is_block_key(ls, base, i) {
        seq![i] + block_keys_from(ls, base, i + 1, end)
    } else {
        block_keys_from(ls, base, i + 1, end)
    }
}

/// The provider blocks of the section `ls[a..b]`: each starts at a key line
/// with the section's key indentation and ends at the next one, the last at
/// the section's end.
pub open spec fn blocks_of(ls: Seq<Seq<char>>, a: int, b: int) -> Seq<BlockModel> {
    let base = base_indent(ls, a, b);
    let keys = block_keys_from(ls, base, a, b);
    Seq::new(
        keys.len(),
        |j: int|
            BlockModel {
                name: provider_key(ls[keys[j]]).unwrap().1,
                key_line: keys[j],
                end: if j + 1 < keys.len() {
                    keys[j + 1]
                } else {
                    b
                },
                indent: base,
            },
    )
}

/// The index of the first block named `name`, or the number of blocks.
pub open spec fn first_named(bs: Seq<BlockModel>, name: Seq<char>) -> int
    decreases bs.len(),
{
    if bs.len() == 0 {
        0
    } else if first_named(bs.drop_last(), name) < bs.len() - 1 {
        first_named(bs.drop_last(), name)
    } else if bs.last().name == name {
        bs.len() - 1
    } else {
        bs.len() as int
    }
}

// ---------------------------------------------------------------------------
// Rendering
// ---------------------------------------------------------------------------

/// `c` as it stands inside a double-quoted YAML string.
pub open spec fn escape_char(c: char) -> Seq<char> {
    if c == '\\' {
        seq!['\\', '\\']
    } else if c == '"' {
        seq!['\\', '"']
    } else {
        seq![c]
    }
}

pub open spec fn escape_all(s: Seq<char>) -> Seq<char>
    decreases s.len(),
{
    if s.len() == 0 {
        seq![]
    } else {
        escape_all(s.drop_last()) + escape_char(s.last())
    }
}

/// `s` as a double-quoted YAML string.
pub open spec fn yaml_quoted(s: Seq<char>) -> Seq<char> {
    seq!['"'] + escape_all(s) + seq!['"']
}

pub open spec fn spaces(n: int) -> Seq<char> {
    Seq::new(if n >= 0 { n as nat } else { 0 }, |i: int| ' ')
}

/// A `url:` line indented by `n`.
pub open spec fn url_line(n: int, url: Seq<char>) -> Seq<char> {
    spaces(n) + "url: "@ + yaml_quoted(url)
}

/// The lines of a provider block after an update: the key renamed, the
/// provider's own `url:` lines (nested no deeper than its settings) replaced
/// by the new one, indented two deeper than the key, and such a line added
/// at the end when the block had none. The `url:` lines of nested mappings
/// stay as they are.
pub open spec fn updated_block(ls: Seq<Seq<char>>, b: BlockModel, next: Seq<char>, url: Seq<char>) -> Seq<Seq<char>> {
    let ci = child_indent(ls, b);
    let repl = url_line(b.indent + 2, url);
    let inner = Seq::new(
        (b.end - b.key_line - 1) as nat,
        |k: int|
            if is_own_url_line(ls[b.key_line + 1 + k], b.indent, ci) {
                repl
            } else {
                ls[b.key_line + 1 + k]
            },
    );
    let has_url = exists|k: int| b.key_line < k < b.end && is_own_url_line(ls[k], b.indent, ci);
    seq![spaces(b.indent) + next + seq![':']] + inner + if has_url {
        seq![]
    } else {
        seq![repl]
    }
}

/// The config lines with block `b` updated.
pub open spec fn update_lines(ls: Seq<Seq<char>>, b: BlockModel, next: Seq<char>, url: Seq<char>) -> Seq<Seq<char>> {
    ls.subrange(0, b.key_line) + updated_block(ls, b, next, url) + ls.subrange(b.end, ls.len() as int)
}

/// The block inserted for a provider that did not exist: the serialised
/// template without document markers, indented under the section, or a
/// block that merges the `p` anchor.
pub open spec fn new_block(name: Seq<char>, url: Seq<char>, rendered: Option<Seq<char>>) -> Seq<Seq<char>> {
    match rendered {
        None => seq!["  "@ + name + seq![':'], "    <<: *p"@, "    url: "@ + yaml_quoted(url)],
        Some(text) => lines_of(text).filter(|l: Seq<char>| !starts_with(l, "---"@)).map_values(
            |l: Seq<char>| "  "@ + l,
        ),
    }
}

/// The config text without the block of the first provider named `name`.
pub open spec fn remove_provider_spec(content: Seq<char>, name: Seq<char>) -> Result<Seq<char>, MihomoError> {
    let ls = lines_of(content);
    match section_of(ls) {
        None => Err(MihomoError::MissingSection),
        Some((a, b)) => {
            let bs = blocks_of(ls, a, b);
            let k = first_named(bs, name);
            if k < bs.len() {
                Ok(
                    finish_lines_spec(
                        ls.subrange(0, bs[k].key_line) + ls.subrange(bs[k].end, ls.len() as int),
                    ),
                )
            } else {
                Ok(content)
            }
        },
    }
}

// ---------------------------------------------------------------------------
// Lemmas
// ---------------------------------------------------------------------------

proof fn lemma_header_from(ls: Seq<Seq<char>>, i: int)
    requires
        0 <= i <= ls.len(),
    ensures
        i <= header_from(ls, i) <= ls.len(),
        header_from(ls, i) < ls.len() ==> is_section_header(ls[header_from(ls, i)]),
        forall|k: int| i <= k < header_from(ls, i) ==> !is_section_header(ls[k]),
    decreases ls.len() - i,
{
    if i < ls.len() && !is_section_header(ls[i]) {
        lemma_header_from(ls, i + 1);
    }
}

proof fn lemma_top_level_from(ls: Seq<Seq<char>>, i: int)
    requires
        0 <= i <= ls.len(),
    ensures
        i <= top_level_from(ls, i) <= ls.len(),
        forall|k: int| i <= k < top_level_from(ls, i) ==> !is_top_level_key(ls[k]),
    decreases ls.len() - i,
{
    if i < ls.len() && !is_top_level_key(ls[i]) {
        lemma_top_level_from(ls, i + 1);
    }
}

pub(crate) proof fn lemma_block_keys(ls: Seq<Seq<char>>, base: int, i: int, end: int)
    requires
        0 <= i,
    ensures
        forall|j: int|
            0 <= j < block_keys_from(ls, base, i, end).len() ==> i <= #[trigger] block_keys_from(
                ls,
                base,
                i,
                end,
            )[j] < end && is_block_key(ls, base, block_keys_from(ls, base, i, end)[j]),
        forall|j1: int, j2: int|
            0 <= j1 < j2 < block_keys_from(ls, base, i, end).len() ==> block_keys_from(
                ls,
                base,
                i,
                end,
            )[j1] < block_keys_from(ls, base, i, end)[j2],
    decreases end - i,
{
    if i < end {
        lemma_block_keys(ls, base, i + 1, end);
        let r = block_keys_from(ls, base, i + 1, end);
        if is_block_key(ls, base, i) {
            let s = seq![i] + r;
            assert(block_keys_from(ls, base, i, end) == s);
            assert forall|j: int| 0 <= j < s.len() implies i <= #[trigger] s[j] < end
                && is_block_key(ls, base, s[j]) by {
                if j > 0 {
                    assert(s[j] == r[j - 1]);
                }
            }
            assert forall|j1: int, j2: int| 0 <= j1 < j2 < s.len() implies s[j1] < s[j2] by {
                assert(s[j2] == r[j2 - 1]);
                if j1 > 0 {
                    assert(s[j1] == r[j1 - 1]);
                }
            }
        }
    }
}

pub(crate) proof fn lemma_first_named(bs: Seq<BlockModel>, name: Seq<char>)
    ensures
        0 <= first_named(bs, name) <= bs.len(),
        first_named(bs, name) < bs.len() ==> bs[first_named(bs, name)].name == name,
        forall|j: int| 0 <= j < first_named(bs, name) ==> bs[j].name != name,
    decreases bs.len(),
{
    if bs.len() > 0 {
        lemma_first_named(bs.drop_last(), name);
        assert forall|j: int| 0 <= j < first_named(bs, name) implies bs[j].name != name by {
            if j < bs.len() - 1 {
                assert(bs[j] == bs.drop_last()[j]);
            }
        }
    }
}

// ---------------------------------------------------------------------------
// Executable code
// ---------------------------------------------------------------------------

/// The number of spaces and tabs that start `line`.
pub fn indentation(line: &Vec<char>) -> (n: usize)
    ensures
        n == indent_of(line@),
        n <= line@.len(),
{
    let mut i: usize = 0;
    assert(line@.subrange(0, line@.len() as int) =~= line@);
    while i < line.len() && (line[i] == ' ' || line[i] == '\t')
        invariant
            i <= line@.len(),
            indent_of(line@) == i + indent_of(line@.subrange(i as int, line@.len() as int)),
        decreases line.len() - i,
    {
        let ghost t = line@.subrange(i as int, line@.len() as int);
        assert(t.subrange(1, t.len() as int) =~= line@.subrange(i + 1, line@.len() as int));
        i = i + 1;
    }
    i
}

/// Whether `line` is a key of the YAML root.
pub fn is_top_level_key_line(line: &Vec<char>) -> (r: bool)
    ensures
        r == is_top_level_key(line@),
{
    if line.len() == 0 {
        return false;
    }
    let c = line[0];
    if c == ' ' || c == '\t' || c == '#' {
        return false;
    }
    line[line.len() - 1] == ':'
}

fn blank_or_comment(line: &Vec<char>) -> (r: bool)
    ensures
        r == is_blank_or_comment(line@),
{
    let t = trimmed(line);
    if t.len() == 0 {
        return true;
    }
    let s = trimmed_start(line);
    assert(s@.len() >= t@.len()) by {
        lemma_trim_end_shorter(s@);
    }
    let r = s[0] == '#';
    assert(r == starts_with(s@, seq!['#'])) by {
        if r {
            assert(s@.subrange(0, 1) =~= seq!['#']);
        } else {
            assert(s@.subrange(0, 1)[0] != seq!['#'][0]);
        }
    }
    r
}

proof fn lemma_trim_end_shorter(s: Seq<char>)
    ensures
        trim_end(s).len() <= s.len(),
    decreases s.len(),
{
    if s.len() > 0 && is_ws(s.last()) {
        lemma_trim_end_shorter(s.drop_last());
    }
}

fn ends_with_colon(s: &Vec<char>) -> (r: bool)
    ensures
        r == ends_with(s@, seq![':']),
{
    if s.len() == 0 {
        return false;
    }
    let r = s[s.len() - 1] == ':';
    assert(r == ends_with(s@, seq![':'])) by {
        let t = s@.subrange(s@.len() - 1, s@.len() as int);
        if r {
            assert(t =~= seq![':']);
        } else {
            assert(t[0] != seq![':'][0]);
        }
    }
    r
}

/// The indentation and name of a provider key line.
fn provider_key_of(line: &Vec<char>) -> (r: Option<(usize, Vec<char>)>)
    ensures
        match r {
            Some((n, name)) => provider_key(line@) == Some((n as int, name@)),
            None => provider_key(line@) is None,
        },
{
    if blank_or_comment(line) {
        return None;
    }
    let indent = indentation(line);
    if indent == 0 {
        return None;
    }
    let te = trimmed_end(line);
    if !ends_with_colon(&te) {
        return None;
    }
    let t = trimmed(&te);
    if !ends_with_colon(&t) {
        return None;
    }
    let stem = slice_chars(&t, 0, t.len() - 1);
    assert(stem@ =~= t@.drop_last());
    let name = trimmed(&stem);
    if name.len() == 0 || has_char(&name, ' ') {
        return None;
    }
    Some((indent, name))
}

/// The indentation and name of a provider key line such as `  name:`.
pub fn parse_provider_key_line(line: &str) -> (r: Option<(usize, String)>)
    ensures
        match r {
            Some((n, name)) => provider_key(line@) == Some((n as int, name@)),
            None => provider_key(line@) is None,
        },
{
    let cs = chars_of(line);
    match provider_key_of(&cs) {
        Some((n, name)) => Some((n, string_from_chars(&name))),
        None => None,
    }
}

fn url_prefix() -> (r: Vec<char>)
    ensures
        r@ == "url:"@,
{
    chars_of("url:")
}

/// The indentation of a `url:` line.
pub fn url_indent_of(line: &Vec<char>) -> (r: Option<usize>)
    ensures
        match r {
            Some(n) => url_line_indent(line@) == Some(n as int),
            None => url_line_indent(line@) is None,
        },
{
    let s = trimmed_start(line);
    if has_prefix(&s, &url_prefix()) {
        Some(indentation(line))
    } else {
        None
    }
}

fn header_text() -> (r: Vec<char>)
    ensures
        r@ == "proxy-providers:"@,
{
    chars_of("proxy-providers:")
}

/// The lines of the `proxy-providers:` section, as `(first, end)`.
pub fn find_proxy_providers_section(lines: &Vec<Vec<char>>) -> (r: Result<(usize, usize), MihomoError>)
    ensures
        match r {
            Ok((a, b)) => section_of(views(lines@)) == Some((a as int, b as int)),
            Err(e) => section_of(views(lines@)) is None && e == MihomoError::MissingSection,
        },
{
    let ghost ls = views(lines@);
    let header = header_text();
    let mut i: usize = 0;
    while i < lines.len()
        invariant
            i <= lines@.len(),
            ls == views(lines@),
            header@ == "proxy-providers:"@,
            header_from(ls, 0) == header_from(ls, i as int),
        ensures
            i < lines@.len() ==> is_section_header(ls[i as int]),
        decreases lines.len() - i,
    {
        let t = trimmed(&lines[i]);
        if chars_eq(&t, &header) {
            break;
        }
        i = i + 1;
    }
    if i >= lines.len() {
        return Err(MihomoError::MissingSection);
    }
    let start = i;
    assert(header_from(ls, 0) == start);
    let mut j = start + 1;
    while j < lines.len()
        invariant
            start < lines@.len(),
            start + 1 <= j <= lines@.len(),
            ls == views(lines@),
            top_level_from(ls, start + 1) == top_level_from(ls, j as int),
        ensures
            j < lines@.len() ==> is_top_level_key(ls[j as int]),
        decreases lines.len() - j,
    {
        if is_top_level_key_line(&lines[j]) {
            break;
        }
        j = j + 1;
    }
    Ok((start + 1, j))
}

/// The indentation of the provider keys of the section `lines[a..b]`.
fn section_base_indent(lines: &Vec<Vec<char>>, a: usize, b: usize) -> (r: usize)
    requires
        a <= b <= lines@.len(),
    ensures
        r == base_indent(views(lines@), a as int, b as int),
{
    let ghost ls = views(lines@);
    let mut best: Option<usize> = None;
    let mut i = a;
    while i < b
        invariant
            a <= i <= b <= lines@.len(),
            ls == views(lines@),
            min_indent_from(ls, a as int, b as int) == match best {
                None => min_indent_from(ls, i as int, b as int),
                Some(m) => match min_indent_from(ls, i as int, b as int) {
                    None => Some(m as int),
                    Some(r) => Some(if m <= r { m as int } else { r }),
                },
            },
        decreases b - i,
    {
        let line = &lines[i];
        if !blank_or_comment(line) {
            let n = indentation(line);
            if n > 0 {
                best = match best {
                    None => Some(n),
                    Some(m) => Some(if n <= m { n } else { m }),
                };
            }
        }
        i = i + 1;
    }
    match best {
        None => 2,
        Some(m) => m,
    }
}

/// The provider blocks of the section `lines[section]`.
pub fn parse_provider_blocks(lines: &Vec<Vec<char>>, section: std::ops::Range<usize>) -> (r: Result<Vec<ProviderBlock>, MihomoError>)
    requires
        section.start <= section.end <= lines@.len(),
    ensures
        r matches Ok(bs) && block_models(bs@) == blocks_of(views(lines@), section.start as int, section.end as int),
{
    let a = section.start;
    let b = section.end;
    let ghost ls = views(lines@);
    let base = section_base_indent(lines, a, b);
    let ghost keys = block_keys_from(ls, base as int, a as int, b as int);
    let mut out: Vec<ProviderBlock> = Vec::new();
    let mut pending: Option<ProviderBlock> = None;
    let ghost mut ks: Seq<int> = seq![];
    let mut i = a;
    proof {
        lemma_block_keys(ls, base as int, a as int, b as int);
    }
    while i < b
        invariant
            a <= i <= b <= lines@.len(),
            ls == views(lines@),
            base == base_indent(ls, a as int, b as int),
            keys == block_keys_from(ls, base as int, a as int, b as int),
            keys == ks + block_keys_from(ls, base as int, i as int, b as int),
            ks.len() == out@.len() + if pending is Some { 1int } else { 0 },
            forall|j: int| 0 <= j < ks.len() ==> a <= #[trigger] ks[j] < i,
            forall|j: int|
                0 <= j < out@.len() ==> (#[trigger] out@[j]).model() == (BlockModel {
                    name: provider_key(ls[ks[j]]).unwrap().1,
                    key_line: ks[j],
                    end: ks[j + 1],
                    indent: base as int,
                }),
            pending matches Some(p) ==> p.model() == (BlockModel {
                name: provider_key(ls[ks.last()]).unwrap().1,
                key_line: ks.last(),
                end: b as int,
                indent: base as int,
            }),
            pending is None ==> ks.len() == 0,
        decreases b - i,
    {
        proof {
            lemma_block_keys(ls, base as int, i as int, b as int);
        }
        match provider_key_of(&lines[i]) {
            Some((indent, name)) => {
                if indent == base {
                    assert(is_block_key(ls, base as int, i as int));
                    assert(block_keys_from(ls, base as int, i as int, b as int) =~= seq![i as int]
                        + block_keys_from(ls, base as int, i + 1, b as int));
                    let ghost old_ks = ks;
                    let ghost old_out = out@;
                    match pending {
                        Some(mut p) => {
                            p.end = i;
                            out.push(p);
                        },
                        None => {},
                    }
                    let nm = string_from_chars(&name);
                    pending = Some(ProviderBlock { name: nm, key_line: i, end: b, indent });
                    proof {
                        ks = ks.push(i as int);
                        assert(keys =~= ks + block_keys_from(ls, base as int, i + 1, b as int));
                        assert forall|j: int| 0 <= j < out@.len() implies (#[trigger] out@[j]).model()
                            == (BlockModel {
                            name: provider_key(ls[ks[j]]).unwrap().1,
                            key_line: ks[j],
                            end: ks[j + 1],
                            indent: base as int,
                        }) by {
                            if j < old_out.len() {
                                assert(out@[j] == old_out[j]);
                                assert(ks[j] == old_ks[j]);
                                assert(ks[j + 1] == old_ks[j + 1]);
                            } else {
                                assert(ks[j] == old_ks.last());
                            }
                        }
                    }
                } else {
                    assert(!is_block_key(ls, base as int, i as int));
                }
            },
            None => {
                assert(!is_block_key(ls, base as int, i as int));
            },
        }
        i = i + 1;
    }
    let ghost old_out = out@;
    match pending {
        Some(p) => {
            out.push(p);
        },
        None => {},
    }
    proof {
        assert(block_keys_from(ls, base as int, b as int, b as int) =~= seq![]);
        assert(keys =~= ks);
        let bm = blocks_of(ls, a as int, b as int);
        assert(block_models(out@).len() == bm.len());
        assert forall|j: int| 0 <= j < bm.len() implies block_models(out@)[j] == bm[j] by {
            if j < old_out.len() {
                assert(out@[j] == old_out[j]);
            }
        }
        assert(block_models(out@) =~= bm);
    }
    Ok(out)
}

fn find_named(bs: &Vec<ProviderBlock>, name: &String) -> (r: usize)
    ensures
        r == first_named(block_models(bs@), name@),
{
    let ghost bm = block_models(bs@);
    let mut i: usize = 0;
    proof {
        lemma_first_named(bm, name@);
    }
    while i < bs.len()
        invariant
            i <= bs@.len(),
            bm == block_models(bs@),
            forall|j: int| 0 <= j < i ==> bm[j].name != name@,
            0 <= first_named(bm, name@) <= bm.len(),
            first_named(bm, name@) < bm.len() ==> bm[first_named(bm, name@)].name == name@,
            forall|j: int| 0 <= j < first_named(bm, name@) ==> bm[j].name != name@,
        decreases bs.len() - i,
    {
        if bs[i].name == *name {
            assert(bm[i as int].name == name@);
            return i;
        }
        i = i + 1;
    }
    i
}

/// `value` as a double-quoted YAML string.
pub fn yaml_string(value: &Vec<char>) -> (r: Vec<char>)
    ensures
        r@ == yaml_quoted(value@),
{
    let mut out: Vec<char> = vec!['"'];
    let mut i: usize = 0;
    while i < value.len()
        invariant
            i <= value@.len(),
            out@ == seq!['"'] + escape_all(value@.subrange(0, i as int)),
        decreases value.len() - i,
    {
        let c = value[i];
        if c == '\\' {
            out.push('\\');
            out.push('\\');
        } else if c == '"' {
            out.push('\\');
            out.push('"');
        } else {
            out.push(c);
        }
        assert(value@.subrange(0, i + 1).drop_last() =~= value@.subrange(0, i as int));
        assert(out@ =~= seq!['"'] + escape_all(value@.subrange(0, i + 1)));
        i = i + 1;
    }
    out.push('"');
    assert(value@.subrange(0, value@.len() as int) =~= value@);
    assert(out@ =~= yaml_quoted(value@));
    out
}

fn spaces_vec(n: usize) -> (r: Vec<char>)
    ensures
        r@ == spaces(n as int),
{
    let mut out: Vec<char> = Vec::new();
    let mut i: usize = 0;
    while i < n
        invariant
            i <= n,
            out@ == spaces(i as int),
        decreases n - i,
    {
        out.push(' ');
        i = i + 1;
        assert(out@ =~= spaces(i as int));
    }
    out
}

/// The child indentation that `child_indent_of` reports, as a number.
pub open spec fn ci_value(indent: int, ci: Option<usize>) -> int {
    match ci {
        Some(n) => n as int,
        None => indent + 2,
    }
}

/// The indentation of the first line nested under the key of block `b`;
/// none where no line is (the settings then go two deeper than the key).
fn child_indent_of(lines: &Vec<Vec<char>>, b: &ProviderBlock) -> (r: Option<usize>)
    requires
        b.key_line < b.end <= lines@.len(),
    ensures
        ci_value(b.indent as int, r) == child_indent(views(lines@), b.model()),
{
    let ghost ls = views(lines@);
    let ghost bm = b.model();
    let mut i = b.key_line + 1;
    while i < b.end
        invariant
            b.key_line < i <= b.end <= lines@.len(),
            ls == views(lines@),
            bm == b.model(),
            first_deeper_from(ls, bm, bm.key_line + 1) == first_deeper_from(ls, bm, i as int),
        decreases b.end - i,
    {
        assert(lines@[i as int]@ == ls[i as int]);
        let n = indentation(&lines[i]);
        if !blank_or_comment(&lines[i]) && n > b.indent {
            return Some(n);
        }
        i = i + 1;
    }
    None
}

/// Whether `line` is a provider's own `url:` line, its settings being
/// indented as `ci` reports.
fn is_own_url(line: &Vec<char>, indent: usize, ci: Option<usize>) -> (r: bool)
    ensures
        r == is_own_url_line(line@, indent as int, ci_value(indent as int, ci)),
{
    match url_indent_of(line) {
        None => false,
        Some(ui) => ui > indent && match ci {
            Some(n) => ui <= n,
            None => ui < 2 || ui - 2 <= indent,
        },
    }
}

/// The `url:` line written for a provider whose key is indented by
/// `indent`: two deeper than the key.
fn url_line_exec(indent: usize, url: &Vec<char>) -> (r: Vec<char>)
    ensures
        r@ == url_line(indent + 2, url@),
{
    let mut out = spaces_vec(indent);
    out.push(' ');
    out.push(' ');
    assert(out@ =~= spaces(indent + 2));
    push_all(&mut out, &chars_of("url: "));
    push_all(&mut out, &yaml_string(url));
    out
}

fn copy_line(l: &Vec<char>) -> (r: Vec<char>)
    ensures
        r@ == l@,
{
    let r = slice_chars(l, 0, l.len());
    assert(l@.subrange(0, l@.len() as int) =~= l@);
    r
}

/// The config lines with provider `b` renamed to `next_name` and its url set.
fn update_provider_block(
    lines: &Vec<Vec<char>>,
    providers: &Vec<ProviderBlock>,
    b: &ProviderBlock,
    next_name: &Vec<char>,
    url: &Vec<char>,
) -> (r: Result<String, MihomoError>)
    requires
        b.key_line < b.end <= lines@.len(),
    ensures
        match r {
            Ok(text) => {
                &&& !(exists|j: int|
                    0 <= j < providers@.len() && providers@[j].name@ == next_name@
                        && providers@[j].name@ != b.name@)
                &&& text@ == finish_lines_spec(
                    update_lines(views(lines@), b.model(), next_name@, url@),
                )
            },
            Err(e) => {
                &&& e matches MihomoError::DuplicateName(n) && n@ == next_name@
                &&& exists|j: int|
                    0 <= j < providers@.len() && providers@[j].name@ == next_name@
                        && providers@[j].name@ != b.name@
            },
        },
{
    let ghost ls = views(lines@);
    let next_s = string_from_chars(next_name);
    let mut d: usize = 0;
    while d < providers.len()
        invariant
            d <= providers@.len(),
            next_s@ == next_name@,
            forall|j: int|
                0 <= j < d ==> !(providers@[j].name@ == next_name@ && providers@[j].name@
                    != b.name@),
        decreases providers.len() - d,
    {
        if providers[d].name == next_s && providers[d].name != b.name {
            return Err(MihomoError::DuplicateName(next_s));
        }
        d = d + 1;
    }
    let ci = child_indent_of(lines, b);
    let ghost civ = ci_value(b.indent as int, ci);
    let replacement = url_line_exec(b.indent, url);
    let mut out: Vec<Vec<char>> = Vec::new();
    let mut i: usize = 0;
    while i < b.key_line
        invariant
            i <= b.key_line < b.end <= lines@.len(),
            ls == views(lines@),
            views(out@) == ls.subrange(0, i as int),
        decreases b.key_line - i,
    {
        let ghost before = views(out@);
        out.push(copy_line(&lines[i]));
        assert(views(out@) =~= before.push(ls[i as int]));
        assert(views(out@) =~= ls.subrange(0, i + 1));
        i = i + 1;
    }
    let mut key = spaces_vec(b.indent);
    push_all(&mut key, next_name);
    key.push(':');
    let ghost before = views(out@);
    let ghost kv = key@;
    assert(kv =~= spaces(b.indent as int) + next_name@ + seq![':']);
    out.push(key);
    assert(views(out@) =~= before.push(kv));
    let ghost head = ls.subrange(0, b.key_line as int) + seq![spaces(b.indent as int) + next_name@ + seq![':']];
    assert(views(out@) =~= head);
    let ghost blk = b.model();
    let ghost repl = url_line(b.indent + 2, url@);
    let ghost inner = Seq::new(
        (blk.end - blk.key_line - 1) as nat,
        |k: int|
            if is_own_url_line(ls[blk.key_line + 1 + k], blk.indent, civ) {
                repl
            } else {
                ls[blk.key_line + 1 + k]
            },
    );
    let mut inserted_url = false;
    i = b.key_line + 1;
    while i < b.end
        invariant
            b.key_line < i <= b.end <= lines@.len(),
            ls == views(lines@),
            blk == b.model(),
            replacement@ == repl,
            civ == child_indent(ls, blk),
            civ == ci_value(b.indent as int, ci),
            repl == url_line(b.indent + 2, url@),
            inner.len() == b.end - b.key_line - 1,
            forall|k: int|
                0 <= k < inner.len() ==> #[trigger] inner[k] == if is_own_url_line(
                    ls[b.key_line + 1 + k],
                    b.indent as int,
                    civ,
                ) {
                    repl
                } else {
                    ls[b.key_line + 1 + k]
                },
            views(out@) == head + inner.subrange(0, i - b.key_line - 1),
            inserted_url ==> exists|k: int| b.key_line < k < i && is_own_url_line(ls[k], b.indent as int, civ),
            !inserted_url ==> forall|k: int| b.key_line < k < i ==> !is_own_url_line(ls[k], b.indent as int, civ),
        decreases b.end - i,
    {
        let ghost before = views(out@);
        let line = &lines[i];
        assert(lines@[i as int]@ == ls[i as int]);
        let is_url = is_own_url(line, b.indent, ci);
        assert(is_url == is_own_url_line(ls[i as int], b.indent as int, civ));
        let ghost idx = i - b.key_line - 1;
        assert(0 <= idx < inner.len());
        assert(inner[idx] == if is_url { repl } else { ls[i as int] });
        let pushed = if is_url {
            inserted_url = true;
            copy_line(&replacement)
        } else {
            copy_line(line)
        };
        assert(pushed@ == inner[idx]);
        out.push(pushed);
        assert(views(out@) =~= before.push(inner[i - b.key_line - 1]));
        assert(views(out@) =~= head + inner.subrange(0, i + 1 - b.key_line - 1));
        i = i + 1;
    }
    assert(inner.subrange(0, b.end - b.key_line - 1) =~= inner);
    let ghost before = views(out@);
    if !inserted_url {
        out.push(copy_line(&replacement));
        assert(views(out@) =~= before.push(repl));
    }
    assert(views(out@) =~= ls.subrange(0, b.key_line as int) + updated_block(ls, blk, next_name@, url@));
    let ghost mid = views(out@);
    while i < lines.len()
        invariant
            b.end <= i <= lines@.len(),
            ls == views(lines@),
            views(out@) == mid + ls.subrange(b.end as int, i as int),
        decreases lines.len() - i,
    {
        let ghost before = views(out@);
        out.push(copy_line(&lines[i]));
        assert(views(out@) =~= before.push(ls[i as int]));
        assert(views(out@) =~= mid + ls.subrange(b.end as int, i + 1));
        i = i + 1;
    }
    assert(views(out@) =~= update_lines(ls, blk, next_name@, url@));
    Ok(finish_lines(&out))
}

/// The view of a template handed to `set_provider_in_text`: none where the
/// config is not YAML, else the serialised provider, if any.
pub open spec fn template_model(t: ProviderTemplate) -> Option<Option<Seq<char>>> {
    match t {
        ProviderTemplate::Unreadable => None,
        ProviderTemplate::Absent => Some(None),
        ProviderTemplate::Rendered(s) => Some(Some(s@)),
    }
}

/// Whether some block other than one named `own` is named `next`.
pub open spec fn name_taken(bs: Seq<BlockModel>, next: Seq<char>, own: Seq<char>) -> bool {
    exists|j: int| 0 <= j < bs.len() && bs[j].name == next && bs[j].name != own
}

/// What `set_provider_in_text` returns for the config text `content`.
pub open spec fn set_provider_result(
    content: Seq<char>,
    current: Seq<char>,
    next: Seq<char>,
    url: Seq<char>,
    template: Option<Option<Seq<char>>>,
    r: Result<String, MihomoError>,
) -> bool {
    let ls = lines_of(content);
    match section_of(ls) {
        None => r == Err::<String, MihomoError>(MihomoError::MissingSection),
        Some((a, b)) => {
            let bs = blocks_of(ls, a, b);
            let k = first_named(bs, current);
            if k < bs.len() {
                if name_taken(bs, next, bs[k].name) {
                    r matches Err(MihomoError::DuplicateName(n)) && n@ == next
                } else {
                    r matches Ok(t) && t@ == finish_lines_spec(update_lines(ls, bs[k], next, url))
                }
            } else {
                match template {
                    None => r == Err::<String, MihomoError>(MihomoError::ConfigNotYaml),
                    Some(t) => r matches Ok(out) && out@ == finish_lines_spec(
                        ls.subrange(0, b) + new_block(next, url, t) + ls.subrange(b, ls.len() as int),
                    ),
                }
            }
        },
    }
}

proof fn lemma_blocks_shape(ls: Seq<Seq<char>>, a: int, b: int)
    requires
        0 <= a <= b <= ls.len(),
    ensures
        forall|j: int|
            0 <= j < blocks_of(ls, a, b).len() ==> a <= #[trigger] blocks_of(ls, a, b)[j].key_line
                < blocks_of(ls, a, b)[j].end <= b,
{
    let base = base_indent(ls, a, b);
    let keys = block_keys_from(ls, base, a, b);
    lemma_block_keys(ls, base, a, b);
    let bs = blocks_of(ls, a, b);
    assert forall|j: int| 0 <= j < bs.len() implies a <= #[trigger] bs[j].key_line < bs[j].end <= b by {
        assert(bs[j].key_line == keys[j]);
        if j + 1 < keys.len() {
            assert(keys[j] < keys[j + 1]);
        }
    }
}

/// The provider lines that a template yields: its serialisation without
/// `---` markers, each line indented by two spaces.
fn frame_template(text: &String) -> (r: Vec<Vec<char>>)
    ensures
        views(r@) == lines_of(text@).filter(|l: Seq<char>| !starts_with(l, "---"@)).map_values(
            |l: Seq<char>| "  "@ + l,
        ),
{
    let lines = split_lines(&chars_of(text.as_str()));
    let ghost ls = views(lines@);
    let ghost p = |l: Seq<char>| !starts_with(l, "---"@);
    let ghost f = |l: Seq<char>| "  "@ + l;
    let marker = chars_of("---");
    let indent = chars_of("  ");
    let mut out: Vec<Vec<char>> = Vec::new();
    let mut i: usize = 0;
    while i < lines.len()
        invariant
            i <= lines@.len(),
            ls == views(lines@),
            ls == lines_of(text@),
            marker@ == "---"@,
            indent@ == "  "@,
            p == (|l: Seq<char>| !starts_with(l, "---"@)),
            f == (|l: Seq<char>| "  "@ + l),
            views(out@) == ls.take(i as int).filter(p).map_values(f),
        decreases lines.len() - i,
    {
        let ghost before = views(out@);
        assert(ls.take(i + 1) =~= ls.take(i as int).push(ls[i as int]));
        proof {
            ls.take(i as int).lemma_filter_push(ls[i as int], p);
        }
        if !has_prefix(&lines[i], &marker) {
            let l = crate::text::concat(&indent, &lines[i]);
            out.push(l);
            assert(views(out@) =~= before.push(f(ls[i as int])));
            assert(ls.take(i as int).filter(p).push(ls[i as int]).map_values(f) =~= ls.take(i as int).filter(p).map_values(f).push(f(ls[i as int])));
        }
        i = i + 1;
    }
    assert(ls.take(ls.len() as int) =~= ls);
    out
}

fn render_provider_block(name: &Vec<char>, url: &Vec<char>, template: &ProviderTemplate) -> (r: Vec<Vec<char>>)
    requires
        !(template is Unreadable),
    ensures
        views(r@) == new_block(name@, url@, template_model(*template).unwrap()),
{
    match template {
        ProviderTemplate::Rendered(text) => frame_template(text),
        _ => {
            let mut first = chars_of("  ");
            push_all(&mut first, name);
            first.push(':');
            let second = chars_of("    <<: *p");
            let mut third = chars_of("    url: ");
            push_all(&mut third, &yaml_string(url));
            let ghost v1 = first@;
            let ghost v2 = second@;
            let ghost v3 = third@;
            let mut out: Vec<Vec<char>> = Vec::new();
            out.push(first);
            out.push(second);
            out.push(third);
            assert(v1 =~= "  "@ + name@ + seq![':']);
            assert(views(out@) =~= seq![v1, v2, v3]);
            out
        },
    }
}

/// Sets the url of the provider named `current_name` and renames it to
/// `next_name`, or, when no provider has that name, adds a provider block at
/// the end of the `proxy-providers:` section.
pub fn set_provider_in_text(
    content: &str,
    current_name: &str,
    next_name: &str,
    url: &str,
    template: &ProviderTemplate,
) -> (r: Result<String, MihomoError>)
    ensures
        set_provider_result(content@, current_name@, next_name@, url@, template_model(*template), r),
{
    let text = chars_of(content);
    let lines = split_lines(&text);
    let ghost ls = views(lines@);
    let (a, b) = match find_proxy_providers_section(&lines) {
        Ok(range) => range,
        Err(e) => {
            return Err(e);
        },
    };
    proof {
        lemma_header_from(ls, 0);
        lemma_top_level_from(ls, a as int);
    }
    let providers = match parse_provider_blocks(&lines, a..b) {
        Ok(ps) => ps,
        Err(e) => {
            return Err(e);
        },
    };
    let ghost bs = blocks_of(ls, a as int, b as int);
    proof {
        lemma_blocks_shape(ls, a as int, b as int);
    }
    let cur_s = string_from_chars(&chars_of(current_name));
    let next_chars = chars_of(next_name);
    let url_chars = chars_of(url);
    let k = find_named(&providers, &cur_s);
    if k < providers.len() {
        let blk = &providers[k];
        assert(bs[k as int] == blk.model());
        assert(bs[k as int].key_line < bs[k as int].end);
        let r = update_provider_block(&lines, &providers, blk, &next_chars, &url_chars);
        proof {
            if r is Ok {
                assert(!name_taken(bs, next_name@, bs[k as int].name)) by {
                    if name_taken(bs, next_name@, bs[k as int].name) {
                        let j = choose|j: int| 0 <= j < bs.len() && bs[j].name == next_name@ && bs[j].name != bs[k as int].name;
                        assert(providers@[j].model() == bs[j]);
                    }
                }
            } else {
                let j = choose|j: int|
                    0 <= j < providers@.len() && providers@[j].name@ == next_chars@ && providers@[j].name@ != blk.name@;
                assert(bs[j] == providers@[j].model());
            }
        }
        r
    } else {
        match template {
            ProviderTemplate::Unreadable => Err(MihomoError::ConfigNotYaml),
            _ => {
                Ok(insert_provider_block(&lines, b, &next_chars, &url_chars, template))
            },
        }
    }
}

/// The text with the block of a new provider put in at line `at`, the end
/// of the providers section.
fn insert_provider_block(
    lines: &Vec<Vec<char>>,
    at: usize,
    name: &Vec<char>,
    url: &Vec<char>,
    template: &ProviderTemplate,
) -> (r: String)
    requires
        at <= lines@.len(),
        !(template is Unreadable),
    ensures
        r@ == finish_lines_spec(
            views(lines@).subrange(0, at as int) + new_block(name@, url@, template_model(*template).unwrap())
                + views(lines@).subrange(at as int, lines@.len() as int),
        ),
{
    let ghost ls = views(lines@);
    let b = at;
    let block = render_provider_block(name, url, template);
    let ghost blk = views(block@);
    let mut out: Vec<Vec<char>> = Vec::new();
    let mut i: usize = 0;
    while i < b
        invariant
            i <= b <= lines@.len(),
            ls == views(lines@),
            views(out@) == ls.subrange(0, i as int),
        decreases b - i,
    {
        let ghost before = views(out@);
        out.push(copy_line(&lines[i]));
        assert(views(out@) =~= before.push(ls[i as int]));
        assert(views(out@) =~= ls.subrange(0, i + 1));
        i = i + 1;
    }
    let mut j: usize = 0;
    while j < block.len()
        invariant
            j <= block@.len(),
            blk == views(block@),
            views(out@) == ls.subrange(0, b as int) + blk.take(j as int),
        decreases block.len() - j,
    {
        let ghost before = views(out@);
        out.push(copy_line(&block[j]));
        assert(views(out@) =~= before.push(blk[j as int]));
        assert(views(out@) =~= ls.subrange(0, b as int) + blk.take(j + 1));
        j = j + 1;
    }
    assert(blk.take(blk.len() as int) =~= blk);
    let ghost mid = views(out@);
    while i < lines.len()
        invariant
            b <= i <= lines@.len(),
            ls == views(lines@),
            views(out@) == mid + ls.subrange(b as int, i as int),
        decreases lines.len() - i,
    {
        let ghost before = views(out@);
        out.push(copy_line(&lines[i]));
        assert(views(out@) =~= before.push(ls[i as int]));
        assert(views(out@) =~= mid + ls.subrange(b as int, i + 1));
        i = i + 1;
    }
    finish_lines(&out)
}

/// Removes the block of the first provider named `name`; the text is
/// returned unchanged when no provider has that name.
pub fn remove_provider_from_text(content: &str, name: &str) -> (r: Result<String, MihomoError>)
    ensures
        match remove_provider_spec(content@, name@) {
            Ok(t) => r matches Ok(s) && s@ == t,
            Err(e) => r == Err::<String, MihomoError>(e),
        },
{
    let text = chars_of(content);
    let lines = split_lines(&text);
    let ghost ls = views(lines@);
    let (a, b) = match find_proxy_providers_section(&lines) {
        Ok(range) => range,
        Err(e) => {
            return Err(e);
        },
    };
    proof {
        lemma_header_from(ls, 0);
        lemma_top_level_from(ls, a as int);
    }
    let providers = match parse_provider_blocks(&lines, a..b) {
        Ok(ps) => ps,
        Err(e) => {
            return Err(e);
        },
    };
    let ghost bs = blocks_of(ls, a as int, b as int);
    proof {
        lemma_blocks_shape(ls, a as int, b as int);
    }
    let name_s = string_from_chars(&chars_of(name));
    let k = find_named(&providers, &name_s);
    if k >= providers.len() {
        return Ok(string_from_chars(&text));
    }
    let key_line = providers[k].key_line;
    let end = providers[k].end;
    assert(bs[k as int] == providers@[k as int].model());
    let mut out: Vec<Vec<char>> = Vec::new();
    let mut i: usize = 0;
    while i < key_line
        invariant
            i <= key_line < end <= lines@.len(),
            ls == views(lines@),
            views(out@) == ls.subrange(0, i as int),
        decreases key_line - i,
    {
        let ghost before = views(out@);
        out.push(copy_line(&lines[i]));
        assert(views(out@) =~= before.push(ls[i as int]));
        assert(views(out@) =~= ls.subrange(0, i + 1));
        i = i + 1;
    }
    let ghost mid = views(out@);
    i = end;
    while i < lines.len()
        invariant
            end <= i <= lines@.len(),
            ls == views(lines@),
            views(out@) == mid + ls.subrange(end as int, i as int),
        decreases lines.len() - i,
    {
        let ghost before = views(out@);
        out.push(copy_line(&lines[i]));
        assert(views(out@) =~= before.push(ls[i as int]));
        assert(views(out@) =~= mid + ls.subrange(end as int, i + 1));
        i = i + 1;
    }
    Ok(finish_lines(&out))
}

/// The text after `url:` on a `url:` line, trimmed.
pub open spec fn url_raw(l: Seq<char>) -> Seq<char> {
    if starts_with(trim(l), "url:"@) {
        trim(trim(l).skip(4))
    } else {
        seq![]
    }
}

/// The first line of block `b` from `i` on that is the provider's own
/// `url:` line, or the block's end.
pub open spec fn url_line_from(ls: Seq<Seq<char>>, b: BlockModel, i: int) -> int
    decreases b.end - i,
{
    if i >= b.end {
        b.end
    } else if is_own_url_line(ls[i], b.indent, child_indent(ls, b)) {
        i
    } else {
        url_line_from(ls, b, i + 1)
    }
}

/// The url of provider `b`: the YAML string on its first `url:` line, none
/// when it has no such line, an error when that value is not a string.
pub open spec fn provider_url(ls: Seq<Seq<char>>, b: BlockModel) -> Result<Option<Seq<char>>, ()> {
    let k = url_line_from(ls, b, b.key_line + 1);
    if k >= b.end {
        Ok(None)
    } else {
        match yaml_str_scalar(url_raw(ls[k])) {
            Some(u) => Ok(Some(u)),
            None => Err(()),
        }
    }
}

pub(crate) proof fn lemma_url_line_bounds(ls: Seq<Seq<char>>, b: BlockModel, i: int)
    requires
        i <= b.end,
    ensures
        i <= url_line_from(ls, b, i) <= b.end,
    decreases b.end - i,
{
    if i < b.end && !is_own_url_line(ls[i], b.indent, child_indent(ls, b)) {
        lemma_url_line_bounds(ls, b, i + 1);
    }
}

/// The providers of `bs` that have a url, in order, or the name of the
/// first one whose url is not a YAML string.
pub open spec fn listing(ls: Seq<Seq<char>>, bs: Seq<BlockModel>) -> Result<Seq<EntryModel>, Seq<char>>
    decreases bs.len(),
{
    if bs.len() == 0 {
        Ok(seq![])
    } else {
        match listing(ls, bs.drop_last()) {
            Err(n) => Err(n),
            Ok(es) => match provider_url(ls, bs.last()) {
                Err(_) => Err(bs.last().name),
                Ok(None) => Ok(es),
                Ok(Some(u)) => Ok(es.push(EntryModel { name: bs.last().name, url: u })),
            },
        }
    }
}

fn find_provider_url(lines: &Vec<Vec<char>>, b: &ProviderBlock) -> (r: Result<Option<String>, MihomoError>)
    requires
        b.key_line < b.end <= lines@.len(),
    ensures
        match provider_url(views(lines@), b.model()) {
            Ok(None) => r matches Ok(None),
            Ok(Some(u)) => r matches Ok(Some(s)) && s@ == u,
            Err(_) => r matches Err(MihomoError::UnreadableUrl(n)) && n@ == b.name@,
        },
{
    let ghost ls = views(lines@);
    let ghost bm = b.model();
    let ci = child_indent_of(lines, b);
    let mut i = b.key_line + 1;
    while i < b.end
        invariant
            b.key_line < i <= b.end <= lines@.len(),
            ls == views(lines@),
            bm == b.model(),
            ci_value(b.indent as int, ci) == child_indent(ls, bm),
            url_line_from(ls, bm, bm.key_line + 1) == url_line_from(ls, bm, i as int),
        decreases b.end - i,
    {
        let line = &lines[i];
        let deep = is_own_url(line, b.indent, ci);
        if deep {
            assert(url_line_from(ls, bm, i as int) == i);
            let t = trimmed(line);
            let prefix = url_prefix();
            proof {
                reveal_strlit("url:");
            }
            let raw = if has_prefix(&t, &prefix) {
                let rest = slice_chars(&t, 4, t.len());
                assert(rest@ =~= t@.skip(4));
                trimmed(&rest)
            } else {
                Vec::new()
            };
            assert(raw@ == url_raw(ls[i as int]));
            let raw_s = string_from_chars(&raw);
            return match parse_yaml_scalar(raw_s.as_str()) {
                Some(u) => Ok(Some(u)),
                None => Err(MihomoError::UnreadableUrl(b.name.clone())),
            };
        }
        i = i + 1;
    }
    Ok(None)
}

proof fn lemma_listing_err_prefix(ls: Seq<Seq<char>>, bs: Seq<BlockModel>, m: int)
    requires
        0 <= m <= bs.len(),
        listing(ls, bs.take(m)) is Err,
    ensures
        listing(ls, bs) == listing(ls, bs.take(m)),
    decreases bs.len() - m,
{
    if m < bs.len() {
        assert(bs.take(m + 1).drop_last() =~= bs.take(m));
        lemma_listing_err_prefix(ls, bs, m + 1);
    } else {
        assert(bs.take(m) =~= bs);
    }
}

/// What `validate_mihomo_config` decides of a parsed config: its root must
/// be a mapping whose `proxy-providers` is a mapping.
pub open spec fn config_check(doc: Option<YamlModel>) -> Result<(), MihomoError> {
    match doc {
        None => Err(MihomoError::ConfigNotYaml),
        Some(YamlModel::Mapping(m)) => match lookup(m, "proxy-providers"@) {
            None => Err(MihomoError::MissingProvidersKey),
            Some(YamlModel::Mapping(_)) => Ok(()),
            Some(_) => Err(MihomoError::ProvidersNotMapping),
        },
        Some(_) => Err(MihomoError::RootNotMapping),
    }
}

pub open spec fn doc_model(doc: Option<YamlValue>) -> Option<YamlModel> {
    match doc {
        Some(v) => Some(v@),
        None => None,
    }
}

/// Checks a parsed mihomo config (none where the text is not YAML).
pub fn validate_mihomo_config(doc: &Option<YamlValue>) -> (r: Result<(), MihomoError>)
    ensures
        r == config_check(doc_model(*doc)),
{
    match doc {
        None => Err(MihomoError::ConfigNotYaml),
        Some(YamlValue::Mapping(m)) => {
            proof {
                lemma_mapping_model(*m);
            }
            let i = find_key(m, "proxy-providers");
            if i >= m.len() {
                return Err(MihomoError::MissingProvidersKey);
            }
            match &m[i].1 {
                YamlValue::Mapping(_) => Ok(()),
                _ => Err(MihomoError::ProvidersNotMapping),
            }
        },
        Some(_) => Err(MihomoError::RootNotMapping),
    }
}

/// The providers of the config text that have a url, in order.
pub fn list_mihomo_providers(content: &str, doc: &Option<YamlValue>) -> (r: Result<Vec<ProviderEntry>, MihomoError>)
    ensures
        config_check(doc_model(*doc)) is Err ==> r == Err::<Vec<ProviderEntry>, MihomoError>(config_check(doc_model(*doc))->Err_0),
        config_check(doc_model(*doc)) is Ok ==> match section_of(lines_of(content@)) {
            None => r == Err::<Vec<ProviderEntry>, MihomoError>(MihomoError::MissingSection),
            Some((a, b)) => match listing(lines_of(content@), blocks_of(lines_of(content@), a, b)) {
                Ok(es) => r matches Ok(v) && entry_models(v@) == es,
                Err(n) => r matches Err(MihomoError::UnreadableUrl(m)) && m@ == n,
            },
        },
{
    match validate_mihomo_config(doc) {
        Ok(()) => {},
        Err(e) => {
            return Err(e);
        },
    }
    let text = chars_of(content);
    let lines = split_lines(&text);
    let ghost ls = views(lines@);
    let (a, b) = match find_proxy_providers_section(&lines) {
        Ok(range) => range,
        Err(e) => {
            return Err(e);
        },
    };
    proof {
        lemma_header_from(ls, 0);
        lemma_top_level_from(ls, a as int);
    }
    let providers = match parse_provider_blocks(&lines, a..b) {
        Ok(ps) => ps,
        Err(e) => {
            return Err(e);
        },
    };
    let ghost bs = blocks_of(ls, a as int, b as int);
    proof {
        lemma_blocks_shape(ls, a as int, b as int);
    }
    let mut entries: Vec<ProviderEntry> = Vec::new();
    let mut j: usize = 0;
    assert(listing(ls, bs.take(0)) == Ok::<Seq<EntryModel>, Seq<char>>(seq![]));
    assert(entry_models(entries@) =~= seq![]);
    while j < providers.len()
        invariant
            config_check(doc_model(*doc)) is Ok,
            section_of(ls) == Some((a as int, b as int)),
            ls == lines_of(content@),
            j <= providers@.len(),
            ls == views(lines@),
            bs == block_models(providers@),
            bs == blocks_of(ls, a as int, b as int),
            forall|q: int| 0 <= q < bs.len() ==> a <= #[trigger] bs[q].key_line < bs[q].end <= b,
            b <= lines@.len(),
            listing(ls, bs.take(j as int)) == Ok::<Seq<EntryModel>, Seq<char>>(entry_models(entries@)),
        decreases providers.len() - j,
    {
        let p = &providers[j];
        assert(bs[j as int] == p.model());
        assert(bs[j as int].key_line < bs[j as int].end);
        assert(bs.take(j + 1).drop_last() =~= bs.take(j as int));
        assert(bs.take(j + 1).last() == p.model());
        match find_provider_url(&lines, p) {
            Ok(Some(u)) => {
                let ghost before = entry_models(entries@);
                entries.push(ProviderEntry { name: p.name.clone(), url: u });
                assert(entry_models(entries@) =~= before.push(EntryModel { name: p.name@, url: entries@.last().url@ }));
            },
            Ok(None) => {},
            Err(e) => {
                proof {
                    assert(provider_url(ls, bs[j as int]) is Err);
                    assert(listing(ls, bs.take(j + 1)) == Err::<Seq<EntryModel>, Seq<char>>(p.name@));
                    lemma_listing_err_prefix(ls, bs, j + 1);
                }
                return Err(e);
            },
        }
        j = j + 1;
    }
    assert(bs.take(bs.len() as int) =~= bs);
    Ok(entries)
}

/// Whether a provider value is a mapping with a `url` key.
pub open spec fn has_url_key(v: YamlModel) -> bool {
    v matches YamlModel::Mapping(t) && key_index(t, "url"@) < t.len()
}

/// The index of the first provider with a `url` key, or the number of
/// providers.
pub open spec fn template_index(ps: Seq<(YamlModel, YamlModel)>) -> int
    decreases ps.len(),
{
    if ps.len() == 0 {
        0
    } else if template_index(ps.drop_last()) < ps.len() - 1 {
        template_index(ps.drop_last())
    } else if has_url_key(ps.last().1) {
        ps.len() - 1
    } else {
        ps.len() as int
    }
}

/// `s` with its `i`-th item replaced by its last one and the last one
/// dropped, as `swap_remove` leaves it.
pub open spec fn swap_removed<A>(s: Seq<A>, i: int) -> Seq<A> {
    s.update(i, s.last()).drop_last()
}

/// The settings of the first provider with a `url` key, without that key:
/// what a new provider copies.
pub open spec fn template_of(doc: YamlModel) -> Option<Seq<(YamlModel, YamlModel)>> {
    match doc {
        YamlModel::Mapping(root) => match lookup(root, "proxy-providers"@) {
            Some(YamlModel::Mapping(ps)) => {
                let j = template_index(ps);
                if j < ps.len() {
                    match ps[j].1 {
                        YamlModel::Mapping(t) => Some(swap_removed(t, key_index(t, "url"@))),
                        _ => None,
                    }
                } else {
                    None
                }
            },
            _ => None,
        },
        _ => None,
    }
}

/// The settings with `url` set: in place where the key exists, else added
/// at the end.
pub open spec fn with_url(t: Seq<(YamlModel, YamlModel)>, url: Seq<char>) -> Seq<(YamlModel, YamlModel)> {
    let i = key_index(t, "url"@);
    if i < t.len() {
        t.update(i, (t[i].0, YamlModel::String(url)))
    } else {
        t.push((YamlModel::String("url"@), YamlModel::String(url)))
    }
}

/// The one-entry mapping `name: {settings..., url}` that is serialised to
/// make a new provider block.
pub open spec fn provider_doc(name: Seq<char>, url: Seq<char>, t: Seq<(YamlModel, YamlModel)>) -> YamlModel {
    YamlModel::Mapping(seq![(YamlModel::String(name), YamlModel::Mapping(with_url(t, url)))])
}

proof fn lemma_template_index(ps: Seq<(YamlModel, YamlModel)>)
    ensures
        0 <= template_index(ps) <= ps.len(),
        template_index(ps) < ps.len() ==> has_url_key(ps[template_index(ps)].1),
        forall|j: int| 0 <= j < template_index(ps) ==> !has_url_key(ps[j].1),
    decreases ps.len(),
{
    if ps.len() > 0 {
        lemma_template_index(ps.drop_last());
        assert forall|j: int| 0 <= j < template_index(ps) implies !has_url_key(ps[j].1) by {
            if j < ps.len() - 1 {
                assert(ps[j] == ps.drop_last()[j]);
            }
        }
    }
}

proof fn lemma_swap_remove_pairs(t: Seq<(YamlValue, YamlValue)>, i: int)
    requires
        0 <= i < t.len(),
    ensures
        pairs_model(t.update(i, t.last()).drop_last()) == swap_removed(pairs_model(t), i),
{
    assert(pairs_model(t.update(i, t.last()).drop_last()) =~= swap_removed(pairs_model(t), i));
}

/// The settings of the first provider of a parsed config that has a `url`,
/// without the `url`.
pub fn detect_provider_template(doc: YamlValue) -> (r: Option<Vec<(YamlValue, YamlValue)>>)
    ensures
        match r {
            Some(t) => template_of(doc@) == Some(pairs_model(t@)),
            None => template_of(doc@) is None,
        },
{
    let ghost d = doc@;
    match doc {
        YamlValue::Mapping(mut root) => {
            proof {
                lemma_mapping_model(root);
                lemma_key_index(pairs_model(root@), "proxy-providers"@);
            }
            let i = find_key(&root, "proxy-providers");
            if i >= root.len() {
                return None;
            }
            let ghost rm = pairs_model(root@);
            let (_, providers) = root.swap_remove(i);
            assert(providers@ == rm[i as int].1);
            match providers {
                YamlValue::Mapping(mut ps) => {
                    proof {
                        lemma_mapping_model(ps);
                    }
                    let ghost pm = pairs_model(ps@);
                    proof {
                        lemma_template_index(pm);
                    }
                    let mut j: usize = 0;
                    while j < ps.len()
                        invariant
                            j <= ps@.len(),
                            pm == pairs_model(ps@),
                            forall|q: int| 0 <= q < j ==> !has_url_key(pm[q].1),
                            0 <= template_index(pm) <= pm.len(),
                            template_index(pm) < pm.len() ==> has_url_key(pm[template_index(pm)].1),
                            forall|q: int| 0 <= q < template_index(pm) ==> !has_url_key(pm[q].1),
                        ensures
                            j < ps@.len() ==> has_url_key(pm[j as int].1),
                        decreases ps.len() - j,
                    {
                        let found = match &ps[j].1 {
                            YamlValue::Mapping(t) => {
                                proof {
                                    lemma_mapping_model(*t);
                                }
                                find_key(t, "url") < t.len()
                            },
                            _ => false,
                        };
                        if found {
                            assert(has_url_key(pm[j as int].1));
                            break;
                        }
                        j = j + 1;
                    }
                    if j >= ps.len() {
                        return None;
                    }
                    assert(template_index(pm) == j);
                    let (_, v) = ps.swap_remove(j);
                    assert(v@ == pm[j as int].1);
                    match v {
                        YamlValue::Mapping(mut t) => {
                            proof {
                                lemma_mapping_model(t);
                            }
                            let u = find_key(&t, "url");
                            proof {
                                lemma_key_index(pairs_model(t@), "url"@);
                                lemma_swap_remove_pairs(t@, u as int);
                            }
                            t.swap_remove(u);
                            Some(t)
                        },
                        _ => None,
                    }
                },
                _ => None,
            }
        },
        _ => None,
    }
}

/// The one-entry mapping `name: {settings..., url}` to serialise for a new
/// provider.
pub fn provider_document(name: &str, url: &str, template: Vec<(YamlValue, YamlValue)>) -> (r: YamlValue)
    ensures
        r@ == provider_doc(name@, url@, pairs_model(template@)),
{
    let mut t = template;
    let ghost tm = pairs_model(t@);
    proof {
        lemma_key_index(tm, "url"@);
    }
    let i = find_key(&t, "url");
    if i < t.len() {
        t.set(i, (yaml_text("url"), yaml_text(url)));
        assert(pairs_model(t@) =~= with_url(tm, url@));
    } else {
        t.push((yaml_text("url"), yaml_text(url)));
        assert(pairs_model(t@) =~= with_url(tm, url@));
    }
    let ghost inner = pairs_model(t@);
    let v = YamlValue::Mapping(t);
    proof {
        lemma_mapping_model(t);
    }
    let mut outer: Vec<(YamlValue, YamlValue)> = Vec::new();
    outer.push((yaml_text(name), v));
    proof {
        lemma_mapping_model(outer);
        assert(pairs_model(outer@) =~= seq![(YamlModel::String(name@), YamlModel::Mapping(inner))]);
    }
    YamlValue::Mapping(outer)
}

/// Validates the names and url, then sets the provider as
/// `set_provider_in_text` does (`current_name` defaults to `next_name`).
pub fn upsert_mihomo_provider(
    content: &str,
    current_name: Option<&str>,
    next_name: &str,
    url: &str,
    doc: &Option<YamlValue>,
    template: &ProviderTemplate,
) -> (r: Result<String, MihomoError>)
    ensures
        !valid_name(next_name@) ==> r == Err::<String, MihomoError>(MihomoError::Entry(EntryError::InvalidName)),
        valid_name(next_name@) && !valid_url(url@) ==> r == Err::<String, MihomoError>(MihomoError::Entry(EntryError::EmptyUrl)),
        valid_name(next_name@) && valid_url(url@) && (current_name matches Some(c) && !valid_name(c@))
            ==> r == Err::<String, MihomoError>(MihomoError::Entry(EntryError::InvalidName)),
        valid_name(next_name@) && valid_url(url@) && !(current_name matches Some(c) && !valid_name(c@)) ==> {
            &&& config_check(doc_model(*doc)) is Err ==> r == Err::<String, MihomoError>(config_check(doc_model(*doc))->Err_0)
            &&& config_check(doc_model(*doc)) is Ok ==> set_provider_result(
                content@,
                match current_name {
                    Some(c) => c@,
                    None => next_name@,
                },
                next_name@,
                url@,
                template_model(*template),
                r,
            )
        },
{
    if let Err(e) = validate_provider_name(next_name) {
        return Err(MihomoError::Entry(e));
    }
    if let Err(e) = validate_provider_url(url) {
        return Err(MihomoError::Entry(e));
    }
    if let Some(c) = current_name {
        if let Err(e) = validate_provider_name(c) {
            return Err(MihomoError::Entry(e));
        }
    }
    if let Err(e) = validate_mihomo_config(doc) {
        return Err(e);
    }
    let current = match current_name {
        Some(c) => c,
        None => next_name,
    };
    set_provider_in_text(content, current, next_name, url, template)
}

/// Validates the name, then removes the provider as
/// `remove_provider_from_text` does.
pub fn remove_mihomo_provider(content: &str, name: &str, doc: &Option<YamlValue>) -> (r: Result<String, MihomoError>)
    ensures
        !valid_name(name@) ==> r == Err::<String, MihomoError>(MihomoError::Entry(EntryError::InvalidName)),
        valid_name(name@) && config_check(doc_model(*doc)) is Err ==> r == Err::<String, MihomoError>(config_check(doc_model(*doc))->Err_0),
        valid_name(name@) && config_check(doc_model(*doc)) is Ok ==> match remove_provider_spec(content@, name@) {
            Ok(t) => r matches Ok(s) && s@ == t,
            Err(e) => r == Err::<String, MihomoError>(e),
        },
{
    if let Err(e) = validate_provider_name(name) {
        return Err(MihomoError::Entry(e));
    }
    if let Err(e) = validate_mihomo_config(doc) {
        return Err(e);
    }
    remove_provider_from_text(content, name)
}

/// A state line's outcome as a mihomo error.
pub open spec fn state_line_outcome(r: Result<(Seq<char>, Seq<char>), StateError>) -> Result<(Seq<char>, Seq<char>), MihomoError> {
    match r {
        Ok(p) => Ok(p),
        Err(StateError::MissingTab(n)) => Err(MihomoError::InvalidStateLine(n)),
        Err(StateError::Entry(e)) => Err(MihomoError::Entry(e)),
    }
}

pub open spec fn outcome_view(r: Result<(String, String), MihomoError>) -> Result<(Seq<char>, Seq<char>), MihomoError> {
    match r {
        Ok((n, u)) => Ok((n@, u@)),
        Err(e) => Err(e),
    }
}

/// One step of syncing the config text with a subscription state: the text
/// with the provider of a state line set (its name kept, its url changed),
/// or, at a line that was refused, the refusal, which stops the sync with
/// nothing written. `template` is the one for the text as it stands before
/// this step.
pub fn sync_mihomo_step(
    content: &str,
    outcome: Result<(String, String), MihomoError>,
    template: &ProviderTemplate,
) -> (r: Result<String, MihomoError>)
    ensures
        match outcome {
            Err(e) => r == Err::<String, MihomoError>(e),
            Ok((n, u)) => set_provider_result(content@, n@, n@, u@, template_model(*template), r),
        },
{
    match outcome {
        Err(e) => Err(e),
        Ok((n, u)) => set_provider_in_text(content, n.as_str(), n.as_str(), u.as_str(), template),
    }
}

/// The providers that a subscription state sets, in order, one outcome per
/// non-blank line `name<TAB>url`, once the config is checked. Each is to be
/// set as `set_provider_in_text(content, name, name, url, ..)` does, up to
/// the first line that was refused.
pub fn sync_mihomo_proxy_providers(doc: &Option<YamlValue>, state: &str) -> (r: Result<Vec<Result<(String, String), MihomoError>>, MihomoError>)
    ensures
        match config_check(doc_model(*doc)) {
            Err(e) => r == Err::<Vec<Result<(String, String), MihomoError>>, MihomoError>(e),
            Ok(_) => r matches Ok(v) && v@.map_values(|x: Result<(String, String), MihomoError>| outcome_view(x))
                == state_results(lines_of(state@)).map_values(
                |x: Result<(Seq<char>, Seq<char>), StateError>| state_line_outcome(x),
            ),
        },
{
    if let Err(e) = validate_mihomo_config(doc) {
        return Err(e);
    }
    let results = parse_subscription_state(state);
    let ghost target = state_results(lines_of(state@)).map_values(
        |x: Result<(Seq<char>, Seq<char>), StateError>| state_line_outcome(x),
    );
    let ghost rm = results@.map_values(|x: Result<(String, String), StateError>| state_result_model(x));
    let mut out: Vec<Result<(String, String), MihomoError>> = Vec::new();
    let mut i: usize = 0;
    while i < results.len()
        invariant
            i <= results@.len(),
            rm == results@.map_values(|x: Result<(String, String), StateError>| state_result_model(x)),
            rm == state_results(lines_of(state@)),
            target == rm.map_values(|x: Result<(Seq<char>, Seq<char>), StateError>| state_line_outcome(x)),
            out@.map_values(|x: Result<(String, String), MihomoError>| outcome_view(x)) == target.take(i as int),
        decreases results.len() - i,
    {
        let item = match &results[i] {
            Ok((n, u)) => Ok((n.clone(), u.clone())),
            Err(StateError::MissingTab(n)) => Err(MihomoError::InvalidStateLine(*n)),
            Err(StateError::Entry(e)) => Err(MihomoError::Entry(*e)),
        };
        assert(outcome_view(item) == target[i as int]) by {
            assert(rm[i as int] == state_result_model(results@[i as int]));
        }
        let ghost before = out@.map_values(|x: Result<(String, String), MihomoError>| outcome_view(x));
        out.push(item);
        assert(out@.map_values(|x: Result<(String, String), MihomoError>| outcome_view(x)) =~= before.push(outcome_view(item)));
        assert(target.take(i + 1) =~= target.take(i as int).push(target[i as int]));
        i = i + 1;
    }
    assert(target.take(results@.len() as int) =~= target);
    Ok(out)
}

// ---------------------------------------------------------------------------
// Reading an updated block back
// ---------------------------------------------------------------------------

pub(crate) proof fn lemma_trim_start_spaces(n: int, s: Seq<char>)
    requires
        n >= 0,
    ensures
        trim_start(spaces(n) + s) == trim_start(s),
    decreases n,
{
    if n > 0 {
        let t = spaces(n) + s;
        assert(t[0] == ' ');
        assert(t.subrange(1, t.len() as int) =~= spaces(n - 1) + s);
        lemma_trim_start_spaces(n - 1, s);
    } else {
        assert(spaces(n) + s =~= s);
    }
}

pub(crate) proof fn lemma_indent_spaces(n: int, s: Seq<char>)
    requires
        n >= 0,
        s.len() > 0,
        s[0] != ' ',
        s[0] != '\t',
    ensures
        indent_of(spaces(n) + s) == n,
    decreases n,
{
    if n > 0 {
        let t = spaces(n) + s;
        assert(t[0] == ' ');
        assert(t.subrange(1, t.len() as int) =~= spaces(n - 1) + s);
        lemma_indent_spaces(n - 1, s);
    } else {
        assert(spaces(n) + s =~= s);
    }
}

/// A name that a provider key line gives back as it is: not empty, no
/// whitespace in it, and not starting a comment.
pub open spec fn plain_key_name(name: Seq<char>) -> bool {
    &&& name.len() > 0
    &&& name[0] != '#'
    &&& forall|i: int| 0 <= i < name.len() ==> !is_ws(#[trigger] name[i])
}

pub(crate) proof fn lemma_key_line_reads_back(indent: int, name: Seq<char>)
    requires
        indent > 0,
        plain_key_name(name),
    ensures
        provider_key(spaces(indent) + name + seq![':']) == Some((indent, name)),
{
    let s1 = name + seq![':'];
    let kl = spaces(indent) + name + seq![':'];
    assert(kl =~= spaces(indent) + s1);
    assert(!is_ws(name[0]));
    assert(s1[0] == name[0]);
    lemma_trim_start_spaces(indent, s1);
    assert(trim_start(kl) == s1);
    assert(s1.last() == ':');
    assert(!is_ws(':'));
    assert(trim_end(s1) == s1);
    assert(trim(kl) == s1);
    assert(kl.last() == ':');
    assert(trim_end(kl) == kl);
    assert(!starts_with(s1, seq!['#'])) by {
        if starts_with(s1, seq!['#']) {
            assert(s1.subrange(0, 1)[0] == s1[0]);
        }
    }
    assert(!is_blank_or_comment(kl));
    assert(s1[0] != ' ' && s1[0] != '\t');
    lemma_indent_spaces(indent, s1);
    assert(s1.subrange(s1.len() - 1, s1.len() as int) =~= seq![':']);
    assert(ends_with(s1, seq![':']));
    assert(s1.drop_last() =~= name);
    assert(!is_ws(name.last()));
    assert(trim_start(name) == name);
    assert(trim_end(name) == name);
    assert(trim(name) == name);
    assert(kl.subrange(kl.len() - 1, kl.len() as int) =~= seq![':']);
    assert(ends_with(trim_end(kl), seq![':']));
    assert(trim(trim_end(kl)) == s1);
    assert(indent_of(kl) == indent);
    assert(!name.contains(' ')) by {
        if name.contains(' ') {
            let i = choose|i: int| 0 <= i < name.len() && name[i] == ' ';
            assert(!is_ws(name[i]));
        }
    }
}

pub(crate) proof fn lemma_url_line_reads_back(ci: int, url: Seq<char>)
    requires
        ci > 0,
    ensures
        url_line_indent(url_line(ci, url)) == Some(ci),
        url_raw(url_line(ci, url)) == yaml_quoted(url),
        indent_of(url_line(ci, url)) == ci,
        url_line(ci, url)[0] == ' ',
        provider_key(url_line(ci, url)) is None,
        !is_blank_or_comment(url_line(ci, url)),
{
    reveal_strlit("url: ");
    reveal_strlit("url:");
    let q = yaml_quoted(url);
    let body = "url: "@ + q;
    let l = url_line(ci, url);
    assert(l =~= spaces(ci) + body);
    assert(body[0] == 'u');
    assert(!is_ws('u'));
    lemma_trim_start_spaces(ci, body);
    assert(trim_start(body) == body);
    assert(body.subrange(0, 4) =~= "url:"@);
    assert(starts_with(trim_start(l), "url:"@));
    lemma_indent_spaces(ci, body);
    assert(q.last() == '"');
    assert(body.last() == '"');
    assert(!is_ws('"'));
    assert(trim_end(body) == body);
    assert(trim(l) == body);
    let rest = body.skip(4);
    assert(rest =~= spaces(1) + q);
    lemma_trim_start_spaces(1, q);
    assert(q[0] == '"');
    assert(trim_start(q) == q);
    assert(trim_end(q) == q);
    assert(l[0] == ' ');
    assert(l.last() == '"');
    assert(trim_end(l) == l);
    assert(!ends_with(l, seq![':'])) by {
        if ends_with(l, seq![':']) {
            assert(l.subrange(l.len() - 1, l.len() as int)[0] == l.last());
        }
    }
    assert(!starts_with(trim_start(l), seq!['#'])) by {
        if starts_with(trim_start(l), seq!['#']) {
            assert(body.subrange(0, 1)[0] == body[0]);
        }
    }
}

proof fn lemma_trim_end_keeps_first(x: Seq<char>)
    requires
        x.len() > 0,
        !is_ws(x[0]),
    ensures
        trim_end(x).len() > 0,
        trim_end(x)[0] == x[0],
    decreases x.len(),
{
    if is_ws(x.last()) {
        assert(x.len() >= 2);
        assert(x.drop_last()[0] == x[0]);
        lemma_trim_end_keeps_first(x.drop_last());
    }
}

/// A `url:` line nested under a key is a line nested under it.
pub(crate) proof fn lemma_url_line_deeper(l: Seq<char>, indent: int)
    requires
        url_line_indent(l) matches Some(ui) && ui > indent,
    ensures
        deeper_line(l, indent),
{
    reveal_strlit("url:");
    let t = trim_start(l);
    assert(starts_with(t, "url:"@));
    assert(t.subrange(0, 4) == "url:"@);
    assert("url:"@[0] == 'u');
    assert(t.subrange(0, 4)[0] == t[0]);
    assert(t[0] == 'u');
    assert(!is_ws('u'));
    lemma_trim_end_keeps_first(t);
    assert(!starts_with(t, seq!['#'])) by {
        if starts_with(t, seq!['#']) {
            assert(t.subrange(0, 1)[0] == t[0]);
        }
    }
}

pub(crate) proof fn lemma_first_deeper_found(ls: Seq<Seq<char>>, b: BlockModel, i: int)
    requires
        i <= b.end,
    ensures
        i <= first_deeper_from(ls, b, i) <= b.end,
        first_deeper_from(ls, b, i) < b.end ==> deeper_line(ls[first_deeper_from(ls, b, i)], b.indent),
        forall|j: int| i <= j < first_deeper_from(ls, b, i) ==> !deeper_line(#[trigger] ls[j], b.indent),
    decreases b.end - i,
{
    if i < b.end && !deeper_line(ls[i], b.indent) {
        lemma_first_deeper_found(ls, b, i + 1);
    }
}

/// The settings of a provider are indented deeper than its key.
pub(crate) proof fn lemma_child_indent_deeper(ls: Seq<Seq<char>>, b: BlockModel)
    requires
        b.key_line < b.end,
    ensures
        child_indent(ls, b) > b.indent,
{
    lemma_first_deeper_found(ls, b, b.key_line + 1);
}

/// Two blocks whose lines from `i` on nest alike, the second `d` lines
/// further down, find their first nested line at the same place.
pub(crate) proof fn lemma_first_deeper_shift(
    s1: Seq<Seq<char>>,
    b1: BlockModel,
    s2: Seq<Seq<char>>,
    b2: BlockModel,
    i: int,
    d: int,
)
    requires
        b2.indent == b1.indent,
        i <= b1.end,
        b1.end + d <= b2.end,
        forall|j: int|
            i <= j < b1.end ==> deeper_line(s2[j + d], b1.indent) == #[trigger] deeper_line(s1[j], b1.indent) && (
            deeper_line(s1[j], b1.indent) ==> indent_of(s2[j + d]) == indent_of(s1[j])),
    ensures
        first_deeper_from(s1, b1, i) < b1.end ==> first_deeper_from(s2, b2, i + d) == first_deeper_from(s1, b1, i) + d
            && indent_of(s2[first_deeper_from(s2, b2, i + d)]) == indent_of(s1[first_deeper_from(s1, b1, i)]),
        first_deeper_from(s1, b1, i) >= b1.end ==> first_deeper_from(s2, b2, i + d) == first_deeper_from(
            s2,
            b2,
            b1.end + d,
        ),
    decreases b1.end - i,
{
    if i < b1.end {
        assert(deeper_line(s2[i + d], b1.indent) == deeper_line(s1[i], b1.indent));
        if !deeper_line(s1[i], b1.indent) {
            lemma_first_deeper_shift(s1, b1, s2, b2, i + 1, d);
            assert(i + 1 + d == i + d + 1);
        }
    }
}

pub(crate) proof fn lemma_url_line_found(ls: Seq<Seq<char>>, b: BlockModel, i: int, repl: Seq<char>)
    requires
        b.key_line < i <= b.end <= ls.len(),
        forall|j: int| i <= j < b.end && is_own_url_line(#[trigger] ls[j], b.indent, child_indent(ls, b)) ==> ls[j] == repl,
    ensures
        i <= url_line_from(ls, b, i) <= b.end,
        url_line_from(ls, b, i) < b.end ==> ls[url_line_from(ls, b, i)] == repl,
        (exists|j: int| i <= j < b.end && is_own_url_line(#[trigger] ls[j], b.indent, child_indent(ls, b))) ==> url_line_from(
            ls,
            b,
            i,
        ) < b.end,
    decreases b.end - i,
{
    if i < b.end && !is_own_url_line(ls[i], b.indent, child_indent(ls, b)) {
        lemma_url_line_found(ls, b, i + 1, repl);
        if exists|j: int| i <= j < b.end && is_own_url_line(#[trigger] ls[j], b.indent, child_indent(ls, b)) {
            let j = choose|j: int| i <= j < b.end && is_own_url_line(#[trigger] ls[j], b.indent, child_indent(ls, b));
            assert(j != i);
        }
    }
}

/// Two blocks whose lines from `i` on nest alike, the second `d` lines
/// further down, find their first nested line at the same place.
pub(crate) proof fn lemma_first_deeper_pos(
    s1: Seq<Seq<char>>,
    b1: BlockModel,
    s2: Seq<Seq<char>>,
    b2: BlockModel,
    i: int,
    d: int,
)
    requires
        b2.indent == b1.indent,
        i <= b1.end,
        b1.end + d <= b2.end,
        forall|j: int| i <= j < b1.end ==> deeper_line(s2[j + d], b1.indent) == #[trigger] deeper_line(s1[j], b1.indent),
    ensures
        first_deeper_from(s1, b1, i) < b1.end ==> first_deeper_from(s2, b2, i + d) == first_deeper_from(s1, b1, i) + d,
        first_deeper_from(s1, b1, i) >= b1.end ==> first_deeper_from(s2, b2, i + d) == first_deeper_from(
            s2,
            b2,
            b1.end + d,
        ),
    decreases b1.end - i,
{
    if i < b1.end {
        assert(deeper_line(s2[i + d], b1.indent) == deeper_line(s1[i], b1.indent));
        if !deeper_line(s1[i], b1.indent) {
            lemma_first_deeper_pos(s1, b1, s2, b2, i + 1, d);
            assert(i + 1 + d == i + d + 1);
        }
    }
}

/// Updating a provider's block renames it and sets its own url so that a
/// reader finds them again: in the updated lines, the block's key line
/// reads as the new name (where that name has no whitespace and starts no
/// comment), and the first own `url:` line of the block holds exactly the
/// new url as a double-quoted YAML string. This holds where the settings
/// of the provider are not indented just one deeper than its key, so that
/// the new line, two deeper, is one of them.
pub proof fn updated_block_reads_back(ls: Seq<Seq<char>>, blk: BlockModel, next: Seq<char>, url: Seq<char>)
    requires
        0 <= blk.key_line < blk.end <= ls.len(),
        blk.indent > 0,
        plain_key_name(next),
        child_indent(ls, blk) != blk.indent + 1,
    ensures
        ({
            let out = update_lines(ls, blk, next, url);
            let nb = BlockModel {
                name: next,
                key_line: blk.key_line,
                end: blk.key_line + updated_block(ls, blk, next, url).len(),
                indent: blk.indent,
            };
            &&& provider_key(out[nb.key_line]) == Some((blk.indent, next))
            &&& url_line_from(out, nb, nb.key_line + 1) < nb.end
            &&& url_raw(out[url_line_from(out, nb, nb.key_line + 1)]) == yaml_quoted(url)
        }),
{
    let out = update_lines(ls, blk, next, url);
    let ub = updated_block(ls, blk, next, url);
    let ci = child_indent(ls, blk);
    lemma_child_indent_deeper(ls, blk);
    assert(ci >= blk.indent + 2);
    let repl = url_line(blk.indent + 2, url);
    let n_in = blk.end - blk.key_line - 1;
    let has_url = exists|k: int| blk.key_line < k < blk.end && is_own_url_line(ls[k], blk.indent, ci);
    let nb = BlockModel { name: next, key_line: blk.key_line, end: blk.key_line + ub.len(), indent: blk.indent };
    lemma_key_line_reads_back(blk.indent, next);
    lemma_url_line_reads_back(blk.indent + 2, url);
    assert(deeper_line(repl, blk.indent));
    assert(ub.len() == 1 + n_in + if has_url { 0int } else { 1int });
    assert forall|k: int| 0 <= k < ub.len() implies out[blk.key_line + k] == #[trigger] ub[k] by {
        assert(out[blk.key_line + k] == ub[k]);
    }
    assert(out[blk.key_line] == ub[0]);
    assert(ub[0] == spaces(blk.indent) + next + seq![':']);
    // the lines nest as before
    assert forall|j: int| blk.key_line + 1 <= j < blk.end implies deeper_line(out[j + 0], blk.indent)
        == #[trigger] deeper_line(ls[j], blk.indent) by {
        let k = j - blk.key_line;
        assert(out[j] == ub[k]);
        if is_own_url_line(ls[j], blk.indent, ci) {
            assert(ub[k] == repl);
            lemma_url_line_deeper(ls[j], blk.indent);
        } else {
            assert(ub[k] == ls[j]);
        }
    }
    lemma_first_deeper_pos(ls, blk, out, nb, blk.key_line + 1, 0);
    lemma_first_deeper_found(ls, blk, blk.key_line + 1);
    let f = first_deeper_from(ls, blk, blk.key_line + 1);
    let ci2 = child_indent(out, nb);
    if f < blk.end {
        assert(first_deeper_from(out, nb, blk.key_line + 1) == f);
        let k = f - blk.key_line;
        assert(out[f] == ub[k]);
        if is_own_url_line(ls[f], blk.indent, ci) {
            assert(ub[k] == repl);
            assert(ci2 == blk.indent + 2);
        } else {
            assert(ub[k] == ls[f]);
            assert(ci2 == ci);
        }
    } else {
        // nothing nests under the key, so the block had no own url line
        assert(!has_url) by {
            if has_url {
                let k = choose|k: int| blk.key_line < k < blk.end && is_own_url_line(ls[k], blk.indent, ci);
                lemma_url_line_deeper(ls[k], blk.indent);
            }
        }
        let e = nb.end - 1;
        assert(e == blk.end);
        assert(out[e] == ub[ub.len() - 1]);
        assert(deeper_line(out[e], blk.indent));
        assert(first_deeper_from(out, nb, e) == e);
        assert(ci2 == blk.indent + 2);
    }
    assert(blk.indent + 2 <= ci2 <= ci);
    // inside the block, every own `url:` line is the new one
    assert forall|j: int| nb.key_line + 1 <= j < nb.end && is_own_url_line(#[trigger] out[j], nb.indent, ci2) implies out[j]
        == repl by {
        let k = j - blk.key_line;
        assert(out[j] == ub[k]);
        if k - 1 < n_in {
            assert(ub[k] == (if is_own_url_line(ls[blk.key_line + k], blk.indent, ci) {
                repl
            } else {
                ls[blk.key_line + k]
            }));
        } else {
            assert(ub[k] == repl);
        }
    }
    lemma_url_line_found(out, nb, nb.key_line + 1, repl);
    if has_url {
        let k = choose|k: int| blk.key_line < k < blk.end && is_own_url_line(ls[k], blk.indent, ci);
        assert(out[k] == ub[k - blk.key_line]);
        assert(ub[k - blk.key_line] == repl);
        assert(is_own_url_line(out[k], nb.indent, ci2));
    } else {
        let j = nb.end - 1;
        assert(out[j] == ub[ub.len() - 1]);
        assert(ub[ub.len() - 1] == repl);
        assert(is_own_url_line(out[j], nb.indent, ci2));
    }
}

} // verus!
