//! Character-level text handling: whitespace trimming, line splitting and
//! joining, prefix tests, all stated over `Seq<char>`.
use vstd::prelude::*;

use crate::outside::string_from_chars;

verus! {

/// Unicode `White_Space` characters, the set that `char::is_whitespace` and
/// `str::trim` use.
pub open spec fn is_ws(c: char) -> bool {
    let u = c as u32;
    ||| 0x09 <= u <= 0x0D
    ||| u == 0x20
    ||| u == 0x85
    ||| u == 0xA0
    ||| u == 0x1680
    ||| 0x2000 <= u <= 0x200A
    ||| u == 0x2028
    ||| u == 0x2029
    ||| u == 0x202F
    ||| u == 0x205F
    ||| u == 0x3000
}

/// `s` with its leading whitespace removed.
pub open spec fn trim_start(s: Seq<char>) -> Seq<char>
    decreases s.len(),
{
    if s.len() > 0 && is_ws(s[0]) {
        trim_start(s.subrange(1, s.len() as int))
    } else {
        s
    }
}

/// `s` with its trailing whitespace removed.
pub open spec fn trim_end(s: Seq<char>) -> Seq<char>
    decreases s.len(),
{
    if s.len() > 0 && is_ws(s.last()) {
        trim_end(s.drop_last())
    } else {
        s
    }
}

/// `s` with whitespace removed at both ends.
pub open spec fn trim(s: Seq<char>) -> Seq<char> {
    trim_end(trim_start(s))
}

pub open spec fn starts_with(s: Seq<char>, p: Seq<char>) -> bool {
    p.len() <= s.len() && s.subrange(0, p.len() as int) == p
}

pub open spec fn ends_with(s: Seq<char>, p: Seq<char>) -> bool {
    p.len() <= s.len() && s.subrange(s.len() - p.len(), s.len() as int) == p
}

/// `s` without a trailing carriage return.
pub open spec fn strip_cr(s: Seq<char>) -> Seq<char> {
    if s.len() > 0 && s.last() == '\r' {
        s.drop_last()
    } else {
        s
    }
}

/// The lines of the text whose unread part is `rest`, given the part `cur`
/// of the current line already read: a line ends at `\n` (a `\r` before it
/// is dropped), and an empty last line is not a line.
pub open spec fn lines_acc(cur: Seq<char>, rest: Seq<char>) -> Seq<Seq<char>>
    decreases rest.len(),
{
    if rest.len() == 0 {
        if cur.len() == 0 {
            seq![]
        } else {
            seq![cur]
        }
    } else if rest[0] == '\n' {
        seq![strip_cr(cur)] + lines_acc(seq![], rest.subrange(1, rest.len() as int))
    } else {
        lines_acc(cur.push(rest[0]), rest.subrange(1, rest.len() as int))
    }
}

/// The lines of `s`, as `str::lines` yields them.
pub open spec fn lines_of(s: Seq<char>) -> Seq<Seq<char>> {
    lines_acc(seq![], s)
}

/// Each line followed by a newline.
pub open spec fn concat_lines(ls: Seq<Seq<char>>) -> Seq<char>
    decreases ls.len(),
{
    if ls.len() == 0 {
        seq![]
    } else {
        concat_lines(ls.drop_last()) + ls.last() + seq!['\n']
    }
}

/// The lines joined by newlines, with one newline at the end.
pub open spec fn finish_lines_spec(ls: Seq<Seq<char>>) -> Seq<char> {
    if ls.len() == 0 {
        seq!['\n']
    } else {
        concat_lines(ls)
    }
}

/// The views of a vector of character vectors.
pub open spec fn views(v: Seq<Vec<char>>) -> Seq<Seq<char>> {
    Seq::new(v.len(), |i: int| v[i]@)
}

pub fn is_ws_char(c: char) -> (r: bool)
    ensures
        r == is_ws(c),
{
    let u = c as u32;
    (0x09 <= u && u <= 0x0D) || u == 0x20 || u == 0x85 || u == 0xA0 || u == 0x1680 || (0x2000
        <= u && u <= 0x200A) || u == 0x2028 || u == 0x2029 || u == 0x202F || u == 0x205F || u
        == 0x3000
}

/// The characters of `s`.
pub fn chars_of(s: &str) -> (r: Vec<char>)
    ensures
        r@ == s@,
{
    let mut out: Vec<char> = Vec::new();
    for c in it: s.chars()
        invariant
            out@ == it.seq().take(it.index() as int),
    {
        out.push(c);
        assert(out@ =~= it.seq().take(it.index() + 1));
    }
    assert(out@ =~= s@);
    out
}

/// A copy of `s[a..b]`.
pub fn slice_chars(s: &Vec<char>, a: usize, b: usize) -> (r: Vec<char>)
    requires
        a <= b <= s@.len(),
    ensures
        r@ == s@.subrange(a as int, b as int),
{
    let mut out: Vec<char> = Vec::new();
    let mut i = a;
    while i < b
        invariant
            a <= i <= b <= s@.len(),
            out@ == s@.subrange(a as int, i as int),
        decreases b - i,
    {
        out.push(s[i]);
        i = i + 1;
        assert(out@ =~= s@.subrange(a as int, i as int));
    }
    out
}

/// Appends `b` to `a`.
pub fn push_all(a: &mut Vec<char>, b: &Vec<char>)
    ensures
        final(a)@ == old(a)@ + b@,
{
    let mut i: usize = 0;
    let ghost a0 = old(a)@;
    while i < b.len()
        invariant
            i <= b@.len(),
            a@ == a0 + b@.subrange(0, i as int),
        decreases b.len() - i,
    {
        a.push(b[i]);
        i = i + 1;
        assert(a@ =~= a0 + b@.subrange(0, i as int));
    }
    assert(b@.subrange(0, b@.len() as int) =~= b@);
}

/// `a` followed by `b`.
pub fn concat(a: &Vec<char>, b: &Vec<char>) -> (r: Vec<char>)
    ensures
        r@ == a@ + b@,
{
    let mut out = slice_chars(a, 0, a.len());
    assert(a@.subrange(0, a@.len() as int) =~= a@);
    push_all(&mut out, b);
    out
}

/// Whether the two character sequences are equal.
pub fn chars_eq(a: &Vec<char>, b: &Vec<char>) -> (r: bool)
    ensures
        r == (a@ == b@),
{
    if a.len() != b.len() {
        return false;
    }
    let mut i: usize = 0;
    while i < a.len()
        invariant
            i <= a@.len(),
            a@.len() == b@.len(),
            forall|j: int| 0 <= j < i ==> a@[j] == b@[j],
        decreases a.len() - i,
    {
        if a[i] != b[i] {
            return false;
        }
        i = i + 1;
    }
    assert(a@ =~= b@);
    true
}

/// Whether `s` starts with `p`.
pub fn has_prefix(s: &Vec<char>, p: &Vec<char>) -> (r: bool)
    ensures
        r == starts_with(s@, p@),
{
    if p.len() > s.len() {
        return false;
    }
    let mut i: usize = 0;
    while i < p.len()
        invariant
            i <= p@.len() <= s@.len(),
            forall|j: int| 0 <= j < i ==> s@[j] == p@[j],
        decreases p.len() - i,
    {
        if s[i] != p[i] {
            assert(s@.subrange(0, p@.len() as int)[i as int] != p@[i as int]);
            return false;
        }
        i = i + 1;
    }
    assert(s@.subrange(0, p@.len() as int) =~= p@);
    true
}

/// Whether `s` holds the character `c`.
pub fn has_char(s: &Vec<char>, c: char) -> (r: bool)
    ensures
        r == s@.contains(c),
{
    let mut i: usize = 0;
    while i < s.len()
        invariant
            i <= s@.len(),
            forall|j: int| 0 <= j < i ==> s@[j] != c,
        decreases s.len() - i,
    {
        if s[i] == c {
            assert(s@[i as int] == c);
            return true;
        }
        i = i + 1;
    }
    false
}

/// The index where the leading whitespace of `s` ends.
pub fn trim_start_index(s: &Vec<char>) -> (i: usize)
    ensures
        i <= s@.len(),
        trim_start(s@) == s@.subrange(i as int, s@.len() as int),
{
    let mut i: usize = 0;
    assert(s@.subrange(0, s@.len() as int) =~= s@);
    while i < s.len() && is_ws_char(s[i])
        invariant
            i <= s@.len(),
            trim_start(s@) == trim_start(s@.subrange(i as int, s@.len() as int)),
        decreases s.len() - i,
    {
        let ghost t = s@.subrange(i as int, s@.len() as int);
        assert(t.subrange(1, t.len() as int) =~= s@.subrange(i + 1, s@.len() as int));
        i = i + 1;
    }
    i
}

/// The index where the trailing whitespace of `s[..to]` starts.
pub fn trim_end_index(s: &Vec<char>, to: usize) -> (j: usize)
    requires
        to <= s@.len(),
    ensures
        j <= to,
        trim_end(s@.subrange(0, to as int)) == s@.subrange(0, j as int),
{
    let mut j = to;
    while j > 0 && is_ws_char(s[j - 1])
        invariant
            j <= to <= s@.len(),
            trim_end(s@.subrange(0, to as int)) == trim_end(s@.subrange(0, j as int)),
        decreases j,
    {
        assert(s@.subrange(0, j as int).drop_last() =~= s@.subrange(0, j - 1));
        j = j - 1;
    }
    j
}

/// `trim_start(s)`.
pub fn trimmed_start(s: &Vec<char>) -> (r: Vec<char>)
    ensures
        r@ == trim_start(s@),
{
    let i = trim_start_index(s);
    slice_chars(s, i, s.len())
}

/// `trim_end(s)`.
pub fn trimmed_end(s: &Vec<char>) -> (r: Vec<char>)
    ensures
        r@ == trim_end(s@),
{
    let j = trim_end_index(s, s.len());
    assert(s@.subrange(0, s@.len() as int) =~= s@);
    slice_chars(s, 0, j)
}

/// `trim(s)`.
pub fn trimmed(s: &Vec<char>) -> (r: Vec<char>)
    ensures
        r@ == trim(s@),
{
    let t = trimmed_start(s);
    trimmed_end(&t)
}

/// The lines of `text`, as `str::lines` yields them.
pub fn split_lines(text: &Vec<char>) -> (r: Vec<Vec<char>>)
    ensures
        views(r@) == lines_of(text@),
{
    let mut out: Vec<Vec<char>> = Vec::new();
    let mut cur: Vec<char> = Vec::new();
    let mut i: usize = 0;
    assert(text@.subrange(0, text@.len() as int) =~= text@);
    while i < text.len()
        invariant
            i <= text@.len(),
            lines_of(text@) == views(out@) + lines_acc(cur@, text@.subrange(i as int, text@.len() as int)),
        decreases text.len() - i,
    {
        let ghost rest = text@.subrange(i as int, text@.len() as int);
        assert(rest.subrange(1, rest.len() as int) =~= text@.subrange(i + 1, text@.len() as int));
        let c = text[i];
        if c == '\n' {
            let mut line = cur;
            if line.len() > 0 && line[line.len() - 1] == '\r' {
                line.pop();
            }
            proof {
                assert(line@ == strip_cr(cur@));
            }
            let ghost before = views(out@);
            out.push(line);
            assert(views(out@) =~= before.push(strip_cr(cur@)));
            assert(views(out@) + lines_acc(seq![], text@.subrange(i + 1, text@.len() as int)) =~= before + (seq![strip_cr(cur@)] + lines_acc(seq![], text@.subrange(i + 1, text@.len() as int))));
            cur = Vec::new();
        } else {
            cur.push(c);
        }
        i = i + 1;
    }
    if cur.len() > 0 {
        let ghost before = views(out@);
        let ghost last = cur@;
        out.push(cur);
        assert(views(out@) =~= before + seq![last]);
    } else {
        assert(views(out@) + seq![] =~= views(out@));
    }
    out
}

/// The lines joined by newlines, with one newline at the end.
pub fn finish_lines(lines: &Vec<Vec<char>>) -> (r: String)
    ensures
        r@ == finish_lines_spec(views(lines@)),
{
    if lines.len() == 0 {
        let nl: Vec<char> = vec!['\n'];
        let r = string_from_chars(&nl);
        assert(nl@ =~= seq!['\n']);
        return r;
    }
    let mut out: Vec<char> = Vec::new();
    let mut i: usize = 0;
    while i < lines.len()
        invariant
            i <= lines@.len(),
            out@ == concat_lines(views(lines@).subrange(0, i as int)),
        decreases lines.len() - i,
    {
        push_all(&mut out, &lines[i]);
        out.push('\n');
        let ghost vs = views(lines@);
        assert(vs.subrange(0, i + 1).drop_last() =~= vs.subrange(0, i as int));
        i = i + 1;
    }
    assert(views(lines@).subrange(0, lines@.len() as int) =~= views(lines@));
    string_from_chars(&out)
}

/// The pieces of the text whose unread part is `rest`, split at each `c`,
/// given the part `cur` of the current piece already read.
pub open spec fn split_acc(cur: Seq<char>, rest: Seq<char>, c: char) -> Seq<Seq<char>>
    decreases rest.len(),
{
    if rest.len() == 0 {
        seq![cur]
    } else if rest[0] == c {
        seq![cur] + split_acc(seq![], rest.subrange(1, rest.len() as int), c)
    } else {
        split_acc(cur.push(rest[0]), rest.subrange(1, rest.len() as int), c)
    }
}

/// The pieces of `s` between the occurrences of `c`, as `str::split` yields
/// them.
pub open spec fn split_on(s: Seq<char>, c: char) -> Seq<Seq<char>> {
    split_acc(seq![], s, c)
}

/// The pieces of `text` between the occurrences of `c`.
pub fn split_chars(text: &Vec<char>, c: char) -> (r: Vec<Vec<char>>)
    ensures
        views(r@) == split_on(text@, c),
{
    let mut out: Vec<Vec<char>> = Vec::new();
    let mut cur: Vec<char> = Vec::new();
    let mut i: usize = 0;
    assert(text@.subrange(0, text@.len() as int) =~= text@);
    while i < text.len()
        invariant
            i <= text@.len(),
            split_on(text@, c) == views(out@) + split_acc(cur@, text@.subrange(i as int, text@.len() as int), c),
        decreases text.len() - i,
    {
        let ghost rest = text@.subrange(i as int, text@.len() as int);
        assert(rest.subrange(1, rest.len() as int) =~= text@.subrange(i + 1, text@.len() as int));
        let x = text[i];
        if x == c {
            let ghost before = views(out@);
            let ghost piece = cur@;
            out.push(cur);
            assert(views(out@) =~= before.push(piece));
            assert(views(out@) + split_acc(seq![], text@.subrange(i + 1, text@.len() as int), c) =~= before + (seq![piece] + split_acc(seq![], text@.subrange(i + 1, text@.len() as int), c)));
            cur = Vec::new();
        } else {
            cur.push(x);
        }
        i = i + 1;
    }
    let ghost before = views(out@);
    let ghost piece = cur@;
    out.push(cur);
    assert(views(out@) =~= before + seq![piece]);
    out
}

/// `s` for a string value.
pub fn string_of_chars(v: &Vec<char>) -> (r: String)
    ensures
        r@ == v@,
{
    string_from_chars(v)
}

/// The index of the first `c` in `s`, or the length of `s`.
pub open spec fn first_char_index(s: Seq<char>, c: char) -> int
    decreases s.len(),
{
    if s.len() == 0 {
        0
    } else if s[0] == c {
        0
    } else {
        1 + first_char_index(s.subrange(1, s.len() as int), c)
    }
}

/// The index of the first `c` in `s`, or the length of `s`.
pub fn find_char(s: &Vec<char>, c: char) -> (r: usize)
    ensures
        r == first_char_index(s@, c),
        r <= s@.len(),
{
    let mut i: usize = 0;
    assert(s@.subrange(0, s@.len() as int) =~= s@);
    while i < s.len() && s[i] != c
        invariant
            i <= s@.len(),
            first_char_index(s@, c) == i + first_char_index(s@.subrange(i as int, s@.len() as int), c),
        decreases s.len() - i,
    {
        let ghost t = s@.subrange(i as int, s@.len() as int);
        assert(t.subrange(1, t.len() as int) =~= s@.subrange(i + 1, s@.len() as int));
        i = i + 1;
    }
    i
}

/// The parts joined with `sep` between each two.
pub open spec fn join(parts: Seq<Seq<char>>, sep: Seq<char>) -> Seq<char>
    decreases parts.len(),
{
    if parts.len() == 0 {
        seq![]
    } else if parts.len() == 1 {
        parts[0]
    } else {
        join(parts.drop_last(), sep) + sep + parts.last()
    }
}

/// The decimal digit for `d` (below ten).
pub open spec fn digit_char(d: nat) -> char {
    (48 + d) as char
}

/// `n` in decimal, as `Display` writes an unsigned integer.
pub open spec fn decimal(n: nat) -> Seq<char>
    decreases n,
{
    if n < 10 {
        seq![digit_char(n)]
    } else {
        decimal(n / 10).push(digit_char(n % 10))
    }
}

fn digit_of(d: u64) -> (c: char)
    requires
        d < 10,
    ensures
        c == digit_char(d as nat),
{
    if d == 0 {
        '0'
    } else if d == 1 {
        '1'
    } else if d == 2 {
        '2'
    } else if d == 3 {
        '3'
    } else if d == 4 {
        '4'
    } else if d == 5 {
        '5'
    } else if d == 6 {
        '6'
    } else if d == 7 {
        '7'
    } else if d == 8 {
        '8'
    } else {
        '9'
    }
}

/// `n` in decimal.
pub fn decimal_chars(n: u64) -> (r: Vec<char>)
    ensures
        r@ == decimal(n as nat),
    decreases n,
{
    if n < 10 {
        let mut r: Vec<char> = Vec::new();
        r.push(digit_of(n));
        assert(r@ =~= seq![digit_char(n as nat)]);
        r
    } else {
        let mut r = decimal_chars(n / 10);
        r.push(digit_of(n % 10));
        r
    }
}

/// An ASCII upper-case letter in lower case; other characters as they are.
pub open spec fn lower(c: char) -> char {
    if 'A' <= c <= 'Z' {
        ((c as u8) + 32u8) as char
    } else {
        c
    }
}

/// `s` with ASCII letters in lower case, as `str::to_ascii_lowercase`.
pub open spec fn to_lower(s: Seq<char>) -> Seq<char> {
    Seq::new(s.len(), |i: int| lower(s[i]))
}

/// `s` with ASCII letters in lower case.
pub fn lowercase_ascii(s: &Vec<char>) -> (r: Vec<char>)
    ensures
        r@ == to_lower(s@),
{
    let mut out: Vec<char> = Vec::new();
    let mut i: usize = 0;
    while i < s.len()
        invariant
            i <= s@.len(),
            out@ == to_lower(s@).take(i as int),
        decreases s.len() - i,
    {
        let c = s[i];
        let l = if c >= 'A' && c <= 'Z' {
            ((c as u8) + 32u8) as char
        } else {
            c
        };
        assert(l == lower(c));
        out.push(l);
        assert(out@ =~= to_lower(s@).take(i + 1));
        i = i + 1;
    }
    assert(to_lower(s@).take(s@.len() as int) =~= to_lower(s@));
    out
}

/// `s` with every `from` replaced by `to`, left to right, as `str::replace`.
pub open spec fn replace_all(s: Seq<char>, from: Seq<char>, to: Seq<char>) -> Seq<char>
    decreases s.len(),
{
    if s.len() == 0 {
        seq![]
    } else if from.len() > 0 && starts_with(s, from) {
        to + replace_all(s.subrange(from.len() as int, s.len() as int), from, to)
    } else {
        seq![s[0]] + replace_all(s.subrange(1, s.len() as int), from, to)
    }
}

/// Whether `p` occurs in `s` at `i`.
pub fn matches_at(s: &Vec<char>, i: usize, p: &Vec<char>) -> (r: bool)
    requires
        i <= s@.len(),
    ensures
        r == starts_with(s@.subrange(i as int, s@.len() as int), p@),
{
    let ghost t = s@.subrange(i as int, s@.len() as int);
    if p.len() > s.len() - i {
        return false;
    }
    let n = s.len();
    let mut j: usize = 0;
    while j < p.len()
        invariant
            n == s@.len(),
            i <= s@.len(),
            j <= p@.len() <= s@.len() - i,
            t == s@.subrange(i as int, s@.len() as int),
            forall|k: int| 0 <= k < j ==> t[k] == p@[k],
        decreases p.len() - j,
    {
        assert(i + j < n);
        if s[i + j] != p[j] {
            assert(t.subrange(0, p@.len() as int)[j as int] != p@[j as int]);
            return false;
        }
        j = j + 1;
    }
    assert(t.subrange(0, p@.len() as int) =~= p@);
    true
}

/// `s` with every `from` replaced by `to`.
pub fn replaced(s: &Vec<char>, from: &Vec<char>, to: &Vec<char>) -> (r: Vec<char>)
    requires
        from@.len() > 0,
    ensures
        r@ == replace_all(s@, from@, to@),
{
    let mut out: Vec<char> = Vec::new();
    let mut i: usize = 0;
    assert(s@.subrange(0, s@.len() as int) =~= s@);
    while i < s.len()
        invariant
            i <= s@.len(),
            from@.len() > 0,
            replace_all(s@, from@, to@) == out@ + replace_all(s@.subrange(i as int, s@.len() as int), from@, to@),
        decreases s.len() - i,
    {
        let ghost rest = s@.subrange(i as int, s@.len() as int);
        if matches_at(s, i, from) {
            assert(rest.subrange(from@.len() as int, rest.len() as int) =~= s@.subrange(i + from@.len(), s@.len() as int));
            push_all(&mut out, to);
            assert(out@ + replace_all(s@.subrange(i + from@.len(), s@.len() as int), from@, to@) =~= replace_all(s@, from@, to@));
            i = i + from.len();
        } else {
            assert(rest.subrange(1, rest.len() as int) =~= s@.subrange(i + 1, s@.len() as int));
            let ghost before = out@;
            out.push(s[i]);
            assert(out@ =~= before + seq![rest[0]]);
            assert(out@ + replace_all(s@.subrange(i + 1, s@.len() as int), from@, to@) =~= replace_all(s@, from@, to@));
            i = i + 1;
        }
    }
    assert(out@ =~= out@ + replace_all(s@.subrange(i as int, s@.len() as int), from@, to@));
    out
}

/// `s` without all leading repetitions of `p`, as `str::trim_start_matches`.
pub open spec fn strip_prefixes(s: Seq<char>, p: Seq<char>) -> Seq<char>
    decreases s.len(),
{
    if p.len() > 0 && starts_with(s, p) {
        strip_prefixes(s.subrange(p.len() as int, s.len() as int), p)
    } else {
        s
    }
}

/// `s` without all leading repetitions of `p`.
pub fn stripped_prefixes(s: &Vec<char>, p: &Vec<char>) -> (r: Vec<char>)
    ensures
        r@ == strip_prefixes(s@, p@),
{
    let mut i: usize = 0;
    assert(s@.subrange(0, s@.len() as int) =~= s@);
    while p.len() > 0 && matches_at(s, i, p)
        invariant
            i <= s@.len(),
            strip_prefixes(s@, p@) == strip_prefixes(s@.subrange(i as int, s@.len() as int), p@),
        decreases s.len() - i,
    {
        let ghost rest = s@.subrange(i as int, s@.len() as int);
        assert(rest.subrange(p@.len() as int, rest.len() as int) =~= s@.subrange(i + p@.len(), s@.len() as int));
        i = i + p.len();
    }
    slice_chars(s, i, s.len())
}

/// The index of the last `c` in `s`, or -1.
pub open spec fn last_char_index(s: Seq<char>, c: char) -> int
    decreases s.len(),
{
    if s.len() == 0 {
        -1
    } else if s.last() == c {
        s.len() - 1
    } else {
        last_char_index(s.drop_last(), c)
    }
}

/// The index of the last `c` in `s`.
pub fn find_last_char(s: &Vec<char>, c: char) -> (r: Option<usize>)
    ensures
        match r {
            Some(i) => i == last_char_index(s@, c) && i < s@.len(),
            None => last_char_index(s@, c) == -1,
        },
{
    let mut i: usize = s.len();
    assert(s@.subrange(0, s@.len() as int) =~= s@);
    while i > 0 && s[i - 1] != c
        invariant
            i <= s@.len(),
            last_char_index(s@, c) == last_char_index(s@.subrange(0, i as int), c),
        decreases i,
    {
        assert(s@.subrange(0, i as int).drop_last() =~= s@.subrange(0, i - 1));
        i = i - 1;
    }
    if i == 0 {
        None
    } else {
        Some(i - 1)
    }
}

} // verus!
