//! The configuration file: `KEY=value` lines, comments and blank lines, read
//! and rewritten in place, and the settings the proxy takes from it.
use vstd::prelude::*;
use crate::error::opt_str_view;
use crate::text::{
    is_trimmed, join_lines, lacks, first_index_of, lemma_first_index_of, lemma_first_index_unique,
    lemma_join_last, lemma_join_snoc, lemma_join_then_newline, lemma_text_lines_cons,
    lemma_text_lines_no_nl, lemma_text_lines_terminated, lemma_trim_shape, lemma_trim_strip_cr,
    lemma_trim_trimmed, parse_unsigned_spec, strip_cr, text_lines, trim, trim_start, with_final_newline,
    decimal, is_digit, is_ws, lemma_decimal, lemma_text_lines_lacks, lemma_text_lines_push_nl,
    chars_of, find_char, next_line, parse_unsigned, push_char, string_of_range, trim_range,
};

verus! {

/// Base URL of the Zhipu API.
pub const API_BASE_URL: &'static str = "https://open.bigmodel.cn/api/coding/paas/v4";

/// Settings of the proxy.
#[derive(Clone, Debug, PartialEq, Eq)]
pub struct Config {
    pub zhipu_api_key: String,
    pub host: String,
    pub port: u16,
    pub max_retries: u32,
    pub retry_delay_ms: u64,
    pub request_timeout_ms: u64,
}

/// One line of the configuration file; comments keep their text as it was.
#[derive(Clone, Debug, PartialEq, Eq)]
pub enum EnvLine {
    KeyValue { key: String, value: String },
    Comment(String),
    Blank,
}

/// What a line of the configuration file holds.
pub enum EnvLineView {
    KeyValue { key: Seq<char>, value: Seq<char> },
    Comment(Seq<char>),
    Blank,
}

impl View for EnvLine {
    type V = EnvLineView;

    open spec fn view(&self) -> EnvLineView {
        match self {
            EnvLine::KeyValue { key, value } => EnvLineView::KeyValue { key: key@, value: value@ },
            EnvLine::Comment(s) => EnvLineView::Comment(s@),
            EnvLine::Blank => EnvLineView::Blank,
        }
    }
}

pub open spec fn views(v: Seq<EnvLine>) -> Seq<EnvLineView> {
    v.map_values(|l: EnvLine| l@)
}

pub open spec fn opt_view(o: Option<String>) -> Option<Seq<char>> {
    match o {
        Some(s) => Some(s@),
        None => None,
    }
}

/// How one line of text reads: blank when only whitespace; a comment when
/// its trimmed text starts with `#` or has no `=`; otherwise the trimmed
/// text before the first `=` is the key and the trimmed text after it the
/// value.
pub open spec fn parse_line(line: Seq<char>) -> EnvLineView {
    let t = trim(line);
    if t.len() == 0 {
        EnvLineView::Blank
    } else if t[0] == '#' {
        EnvLineView::Comment(line)
    } else {
        let i = first_index_of(t, '=');
        if i < t.len() {
            EnvLineView::KeyValue { key: trim(t.take(i)), value: trim(t.skip(i + 1)) }
        } else {
            EnvLineView::Comment(line)
        }
    }
}

/// The lines of a configuration file.
pub open spec fn parse_text(content: Seq<char>) -> Seq<EnvLineView> {
    text_lines(content).map_values(|l: Seq<char>| parse_line(l))
}

/// The text of one line: `key=value`, the comment's own text, or nothing.
pub open spec fn render_line(l: EnvLineView) -> Seq<char> {
    match l {
        EnvLineView::KeyValue { key, value } => key + seq!['='] + value,
        EnvLineView::Comment(s) => s,
        EnvLineView::Blank => seq![],
    }
}

/// The lines joined with `\n`.
pub open spec fn render_lines(ls: Seq<EnvLineView>) -> Seq<char> {
    join_lines(ls.map_values(|l: EnvLineView| render_line(l)))
}

pub open spec fn has_key(l: EnvLineView, k: Seq<char>) -> bool {
    l matches EnvLineView::KeyValue { key, .. } && key == k
}

pub open spec fn value_of(l: EnvLineView) -> Seq<char> {
    match l {
        EnvLineView::KeyValue { value, .. } => value,
        _ => seq![],
    }
}

/// Index of the first line that sets `k`, or the number of lines.
pub open spec fn key_index(ls: Seq<EnvLineView>, k: Seq<char>) -> int
    decreases ls.len(),
{
    if ls.len() == 0 {
        0
    } else if has_key(ls[0], k) {
        0
    } else {
        1 + key_index(ls.skip(1), k)
    }
}

/// The value of the first line that sets `k`.
pub open spec fn lookup_first(ls: Seq<EnvLineView>, k: Seq<char>) -> Option<Seq<char>> {
    let i = key_index(ls, k);
    if i < ls.len() {
        Some(value_of(ls[i]))
    } else {
        None
    }
}

/// The value of the last line that sets `k`.
pub open spec fn lookup_last(ls: Seq<EnvLineView>, k: Seq<char>) -> Option<Seq<char>>
    decreases ls.len(),
{
    if ls.len() == 0 {
        None
    } else if has_key(ls.last(), k) {
        Some(value_of(ls.last()))
    } else {
        lookup_last(ls.drop_last(), k)
    }
}

/// All `(key, value)` pairs, in file order.
pub open spec fn entries(ls: Seq<EnvLineView>) -> Seq<(Seq<char>, Seq<char>)>
    decreases ls.len(),
{
    if ls.len() == 0 {
        seq![]
    } else {
        let r = entries(ls.drop_last());
        match ls.last() {
            EnvLineView::KeyValue { key, value } => r.push((key, value)),
            _ => r,
        }
    }
}

/// The lines with every line that sets `k` left out.
pub open spec fn remove_key(ls: Seq<EnvLineView>, k: Seq<char>) -> Seq<EnvLineView>
    decreases ls.len(),
{
    if ls.len() == 0 {
        seq![]
    } else {
        let r = remove_key(ls.drop_last(), k);
        if has_key(ls.last(), k) {
            r
        } else {
            r.push(ls.last())
        }
    }
}

/// The lines after setting `k` to `v`: the first line that sets `k` takes the
/// new value; when there is none, a line is added at the end, after a blank
/// line when the last line sets a key.
pub open spec fn set_lines(ls: Seq<EnvLineView>, k: Seq<char>, v: Seq<char>) -> Seq<EnvLineView> {
    let i = key_index(ls, k);
    let line = EnvLineView::KeyValue { key: k, value: v };
    if i < ls.len() {
        ls.update(i, line)
    } else {
        let base = if ls.len() > 0 && ls.last() is KeyValue {
            ls.push(EnvLineView::Blank)
        } else {
            ls
        };
        base.push(line)
    }
}

/// The configuration text after setting `k` to `v`.
pub open spec fn set_text(content: Seq<char>, k: Seq<char>, v: Seq<char>) -> Seq<char> {
    with_final_newline(render_lines(set_lines(parse_text(content), k, v)))
}

/// The configuration text after removing `k`.
pub open spec fn unset_text(content: Seq<char>, k: Seq<char>) -> Seq<char> {
    with_final_newline(render_lines(remove_key(parse_text(content), k)))
}

/// A key and value that read back as written: no whitespace at their ends,
/// no `=` in the key, no line break in either, and a key that does not start
/// with `#`.
pub open spec fn clean_entry(k: Seq<char>, v: Seq<char>) -> bool {
    &&& is_trimmed(k)
    &&& is_trimmed(v)
    &&& lacks(k, '=')
    &&& lacks(k, '\n')
    &&& lacks(v, '\n')
    &&& !(k.len() > 0 && k[0] == '#')
}

/// The value read for `k` from the text (the first line that sets it).
pub open spec fn get_value_spec(content: Seq<char>, k: Seq<char>) -> Option<Seq<char>> {
    lookup_first(parse_text(content), k)
}

/// A setting read as a number: its value when it parses, else the default.
pub open spec fn number_setting(
    ls: Seq<EnvLineView>,
    k: Seq<char>,
    max: nat,
    default: nat,
) -> nat {
    match lookup_last(ls, k) {
        Some(p) => match parse_unsigned_spec(p, max) {
            Some(n) => n,
            None => default,
        },
        None => default,
    }
}

/// `PathBuf::join` of a relative path onto `base`.
pub open spec fn join_path(base: Seq<char>, rel: Seq<char>) -> Seq<char> {
    if base.len() > 0 && base.last() != '/' {
        base + seq!['/'] + rel
    } else {
        base + rel
    }
}

/// The configuration directory under the home directory.
pub open spec fn config_dir_spec(home: Seq<char>) -> Seq<char> {
    join_path(home, ".glm-coding-xcode-proxy"@)
}

// ---------------------------------------------------------------------------
// Lemmas on lookups
pub proof fn lemma_key_index(ls: Seq<EnvLineView>, k: Seq<char>)
    ensures
        0 <= key_index(ls, k) <= ls.len(),
        forall|j: int| 0 <= j < key_index(ls, k) ==> !has_key(#[trigger] ls[j], k),
        key_index(ls, k) < ls.len() ==> has_key(ls[key_index(ls, k)], k),
    decreases ls.len(),
{
    if ls.len() > 0 && !has_key(ls[0], k) {
        lemma_key_index(ls.skip(1), k);
        assert forall|j: int| 0 <= j < key_index(ls, k) implies !has_key(#[trigger] ls[j], k) by {
            if j > 0 {
                assert(ls[j] == ls.skip(1)[j - 1]);
            }
        }
    }
}

pub proof fn lemma_key_index_unique(ls: Seq<EnvLineView>, k: Seq<char>, n: int)
    requires
        0 <= n <= ls.len(),
        forall|j: int| 0 <= j < n ==> !has_key(#[trigger] ls[j], k),
        n < ls.len() ==> has_key(ls[n], k),
    ensures
        key_index(ls, k) == n,
{
    lemma_key_index(ls, k);
    let r = key_index(ls, k);
    if r < n {
        assert(has_key(ls[r], k));
    }
    if n < r {
        assert(!has_key(ls[n], k));
    }
}

/// Lookups agree on lines that agree, line by line, on which set `k` and to
/// what.
pub proof fn lemma_lookup_pointwise(a: Seq<EnvLineView>, b: Seq<EnvLineView>, k: Seq<char>)
    requires
        a.len() == b.len(),
        forall|j: int|
            0 <= j < a.len() ==> (has_key(#[trigger] a[j], k) <==> has_key(b[j], k)),
        forall|j: int|
            0 <= j < a.len() && has_key(#[trigger] a[j], k) ==> value_of(a[j]) == value_of(b[j]),
    ensures
        lookup_first(a, k) == lookup_first(b, k),
{
    lemma_key_index(a, k);
    let n = key_index(a, k);
    assert forall|j: int| 0 <= j < n implies !has_key(#[trigger] b[j], k) by {
        assert(!has_key(a[j], k));
    }
    lemma_key_index_unique(b, k, n);
}

/// A line added at the end changes a lookup only where nothing was found.
pub proof fn lemma_lookup_push(ls: Seq<EnvLineView>, x: EnvLineView, k: Seq<char>)
    ensures
        lookup_first(ls.push(x), k) == (if lookup_first(ls, k) is Some {
            lookup_first(ls, k)
        } else if has_key(x, k) {
            Some(value_of(x))
        } else {
            None
        }),
{
    lemma_key_index(ls, k);
    let n = key_index(ls, k);
    let p = ls.push(x);
    assert forall|j: int| 0 <= j < n implies !has_key(#[trigger] p[j], k) by {
        assert(p[j] == ls[j]);
    }
    if n < ls.len() {
        assert(p[n] == ls[n]);
        lemma_key_index_unique(p, k, n);
    } else if has_key(x, k) {
        lemma_key_index_unique(p, k, n);
    } else {
        assert forall|j: int| 0 <= j < p.len() implies !has_key(#[trigger] p[j], k) by {
            if j < ls.len() {
                assert(p[j] == ls[j]);
            }
        }
        lemma_key_index_unique(p, k, p.len() as int);
    }
}

/// Setting `k` makes `k` read as the new value and leaves other keys alone.
pub proof fn lemma_set_lines_lookup(ls: Seq<EnvLineView>, k: Seq<char>, v: Seq<char>, k2: Seq<char>)
    ensures
        lookup_first(set_lines(ls, k, v), k) == Some(v),
        k2 != k ==> lookup_first(set_lines(ls, k, v), k2) == lookup_first(ls, k2),
{
    lemma_key_index(ls, k);
    let i = key_index(ls, k);
    let line = EnvLineView::KeyValue { key: k, value: v };
    if i < ls.len() {
        let u = ls.update(i, line);
        assert forall|j: int| 0 <= j < i implies !has_key(#[trigger] u[j], k) by {
            assert(u[j] == ls[j]);
        }
        lemma_key_index_unique(u, k, i);
        if k2 != k {
            assert forall|j: int| 0 <= j < ls.len() implies (has_key(#[trigger] ls[j], k2) <==> has_key(
                u[j],
                k2,
            )) by {
                if j != i {
                    assert(u[j] == ls[j]);
                }
            }
            assert forall|j: int|
                0 <= j < ls.len() && has_key(#[trigger] ls[j], k2) implies value_of(ls[j])
                == value_of(u[j]) by {
                if j != i {
                    assert(u[j] == ls[j]);
                }
            }
            lemma_lookup_pointwise(ls, u, k2);
        }
    } else {
        assert(lookup_first(ls, k) is None);
        let base = if ls.len() > 0 && ls.last() is KeyValue {
            ls.push(EnvLineView::Blank)
        } else {
            ls
        };
        if ls.len() > 0 && ls.last() is KeyValue {
            lemma_lookup_push(ls, EnvLineView::Blank, k);
            lemma_lookup_push(ls, EnvLineView::Blank, k2);
        }
        lemma_lookup_push(base, line, k);
        lemma_lookup_push(base, line, k2);
    }
}

/// After removing `k`, `k` reads as nothing and other keys keep their values.
pub proof fn lemma_remove_key_lookup(ls: Seq<EnvLineView>, k: Seq<char>, k2: Seq<char>)
    ensures
        lookup_first(remove_key(ls, k), k) is None,
        k2 != k ==> lookup_first(remove_key(ls, k), k2) == lookup_first(ls, k2),
    decreases ls.len(),
{
    if ls.len() > 0 {
        let init = ls.drop_last();
        let x = ls.last();
        lemma_remove_key_lookup(init, k, k2);
        assert(ls =~= init.push(x));
        let r = remove_key(init, k);
        lemma_lookup_push(init, x, k2);
        if !has_key(x, k) {
            lemma_lookup_push(r, x, k);
            lemma_lookup_push(r, x, k2);
        }
    }
}

/// Removing `k` keeps every line exactly when no line sets `k`.
pub proof fn lemma_remove_key_len(ls: Seq<EnvLineView>, k: Seq<char>)
    ensures
        remove_key(ls, k).len() <= ls.len(),
        remove_key(ls, k).len() == ls.len() <==> lookup_first(ls, k) is None,
    decreases ls.len(),
{
    if ls.len() > 0 {
        let init = ls.drop_last();
        lemma_remove_key_len(init, k);
        assert(ls =~= init.push(ls.last()));
        lemma_lookup_push(init, ls.last(), k);
    }
}

// ---------------------------------------------------------------------------
// Lemmas on writing lines back as text and reading them again
/// Which lines a text line sets, and to what, depends only on its trimmed text.
pub open spec fn same_entry(a: EnvLineView, b: EnvLineView) -> bool {
    &&& (a is KeyValue <==> b is KeyValue)
    &&& (a is KeyValue ==> a->key == b->key && a->value == b->value)
}

/// A line that, written out, has no line break and reads back as itself.
pub open spec fn round_trips(l: EnvLineView) -> bool {
    lacks(render_line(l), '\n') && same_entry(parse_line(render_line(l)), l)
}

pub proof fn lemma_parse_line_strip_cr(s: Seq<char>)
    ensures
        same_entry(parse_line(strip_cr(s)), parse_line(s)),
{
    lemma_trim_strip_cr(s);
}

pub proof fn lemma_trim_lacks(s: Seq<char>, c: char)
    requires
        lacks(s, c),
    ensures
        lacks(trim(s), c),
{
    lemma_trim_shape(s);
    let a = s.len() - trim_start(s).len();
    assert forall|i: int| 0 <= i < trim(s).len() implies trim(s)[i] != c by {
        assert(trim(s)[i] == s[a + i]);
    }
}

/// A clean key and value, written as `key=value`, read back as themselves.
pub proof fn lemma_clean_entry_round_trips(k: Seq<char>, v: Seq<char>)
    requires
        clean_entry(k, v),
    ensures
        round_trips(EnvLineView::KeyValue { key: k, value: v }),
{
    let x = k + seq!['='] + v;
    assert(x.len() > 0);
    if k.len() > 0 {
        assert(x[0] == k[0]);
    }
    if v.len() > 0 {
        assert(x.last() == v.last());
    }
    assert(is_trimmed(x));
    lemma_trim_trimmed(x);
    assert forall|j: int| 0 <= j < k.len() implies x[j] != '=' by {
        assert(x[j] == k[j]);
    }
    lemma_first_index_unique(x, '=', k.len() as int);
    assert(x.take(k.len() as int) =~= k);
    assert(x.skip(k.len() as int + 1) =~= v);
    lemma_trim_trimmed(k);
    lemma_trim_trimmed(v);
    assert forall|j: int| 0 <= j < x.len() implies x[j] != '\n' by {
        if j < k.len() {
            assert(x[j] == k[j]);
        } else if j > k.len() {
            assert(x[j] == v[j - k.len() - 1]);
        }
    }
}

/// Every line read from a line of text without a line break reads back as
/// itself once written out.
pub proof fn lemma_parsed_line_round_trips(line: Seq<char>)
    requires
        lacks(line, '\n'),
    ensures
        round_trips(parse_line(line)),
{
    let t = trim(line);
    lemma_trim_shape(line);
    lemma_trim_lacks(line, '\n');
    if t.len() == 0 {
        assert(trim(Seq::<char>::empty()) =~= Seq::<char>::empty());
    } else if t[0] == '#' {
    } else {
        let i = first_index_of(t, '=');
        lemma_first_index_of(t, '=');
        if i < t.len() {
            let before = t.take(i);
            let after = t.skip(i + 1);
            let k = trim(before);
            let v = trim(after);
            lemma_trim_shape(before);
            lemma_trim_shape(after);
            assert(lacks(before, '=')) by {
                assert forall|j: int| 0 <= j < before.len() implies before[j] != '=' by {
                    assert(before[j] == t[j]);
                }
            }
            assert(lacks(before, '\n')) by {
                assert forall|j: int| 0 <= j < before.len() implies before[j] != '\n' by {
                    assert(before[j] == t[j]);
                }
            }
            assert(lacks(after, '\n')) by {
                assert forall|j: int| 0 <= j < after.len() implies after[j] != '\n' by {
                    assert(after[j] == t[j + i + 1]);
                }
            }
            lemma_trim_lacks(before, '=');
            lemma_trim_lacks(before, '\n');
            lemma_trim_lacks(after, '\n');
            if i > 0 {
                assert(before[0] == t[0]);
            } else {
                assert(before.len() == 0);
                assert(trim(before) =~= Seq::<char>::empty());
            }
            lemma_clean_entry_round_trips(k, v);
        }
    }
}

/// All lines read from a text read back as themselves once written out.
pub proof fn lemma_parse_text_round_trips(content: Seq<char>)
    ensures
        forall|j: int|
            0 <= j < parse_text(content).len() ==> round_trips(#[trigger] parse_text(content)[j]),
{
    lemma_text_lines_no_nl(content);
    assert forall|j: int| 0 <= j < parse_text(content).len() implies round_trips(
        #[trigger] parse_text(content)[j],
    ) by {
        assert(lacks(text_lines(content)[j], '\n'));
        lemma_parsed_line_round_trips(text_lines(content)[j]);
    }
}

/// `p` reads, line by line, as `ls` does, but for one line that sets no key
/// at the end of one of them.
pub open spec fn same_entries(p: Seq<EnvLineView>, ls: Seq<EnvLineView>) -> bool {
    &&& forall|j: int| 0 <= j < p.len() && j < ls.len() ==> same_entry(#[trigger] p[j], ls[j])
    &&& {
        ||| p.len() == ls.len()
        ||| p.len() + 1 == ls.len() && !(ls.last() is KeyValue)
        ||| p.len() == ls.len() + 1 && !(p.last() is KeyValue)
    }
}

/// The last-line lookup agrees on lines that agree, line by line, on which
/// set `k` and to what.
pub proof fn lemma_lookup_last_pointwise(a: Seq<EnvLineView>, b: Seq<EnvLineView>, k: Seq<char>)
    requires
        a.len() == b.len(),
        forall|j: int|
            0 <= j < a.len() ==> (has_key(#[trigger] a[j], k) <==> has_key(b[j], k)),
        forall|j: int|
            0 <= j < a.len() && has_key(#[trigger] a[j], k) ==> value_of(a[j]) == value_of(b[j]),
    ensures
        lookup_last(a, k) == lookup_last(b, k),
    decreases a.len(),
{
    if a.len() > 0 {
        let a1 = a.drop_last();
        let b1 = b.drop_last();
        assert forall|j: int| 0 <= j < a1.len() implies (has_key(#[trigger] a1[j], k) <==> has_key(
            b1[j],
            k,
        )) && (has_key(a1[j], k) ==> value_of(a1[j]) == value_of(b1[j])) by {
            assert(a1[j] == a[j]);
            assert(b1[j] == b[j]);
        }
        lemma_lookup_last_pointwise(a1, b1, k);
        assert(has_key(a[a.len() - 1], k) <==> has_key(b[b.len() - 1], k));
    }
}

proof fn lemma_same_len_lookups(a: Seq<EnvLineView>, b: Seq<EnvLineView>, k: Seq<char>)
    requires
        a.len() == b.len(),
        forall|j: int| 0 <= j < a.len() ==> same_entry(#[trigger] a[j], b[j]),
    ensures
        lookup_first(a, k) == lookup_first(b, k),
        lookup_last(a, k) == lookup_last(b, k),
{
    assert forall|j: int| 0 <= j < a.len() implies (has_key(#[trigger] a[j], k) <==> has_key(b[j], k))
        && (has_key(a[j], k) ==> value_of(a[j]) == value_of(b[j])) by {
        assert(same_entry(a[j], b[j]));
    }
    lemma_lookup_pointwise(a, b, k);
    lemma_lookup_last_pointwise(a, b, k);
}

/// Lines that read alike give every key the same first and last value.
pub proof fn lemma_same_entries_lookup(p: Seq<EnvLineView>, ls: Seq<EnvLineView>, k: Seq<char>)
    requires
        same_entries(p, ls),
    ensures
        lookup_first(p, k) == lookup_first(ls, k),
        lookup_last(p, k) == lookup_last(ls, k),
{
    if p.len() == ls.len() {
        lemma_same_len_lookups(p, ls, k);
    } else if p.len() + 1 == ls.len() {
        let init = ls.drop_last();
        assert forall|j: int| 0 <= j < p.len() implies same_entry(#[trigger] p[j], init[j]) by {
            assert(init[j] == ls[j]);
        }
        lemma_same_len_lookups(p, init, k);
        assert(ls =~= init.push(ls.last()));
        lemma_lookup_push(init, ls.last(), k);
    } else {
        let init = p.drop_last();
        assert forall|j: int| 0 <= j < init.len() implies same_entry(#[trigger] init[j], ls[j]) by {
            assert(init[j] == p[j]);
        }
        lemma_same_len_lookups(init, ls, k);
        assert(p =~= init.push(p.last()));
        lemma_lookup_push(init, p.last(), k);
    }
}

/// Lines that read back as themselves, written out with a final line break
/// and read again, read alike.
pub proof fn lemma_reparse_shape(ls: Seq<EnvLineView>)
    requires
        forall|j: int| 0 <= j < ls.len() ==> round_trips(#[trigger] ls[j]),
    ensures
        same_entries(parse_text(with_final_newline(render_lines(ls))), ls),
        forall|j: int|
            0 <= j < parse_text(with_final_newline(render_lines(ls))).len() && j < ls.len()
                ==> #[trigger] parse_text(with_final_newline(render_lines(ls)))[j] == parse_line(
                strip_cr(render_line(ls[j])),
            ),
        ({
            let p = parse_text(with_final_newline(render_lines(ls)));
            ||| p.len() == ls.len()
            ||| p.len() + 1 == ls.len() && render_line(ls.last()).len() == 0
            ||| ls.len() == 0 && p.len() == 1 && p[0] == EnvLineView::Blank
        }),
{
    let m = ls.map_values(|l: EnvLineView| render_line(l));
    let out = with_final_newline(render_lines(ls));
    assert forall|j: int| 0 <= j < m.len() implies lacks(#[trigger] m[j], '\n') by {
        assert(round_trips(ls[j]));
    }
    if ls.len() == 0 {
        assert(render_lines(ls) =~= Seq::<char>::empty());
        assert(out =~= seq!['\n']);
        lemma_text_lines_cons(Seq::<char>::empty(), Seq::<char>::empty());
        assert(text_lines(Seq::<char>::empty()) =~= Seq::<Seq<char>>::empty());
        assert(strip_cr(Seq::<char>::empty()) =~= Seq::<char>::empty());
        assert(trim(Seq::<char>::empty()) =~= Seq::<char>::empty());
        let p = parse_text(out);
        assert(p.len() == 1);
        assert(p[0] == parse_line(Seq::<char>::empty()));
        assert(p.last() == EnvLineView::Blank);
    } else {
        lemma_join_last(m);
        let last = ls.last();
        assert(m.last() == render_line(last));
        if m.last().len() > 0 || m.len() == 1 {
            // the text gets a final line break: every line followed by one
            if m.last().len() > 0 {
                assert(render_lines(ls).last() != '\n');
            } else {
                assert(render_lines(ls) == m[0]);
            }
            assert(out =~= render_lines(ls).push('\n'));
            lemma_join_then_newline(m);
            lemma_text_lines_terminated(m);
            let p = parse_text(out);
            assert(p.len() == ls.len());
            assert forall|j: int| 0 <= j < p.len() && j < ls.len() implies same_entry(
                #[trigger] p[j],
                ls[j],
            ) && p[j] == parse_line(strip_cr(render_line(ls[j]))) by {
                assert(p[j] == parse_line(strip_cr(m[j])));
                lemma_parse_line_strip_cr(m[j]);
                assert(round_trips(ls[j]));
            }
        } else {
            // the last line is empty: the text already ends in a line break
            let n = m.len() - 1;
            let init = ls.drop_last();
            let mi = init.map_values(|l: EnvLineView| render_line(l));
            assert(m.take(n) =~= mi);
            assert(m.take(n + 1) =~= m);
            lemma_join_snoc(m, n as int);
            assert(render_lines(ls) =~= join_lines(mi).push('\n'));
            assert(out == render_lines(ls));
            lemma_join_then_newline(mi);
            assert forall|j: int| 0 <= j < mi.len() implies lacks(#[trigger] mi[j], '\n') by {
                assert(mi[j] == m[j]);
            }
            lemma_text_lines_terminated(mi);
            let p = parse_text(out);
            assert(p.len() == init.len());
            assert forall|j: int| 0 <= j < p.len() && j < ls.len() implies same_entry(
                #[trigger] p[j],
                ls[j],
            ) && p[j] == parse_line(strip_cr(render_line(ls[j]))) by {
                assert(p[j] == parse_line(strip_cr(mi[j])));
                assert(mi[j] == m[j]);
                lemma_parse_line_strip_cr(mi[j]);
                assert(init[j] == ls[j]);
                assert(round_trips(ls[j]));
            }
            assert(round_trips(last));
            assert(trim(Seq::<char>::empty()) =~= Seq::<char>::empty());
            assert(!(last is KeyValue));
        }
    }
}

/// Lines that read back as themselves, written out with a final line break
/// and read again, give every key the values it had.
pub proof fn lemma_reparse(ls: Seq<EnvLineView>, k: Seq<char>)
    requires
        forall|j: int| 0 <= j < ls.len() ==> round_trips(#[trigger] ls[j]),
    ensures
        lookup_first(parse_text(with_final_newline(render_lines(ls))), k) == lookup_first(ls, k),
        lookup_last(parse_text(with_final_newline(render_lines(ls))), k) == lookup_last(ls, k),
{
    lemma_reparse_shape(ls);
    lemma_same_entries_lookup(parse_text(with_final_newline(render_lines(ls))), ls, k);
}

// ---------------------------------------------------------------------------
// Reading and writing the configuration text
/// The line `v[lo..hi]` as it reads.
fn parse_line_range(v: &Vec<char>, lo: usize, hi: usize) -> (l: EnvLine)
    requires
        lo <= hi <= v.len(),
    ensures
        l@ == parse_line(v@.subrange(lo as int, hi as int)),
{
    let ghost line = v@.subrange(lo as int, hi as int);
    let (a, b) = trim_range(v, lo, hi);
    let ghost t = trim(line);
    if a == b {
        return EnvLine::Blank;
    }
    proof {
        assert(t[0] == v@[a as int]);
    }
    if v[a] == '#' {
        return EnvLine::Comment(string_of_range(v, lo, hi));
    }
    let e = find_char(v, a, b, '=');
    if e < b {
        let (ka, kb) = trim_range(v, a, e);
        let (va, vb) = trim_range(v, e + 1, b);
        proof {
            assert(v@.subrange(a as int, e as int) =~= t.take(e - a));
            assert(v@.subrange(e + 1, b as int) =~= t.skip(e - a + 1));
        }
        EnvLine::KeyValue { key: string_of_range(v, ka, kb), value: string_of_range(v, va, vb) }
    } else {
        EnvLine::Comment(string_of_range(v, lo, hi))
    }
}

/// A copy of a line.
fn copy_line(l: &EnvLine) -> (r: EnvLine)
    ensures
        r@ == l@,
{
    match l {
        EnvLine::KeyValue { key, value } => EnvLine::KeyValue { key: key.clone(), value: value.clone() },
        EnvLine::Comment(c) => EnvLine::Comment(c.clone()),
        EnvLine::Blank => EnvLine::Blank,
    }
}

/// Reads the lines of a configuration text.
pub fn parse_env_lines(content: &str) -> (res: Vec<EnvLine>)
    ensures
        views(res@) == parse_text(content@),
{
    let v = chars_of(content);
    let n = v.len();
    let mut res: Vec<EnvLine> = Vec::new();
    let mut pos: usize = 0;
    let ghost mut done: Seq<Seq<char>> = seq![];
    proof {
        assert(v@.skip(0) =~= v@);
        assert(done + text_lines(v@.skip(0)) =~= text_lines(v@));
        assert(views(res@) =~= done.map_values(|l: Seq<char>| parse_line(l)));
    }
    while pos < n
        invariant
            pos <= n == v.len(),
            v@ == content@,
            done + text_lines(v@.skip(pos as int)) == text_lines(v@),
            views(res@) == done.map_values(|l: Seq<char>| parse_line(l)),
        decreases n - pos,
    {
        let (end, next) = next_line(&v, pos);
        let ghost piece = v@.subrange(pos as int, end as int);
        let line = parse_line_range(&v, pos, end);
        let ghost lv = line@;
        let ghost old_views = views(res@);
        res.push(line);
        proof {
            assert(views(res@) =~= old_views.push(lv));
            let old_done = done;
            done = done.push(piece);
            assert(views(res@) =~= done.map_values(|l: Seq<char>| parse_line(l)));
            assert(done + text_lines(v@.skip(next as int)) =~= old_done + text_lines(v@.skip(pos as int)));
        }
        pos = next;
    }
    proof {
        assert(v@.skip(n as int) =~= Seq::<char>::empty());
        assert(done =~= text_lines(v@));
        assert(text_lines(v@) == text_lines(content@));
    }
    res
}

/// Appends the text of one line.
fn push_rendered(out: &mut String, l: &EnvLine)
    ensures
        final(out)@ == old(out)@ + render_line(l@),
{
    match l {
        EnvLine::KeyValue { key, value } => {
            out.append(key.as_str());
            push_char(out, '=');
            out.append(value.as_str());
            proof {
                assert(final(out)@ =~= old(out)@ + render_line(l@));
            }
        },
        EnvLine::Comment(c) => {
            out.append(c.as_str());
        },
        EnvLine::Blank => {
            proof {
                assert(old(out)@ + render_line(l@) =~= old(out)@);
            }
        },
    }
}

/// Writes lines as text, joined with `\n`.
pub fn serialize_env_lines(lines: &[EnvLine]) -> (res: String)
    ensures
        res@ == render_lines(views(lines@)),
{
    let ghost m = views(lines@).map_values(|l: EnvLineView| render_line(l));
    let mut res = String::new();
    let mut i: usize = 0;
    while i < lines.len()
        invariant
            0 <= i <= lines.len(),
            m == views(lines@).map_values(|l: EnvLineView| render_line(l)),
            res@ == join_lines(m.take(i as int)),
        decreases lines.len() - i,
    {
        let ghost before = res@;
        if i > 0 {
            push_char(&mut res, '\n');
        }
        push_rendered(&mut res, &lines[i]);
        proof {
            assert(m[i as int] == render_line(lines@[i as int]@));
            if i > 0 {
                lemma_join_snoc(m, i as int);
                assert(res@ =~= join_lines(m.take(i as int)) + seq!['\n'] + m[i as int]);
            } else {
                assert(m.take(1).len() == 1);
                assert(join_lines(m.take(1)) == m.take(1)[0]);
                assert(join_lines(m.take(0)) =~= Seq::<char>::empty());
                assert(res@ =~= m[0]);
            }
        }
        i = i + 1;
    }
    proof {
        assert(m.take(lines@.len() as int) =~= m);
    }
    res
}

/// Index of the first line that sets `key`, or the number of lines.
fn find_key(lines: &Vec<EnvLine>, key: &String) -> (i: usize)
    ensures
        i == key_index(views(lines@), key@),
{
    let mut i: usize = 0;
    while i < lines.len()
        invariant
            i <= lines.len(),
            forall|j: int| 0 <= j < i ==> !has_key(#[trigger] views(lines@)[j], key@),
        decreases lines.len() - i,
    {
        if let EnvLine::KeyValue { key: k, .. } = &lines[i] {
            if *k == *key {
                proof {
                    lemma_key_index_unique(views(lines@), key@, i as int);
                }
                return i;
            }
        }
        i = i + 1;
    }
    proof {
        lemma_key_index_unique(views(lines@), key@, i as int);
    }
    i
}

/// Ends the text with a line break unless it already ends with one.
fn finish_with_newline(s: String) -> (r: String)
    ensures
        r@ == with_final_newline(s@),
{
    let v = chars_of(s.as_str());
    if v.len() > 0 && v[v.len() - 1] == '\n' {
        s
    } else {
        let mut r = s;
        push_char(&mut r, '\n');
        r
    }
}

/// The value of `key` in a configuration text: the value of the first line
/// that sets it.
pub fn get_env_value(content: &str, key: &str) -> (r: Option<String>)
    ensures
        opt_view(r) == get_value_spec(content@, key@),
{
    let lines = parse_env_lines(content);
    let key_s = key.to_owned();
    let i = find_key(&lines, &key_s);
    proof {
        lemma_key_index(views(lines@), key@);
    }
    if i < lines.len() {
        match &lines[i] {
            EnvLine::KeyValue { value, .. } => Some(value.clone()),
            _ => None,
        }
    } else {
        None
    }
}

/// All `(key, value)` pairs of a configuration text, in order.
pub fn get_all_env_values(content: &str) -> (r: Vec<(String, String)>)
    ensures
        r@.len() == entries(parse_text(content@)).len(),
        forall|i: int|
            0 <= i < r@.len() ==> (#[trigger] r@[i]).0@ == entries(parse_text(content@))[i].0
                && r@[i].1@ == entries(parse_text(content@))[i].1,
{
    let lines = parse_env_lines(content);
    let ghost ls = views(lines@);
    let mut r: Vec<(String, String)> = Vec::new();
    let mut i: usize = 0;
    while i < lines.len()
        invariant
            i <= lines.len(),
            ls == views(lines@),
            r@.len() == entries(ls.take(i as int)).len(),
            forall|j: int|
                0 <= j < r@.len() ==> (#[trigger] r@[j]).0@ == entries(ls.take(i as int))[j].0
                    && r@[j].1@ == entries(ls.take(i as int))[j].1,
        decreases lines.len() - i,
    {
        proof {
            assert(ls.take(i + 1).drop_last() =~= ls.take(i as int));
            assert(ls.take(i + 1).last() == lines@[i as int]@);
        }
        if let EnvLine::KeyValue { key, value } = &lines[i] {
            r.push((key.clone(), value.clone()));
        }
        i = i + 1;
    }
    proof {
        assert(ls.take(lines@.len() as int) =~= ls);
    }
    r
}

/// The configuration text after setting `key` to `value`: the first line
/// that sets `key` takes the new value; when no line sets it, the line
/// `key=value` is added at the end (after a blank line when the last line
/// sets a key); the text ends with a line break.
pub fn set_env_value(content: &str, key: &str, value: &str) -> (r: String)
    ensures
        r@ == set_text(content@, key@, value@),
{
    let mut lines = parse_env_lines(content);
    let ghost ls = views(lines@);
    let key_s = key.to_owned();
    let i = find_key(&lines, &key_s);
    let new_line = EnvLine::KeyValue { key: key_s, value: value.to_owned() };
    if i < lines.len() {
        lines.set(i, new_line);
        proof {
            assert(views(lines@) =~= ls.update(i as int, new_line@));
        }
    } else {
        if lines.len() > 0 {
            if let EnvLine::KeyValue { .. } = &lines[lines.len() - 1] {
                lines.push(EnvLine::Blank);
            }
        }
        proof {
            if ls.len() > 0 && ls.last() is KeyValue {
                assert(views(lines@) =~= ls.push(EnvLineView::Blank));
            } else {
                assert(views(lines@) =~= ls);
            }
        }
        let ghost base = views(lines@);
        lines.push(new_line);
        proof {
            assert(views(lines@) =~= base.push(new_line@));
        }
    }
    proof {
        assert(views(lines@) == set_lines(ls, key@, value@));
    }
    let text = serialize_env_lines(lines.as_slice());
    finish_with_newline(text)
}

/// The message for a key that no line sets: `配置项 'key' 不存在`.
pub fn missing_key_message(key: &str) -> (r: String)
    ensures
        r@ == "配置项 '"@ + key@ + "' 不存在"@,
{
    let mut msg = "配置项 '".to_owned();
    msg.append(key);
    msg.append("' 不存在");
    msg
}

/// The configuration text after removing every line that sets `key`, or,
/// when no line sets it, the message that it does not exist.
pub fn unset_env_value(content: &str, key: &str) -> (r: Result<String, String>)
    ensures
        match r {
            Ok(s) => get_value_spec(content@, key@) is Some && s@ == unset_text(content@, key@),
            Err(e) => get_value_spec(content@, key@) is None && e@ == "配置项 '"@ + key@
                + "' 不存在"@,
        },
{
    let lines = parse_env_lines(content);
    let ghost ls = views(lines@);
    let key_s = key.to_owned();
    let mut kept: Vec<EnvLine> = Vec::new();
    let mut i: usize = 0;
    while i < lines.len()
        invariant
            i <= lines.len(),
            ls == views(lines@),
            views(kept@) == remove_key(ls.take(i as int), key_s@),
            key_s@ == key@,
        decreases lines.len() - i,
    {
        proof {
            assert(ls.take(i + 1).drop_last() =~= ls.take(i as int));
            assert(ls.take(i + 1).last() == lines@[i as int]@);
        }
        let drop = match &lines[i] {
            EnvLine::KeyValue { key: k, .. } => *k == key_s,
            _ => false,
        };
        if !drop {
            let ghost before = views(kept@);
            kept.push(copy_line(&lines[i]));
            proof {
                assert(views(kept@) =~= before.push(lines@[i as int]@));
            }
        }
        i = i + 1;
    }
    proof {
        assert(ls.take(lines@.len() as int) =~= ls);
        lemma_remove_key_len(ls, key@);
    }
    if kept.len() == lines.len() {
        Err(missing_key_message(key))
    } else {
        let text = serialize_env_lines(kept.as_slice());
        Ok(finish_with_newline(text))
    }
}


/// The value of the last line that sets `key`.
fn last_value(lines: &Vec<EnvLine>, key: &str) -> (r: Option<String>)
    ensures
        opt_view(r) == lookup_last(views(lines@), key@),
{
    let ghost ls = views(lines@);
    let key_s = key.to_owned();
    let mut cur: Option<String> = None;
    let mut i: usize = 0;
    while i < lines.len()
        invariant
            i <= lines.len(),
            ls == views(lines@),
            key_s@ == key@,
            opt_view(cur) == lookup_last(ls.take(i as int), key@),
        decreases lines.len() - i,
    {
        proof {
            assert(ls.take(i + 1).drop_last() =~= ls.take(i as int));
            assert(ls.take(i + 1).last() == lines@[i as int]@);
        }
        if let EnvLine::KeyValue { key: k, value } = &lines[i] {
            if *k == key_s {
                cur = Some(value.clone());
            }
        }
        i = i + 1;
    }
    proof {
        assert(ls.take(lines@.len() as int) =~= ls);
    }
    cur
}

/// A numeric setting: the value of the last line that sets `key` when it
/// parses as a number not above `max`, else `default`.
fn number_or(lines: &Vec<EnvLine>, key: &str, max: u64, default: u64) -> (n: u64)
    requires
        default <= max,
    ensures
        n as nat == number_setting(views(lines@), key@, max as nat, default as nat),
        n <= max,
{
    match last_value(lines, key) {
        Some(p) => match parse_unsigned(p.as_str(), max) {
            Some(n) => n,
            None => default,
        },
        None => default,
    }
}

impl Config {
    /// The settings of a configuration text; a key set more than once takes
    /// the value of its last line. `KEY` is required; `HOST` defaults to
    /// `127.0.0.1`, `PORT` to 8890, `MAX_RETRIES` to 3, `RETRY_DELAY` to
    /// 1000 and `REQUEST_TIMEOUT` to 60000, which also stand for a value
    /// that does not parse as a number of the field's type.
    pub fn from_config(content: &str) -> (c: Config)
        requires
            lookup_last(parse_text(content@), "KEY"@) is Some,
        ensures
            c.zhipu_api_key@ == lookup_last(parse_text(content@), "KEY"@)->0,
            c.host@ == (match lookup_last(parse_text(content@), "HOST"@) {
                Some(h) => h,
                None => "127.0.0.1"@,
            }),
            c.port as nat == number_setting(parse_text(content@), "PORT"@, 65535, 8890),
            c.max_retries as nat == number_setting(parse_text(content@), "MAX_RETRIES"@, 4294967295, 3),
            c.retry_delay_ms as nat == number_setting(
                parse_text(content@),
                "RETRY_DELAY"@,
                18446744073709551615,
                1000,
            ),
            c.request_timeout_ms as nat == number_setting(
                parse_text(content@),
                "REQUEST_TIMEOUT"@,
                18446744073709551615,
                60000,
            ),
    {
        let lines = parse_env_lines(content);
        let zhipu_api_key = match last_value(&lines, "KEY") {
            Some(k) => k,
            None => {
                proof {
                    assert(false);
                }
                String::new()
            },
        };
        let host = match last_value(&lines, "HOST") {
            Some(h) => h,
            None => "127.0.0.1".to_owned(),
        };
        let port = number_or(&lines, "PORT", 65535, 8890) as u16;
        let max_retries = number_or(&lines, "MAX_RETRIES", 4294967295, 3) as u32;
        let retry_delay_ms = number_or(&lines, "RETRY_DELAY", 18446744073709551615, 1000);
        let request_timeout_ms = number_or(&lines, "REQUEST_TIMEOUT", 18446744073709551615, 60000);
        Config { zhipu_api_key, host, port, max_retries, retry_delay_ms, request_timeout_ms }
    }
}

/// The host the server listens on: the one given on the command line, else
/// the last `HOST` line of the configuration text, else `127.0.0.1`.
pub open spec fn listen_host(content: Seq<char>, cli_host: Option<Seq<char>>) -> Seq<char> {
    match cli_host {
        Some(h) => h,
        None => match lookup_last(parse_text(content), "HOST"@) {
            Some(h) => h,
            None => "127.0.0.1"@,
        },
    }
}

/// The port the server listens on: the one given on the command line, else
/// the configured `PORT` when it parses as a port, else 8890.
pub open spec fn listen_port(content: Seq<char>, cli_port: Option<u16>) -> nat {
    match cli_port {
        Some(p) => p as nat,
        None => number_setting(parse_text(content), "PORT"@, 65535, 8890),
    }
}

/// Where the server listens: a host or port given on the command line wins;
/// otherwise `HOST` and `PORT` of the configuration text are used, with the
/// same defaults as `Config::from_config`.
pub fn listen_endpoint(content: &str, cli_host: Option<&str>, cli_port: Option<u16>) -> (r: (
    String,
    u16,
))
    ensures
        r.0@ == listen_host(content@, opt_str_view(cli_host)),
        r.1 as nat == listen_port(content@, cli_port),
{
    let lines = parse_env_lines(content);
    let host = match cli_host {
        Some(h) => h.to_owned(),
        None => match last_value(&lines, "HOST") {
            Some(h) => h,
            None => "127.0.0.1".to_owned(),
        },
    };
    let port = match cli_port {
        Some(p) => p,
        None => number_or(&lines, "PORT", 65535, 8890) as u16,
    };
    (host, port)
}

// ---------------------------------------------------------------------------
// Paths
/// `PathBuf::join` of a relative path onto `base`: a `/` between them unless
/// `base` is empty or already ends with one.
pub fn path_join(base: &str, rel: &str) -> (r: String)
    requires
        rel@.len() > 0,
        rel@[0] != '/',
    ensures
        r@ == join_path(base@, rel@),
{
    let v = chars_of(base);
    let mut r = base.to_owned();
    if v.len() > 0 && v[v.len() - 1] != '/' {
        push_char(&mut r, '/');
    }
    r.append(rel);
    r
}

/// The configuration directory, `.glm-coding-xcode-proxy` under the home
/// directory.
pub fn config_dir(home: &str) -> (r: String)
    ensures
        r@ == config_dir_spec(home@),
{
    proof {
        reveal_strlit(".glm-coding-xcode-proxy");
    }
    path_join(home, ".glm-coding-xcode-proxy")
}

/// The configuration file, `config` in the configuration directory.
pub fn env_file_path(home: &str) -> (r: String)
    ensures
        r@ == join_path(config_dir_spec(home@), "config"@),
{
    let dir = config_dir(home);
    proof {
        reveal_strlit("config");
    }
    path_join(dir.as_str(), "config")
}

// ---------------------------------------------------------------------------
// Laws
proof fn lemma_blank_round_trips()
    ensures
        round_trips(EnvLineView::Blank),
{
    assert(trim(Seq::<char>::empty()) =~= Seq::<char>::empty());
}

proof fn lemma_set_lines_round_trip(ls: Seq<EnvLineView>, k: Seq<char>, v: Seq<char>)
    requires
        clean_entry(k, v),
        forall|j: int| 0 <= j < ls.len() ==> round_trips(#[trigger] ls[j]),
    ensures
        forall|j: int|
            0 <= j < set_lines(ls, k, v).len() ==> round_trips(#[trigger] set_lines(ls, k, v)[j]),
{
    lemma_clean_entry_round_trips(k, v);
    lemma_blank_round_trips();
    lemma_key_index(ls, k);
}

proof fn lemma_remove_key_round_trip(ls: Seq<EnvLineView>, k: Seq<char>)
    requires
        forall|j: int| 0 <= j < ls.len() ==> round_trips(#[trigger] ls[j]),
    ensures
        forall|j: int|
            0 <= j < remove_key(ls, k).len() ==> round_trips(#[trigger] remove_key(ls, k)[j]),
    decreases ls.len(),
{
    if ls.len() > 0 {
        let init = ls.drop_last();
        assert forall|j: int| 0 <= j < init.len() implies round_trips(#[trigger] init[j]) by {
            assert(init[j] == ls[j]);
        }
        lemma_remove_key_round_trip(init, k);
        let r = remove_key(init, k);
        assert(round_trips(ls.last()));
        if !has_key(ls.last(), k) {
            assert forall|j: int| 0 <= j < r.push(ls.last()).len() implies round_trips(
                #[trigger] r.push(ls.last())[j],
            ) by {
                if j < r.len() {
                    assert(r.push(ls.last())[j] == r[j]);
                }
            }
        }
    }
}

/// At most one line of `ls` sets `k`.
pub open spec fn sets_at_most_once(ls: Seq<EnvLineView>, k: Seq<char>) -> bool {
    forall|i: int, j: int|
        0 <= i < ls.len() && 0 <= j < ls.len() && has_key(#[trigger] ls[i], k) && has_key(
            #[trigger] ls[j],
            k,
        ) ==> i == j
}

/// A key set on one line only reads, as the last line sets it, that line's value.
proof fn lemma_lookup_last_single(ls: Seq<EnvLineView>, k: Seq<char>, i: int)
    requires
        0 <= i < ls.len(),
        has_key(ls[i], k),
        forall|j: int| 0 <= j < ls.len() && j != i ==> !has_key(#[trigger] ls[j], k),
    ensures
        lookup_last(ls, k) == Some(value_of(ls[i])),
    decreases ls.len(),
{
    if i != ls.len() - 1 {
        let init = ls.drop_last();
        assert(!has_key(ls[ls.len() - 1], k));
        assert forall|j: int| 0 <= j < init.len() && j != i implies !has_key(#[trigger] init[j], k) by {
            assert(init[j] == ls[j]);
        }
        assert(init[i] == ls[i]);
        lemma_lookup_last_single(init, k, i);
    }
}

/// Setting `k`, where at most one line sets it, makes the last line that
/// sets `k` carry the new value, and leaves the last value of other keys alone.
proof fn lemma_set_lines_lookup_last(ls: Seq<EnvLineView>, k: Seq<char>, v: Seq<char>, k2: Seq<char>)
    requires
        sets_at_most_once(ls, k),
    ensures
        lookup_last(set_lines(ls, k, v), k) == Some(v),
        k2 != k ==> lookup_last(set_lines(ls, k, v), k2) == lookup_last(ls, k2),
{
    lemma_key_index(ls, k);
    let i = key_index(ls, k);
    let line = EnvLineView::KeyValue { key: k, value: v };
    let r = set_lines(ls, k, v);
    if i < ls.len() {
        assert(r == ls.update(i, line));
        assert forall|j: int| 0 <= j < r.len() && j != i implies !has_key(#[trigger] r[j], k) by {
            assert(r[j] == ls[j]);
            if has_key(ls[j], k) {
                assert(has_key(ls[i], k));
            }
        }
        lemma_lookup_last_single(r, k, i);
        if k2 != k {
            assert forall|j: int| 0 <= j < r.len() implies (has_key(#[trigger] r[j], k2) <==> has_key(
                ls[j],
                k2,
            )) && (has_key(r[j], k2) ==> value_of(r[j]) == value_of(ls[j])) by {
                if j != i {
                    assert(r[j] == ls[j]);
                }
            }
            lemma_lookup_last_pointwise(r, ls, k2);
        }
    } else {
        let base = if ls.len() > 0 && ls.last() is KeyValue {
            ls.push(EnvLineView::Blank)
        } else {
            ls
        };
        assert(r == base.push(line));
        assert(r.drop_last() =~= base);
        if k2 != k {
            assert(!has_key(r.last(), k2));
            assert(lookup_last(r, k2) == lookup_last(base, k2));
            if ls.len() > 0 && ls.last() is KeyValue {
                assert(base.drop_last() =~= ls);
                assert(!has_key(base.last(), k2));
                assert(lookup_last(base, k2) == lookup_last(ls, k2));
            }
        }
    }
}

/// Reading a key after setting it gives the value set, and every other key
/// keeps the value it had, for a key and value that can be written as a
/// `key=value` line (see `clean_entry`).
pub proof fn law_set_then_get(content: Seq<char>, key: Seq<char>, value: Seq<char>, other: Seq<char>)
    requires
        clean_entry(key, value),
    ensures
        get_value_spec(set_text(content, key, value), key) == Some(value),
        other != key ==> get_value_spec(set_text(content, key, value), other) == get_value_spec(
            content,
            other,
        ),
{
    let ls = parse_text(content);
    lemma_parse_text_round_trips(content);
    lemma_set_lines_round_trip(ls, key, value);
    let ls1 = set_lines(ls, key, value);
    lemma_reparse(ls1, key);
    lemma_reparse(ls1, other);
    lemma_set_lines_lookup(ls, key, value, other);
}

/// After removing a key it reads as nothing, and every other key keeps the
/// value it had.
pub proof fn law_unset_then_get(content: Seq<char>, key: Seq<char>, other: Seq<char>)
    ensures
        get_value_spec(unset_text(content, key), key) is None,
        other != key ==> get_value_spec(unset_text(content, key), other) == get_value_spec(
            content,
            other,
        ),
{
    let ls = parse_text(content);
    lemma_parse_text_round_trips(content);
    lemma_remove_key_round_trip(ls, key);
    let ls1 = remove_key(ls, key);
    lemma_reparse(ls1, key);
    lemma_reparse(ls1, other);
    lemma_remove_key_lookup(ls, key, other);
}

/// Writing the lines of a configuration text back out, with a final line
/// break, keeps the value of every key.
pub proof fn law_rewrite_keeps_values(content: Seq<char>, key: Seq<char>)
    ensures
        get_value_spec(with_final_newline(render_lines(parse_text(content))), key) == get_value_spec(
            content,
            key,
        ),
{
    lemma_parse_text_round_trips(content);
    lemma_reparse(parse_text(content), key);
}

/// After setting a key that the text sets at most once, loading the
/// configuration reads the new value for it (a key set on several lines is
/// read from its last line, which setting leaves unchanged), and every other
/// key keeps the value it is loaded with.
pub proof fn law_set_then_load(content: Seq<char>, key: Seq<char>, value: Seq<char>, other: Seq<char>)
    requires
        clean_entry(key, value),
        sets_at_most_once(parse_text(content), key),
    ensures
        lookup_last(parse_text(set_text(content, key, value)), key) == Some(value),
        other != key ==> lookup_last(parse_text(set_text(content, key, value)), other)
            == lookup_last(parse_text(content), other),
{
    let ls = parse_text(content);
    lemma_parse_text_round_trips(content);
    lemma_set_lines_round_trip(ls, key, value);
    let ls1 = set_lines(ls, key, value);
    lemma_reparse(ls1, key);
    lemma_reparse(ls1, other);
    lemma_set_lines_lookup_last(ls, key, value, other);
}

// ---------------------------------------------------------------------------
// One source of truth: what the server loads and what `config get` shows
proof fn lemma_lookup_last_none(ls: Seq<EnvLineView>, k: Seq<char>)
    requires
        forall|j: int| 0 <= j < ls.len() ==> !has_key(#[trigger] ls[j], k),
    ensures
        lookup_last(ls, k) is None,
    decreases ls.len(),
{
    if ls.len() > 0 {
        let init = ls.drop_last();
        assert forall|j: int| 0 <= j < init.len() implies !has_key(#[trigger] init[j], k) by {
            assert(init[j] == ls[j]);
        }
        lemma_lookup_last_none(init, k);
        assert(!has_key(ls[ls.len() - 1], k));
    }
}

/// For a key that the text sets at most once, the value the configuration
/// loads (the last line) is the value `config get` shows (the first line).
pub proof fn law_load_agrees_with_get(content: Seq<char>, key: Seq<char>)
    requires
        sets_at_most_once(parse_text(content), key),
    ensures
        lookup_last(parse_text(content), key) == get_value_spec(content, key),
{
    let ls = parse_text(content);
    lemma_key_index(ls, key);
    let i = key_index(ls, key);
    if i < ls.len() {
        assert forall|j: int| 0 <= j < ls.len() && j != i implies !has_key(#[trigger] ls[j], key) by {
            if has_key(ls[j], key) {
                assert(has_key(ls[i], key));
            }
        }
        lemma_lookup_last_single(ls, key, i);
    } else {
        lemma_lookup_last_none(ls, key);
    }
}

/// The decimal text of a port is a value that can be written as a line, and
/// it parses back as the port.
proof fn lemma_port_text(p: u16)
    ensures
        clean_entry("PORT"@, decimal(p as nat)),
        parse_unsigned_spec(decimal(p as nat), 65535) == Some(p as nat),
{
    reveal_strlit("PORT");
    let d = decimal(p as nat);
    lemma_decimal(p as nat);
    assert(is_digit(d[0]));
    assert(is_digit(d.last()));
    assert(!is_ws(d[0]));
    assert(!is_ws(d.last()));
    assert forall|i: int| 0 <= i < d.len() implies d[i] != '\n' by {
        assert(is_digit(d[i]));
    }
    assert(d[0] != '+');
}

/// `config set PORT p`, on a text that sets `PORT` at most once, makes the
/// next load listen on port `p`, and every other setting loads as before.
pub proof fn law_set_port_then_load(content: Seq<char>, p: u16, other: Seq<char>)
    requires
        sets_at_most_once(parse_text(content), "PORT"@),
    ensures
        number_setting(parse_text(set_text(content, "PORT"@, decimal(p as nat))), "PORT"@, 65535, 8890)
            == p,
        other != "PORT"@ ==> lookup_last(parse_text(set_text(content, "PORT"@, decimal(p as nat))), other)
            == lookup_last(parse_text(content), other),
{
    lemma_port_text(p);
    law_set_then_load(content, "PORT"@, decimal(p as nat), other);
}

// ---------------------------------------------------------------------------
// How many lines set a key
/// The number of lines that set `k`.
pub open spec fn count_key(ls: Seq<EnvLineView>, k: Seq<char>) -> nat
    decreases ls.len(),
{
    if ls.len() == 0 {
        0
    } else {
        count_key(ls.drop_last(), k) + if has_key(ls.last(), k) {
            1nat
        } else {
            0nat
        }
    }
}

proof fn lemma_count_pointwise(a: Seq<EnvLineView>, b: Seq<EnvLineView>, k: Seq<char>)
    requires
        a.len() == b.len(),
        forall|j: int| 0 <= j < a.len() ==> (has_key(#[trigger] a[j], k) <==> has_key(b[j], k)),
    ensures
        count_key(a, k) == count_key(b, k),
    decreases a.len(),
{
    if a.len() > 0 {
        let a1 = a.drop_last();
        let b1 = b.drop_last();
        assert forall|j: int| 0 <= j < a1.len() implies (has_key(#[trigger] a1[j], k) <==> has_key(
            b1[j],
            k,
        )) by {
            assert(a1[j] == a[j]);
            assert(b1[j] == b[j]);
        }
        lemma_count_pointwise(a1, b1, k);
        assert(has_key(a[a.len() - 1], k) <==> has_key(b[b.len() - 1], k));
    }
}

proof fn lemma_count_zero(ls: Seq<EnvLineView>, k: Seq<char>)
    requires
        forall|j: int| 0 <= j < ls.len() ==> !has_key(#[trigger] ls[j], k),
    ensures
        count_key(ls, k) == 0,
    decreases ls.len(),
{
    if ls.len() > 0 {
        let init = ls.drop_last();
        assert forall|j: int| 0 <= j < init.len() implies !has_key(#[trigger] init[j], k) by {
            assert(init[j] == ls[j]);
        }
        lemma_count_zero(init, k);
        assert(!has_key(ls[ls.len() - 1], k));
    }
}

proof fn lemma_count_positive(ls: Seq<EnvLineView>, k: Seq<char>, i: int)
    requires
        0 <= i < ls.len(),
        has_key(ls[i], k),
    ensures
        count_key(ls, k) >= 1,
    decreases ls.len(),
{
    if i < ls.len() - 1 {
        let init = ls.drop_last();
        assert(init[i] == ls[i]);
        lemma_count_positive(init, k, i);
    }
}

/// Lines that read alike set a key on as many lines.
proof fn lemma_same_entries_count(p: Seq<EnvLineView>, ls: Seq<EnvLineView>, k: Seq<char>)
    requires
        same_entries(p, ls),
    ensures
        count_key(p, k) == count_key(ls, k),
{
    if p.len() == ls.len() {
        assert forall|j: int| 0 <= j < p.len() implies (has_key(#[trigger] p[j], k) <==> has_key(
            ls[j],
            k,
        )) by {
            assert(same_entry(p[j], ls[j]));
        }
        lemma_count_pointwise(p, ls, k);
    } else if p.len() + 1 == ls.len() {
        let init = ls.drop_last();
        assert forall|j: int| 0 <= j < p.len() implies (has_key(#[trigger] p[j], k) <==> has_key(
            init[j],
            k,
        )) by {
            assert(same_entry(p[j], ls[j]));
            assert(init[j] == ls[j]);
        }
        lemma_count_pointwise(p, init, k);
    } else {
        let init = p.drop_last();
        assert forall|j: int| 0 <= j < init.len() implies (has_key(#[trigger] init[j], k) <==> has_key(
            ls[j],
            k,
        )) by {
            assert(same_entry(p[j], ls[j]));
            assert(init[j] == p[j]);
        }
        lemma_count_pointwise(init, ls, k);
    }
}

/// Setting a key never adds a second line for it: afterwards the text ends
/// with a line break and exactly `max(n, 1)` lines set the key, where `n`
/// lines set it before.
pub proof fn law_set_line_count(content: Seq<char>, key: Seq<char>, value: Seq<char>)
    requires
        clean_entry(key, value),
    ensures
        set_text(content, key, value).len() > 0,
        set_text(content, key, value).last() == '\n',
        count_key(parse_text(set_text(content, key, value)), key) == if count_key(
            parse_text(content),
            key,
        ) == 0 {
            1
        } else {
            count_key(parse_text(content), key)
        },
{
    let ls = parse_text(content);
    lemma_parse_text_round_trips(content);
    lemma_set_lines_round_trip(ls, key, value);
    let ls1 = set_lines(ls, key, value);
    lemma_reparse_shape(ls1);
    lemma_same_entries_count(parse_text(set_text(content, key, value)), ls1, key);
    lemma_key_index(ls, key);
    let i = key_index(ls, key);
    let line = EnvLineView::KeyValue { key: key, value: value };
    if i < ls.len() {
        assert(ls1 == ls.update(i, line));
        assert forall|j: int| 0 <= j < ls1.len() implies (has_key(#[trigger] ls1[j], key) <==> has_key(
            ls[j],
            key,
        )) by {
            if j != i {
                assert(ls1[j] == ls[j]);
            }
        }
        lemma_count_pointwise(ls1, ls, key);
        lemma_count_positive(ls, key, i);
    } else {
        lemma_count_zero(ls, key);
        let base = if ls.len() > 0 && ls.last() is KeyValue {
            ls.push(EnvLineView::Blank)
        } else {
            ls
        };
        assert(ls1 == base.push(line));
        assert(ls1.drop_last() =~= base);
        if ls.len() > 0 && ls.last() is KeyValue {
            assert(base.drop_last() =~= ls);
        }
        assert(count_key(base, key) == 0);
    }
}

/// Setting a key that the text already sets changes only the first line
/// that sets it: the new text reads, line by line, as the old one with that
/// line now reading `key=value`; every later line that sets the key keeps
/// its value, and every other line reads as before.
pub proof fn law_set_changes_only_first_line(content: Seq<char>, key: Seq<char>, value: Seq<char>)
    requires
        clean_entry(key, value),
        get_value_spec(content, key) is Some,
    ensures
        same_entries(
            parse_text(set_text(content, key, value)),
            parse_text(content).update(
                key_index(parse_text(content), key),
                EnvLineView::KeyValue { key: key, value: value },
            ),
        ),
        forall|j: int|
            key_index(parse_text(content), key) < j < parse_text(content).len() && has_key(
                #[trigger] parse_text(content)[j],
                key,
            ) ==> j < parse_text(set_text(content, key, value)).len() && has_key(
                parse_text(set_text(content, key, value))[j],
                key,
            ) && value_of(parse_text(set_text(content, key, value))[j]) == value_of(
                parse_text(content)[j],
            ),
{
    let ls = parse_text(content);
    lemma_parse_text_round_trips(content);
    lemma_set_lines_round_trip(ls, key, value);
    let ls1 = set_lines(ls, key, value);
    lemma_key_index(ls, key);
    let i = key_index(ls, key);
    assert(ls1 == ls.update(i, EnvLineView::KeyValue { key: key, value: value }));
    lemma_reparse_shape(ls1);
    let p = parse_text(set_text(content, key, value));
    assert forall|j: int| i < j < ls.len() && has_key(#[trigger] ls[j], key) implies j < p.len()
        && has_key(p[j], key) && value_of(p[j]) == value_of(ls[j]) by {
        assert(ls1[j] == ls[j]);
        if j == ls1.len() - 1 {
            assert(ls1.last() is KeyValue);
        }
        assert(same_entry(p[j], ls1[j]));
    }
}

// ---------------------------------------------------------------------------
// Setting a new key and removing it again
/// The pairs without those whose key is `k`.
pub open spec fn drop_key(es: Seq<(Seq<char>, Seq<char>)>, k: Seq<char>) -> Seq<(Seq<char>, Seq<char>)>
    decreases es.len(),
{
    if es.len() == 0 {
        seq![]
    } else {
        let r = drop_key(es.drop_last(), k);
        if es.last().0 == k {
            r
        } else {
            r.push(es.last())
        }
    }
}

proof fn lemma_entries_pointwise(a: Seq<EnvLineView>, b: Seq<EnvLineView>)
    requires
        a.len() == b.len(),
        forall|j: int| 0 <= j < a.len() ==> same_entry(#[trigger] a[j], b[j]),
    ensures
        entries(a) == entries(b),
    decreases a.len(),
{
    if a.len() > 0 {
        let a1 = a.drop_last();
        let b1 = b.drop_last();
        assert forall|j: int| 0 <= j < a1.len() implies same_entry(#[trigger] a1[j], b1[j]) by {
            assert(a1[j] == a[j]);
            assert(b1[j] == b[j]);
        }
        lemma_entries_pointwise(a1, b1);
        assert(same_entry(a[a.len() - 1], b[b.len() - 1]));
    }
}

/// Lines that read alike hold the same pairs.
proof fn lemma_same_entries_entries(p: Seq<EnvLineView>, ls: Seq<EnvLineView>)
    requires
        same_entries(p, ls),
    ensures
        entries(p) == entries(ls),
{
    if p.len() == ls.len() {
        lemma_entries_pointwise(p, ls);
    } else if p.len() + 1 == ls.len() {
        let init = ls.drop_last();
        assert forall|j: int| 0 <= j < p.len() implies same_entry(#[trigger] p[j], init[j]) by {
            assert(init[j] == ls[j]);
        }
        lemma_entries_pointwise(p, init);
    } else {
        let init = p.drop_last();
        assert forall|j: int| 0 <= j < init.len() implies same_entry(#[trigger] init[j], ls[j]) by {
            assert(init[j] == p[j]);
        }
        lemma_entries_pointwise(init, ls);
    }
}

/// Removing the lines of a key removes its pairs.
proof fn lemma_remove_key_entries(ls: Seq<EnvLineView>, k: Seq<char>)
    ensures
        entries(remove_key(ls, k)) == drop_key(entries(ls), k),
    decreases ls.len(),
{
    if ls.len() > 0 {
        let init = ls.drop_last();
        lemma_remove_key_entries(init, k);
        let r = remove_key(init, k);
        let x = ls.last();
        if !has_key(x, k) {
            assert(r.push(x).drop_last() =~= r);
            if x is KeyValue {
                assert(entries(ls) == entries(init).push((x->key, x->value)));
                assert(entries(ls).drop_last() =~= entries(init));
            }
        } else {
            assert(entries(ls) == entries(init).push((x->key, x->value)));
            assert(entries(ls).drop_last() =~= entries(init));
        }
    }
}

proof fn lemma_drop_absent_key(ls: Seq<EnvLineView>, k: Seq<char>)
    requires
        forall|j: int| 0 <= j < ls.len() ==> !has_key(#[trigger] ls[j], k),
    ensures
        drop_key(entries(ls), k) == entries(ls),
    decreases ls.len(),
{
    if ls.len() > 0 {
        let init = ls.drop_last();
        assert forall|j: int| 0 <= j < init.len() implies !has_key(#[trigger] init[j], k) by {
            assert(init[j] == ls[j]);
        }
        lemma_drop_absent_key(init, k);
        let x = ls.last();
        assert(!has_key(ls[ls.len() - 1], k));
        if x is KeyValue {
            assert(entries(ls).drop_last() =~= entries(init));
        }
    }
}

/// Setting a key that the text does not set and then removing it gives back
/// the pairs of the text, in order.
pub proof fn law_set_then_unset(content: Seq<char>, key: Seq<char>, value: Seq<char>)
    requires
        clean_entry(key, value),
        get_value_spec(content, key) is None,
    ensures
        entries(parse_text(unset_text(set_text(content, key, value), key))) == entries(
            parse_text(content),
        ),
{
    let ls = parse_text(content);
    lemma_parse_text_round_trips(content);
    lemma_set_lines_round_trip(ls, key, value);
    let ls1 = set_lines(ls, key, value);
    let c1 = set_text(content, key, value);
    let p1 = parse_text(c1);
    lemma_reparse_shape(ls1);
    lemma_same_entries_entries(p1, ls1);
    lemma_parse_text_round_trips(c1);
    lemma_remove_key_round_trip(p1, key);
    let q = remove_key(p1, key);
    lemma_reparse_shape(q);
    lemma_same_entries_entries(parse_text(unset_text(c1, key)), q);
    lemma_remove_key_entries(p1, key);
    lemma_key_index(ls, key);
    assert(key_index(ls, key) == ls.len());
    lemma_drop_absent_key(ls, key);
    let line = EnvLineView::KeyValue { key: key, value: value };
    let base = if ls.len() > 0 && ls.last() is KeyValue {
        ls.push(EnvLineView::Blank)
    } else {
        ls
    };
    assert(ls1 == base.push(line));
    assert(ls1.drop_last() =~= base);
    assert(entries(base) == entries(ls)) by {
        if ls.len() > 0 && ls.last() is KeyValue {
            assert(base.drop_last() =~= ls);
        }
    }
    assert(entries(ls1) == entries(ls).push((key, value)));
    assert(entries(ls1).drop_last() =~= entries(ls));
}

// ---------------------------------------------------------------------------
// Writing lines out and reading them back, exactly
/// A line read from text without `c` (other than `=`) writes out without `c`.
proof fn lemma_render_parse_lacks(line: Seq<char>, c: char)
    requires
        lacks(line, c),
        c != '=',
    ensures
        lacks(render_line(parse_line(line)), c),
{
    let t = trim(line);
    lemma_trim_lacks(line, c);
    if t.len() > 0 && t[0] != '#' {
        let i = first_index_of(t, '=');
        lemma_first_index_of(t, '=');
        if i < t.len() {
            let before = t.take(i);
            let after = t.skip(i + 1);
            assert forall|j: int| 0 <= j < before.len() implies before[j] != c by {
                assert(before[j] == t[j]);
            }
            assert forall|j: int| 0 <= j < after.len() implies after[j] != c by {
                assert(after[j] == t[j + i + 1]);
            }
            lemma_trim_lacks(before, c);
            lemma_trim_lacks(after, c);
            let k = trim(before);
            let v = trim(after);
            let x = k + seq!['='] + v;
            assert forall|j: int| 0 <= j < x.len() implies x[j] != c by {
                if j < k.len() {
                    assert(x[j] == k[j]);
                } else if j > k.len() {
                    assert(x[j] == v[j - k.len() - 1]);
                }
            }
        }
    }
}

/// A line read from a line of text writes out as text that reads as the
/// very same line.
proof fn lemma_parse_render_parse(line: Seq<char>)
    requires
        lacks(line, '\n'),
    ensures
        parse_line(render_line(parse_line(line))) == parse_line(line),
        parse_line(line) is Blank || render_line(parse_line(line)).len() > 0,
{
    lemma_parsed_line_round_trips(line);
    lemma_trim_shape(line);
    assert(trim(Seq::<char>::empty()) =~= Seq::<char>::empty());
}

/// Writing out the lines of a text without carriage returns, whose last line
/// is not blank, and reading them again gives back the very same lines,
/// comments word for word.
pub proof fn law_serialize_round_trip(content: Seq<char>)
    requires
        lacks(content, '\r'),
        parse_text(content).len() > 0,
        !(parse_text(content).last() is Blank),
    ensures
        parse_text(render_lines(parse_text(content))) == parse_text(content),
{
    let ls = parse_text(content);
    let lines = text_lines(content);
    let m = ls.map_values(|l: EnvLineView| render_line(l));
    lemma_text_lines_no_nl(content);
    lemma_text_lines_lacks(content, '\r');
    assert forall|j: int| 0 <= j < m.len() implies lacks(#[trigger] m[j], '\n') && lacks(m[j], '\r')
        && parse_line(m[j]) == ls[j] by {
        assert(ls[j] == parse_line(lines[j]));
        lemma_render_parse_lacks(lines[j], '\n');
        lemma_render_parse_lacks(lines[j], '\r');
        lemma_parse_render_parse(lines[j]);
    }
    let last = m.len() - 1;
    lemma_parse_render_parse(lines[last]);
    assert(ls[last] == ls.last());
    assert(m.last().len() > 0);
    lemma_join_last(m);
    lemma_join_then_newline(m);
    lemma_text_lines_terminated(m);
    let joined = join_lines(m);
    assert(joined.last() == m.last().last());
    assert(m.last().last() != '\n');
    assert(m.last().last() != '\r');
    lemma_text_lines_push_nl(joined);
    assert forall|j: int| 0 <= j < m.len() implies strip_cr(#[trigger] m[j]) == m[j] by {
        if m[j].len() > 0 {
            assert(m[j].last() == m[j][m[j].len() - 1]);
        }
    }
    assert(text_lines(joined) =~= m);
    assert(parse_text(joined) =~= ls);
}

// ---------------------------------------------------------------------------
// Every line kept word for word
/// How a line reads once written out and read again: a comment loses a
/// carriage return at its end (the line break written after it makes the
/// two a `\r\n`); every other line reads as itself.
pub open spec fn reread(l: EnvLineView) -> EnvLineView {
    match l {
        EnvLineView::Comment(s) => EnvLineView::Comment(strip_cr(s)),
        _ => l,
    }
}

/// A line that writes out without a line break and reads back as `reread`.
pub open spec fn rereads(l: EnvLineView) -> bool {
    lacks(render_line(l), '\n') && parse_line(strip_cr(render_line(l))) == reread(l)
}

/// `q` is what reading back the written-out lines `f` gives: line for line
/// `reread(f[j])`, except that a final blank line can be lost, and no lines
/// at all read back as one blank line.
pub open spec fn reads_back_as(q: Seq<EnvLineView>, f: Seq<EnvLineView>) -> bool {
    &&& forall|j: int| 0 <= j < q.len() && j < f.len() ==> #[trigger] q[j] == reread(f[j])
    &&& {
        ||| q.len() == f.len()
        ||| q.len() + 1 == f.len() && f.last() == EnvLineView::Blank
        ||| f.len() == 0 && q =~= seq![EnvLineView::Blank]
    }
}

proof fn lemma_kv_equal(a: EnvLineView, k: Seq<char>, v: Seq<char>)
    requires
        same_entry(a, (EnvLineView::KeyValue { key: k, value: v })),
    ensures
        a == (EnvLineView::KeyValue { key: k, value: v }),
{
}

/// A `key=value` line of a trimmed value does not end with a carriage return.
proof fn lemma_kv_no_cr(k: Seq<char>, v: Seq<char>)
    requires
        is_trimmed(v),
    ensures
        strip_cr(render_line(EnvLineView::KeyValue { key: k, value: v })) == render_line(
            EnvLineView::KeyValue { key: k, value: v },
        ),
{
    let x = k + seq!['='] + v;
    if v.len() > 0 {
        assert(x.last() == v.last());
        assert(is_ws('\r'));
    } else {
        assert(x.last() == '=');
    }
}

proof fn lemma_blank_rereads()
    ensures
        rereads(EnvLineView::Blank),
{
    assert(strip_cr(Seq::<char>::empty()) =~= Seq::<char>::empty());
    assert(trim(Seq::<char>::empty()) =~= Seq::<char>::empty());
}

proof fn lemma_clean_entry_rereads(k: Seq<char>, v: Seq<char>)
    requires
        clean_entry(k, v),
    ensures
        rereads(EnvLineView::KeyValue { key: k, value: v }),
{
    lemma_clean_entry_round_trips(k, v);
    lemma_kv_no_cr(k, v);
    let l = EnvLineView::KeyValue { key: k, value: v };
    lemma_kv_equal(parse_line(render_line(l)), k, v);
}

/// Every line read from a line of text reads back as `reread` of itself.
proof fn lemma_parsed_line_rereads(line: Seq<char>)
    requires
        lacks(line, '\n'),
    ensures
        rereads(parse_line(line)),
{
    lemma_parsed_line_round_trips(line);
    let l = parse_line(line);
    match l {
        EnvLineView::KeyValue { key, value } => {
            lemma_trim_shape(trim(line).skip(first_index_of(trim(line), '=') + 1));
            lemma_kv_no_cr(key, value);
            lemma_kv_equal(parse_line(render_line(l)), key, value);
        },
        EnvLineView::Comment(c) => {
            lemma_trim_strip_cr(line);
        },
        EnvLineView::Blank => {
            lemma_blank_rereads();
        },
    }
}

proof fn lemma_parse_text_rereads(content: Seq<char>)
    ensures
        forall|j: int| 0 <= j < parse_text(content).len() ==> rereads(#[trigger] parse_text(content)[j]),
{
    lemma_text_lines_no_nl(content);
    assert forall|j: int| 0 <= j < parse_text(content).len() implies rereads(
        #[trigger] parse_text(content)[j],
    ) by {
        assert(lacks(text_lines(content)[j], '\n'));
        lemma_parsed_line_rereads(text_lines(content)[j]);
    }
}

/// Lines that reread, written out with a final line break and read again,
/// read back as themselves.
proof fn lemma_reparse_exact(ls: Seq<EnvLineView>)
    requires
        forall|j: int| 0 <= j < ls.len() ==> rereads(#[trigger] ls[j]),
    ensures
        reads_back_as(parse_text(with_final_newline(render_lines(ls))), ls),
{
    assert forall|j: int| 0 <= j < ls.len() implies round_trips(#[trigger] ls[j]) by {
        assert(rereads(ls[j]));
        lemma_parse_line_strip_cr(render_line(ls[j]));
    }
    lemma_reparse_shape(ls);
    let p = parse_text(with_final_newline(render_lines(ls)));
    assert forall|j: int| 0 <= j < p.len() && j < ls.len() implies #[trigger] p[j] == reread(ls[j]) by {
        assert(rereads(ls[j]));
    }
    if p.len() + 1 == ls.len() {
        let last = ls[ls.len() - 1];
        assert(rereads(last));
        assert(strip_cr(Seq::<char>::empty()) =~= Seq::<char>::empty());
        assert(trim(Seq::<char>::empty()) =~= Seq::<char>::empty());
        if last is Comment {
            assert(render_line(last).len() == 0);
            assert(last->0 =~= Seq::<char>::empty());
        }
    }
}

/// Lines of a text carry no carriage return where the text has none, so
/// reading back leaves every one of them as it is.
pub proof fn law_reread_without_cr(content: Seq<char>)
    requires
        lacks(content, '\r'),
    ensures
        forall|j: int|
            0 <= j < parse_text(content).len() ==> reread(#[trigger] parse_text(content)[j])
                == parse_text(content)[j],
{
    lemma_text_lines_lacks(content, '\r');
    assert forall|j: int| 0 <= j < parse_text(content).len() implies reread(
        #[trigger] parse_text(content)[j],
    ) == parse_text(content)[j] by {
        let line = text_lines(content)[j];
        assert(lacks(line, '\r'));
        if line.len() > 0 {
            assert(line.last() == line[line.len() - 1]);
        }
        assert(strip_cr(line) == line);
    }
}

/// Setting a key rewrites only the line it concerns; every other line,
/// comments word for word, stays where it was:
/// - when a line sets the key, the first such line `i` now reads
///   `key=value` and the text reads back as the old lines with that one
///   changed;
/// - when none does, the old lines read back in order, followed by a blank
///   line exactly when the last of them sets a key, and then `key=value`.
pub proof fn law_set_keeps_other_lines(content: Seq<char>, key: Seq<char>, value: Seq<char>)
    requires
        clean_entry(key, value),
    ensures
        ({
            let ls = parse_text(content);
            let p = parse_text(set_text(content, key, value));
            let i = key_index(ls, key);
            let line = EnvLineView::KeyValue { key: key, value: value };
            &&& 0 <= i <= ls.len()
            &&& forall|j: int| 0 <= j < i ==> !has_key(#[trigger] ls[j], key)
            &&& i < ls.len() ==> has_key(ls[i], key) && reads_back_as(p, ls.update(i, line))
            &&& i == ls.len() ==> {
                &&& forall|j: int| 0 <= j < ls.len() ==> #[trigger] p[j] == reread(ls[j])
                &&& p.last() == line
                &&& (ls.len() > 0 && ls.last() is KeyValue) ==> p.len() == ls.len() + 2
                    && p[ls.len() as int] == EnvLineView::Blank
                &&& !(ls.len() > 0 && ls.last() is KeyValue) ==> p.len() == ls.len() + 1
            }
        }),
{
    let ls = parse_text(content);
    let line = EnvLineView::KeyValue { key: key, value: value };
    lemma_key_index(ls, key);
    let i = key_index(ls, key);
    lemma_parse_text_rereads(content);
    lemma_clean_entry_rereads(key, value);
    lemma_blank_rereads();
    let ls1 = set_lines(ls, key, value);
    assert forall|j: int| 0 <= j < ls1.len() implies rereads(#[trigger] ls1[j]) by {
        if j < ls.len() && j != i {
            assert(ls1[j] == ls[j]);
        }
    }
    lemma_reparse_exact(ls1);
    let p = parse_text(set_text(content, key, value));
    if i < ls.len() {
        assert(ls1 == ls.update(i, line));
    } else {
        assert(ls1.last() == line);
        assert(p.len() == ls1.len());
        assert(reread(line) == line);
        assert forall|j: int| 0 <= j < ls.len() implies #[trigger] p[j] == reread(ls[j]) by {
            assert(ls1[j] == ls[j]);
        }
        assert(p.last() == p[p.len() - 1]);
        if ls.len() > 0 && ls.last() is KeyValue {
            assert(ls1[ls.len() as int] == EnvLineView::Blank);
            assert(p[ls.len() as int] == reread(EnvLineView::Blank));
        }
    }
}

/// `remove_key` keeps, in order, exactly the lines that do not set the key.
proof fn lemma_remove_key_filter(ls: Seq<EnvLineView>, k: Seq<char>)
    ensures
        remove_key(ls, k) == ls.filter(|l: EnvLineView| !has_key(l, k)),
    decreases ls.len(),
{
    reveal(Seq::filter);
    if ls.len() > 0 {
        lemma_remove_key_filter(ls.drop_last(), k);
    }
}

proof fn lemma_remove_key_rereads(ls: Seq<EnvLineView>, k: Seq<char>)
    requires
        forall|j: int| 0 <= j < ls.len() ==> rereads(#[trigger] ls[j]),
    ensures
        forall|j: int| 0 <= j < remove_key(ls, k).len() ==> rereads(#[trigger] remove_key(ls, k)[j]),
    decreases ls.len(),
{
    if ls.len() > 0 {
        let init = ls.drop_last();
        assert forall|j: int| 0 <= j < init.len() implies rereads(#[trigger] init[j]) by {
            assert(init[j] == ls[j]);
        }
        lemma_remove_key_rereads(init, k);
        let r = remove_key(init, k);
        assert(rereads(ls[ls.len() - 1]));
        if !has_key(ls.last(), k) {
            assert forall|j: int| 0 <= j < r.push(ls.last()).len() implies rereads(
                #[trigger] r.push(ls.last())[j],
            ) by {
                if j < r.len() {
                    assert(r.push(ls.last())[j] == r[j]);
                }
            }
        }
    }
}

/// Removing a key keeps every other line, comments word for word: the text
/// reads back as the old lines that do not set the key, in order.
pub proof fn law_unset_keeps_other_lines(content: Seq<char>, key: Seq<char>)
    ensures
        reads_back_as(
            parse_text(unset_text(content, key)),
            parse_text(content).filter(|l: EnvLineView| !has_key(l, key)),
        ),
{
    let ls = parse_text(content);
    lemma_parse_text_rereads(content);
    lemma_remove_key_rereads(ls, key);
    lemma_reparse_exact(remove_key(ls, key));
    lemma_remove_key_filter(ls, key);
}

// ---------------------------------------------------------------------------
// Where the server listens
proof fn lemma_absent_key_last(content: Seq<char>, k: Seq<char>)
    requires
        get_value_spec(content, k) is None,
    ensures
        lookup_last(parse_text(content), k) is None,
{
    let ls = parse_text(content);
    lemma_key_index(ls, k);
    lemma_lookup_last_none(ls, k);
}

/// A host or port given on the command line is the one listened on,
/// whatever the configuration text says. Without one, a host or port set
/// with `config set` is the one listened on, and with none set the server
/// listens on 127.0.0.1 and 8890.
pub proof fn law_listen_endpoint(content: Seq<char>, h: Seq<char>, p: u16)
    ensures
        listen_host(content, Some(h)) == h,
        listen_port(content, Some(p)) == p,
        get_value_spec(content, "HOST"@) is None ==> listen_host(content, None) == "127.0.0.1"@,
        get_value_spec(content, "PORT"@) is None ==> listen_port(content, None) == 8890,
        clean_entry("HOST"@, h) && sets_at_most_once(parse_text(content), "HOST"@) ==> listen_host(
            set_text(content, "HOST"@, h),
            None,
        ) == h,
        sets_at_most_once(parse_text(content), "PORT"@) ==> listen_port(
            set_text(content, "PORT"@, decimal(p as nat)),
            None,
        ) == p,
{
    if get_value_spec(content, "HOST"@) is None {
        lemma_absent_key_last(content, "HOST"@);
    }
    if get_value_spec(content, "PORT"@) is None {
        lemma_absent_key_last(content, "PORT"@);
    }
    if clean_entry("HOST"@, h) && sets_at_most_once(parse_text(content), "HOST"@) {
        law_set_then_load(content, "HOST"@, h, "HOST"@);
    }
    if sets_at_most_once(parse_text(content), "PORT"@) {
        law_set_port_then_load(content, p, "PORT"@);
    }
}

} // verus!
