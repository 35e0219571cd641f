//! What the `config` command shows: values of secret-looking keys masked,
//! the listing of known and other settings, and its messages.
use vstd::prelude::*;
use vstd::utf8::{decode_utf8, encode_utf8, is_char_boundary};
use vstd::string::StringSliceAdditionalSpecFns;
use crate::text::{chars_of, contains_text, push_char, repeat_char, string_of_range, text_contains};

verus! {

/// What `str::to_uppercase` returns for a text.
pub uninterp spec fn uppercase_of(s: Seq<char>) -> Seq<char>;

/// `str::to_uppercase`. The contract only names the result as a function of
/// the text: the Unicode uppercase mapping behind it is not written out.
#[verifier::external_body]
fn to_uppercase(s: &str) -> (r: String)
    ensures
        r@ == uppercase_of(s@),
{
    s.to_uppercase()
}

/// The markers of a key whose value is secret.
pub open spec fn secret_markers() -> Seq<Seq<char>> {
    seq!["KEY"@, "API_KEY"@, "SECRET"@, "TOKEN"@, "PASSWORD"@, "AUTH"@]
}

/// An uppercased key that holds one of the secret markers.
pub open spec fn names_secret(upper: Seq<char>) -> bool {
    exists|i: int| 0 <= i < secret_markers().len() && contains_text(upper, #[trigger] secret_markers()[i])
}

/// A key whose value is masked: its uppercase form holds a secret marker.
pub open spec fn is_sensitive_spec(key: Seq<char>) -> bool {
    names_secret(uppercase_of(key))
}

/// The UTF-8 length of a text, in bytes (`str::len`).
pub open spec fn byte_len(s: Seq<char>) -> nat {
    encode_utf8(s).len()
}

/// A value that can be masked: one of at most four bytes, one of more than
/// eight characters, or one with a character boundary after its fourth
/// byte (cutting there is what shows the first four bytes).
pub open spec fn maskable(value: Seq<char>) -> bool {
    byte_len(value) <= 4 || value.len() > 8 || is_char_boundary(encode_utf8(value), 4)
}

/// A masked value, one `*` for each hidden byte:
/// - at most four bytes: all hidden;
/// - more than four bytes but at most eight characters: the first four
///   bytes shown, the rest hidden (`abcde` becomes `abcd*`);
/// - more than eight characters: the first four and the last four
///   characters shown, the bytes between them hidden (`abcdefgh1234`
///   becomes `abcd****1234`).
pub open spec fn masked(value: Seq<char>) -> Seq<char> {
    let b = byte_len(value);
    let n = value.len();
    if b <= 4 {
        repeat_char('*', b)
    } else if n <= 8 {
        decode_utf8(encode_utf8(value).take(4)) + repeat_char('*', (b - 4) as nat)
    } else {
        value.take(4) + repeat_char('*', byte_len(value.subrange(4, n - 4))) + value.skip(n - 4)
    }
}

/// How a value is shown for a key: masked when the key is sensitive; `None`
/// where masking is impossible.
pub open spec fn shown_value(key: Seq<char>, value: Seq<char>) -> Option<Seq<char>> {
    if is_sensitive_spec(key) {
        if maskable(value) {
            Some(masked(value))
        } else {
            None
        }
    } else {
        Some(value)
    }
}

/// Whether an uppercased key holds a secret marker.
pub fn marks_secret(upper: &str) -> (b: bool)
    ensures
        b == names_secret(upper@),
{
    let hay = chars_of(upper);
    let markers = ["KEY", "API_KEY", "SECRET", "TOKEN", "PASSWORD", "AUTH"];
    let mut i: usize = 0;
    while i < 6
        invariant
            i <= 6,
            hay@ == upper@,
            forall|j: int| 0 <= j < 6 ==> (#[trigger] markers@[j])@ == secret_markers()[j],
            forall|j: int| 0 <= j < i ==> !contains_text(upper@, #[trigger] secret_markers()[j]),
        decreases 6 - i,
    {
        let m = chars_of(markers[i]);
        if text_contains(&hay, &m) {
            return true;
        }
        i = i + 1;
    }
    false
}

/// Whether the value of `key` is masked when shown.
pub fn is_sensitive(key: &str) -> (b: bool)
    ensures
        b == is_sensitive_spec(key@),
{
    let upper = to_uppercase(key);
    marks_secret(upper.as_str())
}

/// `n` asterisks.
fn stars(n: usize) -> (s: String)
    ensures
        s@ == repeat_char('*', n as nat),
{
    let mut s = String::new();
    let mut i: usize = 0;
    while i < n
        invariant
            i <= n,
            s@ == repeat_char('*', i as nat),
        decreases n - i,
    {
        push_char(&mut s, '*');
        proof {
            assert(s@ =~= repeat_char('*', (i + 1) as nat));
        }
        i = i + 1;
    }
    s
}

/// Masks a value, one `*` for each hidden byte: a value of at most four
/// bytes is hidden whole; one of at most eight characters shows its first
/// four bytes; a longer one shows its first four and last four characters.
pub fn mask_value(value: &str) -> (r: String)
    requires
        maskable(value@),
    ensures
        r@ == masked(value@),
{
    let b = value.as_bytes().len();
    if b <= 4 {
        return stars(b);
    }
    let v = chars_of(value);
    let n = v.len();
    if n <= 8 {
        let (head, _tail) = value.split_at(4);
        proof {
            vstd::utf8::encode_utf8_decode_utf8(head@);
            assert(head.spec_bytes() =~= encode_utf8(value@).take(4));
        }
        let mut r = head.to_owned();
        let rest = stars(b - 4);
        r.append(rest.as_str());
        return r;
    }
    let mut r = string_of_range(&v, 0, 4);
    let middle = string_of_range(&v, 4, n - 4);
    let hidden = stars(middle.as_str().as_bytes().len());
    r.append(hidden.as_str());
    let tail = string_of_range(&v, n - 4, n);
    r.append(tail.as_str());
    proof {
        assert(v@.subrange(0, 4) =~= value@.take(4));
        assert(v@.subrange(n - 4, n as int) =~= value@.skip(n - 4));
    }
    r
}

/// How the value of `key` is shown; `None` where the value would need
/// masking and cannot be masked.
pub fn display_value(key: &str, value: &str) -> (r: Option<String>)
    ensures
        opt_string_view(r) == shown_value(key@, value@),
{
    if is_sensitive(key) {
        let b = value.as_bytes().len();
        if b <= 4 || chars_of(value).len() > 8 || value.is_char_boundary(4) {
            Some(mask_value(value))
        } else {
            None
        }
    } else {
        Some(value.to_owned())
    }
}

pub open spec fn opt_string_view(o: Option<String>) -> Option<Seq<char>> {
    match o {
        Some(s) => Some(s@),
        None => None,
    }
}

/// The message after setting a key: `已设置 key=value`, the value shown as
/// for a listing; `None` where the value cannot be masked.
pub fn set_message(key: &str, value: &str) -> (r: Option<String>)
    ensures
        match shown_value(key@, value@) {
            Some(v) => r is Some && r->0@ == "已设置 "@ + key@ + seq!['='] + v,
            None => r is None,
        },
{
    match display_value(key, value) {
        Some(shown) => {
            let mut m = "已设置 ".to_owned();
            m.append(key);
            push_char(&mut m, '=');
            m.append(shown.as_str());
            Some(m)
        },
        None => None,
    }
}

/// The message after removing a key: `已删除 key`.
pub fn unset_message(key: &str) -> (r: String)
    ensures
        r@ == "已删除 "@ + key@,
{
    let mut m = "已删除 ".to_owned();
    m.append(key);
    m
}


// ---------------------------------------------------------------------------
// The listing
/// The settings the listing always shows, with their descriptions.
pub open spec fn known_keys() -> Seq<(Seq<char>, Seq<char>)> {
    seq![
        ("KEY"@, "智谱 API Key（必需）"@),
        ("HOST"@, "监听地址（默认 127.0.0.1）"@),
        ("PORT"@, "监听端口（默认 8890）"@),
        ("MAX_RETRIES"@, "最大重试次数（默认 3）"@),
        ("RETRY_DELAY"@, "重试延迟 ms（默认 1000）"@),
        ("REQUEST_TIMEOUT"@, "请求超时 ms（默认 60000）"@),
    ]
}

pub open spec fn is_known_key(k: Seq<char>) -> bool {
    exists|i: int| 0 <= i < known_keys().len() && #[trigger] known_keys()[i].0 == k
}

/// Index of the first pair with key `k`, or the number of pairs.
pub open spec fn pair_index(vals: Seq<(Seq<char>, Seq<char>)>, k: Seq<char>) -> int
    decreases vals.len(),
{
    if vals.len() == 0 {
        0
    } else if vals[0].0 == k {
        0
    } else {
        1 + pair_index(vals.skip(1), k)
    }
}

/// The value of the first pair with key `k`.
pub open spec fn first_value(vals: Seq<(Seq<char>, Seq<char>)>, k: Seq<char>) -> Option<Seq<char>> {
    if pair_index(vals, k) < vals.len() {
        Some(vals[pair_index(vals, k)].1)
    } else {
        None
    }
}

/// A listing row: key, value (none for a known key that is not set) and the
/// description of a known key.
pub type RowView = (Seq<char>, Option<Seq<char>>, Option<Seq<char>>);

/// The rows for pairs whose key is not a known one, in order.
pub open spec fn extra_rows(vals: Seq<(Seq<char>, Seq<char>)>) -> Seq<RowView>
    decreases vals.len(),
{
    if vals.len() == 0 {
        seq![]
    } else {
        let r = extra_rows(vals.drop_last());
        let p = vals.last();
        if is_known_key(p.0) {
            r
        } else {
            r.push((p.0, Some(p.1), None))
        }
    }
}

/// The rows of the listing: the known keys with their first values and
/// descriptions, then every other pair.
pub open spec fn list_rows_spec(vals: Seq<(Seq<char>, Seq<char>)>) -> Seq<RowView> {
    Seq::new(
        known_keys().len(),
        |i: int| (known_keys()[i].0, first_value(vals, known_keys()[i].0), Some(known_keys()[i].1)),
    ) + extra_rows(vals)
}

/// The key padded with spaces to `w` characters (`{:w$}`).
pub open spec fn padded(key: Seq<char>, w: nat) -> Seq<char> {
    if key.len() < w {
        key + repeat_char(' ', (w - key.len()) as nat)
    } else {
        key
    }
}

/// The text of a listing row; `None` where its value cannot be masked.
pub open spec fn row_text(row: RowView, w: nat) -> Option<Seq<char>> {
    let shown = match row.1 {
        Some(v) => shown_value(row.0, v),
        None => Some("(未设置)"@),
    };
    match shown {
        Some(s) => Some(
            match row.2 {
                Some(d) => padded(row.0, w) + " = "@ + s + "  # "@ + d,
                None => padded(row.0, w) + " = "@ + s,
            },
        ),
        None => None,
    }
}

/// The widest known key, in bytes.
pub open spec fn known_key_width() -> nat {
    let l = |i: int| encode_utf8(known_keys()[i].0).len();
    max_of(Seq::new(known_keys().len(), l))
}

pub open spec fn max_of(s: Seq<nat>) -> nat
    decreases s.len(),
{
    if s.len() == 0 {
        0
    } else {
        let m = max_of(s.drop_last());
        if s.last() > m {
            s.last()
        } else {
            m
        }
    }
}

/// A row of the `config list` output.
pub struct ListRow {
    pub key: String,
    pub value: Option<String>,
    pub note: Option<String>,
}

impl View for ListRow {
    type V = RowView;

    open spec fn view(&self) -> RowView {
        (self.key@, opt_string_view(self.value), opt_string_view(self.note))
    }
}

/// The known keys and their descriptions.
fn known_key_list() -> (v: Vec<(&'static str, &'static str)>)
    ensures
        v@.len() == known_keys().len(),
        forall|i: int| 0 <= i < v@.len() ==> (#[trigger] v@[i]).0@ == known_keys()[i].0 && v@[i].1@ == known_keys()[i].1,
{
    let v = vec![
        ("KEY", "智谱 API Key（必需）"),
        ("HOST", "监听地址（默认 127.0.0.1）"),
        ("PORT", "监听端口（默认 8890）"),
        ("MAX_RETRIES", "最大重试次数（默认 3）"),
        ("RETRY_DELAY", "重试延迟 ms（默认 1000）"),
        ("REQUEST_TIMEOUT", "请求超时 ms（默认 60000）"),
    ];
    v
}

pub open spec fn pair_views(v: Seq<(String, String)>) -> Seq<(Seq<char>, Seq<char>)> {
    v.map_values(|p: (String, String)| (p.0@, p.1@))
}

proof fn lemma_pair_index(vals: Seq<(Seq<char>, Seq<char>)>, k: Seq<char>)
    ensures
        0 <= pair_index(vals, k) <= vals.len(),
        forall|j: int| 0 <= j < pair_index(vals, k) ==> (#[trigger] vals[j]).0 != k,
        pair_index(vals, k) < vals.len() ==> vals[pair_index(vals, k)].0 == k,
    decreases vals.len(),
{
    if vals.len() > 0 && vals[0].0 != k {
        lemma_pair_index(vals.skip(1), k);
        assert forall|j: int| 0 <= j < pair_index(vals, k) implies (#[trigger] vals[j]).0 != k by {
            if j > 0 {
                assert(vals[j] == vals.skip(1)[j - 1]);
            }
        }
    }
}

proof fn lemma_pair_index_unique(vals: Seq<(Seq<char>, Seq<char>)>, k: Seq<char>, n: int)
    requires
        0 <= n <= vals.len(),
        forall|j: int| 0 <= j < n ==> (#[trigger] vals[j]).0 != k,
        n < vals.len() ==> vals[n].0 == k,
    ensures
        pair_index(vals, k) == n,
{
    lemma_pair_index(vals, k);
    let r = pair_index(vals, k);
    if r < n {
        assert(vals[r].0 == k);
    }
    if n < r {
        assert(vals[n].0 != k);
    }
}

/// The value of the first pair with key `key`.
fn find_first_value(values: &Vec<(String, String)>, key: &str) -> (r: Option<String>)
    ensures
        opt_string_view(r) == first_value(pair_views(values@), key@),
{
    let ghost vals = pair_views(values@);
    let key_s = key.to_owned();
    let mut i: usize = 0;
    while i < values.len()
        invariant
            i <= values.len(),
            vals == pair_views(values@),
            key_s@ == key@,
            forall|j: int| 0 <= j < i ==> (#[trigger] vals[j]).0 != key@,
        decreases values.len() - i,
    {
        if values[i].0 == key_s {
            proof {
                lemma_pair_index_unique(vals, key@, i as int);
            }
            return Some(values[i].1.clone());
        }
        i = i + 1;
    }
    proof {
        lemma_pair_index_unique(vals, key@, i as int);
    }
    None
}

/// The rows of the `config list` output for the pairs of the configuration
/// file: first the known keys with their first values and descriptions,
/// then every pair whose key is not a known one.
pub fn list_rows(values: &Vec<(String, String)>) -> (rows: Vec<ListRow>)
    ensures
        rows@.len() == list_rows_spec(pair_views(values@)).len(),
        forall|i: int| 0 <= i < rows@.len() ==> (#[trigger] rows@[i])@ == list_rows_spec(pair_views(values@))[i],
{
    let ghost vals = pair_views(values@);
    let known = known_key_list();
    let mut rows: Vec<ListRow> = Vec::new();
    let mut i: usize = 0;
    while i < known.len()
        invariant
            i <= known.len() == 6,
            vals == pair_views(values@),
            forall|j: int| 0 <= j < known@.len() ==> (#[trigger] known@[j]).0@ == known_keys()[j].0 && known@[j].1@ == known_keys()[j].1,
            rows@.len() == i,
            forall|j: int| 0 <= j < i ==> (#[trigger] rows@[j])@ == list_rows_spec(vals)[j],
        decreases known.len() - i,
    {
        let (k, d) = known[i];
        let row = ListRow { key: k.to_owned(), value: find_first_value(values, k), note: Some(d.to_owned()) };
        rows.push(row);
        i = i + 1;
    }
    let ghost known_part = rows@;
    let mut j: usize = 0;
    while j < values.len()
        invariant
            j <= values.len(),
            vals == pair_views(values@),
            forall|m: int| 0 <= m < known@.len() ==> (#[trigger] known@[m]).0@ == known_keys()[m].0,
            known@.len() == 6,
            rows@.len() == 6 + extra_rows(vals.take(j as int)).len(),
            forall|m: int| 0 <= m < 6 ==> (#[trigger] rows@[m])@ == list_rows_spec(vals)[m],
            forall|m: int| 0 <= m < extra_rows(vals.take(j as int)).len() ==> (#[trigger] rows@[6 + m])@ == extra_rows(vals.take(j as int))[m],
        decreases values.len() - j,
    {
        proof {
            assert(vals.take(j + 1).drop_last() =~= vals.take(j as int));
            assert(vals.take(j + 1).last() == vals[j as int]);
        }
        let mut is_known = false;
        let mut m: usize = 0;
        while m < known.len()
            invariant
                m <= known.len() == 6,
                j < values.len(),
                vals == pair_views(values@),
                forall|q: int| 0 <= q < known@.len() ==> (#[trigger] known@[q]).0@ == known_keys()[q].0,
                is_known == exists|q: int| 0 <= q < m && #[trigger] known_keys()[q].0 == vals[j as int].0,
            decreases known.len() - m,
        {
            let ks = known[m].0.to_owned();
            if values[j].0 == ks {
                is_known = true;
            }
            m = m + 1;
        }
        proof {
            assert(is_known == is_known_key(vals[j as int].0));
        }
        if !is_known {
            let row = ListRow { key: values[j].0.clone(), value: Some(values[j].1.clone()), note: None };
            rows.push(row);
        }
        j = j + 1;
    }
    proof {
        assert(vals.take(values@.len() as int) =~= vals);
        let spec_rows = list_rows_spec(vals);
        assert(spec_rows.len() == 6 + extra_rows(vals).len());
        assert forall|i: int| 0 <= i < rows@.len() implies (#[trigger] rows@[i])@ == spec_rows[i] by {
            if i >= 6 {
                let m = i - 6;
                assert(rows@[6 + m]@ == extra_rows(vals)[m]);
                assert(spec_rows[i] == extra_rows(vals)[m]);
            }
        }
    }
    rows
}

/// Width of the key column: the widest known key, in bytes.
pub fn key_column_width() -> (w: usize)
    ensures
        w as nat == known_key_width(),
{
    let known = known_key_list();
    let ghost l = Seq::new(known_keys().len(), |i: int| encode_utf8(known_keys()[i].0).len());
    let mut w: usize = 0;
    let mut i: usize = 0;
    while i < known.len()
        invariant
            i <= known.len() == 6,
            l == Seq::new(known_keys().len(), |q: int| encode_utf8(known_keys()[q].0).len()),
            forall|q: int| 0 <= q < known@.len() ==> (#[trigger] known@[q]).0@ == known_keys()[q].0,
            w as nat == max_of(l.take(i as int)),
        decreases known.len() - i,
    {
        let n = known[i].0.as_bytes().len();
        proof {
            assert(l.take(i + 1).drop_last() =~= l.take(i as int));
            assert(l.take(i + 1).last() == l[i as int]);
        }
        if n > w {
            w = n;
        }
        i = i + 1;
    }
    proof {
        assert(l.take(6) =~= l);
    }
    w
}

/// The text of a listing row: the key padded to `width` characters, ` = `,
/// the value as shown (or `(未设置)`), and `  # ` with the description of a
/// known key; `None` where the value cannot be masked.
pub fn format_row(row: &ListRow, width: usize) -> (r: Option<String>)
    ensures
        opt_string_view(r) == row_text(row@, width as nat),
{
    let shown = match &row.value {
        Some(v) => display_value(row.key.as_str(), v.as_str()),
        None => Some("(未设置)".to_owned()),
    };
    let shown = match shown {
        Some(s) => s,
        None => {
            return None;
        },
    };
    let mut out = row.key.clone();
    let n = chars_of(row.key.as_str()).len();
    if n < width {
        let mut i: usize = n;
        while i < width
            invariant
                n <= i <= width,
                n == row.key@.len(),
                out@ == row.key@ + repeat_char(' ', (i - n) as nat),
            decreases width - i,
        {
            push_char(&mut out, ' ');
            proof {
                assert(out@ =~= row.key@ + repeat_char(' ', (i + 1 - n) as nat));
            }
            i = i + 1;
        }
    }
    proof {
        assert(out@ == padded(row.key@, width as nat));
    }
    out.append(" = ");
    out.append(shown.as_str());
    match &row.note {
        Some(d) => {
            out.append("  # ");
            out.append(d.as_str());
        },
        None => {},
    }
    Some(out)
}


// ---------------------------------------------------------------------------
// What the listing reveals of secret values
/// Two values that show alike once masked: both can be masked, or neither,
/// and the masks agree.
pub open spec fn same_mask(a: Seq<char>, b: Seq<char>) -> bool {
    maskable(a) == maskable(b) && masked(a) == masked(b)
}

/// Two value lists that differ only in the values of sensitive keys, and
/// there only where the masks agree: the same keys in the same order, and
/// each value equal or, for a sensitive key, with the same mask.
pub open spec fn alike_but_secrets(
    a: Seq<(Seq<char>, Seq<char>)>,
    b: Seq<(Seq<char>, Seq<char>)>,
) -> bool {
    &&& a.len() == b.len()
    &&& forall|i: int|
        0 <= i < a.len() ==> (#[trigger] a[i]).0 == b[i].0 && (a[i].1 == b[i].1 || (
        is_sensitive_spec(a[i].0) && same_mask(a[i].1, b[i].1)))
}

/// Two listing rows that read alike.
pub open spec fn rows_alike(x: RowView, y: RowView) -> bool {
    &&& x.0 == y.0
    &&& x.2 == y.2
    &&& (x.1 is None <==> y.1 is None)
    &&& (x.1 is Some ==> x.1->0 == y.1->0 || (is_sensitive_spec(x.0) && same_mask(x.1->0, y.1->0)))
}

proof fn lemma_pair_index_keys(
    a: Seq<(Seq<char>, Seq<char>)>,
    b: Seq<(Seq<char>, Seq<char>)>,
    k: Seq<char>,
)
    requires
        alike_but_secrets(a, b),
    ensures
        pair_index(a, k) == pair_index(b, k),
    decreases a.len(),
{
    if a.len() > 0 {
        assert(a[0].0 == b[0].0);
        let a1 = a.skip(1);
        let b1 = b.skip(1);
        assert forall|i: int| 0 <= i < a1.len() implies (#[trigger] a1[i]).0 == b1[i].0 && (a1[i].1
            == b1[i].1 || (is_sensitive_spec(a1[i].0) && same_mask(a1[i].1, b1[i].1))) by {
            assert(a1[i] == a[i + 1]);
            assert(b1[i] == b[i + 1]);
        }
        lemma_pair_index_keys(a1, b1, k);
    }
}

proof fn lemma_extra_rows_alike(a: Seq<(Seq<char>, Seq<char>)>, b: Seq<(Seq<char>, Seq<char>)>)
    requires
        alike_but_secrets(a, b),
    ensures
        extra_rows(a).len() == extra_rows(b).len(),
        forall|i: int| 0 <= i < extra_rows(a).len() ==> rows_alike(#[trigger] extra_rows(a)[i], extra_rows(b)[i]),
    decreases a.len(),
{
    if a.len() > 0 {
        let a1 = a.drop_last();
        let b1 = b.drop_last();
        assert forall|i: int| 0 <= i < a1.len() implies (#[trigger] a1[i]).0 == b1[i].0 && (a1[i].1
            == b1[i].1 || (is_sensitive_spec(a1[i].0) && same_mask(a1[i].1, b1[i].1))) by {
            assert(a1[i] == a[i]);
            assert(b1[i] == b[i]);
        }
        lemma_extra_rows_alike(a1, b1);
        assert(a.last() == a[a.len() - 1]);
        assert(b.last() == b[b.len() - 1]);
        let ra = extra_rows(a1);
        let rb = extra_rows(b1);
        if !is_known_key(a.last().0) {
            assert forall|i: int| 0 <= i < ra.len() + 1 implies rows_alike(
                #[trigger] ra.push((a.last().0, Some(a.last().1), None))[i],
                rb.push((b.last().0, Some(b.last().1), None))[i],
            ) by {
                if i < ra.len() {
                    assert(rows_alike(ra[i], rb[i]));
                }
            }
        }
    }
}

/// A secret value reaches the listing only through its mask: two value
/// lists with the same keys in the same order, whose values differ only
/// for sensitive keys and there only where the masks agree, give the same
/// listing, row for row.
pub proof fn law_listing_hides_secrets(
    a: Seq<(Seq<char>, Seq<char>)>,
    b: Seq<(Seq<char>, Seq<char>)>,
    w: nat,
)
    requires
        alike_but_secrets(a, b),
    ensures
        list_rows_spec(a).len() == list_rows_spec(b).len(),
        forall|i: int|
            0 <= i < list_rows_spec(a).len() ==> row_text(#[trigger] list_rows_spec(a)[i], w)
                == row_text(list_rows_spec(b)[i], w),
{
    lemma_extra_rows_alike(a, b);
    let ra = list_rows_spec(a);
    let rb = list_rows_spec(b);
    let n = known_keys().len();
    assert forall|i: int| 0 <= i < ra.len() implies row_text(#[trigger] ra[i], w) == row_text(
        rb[i],
        w,
    ) by {
        if i < n {
            let k = known_keys()[i].0;
            lemma_pair_index_keys(a, b, k);
            lemma_pair_index(a, k);
            let j = pair_index(a, k);
            if j < a.len() {
                assert(a[j].0 == b[j].0);
            }
            assert(rows_alike(ra[i], rb[i]));
        } else {
            assert(ra[i] == extra_rows(a)[i - n]);
            assert(rb[i] == extra_rows(b)[i - n]);
            assert(rows_alike(ra[i], rb[i]));
        }
    }
}

// ---------------------------------------------------------------------------
// What a mask shows
/// Every character takes at least one byte.
proof fn lemma_byte_len_at_least_chars(s: Seq<char>)
    ensures
        byte_len(s) >= s.len(),
    decreases s.len(),
{
    if s.len() > 0 {
        lemma_byte_len_at_least_chars(s.drop_first());
        assert(vstd::utf8::encode_scalar(s[0] as u32).len() >= 1);
    }
}

/// A mask shows at most the ends of a value and stars the rest, one `*` per
/// hidden byte:
/// - a value of at most four bytes shows nothing;
/// - a value of more than four bytes and at most eight characters shows a
///   prefix of itself made of its first four bytes, then stars;
/// - a longer value shows exactly its first four and last four characters,
///   with a star for each byte between them.
pub proof fn law_mask_shows_only_the_ends(value: Seq<char>)
    requires
        maskable(value),
    ensures
        ({
            let m = masked(value);
            let b = byte_len(value);
            let n = value.len();
            &&& b <= 4 ==> m.len() == b && forall|i: int| 0 <= i < m.len() ==> #[trigger] m[i] == '*'
            &&& b > 4 && n <= 8 ==> {
                let h = m.len() - (b - 4);
                &&& 0 <= h <= m.len()
                &&& forall|i: int| h <= i < m.len() ==> #[trigger] m[i] == '*'
                &&& value.take(h) == m.take(h)
                &&& encode_utf8(m.take(h)) == encode_utf8(value).take(4)
            }
            &&& n > 8 ==> {
                &&& m.len() == 8 + byte_len(value.subrange(4, n - 4))
                &&& m.take(4) == value.take(4)
                &&& m.skip(m.len() - 4) == value.skip(n - 4)
                &&& forall|i: int| 4 <= i < m.len() - 4 ==> #[trigger] m[i] == '*'
            }
        }),
{
    let m = masked(value);
    let b = byte_len(value);
    let n = value.len();
    if b > 4 && n <= 8 {
        let e = encode_utf8(value);
        vstd::utf8::encode_utf8_valid_utf8(value);
        vstd::utf8::encode_utf8_decode_utf8(value);
        assert(is_char_boundary(e, 4));
        vstd::utf8::decode_utf8_split(e, 4);
        vstd::utf8::valid_utf8_split(e, 4);
        assert(e.take(4) =~= e.subrange(0, 4));
        let hd = decode_utf8(e.take(4));
        vstd::utf8::decode_utf8_encode_utf8(e.take(4));
        assert(value =~= hd + decode_utf8(e.subrange(4, e.len() as int)));
        assert(m.take(hd.len() as int) =~= hd);
        assert(value.take(hd.len() as int) =~= hd);
    } else if n > 8 {
        lemma_byte_len_at_least_chars(value);
        assert(m.take(4) =~= value.take(4));
        assert(m.skip(m.len() - 4) =~= value.skip(n - 4));
    }
}

// ---------------------------------------------------------------------------
// What the listing holds
/// The rows for other keys are the pairs whose key is not a known one, in
/// order.
proof fn lemma_extra_rows_filter(vals: Seq<(Seq<char>, Seq<char>)>)
    ensures
        extra_rows(vals).len() == vals.filter(|p: (Seq<char>, Seq<char>)| !is_known_key(p.0)).len(),
        forall|i: int|
            0 <= i < extra_rows(vals).len() ==> #[trigger] extra_rows(vals)[i] == ({
                let p = vals.filter(|p: (Seq<char>, Seq<char>)| !is_known_key(p.0))[i];
                (p.0, Some(p.1), None::<Seq<char>>)
            }),
    decreases vals.len(),
{
    reveal(Seq::filter);
    if vals.len() > 0 {
        lemma_extra_rows_filter(vals.drop_last());
        let f0 = vals.drop_last().filter(|p: (Seq<char>, Seq<char>)| !is_known_key(p.0));
        let r0 = extra_rows(vals.drop_last());
        let x = vals.last();
        if !is_known_key(x.0) {
            assert forall|i: int| 0 <= i < r0.len() + 1 implies #[trigger] r0.push(
                (x.0, Some(x.1), None::<Seq<char>>),
            )[i] == ({
                let p = f0.push(x)[i];
                (p.0, Some(p.1), None::<Seq<char>>)
            }) by {
                if i < r0.len() {
                    assert(f0.push(x)[i] == f0[i]);
                }
            }
        }
    }
}

/// The listing shows every known setting once, in their fixed order, with
/// its description and the value of the first pair that sets it (none when
/// no pair does), and then every pair whose key is not a known one, in
/// order, with its value and no description.
pub proof fn law_listing_rows(vals: Seq<(Seq<char>, Seq<char>)>)
    ensures
        list_rows_spec(vals).len() == known_keys().len() + vals.filter(
            |p: (Seq<char>, Seq<char>)| !is_known_key(p.0),
        ).len(),
        forall|i: int|
            0 <= i < known_keys().len() ==> {
                let row = #[trigger] list_rows_spec(vals)[i];
                let k = known_keys()[i].0;
                &&& row.0 == k
                &&& row.2 == Some(known_keys()[i].1)
                &&& row.1 is None <==> forall|j: int| 0 <= j < vals.len() ==> vals[j].0 != k
                &&& row.1 is Some ==> exists|j: int|
                    0 <= j < vals.len() && vals[j].0 == k && row.1->0 == vals[j].1 && forall|q: int|
                        0 <= q < j ==> vals[q].0 != k
            },
        forall|i: int|
            0 <= i < vals.filter(|p: (Seq<char>, Seq<char>)| !is_known_key(p.0)).len() ==> {
                let p = vals.filter(|p: (Seq<char>, Seq<char>)| !is_known_key(p.0))[i];
                #[trigger] list_rows_spec(vals)[known_keys().len() + i] == (p.0, Some(p.1), None::<
                    Seq<char>,
                >)
            },
{
    lemma_extra_rows_filter(vals);
    let n = known_keys().len();
    let rows = list_rows_spec(vals);
    assert forall|i: int| 0 <= i < n implies {
        let row = #[trigger] rows[i];
        let k = known_keys()[i].0;
        &&& row.0 == k
        &&& row.2 == Some(known_keys()[i].1)
        &&& row.1 is None <==> forall|j: int| 0 <= j < vals.len() ==> vals[j].0 != k
        &&& row.1 is Some ==> exists|j: int|
            0 <= j < vals.len() && vals[j].0 == k && row.1->0 == vals[j].1 && forall|q: int|
                0 <= q < j ==> vals[q].0 != k
    } by {
        let k = known_keys()[i].0;
        lemma_pair_index(vals, k);
        let j = pair_index(vals, k);
        if j < vals.len() {
            assert(vals[j].0 == k);
        }
    }
    assert forall|i: int|
        0 <= i < vals.filter(|p: (Seq<char>, Seq<char>)| !is_known_key(p.0)).len() implies {
        let p = vals.filter(|p: (Seq<char>, Seq<char>)| !is_known_key(p.0))[i];
        #[trigger] rows[n + i] == (p.0, Some(p.1), None::<Seq<char>>)
    } by {
        assert(rows[n + i] == extra_rows(vals)[i]);
    }
}

} // verus!
