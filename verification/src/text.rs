//! Character-level text model shared by the configuration file format, the
//! command output and the service files: whitespace, trimming, line
//! splitting, joining, and decimal numbers.
use vstd::prelude::*;

verus! {

/// `char::is_whitespace`: the Unicode White_Space property.
pub open spec fn is_ws(c: char) -> bool {
    let n = c as u32;
    ||| n == 0x20
    ||| 0x09 <= n <= 0x0D
    ||| n == 0x85
    ||| n == 0xA0
    ||| n == 0x1680
    ||| 0x2000 <= n <= 0x200A
    ||| n == 0x2028
    ||| n == 0x2029
    ||| n == 0x202F
    ||| n == 0x205F
    ||| n == 0x3000
}

/// No character of `s` is `c`.
pub open spec fn lacks(s: Seq<char>, c: char) -> bool {
    forall|i: int| 0 <= i < s.len() ==> s[i] != c
}

/// Index of the first `c` in `s`, or `s.len()` when there is none.
pub open spec fn first_index_of(s: Seq<char>, c: char) -> int
    decreases s.len(),
{
    if s.len() == 0 {
        0
    } else if s[0] == c {
        0
    } else {
        1 + first_index_of(s.skip(1), c)
    }
}

/// `str::trim_start`.
pub open spec fn trim_start(s: Seq<char>) -> Seq<char>
    decreases s.len(),
{
    if s.len() > 0 && is_ws(s[0]) {
        trim_start(s.skip(1))
    } else {
        s
    }
}

/// `str::trim_end`.
pub open spec fn trim_end(s: Seq<char>) -> Seq<char>
    decreases s.len(),
{
    if s.len() > 0 && is_ws(s.last()) {
        trim_end(s.drop_last())
    } else {
        s
    }
}

/// `str::trim`.
pub open spec fn trim(s: Seq<char>) -> Seq<char> {
    trim_end(trim_start(s))
}

/// `s` has no leading and no trailing whitespace.
pub open spec fn is_trimmed(s: Seq<char>) -> bool {
    s.len() == 0 || (!is_ws(s[0]) && !is_ws(s.last()))
}

/// Removes one trailing carriage return.
pub open spec fn strip_cr(s: Seq<char>) -> Seq<char> {
    if s.len() > 0 && s.last() == '\r' {
        s.drop_last()
    } else {
        s
    }
}

/// `str::lines`: split at `\n` or `\r\n`; a final line ending is optional and
/// an empty text has no lines.
pub open spec fn text_lines(s: Seq<char>) -> Seq<Seq<char>>
    decreases s.len(),
{
    if s.len() == 0 {
        seq![]
    } else {
        let i = first_index_of(s, '\n');
        if i >= s.len() {
            seq![s]
        } else {
            proof {
                lemma_first_index_of(s, '\n');
            }
            seq![strip_cr(s.take(i))] + text_lines(s.skip(i + 1))
        }
    }
}

/// The pieces joined with `\n` between them (`[..].join("\n")`).
pub open spec fn join_lines(m: Seq<Seq<char>>) -> Seq<char>
    decreases m.len(),
{
    if m.len() == 0 {
        seq![]
    } else if m.len() == 1 {
        m[0]
    } else {
        m[0] + seq!['\n'] + join_lines(m.skip(1))
    }
}

/// Every piece followed by `\n`.
pub open spec fn terminated(m: Seq<Seq<char>>) -> Seq<char>
    decreases m.len(),
{
    if m.len() == 0 {
        seq![]
    } else {
        m[0] + seq!['\n'] + terminated(m.skip(1))
    }
}

/// Adds a final `\n` unless the text already ends with one.
pub open spec fn with_final_newline(s: Seq<char>) -> Seq<char> {
    if s.len() > 0 && s.last() == '\n' {
        s
    } else {
        s.push('\n')
    }
}

/// `s` occurs in `hay` as a contiguous piece (`str::contains`).
pub open spec fn contains_text(hay: Seq<char>, s: Seq<char>) -> bool {
    exists|i: int| 0 <= i <= hay.len() - s.len() && #[trigger] hay.subrange(i, i + s.len()) == s
}

/// `n` copies of `c`.
pub open spec fn repeat_char(c: char, n: nat) -> Seq<char> {
    Seq::new(n, |i: int| c)
}

/// The decimal digit character of `d < 10`.
pub open spec fn digit_char(d: nat) -> char {
    (48 + d) as char
}

pub open spec fn is_digit(c: char) -> bool {
    48 <= (c as u32) <= 57
}

pub open spec fn digit_value(c: char) -> nat {
    ((c as u32) - 48) as nat
}

pub open spec fn all_digits(s: Seq<char>) -> bool {
    forall|i: int| 0 <= i < s.len() ==> is_digit(s[i])
}

/// The number that a string of decimal digits denotes.
pub open spec fn digits_value(s: Seq<char>) -> nat
    decreases s.len(),
{
    if s.len() == 0 {
        0
    } else {
        digits_value(s.drop_last()) * 10 + digit_value(s.last())
    }
}

/// The decimal form of `n` (`Display` for unsigned integers).
pub open spec fn decimal(n: nat) -> Seq<char>
    decreases n,
{
    if n < 10 {
        seq![digit_char(n)]
    } else {
        decimal(n / 10).push(digit_char(n % 10))
    }
}

/// `str::parse` for an unsigned integer type whose largest value is `max`:
/// an optional `+`, then one or more decimal digits, the value not above
/// `max`.
pub open spec fn parse_unsigned_spec(s: Seq<char>, max: nat) -> Option<nat> {
    let d = if s.len() > 0 && s[0] == '+' {
        s.skip(1)
    } else {
        s
    };
    if d.len() > 0 && all_digits(d) && digits_value(d) <= max {
        Some(digits_value(d))
    } else {
        None
    }
}

// ---------------------------------------------------------------------------
// Lemmas
pub proof fn lemma_first_index_of(s: Seq<char>, c: char)
    ensures
        0 <= first_index_of(s, c) <= s.len(),
        forall|j: int| 0 <= j < first_index_of(s, c) ==> s[j] != c,
        first_index_of(s, c) < s.len() ==> s[first_index_of(s, c)] == c,
    decreases s.len(),
{
    if s.len() > 0 && s[0] != c {
        lemma_first_index_of(s.skip(1), c);
        assert forall|j: int| 0 <= j < first_index_of(s, c) implies s[j] != c by {
            if j > 0 {
                assert(s[j] == s.skip(1)[j - 1]);
            }
        }
    }
}

/// The first index of `c` is the one index before which `c` does not occur
/// and at which it does (or the end).
pub proof fn lemma_first_index_unique(s: Seq<char>, c: char, n: int)
    requires
        0 <= n <= s.len(),
        forall|j: int| 0 <= j < n ==> s[j] != c,
        n < s.len() ==> s[n] == c,
    ensures
        first_index_of(s, c) == n,
{
    lemma_first_index_of(s, c);
    let r = first_index_of(s, c);
    if r < n {
        assert(s[r] == c);
    }
    if n < r {
        assert(s[n] != c);
    }
}

pub proof fn lemma_trim_start_shape(s: Seq<char>)
    ensures
        trim_start(s).len() <= s.len(),
        trim_start(s) =~= s.skip(s.len() - trim_start(s).len()),
        trim_start(s).len() == 0 || !is_ws(trim_start(s)[0]),
        forall|j: int| 0 <= j < s.len() - trim_start(s).len() ==> is_ws(s[j]),
    decreases s.len(),
{
    if s.len() > 0 && is_ws(s[0]) {
        lemma_trim_start_shape(s.skip(1));
        assert forall|j: int| 0 <= j < s.len() - trim_start(s).len() implies is_ws(s[j]) by {
            if j > 0 {
                assert(s[j] == s.skip(1)[j - 1]);
            }
        }
    }
}

pub proof fn lemma_trim_end_shape(s: Seq<char>)
    ensures
        trim_end(s).len() <= s.len(),
        trim_end(s) =~= s.take(trim_end(s).len() as int),
        trim_end(s).len() == 0 || !is_ws(trim_end(s).last()),
        forall|j: int| trim_end(s).len() <= j < s.len() ==> is_ws(s[j]),
    decreases s.len(),
{
    if s.len() > 0 && is_ws(s.last()) {
        lemma_trim_end_shape(s.drop_last());
        assert forall|j: int| trim_end(s).len() <= j < s.len() implies is_ws(s[j]) by {
            if j < s.len() - 1 {
                assert(s[j] == s.drop_last()[j]);
            }
        }
    }
}

/// The trimmed text is a piece of the text, with no whitespace at its ends.
pub proof fn lemma_trim_shape(s: Seq<char>)
    ensures
        is_trimmed(trim(s)),
        0 <= s.len() - trim_start(s).len(),
        s.len() - trim_start(s).len() + trim(s).len() <= s.len(),
        trim(s) =~= s.subrange(
            s.len() - trim_start(s).len(),
            s.len() - trim_start(s).len() + trim(s).len(),
        ),
        s.len() > 0 && !is_ws(s[0]) ==> trim(s).len() > 0 && trim(s)[0] == s[0],
{
    lemma_trim_start_shape(s);
    let t = trim_start(s);
    lemma_trim_end_shape(t);
    let a = s.len() - t.len();
    assert(trim(s) =~= s.subrange(a, a + trim(s).len()));
    if trim(s).len() > 0 {
        assert(trim(s)[0] == t[0]);
    }
    if s.len() > 0 && !is_ws(s[0]) {
        assert(t == s);
        assert(trim(s).len() > 0);
    }
}

/// Text without whitespace at its ends is its own trim.
pub proof fn lemma_trim_trimmed(s: Seq<char>)
    requires
        is_trimmed(s),
    ensures
        trim(s) == s,
{
}

/// Dropping a final whitespace character does not change the trim.
pub proof fn lemma_trim_drop_ws(s: Seq<char>)
    requires
        s.len() > 0,
        is_ws(s.last()),
    ensures
        trim(s.drop_last()) == trim(s),
    decreases s.len(),
{
    if is_ws(s[0]) {
        assert(trim_start(s) == trim_start(s.skip(1)));
        if s.len() == 1 {
            assert(s.drop_last().len() == 0);
            assert(s.skip(1).len() == 0);
            assert(trim_start(s.skip(1)) == s.skip(1));
            assert(trim_start(s.drop_last()) == s.drop_last());
        } else {
            assert(s.drop_last()[0] == s[0]);
            assert(trim_start(s.drop_last()) == trim_start(s.drop_last().skip(1)));
            assert(s.drop_last().skip(1) =~= s.skip(1).drop_last());
            assert(s.skip(1).last() == s.last());
            lemma_trim_drop_ws(s.skip(1));
        }
    } else {
        assert(s.len() >= 2);
        assert(s.drop_last()[0] == s[0]);
        assert(trim_start(s) == s);
        assert(trim_start(s.drop_last()) == s.drop_last());
    }
}

/// Stripping a carriage return does not change the trim.
pub proof fn lemma_trim_strip_cr(s: Seq<char>)
    ensures
        trim(strip_cr(s)) == trim(s),
{
    if s.len() > 0 && s.last() == '\r' {
        lemma_trim_drop_ws(s);
    }
}

/// No line of a text holds a `\n`.
pub proof fn lemma_text_lines_no_nl(s: Seq<char>)
    ensures
        forall|j: int| 0 <= j < text_lines(s).len() ==> lacks(#[trigger] text_lines(s)[j], '\n'),
    decreases s.len(),
{
    if s.len() > 0 {
        let i = first_index_of(s, '\n');
        lemma_first_index_of(s, '\n');
        if i < s.len() {
            lemma_text_lines_no_nl(s.skip(i + 1));
            let rest = text_lines(s.skip(i + 1));
            assert forall|j: int| 0 <= j < text_lines(s).len() implies lacks(#[trigger] text_lines(s)[j], '\n') by {
                if j > 0 {
                    assert(text_lines(s)[j] == rest[j - 1]);
                }
            }
        }
    }
}

/// Splitting at the first `\n`.
pub proof fn lemma_text_lines_cons(x: Seq<char>, r: Seq<char>)
    requires
        lacks(x, '\n'),
    ensures
        text_lines(x + seq!['\n'] + r) == seq![strip_cr(x)] + text_lines(r),
{
    let s = x + seq!['\n'] + r;
    lemma_first_index_unique(s, '\n', x.len() as int);
    assert(s.take(x.len() as int) =~= x);
    assert(s.skip(x.len() as int + 1) =~= r);
}

/// Lines of text in which each line is followed by `\n`.
pub proof fn lemma_text_lines_terminated(m: Seq<Seq<char>>)
    requires
        forall|j: int| 0 <= j < m.len() ==> lacks(#[trigger] m[j], '\n'),
    ensures
        text_lines(terminated(m)) =~= m.map_values(|l: Seq<char>| strip_cr(l)),
    decreases m.len(),
{
    if m.len() > 0 {
        let rest = m.skip(1);
        assert forall|j: int| 0 <= j < rest.len() implies lacks(#[trigger] rest[j], '\n') by {
            assert(rest[j] == m[j + 1]);
        }
        lemma_text_lines_terminated(rest);
        lemma_text_lines_cons(m[0], terminated(rest));
    }
}

/// A nonempty join followed by `\n` is the terminated form.
pub proof fn lemma_join_then_newline(m: Seq<Seq<char>>)
    requires
        m.len() > 0,
    ensures
        join_lines(m).push('\n') =~= terminated(m),
    decreases m.len(),
{
    if m.len() == 1 {
        assert(m.skip(1).len() == 0);
        assert(terminated(m.skip(1)) =~= Seq::<char>::empty());
    } else {
        lemma_join_then_newline(m.skip(1));
    }
}

/// The join of one piece more.
pub proof fn lemma_join_snoc(m: Seq<Seq<char>>, n: int)
    requires
        1 <= n < m.len(),
    ensures
        join_lines(m.take(n + 1)) =~= join_lines(m.take(n)) + seq!['\n'] + m[n],
    decreases n,
{
    let a = m.take(n + 1);
    assert(a.len() == n + 1);
    assert(a[0] == m[0]);
    if n == 1 {
        assert(a.skip(1).len() == 1);
        assert(a.skip(1)[0] == m[1]);
        assert(join_lines(a.skip(1)) == m[1]);
        assert(join_lines(a) == a[0] + seq!['\n'] + join_lines(a.skip(1)));
        assert(m.take(1).len() == 1);
        assert(join_lines(m.take(1)) == m[0]);
    } else {
        lemma_join_snoc(m.skip(1), n - 1);
        assert(a.skip(1) =~= m.skip(1).take(n));
        assert(m.take(n).skip(1) =~= m.skip(1).take(n - 1));
        assert(m.skip(1)[n - 1] == m[n]);
        assert(join_lines(a) == a[0] + seq!['\n'] + join_lines(a.skip(1)));
        assert(m.take(n)[0] == m[0]);
        assert(join_lines(m.take(n)) == m[0] + seq!['\n'] + join_lines(m.take(n).skip(1)));
    }
}

/// A join of pieces without `\n` that ends in `\n` ends in an empty piece.
pub proof fn lemma_join_last(m: Seq<Seq<char>>)
    requires
        m.len() > 0,
    ensures
        join_lines(m).len() >= m.last().len(),
        join_lines(m).len() > 0 && m.last().len() > 0 ==> join_lines(m).last() == m.last().last(),
        m.len() >= 2 && m.last().len() == 0 ==> join_lines(m).len() > 0 && join_lines(m).last() == '\n',
    decreases m.len(),
{
    if m.len() >= 2 {
        lemma_join_last(m.skip(1));
        assert(m.skip(1).last() == m.last());
        if m.len() >= 3 {
        } else {
            assert(m.skip(1).len() == 1);
        }
    }
}

/// The value of a digit string is at least the value of any prefix.
pub proof fn lemma_digits_value_prefix(s: Seq<char>, i: int)
    requires
        0 <= i <= s.len(),
    ensures
        digits_value(s.take(i)) <= digits_value(s),
    decreases s.len(),
{
    if i < s.len() {
        lemma_digits_value_prefix(s.drop_last(), i);
        assert(s.drop_last().take(i) =~= s.take(i));
    } else {
        assert(s.take(i) =~= s);
    }
}

/// No line of a text without `c` holds `c`.
pub proof fn lemma_text_lines_lacks(s: Seq<char>, c: char)
    requires
        lacks(s, c),
    ensures
        forall|j: int| 0 <= j < text_lines(s).len() ==> lacks(#[trigger] text_lines(s)[j], c),
    decreases s.len(),
{
    if s.len() > 0 {
        let i = first_index_of(s, '\n');
        lemma_first_index_of(s, '\n');
        if i < s.len() {
            let rest = s.skip(i + 1);
            assert forall|j: int| 0 <= j < rest.len() implies rest[j] != c by {
                assert(rest[j] == s[j + i + 1]);
            }
            lemma_text_lines_lacks(rest, c);
            let first = strip_cr(s.take(i));
            assert forall|j: int| 0 <= j < first.len() implies first[j] != c by {
                assert(first[j] == s[j]);
            }
            assert forall|j: int| 0 <= j < text_lines(s).len() implies lacks(
                #[trigger] text_lines(s)[j],
                c,
            ) by {
                if j > 0 {
                    assert(text_lines(s)[j] == text_lines(rest)[j - 1]);
                }
            }
        }
    }
}

/// A final `\n` after a last line that ends in neither `\n` nor `\r` changes
/// no line.
pub proof fn lemma_text_lines_push_nl(s: Seq<char>)
    requires
        s.len() > 0,
        s.last() != '\n',
        s.last() != '\r',
    ensures
        text_lines(s.push('\n')) == text_lines(s),
    decreases s.len(),
{
    let t = s.push('\n');
    let i = first_index_of(s, '\n');
    lemma_first_index_of(s, '\n');
    if i < s.len() {
        assert(i < s.len() - 1);
        assert forall|j: int| 0 <= j < i implies t[j] != '\n' by {
            assert(t[j] == s[j]);
        }
        lemma_first_index_unique(t, '\n', i);
        assert(t.take(i) =~= s.take(i));
        assert(t.skip(i + 1) =~= s.skip(i + 1).push('\n'));
        lemma_text_lines_push_nl(s.skip(i + 1));
    } else {
        assert forall|j: int| 0 <= j < s.len() implies t[j] != '\n' by {
            assert(t[j] == s[j]);
        }
        lemma_first_index_unique(t, '\n', s.len() as int);
        assert(t.take(s.len() as int) =~= s);
        assert(t.skip(s.len() as int + 1) =~= Seq::<char>::empty());
        assert(text_lines(Seq::<char>::empty()) =~= Seq::<Seq<char>>::empty());
    }
}

/// The decimal form of a number is a nonempty string of digits whose value
/// is the number.
pub proof fn lemma_decimal(n: nat)
    ensures
        decimal(n).len() > 0,
        all_digits(decimal(n)),
        digits_value(decimal(n)) == n,
    decreases n,
{
    if n < 10 {
        let d = decimal(n);
        assert(d.drop_last() =~= Seq::<char>::empty());
        assert(digit_value(digit_char(n)) == n);
        assert(digits_value(d.drop_last()) == 0);
        assert(d.last() == digit_char(n));
        assert(digits_value(d) == digits_value(d.drop_last()) * 10 + digit_value(d.last()));
    } else {
        lemma_decimal(n / 10);
        let d = decimal(n);
        assert(d.drop_last() =~= decimal(n / 10));
        assert(d.last() == digit_char(n % 10));
        assert(digit_value(digit_char(n % 10)) == n % 10);
        assert forall|i: int| 0 <= i < d.len() implies is_digit(d[i]) by {
            if i < d.len() - 1 {
                assert(d[i] == decimal(n / 10)[i]);
            }
        }
        assert(digits_value(d) == digits_value(d.drop_last()) * 10 + digit_value(d.last()));
        assert((n / 10) * 10 + n % 10 == n) by (nonlinear_arith);
    }
}

// ---------------------------------------------------------------------------
// Executable helpers
/// `String::push`.
#[verifier::external_body]
pub fn push_char(s: &mut String, c: char)
    ensures
        final(s)@ == old(s)@.push(c),
{
    s.push(c);
}

/// The characters of a text.
pub fn chars_of(s: &str) -> (v: Vec<char>)
    ensures
        v@ == s@,
{
    let mut v: Vec<char> = Vec::new();
    for c in it: s.chars()
        invariant
            v@ == it.seq().take(it.index() as int),
            it.seq() == s@,
    {
        v.push(c);
    }
    proof {
        assert(v@ =~= s@);
    }
    v
}

/// The text made of `v[lo..hi]`.
pub fn string_of_range(v: &Vec<char>, lo: usize, hi: usize) -> (s: String)
    requires
        lo <= hi <= v.len(),
    ensures
        s@ == v@.subrange(lo as int, hi as int),
{
    let mut s = String::new();
    let mut i = lo;
    while i < hi
        invariant
            lo <= i <= hi <= v.len(),
            s@ == v@.subrange(lo as int, i as int),
        decreases hi - i,
    {
        push_char(&mut s, v[i]);
        proof {
            assert(v@.subrange(lo as int, i + 1) =~= v@.subrange(lo as int, i as int).push(v@[i as int]));
        }
        i = i + 1;
    }
    s
}

/// `char::is_whitespace`.
pub fn is_ws_char(c: char) -> (b: bool)
    ensures
        b == is_ws(c),
{
    let n = c as u32;
    n == 0x20 || (0x09 <= n && n <= 0x0D) || n == 0x85 || n == 0xA0 || n == 0x1680 || (0x2000 <= n
        && n <= 0x200A) || n == 0x2028 || n == 0x2029 || n == 0x202F || n == 0x205F || n == 0x3000
}

/// Bounds of `trim(v[lo..hi])` within `v`.
pub fn trim_range(v: &Vec<char>, lo: usize, hi: usize) -> (r: (usize, usize))
    requires
        lo <= hi <= v.len(),
    ensures
        lo <= r.0 <= r.1 <= hi,
        v@.subrange(r.0 as int, r.1 as int) == trim(v@.subrange(lo as int, hi as int)),
{
    let mut a = lo;
    while a < hi && is_ws_char(v[a])
        invariant
            lo <= a <= hi <= v.len(),
            trim_start(v@.subrange(lo as int, hi as int)) == trim_start(v@.subrange(a as int, hi as int)),
        decreases hi - a,
    {
        proof {
            assert(v@.subrange(a as int, hi as int).skip(1) =~= v@.subrange(a + 1, hi as int));
        }
        a = a + 1;
    }
    let mut b = hi;
    while b > a && is_ws_char(v[b - 1])
        invariant
            lo <= a <= b <= hi <= v.len(),
            trim_start(v@.subrange(lo as int, hi as int)) == v@.subrange(a as int, hi as int),
            trim_end(v@.subrange(a as int, hi as int)) == trim_end(v@.subrange(a as int, b as int)),
        decreases b - a,
    {
        proof {
            assert(v@.subrange(a as int, b as int).drop_last() =~= v@.subrange(a as int, b - 1));
        }
        b = b - 1;
    }
    (a, b)
}

/// Index of the first `c` in `v[lo..hi]`, or `hi`.
pub fn find_char(v: &Vec<char>, lo: usize, hi: usize, c: char) -> (r: usize)
    requires
        lo <= hi <= v.len(),
    ensures
        lo <= r <= hi,
        r - lo == first_index_of(v@.subrange(lo as int, hi as int), c),
{
    let mut i = lo;
    while i < hi && v[i] != c
        invariant
            lo <= i <= hi <= v.len(),
            forall|j: int| lo <= j < i ==> v@[j] != c,
        decreases hi - i,
    {
        i = i + 1;
    }
    proof {
        lemma_first_index_unique(v@.subrange(lo as int, hi as int), c, i - lo);
    }
    i
}

/// The decimal digit character of `d`.
pub fn digit_to_char(d: u64) -> (c: char)
    requires
        d < 10,
    ensures
        c == digit_char(d as nat),
{
    let b: u8 = 48u8 + (d as u8);
    b as char
}

/// `Display` of an unsigned integer: its decimal form.
pub fn decimal_string(n: u64) -> (s: String)
    ensures
        s@ == decimal(n as nat),
    decreases n,
{
    if n < 10 {
        let mut s = String::new();
        push_char(&mut s, digit_to_char(n));
        proof {
            assert(s@ =~= seq![digit_char(n as nat)]);
        }
        s
    } else {
        let mut s = decimal_string(n / 10);
        push_char(&mut s, digit_to_char(n % 10));
        s
    }
}

/// `str::parse` for an unsigned integer type whose largest value is `max`.
pub fn parse_unsigned(s: &str, max: u64) -> (r: Option<u64>)
    ensures
        match parse_unsigned_spec(s@, max as nat) {
            Some(n) => r == Some(n as u64),
            None => r.is_none(),
        },
{
    let v = chars_of(s);
    let start: usize = if v.len() > 0 && v[0] == '+' {
        1
    } else {
        0
    };
    let ghost d = v@.subrange(start as int, v@.len() as int);
    proof {
        assert(d =~= (if s@.len() > 0 && s@[0] == '+' {
            s@.skip(1)
        } else {
            s@
        }));
    }
    if start == v.len() {
        return None;
    }
    let mut acc: u64 = 0;
    let mut i = start;
    while i < v.len()
        invariant
            start <= i <= v.len(),
            start < v.len(),
            v@ == s@,
            d == v@.subrange(start as int, v@.len() as int),
            d == (if s@.len() > 0 && s@[0] == '+' {
                s@.skip(1)
            } else {
                s@
            }),
            forall|j: int| 0 <= j < i - start ==> is_digit(d[j]),
            acc == digits_value(d.take(i - start)),
            acc <= max,
        decreases v.len() - i,
    {
        let c = v[i];
        let cn = c as u32;
        if cn < 48 || cn > 57 {
            proof {
                assert(d[i - start] == c);
                assert(!is_digit(d[i - start]));
                assert(!all_digits(d));
            }
            return None;
        }
        let dv: u64 = (cn - 48) as u64;
        proof {
            assert(d.take(i - start + 1).drop_last() =~= d.take(i - start));
            assert(d.take(i - start + 1).last() == c);
        }
        if dv > max || acc > (max - dv) / 10 {
            proof {
                assert(digits_value(d.take(i - start + 1)) > max);
                lemma_digits_value_prefix(d, i - start + 1);
                if !all_digits(d) {
                } else {
                    assert(digits_value(d) > max);
                }
            }
            return None;
        }
        acc = acc * 10 + dv;
        i = i + 1;
    }
    proof {
        assert(d.take(d.len() as int) =~= d);
    }
    Some(acc)
}

/// The characters `v[lo..hi]`.
pub fn copy_range(v: &Vec<char>, lo: usize, hi: usize) -> (r: Vec<char>)
    requires
        lo <= hi <= v.len(),
    ensures
        r@ == v@.subrange(lo as int, hi as int),
{
    let mut r: Vec<char> = Vec::new();
    let mut i = lo;
    while i < hi
        invariant
            lo <= i <= hi <= v.len(),
            r@ == v@.subrange(lo as int, i as int),
        decreases hi - i,
    {
        r.push(v[i]);
        proof {
            assert(r@ =~= v@.subrange(lo as int, i + 1));
        }
        i = i + 1;
    }
    r
}

/// Bounds of the next line of `v` starting at `pos`, and where the line
/// after it starts: the text up to the next `\n` (without a `\r` before
/// it), or up to the end.
pub fn next_line(v: &Vec<char>, pos: usize) -> (r: (usize, usize))
    requires
        pos < v.len(),
    ensures
        pos <= r.0 <= v.len(),
        pos < r.1 <= v.len(),
        text_lines(v@.skip(pos as int)) == seq![v@.subrange(pos as int, r.0 as int)] + text_lines(v@.skip(r.1 as int)),
{
    let n = v.len();
    let j = find_char(v, pos, n, '\n');
    let end = if j < n && j > pos && v[j - 1] == '\r' {
        j - 1
    } else {
        j
    };
    let ghost s = v@.skip(pos as int);
    let ghost piece = v@.subrange(pos as int, end as int);
    proof {
        assert(v@.subrange(pos as int, n as int) =~= s);
        lemma_first_index_of(s, '\n');
        if j < n {
            assert(s.take(j - pos) =~= v@.subrange(pos as int, j as int));
            assert(strip_cr(s.take(j - pos)) =~= piece);
            assert(s.skip(j - pos + 1) =~= v@.skip(j + 1));
        } else {
            assert(s =~= piece);
            assert(v@.skip(n as int) =~= Seq::<char>::empty());
            assert(text_lines(v@.skip(n as int)) =~= Seq::<Seq<char>>::empty());
            assert(text_lines(s) =~= seq![piece] + text_lines(v@.skip(n as int)));
        }
    }
    if j < n {
        (end, j + 1)
    } else {
        (end, n)
    }
}

/// Whether `needle` occurs in `hay`.
pub fn text_contains(hay: &Vec<char>, needle: &Vec<char>) -> (b: bool)
    ensures
        b == contains_text(hay@, needle@),
{
    if needle.len() > hay.len() {
        return false;
    }
    let mut i: usize = 0;
    while i <= hay.len() - needle.len()
        invariant
            needle.len() <= hay.len(),
            i <= hay.len() - needle.len() + 1,
            forall|j: int|
                0 <= j < i ==> #[trigger] hay@.subrange(j, j + needle@.len()) != needle@,
        decreases hay.len() - needle.len() + 1 - i,
    {
        let mut k: usize = 0;
        while k < needle.len() && hay[i + k] == needle[k]
            invariant
                needle.len() <= hay.len(),
                i <= hay.len() - needle.len(),
                k <= needle.len(),
                forall|m: int| 0 <= m < k ==> hay@[i + m] == needle@[m],
            decreases needle.len() - k,
        {
            k = k + 1;
        }
        if k == needle.len() {
            proof {
                assert(hay@.subrange(i as int, i + needle@.len()) =~= needle@);
            }
            return true;
        }
        proof {
            assert(hay@.subrange(i as int, i + needle@.len())[k as int] != needle@[k as int]);
        }
        i = i + 1;
    }
    false
}

} // verus!
