//! Character-level text helpers shared by the ledger, the wire format and
//! the text files: the lexicographic order on names (which is the order
//! `String`'s `Ord` uses), equality and ordering tests, string
//! construction, splitting a text into lines as `BufRead::lines` and
//! `str::lines` do, and splitting a line at its first `|`.
use vstd::prelude::*;

verus! {

/// Strict lexicographic order on character sequences, comparing code
/// points; a proper prefix comes first. This is the order of `str`/`String`
/// comparison in Rust (UTF-8 byte order coincides with code point order).
pub open spec fn text_lt(a: Seq<char>, b: Seq<char>) -> bool
    decreases a.len(),
{
    if a.len() == 0 {
        b.len() > 0
    } else if b.len() == 0 {
        false
    } else if a[0] != b[0] {
        (a[0] as int) < (b[0] as int)
    } else {
        text_lt(a.drop_first(), b.drop_first())
    }
}

/// A sequence of names in strictly increasing order (sorted, no repeats).
pub open spec fn strictly_sorted(s: Seq<Seq<char>>) -> bool {
    forall|i: int, j: int| 0 <= i < j < s.len() ==> text_lt(#[trigger] s[i], #[trigger] s[j])
}

pub proof fn lemma_text_lt_irreflexive(a: Seq<char>)
    ensures
        !text_lt(a, a),
    decreases a.len(),
{
    if a.len() > 0 {
        lemma_text_lt_irreflexive(a.drop_first());
    }
}

pub proof fn lemma_text_lt_transitive(a: Seq<char>, b: Seq<char>, c: Seq<char>)
    requires
        text_lt(a, b),
        text_lt(b, c),
    ensures
        text_lt(a, c),
    decreases a.len(),
{
    if a.len() > 0 && b.len() > 0 && c.len() > 0 {
        if a[0] == b[0] && b[0] == c[0] {
            lemma_text_lt_transitive(a.drop_first(), b.drop_first(), c.drop_first());
        }
    }
}

pub proof fn lemma_text_lt_total(a: Seq<char>, b: Seq<char>)
    ensures
        a == b || text_lt(a, b) || text_lt(b, a),
    decreases a.len(),
{
    if a.len() > 0 && b.len() > 0 && a[0] == b[0] {
        lemma_text_lt_total(a.drop_first(), b.drop_first());
        if a.drop_first() == b.drop_first() {
            assert(a =~= seq![a[0]] + a.drop_first());
            assert(b =~= seq![b[0]] + b.drop_first());
        }
    } else if a.len() == 0 && b.len() == 0 {
        assert(a =~= b);
    }
}

pub proof fn lemma_text_lt_asymmetric(a: Seq<char>, b: Seq<char>)
    requires
        text_lt(a, b),
    ensures
        !text_lt(b, a),
{
    if text_lt(b, a) {
        lemma_text_lt_transitive(a, b, a);
        lemma_text_lt_irreflexive(a);
    }
}

/// In a strictly sorted sequence no name occurs twice.
pub proof fn lemma_strictly_sorted_no_duplicates(s: Seq<Seq<char>>)
    requires
        strictly_sorted(s),
    ensures
        s.no_duplicates(),
{
    assert forall|i: int, j: int| 0 <= i < s.len() && 0 <= j < s.len() && i != j implies s[i]
        != s[j] by {
        if i < j {
            lemma_text_lt_irreflexive(s[i]);
        } else {
            lemma_text_lt_irreflexive(s[j]);
        }
    }
}

/// The characters of `s`, in order.
pub fn chars_of(s: &str) -> (out: Vec<char>)
    ensures
        out@ == s@,
{
    let mut out: Vec<char> = Vec::new();
    for c in it: s.chars()
        invariant
            it.seq() == s@,
            out.len() == it.index(),
            forall|j: int| 0 <= j < it.index() ==> out@[j] == it.seq()[j],
    {
        out.push(c);
    }
    out
}

/// Whether `a` comes strictly before `b` in the order of `text_lt`.
pub fn chars_less(a: &[char], b: &[char]) -> (r: bool)
    ensures
        r == text_lt(a@, b@),
{
    let mut i: usize = 0;
    assert(a@.skip(0) =~= a@);
    assert(b@.skip(0) =~= b@);
    while i < a.len() && i < b.len()
        invariant
            i <= a@.len(),
            i <= b@.len(),
            text_lt(a@, b@) == text_lt(a@.skip(i as int), b@.skip(i as int)),
        decreases a.len() - i,
    {
        if a[i] != b[i] {
            return a[i] < b[i];
        }
        assert(a@.skip(i as int).drop_first() =~= a@.skip(i + 1));
        assert(b@.skip(i as int).drop_first() =~= b@.skip(i + 1));
        i = i + 1;
    }
    i == a.len() && i < b.len()
}

/// Whether `a` and `b` hold the same characters.
pub fn chars_equal(a: &[char], b: &[char]) -> (r: bool)
    ensures
        r == (a@ == b@),
{
    if a.len() != b.len() {
        return false;
    }
    let mut i: usize = 0;
    while i < a.len()
        invariant
            a@.len() == b@.len(),
            i <= a@.len(),
            forall|j: int| 0 <= j < i ==> a@[j] == b@[j],
        decreases a.len() - i,
    {
        if a[i] != b[i] {
            return false;
        }
        i = i + 1;
    }
    assert(a@ =~= b@);
    true
}

/// Whether `a` and `b` are the same text.
pub fn str_equal(a: &str, b: &str) -> (r: bool)
    ensures
        r == (a@ == b@),
{
    let ca = chars_of(a);
    let cb = chars_of(b);
    chars_equal(ca.as_slice(), cb.as_slice())
}

/// Appends one character to a `String` (`String::push`).
#[verifier::external_body]
pub(crate) fn push_char(s: &mut String, c: char)
    ensures
        final(s)@ == old(s)@.push(c),
{
    s.push(c);
}

/// Appends the text `t` to `s`.
pub fn push_text(s: &mut String, t: &str)
    ensures
        final(s)@ == old(s)@ + t@,
{
    let cs = chars_of(t);
    let mut i: usize = 0;
    while i < cs.len()
        invariant
            cs@ == t@,
            i <= cs@.len(),
            s@ == old(s)@ + cs@.subrange(0, i as int),
        decreases cs.len() - i,
    {
        push_char(s, cs[i]);
        assert(cs@.subrange(0, i + 1) =~= cs@.subrange(0, i as int).push(cs@[i as int]));
        i = i + 1;
    }
    assert(cs@.subrange(0, cs@.len() as int) =~= cs@);
}

/// A fresh `String` holding the text `t`.
pub fn text_string(t: &str) -> (s: String)
    ensures
        s@ == t@,
{
    let mut s = String::new();
    push_text(&mut s, t);
    assert(s@ =~= t@);
    s
}

/// A fresh `String` holding the characters `cs`.
pub fn string_of_chars(cs: &[char]) -> (s: String)
    ensures
        s@ == cs@,
{
    let mut s = String::new();
    let mut i: usize = 0;
    while i < cs.len()
        invariant
            i <= cs@.len(),
            s@ == cs@.subrange(0, i as int),
        decreases cs.len() - i,
    {
        push_char(&mut s, cs[i]);
        assert(cs@.subrange(0, i + 1) =~= cs@.subrange(0, i as int).push(cs@[i as int]));
        i = i + 1;
    }
    assert(cs@.subrange(0, cs@.len() as int) =~= cs@);
    s
}

/// A line without the carriage return that ends it, if any.
pub open spec fn strip_cr(l: Seq<char>) -> Seq<char> {
    if l.len() > 0 && l.last() == '\r' {
        l.drop_last()
    } else {
        l
    }
}

/// The lines of `s`, the first of them continuing `cur`: split at each
/// `\n`, a line ended by `\r\n` loses the `\r`, and text after the last
/// `\n` is a line when it is not empty.
pub open spec fn lines_from(s: Seq<char>, cur: Seq<char>) -> Seq<Seq<char>>
    decreases s.len(),
{
    if s.len() == 0 {
        if cur.len() == 0 {
            Seq::empty()
        } else {
            seq![cur]
        }
    } else if s[0] == '\n' {
        seq![strip_cr(cur)] + lines_from(s.skip(1), Seq::empty())
    } else {
        lines_from(s.skip(1), cur.push(s[0]))
    }
}

/// The lines of a text, as `BufRead::lines` yields them.
pub open spec fn file_lines(s: Seq<char>) -> Seq<Seq<char>> {
    lines_from(s, Seq::empty())
}

/// The position of the first `|` in `l`, or its length when it has none.
pub open spec fn bar_pos(l: Seq<char>) -> int
    decreases l.len(),
{
    if l.len() == 0 {
        0
    } else if l[0] == '|' {
        0
    } else {
        1 + bar_pos(l.skip(1))
    }
}

/// The tag of a line: the text before its first `|` (all of it if none).
pub open spec fn line_tag(l: Seq<char>) -> Seq<char> {
    l.take(bar_pos(l))
}

/// The value of a line: the text after its first `|` (empty if none).
pub open spec fn line_value(l: Seq<char>) -> Seq<char> {
    if bar_pos(l) < l.len() {
        l.skip(bar_pos(l) + 1)
    } else {
        Seq::empty()
    }
}

pub proof fn lemma_bar_pos(l: Seq<char>, k: int)
    requires
        0 <= k <= l.len(),
        forall|j: int| 0 <= j < k ==> l[j] != '|',
        k == l.len() || l[k] == '|',
    ensures
        bar_pos(l) == k,
    decreases k,
{
    if k > 0 {
        let t = l.skip(1);
        assert forall|j: int| 0 <= j < k - 1 implies t[j] != '|' by {
            assert(t[j] == l[j + 1]);
        }
        if k < l.len() {
            assert(t[k - 1] == l[k]);
        }
        lemma_bar_pos(t, k - 1);
    }
}

/// The tag and the value of a line.
pub fn split_tag(l: &Vec<char>) -> (tv: (Vec<char>, Vec<char>))
    ensures
        tv.0@ == line_tag(l@),
        tv.1@ == line_value(l@),
{
    let mut tag: Vec<char> = Vec::new();
    let mut k: usize = 0;
    while k < l.len() && l[k] != '|'
        invariant
            k <= l@.len(),
            tag@ == l@.take(k as int),
            forall|j: int| 0 <= j < k ==> l@[j] != '|',
        decreases l.len() - k,
    {
        tag.push(l[k]);
        assert(l@.take(k + 1) =~= l@.take(k as int).push(l@[k as int]));
        k = k + 1;
    }
    proof {
        lemma_bar_pos(l@, k as int);
    }
    let mut value: Vec<char> = Vec::new();
    if k < l.len() {
        let mut m: usize = k + 1;
        while m < l.len()
            invariant
                k < l@.len(),
                k + 1 <= m <= l@.len(),
                value@ == l@.subrange(k + 1, m as int),
            decreases l.len() - m,
        {
            value.push(l[m]);
            assert(l@.subrange(k + 1, m + 1) =~= l@.subrange(k + 1, m as int).push(l@[m as int]));
            m = m + 1;
        }
        assert(l@.subrange(k + 1, l@.len() as int) =~= l@.skip(k + 1));
    } else {
        assert(value@ =~= Seq::<char>::empty());
    }
    (tag, value)
}

} // verus!
