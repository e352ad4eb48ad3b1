//! The text layer of the wire protocol: escaping of `\`, `|` and `,`,
//! splitting a line into `|`-separated fields, and `,`-separated lists.
//!
//! Splitting returns each field's raw (still escaped) text; scalar fields
//! are unescaped by their reader and list fields are split again on `,`
//! and unescaped item by item, so that an escaped comma inside a name
//! survives both layers.
use vstd::prelude::*;

use crate::text::{chars_of, string_of_chars};

verus! {

/// A character that the wire format escapes with a backslash.
pub open spec fn is_special(c: char) -> bool {
    c == '\\' || c == '|' || c == ','
}

/// The escaped form of one character.
pub open spec fn escape_char(c: char) -> Seq<char> {
    if is_special(c) {
        seq!['\\', c]
    } else {
        seq![c]
    }
}

/// `s` with every `\`, `|` and `,` preceded by a backslash.
pub open spec fn escape_text(s: Seq<char>) -> Seq<char>
    decreases s.len(),
{
    if s.len() == 0 {
        Seq::empty()
    } else {
        escape_char(s[0]) + escape_text(s.drop_first())
    }
}

/// Undoes escaping: a backslash followed by `\`, `|` or `,` stands for that
/// character; a backslash followed by anything else is kept together with
/// that character, and a trailing lone backslash is kept.
pub open spec fn unescape_text(s: Seq<char>) -> Seq<char>
    decreases s.len(),
{
    if s.len() == 0 {
        Seq::empty()
    } else if s[0] == '\\' {
        if s.len() == 1 {
            seq!['\\']
        } else if is_special(s[1]) {
            seq![s[1]] + unescape_text(s.skip(2))
        } else {
            seq!['\\', s[1]] + unescape_text(s.skip(2))
        }
    } else {
        seq![s[0]] + unescape_text(s.skip(1))
    }
}

/// Splits `s` on unescaped occurrences of `sep`, where `cur` is the text of
/// the field read so far. Backslash pairs are copied raw into the field.
pub open spec fn split_on(s: Seq<char>, sep: char, cur: Seq<char>) -> Seq<Seq<char>>
    decreases s.len(),
{
    if s.len() == 0 {
        seq![cur]
    } else if s[0] == '\\' {
        if s.len() == 1 {
            seq![cur.push('\\')]
        } else {
            split_on(s.skip(2), sep, cur.push('\\').push(s[1]))
        }
    } else if s[0] == sep {
        seq![cur] + split_on(s.skip(1), sep, Seq::empty())
    } else {
        split_on(s.skip(1), sep, cur.push(s[0]))
    }
}

/// The raw `|`-separated fields of a line (at least one).
pub open spec fn split_fields_text(s: Seq<char>) -> Seq<Seq<char>> {
    split_on(s, '|', Seq::empty())
}

/// The items of a `,`-separated list field; the empty text is the empty list.
pub open spec fn decode_list_text(s: Seq<char>) -> Seq<Seq<char>> {
    if s.len() == 0 {
        Seq::empty()
    } else {
        split_on(s, ',', Seq::empty()).map_values(|t: Seq<char>| unescape_text(t))
    }
}

/// The parts joined with `sep` between neighbours.
pub open spec fn join_text(parts: Seq<Seq<char>>, sep: char) -> Seq<char>
    decreases parts.len(),
{
    if parts.len() == 0 {
        Seq::empty()
    } else if parts.len() == 1 {
        parts[0]
    } else {
        parts[0] + seq![sep] + join_text(parts.drop_first(), sep)
    }
}

/// A list field: every item escaped, joined with `,`.
pub open spec fn encode_list_text(items: Seq<Seq<char>>) -> Seq<char> {
    join_text(items.map_values(|t: Seq<char>| escape_text(t)), ',')
}

/// `s` without its trailing newline characters.
pub open spec fn trim_newlines(s: Seq<char>) -> Seq<char>
    decreases s.len(),
{
    if s.len() > 0 && s.last() == '\n' {
        trim_newlines(s.drop_last())
    } else {
        s
    }
}

/// `s` reads as whole tokens (single characters other than `sep` and `\`,
/// or a backslash with the character after it), so splitting on `sep`
/// passes over it without ending a field.
pub open spec fn clean_for(s: Seq<char>, sep: char) -> bool
    decreases s.len(),
{
    if s.len() == 0 {
        true
    } else if s[0] == '\\' {
        s.len() >= 2 && clean_for(s.skip(2), sep)
    } else {
        s[0] != sep && clean_for(s.skip(1), sep)
    }
}

// ---- lemmas -------------------------------------------------------------
pub proof fn lemma_escape_append(a: Seq<char>, b: Seq<char>)
    ensures
        escape_text(a + b) == escape_text(a) + escape_text(b),
    decreases a.len(),
{
    if a.len() == 0 {
        assert(a + b =~= b);
        assert(escape_text(a) + escape_text(b) =~= escape_text(b));
    } else {
        assert((a + b).drop_first() =~= a.drop_first() + b);
        lemma_escape_append(a.drop_first(), b);
        assert(escape_text(a + b) =~= escape_char(a[0]) + (escape_text(a.drop_first())
            + escape_text(b)));
        assert(escape_text(a) + escape_text(b) =~= escape_char(a[0]) + (escape_text(a.drop_first())
            + escape_text(b)));
    }
}

pub proof fn lemma_escape_single(c: char)
    ensures
        escape_text(seq![c]) == escape_char(c),
{
    assert(seq![c].drop_first() =~= Seq::<char>::empty());
    assert(escape_text(seq![c].drop_first()) == Seq::<char>::empty());
    assert(escape_char(c) + Seq::<char>::empty() =~= escape_char(c));
}

pub proof fn lemma_escape_len(s: Seq<char>)
    ensures
        escape_text(s).len() >= s.len(),
    decreases s.len(),
{
    if s.len() > 0 {
        lemma_escape_len(s.drop_first());
    }
}

/// Unescaping undoes escaping.
pub proof fn lemma_unescape_escape(s: Seq<char>)
    ensures
        unescape_text(escape_text(s)) == s,
    decreases s.len(),
{
    if s.len() > 0 {
        let rest = escape_text(s.drop_first());
        lemma_unescape_escape(s.drop_first());
        let e = escape_text(s);
        if is_special(s[0]) {
            assert(e =~= seq!['\\', s[0]] + rest);
            assert(e.skip(2) =~= rest);
        } else {
            assert(e =~= seq![s[0]] + rest);
            assert(e.skip(1) =~= rest);
        }
        assert(s =~= seq![s[0]] + s.drop_first());
    }
}

pub proof fn lemma_clean_append(a: Seq<char>, b: Seq<char>, sep: char)
    requires
        clean_for(a, sep),
        clean_for(b, sep),
    ensures
        clean_for(a + b, sep),
    decreases a.len(),
{
    if a.len() == 0 {
        assert(a + b =~= b);
    } else if a[0] == '\\' {
        assert((a + b).skip(2) =~= a.skip(2) + b);
        lemma_clean_append(a.skip(2), b, sep);
    } else {
        assert((a + b).skip(1) =~= a.skip(1) + b);
        lemma_clean_append(a.skip(1), b, sep);
    }
}

/// Text without backslashes and without `sep` is clean for `sep`.
pub proof fn lemma_plain_is_clean(s: Seq<char>, sep: char)
    requires
        forall|i: int| 0 <= i < s.len() ==> #[trigger] s[i] != '\\' && s[i] != sep,
    ensures
        clean_for(s, sep),
    decreases s.len(),
{
    if s.len() > 0 {
        assert forall|i: int| 0 <= i < s.skip(1).len() implies #[trigger] s.skip(1)[i] != '\\'
            && s.skip(1)[i] != sep by {
            assert(s.skip(1)[i] == s[i + 1]);
        }
        lemma_plain_is_clean(s.skip(1), sep);
    }
}

/// Escaped text is clean for every character that escaping protects.
pub proof fn lemma_escape_clean(s: Seq<char>, sep: char)
    requires
        is_special(sep),
    ensures
        clean_for(escape_text(s), sep),
    decreases s.len(),
{
    if s.len() > 0 {
        lemma_escape_clean(s.drop_first(), sep);
        let c = s[0];
        assert(clean_for(Seq::<char>::empty(), sep));
        if is_special(c) {
            assert(seq!['\\', c].skip(2) =~= Seq::<char>::empty());
            assert(clean_for(seq!['\\', c], sep));
        } else {
            assert(seq![c].skip(1) =~= Seq::<char>::empty());
            assert(clean_for(seq![c], sep));
        }
        lemma_clean_append(escape_char(c), escape_text(s.drop_first()), sep);
    }
}

pub proof fn lemma_join_clean(parts: Seq<Seq<char>>, sep: char, other: char)
    requires
        other != '\\',
        other != sep,
        sep != '\\',
        forall|i: int| 0 <= i < parts.len() ==> clean_for(#[trigger] parts[i], other),
    ensures
        clean_for(join_text(parts, sep), other),
    decreases parts.len(),
{
    if parts.len() >= 2 {
        lemma_join_clean(parts.drop_first(), sep, other);
        assert(seq![sep].skip(1) =~= Seq::<char>::empty());
        assert(clean_for(Seq::<char>::empty(), other));
        assert(clean_for(seq![sep], other));
        lemma_clean_append(seq![sep], join_text(parts.drop_first(), sep), other);
        lemma_clean_append(parts[0], seq![sep] + join_text(parts.drop_first(), sep), other);
        assert(parts[0] + seq![sep] + join_text(parts.drop_first(), sep) =~= parts[0] + (seq![sep]
            + join_text(parts.drop_first(), sep)));
    }
}

/// A list field is clean for `|`.
pub proof fn lemma_encode_list_clean(items: Seq<Seq<char>>)
    ensures
        clean_for(encode_list_text(items), '|'),
{
    let parts = items.map_values(|t: Seq<char>| escape_text(t));
    assert forall|i: int| 0 <= i < parts.len() implies clean_for(#[trigger] parts[i], '|') by {
        lemma_escape_clean(items[i], '|');
    }
    lemma_join_clean(parts, ',', '|');
}

/// Splitting passes over clean text, adding it to the current field.
pub proof fn lemma_split_over_clean(t: Seq<char>, rest: Seq<char>, sep: char, cur: Seq<char>)
    requires
        clean_for(t, sep),
    ensures
        split_on(t + rest, sep, cur) == split_on(rest, sep, cur + t),
    decreases t.len(),
{
    if t.len() == 0 {
        assert(t + rest =~= rest);
        assert(cur + t =~= cur);
    } else if t[0] == '\\' {
        assert((t + rest).skip(2) =~= t.skip(2) + rest);
        lemma_split_over_clean(t.skip(2), rest, sep, cur.push('\\').push(t[1]));
        assert(cur.push('\\').push(t[1]) + t.skip(2) =~= cur + t);
    } else {
        assert((t + rest).skip(1) =~= t.skip(1) + rest);
        lemma_split_over_clean(t.skip(1), rest, sep, cur.push(t[0]));
        assert(cur.push(t[0]) + t.skip(1) =~= cur + t);
    }
}

/// Splitting joined clean parts gives the parts back (the first one after
/// the text already read).
pub proof fn lemma_split_join(parts: Seq<Seq<char>>, sep: char, cur: Seq<char>)
    requires
        parts.len() >= 1,
        sep != '\\',
        forall|i: int| 0 <= i < parts.len() ==> clean_for(#[trigger] parts[i], sep),
    ensures
        split_on(join_text(parts, sep), sep, cur) == seq![cur + parts[0]] + parts.drop_first(),
    decreases parts.len(),
{
    if parts.len() == 1 {
        assert(clean_for(parts[0], sep));
        lemma_split_over_clean(parts[0], Seq::empty(), sep, cur);
        assert(parts[0] + Seq::<char>::empty() =~= parts[0]);
        assert(parts.drop_first() =~= Seq::<Seq<char>>::empty());
        assert(seq![cur + parts[0]] + parts.drop_first() =~= seq![cur + parts[0]]);
    } else {
        let tail = parts.drop_first();
        let x = seq![sep] + join_text(tail, sep);
        assert(join_text(parts, sep) =~= parts[0] + x);
        assert(clean_for(parts[0], sep));
        lemma_split_over_clean(parts[0], x, sep, cur);
        assert(x.skip(1) =~= join_text(tail, sep));
        assert forall|i: int| 0 <= i < tail.len() implies clean_for(#[trigger] tail[i], sep) by {
            assert(tail[i] == parts[i + 1]);
        }
        lemma_split_join(tail, sep, Seq::empty());
        assert(Seq::<char>::empty() + tail[0] =~= tail[0]);
        assert(seq![tail[0]] + tail.drop_first() =~= tail);
    }
}

/// The fields of a line made by joining clean fields with `|`.
pub proof fn lemma_split_fields_join(parts: Seq<Seq<char>>)
    requires
        parts.len() >= 1,
        forall|i: int| 0 <= i < parts.len() ==> clean_for(#[trigger] parts[i], '|'),
    ensures
        split_fields_text(join_text(parts, '|')) == parts,
{
    lemma_split_join(parts, '|', Seq::empty());
    assert(Seq::<char>::empty() + parts[0] =~= parts[0]);
    assert(seq![parts[0]] + parts.drop_first() =~= parts);
}

/// A list field decodes to its items, unless it is the one-item list
/// holding the empty text (which encodes like the empty list).
pub proof fn lemma_decode_encode_list(items: Seq<Seq<char>>)
    requires
        items != seq![Seq::<char>::empty()],
    ensures
        decode_list_text(encode_list_text(items)) == items,
{
    let parts = items.map_values(|t: Seq<char>| escape_text(t));
    let enc = encode_list_text(items);
    if items.len() == 0 {
        assert(items =~= Seq::<Seq<char>>::empty());
    } else {
        if items.len() == 1 {
            if items[0].len() == 0 {
                assert(items[0] =~= Seq::<char>::empty());
                assert(items =~= seq![Seq::<char>::empty()]);
            }
            lemma_escape_len(items[0]);
            assert(parts.len() == 1);
            assert(join_text(parts, ',') == parts[0]);
            assert(parts[0] == escape_text(items[0]));
            assert(enc.len() > 0);
        } else {
            assert(parts.len() == items.len());
            assert(join_text(parts, ',') == parts[0] + seq![','] + join_text(parts.drop_first(), ','));
            assert(enc.len() > 0);
        }
        assert forall|i: int| 0 <= i < parts.len() implies clean_for(#[trigger] parts[i], ',') by {
            lemma_escape_clean(items[i], ',');
        }
        lemma_split_join(parts, ',', Seq::empty());
        assert(Seq::<char>::empty() + parts[0] =~= parts[0]);
        assert(seq![parts[0]] + parts.drop_first() =~= parts);
        let decoded = split_on(enc, ',', Seq::empty()).map_values(|t: Seq<char>| unescape_text(t));
        assert forall|i: int| 0 <= i < items.len() implies #[trigger] decoded[i] == items[i] by {
            lemma_unescape_escape(items[i]);
        }
        assert(decoded =~= items);
    }
}

pub proof fn lemma_join_push(parts: Seq<Seq<char>>, x: Seq<char>, sep: char)
    requires
        parts.len() >= 1,
    ensures
        join_text(parts.push(x), sep) == join_text(parts, sep) + seq![sep] + x,
    decreases parts.len(),
{
    let p = parts.push(x);
    if parts.len() == 1 {
        assert(p.drop_first() =~= seq![x]);
        assert(join_text(seq![x], sep) == x);
        assert(p[0] == parts[0]);
        assert(join_text(p, sep) == p[0] + seq![sep] + join_text(p.drop_first(), sep));
    } else {
        assert(p.drop_first() =~= parts.drop_first().push(x));
        lemma_join_push(parts.drop_first(), x, sep);
        assert(join_text(p, sep) =~= join_text(parts, sep) + seq![sep] + x);
    }
}

/// Splitting always yields at least one piece.
pub proof fn lemma_split_nonempty(s: Seq<char>, sep: char, cur: Seq<char>)
    ensures
        split_on(s, sep, cur).len() >= 1,
    decreases s.len(),
{
    if s.len() == 0 {
    } else if s[0] == '\\' {
        if s.len() > 1 {
            lemma_split_nonempty(s.skip(2), sep, cur.push('\\').push(s[1]));
        }
    } else if s[0] == sep {
        lemma_split_nonempty(s.skip(1), sep, Seq::empty());
    } else {
        lemma_split_nonempty(s.skip(1), sep, cur.push(s[0]));
    }
}

/// Trimming leaves text alone that does not end with a newline.
pub proof fn lemma_trim_noop(s: Seq<char>)
    requires
        !(s.len() > 0 && s.last() == '\n'),
    ensures
        trim_newlines(s) == s,
{
}

// ---- executable code ----------------------------------------------------
/// `s` escaped (`\` → `\\`, `|` → `\|`, `,` → `\,`).
pub fn escape(s: &str) -> (r: String)
    ensures
        r@ == escape_text(s@),
{
    let cs = chars_of(s);
    let mut out: Vec<char> = Vec::new();
    let mut i: usize = 0;
    while i < cs.len()
        invariant
            cs@ == s@,
            i <= cs@.len(),
            out@ == escape_text(cs@.take(i as int)),
        decreases cs.len() - i,
    {
        let c = cs[i];
        if c == '\\' || c == '|' || c == ',' {
            out.push('\\');
        }
        out.push(c);
        proof {
            assert(cs@.take(i + 1) =~= cs@.take(i as int) + seq![c]);
            lemma_escape_append(cs@.take(i as int), seq![c]);
            lemma_escape_single(c);
            if is_special(c) {
                assert(out@ =~= escape_text(cs@.take(i as int)) + seq!['\\', c]);
            } else {
                assert(out@ =~= escape_text(cs@.take(i as int)) + seq![c]);
            }
        }
        i = i + 1;
    }
    assert(cs@.take(cs@.len() as int) =~= cs@);
    string_of_chars(out.as_slice())
}

/// The unescaped text of the raw characters `s`.
pub fn unescape_chars(s: &[char]) -> (r: String)
    ensures
        r@ == unescape_text(s@),
{
    let mut out: Vec<char> = Vec::new();
    let mut i: usize = 0;
    assert(s@.skip(0) =~= s@);
    while i < s.len()
        invariant
            i <= s@.len(),
            unescape_text(s@) == out@ + unescape_text(s@.skip(i as int)),
        decreases s.len() - i,
    {
        let c = s[i];
        let ghost rest = s@.skip(i as int);
        if c == '\\' {
            if i + 1 < s.len() {
                let d = s[i + 1];
                if d == '\\' || d == '|' || d == ',' {
                    out.push(d);
                } else {
                    out.push('\\');
                    out.push(d);
                }
                proof {
                    assert(rest.skip(2) =~= s@.skip(i + 2));
                    assert(rest[1] == d);
                    if is_special(d) {
                        assert(unescape_text(rest) == seq![d] + unescape_text(rest.skip(2)));
                    } else {
                        assert(unescape_text(rest) == seq!['\\', d] + unescape_text(rest.skip(2)));
                    }
                }
                i = i + 2;
            } else {
                out.push('\\');
                proof {
                    assert(rest.len() == 1);
                    assert(s@.skip(i + 1) =~= Seq::<char>::empty());
                }
                i = i + 1;
            }
        } else {
            out.push(c);
            proof {
                assert(rest.skip(1) =~= s@.skip(i + 1));
            }
            i = i + 1;
        }
    }
    assert(s@.skip(i as int) =~= Seq::<char>::empty());
    assert(out@ + Seq::<char>::empty() =~= out@);
    string_of_chars(out.as_slice())
}

/// The raw pieces of `s` split on unescaped `sep` (at least one piece).
pub fn split_chars(s: &[char], sep: char) -> (pieces: Vec<Vec<char>>)
    requires
        sep != '\\',
    ensures
        pieces@.map_values(|p: Vec<char>| p@) == split_on(s@, sep, Seq::empty()),
{
    let mut pieces: Vec<Vec<char>> = Vec::new();
    let mut cur: Vec<char> = Vec::new();
    let mut i: usize = 0;
    assert(s@.skip(0) =~= s@);
    while i < s.len()
        invariant
            i <= s@.len(),
            split_on(s@, sep, Seq::empty()) == pieces@.map_values(|p: Vec<char>| p@) + split_on(
                s@.skip(i as int),
                sep,
                cur@,
            ),
        decreases s.len() - i,
    {
        let c = s[i];
        let ghost rest = s@.skip(i as int);
        let ghost before = pieces@.map_values(|p: Vec<char>| p@);
        if c == '\\' {
            if i + 1 < s.len() {
                let d = s[i + 1];
                proof {
                    assert(rest.skip(2) =~= s@.skip(i + 2));
                    assert(rest[1] == d);
                }
                cur.push('\\');
                cur.push(d);
                i = i + 2;
            } else {
                cur.push('\\');
                proof {
                    assert(s@.skip(i + 1) =~= Seq::<char>::empty());
                }
                i = i + 1;
            }
        } else if c == sep {
            let done = cur;
            cur = Vec::new();
            pieces.push(done);
            proof {
                assert(rest.skip(1) =~= s@.skip(i + 1));
                assert(pieces@.map_values(|p: Vec<char>| p@) =~= before.push(done@));
                assert(before + (seq![done@] + split_on(s@.skip(i + 1), sep, Seq::empty()))
                    =~= before.push(done@) + split_on(s@.skip(i + 1), sep, Seq::empty()));
                assert(cur@ =~= Seq::<char>::empty());
            }
            i = i + 1;
        } else {
            cur.push(c);
            proof {
                assert(rest.skip(1) =~= s@.skip(i + 1));
            }
            i = i + 1;
        }
    }
    let ghost before = pieces@.map_values(|p: Vec<char>| p@);
    proof {
        assert(s@.skip(i as int) =~= Seq::<char>::empty());
    }
    pieces.push(cur);
    assert(pieces@.map_values(|p: Vec<char>| p@) =~= before + split_on(
        s@.skip(i as int),
        sep,
        cur@,
    ));
    pieces
}

/// The raw `|`-separated fields of a line.
pub fn split_fields(line: &[char]) -> (fields: Vec<Vec<char>>)
    ensures
        fields@.map_values(|p: Vec<char>| p@) == split_fields_text(line@),
        fields@.len() >= 1,
{
    let fields = split_chars(line, '|');
    proof {
        lemma_split_nonempty(line@, '|', Seq::empty());
    }
    assert(fields@.map_values(|p: Vec<char>| p@).len() >= 1);
    fields
}

/// The items of a `,`-separated list field, each unescaped.
pub fn decode_list(s: &[char]) -> (items: Vec<String>)
    ensures
        items@.map_values(|t: String| t@) == decode_list_text(s@),
{
    if s.len() == 0 {
        let items: Vec<String> = Vec::new();
        assert(items@.map_values(|t: String| t@) =~= Seq::<Seq<char>>::empty());
        return items;
    }
    let pieces = split_chars(s, ',');
    let ghost raw = pieces@.map_values(|p: Vec<char>| p@);
    let mut items: Vec<String> = Vec::new();
    let mut i: usize = 0;
    while i < pieces.len()
        invariant
            raw == pieces@.map_values(|p: Vec<char>| p@),
            i <= pieces@.len(),
            items@.map_values(|t: String| t@) == raw.subrange(0, i as int).map_values(
                |t: Seq<char>| unescape_text(t),
            ),
        decreases pieces.len() - i,
    {
        let item = unescape_chars(pieces[i].as_slice());
        let ghost prev = items@;
        items.push(item);
        assert(items@.map_values(|t: String| t@) =~= raw.subrange(0, i + 1).map_values(
            |t: Seq<char>| unescape_text(t),
        )) by {
            assert(items@ =~= prev.push(item));
            assert(raw[i as int] == pieces@[i as int]@);
            assert(items@.map_values(|t: String| t@) =~= prev.map_values(|t: String| t@).push(item@));
            assert(raw.subrange(0, i + 1).map_values(|t: Seq<char>| unescape_text(t))
                =~= raw.subrange(0, i as int).map_values(|t: Seq<char>| unescape_text(t)).push(
                unescape_text(raw[i as int]),
            ));
        }
        i = i + 1;
    }
    assert(raw.subrange(0, pieces@.len() as int) =~= raw);
    items
}

/// A list field: the items escaped and joined with `,`.
pub fn encode_list(items: &Vec<String>) -> (r: String)
    ensures
        r@ == encode_list_text(items@.map_values(|t: String| t@)),
{
    let ghost texts = items@.map_values(|t: String| t@);
    let mut out = String::new();
    let mut i: usize = 0;
    while i < items.len()
        invariant
            texts == items@.map_values(|t: String| t@),
            i <= items@.len(),
            out@ == encode_list_text(texts.take(i as int)),
        decreases items.len() - i,
    {
        let e = escape(items[i].as_str());
        let ghost prev = out@;
        proof {
            let before = texts.take(i as int).map_values(|t: Seq<char>| escape_text(t));
            let after = texts.take(i + 1).map_values(|t: Seq<char>| escape_text(t));
            assert(after =~= before.push(escape_text(texts[i as int])));
            if i > 0 {
                lemma_join_push(before, escape_text(texts[i as int]), ',');
            } else {
                assert(texts.take(1)[0] == texts[0]);
                assert(after =~= seq![escape_text(texts[0])]);
                assert(join_text(after, ',') == escape_text(texts[0]));
                assert(before =~= Seq::<Seq<char>>::empty());
            }
        }
        if i > 0 {
            crate::text::push_char(&mut out, ',');
        }
        crate::text::push_text(&mut out, e.as_str());
        proof {
            if i > 0 {
                assert(out@ =~= prev + seq![','] + e@);
                assert(texts.take(i + 1)[i as int] == texts[i as int]);
            } else {
                assert(prev =~= Seq::<char>::empty());
                assert(out@ =~= e@);
            }
        }
        i = i + 1;
    }
    assert(texts.take(items@.len() as int) =~= texts);
    out
}

/// The fields joined with `|` (each field already in wire form).
pub fn join_fields(fields: &Vec<String>) -> (r: String)
    ensures
        r@ == join_text(fields@.map_values(|t: String| t@), '|'),
{
    let ghost texts = fields@.map_values(|t: String| t@);
    let mut out = String::new();
    let mut i: usize = 0;
    while i < fields.len()
        invariant
            texts == fields@.map_values(|t: String| t@),
            i <= fields@.len(),
            out@ == join_text(texts.take(i as int), '|'),
        decreases fields.len() - i,
    {
        let ghost prev = out@;
        proof {
            let before = texts.take(i as int);
            assert(texts.take(i + 1) =~= before.push(texts[i as int]));
            if i > 0 {
                lemma_join_push(before, texts[i as int], '|');
            } else {
                assert(texts.take(1) =~= seq![texts[0]]);
                assert(join_text(seq![texts[0]], '|') == texts[0]);
                assert(before =~= Seq::<Seq<char>>::empty());
            }
        }
        if i > 0 {
            crate::text::push_char(&mut out, '|');
        }
        crate::text::push_text(&mut out, fields[i].as_str());
        proof {
            if i > 0 {
                assert(out@ =~= prev + seq!['|'] + texts[i as int]);
            } else {
                assert(prev =~= Seq::<char>::empty());
                assert(out@ =~= texts[0]);
            }
        }
        i = i + 1;
    }
    assert(texts.take(fields@.len() as int) =~= texts);
    out
}

/// Whether the raw field `field` is exactly the text `tag`.
pub fn field_is(field: &Vec<char>, tag: &str) -> (r: bool)
    ensures
        r == (field@ == tag@),
{
    let t = chars_of(tag);
    crate::text::chars_equal(field.as_slice(), t.as_slice())
}

/// The fields of a line made from clean fields, after trimming, when the
/// line does not end with a newline.
pub proof fn lemma_fields_of_line(parts: Seq<Seq<char>>)
    requires
        parts.len() >= 1,
        forall|i: int| 0 <= i < parts.len() ==> clean_for(#[trigger] parts[i], '|'),
        !(join_text(parts, '|').len() > 0 && join_text(parts, '|').last() == '\n'),
    ensures
        split_fields_text(trim_newlines(join_text(parts, '|'))) == parts,
{
    lemma_trim_noop(join_text(parts, '|'));
    lemma_split_fields_join(parts);
}

/// The characters of `line` without its trailing newlines.
pub fn trim_trailing_newlines(line: &str) -> (r: Vec<char>)
    ensures
        r@ == trim_newlines(line@),
{
    let mut cs = chars_of(line);
    assert(cs@.take(cs@.len() as int) =~= cs@);
    let ghost all = cs@;
    while cs.len() > 0 && cs[cs.len() - 1] == '\n'
        invariant
            trim_newlines(line@) == trim_newlines(cs@),
        decreases cs.len(),
    {
        let ghost before = cs@;
        cs.pop();
        assert(cs@ =~= before.drop_last());
    }
    cs
}

} // verus!
