//! Human-readable renderings used in error texts and in the audit log:
//! the `Debug` quoting of a text, of a list of texts, and of a conflict
//! report.
use vstd::prelude::*;

use crate::audit::report_view;
use crate::names::names_of;
use crate::text::push_text;

verus! {

/// What `format!("{:?}", s)` produces for a text `s`: the text in double
/// quotes with `Debug` escapes (`\"`, `\\`, `\n`, `\u{..}`, ...).
pub uninterp spec fn debug_text(s: Seq<char>) -> Seq<char>;

/// The `Debug` rendering of a text.
///
/// Calls `<str as Debug>::fmt` through `format!`. Trusted: the result is
/// `debug_text` of the argument, a function of the text alone; what that
/// rendering is character by character is left to std and not stated.
#[verifier::external_body]
pub(crate) fn debug_str(s: &str) -> (r: String)
    ensures
        r@ == debug_text(s@),
{
    format!("{:?}", s)
}

/// The renderings of `items`, separated by `", "`.
pub open spec fn debug_items_text(items: Seq<Seq<char>>) -> Seq<char>
    decreases items.len(),
{
    if items.len() == 0 {
        Seq::empty()
    } else if items.len() == 1 {
        debug_text(items[0])
    } else {
        debug_text(items[0]) + ", "@ + debug_items_text(items.drop_first())
    }
}

/// What `format!("{:?}", v)` produces for a vector of texts: `[`, the
/// items' renderings separated by `", "`, then `]`.
pub open spec fn debug_list_text(items: Seq<Seq<char>>) -> Seq<char> {
    "["@ + debug_items_text(items) + "]"@
}

proof fn lemma_debug_items_push(items: Seq<Seq<char>>, x: Seq<char>)
    requires
        items.len() >= 1,
    ensures
        debug_items_text(items.push(x)) == debug_items_text(items) + ", "@ + debug_text(x),
    decreases items.len(),
{
    let p = items.push(x);
    if items.len() == 1 {
        assert(p.drop_first() =~= seq![x]);
        assert(debug_items_text(seq![x]) == debug_text(x));
        assert(p[0] == items[0]);
    } else {
        assert(p.drop_first() =~= items.drop_first().push(x));
        lemma_debug_items_push(items.drop_first(), x);
        assert(debug_items_text(p) =~= debug_items_text(items) + ", "@ + debug_text(x));
    }
}

/// The `Debug` rendering of a list of texts, as `format!("{:?}", v)`
/// gives it for a `Vec<String>` or `Vec<&String>`.
pub fn debug_list(items: &Vec<String>) -> (r: String)
    ensures
        r@ == debug_list_text(items@.map_values(|t: String| t@)),
{
    let ghost texts = items@.map_values(|t: String| t@);
    let mut body = String::new();
    let mut i: usize = 0;
    while i < items.len()
        invariant
            texts == items@.map_values(|t: String| t@),
            i <= items@.len(),
            body@ == debug_items_text(texts.take(i as int)),
        decreases items.len() - i,
    {
        let d = debug_str(items[i].as_str());
        let ghost prev = body@;
        proof {
            let before = texts.take(i as int);
            assert(texts.take(i + 1) =~= before.push(texts[i as int]));
            if i > 0 {
                lemma_debug_items_push(before, texts[i as int]);
            } else {
                assert(texts.take(1) =~= seq![texts[0]]);
                assert(debug_items_text(seq![texts[0]]) == debug_text(texts[0]));
                assert(before =~= Seq::<Seq<char>>::empty());
            }
        }
        if i > 0 {
            push_text(&mut body, ", ");
        }
        push_text(&mut body, d.as_str());
        proof {
            if i == 0 {
                assert(prev =~= Seq::<char>::empty());
                assert(body@ =~= d@);
            } else {
                assert(body@ =~= prev + ", "@ + d@);
            }
        }
        i = i + 1;
    }
    assert(texts.take(items@.len() as int) =~= texts);
    let mut r = String::new();
    push_text(&mut r, "[");
    push_text(&mut r, body.as_str());
    push_text(&mut r, "]");
    assert(r@ =~= "["@ + body@ + "]"@);
    r
}

/// What `format!("{:?}", e)` produces for one conflict line, a bearer with
/// the ids of its spenders: `(`, the bearer's rendering, `, `, the list's
/// rendering, `)`.
pub open spec fn debug_conflict_text(e: (Seq<char>, Seq<Seq<char>>)) -> Seq<char> {
    "("@ + debug_text(e.0) + ", "@ + debug_list_text(e.1) + ")"@
}

/// The renderings of the conflict lines of `r`, separated by `", "`.
pub open spec fn debug_conflicts_text(r: Seq<(Seq<char>, Seq<Seq<char>>)>) -> Seq<char>
    decreases r.len(),
{
    if r.len() == 0 {
        Seq::empty()
    } else if r.len() == 1 {
        debug_conflict_text(r[0])
    } else {
        debug_conflict_text(r[0]) + ", "@ + debug_conflicts_text(r.drop_first())
    }
}

/// What `format!("{:?}", r)` produces for a conflict report.
pub open spec fn debug_report_text(r: Seq<(Seq<char>, Seq<Seq<char>>)>) -> Seq<char> {
    "["@ + debug_conflicts_text(r) + "]"@
}

proof fn lemma_debug_conflicts_push(r: Seq<(Seq<char>, Seq<Seq<char>>)>, x: (Seq<char>, Seq<Seq<char>>))
    requires
        r.len() >= 1,
    ensures
        debug_conflicts_text(r.push(x)) == debug_conflicts_text(r) + ", "@ + debug_conflict_text(x),
    decreases r.len(),
{
    let p = r.push(x);
    if r.len() == 1 {
        assert(p.drop_first() =~= seq![x]);
        assert(debug_conflicts_text(seq![x]) == debug_conflict_text(x));
        assert(p[0] == r[0]);
    } else {
        assert(p.drop_first() =~= r.drop_first().push(x));
        lemma_debug_conflicts_push(r.drop_first(), x);
        assert(debug_conflicts_text(p) =~= debug_conflicts_text(r) + ", "@ + debug_conflict_text(x));
    }
}

/// The `Debug` rendering of a conflict report, as `format!("{:?}", r)`
/// gives it for a `Vec<(String, Vec<String>)>`.
pub fn debug_report(r: &Vec<(String, Vec<String>)>) -> (s: String)
    ensures
        s@ == debug_report_text(report_view(r@)),
{
    let ghost rv = report_view(r@);
    let mut body = String::new();
    let mut i: usize = 0;
    while i < r.len()
        invariant
            rv == report_view(r@),
            i <= r@.len(),
            body@ == debug_conflicts_text(rv.take(i as int)),
        decreases r.len() - i,
    {
        let mut line = String::new();
        push_text(&mut line, "(");
        let b = debug_str(r[i].0.as_str());
        push_text(&mut line, b.as_str());
        push_text(&mut line, ", ");
        let ids = debug_list(&r[i].1);
        push_text(&mut line, ids.as_str());
        push_text(&mut line, ")");
        proof {
            assert(rv[i as int] == (r@[i as int].0@, names_of(r@[i as int].1@)));
            assert(r@[i as int].1@.map_values(|t: String| t@) =~= names_of(r@[i as int].1@));
            assert(line@ =~= debug_conflict_text(rv[i as int]));
        }
        let ghost prev = body@;
        proof {
            let before = rv.take(i as int);
            assert(rv.take(i + 1) =~= before.push(rv[i as int]));
            if i > 0 {
                lemma_debug_conflicts_push(before, rv[i as int]);
            } else {
                assert(rv.take(1) =~= seq![rv[0]]);
                assert(debug_conflicts_text(seq![rv[0]]) == debug_conflict_text(rv[0]));
                assert(before =~= Seq::<(Seq<char>, Seq<Seq<char>>)>::empty());
            }
        }
        if i > 0 {
            push_text(&mut body, ", ");
        }
        push_text(&mut body, line.as_str());
        proof {
            if i == 0 {
                assert(prev =~= Seq::<char>::empty());
                assert(body@ =~= line@);
            } else {
                assert(body@ =~= prev + ", "@ + line@);
            }
        }
        i = i + 1;
    }
    assert(rv.take(r@.len() as int) =~= rv);
    let mut s = String::new();
    push_text(&mut s, "[");
    push_text(&mut s, body.as_str());
    push_text(&mut s, "]");
    assert(s@ =~= "["@ + body@ + "]"@);
    s
}

} // verus!
