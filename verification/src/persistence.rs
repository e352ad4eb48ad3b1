//! A node's state as text, so that it survives a restart: one
//! `NODE_ID|<id>` line, then a `LEDGER|<bearer>` line for each held bearer
//! and a `SPENT|<bearer>` line for each spent bearer, each list in
//! increasing order, every line ending in a newline. Reading the text
//! splits it into lines as `BufRead::lines` does, skips empty lines, takes
//! the last `NODE_ID` line's value as the id, and refuses any other tag.
//! Writing and reading the file itself is the caller's business.
use vstd::prelude::*;

use crate::names::{lemma_is_sorted_listing, names_of, sorted_listing, NameSet};
use crate::node::{Node, NodeView};
use crate::render::{debug_str, debug_text};
use crate::text::{
    chars_of, file_lines, lemma_bar_pos, line_tag, line_value, lines_from, push_text,
    split_tag, str_equal, string_of_chars, strip_cr, text_string,
};

verus! {

/// Saving or restoring a node's state failed; the text says why.
#[derive(Debug)]
pub struct PersistenceError(pub String);

impl PersistenceError {
    /// The human-readable description of the failure.
    pub fn message(&self) -> (s: String)
        ensures
            s@ == self.0@,
    {
        self.0.clone()
    }
}

/// One of the three tags of a state file.
pub open spec fn known_tag(t: Seq<char>) -> bool {
    t == "NODE_ID"@ || t == "LEDGER"@ || t == "SPENT"@
}

/// A non-empty line with an unknown tag.
pub open spec fn bad_line(l: Seq<char>) -> bool {
    l.len() > 0 && !known_tag(line_tag(l))
}

/// The value of the last `NODE_ID` line, if any.
pub open spec fn last_node_id(ls: Seq<Seq<char>>) -> Option<Seq<char>>
    decreases ls.len(),
{
    if ls.len() == 0 {
        None
    } else if line_tag(ls.last()) == "NODE_ID"@ {
        Some(line_value(ls.last()))
    } else {
        last_node_id(ls.drop_last())
    }
}

/// The values of the lines tagged `tag`.
pub open spec fn tagged(ls: Seq<Seq<char>>, tag: Seq<char>) -> Set<Seq<char>> {
    Set::new(|v: Seq<char>| exists|i: int| 0 <= i < ls.len() && line_tag(#[trigger] ls[i]) == tag && line_value(ls[i]) == v)
}

/// The position of the first bad line.
pub open spec fn first_bad(ls: Seq<Seq<char>>) -> int {
    choose|i: int| 0 <= i < ls.len() && bad_line(ls[i]) && forall|j: int| 0 <= j < i ==> !bad_line(#[trigger] ls[j])
}

/// The error text for a line with an unknown tag.
pub open spec fn unrecognized_tag_text(tag: Seq<char>, path_shown: Seq<char>) -> Seq<char> {
    "unrecognized line tag "@ + debug_text(tag) + " in "@ + path_shown
}

/// The error text for a state without a `NODE_ID` line.
pub open spec fn missing_id_text(path_shown: Seq<char>) -> Seq<char> {
    "state file "@ + path_shown + " missing NODE_ID line"@
}

/// What reading the state text `content` gives: the node it describes, or
/// the error text. `path_shown` is how the file's path appears in errors.
pub open spec fn parsed_state(content: Seq<char>, path_shown: Seq<char>) -> Result<NodeView, Seq<char>> {
    let ls = file_lines(content);
    if exists|i: int| 0 <= i < ls.len() && #[trigger] bad_line(ls[i]) {
        Err(unrecognized_tag_text(line_tag(ls[first_bad(ls)]), path_shown))
    } else {
        match last_node_id(ls) {
            None => Err(missing_id_text(path_shown)),
            Some(id) => Ok(NodeView { id, ledger: tagged(ls, "LEDGER"@), spent: tagged(ls, "SPENT"@) }),
        }
    }
}

/// An optional text as a plain value.
pub open spec fn opt_text(o: Option<String>) -> Option<Seq<char>> {
    match o {
        Some(s) => Some(s@),
        None => None,
    }
}

/// The three tags are distinct, non-empty and free of `|`.
proof fn lemma_state_tags()
    ensures
        "NODE_ID"@ != "LEDGER"@,
        "NODE_ID"@ != "SPENT"@,
        "LEDGER"@ != "SPENT"@,
        "NODE_ID"@.len() > 0,
        "LEDGER"@.len() > 0,
        "SPENT"@.len() > 0,
        forall|j: int| 0 <= j < "NODE_ID"@.len() ==> "NODE_ID"@[j] != '|',
        forall|j: int| 0 <= j < "LEDGER"@.len() ==> "LEDGER"@[j] != '|',
        forall|j: int| 0 <= j < "SPENT"@.len() ==> "SPENT"@[j] != '|',
{
    reveal_strlit("NODE_ID");
    reveal_strlit("LEDGER");
    reveal_strlit("SPENT");
    assert("NODE_ID"@[0] != "LEDGER"@[0]);
    assert("NODE_ID"@[0] != "SPENT"@[0]);
    assert("LEDGER"@[0] != "SPENT"@[0]);
}

/// Takes in one line of a state text. Returns the line's tag when it is
/// unknown (changing nothing); otherwise records the line's value.
fn take_line(line: &Vec<char>, id: &mut Option<String>, ledger: &mut NameSet, spent: &mut NameSet) -> (r: Option<String>)
    ensures
        r is Some <==> bad_line(line@),
        r is Some ==> r->Some_0@ == line_tag(line@),
        r is None ==> {
            &&& opt_text(*final(id)) == (if line_tag(line@) == "NODE_ID"@ {
                Some(line_value(line@))
            } else {
                opt_text(*old(id))
            })
            &&& final(ledger)@ == (if line_tag(line@) == "LEDGER"@ {
                old(ledger)@.insert(line_value(line@))
            } else {
                old(ledger)@
            })
            &&& final(spent)@ == (if line_tag(line@) == "SPENT"@ {
                old(spent)@.insert(line_value(line@))
            } else {
                old(spent)@
            })
        },
{
    proof {
        lemma_state_tags();
    }
    if line.len() == 0 {
        assert(line_tag(line@) =~= Seq::<char>::empty());
        return None;
    }
    let (tag, value) = split_tag(line);
    let tag_s = string_of_chars(tag.as_slice());
    let value_s = string_of_chars(value.as_slice());
    if str_equal(tag_s.as_str(), "NODE_ID") {
        *id = Some(value_s);
        assert(opt_text(*id) == Some(line_value(line@)));
        None
    } else if str_equal(tag_s.as_str(), "LEDGER") {
        ledger.insert(value_s);
        None
    } else if str_equal(tag_s.as_str(), "SPENT") {
        spent.insert(value_s);
        None
    } else {
        Some(tag_s)
    }
}

/// One more line: its effect on the last id and on the tagged values.
proof fn lemma_lines_push(ls: Seq<Seq<char>>, l: Seq<char>)
    ensures
        last_node_id(ls.push(l)) == (if line_tag(l) == "NODE_ID"@ {
            Some(line_value(l))
        } else {
            last_node_id(ls)
        }),
        forall|t: Seq<char>| #[trigger] tagged(ls.push(l), t) == (if line_tag(l) == t {
            tagged(ls, t).insert(line_value(l))
        } else {
            tagged(ls, t)
        }),
{
    let p = ls.push(l);
    assert(p.drop_last() =~= ls);
    assert(p.last() == l);
    assert forall|t: Seq<char>| #[trigger] tagged(p, t) == (if line_tag(l) == t {
        tagged(ls, t).insert(line_value(l))
    } else {
        tagged(ls, t)
    }) by {
        let rhs = if line_tag(l) == t {
            tagged(ls, t).insert(line_value(l))
        } else {
            tagged(ls, t)
        };
        assert forall|v: Seq<char>| tagged(p, t).contains(v) <==> rhs.contains(v) by {
            if tagged(p, t).contains(v) {
                let i = choose|i: int| 0 <= i < p.len() && line_tag(#[trigger] p[i]) == t && line_value(p[i]) == v;
                if i < ls.len() {
                    assert(p[i] == ls[i]);
                }
            }
            if tagged(ls, t).contains(v) {
                let i = choose|i: int| 0 <= i < ls.len() && line_tag(#[trigger] ls[i]) == t && line_value(ls[i]) == v;
                assert(p[i] == ls[i]);
            }
            if line_tag(l) == t && v == line_value(l) {
                assert(p[ls.len() as int] == l);
            }
        }
        assert(tagged(p, t) =~= rhs);
    }
}

/// The first bad line of `ls` is at `k`.
proof fn lemma_first_bad(ls: Seq<Seq<char>>, k: int)
    requires
        0 <= k < ls.len(),
        bad_line(ls[k]),
        forall|j: int| 0 <= j < k ==> !bad_line(#[trigger] ls[j]),
    ensures
        first_bad(ls) == k,
{
    let f = first_bad(ls);
    assert(0 <= f < ls.len() && bad_line(ls[f]) && forall|j: int| 0 <= j < f ==> !bad_line(#[trigger] ls[j]));
    if f < k {
        assert(!bad_line(ls[f]));
    }
    if k < f {
        assert(!bad_line(ls[k]));
    }
}

/// The error for a line with the unknown tag `tag`.
fn unrecognized_tag_error(tag: &str, path_shown: &str) -> (e: PersistenceError)
    ensures
        e.0@ == unrecognized_tag_text(tag@, path_shown@),
{
    let mut text = text_string("unrecognized line tag ");
    let shown = debug_str(tag);
    push_text(&mut text, shown.as_str());
    push_text(&mut text, " in ");
    push_text(&mut text, path_shown);
    PersistenceError(text)
}

/// Reads a node's state from its text. `path_shown` is how the file's
/// path appears in error texts.
pub fn parse_node_state(content: &str, path_shown: &str) -> (r: Result<Node, PersistenceError>)
    ensures
        match parsed_state(content@, path_shown@) {
            Ok(v) => r is Ok && r->Ok_0@ == v,
            Err(t) => r is Err && r->Err_0.0@ == t,
        },
{
    let cs = chars_of(content);
    let mut id: Option<String> = None;
    let mut ledger = NameSet::new();
    let mut spent = NameSet::new();
    let mut cur: Vec<char> = Vec::new();
    let ghost mut done: Seq<Seq<char>> = Seq::empty();
    let mut i: usize = 0;
    assert(cs@.skip(0) =~= cs@);
    assert(ledger@ =~= tagged(done, "LEDGER"@));
    assert(spent@ =~= tagged(done, "SPENT"@));
    while i < cs.len()
        invariant
            cs@ == content@,
            i <= cs@.len(),
            file_lines(content@) == done + lines_from(cs@.skip(i as int), cur@),
            forall|j: int| 0 <= j < done.len() ==> !bad_line(#[trigger] done[j]),
            opt_text(id) == last_node_id(done),
            ledger@ == tagged(done, "LEDGER"@),
            spent@ == tagged(done, "SPENT"@),
        decreases cs.len() - i,
    {
        let c = cs[i];
        let ghost rest = cs@.skip(i as int);
        proof {
            assert(rest[0] == c);
            assert(rest.skip(1) =~= cs@.skip(i + 1));
        }
        if c == '\n' {
            let mut line = cur;
            if line.len() > 0 && line[line.len() - 1] == '\r' {
                line.pop();
            }
            proof {
                assert(line@ =~= strip_cr(cur@));
            }
            let ghost after = lines_from(cs@.skip(i + 1), Seq::empty());
            let bad = take_line(&line, &mut id, &mut ledger, &mut spent);
            proof {
                assert(file_lines(content@) =~= done.push(line@) + after);
            }
            match bad {
                Some(tag) => {
                    proof {
                        let ls = file_lines(content@);
                        assert(ls[done.len() as int] == line@);
                        assert forall|j: int| 0 <= j < done.len() implies !bad_line(#[trigger] ls[j]) by {
                            assert(ls[j] == done[j]);
                        }
                        lemma_first_bad(ls, done.len() as int);
                    }
                    return Err(unrecognized_tag_error(tag.as_str(), path_shown));
                },
                None => {},
            }
            proof {
                lemma_lines_push(done, line@);
                done = done.push(line@);
            }
            cur = Vec::new();
        } else {
            cur.push(c);
        }
        i = i + 1;
    }
    proof {
        assert(cs@.skip(i as int) =~= Seq::<char>::empty());
    }
    if cur.len() > 0 {
        let bad = take_line(&cur, &mut id, &mut ledger, &mut spent);
        proof {
            assert(file_lines(content@) =~= done.push(cur@));
        }
        match bad {
            Some(tag) => {
                proof {
                    let ls = file_lines(content@);
                    assert(ls[done.len() as int] == cur@);
                    lemma_first_bad(ls, done.len() as int);
                }
                return Err(unrecognized_tag_error(tag.as_str(), path_shown));
            },
            None => {},
        }
        proof {
            lemma_lines_push(done, cur@);
            done = done.push(cur@);
        }
    } else {
        assert(file_lines(content@) =~= done);
    }
    match id {
        Some(node_id) => Ok(Node { node_id, ledger, spent }),
        None => {
            let mut text = text_string("state file ");
            push_text(&mut text, path_shown);
            push_text(&mut text, " missing NODE_ID line");
            Err(PersistenceError(text))
        },
    }
}

/// The text of some lines, each followed by a newline.
pub open spec fn joined_lines(ls: Seq<Seq<char>>) -> Seq<char>
    decreases ls.len(),
{
    if ls.len() == 0 {
        Seq::empty()
    } else {
        ls[0] + "\n"@ + joined_lines(ls.drop_first())
    }
}

/// The lines of a node's state: its id, then its held bearers, then its
/// spent bearers, in the given orders.
pub open spec fn state_line_seq(id: Seq<char>, ledger: Seq<Seq<char>>, spent: Seq<Seq<char>>) -> Seq<Seq<char>> {
    seq!["NODE_ID|"@ + id] + ledger.map_values(|b: Seq<char>| "LEDGER|"@ + b) + spent.map_values(
        |b: Seq<char>| "SPENT|"@ + b,
    )
}

/// The state text of a node with the given id and bearer lists.
pub open spec fn state_text(id: Seq<char>, ledger: Seq<Seq<char>>, spent: Seq<Seq<char>>) -> Seq<char> {
    joined_lines(state_line_seq(id, ledger, spent))
}

proof fn lemma_joined_push(ls: Seq<Seq<char>>, x: Seq<char>)
    ensures
        joined_lines(ls.push(x)) == joined_lines(ls) + x + "\n"@,
    decreases ls.len(),
{
    let p = ls.push(x);
    if ls.len() == 0 {
        assert(p.drop_first() =~= Seq::<Seq<char>>::empty());
        assert(joined_lines(Seq::<Seq<char>>::empty()) =~= Seq::<char>::empty());
        assert(p[0] == x);
        assert(joined_lines(p) =~= x + "\n"@);
    } else {
        assert(p.drop_first() =~= ls.drop_first().push(x));
        lemma_joined_push(ls.drop_first(), x);
        assert(joined_lines(p) =~= joined_lines(ls) + x + "\n"@);
    }
}

/// The state text of `node`: its id, then its held bearers and its spent
/// bearers, each in increasing order.
pub fn render_node_state(node: &Node) -> (s: String)
    ensures
        s@ == state_text(node@.id, sorted_listing(node@.ledger), sorted_listing(node@.spent)),
{
    let ledger = node.ledger.to_vec();
    let spent = node.spent.to_vec();
    proof {
        lemma_is_sorted_listing(names_of(ledger@), node@.ledger);
        lemma_is_sorted_listing(names_of(spent@), node@.spent);
    }
    let mut s = text_string("NODE_ID|");
    push_text(&mut s, node.node_id.as_str());
    push_text(&mut s, "\n");
    let ghost first = seq!["NODE_ID|"@ + node@.id];
    proof {
        lemma_joined_push(Seq::empty(), "NODE_ID|"@ + node@.id);
        assert(Seq::<Seq<char>>::empty().push("NODE_ID|"@ + node@.id) =~= first);
        assert(s@ =~= joined_lines(first));
    }
    let ghost lv = names_of(ledger@);
    let ghost sv = names_of(spent@);
    let mut k: usize = 0;
    while k < ledger.len()
        invariant
            lv == names_of(ledger@),
            k <= ledger@.len(),
            s@ == joined_lines(first + lv.take(k as int).map_values(|b: Seq<char>| "LEDGER|"@ + b)),
        decreases ledger.len() - k,
    {
        let ghost before = first + lv.take(k as int).map_values(|b: Seq<char>| "LEDGER|"@ + b);
        push_text(&mut s, "LEDGER|");
        push_text(&mut s, ledger[k].as_str());
        push_text(&mut s, "\n");
        proof {
            lemma_joined_push(before, "LEDGER|"@ + lv[k as int]);
            assert(first + lv.take(k + 1).map_values(|b: Seq<char>| "LEDGER|"@ + b) =~= before.push(
                "LEDGER|"@ + lv[k as int],
            ));
            assert(s@ =~= joined_lines(before) + ("LEDGER|"@ + lv[k as int]) + "\n"@);
        }
        k = k + 1;
    }
    let ghost mid = first + lv.map_values(|b: Seq<char>| "LEDGER|"@ + b);
    assert(lv.take(ledger@.len() as int) =~= lv);
    let mut m: usize = 0;
    while m < spent.len()
        invariant
            sv == names_of(spent@),
            m <= spent@.len(),
            s@ == joined_lines(mid + sv.take(m as int).map_values(|b: Seq<char>| "SPENT|"@ + b)),
        decreases spent.len() - m,
    {
        let ghost before = mid + sv.take(m as int).map_values(|b: Seq<char>| "SPENT|"@ + b);
        push_text(&mut s, "SPENT|");
        push_text(&mut s, spent[m].as_str());
        push_text(&mut s, "\n");
        proof {
            lemma_joined_push(before, "SPENT|"@ + sv[m as int]);
            assert(mid + sv.take(m + 1).map_values(|b: Seq<char>| "SPENT|"@ + b) =~= before.push(
                "SPENT|"@ + sv[m as int],
            ));
            assert(s@ =~= joined_lines(before) + ("SPENT|"@ + sv[m as int]) + "\n"@);
        }
        m = m + 1;
    }
    assert(sv.take(spent@.len() as int) =~= sv);
    assert(mid + sv.map_values(|b: Seq<char>| "SPENT|"@ + b) =~= state_line_seq(node@.id, lv, sv));
    s
}

/// A text that fits on one line of a state file: no newline, and no
/// carriage return at its end.
pub open spec fn fits_on_line(t: Seq<char>) -> bool {
    &&& !t.contains('\n')
    &&& !(t.len() > 0 && t.last() == '\r')
}

proof fn lemma_lines_no_newline(x: Seq<char>, y: Seq<char>, cur: Seq<char>)
    requires
        !x.contains('\n'),
    ensures
        lines_from(x + y, cur) == lines_from(y, cur + x),
    decreases x.len(),
{
    if x.len() == 0 {
        assert(x + y =~= y);
        assert(cur + x =~= cur);
    } else {
        let xy = x + y;
        assert(xy[0] == x[0]);
        assert(x[0] != '\n') by {
            if x[0] == '\n' {
                assert(x.contains(x[0]));
            }
        }
        let t = x.skip(1);
        assert(!t.contains('\n')) by {
            if t.contains('\n') {
                let j = choose|j: int| 0 <= j < t.len() && t[j] == '\n';
                assert(x[j + 1] == '\n');
                assert(x.contains(x[j + 1]));
            }
        }
        assert(xy.skip(1) =~= t + y);
        lemma_lines_no_newline(t, y, cur.push(x[0]));
        assert(cur.push(x[0]) + t =~= cur + x);
    }
}

/// Lines that each fit on a line come back from their joined text.
proof fn lemma_joined_lines_read_back(ls: Seq<Seq<char>>)
    requires
        forall|i: int| 0 <= i < ls.len() ==> fits_on_line(#[trigger] ls[i]),
    ensures
        file_lines(joined_lines(ls)) == ls,
    decreases ls.len(),
{
    reveal_strlit("\n");
    if ls.len() == 0 {
        assert(file_lines(joined_lines(ls)) =~= ls);
    } else {
        let rest = ls.drop_first();
        assert forall|i: int| 0 <= i < rest.len() implies fits_on_line(#[trigger] rest[i]) by {
            assert(rest[i] == ls[i + 1]);
        }
        lemma_joined_lines_read_back(rest);
        let l = ls[0];
        assert(fits_on_line(l));
        let tail = "\n"@ + joined_lines(rest);
        assert(joined_lines(ls) =~= l + tail);
        lemma_lines_no_newline(l, tail, Seq::empty());
        assert(Seq::<char>::empty() + l =~= l);
        assert(tail[0] == '\n');
        assert(tail.skip(1) =~= joined_lines(rest));
        assert(strip_cr(l) == l);
        assert(file_lines(joined_lines(ls)) =~= seq![l] + rest);
        assert(seq![l] + rest =~= ls);
    }
}

/// A line made of a tag free of `|`, a `|` and a value has that tag and
/// that value.
proof fn lemma_tagged_line(t: Seq<char>, v: Seq<char>)
    requires
        forall|j: int| 0 <= j < t.len() ==> t[j] != '|',
    ensures
        line_tag(t.push('|') + v) == t,
        line_value(t.push('|') + v) == v,
{
    let l = t.push('|') + v;
    assert forall|j: int| 0 <= j < t.len() implies l[j] != '|' by {
        assert(l[j] == t[j]);
    }
    assert(l[t.len() as int] == '|');
    lemma_bar_pos(l, t.len() as int);
    assert(l.take(t.len() as int) =~= t);
    assert(l.skip(t.len() as int + 1) =~= v);
}

/// Only the first line carries the id tag.
proof fn lemma_last_node_id_first(ls: Seq<Seq<char>>)
    requires
        ls.len() > 0,
        line_tag(ls[0]) == "NODE_ID"@,
        forall|i: int| 1 <= i < ls.len() ==> line_tag(#[trigger] ls[i]) != "NODE_ID"@,
    ensures
        last_node_id(ls) == Some(line_value(ls[0])),
    decreases ls.len(),
{
    if ls.len() > 1 {
        let d = ls.drop_last();
        assert(ls.last() == ls[ls.len() - 1]);
        assert forall|i: int| 1 <= i < d.len() implies line_tag(#[trigger] d[i]) != "NODE_ID"@ by {
            assert(d[i] == ls[i]);
        }
        assert(d[0] == ls[0]);
        lemma_last_node_id_first(d);
    }
}

/// Saving a node's state and reading it back gives the same node, when
/// its id and bearers each fit on a line.
pub proof fn lemma_state_roundtrip(id: Seq<char>, ledger: Seq<Seq<char>>, spent: Seq<Seq<char>>, path_shown: Seq<char>)
    requires
        fits_on_line(id),
        forall|i: int| 0 <= i < ledger.len() ==> fits_on_line(#[trigger] ledger[i]),
        forall|i: int| 0 <= i < spent.len() ==> fits_on_line(#[trigger] spent[i]),
    ensures
        parsed_state(state_text(id, ledger, spent), path_shown) == Ok::<NodeView, Seq<char>>(
            NodeView { id, ledger: ledger.to_set(), spent: spent.to_set() },
        ),
{
    lemma_state_tags();
    reveal_strlit("NODE_ID|");
    reveal_strlit("LEDGER|");
    reveal_strlit("SPENT|");
    assert("NODE_ID|"@ =~= "NODE_ID"@.push('|')) by {
        reveal_strlit("NODE_ID");
    }
    assert("LEDGER|"@ =~= "LEDGER"@.push('|')) by {
        reveal_strlit("LEDGER");
    }
    assert("SPENT|"@ =~= "SPENT"@.push('|')) by {
        reveal_strlit("SPENT");
    }
    let ls = state_line_seq(id, ledger, spent);
    let nl = ledger.len() as int;
    let ns = spent.len() as int;
    assert(ls.len() == 1 + nl + ns);
    assert forall|i: int| 0 <= i < ls.len() implies {
        &&& fits_on_line(#[trigger] ls[i])
        &&& i == 0 ==> line_tag(ls[i]) == "NODE_ID"@ && line_value(ls[i]) == id
        &&& 1 <= i < 1 + nl ==> line_tag(ls[i]) == "LEDGER"@ && line_value(ls[i]) == ledger[i - 1]
        &&& 1 + nl <= i ==> line_tag(ls[i]) == "SPENT"@ && line_value(ls[i]) == spent[i - 1 - nl]
    } by {
        let (t, v) = if i == 0 {
            ("NODE_ID"@, id)
        } else if i < 1 + nl {
            ("LEDGER"@, ledger[i - 1])
        } else {
            ("SPENT"@, spent[i - 1 - nl])
        };
        assert(ls[i] =~= t.push('|') + v);
        lemma_tagged_line(t, v);
        let l = t.push('|') + v;
        assert(!l.contains('\n')) by {
            if l.contains('\n') {
                let j = choose|j: int| 0 <= j < l.len() && l[j] == '\n';
                if j < t.len() {
                    assert(l[j] == t[j]);
                } else if j > t.len() {
                    assert(l[j] == v[j - t.len() - 1]);
                    assert(v.contains(v[j - t.len() - 1]));
                }
            }
        }
        if v.len() > 0 {
            assert(l.last() == v.last());
        } else {
            assert(l.last() == '|');
        }
    }
    lemma_joined_lines_read_back(ls);
    assert(file_lines(state_text(id, ledger, spent)) == ls);
    assert(!exists|i: int| 0 <= i < ls.len() && #[trigger] bad_line(ls[i]));
    lemma_last_node_id_first(ls);
    assert(tagged(ls, "LEDGER"@) =~= ledger.to_set()) by {
        assert forall|v: Seq<char>| tagged(ls, "LEDGER"@).contains(v) implies ledger.to_set().contains(v) by {
            let i = choose|i: int| 0 <= i < ls.len() && line_tag(#[trigger] ls[i]) == "LEDGER"@ && line_value(ls[i]) == v;
            assert(ledger[i - 1] == v);
        }
        assert forall|v: Seq<char>| ledger.to_set().contains(v) implies tagged(ls, "LEDGER"@).contains(v) by {
            let k = choose|k: int| 0 <= k < ledger.len() && ledger[k] == v;
            assert(line_tag(ls[k + 1]) == "LEDGER"@ && line_value(ls[k + 1]) == v);
        }
    }
    assert(tagged(ls, "SPENT"@) =~= spent.to_set()) by {
        assert forall|v: Seq<char>| tagged(ls, "SPENT"@).contains(v) implies spent.to_set().contains(v) by {
            let i = choose|i: int| 0 <= i < ls.len() && line_tag(#[trigger] ls[i]) == "SPENT"@ && line_value(ls[i]) == v;
            assert(spent[i - 1 - nl] == v);
        }
        assert forall|v: Seq<char>| spent.to_set().contains(v) implies tagged(ls, "SPENT"@).contains(v) by {
            let k = choose|k: int| 0 <= k < spent.len() && spent[k] == v;
            assert(line_tag(ls[k + 1 + nl]) == "SPENT"@ && line_value(ls[k + 1 + nl]) == v);
        }
    }
}

} // verus!
