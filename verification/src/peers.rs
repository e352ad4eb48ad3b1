//! The peer book of a networked node: the peer-listener address of every
//! other node, by id, read from a peers file with one `NODE_ID|HOST:PORT`
//! line per node.
use vstd::prelude::*;

use crate::names::names_of;
use crate::render::{debug_str, debug_text};
use crate::text::{
    chars_equal, chars_of, file_lines, line_tag, line_value, lines_from, push_text, split_tag,
    string_of_chars, strip_cr, text_string,
};

verus! {

/// The characters with Unicode's White_Space property (what
/// `char::is_whitespace` and `str::trim` go by).
pub open spec fn is_white(c: char) -> bool {
    ||| '\u{9}' <= c && c <= '\u{d}'
    ||| c == ' '
    ||| c == '\u{85}'
    ||| c == '\u{a0}'
    ||| c == '\u{1680}'
    ||| '\u{2000}' <= c && c <= '\u{200a}'
    ||| c == '\u{2028}'
    ||| c == '\u{2029}'
    ||| c == '\u{202f}'
    ||| c == '\u{205f}'
    ||| c == '\u{3000}'
}

/// A text without its leading white space.
pub open spec fn trim_start_text(s: Seq<char>) -> Seq<char>
    decreases s.len(),
{
    if s.len() > 0 && is_white(s[0]) {
        trim_start_text(s.skip(1))
    } else {
        s
    }
}

/// A text without its trailing white space.
pub open spec fn trim_end_text(s: Seq<char>) -> Seq<char>
    decreases s.len(),
{
    if s.len() > 0 && is_white(s.last()) {
        trim_end_text(s.drop_last())
    } else {
        s
    }
}

/// A text without its leading and trailing white space (`str::trim`).
pub open spec fn trim_text(s: Seq<char>) -> Seq<char> {
    trim_end_text(trim_start_text(s))
}

/// Whether `c` is white space.
fn is_white_char(c: char) -> (b: bool)
    ensures
        b == is_white(c),
{
    ('\u{9}' <= c && c <= '\u{d}') || c == ' ' || c == '\u{85}' || c == '\u{a0}' || c == '\u{1680}' || (
    '\u{2000}' <= c && c <= '\u{200a}') || c == '\u{2028}' || c == '\u{2029}' || c == '\u{202f}' || c
        == '\u{205f}' || c == '\u{3000}'
}

/// `s` without its leading and trailing white space.
fn trim_chars(s: &Vec<char>) -> (t: Vec<char>)
    ensures
        t@ == trim_text(s@),
{
    let mut a: usize = 0;
    assert(s@.skip(0) =~= s@);
    while a < s.len() && is_white_char(s[a])
        invariant
            a <= s@.len(),
            trim_start_text(s@) == trim_start_text(s@.skip(a as int)),
        decreases s.len() - a,
    {
        assert(s@.skip(a as int).skip(1) =~= s@.skip(a + 1));
        a = a + 1;
    }
    let ghost rest = s@.skip(a as int);
    assert(trim_start_text(s@) == rest) by {
        if rest.len() > 0 {
            assert(rest[0] == s@[a as int]);
        }
    }
    let mut b: usize = s.len();
    assert(rest.take(rest.len() as int) =~= rest);
    while b > a && is_white_char(s[b - 1])
        invariant
            a <= b <= s@.len(),
            rest == s@.skip(a as int),
            trim_end_text(rest) == trim_end_text(rest.take(b - a)),
        decreases b,
    {
        let ghost cur = rest.take(b - a);
        assert(cur.last() == s@[b - 1]);
        assert(cur.drop_last() =~= rest.take(b - 1 - a));
        b = b - 1;
    }
    let ghost kept = rest.take(b - a);
    assert(trim_end_text(kept) == kept) by {
        if kept.len() > 0 {
            assert(kept.last() == s@[b - 1]);
        }
    }
    let mut t: Vec<char> = Vec::new();
    let mut k: usize = a;
    while k < b
        invariant
            a <= k <= b,
            b <= s@.len(),
            t@ == s@.subrange(a as int, k as int),
        decreases b - k,
    {
        t.push(s[k]);
        assert(s@.subrange(a as int, k + 1) =~= s@.subrange(a as int, k as int).push(s@[k as int]));
        k = k + 1;
    }
    assert(kept =~= s@.subrange(a as int, b as int));
    t
}

/// The ids of some entries.
pub open spec fn ids_of(entries: Seq<(String, String)>) -> Seq<Seq<char>> {
    entries.map_values(|e: (String, String)| e.0@)
}

/// The peer-listener addresses of the other nodes, by id.
pub struct PeerBook {
    entries: Vec<(String, String)>,
}

impl PeerBook {
    /// The ids, in the order they were first added.
    pub closed spec fn ids(&self) -> Seq<Seq<char>> {
        ids_of(self.entries@)
    }

    #[verifier::type_invariant]
    closed spec fn well_formed(&self) -> bool {
        self.ids().no_duplicates()
    }

    /// The position of the entry for `id`.
    closed spec fn position_of(&self, id: Seq<char>) -> int {
        choose|k: int| 0 <= k < self.entries@.len() && self.entries@[k].0@ == id
    }
}

impl View for PeerBook {
    type V = Map<Seq<char>, Seq<char>>;

    closed spec fn view(&self) -> Map<Seq<char>, Seq<char>> {
        Map::new(|id: Seq<char>| self.ids().contains(id), |id: Seq<char>| self.entries@[self.position_of(id)].1@)
    }
}

impl PeerBook {
    /// An empty book.
    pub fn new() -> (b: PeerBook)
        ensures
            b@ == Map::<Seq<char>, Seq<char>>::empty(),
    {
        let b = PeerBook { entries: Vec::new() };
        assert(b@ =~= Map::<Seq<char>, Seq<char>>::empty());
        b
    }

    proof fn lemma_position(&self, k: int)
        requires
            self.well_formed(),
            0 <= k < self.entries@.len(),
        ensures
            self.position_of(self.entries@[k].0@) == k,
            self@.contains_key(self.entries@[k].0@),
            self@[self.entries@[k].0@] == self.entries@[k].1@,
    {
        let id = self.entries@[k].0@;
        assert(self.ids()[k] == id);
        let j = self.position_of(id);
        assert(self.ids()[j] == id);
    }

    /// Where entry `id` stands, if anywhere.
    fn find(&self, id: &str) -> (r: Option<usize>)
        ensures
            r is Some <==> self@.contains_key(id@),
            r matches Some(k) ==> k < self.entries@.len() && self.entries@[k as int].0@ == id@,
    {
        proof {
            use_type_invariant(self);
        }
        let target = chars_of(id);
        let mut k: usize = 0;
        while k < self.entries.len()
            invariant
                target@ == id@,
                k <= self.entries@.len(),
                forall|j: int| 0 <= j < k ==> self.ids()[j] != id@,
            decreases self.entries.len() - k,
        {
            let c = chars_of(self.entries[k].0.as_str());
            assert(self.ids()[k as int] == self.entries@[k as int].0@);
            if chars_equal(c.as_slice(), target.as_slice()) {
                return Some(k);
            }
            k = k + 1;
        }
        assert(!self.ids().contains(id@)) by {
            if self.ids().contains(id@) {
                let j = choose|j: int| 0 <= j < self.ids().len() && self.ids()[j] == id@;
                assert(self.ids()[j] != id@);
            }
        }
        None
    }

    /// The address of peer `id`, if the book has it.
    pub fn address(&self, id: &str) -> (r: Option<String>)
        ensures
            r is Some <==> self@.contains_key(id@),
            r matches Some(a) ==> a@ == self@[id@],
    {
        proof {
            use_type_invariant(self);
        }
        match self.find(id) {
            Some(k) => {
                proof {
                    self.lemma_position(k as int);
                }
                Some(self.entries[k].1.clone())
            },
            None => None,
        }
    }

    /// Records `addr` as the address of `id`, replacing any earlier one.
    pub fn set(&mut self, id: String, addr: String)
        ensures
            final(self)@ == old(self)@.insert(id@, addr@),
    {
        proof {
            use_type_invariant(&*self);
        }
        let ghost pre = *self;
        let pos = self.find(id.as_str());
        let mut entries: Vec<(String, String)> = Vec::new();
        std::mem::swap(&mut entries, &mut self.entries);
        match pos {
            Some(k) => {
                proof {
                    pre.lemma_position(k as int);
                }
                entries.set(k, (id, addr));
                assert(ids_of(entries@) =~= pre.ids());
                let post = PeerBook { entries };
                proof {
                    assert forall|x: Seq<char>| #[trigger] post@.contains_key(x) implies post@[x] == pre@.insert(
                        id@,
                        addr@,
                    )[x] by {
                        let j = pre.position_of(x);
                        pre.lemma_position(j);
                        post.lemma_position(j);
                    }
                    assert(post@ =~= pre@.insert(id@, addr@));
                }
                *self = post;
            },
            None => {
                let ghost id_view = id@;
                let ghost addr_view = addr@;
                entries.push((id, addr));
                proof {
                    let ids = ids_of(entries@);
                    assert(ids =~= pre.ids().push(id_view));
                    assert(!pre.ids().contains(id_view));
                    assert(ids.no_duplicates()) by {
                        assert forall|i: int, j: int| 0 <= i < j < ids.len() implies ids[i] != ids[j] by {
                            if j == pre.ids().len() {
                                assert(pre.ids().contains(pre.ids()[i]));
                            }
                        }
                    }
                }
                let post = PeerBook { entries };
                proof {
                    let n = pre.entries@.len() as int;
                    post.lemma_position(n);
                    assert(post.entries@[n].0@ == id_view && post.entries@[n].1@ == addr_view);
                    assert(post.ids() =~= pre.ids().push(id_view));
                    assert forall|x: Seq<char>| post.ids().contains(x) <==> (pre.ids().contains(x) || x == id_view) by {
                        if post.ids().contains(x) {
                            let j = choose|j: int| 0 <= j < post.ids().len() && post.ids()[j] == x;
                            if j < n {
                                assert(pre.ids()[j] == x);
                            }
                        }
                        if pre.ids().contains(x) {
                            let j = choose|j: int| 0 <= j < pre.ids().len() && pre.ids()[j] == x;
                            assert(post.ids()[j] == x);
                        }
                        if x == id_view {
                            assert(post.ids()[n] == x);
                        }
                    }
                    assert(post@.dom() =~= pre@.dom().insert(id_view));
                    assert forall|x: Seq<char>| #[trigger] post@.contains_key(x) implies post@[x] == pre@.insert(
                        id_view,
                        addr_view,
                    )[x] by {
                        if x != id_view {
                            let j = pre.position_of(x);
                            pre.lemma_position(j);
                            post.lemma_position(j);
                        }
                    }
                    assert(post@ =~= pre@.insert(id_view, addr_view));
                }
                *self = post;
            },
        }
    }

    /// Every (id, address) entry, each id once, in the order the ids were
    /// first added.
    pub fn entries(&self) -> (v: Vec<(String, String)>)
        ensures
            v@.map_values(|e: (String, String)| e.0@).no_duplicates(),
            v@.map_values(|e: (String, String)| e.0@).to_set() == self@.dom(),
            forall|k: int| 0 <= k < v@.len() ==> self@[(#[trigger] v@[k]).0@] == v@[k].1@,
    {
        proof {
            use_type_invariant(self);
        }
        let mut v: Vec<(String, String)> = Vec::new();
        let mut k: usize = 0;
        while k < self.entries.len()
            invariant
                self.well_formed(),
                k <= self.entries@.len(),
                v@.len() == k,
                forall|j: int| 0 <= j < k ==> (#[trigger] v@[j]).0@ == self.entries@[j].0@ && v@[j].1@ == self.entries@[j].1@,
            decreases self.entries.len() - k,
        {
            v.push((self.entries[k].0.clone(), self.entries[k].1.clone()));
            k = k + 1;
        }
        proof {
            assert(v@.map_values(|e: (String, String)| e.0@) =~= self.ids());
            assert(self@.dom() =~= self.ids().to_set());
            assert forall|j: int| 0 <= j < v@.len() implies self@[(#[trigger] v@[j]).0@] == v@[j].1@ by {
                self.lemma_position(j);
            }
        }
        v
    }
}

/// The id of a (trimmed) peers-file line: the trimmed text before its
/// first `|`.
pub open spec fn peer_line_id(t: Seq<char>) -> Seq<char> {
    trim_text(line_tag(t))
}

/// The address of a (trimmed) peers-file line: the trimmed text after its
/// first `|`.
pub open spec fn peer_line_addr(t: Seq<char>) -> Seq<char> {
    trim_text(line_value(t))
}

/// A non-empty (trimmed) line that lacks an id or an address.
pub open spec fn peer_line_malformed(t: Seq<char>) -> bool {
    t.len() > 0 && (peer_line_id(t).len() == 0 || peer_line_addr(t).len() == 0)
}

/// The book the lines `ls` of a peers file give, for the node `self_id`:
/// each well-formed line sets its id's address (a later line wins); blank
/// and malformed lines and the node's own line are skipped.
pub open spec fn peers_from_lines(ls: Seq<Seq<char>>, self_id: Seq<char>) -> Map<Seq<char>, Seq<char>>
    decreases ls.len(),
{
    if ls.len() == 0 {
        Map::empty()
    } else {
        let before = peers_from_lines(ls.drop_last(), self_id);
        let t = trim_text(ls.last());
        if t.len() == 0 || peer_line_malformed(t) || peer_line_id(t) == self_id {
            before
        } else {
            before.insert(peer_line_id(t), peer_line_addr(t))
        }
    }
}

/// The warning for a malformed peers-file line.
pub open spec fn malformed_peer_line_text(t: Seq<char>) -> Seq<char> {
    "skipping malformed peers file line: "@ + debug_text(t)
}

/// The warnings for the malformed lines among `ls`, in order.
pub open spec fn peer_file_warnings(ls: Seq<Seq<char>>) -> Seq<Seq<char>>
    decreases ls.len(),
{
    if ls.len() == 0 {
        Seq::empty()
    } else {
        let before = peer_file_warnings(ls.drop_last());
        let t = trim_text(ls.last());
        if peer_line_malformed(t) {
            before.push(malformed_peer_line_text(t))
        } else {
            before
        }
    }
}

/// Takes in one line of a peers file.
fn take_peer_line(line: &Vec<char>, self_id: &str, book: &mut PeerBook, warnings: &mut Vec<String>)
    ensures
        ({
            let t = trim_text(line@);
            &&& final(book)@ == (if t.len() == 0 || peer_line_malformed(t) || peer_line_id(t) == self_id@ {
                old(book)@
            } else {
                old(book)@.insert(peer_line_id(t), peer_line_addr(t))
            })
            &&& names_of(final(warnings)@) == (if peer_line_malformed(t) {
                names_of(old(warnings)@).push(malformed_peer_line_text(t))
            } else {
                names_of(old(warnings)@)
            })
        }),
{
    let t = trim_chars(line);
    if t.len() == 0 {
        return;
    }
    let (id_raw, addr_raw) = split_tag(&t);
    let id = trim_chars(&id_raw);
    let addr = trim_chars(&addr_raw);
    if id.len() == 0 || addr.len() == 0 {
        let shown_line = string_of_chars(t.as_slice());
        let mut text = text_string("skipping malformed peers file line: ");
        let shown = debug_str(shown_line.as_str());
        push_text(&mut text, shown.as_str());
        let ghost before = warnings@;
        warnings.push(text);
        assert(names_of(warnings@) =~= names_of(before).push(malformed_peer_line_text(t@)));
        return;
    }
    let self_chars = chars_of(self_id);
    if chars_equal(id.as_slice(), self_chars.as_slice()) {
        return;
    }
    book.set(string_of_chars(id.as_slice()), string_of_chars(addr.as_slice()));
}

/// Reads a peers file's text for the node `self_id`: the book of the other
/// nodes' addresses, and a warning for each malformed line.
pub fn parse_peers_text(content: &str, self_id: &str) -> (r: (PeerBook, Vec<String>))
    ensures
        r.0@ == peers_from_lines(file_lines(content@), self_id@),
        names_of(r.1@) == peer_file_warnings(file_lines(content@)),
{
    let cs = chars_of(content);
    let mut book = PeerBook::new();
    let mut warnings: Vec<String> = Vec::new();
    let mut cur: Vec<char> = Vec::new();
    let ghost mut done: Seq<Seq<char>> = Seq::empty();
    let mut i: usize = 0;
    assert(cs@.skip(0) =~= cs@);
    assert(names_of(warnings@) =~= peer_file_warnings(done));
    while i < cs.len()
        invariant
            cs@ == content@,
            i <= cs@.len(),
            file_lines(content@) == done + lines_from(cs@.skip(i as int), cur@),
            book@ == peers_from_lines(done, self_id@),
            names_of(warnings@) == peer_file_warnings(done),
        decreases cs.len() - i,
    {
        let c = cs[i];
        let ghost rest = cs@.skip(i as int);
        proof {
            assert(rest[0] == c);
            assert(rest.skip(1) =~= cs@.skip(i + 1));
        }
        if c == '\n' {
            let mut line = cur;
            if line.len() > 0 && line[line.len() - 1] == '\r' {
                line.pop();
            }
            proof {
                assert(line@ =~= strip_cr(cur@));
            }
            take_peer_line(&line, self_id, &mut book, &mut warnings);
            proof {
                let next = done.push(line@);
                assert(next.drop_last() =~= done);
                assert(file_lines(content@) =~= next + lines_from(cs@.skip(i + 1), Seq::empty()));
                done = next;
            }
            cur = Vec::new();
        } else {
            cur.push(c);
        }
        i = i + 1;
    }
    proof {
        assert(cs@.skip(i as int) =~= Seq::<char>::empty());
    }
    if cur.len() > 0 {
        take_peer_line(&cur, self_id, &mut book, &mut warnings);
        proof {
            let next = done.push(cur@);
            assert(next.drop_last() =~= done);
            assert(file_lines(content@) =~= next);
            done = next;
        }
    } else {
        assert(file_lines(content@) =~= done);
    }
    (book, warnings)
}

} // verus!
