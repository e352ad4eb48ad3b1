//! `NameSet`: a finite set of names (bearers, node ids) kept as a strictly
//! sorted vector, so that iteration order, equality and printed order are
//! all canonical.
use vstd::prelude::*;

use crate::text::{
    chars_equal, chars_less, chars_of, lemma_strictly_sorted_no_duplicates, lemma_text_lt_asymmetric,
    lemma_text_lt_irreflexive, lemma_text_lt_total, lemma_text_lt_transitive, strictly_sorted,
    text_lt, text_string,
};

verus! {

/// The names of a sequence of strings.
pub open spec fn names_of(v: Seq<String>) -> Seq<Seq<char>> {
    v.map_values(|s: String| s@)
}

/// The names of a sequence of string slices.
pub open spec fn names_of_strs(v: Seq<&str>) -> Seq<Seq<char>> {
    v.map_values(|s: &str| s@)
}

/// A sorted listing of a set: strictly increasing and holding exactly the
/// members of `s`.
pub open spec fn lists_sorted(v: Seq<Seq<char>>, s: Set<Seq<char>>) -> bool {
    strictly_sorted(v) && v.to_set() == s
}

/// The sorted listing of a finite set (there is exactly one).
pub open spec fn sorted_listing(s: Set<Seq<char>>) -> Seq<Seq<char>> {
    choose|v: Seq<Seq<char>>| lists_sorted(v, s)
}

/// Two sorted listings of the same set are the same sequence.
pub proof fn lemma_sorted_listing_unique(a: Seq<Seq<char>>, b: Seq<Seq<char>>)
    requires
        strictly_sorted(a),
        strictly_sorted(b),
        a.to_set() == b.to_set(),
    ensures
        a == b,
    decreases a.len(),
{
    if a.len() == 0 {
        if b.len() > 0 {
            assert(b.to_set().contains(b[0]));
        }
        assert(a =~= b);
    } else {
        assert(a.to_set().contains(a[0]));
        assert(b.len() > 0);
        assert(b.to_set().contains(b[0]));
        let ka = choose|k: int| 0 <= k < b.len() && b[k] == a[0];
        let kb = choose|k: int| 0 <= k < a.len() && a[k] == b[0];
        if a[0] != b[0] {
            lemma_text_lt_total(a[0], b[0]);
            if text_lt(a[0], b[0]) {
                assert(ka > 0);
                lemma_text_lt_asymmetric(a[0], b[0]);
            } else {
                assert(kb > 0);
                lemma_text_lt_asymmetric(b[0], a[0]);
            }
        }
        let ta = a.drop_first();
        let tb = b.drop_first();
        lemma_strictly_sorted_no_duplicates(a);
        lemma_strictly_sorted_no_duplicates(b);
        assert(ta.to_set() =~= tb.to_set()) by {
            assert forall|x: Seq<char>| ta.to_set().contains(x) <==> tb.to_set().contains(x) by {
                if ta.to_set().contains(x) {
                    let k = choose|k: int| 0 <= k < ta.len() && ta[k] == x;
                    assert(a[k + 1] == x);
                    assert(a.to_set().contains(x));
                    let l = choose|l: int| 0 <= l < b.len() && b[l] == x;
                    assert(l != 0);
                    assert(tb[l - 1] == x);
                }
                if tb.to_set().contains(x) {
                    let k = choose|k: int| 0 <= k < tb.len() && tb[k] == x;
                    assert(b[k + 1] == x);
                    assert(b.to_set().contains(x));
                    let l = choose|l: int| 0 <= l < a.len() && a[l] == x;
                    assert(l != 0);
                    assert(ta[l - 1] == x);
                }
            }
        }
        lemma_sorted_listing_unique(ta, tb);
        assert(a =~= seq![a[0]] + ta);
        assert(b =~= seq![b[0]] + tb);
    }
}

/// A sorted listing of `s` is the sorted listing of `s`.
pub proof fn lemma_is_sorted_listing(v: Seq<Seq<char>>, s: Set<Seq<char>>)
    requires
        lists_sorted(v, s),
    ensures
        v == sorted_listing(s),
{
    let w = sorted_listing(s);
    assert(lists_sorted(w, s));
    lemma_sorted_listing_unique(v, w);
}

/// A finite set of names, stored in strictly increasing order.
#[derive(Debug, PartialEq, Eq)]
pub struct NameSet {
    items: Vec<String>,
}

impl View for NameSet {
    type V = Set<Seq<char>>;

    open spec fn view(&self) -> Set<Seq<char>> {
        self.names().to_set()
    }
}

/// Growing a prefix by one element adds that element to its set.
pub proof fn lemma_prefix_set_step<A>(s: Seq<A>, i: int)
    requires
        0 <= i < s.len(),
    ensures
        s.subrange(0, i + 1).to_set() == s.subrange(0, i).to_set().insert(s[i]),
{
    assert(s.subrange(0, i + 1) =~= s.subrange(0, i) + seq![s[i]]);
    Seq::lemma_to_set_insert_commutes(s.subrange(0, i), s[i]);
}

/// Inserting `x` at position `i` of a strictly sorted sequence keeps it
/// strictly sorted when `x` lies strictly between its neighbours.
proof fn lemma_insert_keeps_sorted(s: Seq<Seq<char>>, i: int, x: Seq<char>)
    requires
        strictly_sorted(s),
        0 <= i <= s.len(),
        forall|j: int| 0 <= j < i ==> text_lt(#[trigger] s[j], x),
        forall|j: int| i <= j < s.len() ==> text_lt(x, #[trigger] s[j]),
    ensures
        strictly_sorted(s.insert(i, x)),
{
    let t = s.insert(i, x);
    assert forall|a: int, b: int| 0 <= a < b < t.len() implies text_lt(
        #[trigger] t[a],
        #[trigger] t[b],
    ) by {
        if b < i {
            assert(t[a] == s[a] && t[b] == s[b]);
        } else if b == i {
            assert(t[a] == s[a]);
        } else if a < i {
            assert(t[a] == s[a] && t[b] == s[b - 1]);
        } else if a == i {
            assert(t[b] == s[b - 1]);
        } else {
            assert(t[a] == s[a - 1] && t[b] == s[b - 1]);
        }
    }
}

proof fn lemma_remove_keeps_sorted(s: Seq<Seq<char>>, i: int)
    requires
        strictly_sorted(s),
        0 <= i < s.len(),
    ensures
        strictly_sorted(s.remove(i)),
{
    let t = s.remove(i);
    assert forall|a: int, b: int| 0 <= a < b < t.len() implies text_lt(
        #[trigger] t[a],
        #[trigger] t[b],
    ) by {
        if b < i {
            assert(t[a] == s[a] && t[b] == s[b]);
        } else if a < i {
            assert(t[a] == s[a] && t[b] == s[b + 1]);
        } else {
            assert(t[a] == s[a + 1] && t[b] == s[b + 1]);
        }
    }
}

impl NameSet {
    /// The members, in increasing order.
    pub closed spec fn names(&self) -> Seq<Seq<char>> {
        names_of(self.items@)
    }

    #[verifier::type_invariant]
    pub closed spec fn well_formed(&self) -> bool {
        strictly_sorted(self.names())
    }

    /// What the invariant says about the members.
    pub proof fn lemma_well_formed(&self)
        requires
            self.well_formed(),
        ensures
            strictly_sorted(self.names()),
            self.names().no_duplicates(),
            self@.finite(),
            self@.len() == self.names().len(),
    {
        lemma_strictly_sorted_no_duplicates(self.names());
        self.names().unique_seq_to_set();
    }

    /// The empty set.
    pub fn new() -> (s: NameSet)
        ensures
            s@ == Set::<Seq<char>>::empty(),
            s.names() == Seq::<Seq<char>>::empty(),
    {
        let s = NameSet { items: Vec::new() };
        assert(s.names() =~= Seq::<Seq<char>>::empty());
        assert(s@ =~= Set::<Seq<char>>::empty());
        s
    }

    /// Number of members.
    pub fn len(&self) -> (n: usize)
        ensures
            n == self.names().len(),
            n == self@.len(),
    {
        proof {
            use_type_invariant(self);
            self.lemma_well_formed();
        }
        self.items.len()
    }

    /// Whether the set has no members.
    pub fn is_empty(&self) -> (b: bool)
        ensures
            b == (self@ == Set::<Seq<char>>::empty()),
            b == (self.names().len() == 0),
    {
        proof {
            use_type_invariant(self);
            self.lemma_well_formed();
        }
        if self.items.len() == 0 {
            assert(self@ =~= Set::<Seq<char>>::empty());
            true
        } else {
            assert(self@.contains(self.names()[0]));
            false
        }
    }

    /// The `i`-th member in increasing order.
    pub fn get(&self, i: usize) -> (s: &String)
        requires
            i < self.names().len(),
        ensures
            s@ == self.names()[i as int],
            self@.contains(s@),
    {
        assert(self.names().contains(self.names()[i as int]));
        &self.items[i]
    }

    /// The first position whose member is not below `x`.
    fn lower_bound(&self, x: &[char]) -> (i: usize)
        ensures
            i <= self.names().len(),
            forall|j: int| 0 <= j < i ==> text_lt(#[trigger] self.names()[j], x@),
            forall|j: int| i <= j < self.names().len() ==> !text_lt(#[trigger] self.names()[j], x@),
    {
        proof {
            use_type_invariant(self);
        }
        let mut i: usize = 0;
        while i < self.items.len()
            invariant
                strictly_sorted(self.names()),
                i <= self.names().len(),
                self.names().len() == self.items@.len(),
                forall|j: int| 0 <= j < i ==> text_lt(#[trigger] self.names()[j], x@),
            decreases self.items.len() - i,
        {
            let item = chars_of(self.items[i].as_str());
            if !chars_less(item.as_slice(), x) {
                assert forall|j: int| i <= j < self.names().len() implies !text_lt(
                    #[trigger] self.names()[j],
                    x@,
                ) by {
                    if j > i && text_lt(self.names()[j], x@) {
                        lemma_text_lt_transitive(self.names()[i as int], self.names()[j], x@);
                    }
                }
                return i;
            }
            i = i + 1;
        }
        i
    }

    /// Whether `x` is a member.
    pub fn contains(&self, x: &str) -> (b: bool)
        ensures
            b == self@.contains(x@),
    {
        proof {
            use_type_invariant(self);
        }
        let xc = chars_of(x);
        let i = self.lower_bound(xc.as_slice());
        if i < self.items.len() {
            let item = chars_of(self.items[i].as_str());
            if chars_equal(item.as_slice(), xc.as_slice()) {
                assert(self.names()[i as int] == x@);
                assert(self.names().contains(x@));
                return true;
            }
            proof {
                lemma_text_lt_total(self.names()[i as int], x@);
            }
        }
        assert forall|k: int| 0 <= k < self.names().len() implies self.names()[k] != x@ by {
            if k < i {
                lemma_text_lt_irreflexive(x@);
            } else if k > i {
                lemma_text_lt_asymmetric(x@, self.names()[i as int]);
                lemma_text_lt_transitive(x@, self.names()[i as int], self.names()[k]);
                lemma_text_lt_irreflexive(x@);
            }
        }
        false
    }

    /// Adds `x`; reports whether it was new.
    pub fn insert(&mut self, x: String) -> (added: bool)
        ensures
            final(self)@ == old(self)@.insert(x@),
            added == !old(self)@.contains(x@),
    {
        proof {
            use_type_invariant(&*self);
        }
        let xc = chars_of(x.as_str());
        let i = self.lower_bound(xc.as_slice());
        if i < self.items.len() {
            let item = chars_of(self.items[i].as_str());
            if chars_equal(item.as_slice(), xc.as_slice()) {
                assert(self.names()[i as int] == x@);
                assert(self.names().contains(x@));
                assert(self@.insert(x@) =~= self@);
                return false;
            }
        }
        let ghost old_names = self.names();
        proof {
            if i < old_names.len() {
                lemma_text_lt_total(old_names[i as int], x@);
            }
            assert forall|j: int| i <= j < old_names.len() implies text_lt(x@, #[trigger] old_names[j])
                by {
                if j > i {
                    lemma_text_lt_transitive(x@, old_names[i as int], old_names[j]);
                }
            }
            lemma_insert_keeps_sorted(old_names, i as int, x@);
            assert forall|k: int| 0 <= k < old_names.len() implies old_names[k] != x@ by {
                lemma_text_lt_irreflexive(x@);
            }
        }
        let mut items: Vec<String> = Vec::new();
        std::mem::swap(&mut items, &mut self.items);
        items.insert(i, x);
        assert(names_of(items@) =~= old_names.insert(i as int, x@));
        self.items = items;
        assert(self@ =~= old(self)@.insert(x@)) by {
            assert forall|y: Seq<char>| #[trigger] self@.contains(y) <==> old(self)@.insert(x@).contains(y) by {
                if old_names.contains(y) {
                    let k = choose|k: int| 0 <= k < old_names.len() && old_names[k] == y;
                    if k < i {
                        assert(self.names()[k] == y);
                    } else {
                        assert(self.names()[k + 1] == y);
                    }
                }
                if y == x@ {
                    assert(self.names()[i as int] == y);
                }
            }
        }
        true
    }

    /// Removes `x`; reports whether it was present.
    pub fn remove(&mut self, x: &str) -> (removed: bool)
        ensures
            final(self)@ == old(self)@.remove(x@),
            removed == old(self)@.contains(x@),
    {
        proof {
            use_type_invariant(&*self);
            self.lemma_well_formed();
        }
        let xc = chars_of(x);
        let i = self.lower_bound(xc.as_slice());
        let ghost old_names = self.names();
        if i < self.items.len() {
            let item = chars_of(self.items[i].as_str());
            if chars_equal(item.as_slice(), xc.as_slice()) {
                proof {
                    lemma_remove_keeps_sorted(old_names, i as int);
                }
                let mut items: Vec<String> = Vec::new();
                std::mem::swap(&mut items, &mut self.items);
                items.remove(i);
                assert(names_of(items@) =~= old_names.remove(i as int));
                self.items = items;
                assert(self@ =~= old(self)@.remove(x@)) by {
                    assert forall|y: Seq<char>| #[trigger] self@.contains(y) <==> old(
                        self,
                    )@.remove(x@).contains(y) by {
                        if old_names.contains(y) && y != x@ {
                            let k = choose|k: int| 0 <= k < old_names.len() && old_names[k] == y;
                            if k < i {
                                assert(self.names()[k] == y);
                            } else {
                                assert(k != i);
                                assert(self.names()[k - 1] == y);
                            }
                        }
                        if self.names().contains(y) {
                            let k = choose|k: int| 0 <= k < self.names().len() && self.names()[k] == y;
                            if k < i {
                                assert(old_names[k] == y);
                                assert(old_names[k] != old_names[i as int]);
                            } else {
                                assert(old_names[k + 1] == y);
                                assert(old_names[k + 1] != old_names[i as int]);
                            }
                        }
                    }
                }
                assert(old_names[i as int] == x@);
                assert(old_names.contains(x@));
                return true;
            }
            proof {
                lemma_text_lt_total(old_names[i as int], x@);
            }
        }
        assert forall|k: int| 0 <= k < old_names.len() implies old_names[k] != x@ by {
            if k < i {
                lemma_text_lt_irreflexive(x@);
            } else if k > i {
                lemma_text_lt_asymmetric(x@, old_names[i as int]);
                lemma_text_lt_transitive(x@, old_names[i as int], old_names[k]);
                lemma_text_lt_irreflexive(x@);
            }
        }
        assert(self@.remove(x@) =~= self@);
        false
    }

    /// A separate set with the same members.
    fn duplicate(&self) -> (s: NameSet)
        ensures
            s@ == self@,
            s.names() == self.names(),
    {
        proof {
            use_type_invariant(self);
        }
        let mut items: Vec<String> = Vec::new();
        let mut i: usize = 0;
        while i < self.items.len()
            invariant
                i <= self.items@.len(),
                names_of(items@) == self.names().subrange(0, i as int),
            decreases self.items.len() - i,
        {
            let c = self.items[i].clone();
            assert(c@ == self.names()[i as int]);
            let ghost prev = items@;
            items.push(c);
            assert(names_of(items@) =~= names_of(prev).push(c@));
            assert(names_of(items@) =~= self.names().subrange(0, i + 1));
            i = i + 1;
        }
        assert(names_of(items@) =~= self.names());
        NameSet { items }
    }

    /// The members as a vector of strings, in increasing order.
    pub fn to_vec(&self) -> (v: Vec<String>)
        ensures
            names_of(v@) == self.names(),
            strictly_sorted(names_of(v@)),
            names_of(v@).to_set() == self@,
    {
        proof {
            use_type_invariant(self);
        }
        let s = self.duplicate();
        s.items
    }

    /// Whether the two sets have no member in common.
    pub fn is_disjoint(&self, other: &NameSet) -> (r: bool)
        ensures
            r == (forall|x: Seq<char>| !(#[trigger] self@.contains(x) && other@.contains(x))),
    {
        let n = self.len();
        let mut i: usize = 0;
        while i < n
            invariant
                n == self.names().len(),
                i <= n,
                forall|k: int| 0 <= k < i ==> !other@.contains(#[trigger] self.names()[k]),
            decreases n - i,
        {
            let x = self.get(i);
            if other.contains(x.as_str()) {
                return false;
            }
            i = i + 1;
        }
        assert forall|x: Seq<char>| !(#[trigger] self@.contains(x) && other@.contains(x)) by {
            if self@.contains(x) {
                let k = choose|k: int| 0 <= k < self.names().len() && self.names()[k] == x;
                assert(!other@.contains(self.names()[k]));
            }
        }
        true
    }

    /// Adds every member of `other`.
    pub fn extend(&mut self, other: &NameSet)
        ensures
            final(self)@ == old(self)@.union(other@),
    {
        let mut i: usize = 0;
        let n = other.len();
        while i < n
            invariant
                n == other.names().len(),
                i <= n,
                self@ == old(self)@.union(other.names().subrange(0, i as int).to_set()),
            decreases n - i,
        {
            let item = other.get(i).clone();
            self.insert(item);
            proof {
                lemma_prefix_set_step(other.names(), i as int);
            }
            assert(self@ =~= old(self)@.union(other.names().subrange(0, i + 1).to_set()));
            i = i + 1;
        }
        assert(other.names().subrange(0, n as int) =~= other.names());
    }

    /// Removes every member of `other`.
    pub fn remove_all(&mut self, other: &NameSet)
        ensures
            final(self)@ == old(self)@.difference(other@),
    {
        let mut i: usize = 0;
        let n = other.len();
        while i < n
            invariant
                n == other.names().len(),
                i <= n,
                self@ == old(self)@.difference(other.names().subrange(0, i as int).to_set()),
            decreases n - i,
        {
            self.remove(other.get(i).as_str());
            proof {
                lemma_prefix_set_step(other.names(), i as int);
            }
            assert(self@ =~= old(self)@.difference(other.names().subrange(0, i + 1).to_set()));
            i = i + 1;
        }
        assert(other.names().subrange(0, n as int) =~= other.names());
    }

    /// The set holding every string in `v`.
    pub fn from_strings(v: &Vec<String>) -> (s: NameSet)
        ensures
            s@ == names_of(v@).to_set(),
    {
        let mut s = NameSet::new();
        let mut i: usize = 0;
        while i < v.len()
            invariant
                i <= v@.len(),
                s@ == names_of(v@).subrange(0, i as int).to_set(),
            decreases v.len() - i,
        {
            s.insert(v[i].clone());
            proof {
                lemma_prefix_set_step(names_of(v@), i as int);
            }
            i = i + 1;
        }
        assert(names_of(v@).subrange(0, v@.len() as int) =~= names_of(v@));
        s
    }

    /// The set holding every text in `v`.
    pub fn from_strs(v: &[&str]) -> (s: NameSet)
        ensures
            s@ == names_of_strs(v@).to_set(),
    {
        let mut s = NameSet::new();
        let mut i: usize = 0;
        while i < v.len()
            invariant
                i <= v@.len(),
                s@ == names_of_strs(v@).subrange(0, i as int).to_set(),
            decreases v.len() - i,
        {
            s.insert(text_string(v[i]));
            proof {
                lemma_prefix_set_step(names_of_strs(v@), i as int);
            }
            i = i + 1;
        }
        assert(names_of_strs(v@).subrange(0, v@.len() as int) =~= names_of_strs(v@));
        s
    }
}

impl Clone for NameSet {
    /// A separate set with the same members.
    fn clone(&self) -> (s: Self)
        ensures
            s@ == self@,
            s.names() == self.names(),
    {
        self.duplicate()
    }
}

} // verus!
