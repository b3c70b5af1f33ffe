//! A set of strings, kept as a vector in ascending order without repeats.
//!
//! The maps and sets of the standard library are specified only for keys
//! whose hashing or ordering is known to the verifier, which a `String` is
//! not. So sets of strings, and the mappings keyed by strings that are built
//! on them, are sorted vectors here, and what a map would give is stated as
//! their invariant: no key twice, and a fixed order of the entries.

use crate::text::{
    ascending, compare, lemma_precedes_exclusive, lemma_precedes_transitive, precedes, texts_of,
    Rank,
};
use vstd::prelude::*;
use vstd::string::*;

verus! {

/// A finite set of strings. Its members are held in ascending order, so two
/// sets with the same members are laid out the same way.
#[derive(Debug)]
pub struct StringSet {
    items: Vec<String>,
}

impl View for StringSet {
    type V = Set<Seq<char>>;

    open spec fn view(&self) -> Set<Seq<char>> {
        self.members().to_set()
    }
}

/// Inserting into a sequence adds exactly the new element to its set.
pub proof fn lemma_insert_to_set<A>(s: Seq<A>, i: int, a: A)
    requires
        0 <= i <= s.len(),
    ensures
        s.insert(i, a).to_set() =~= s.to_set().insert(a),
{
    let t = s.insert(i, a);
    s.insert_ensures(i, a);
    assert forall|x: A| t.to_set().contains(x) <==> s.to_set().insert(a).contains(x) by {
        if t.to_set().contains(x) {
            let k = choose|k: int| 0 <= k < t.len() && t[k] == x;
            if k < i {
                assert(s[k] == x);
            } else if k > i {
                assert(t[(k - 1) + 1] == s[k - 1]);
                assert(s[k - 1] == x);
            }
        }
        if s.to_set().insert(a).contains(x) {
            if x == a {
                assert(t[i] == x);
            } else {
                let k = choose|k: int| 0 <= k < s.len() && s[k] == x;
                if k < i {
                    assert(t[k] == x);
                } else {
                    assert(t[k + 1] == x);
                }
            }
        }
    }
}

/// An element put between those that precede it and those that it
/// precedes keeps the order.
pub proof fn lemma_ascending_insert(m: Seq<Seq<char>>, i: int, t: Seq<char>)
    requires
        ascending(m),
        0 <= i <= m.len(),
        forall|j: int| 0 <= j < i ==> precedes(#[trigger] m[j], t),
        forall|j: int| i <= j < m.len() ==> precedes(t, #[trigger] m[j]),
    ensures
        ascending(m.insert(i, t)),
{
    let r = m.insert(i, t);
    m.insert_ensures(i, t);
    assert forall|a: int, b: int| 0 <= a < b < r.len() implies precedes(
        #[trigger] r[a],
        #[trigger] r[b],
    ) by {
        if b < i {
            assert(r[a] == m[a] && r[b] == m[b]);
        } else if b == i {
            assert(r[a] == m[a]);
        } else {
            assert(r[(b - 1) + 1] == m[b - 1]);
            if a < i {
                assert(r[a] == m[a]);
                if b - 1 > a {
                } else {
                    lemma_precedes_transitive(m[a], t, m[b - 1]);
                }
            } else if a == i {
            } else {
                assert(r[(a - 1) + 1] == m[a - 1]);
            }
        }
    }
}

/// In an ascending sequence no text occurs at two places.
pub proof fn lemma_ascending_distinct(m: Seq<Seq<char>>, i: int, j: int)
    requires
        ascending(m),
        0 <= i < m.len(),
        0 <= j < m.len(),
        m[i] == m[j],
    ensures
        i == j,
{
    if i < j {
        lemma_precedes_exclusive(m[i], m[j]);
    } else if j < i {
        lemma_precedes_exclusive(m[j], m[i]);
    }
}

/// The mapping from each key to the value that stands at the key's place.
pub open spec fn keyed<V>(keys: Seq<Seq<char>>, values: Seq<V>) -> Map<Seq<char>, V> {
    Map::new(|key: Seq<char>| keys.contains(key), |key: Seq<char>| values[keys.index_of(key)])
}

/// The key at place `i` maps to the value at place `i`.
pub proof fn lemma_keyed_at<V>(keys: Seq<Seq<char>>, values: Seq<V>, i: int)
    requires
        ascending(keys),
        0 <= i < keys.len(),
    ensures
        keyed(keys, values).contains_key(keys[i]),
        keyed(keys, values)[keys[i]] == values[i],
{
    assert(keys.contains(keys[i]));
    lemma_ascending_distinct(keys, i, keys.index_of(keys[i]));
}

/// A new key put at place `i`, with its value put at place `i` beside it, is
/// one more entry of the mapping; the entries behind it move on by one place
/// and stay what they were.
pub proof fn lemma_keyed_insert<V>(
    keys: Seq<Seq<char>>,
    values: Seq<V>,
    i: int,
    key: Seq<char>,
    value: V,
)
    requires
        ascending(keys),
        ascending(keys.insert(i, key)),
        0 <= i <= keys.len(),
        values.len() == keys.len(),
    ensures
        keyed(keys.insert(i, key), values.insert(i, value)) == keyed(keys, values).insert(
            key,
            value,
        ),
{
    let keys1 = keys.insert(i, key);
    let values1 = values.insert(i, value);
    let before = keyed(keys, values);
    let after = keyed(keys1, values1);
    keys.insert_ensures(i, key);
    values.insert_ensures(i, value);
    lemma_insert_to_set(keys, i, key);
    assert forall|k: Seq<char>| after.contains_key(k) <==> before.insert(key, value).contains_key(
        k,
    ) by {
        assert(keys1.to_set().contains(k) <==> keys.to_set().insert(key).contains(k));
    }
    assert forall|k: Seq<char>| after.contains_key(k) implies after[k] == before.insert(
        key,
        value,
    )[k] by {
        let at = keys1.index_of(k);
        lemma_keyed_at(keys1, values1, at);
        if at == i {
        } else {
            if k == key {
                lemma_ascending_distinct(keys1, at, i);
            }
            let at0 = if at > i {
                at - 1
            } else {
                at
            };
            if at > i {
                assert(keys1[(at - 1) + 1] == keys[at - 1]);
                assert(values1[(at - 1) + 1] == values[at - 1]);
            }
            lemma_keyed_at(keys, values, at0);
        }
    }
    assert(after =~= before.insert(key, value));
}

/// A new value at place `i` is a new value under the key at place `i`.
pub proof fn lemma_keyed_update<V>(keys: Seq<Seq<char>>, values: Seq<V>, i: int, value: V)
    requires
        ascending(keys),
        0 <= i < keys.len(),
        values.len() == keys.len(),
    ensures
        keyed(keys, values.update(i, value)) == keyed(keys, values).insert(keys[i], value),
{
    let before = keyed(keys, values);
    let after = keyed(keys, values.update(i, value));
    assert(keys.contains(keys[i]));
    assert forall|k: Seq<char>| after.contains_key(k) implies after[k] == before.insert(
        keys[i],
        value,
    )[k] by {
        let at = keys.index_of(k);
        lemma_keyed_at(keys, values, at);
        lemma_keyed_at(keys, values.update(i, value), at);
        if at != i && k == keys[i] {
            lemma_ascending_distinct(keys, at, i);
        }
    }
    assert(after =~= before.insert(keys[i], value));
}

impl StringSet {
    /// The members, in ascending order.
    pub closed spec fn members(&self) -> Seq<Seq<char>> {
        texts_of(self.items@)
    }

    /// The members are in strictly ascending order.
    pub open spec fn wf(&self) -> bool {
        ascending(self.members())
    }

    /// The empty set.
    pub fn new() -> (r: StringSet)
        ensures
            r.wf(),
            r.members() == Seq::<Seq<char>>::empty(),
            r@ == Set::<Seq<char>>::empty(),
    {
        let r = StringSet { items: Vec::new() };
        assert(r.members() =~= Seq::<Seq<char>>::empty());
        assert(r@ =~= Set::<Seq<char>>::empty());
        r
    }

    /// The number of members.
    pub fn len(&self) -> (n: usize)
        ensures
            n == self.members().len(),
    {
        self.items.len()
    }

    /// The member at place `i` of the ascending order.
    pub fn get(&self, i: usize) -> (s: &String)
        requires
            i < self.members().len(),
        ensures
            s@ == self.members()[i as int],
    {
        &self.items[i]
    }

    /// Where `text` stands among the members: the place of the first member
    /// that does not precede it, and whether that member is `text` itself.
    fn position(&self, text: &str) -> (r: (usize, bool))
        requires
            self.wf(),
        ensures
            r.0 <= self.members().len(),
            forall|j: int| 0 <= j < r.0 ==> precedes(#[trigger] self.members()[j], text@),
            r.1 ==> r.0 < self.members().len() && self.members()[r.0 as int] == text@,
            !r.1 ==> forall|j: int|
                r.0 <= j < self.members().len() ==> precedes(text@, #[trigger] self.members()[j]),
    {
        let mut lo: usize = 0;
        let mut hi: usize = self.items.len();
        while lo < hi
            invariant
                self.wf(),
                lo <= hi <= self.items.len(),
                self.members().len() == self.items.len(),
                forall|j: int| 0 <= j < lo ==> precedes(#[trigger] self.members()[j], text@),
                forall|j: int|
                    hi <= j < self.members().len() ==> precedes(text@, #[trigger] self.members()[j]),
            decreases hi - lo,
        {
            let mid: usize = lo + (hi - lo) / 2;
            let ghost m = self.members();
            match compare(self.items[mid].as_str(), text) {
                Rank::Before => {
                    assert forall|j: int| 0 <= j < mid + 1 implies precedes(#[trigger] m[j], text@) by {
                        if j < mid {
                            lemma_precedes_transitive(m[j], m[mid as int], text@);
                        }
                    }
                    lo = mid + 1;
                },
                Rank::Same => {
                    assert forall|j: int| 0 <= j < mid implies precedes(#[trigger] m[j], text@) by {
                        assert(precedes(m[j], m[mid as int]));
                    }
                    return (mid, true);
                },
                Rank::After => {
                    assert forall|j: int| mid <= j < m.len() implies precedes(text@, #[trigger] m[j]) by {
                        if j > mid {
                            lemma_precedes_transitive(text@, m[mid as int], m[j]);
                        }
                    }
                    hi = mid;
                },
            }
        }
        (lo, false)
    }

    /// Whether `text` is a member.
    pub fn contains(&self, text: &str) -> (found: bool)
        requires
            self.wf(),
        ensures
            found == self@.contains(text@),
    {
        self.find(text).is_some()
    }

    /// Puts `text` at its place in the order unless it is a member already.
    /// Returns the place of `text` among the members afterwards, and
    /// whether it was new.
    pub fn place(&mut self, text: String) -> (r: (usize, bool))
        requires
            old(self).wf(),
        ensures
            final(self).wf(),
            final(self)@ == old(self)@.insert(text@),
            r.1 == !old(self)@.contains(text@),
            r.0 < final(self).members().len(),
            r.0 <= old(self).members().len(),
            final(self).members()[r.0 as int] == text@,
            r.1 ==> final(self).members() == old(self).members().insert(r.0 as int, text@),
            !r.1 ==> final(self).members() == old(self).members(),
    {
        let (i, found) = self.position(text.as_str());
        let ghost m = self.members();
        if found {
            proof {
                assert(m[i as int] == text@);
                assert(self@.contains(text@));
                assert(self@.insert(text@) =~= self@);
            }
            (i, false)
        } else {
            proof {
                assert forall|j: int| 0 <= j < m.len() implies m[j] != text@ by {
                    lemma_precedes_exclusive(m[j], text@);
                }
                assert(texts_of(self.items@.insert(i as int, text)) =~= m.insert(i as int, text@));
                lemma_insert_to_set(m, i as int, text@);
                lemma_ascending_insert(m, i as int, text@);
                m.insert_ensures(i as int, text@);
            }
            self.items.insert(i, text);
            (i, true)
        }
    }

    /// Adds `text`; says whether it was new.
    pub fn insert(&mut self, text: String) -> (added: bool)
        requires
            old(self).wf(),
        ensures
            final(self).wf(),
            final(self)@ == old(self)@.insert(text@),
            added == !old(self)@.contains(text@),
    {
        let (_, added) = self.place(text);
        added
    }

    /// The place of `text` among the members, if it is one.
    pub fn find(&self, text: &str) -> (r: Option<usize>)
        requires
            self.wf(),
        ensures
            r is Some <==> self@.contains(text@),
            r matches Some(i) ==> i < self.members().len() && self.members()[i as int] == text@,
    {
        let (i, found) = self.position(text);
        proof {
            let m = self.members();
            if found {
                assert(m[i as int] == text@);
            } else {
                assert forall|j: int| 0 <= j < m.len() implies m[j] != text@ by {
                    lemma_precedes_exclusive(m[j], text@);
                }
            }
        }
        if found {
            Some(i)
        } else {
            None
        }
    }

    /// Adds every member of `other`.
    pub fn extend(&mut self, other: &StringSet)
        requires
            old(self).wf(),
            other.wf(),
        ensures
            final(self).wf(),
            final(self)@ == old(self)@.union(other@),
    {
        let n = other.items.len();
        let mut i: usize = 0;
        while i < n
            invariant
                i <= n,
                n == other.items.len(),
                self.wf(),
                self@ == old(self)@.union(other.members().take(i as int).to_set()),
            decreases n - i,
        {
            let ghost before = self@;
            self.insert(other.items[i].clone());
            proof {
                let m = other.members();
                assert(m.take(i + 1) =~= m.take(i as int).push(m[i as int]));
                m.take(i as int).lemma_push_to_set_commute(m[i as int]);
                assert(self@ =~= old(self)@.union(m.take(i + 1).to_set()));
            }
            i += 1;
        }
        proof {
            assert(other.members().take(n as int) =~= other.members());
        }
    }

    /// The members that `other` holds too.
    pub fn intersection(&self, other: &StringSet) -> (r: StringSet)
        requires
            self.wf(),
            other.wf(),
        ensures
            r.wf(),
            r@ == self@.intersect(other@),
    {
        let mut r = StringSet::new();
        let n = self.items.len();
        let mut i: usize = 0;
        while i < n
            invariant
                i <= n,
                n == self.items.len(),
                self.wf(),
                other.wf(),
                r.wf(),
                r@ == self.members().take(i as int).to_set().intersect(other@),
            decreases n - i,
        {
            let ghost m = self.members();
            proof {
                assert(m.take(i + 1) =~= m.take(i as int).push(m[i as int]));
                m.take(i as int).lemma_push_to_set_commute(m[i as int]);
            }
            if other.contains(self.items[i].as_str()) {
                r.insert(self.items[i].clone());
            }
            assert(r@ =~= m.take(i + 1).to_set().intersect(other@));
            i += 1;
        }
        proof {
            assert(self.members().take(n as int) =~= self.members());
        }
        r
    }

    /// The members as a vector, in ascending order.
    pub fn to_vec(&self) -> (v: Vec<String>)
        ensures
            texts_of(v@) == self.members(),
    {
        let mut v: Vec<String> = Vec::new();
        let n = self.items.len();
        let mut i: usize = 0;
        while i < n
            invariant
                i <= n,
                n == self.items.len(),
                texts_of(v@) == self.members().take(i as int),
            decreases n - i,
        {
            let ghost prev = v@;
            v.push(self.items[i].clone());
            proof {
                let m = self.members();
                assert(v@ == prev.push(self.items@[i as int]));
                assert(m.take(i + 1) =~= m.take(i as int).push(m[i as int]));
                assert(texts_of(v@) =~= texts_of(prev).push(self.items@[i as int]@));
            }
            i += 1;
        }
        assert(self.members().take(n as int) =~= self.members());
        v
    }
}

/// Two well-formed sets with the same members are laid out alike.
pub proof fn lemma_members_determined(a: StringSet, b: StringSet)
    requires
        a.wf(),
        b.wf(),
        a@ == b@,
    ensures
        a.members() == b.members(),
{
    lemma_ascending_determined(a.members(), b.members());
}

/// Two ascending sequences with the same elements are equal.
pub proof fn lemma_ascending_determined(a: Seq<Seq<char>>, b: Seq<Seq<char>>)
    requires
        ascending(a),
        ascending(b),
        a.to_set() == b.to_set(),
    ensures
        a == b,
    decreases a.len(),
{
    if a.len() == 0 {
        if b.len() > 0 {
            assert(b.to_set().contains(b[0]));
            assert(a.to_set().contains(b[0]));
        }
        assert(a =~= b);
    } else if b.len() == 0 {
        assert(a.to_set().contains(a[0]));
        assert(b.to_set().contains(a[0]));
    } else {
        // the last elements are the greatest of each, hence equal
        let x = a.last();
        let y = b.last();
        assert(a.to_set().contains(x));
        assert(b.to_set().contains(x));
        let jx = choose|j: int| 0 <= j < b.len() && b[j] == x;
        assert(b.to_set().contains(y));
        assert(a.to_set().contains(y));
        let iy = choose|i: int| 0 <= i < a.len() && a[i] == y;
        lemma_precedes_exclusive(x, y);
        if iy < a.len() - 1 {
            assert(precedes(a[iy], a[a.len() - 1]));
        }
        if jx < b.len() - 1 {
            assert(precedes(b[jx], b[b.len() - 1]));
        }
        assert(x == y);
        let a0 = a.drop_last();
        let b0 = b.drop_last();
        assert forall|t: Seq<char>| a0.to_set().contains(t) <==> b0.to_set().contains(t) by {
            if a0.to_set().contains(t) {
                let i = choose|i: int| 0 <= i < a0.len() && a0[i] == t;
                assert(a[i] == t);
                assert(precedes(a[i], a[a.len() - 1]));
                lemma_precedes_exclusive(t, x);
                assert(a.to_set().contains(t));
                assert(b.to_set().contains(t));
                let j = choose|j: int| 0 <= j < b.len() && b[j] == t;
                assert(j < b.len() - 1);
                assert(b0[j] == t);
            }
            if b0.to_set().contains(t) {
                let j = choose|j: int| 0 <= j < b0.len() && b0[j] == t;
                assert(b[j] == t);
                assert(precedes(b[j], b[b.len() - 1]));
                lemma_precedes_exclusive(t, y);
                assert(b.to_set().contains(t));
                assert(a.to_set().contains(t));
                let i = choose|i: int| 0 <= i < a.len() && a[i] == t;
                assert(i < a.len() - 1);
                assert(a0[i] == t);
            }
        }
        assert(a0.to_set() =~= b0.to_set());
        lemma_ascending_determined(a0, b0);
        assert(a =~= a0.push(x));
        assert(b =~= b0.push(y));
    }
}

} // verus!
