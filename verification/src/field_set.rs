//! Sets of object keys.

use crate::order::{
    lemma_str_less_irreflexive, lemma_str_less_total, lemma_str_less_transitive, str_less,
    str_precedes,
};
use vstd::prelude::*;

verus! {

/// The strings of a vector, as contracts see them.
pub open spec fn texts(strings: Seq<String>) -> Seq<Seq<char>> {
    strings.map_values(|s: String| s@)
}

/// The keys of one object: a set of strings.
#[derive(Debug)]
pub struct FieldSet {
    keys: Vec<String>,
}

impl View for FieldSet {
    type V = Set<Seq<char>>;

    closed spec fn view(&self) -> Set<Seq<char>> {
        texts(self.keys@).to_set()
    }
}

impl Clone for FieldSet {
    fn clone(&self) -> (r: Self)
        ensures
            r@ == self@,
    {
        let keys = clone_strings(&self.keys);
        FieldSet { keys }
    }
}

/// Copies a vector of strings.
pub fn clone_strings(strings: &Vec<String>) -> (r: Vec<String>)
    ensures
        texts(r@) == texts(strings@),
{
    let mut r: Vec<String> = Vec::new();
    let mut i: usize = 0;
    while i < strings.len()
        invariant
            i <= strings.len(),
            r@.len() == i,
            forall|j: int| 0 <= j < i ==> r@[j]@ == strings@[j]@,
        decreases strings.len() - i,
    {
        r.push(strings[i].clone());
        i += 1;
    }
    assert(texts(r@) =~= texts(strings@));
    r
}

impl FieldSet {
    /// The set without keys.
    pub fn new() -> (r: FieldSet)
        ensures
            r@ == Set::<Seq<char>>::empty(),
    {
        let r = FieldSet { keys: Vec::new() };
        assert(r@ =~= Set::<Seq<char>>::empty());
        r
    }

    /// The set of the strings in `keys`.
    pub fn from_keys(keys: Vec<String>) -> (r: FieldSet)
        ensures
            r@ == texts(keys@).to_set(),
    {
        FieldSet { keys }
    }

    /// The keys of the set, each at least once, in no particular order.
    pub fn keys(&self) -> (r: &Vec<String>)
        ensures
            texts(r@).to_set() == self@,
    {
        &self.keys
    }

    /// Tells whether `key` is in the set.
    pub fn contains(&self, key: &String) -> (r: bool)
        ensures
            r == self@.contains(key@),
    {
        let mut i: usize = 0;
        while i < self.keys.len()
            invariant
                i <= self.keys.len(),
                forall|j: int| 0 <= j < i ==> self.keys@[j]@ != key@,
            decreases self.keys.len() - i,
        {
            if self.keys[i] == *key {
                assert(texts(self.keys@)[i as int] == key@);
                return true;
            }
            i += 1;
        }
        assert forall|j: int| 0 <= j < texts(self.keys@).len() implies texts(self.keys@)[j]
            != key@ by {}
        false
    }

    /// Adds `key` to the set, and tells whether it was new.
    pub fn insert(&mut self, key: String) -> (r: bool)
        ensures
            final(self)@ == old(self)@.insert(key@),
            r == !old(self)@.contains(key@),
    {
        if self.contains(&key) {
            assert(self@ =~= old(self)@.insert(key@));
            false
        } else {
            self.keys.push(key);
            assert(texts(self.keys@) =~= texts(old(self).keys@).push(key@));
            assert(self@ =~= old(self)@.insert(key@)) by {
                let before = texts(old(self).keys@);
                let after = texts(self.keys@);
                assert forall|k: Seq<char>| after.contains(k) <==> before.contains(k) || k
                    == key@ by {
                    if before.contains(k) {
                        let j = choose|j: int| 0 <= j < before.len() && before[j] == k;
                        assert(after[j] == k);
                    }
                    if k == key@ {
                        assert(after[before.len() as int] == k);
                    }
                }
            }
            true
        }
    }

    /// Tells whether every key of this set is in `other`.
    pub fn is_subset(&self, other: &FieldSet) -> (r: bool)
        ensures
            r == self@.subset_of(other@),
    {
        let mut i: usize = 0;
        while i < self.keys.len()
            invariant
                i <= self.keys.len(),
                forall|j: int| 0 <= j < i ==> other@.contains(#[trigger] self.keys@[j]@),
            decreases self.keys.len() - i,
        {
            if !other.contains(&self.keys[i]) {
                assert(texts(self.keys@)[i as int] == self.keys@[i as int]@);
                assert(self@.contains(self.keys@[i as int]@));
                return false;
            }
            i += 1;
        }
        assert forall|k: Seq<char>| self@.contains(k) implies other@.contains(k) by {
            let j = choose|j: int| 0 <= j < texts(self.keys@).len() && texts(self.keys@)[j] == k;
            assert(self.keys@[j]@ == k);
        }
        true
    }

    /// Adds every key of `other` to the set.
    pub fn extend(&mut self, other: &FieldSet)
        ensures
            final(self)@ == old(self)@.union(other@),
    {
        let mut i: usize = 0;
        assert(self@ =~= old(self)@.union(texts(other.keys@).take(0).to_set()));
        while i < other.keys.len()
            invariant
                i <= other.keys.len(),
                self@ == old(self)@.union(texts(other.keys@).take(i as int).to_set()),
            decreases other.keys.len() - i,
        {
            self.insert(other.keys[i].clone());
            proof {
                let all = texts(other.keys@);
                assert(all.take(i + 1) =~= all.take(i as int).push(all[i as int]));
                lemma_to_set_push(all.take(i as int), all[i as int]);
                assert(self@ =~= old(self)@.union(all.take(i + 1).to_set()));
            }
            i += 1;
        }
        assert(texts(other.keys@).take(other.keys.len() as int) =~= texts(other.keys@));
    }

    /// The keys of this set that are not in `other`.
    pub fn difference(&self, other: &FieldSet) -> (r: FieldSet)
        ensures
            r@ == self@.difference(other@),
    {
        let mut r = FieldSet::new();
        let mut i: usize = 0;
        assert(r@ =~= texts(self.keys@).take(0).to_set().difference(other@));
        while i < self.keys.len()
            invariant
                i <= self.keys.len(),
                r@ == texts(self.keys@).take(i as int).to_set().difference(other@),
            decreases self.keys.len() - i,
        {
            proof {
                let all = texts(self.keys@);
                assert(all.take(i + 1) =~= all.take(i as int).push(all[i as int]));
                lemma_to_set_push(all.take(i as int), all[i as int]);
            }
            if !other.contains(&self.keys[i]) {
                r.insert(self.keys[i].clone());
            }
            assert(r@ =~= texts(self.keys@).take(i + 1).to_set().difference(other@));
            i += 1;
        }
        assert(texts(self.keys@).take(self.keys.len() as int) =~= texts(self.keys@));
        r
    }

}

impl PartialEq for FieldSet {
    fn eq(&self, other: &FieldSet) -> (r: bool) {
        let r = self.is_subset(other) && other.is_subset(self);
        assert(r == (self@ =~= other@));
        r
    }
}

impl Eq for FieldSet {}

impl vstd::std_specs::cmp::PartialEqSpecImpl for FieldSet {
    open spec fn obeys_eq_spec() -> bool {
        true
    }

    open spec fn eq_spec(&self, other: &FieldSet) -> bool {
        self@ == other@
    }
}

/// Each string of `keys` precedes those behind it in the order of strings.
pub open spec fn strictly_ascending(keys: Seq<Seq<char>>) -> bool {
    forall|i: int, j: int| 0 <= i < j < keys.len() ==> str_less(keys[i], keys[j])
}

/// `keys` lists the strings of `set` in ascending order, each once.
pub open spec fn is_sorted_listing(keys: Seq<Seq<char>>, set: Set<Seq<char>>) -> bool {
    &&& strictly_ascending(keys)
    &&& keys.to_set() == set
}

/// A set has at most one sorted listing.
pub proof fn lemma_sorted_listing_unique(a: Seq<Seq<char>>, b: Seq<Seq<char>>, set: Set<Seq<char>>)
    requires
        is_sorted_listing(a, set),
        is_sorted_listing(b, set),
    ensures
        a == b,
    decreases a.len(),
{
    if a.len() == 0 {
        if b.len() > 0 {
            assert(b.to_set().contains(b[0]));
            assert(a.to_set().contains(b[0]));
        }
        assert(a =~= b);
    } else {
        assert(a.to_set().contains(a[0]));
        assert(b.to_set().contains(a[0]));
        assert(b.len() > 0);
        // The greatest string stands last in both listings.
        let x = a.last();
        let y = b.last();
        assert(a.to_set().contains(x));
        assert(b.to_set().contains(y));
        assert(b.contains(x));
        assert(a.contains(y));
        let ix = choose|i: int| 0 <= i < b.len() && b[i] == x;
        let iy = choose|i: int| 0 <= i < a.len() && a[i] == y;
        if x != y {
            lemma_str_less_irreflexive(x);
            lemma_str_less_irreflexive(y);
            assert(ix < b.len() - 1);
            assert(iy < a.len() - 1);
            assert(str_less(x, y));
            assert(str_less(y, x));
            lemma_str_less_transitive(x, y, x);
        }
        let a1 = a.drop_last();
        let b1 = b.drop_last();
        let rest = set.remove(x);
        assert forall|k: Seq<char>| a1.to_set().contains(k) <==> rest.contains(k) by {
            if a1.contains(k) {
                let i = choose|i: int| 0 <= i < a1.len() && a1[i] == k;
                assert(a[i] == k);
                assert(a.to_set().contains(k));
                assert(str_less(a[i], x));
                lemma_str_less_irreflexive(x);
            }
            if rest.contains(k) {
                assert(a.to_set().contains(k));
                let i = choose|i: int| 0 <= i < a.len() && a[i] == k;
                assert(a1[i] == k);
            }
        }
        assert forall|k: Seq<char>| b1.to_set().contains(k) <==> rest.contains(k) by {
            if b1.contains(k) {
                let i = choose|i: int| 0 <= i < b1.len() && b1[i] == k;
                assert(b[i] == k);
                assert(b.to_set().contains(k));
                assert(str_less(b[i], y));
                lemma_str_less_irreflexive(y);
            }
            if rest.contains(k) {
                assert(b.to_set().contains(k));
                let i = choose|i: int| 0 <= i < b.len() && b[i] == k;
                assert(b1[i] == k);
            }
        }
        assert(a1.to_set() =~= rest);
        assert(b1.to_set() =~= rest);
        lemma_sorted_listing_unique(a1, b1, rest);
        assert(a =~= a1.push(x));
        assert(b =~= b1.push(y));
    }
}

/// Puts `key` in its place in the ascending vector `keys`, unless it is there.
pub fn insert_sorted(keys: &mut Vec<String>, key: String)
    requires
        strictly_ascending(texts(old(keys)@)),
    ensures
        strictly_ascending(texts(final(keys)@)),
        texts(final(keys)@).to_set() == texts(old(keys)@).to_set().insert(key@),
{
    let ghost before = texts(keys@);
    let mut p: usize = 0;
    while p < keys.len() && str_precedes(keys[p].as_str(), key.as_str())
        invariant
            p <= keys.len(),
            keys@ == old(keys)@,
            forall|j: int| 0 <= j < p ==> str_less(#[trigger] keys@[j]@, key@),
        decreases keys.len() - p,
    {
        p += 1;
    }
    if p < keys.len() && keys[p] == key {
        assert(before[p as int] == key@);
        assert(before.to_set().contains(key@));
        assert(before.to_set() =~= before.to_set().insert(key@));
    } else {
        proof {
            if p < keys.len() {
                lemma_str_less_total(keys@[p as int]@, key@);
            }
        }
        keys.insert(p, key);
        let ghost after = texts(keys@);
        assert(after =~= before.insert(p as int, key@));
        assert forall|i: int, j: int| 0 <= i < j < after.len() implies str_less(
            after[i],
            after[j],
        ) by {
            if j < p {
                assert(after[i] == before[i] && after[j] == before[j]);
            } else if j == p {
                assert(after[i] == before[i]);
                assert(after[i] == old(keys)@[i]@);
            } else if i == p {
                assert(after[j] == before[j - 1]);
                if j - 1 > p {
                    assert(str_less(before[p as int], before[j - 1]));
                    lemma_str_less_transitive(key@, before[p as int], before[j - 1]);
                }
            } else if i < p {
                assert(after[i] == before[i] && after[j] == before[j - 1]);
            } else {
                assert(after[i] == before[i - 1] && after[j] == before[j - 1]);
            }
        }
        assert forall|k: Seq<char>| after.contains(k) <==> before.contains(k) || k == key@ by {
            if after.contains(k) {
                let i = choose|i: int| 0 <= i < after.len() && after[i] == k;
                if i < p {
                    assert(before[i] == k);
                } else if i > p {
                    assert(before[i - 1] == k);
                }
            }
            if before.contains(k) {
                let i = choose|i: int| 0 <= i < before.len() && before[i] == k;
                if i < p {
                    assert(after[i] == k);
                } else {
                    assert(after[i + 1] == k);
                }
            }
            if k == key@ {
                assert(after[p as int] == k);
            }
        }
        assert(after.to_set() =~= before.to_set().insert(key@));
    }
}

/// The keys of `set` in ascending order, each once.
pub fn sorted_keys(set: &FieldSet) -> (r: Vec<String>)
    ensures
        is_sorted_listing(texts(r@), set@),
{
    let keys = set.keys();
    let mut r: Vec<String> = Vec::new();
    let mut i: usize = 0;
    assert(texts(r@).to_set() =~= texts(keys@).take(0).to_set());
    while i < keys.len()
        invariant
            i <= keys.len(),
            strictly_ascending(texts(r@)),
            texts(r@).to_set() == texts(keys@).take(i as int).to_set(),
        decreases keys.len() - i,
    {
        insert_sorted(&mut r, keys[i].clone());
        proof {
            let all = texts(keys@);
            assert(all.take(i + 1) =~= all.take(i as int).push(all[i as int]));
            lemma_to_set_push(all.take(i as int), all[i as int]);
        }
        i += 1;
    }
    assert(texts(keys@).take(keys.len() as int) =~= texts(keys@));
    r
}

/// The set of a sequence with one more element is the set of the sequence
/// with that element.
pub proof fn lemma_to_set_push<T>(s: Seq<T>, x: T)
    ensures
        s.push(x).to_set() == s.to_set().insert(x),
{
    let t = s.push(x);
    assert forall|k: T| t.contains(k) <==> s.contains(k) || k == x by {
        if s.contains(k) {
            let i = choose|i: int| 0 <= i < s.len() && s[i] == k;
            assert(t[i] == k);
        }
        if k == x {
            assert(t[s.len() as int] == k);
        }
    }
    assert(t.to_set() =~= s.to_set().insert(x));
}

} // verus!
