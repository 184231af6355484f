//! A map from strings to values whose entries stay sorted by key, so that
//! walking it visits keys in ascending order and each key occurs once.
use vstd::prelude::*;
use crate::text::{compare, key_lt, lemma_lex_order_antisymmetric, lemma_lex_order_transitive, lemma_lex_order_zero};

verus! {

/// Keys strictly ascend along the entries (so no key repeats).
pub open spec fn sorted_keys<T>(e: Seq<(String, T)>) -> bool {
    forall|i: int, j: int| 0 <= i < j < e.len() ==> key_lt(#[trigger] e[i].0@, #[trigger] e[j].0@)
}

/// Some entry has key `k`.
pub open spec fn has_key<T>(e: Seq<(String, T)>, k: Seq<char>) -> bool {
    exists|i: int| 0 <= i < e.len() && (#[trigger] e[i]).0@ == k
}

/// The position of the entry with key `k` (meaningful when `has_key`).
pub open spec fn position<T>(e: Seq<(String, T)>, k: Seq<char>) -> int {
    choose|i: int| 0 <= i < e.len() && (#[trigger] e[i]).0@ == k
}

/// The value stored under `k`, if any.
pub open spec fn lookup<T>(e: Seq<(String, T)>, k: Seq<char>) -> Option<T> {
    if has_key(e, k) {
        Some(e[position(e, k)].1)
    } else {
        None
    }
}

/// The entries read as a map from key to value.
pub open spec fn as_map<T>(e: Seq<(String, T)>) -> Map<Seq<char>, T> {
    Map::new(|k: Seq<char>| has_key(e, k), |k: Seq<char>| lookup(e, k)->0)
}

/// The keys present, as a set.
pub open spec fn key_set<T>(e: Seq<(String, T)>) -> Set<Seq<char>> {
    Set::new(|k: Seq<char>| has_key(e, k))
}

/// The keys of the entries, in order.
pub open spec fn keys_of<T>(e: Seq<(String, T)>) -> Seq<Seq<char>> {
    e.map_values(|p: (String, T)| p.0@)
}

/// In sorted entries the entry with a given key is unique.
pub proof fn lemma_unique_position<T>(e: Seq<(String, T)>, i: int)
    requires
        sorted_keys(e),
        0 <= i < e.len(),
    ensures
        has_key(e, e[i].0@),
        position(e, e[i].0@) == i,
        lookup(e, e[i].0@) == Some(e[i].1),
{
    assert(has_key(e, e[i].0@));
    let p = position(e, e[i].0@);
    if p != i {
        lemma_lex_order_zero(e[p].0@, e[i].0@);
        if p < i {
            assert(key_lt(e[p].0@, e[i].0@));
        } else {
            assert(key_lt(e[i].0@, e[p].0@));
        }
    }
}

/// A prefix of sorted entries extended by one entry reads as one more insertion.
pub proof fn lemma_as_map_take<T>(e: Seq<(String, T)>, i: int)
    requires
        sorted_keys(e),
        0 <= i < e.len(),
    ensures
        as_map(e.take(i + 1)) == as_map(e.take(i)).insert(e[i].0@, e[i].1),
{
    let a = e.take(i + 1);
    let b = e.take(i);
    assert(sorted_keys(a));
    assert(sorted_keys(b));
    lemma_unique_position(a, i);
    assert forall|k: Seq<char>| #[trigger] has_key(a, k) <==> (has_key(b, k) || k == e[i].0@) by {
        if has_key(b, k) {
            let p = position(b, k);
            assert(a[p] == b[p]);
        }
        if has_key(a, k) && k != e[i].0@ {
            let p = position(a, k);
            assert(p != i);
            assert(b[p] == a[p]);
        }
    }
    assert forall|k: Seq<char>| #[trigger] has_key(b, k) && k != e[i].0@ implies lookup(a, k) == lookup(b, k) by {
        let p = position(b, k);
        lemma_unique_position(b, p);
        assert(a[p] == b[p]);
        lemma_unique_position(a, p);
    }
    assert(as_map(a) =~= as_map(b).insert(e[i].0@, e[i].1));
}

/// The keys of finitely many entries form a finite set.
pub proof fn lemma_key_set_finite<T>(e: Seq<(String, T)>)
    ensures
        key_set(e).finite(),
        key_set(e) == keys_of(e).to_set(),
{
    assert forall|k: Seq<char>| #[trigger] key_set(e).contains(k) <==> keys_of(e).to_set().contains(k) by {
        if key_set(e).contains(k) {
            let p = position(e, k);
            assert(keys_of(e)[p] == k);
        }
        if keys_of(e).to_set().contains(k) {
            let p = choose|p: int| 0 <= p < keys_of(e).len() && keys_of(e)[p] == k;
            assert(e[p].0@ == k);
        }
    }
    assert(key_set(e) =~= keys_of(e).to_set());
    vstd::seq_lib::seq_to_set_is_finite(keys_of(e));
}

/// A map from strings to values, kept sorted by key.
#[derive(Debug)]
pub struct KeyMap<T> {
    items: Vec<(String, T)>,
}

impl<T> View for KeyMap<T> {
    type V = Seq<(String, T)>;

    closed spec fn view(&self) -> Seq<(String, T)> {
        self.items@
    }
}

impl<T> KeyMap<T> {
    #[verifier::type_invariant]
    closed spec fn well_formed(self) -> bool {
        sorted_keys(self.items@)
    }

    /// Brings the sortedness of an existing map into a proof.
    pub fn note_sorted(&self)
        ensures
            sorted_keys(self@),
    {
        proof {
            use_type_invariant(self);
        }
    }

    /// The empty map.
    pub fn new() -> (m: Self)
        ensures
            m@ == Seq::<(String, T)>::empty(),
            as_map(m@) == Map::<Seq<char>, T>::empty(),
    {
        assert(as_map(Seq::<(String, T)>::empty()) =~= Map::<Seq<char>, T>::empty());
        KeyMap { items: Vec::new() }
    }

    pub fn len(&self) -> (n: usize)
        ensures
            n == self@.len(),
    {
        self.items.len()
    }

    pub fn is_empty(&self) -> (b: bool)
        ensures
            b == (self@.len() == 0),
    {
        self.items.len() == 0
    }

    /// The key of the `i`-th entry in ascending key order.
    pub fn key_at(&self, i: usize) -> (k: &String)
        requires
            i < self@.len(),
        ensures
            *k == self@[i as int].0,
    {
        &self.items[i].0
    }

    /// The value of the `i`-th entry in ascending key order.
    pub fn value_at(&self, i: usize) -> (v: &T)
        requires
            i < self@.len(),
        ensures
            *v == self@[i as int].1,
    {
        &self.items[i].1
    }

    /// Appends an entry whose key sorts after every key already present.
    pub fn push_last(&mut self, key: String, value: T)
        requires
            old(self)@.len() == 0 || key_lt(old(self)@.last().0@, key@),
        ensures
            final(self)@ == old(self)@.push((key, value)),
    {
        proof {
            use_type_invariant(&*self);
        }
        let ghost before = self@;
        let mut items: Vec<(String, T)> = Vec::new();
        std::mem::swap(&mut items, &mut self.items);
        items.push((key, value));
        proof {
            assert(sorted_keys(items@)) by {
                assert forall|a: int, b: int| 0 <= a < b < items@.len() implies key_lt(
                    #[trigger] items@[a].0@,
                    #[trigger] items@[b].0@,
                ) by {
                    if b < before.len() {
                        assert(key_lt(before[a].0@, before[b].0@));
                    } else if a < before.len() - 1 {
                        assert(key_lt(before[a].0@, before.last().0@));
                        lemma_lex_order_transitive(before[a].0@, before.last().0@, key@);
                    }
                }
            }
        }
        self.items = items;
    }

    /// The entries in ascending key order.
    pub fn into_entries(self) -> (r: Vec<(String, T)>)
        ensures
            r@ == self@,
    {
        proof {
            use_type_invariant(&self);
        }
        let KeyMap { items } = self;
        items
    }

    /// Finds the entry for `key`, or the index where it would be inserted.
    fn search(&self, key: &str) -> (r: (bool, usize))
        ensures
            r.1 <= self@.len(),
            r.0 ==> r.1 < self@.len() && self@[r.1 as int].0@ == key@,
            forall|j: int| 0 <= j < r.1 ==> key_lt(#[trigger] self@[j].0@, key@),
            !r.0 ==> forall|j: int| r.1 <= j < self@.len() ==> key_lt(key@, #[trigger] self@[j].0@),
    {
        proof {
            use_type_invariant(self);
        }
        let n = self.items.len();
        let mut i: usize = 0;
        while i < n
            invariant
                n == self@.len(),
                self@ == self.items@,
                sorted_keys(self@),
                i <= n,
                forall|j: int| 0 <= j < i ==> key_lt(#[trigger] self@[j].0@, key@),
            decreases n - i,
        {
            let c = compare(self.items[i].0.as_str(), key);
            if c == 0 {
                proof {
                    lemma_lex_order_zero(self@[i as int].0@, key@);
                }
                return (true, i);
            }
            if c > 0 {
                proof {
                    lemma_lex_order_antisymmetric(self@[i as int].0@, key@);
                    assert forall|j: int| i <= j < self@.len() implies key_lt(
                        key@,
                        #[trigger] self@[j].0@,
                    ) by {
                        if j > i {
                            assert(key_lt(self@[i as int].0@, self@[j].0@));
                            lemma_lex_order_transitive(key@, self@[i as int].0@, self@[j].0@);
                        }
                    }
                }
                return (false, i);
            }
            i = i + 1;
        }
        (false, i)
    }

    /// Whether `key` is present.
    pub fn contains_key(&self, key: &str) -> (b: bool)
        ensures
            b == has_key(self@, key@),
    {
        let (found, i) = self.search(key);
        proof {
            if !found && has_key(self@, key@) {
                let p = position(self@, key@);
                lemma_lex_order_zero(self@[p].0@, key@);
                if p < i {
                    assert(key_lt(self@[p].0@, key@));
                } else {
                    assert(key_lt(key@, self@[p].0@));
                    lemma_lex_order_antisymmetric(key@, self@[p].0@);
                }
            }
        }
        found
    }

    /// The value stored under `key`, if any.
    pub fn get(&self, key: &str) -> (r: Option<&T>)
        ensures
            match r {
                Some(v) => lookup(self@, key@) == Some(*v),
                None => lookup(self@, key@).is_none(),
            },
    {
        proof {
            use_type_invariant(self);
        }
        let (found, i) = self.search(key);
        if found {
            proof {
                lemma_unique_position(self@, i as int);
            }
            Some(&self.items[i].1)
        } else {
            proof {
                if has_key(self@, key@) {
                    let p = position(self@, key@);
                    lemma_lex_order_zero(self@[p].0@, key@);
                    if p < i {
                        assert(key_lt(self@[p].0@, key@));
                    } else {
                        assert(key_lt(key@, self@[p].0@));
                        lemma_lex_order_antisymmetric(key@, self@[p].0@);
                    }
                }
            }
            None
        }
    }

    /// Stores `value` under `key`, replacing and returning any previous value.
    pub fn insert(&mut self, key: String, value: T) -> (old_value: Option<T>)
        ensures
            old_value == lookup(old(self)@, key@),
            lookup(final(self)@, key@) == Some(value),
            forall|k: Seq<char>| k != key@ ==> lookup(#[trigger] final(self)@, k) == lookup(old(self)@, k),
            forall|k: Seq<char>| has_key(final(self)@, k) <==> (k == key@ || has_key(old(self)@, k)),
            as_map(final(self)@) == as_map(old(self)@).insert(key@, value),
            has_key(old(self)@, key@) ==> final(self)@.len() == old(self)@.len(),
            !has_key(old(self)@, key@) ==> final(self)@.len() == old(self)@.len() + 1,
    {
        proof {
            use_type_invariant(&*self);
        }
        let ghost before = self@;
        let (found, i) = self.search(key.as_str());
        if found {
            proof {
                lemma_unique_position(before, i as int);
            }
            let mut items: Vec<(String, T)> = Vec::new();
            std::mem::swap(&mut items, &mut self.items);
            let previous = items.remove(i);
            items.insert(i, (key, value));
            proof {
                assert(items@ == before.update(i as int, (key, value)));
                assert(sorted_keys(items@)) by {
                    assert forall|a: int, b: int| 0 <= a < b < items@.len() implies key_lt(
                        #[trigger] items@[a].0@,
                        #[trigger] items@[b].0@,
                    ) by {
                        assert(key_lt(before[a].0@, before[b].0@));
                    }
                }
            }
            self.items = items;
            proof {
                let after = self@;
                assert(after == before.update(i as int, (key, value)));
                assert(sorted_keys(after)) by {
                    assert forall|a: int, b: int| 0 <= a < b < after.len() implies key_lt(
                        #[trigger] after[a].0@,
                        #[trigger] after[b].0@,
                    ) by {
                        assert(key_lt(before[a].0@, before[b].0@));
                    }
                }
                lemma_unique_position(after, i as int);
                assert forall|k: Seq<char>| k != key@ implies lookup(
                    #[trigger] self@,
                    k,
                ) == lookup(before, k) by {
                    if has_key(before, k) {
                        let p = position(before, k);
                        lemma_unique_position(before, p);
                        assert(p != i);
                        assert(after[p] == before[p]);
                        lemma_unique_position(after, p);
                    }
                    if has_key(after, k) {
                        let p = position(after, k);
                        assert(p != i);
                        assert(before[p] == after[p]);
                    }
                }
                assert forall|k: Seq<char>| has_key(self@, k) <==> (k == key@ || has_key(before, k)) by {
                    if has_key(before, k) {
                        let p = position(before, k);
                        if p != i {
                            assert(after[p] == before[p]);
                        }
                    }
                    if has_key(after, k) {
                        let p = position(after, k);
                        if p != i {
                            assert(before[p] == after[p]);
                        }
                    }
                }
                assert(as_map(self@) =~= as_map(before).insert(key@, value)) by {
                    assert forall|k: Seq<char>| #[trigger] has_key(self@, k) implies lookup(self@, k)->0
                        == as_map(before).insert(key@, value)[k] by {
                        if k != key@ {
                            assert(lookup(self@, k) == lookup(before, k));
                        }
                    }
                }
            }
            Some(previous.1)
        } else {
            let mut items: Vec<(String, T)> = Vec::new();
            std::mem::swap(&mut items, &mut self.items);
            items.insert(i, (key, value));
            proof {
                let after = items@;
                assert(after == before.insert(i as int, (key, value)));
                assert(sorted_keys(after)) by {
                    assert forall|a: int, b: int| 0 <= a < b < after.len() implies key_lt(
                        #[trigger] after[a].0@,
                        #[trigger] after[b].0@,
                    ) by {
                        if a < i && b < i {
                            assert(key_lt(before[a].0@, before[b].0@));
                        } else if a < i && b == i {
                        } else if a < i && b > i {
                            assert(key_lt(before[a].0@, before[b - 1].0@));
                        } else if a == i {
                            assert(key_lt(key@, before[b - 1].0@));
                        } else {
                            assert(key_lt(before[a - 1].0@, before[b - 1].0@));
                        }
                    }
                }
            }
            self.items = items;
            proof {
                let after = self@;
                assert(after == before.insert(i as int, (key, value)));
                assert(sorted_keys(after)) by {
                    assert forall|a: int, b: int| 0 <= a < b < after.len() implies key_lt(
                        #[trigger] after[a].0@,
                        #[trigger] after[b].0@,
                    ) by {
                        if a < i && b < i {
                            assert(key_lt(before[a].0@, before[b].0@));
                        } else if a < i && b == i {
                        } else if a < i && b > i {
                            assert(key_lt(before[a].0@, before[b - 1].0@));
                        } else if a == i {
                            assert(key_lt(key@, before[b - 1].0@));
                        } else {
                            assert(key_lt(before[a - 1].0@, before[b - 1].0@));
                        }
                    }
                }
                lemma_unique_position(after, i as int);
                if has_key(before, key@) {
                    let p = position(before, key@);
                    lemma_lex_order_zero(before[p].0@, key@);
                    if p < i {
                        assert(key_lt(before[p].0@, key@));
                    } else {
                        assert(key_lt(key@, before[p].0@));
                        lemma_lex_order_antisymmetric(key@, before[p].0@);
                    }
                }
                assert forall|k: Seq<char>| k != key@ implies lookup(
                    #[trigger] self@,
                    k,
                ) == lookup(before, k) by {
                    if has_key(before, k) {
                        let p = position(before, k);
                        lemma_unique_position(before, p);
                        let q = if p < i { p } else { p + 1 };
                        assert(after[q] == before[p]);
                        lemma_unique_position(after, q);
                    }
                    if has_key(after, k) {
                        let q = position(after, k);
                        assert(q != i);
                        let p = if q < i { q } else { q - 1 };
                        assert(before[p] == after[q]);
                    }
                }
                assert forall|k: Seq<char>| has_key(self@, k) <==> (k == key@ || has_key(before, k)) by {
                    if has_key(before, k) {
                        let p = position(before, k);
                        let q = if p < i { p } else { p + 1 };
                        assert(after[q] == before[p]);
                    }
                    if has_key(after, k) && k != key@ {
                        let q = position(after, k);
                        let p = if q < i { q } else { q - 1 };
                        assert(before[p] == after[q]);
                    }
                }
                assert(as_map(self@) =~= as_map(before).insert(key@, value)) by {
                    assert forall|k: Seq<char>| #[trigger] has_key(self@, k) implies lookup(self@, k)->0
                        == as_map(before).insert(key@, value)[k] by {
                        if k != key@ {
                            assert(lookup(self@, k) == lookup(before, k));
                        }
                    }
                }
            }
            None
        }
    }

    /// Removes and returns the value stored under `key`, if any.
    pub fn remove(&mut self, key: &str) -> (old_value: Option<T>)
        ensures
            old_value == lookup(old(self)@, key@),
            lookup(final(self)@, key@).is_none(),
            forall|k: Seq<char>| k != key@ ==> lookup(#[trigger] final(self)@, k) == lookup(old(self)@, k),
            as_map(final(self)@) == as_map(old(self)@).remove(key@),
    {
        proof {
            use_type_invariant(&*self);
        }
        let ghost before = self@;
        let (found, i) = self.search(key);
        if found {
            proof {
                lemma_unique_position(before, i as int);
            }
            let mut items: Vec<(String, T)> = Vec::new();
            std::mem::swap(&mut items, &mut self.items);
            let entry = items.remove(i);
            proof {
                let after = items@;
                assert(after == before.remove(i as int));
                assert(sorted_keys(after)) by {
                    assert forall|a: int, b: int| 0 <= a < b < after.len() implies key_lt(
                        #[trigger] after[a].0@,
                        #[trigger] after[b].0@,
                    ) by {
                        let a2 = if a < i { a } else { a + 1 };
                        let b2 = if b < i { b } else { b + 1 };
                        assert(key_lt(before[a2].0@, before[b2].0@));
                    }
                }
            }
            self.items = items;
            proof {
                let after = self@;
                assert(after == before.remove(i as int));
                assert(sorted_keys(after)) by {
                    assert forall|a: int, b: int| 0 <= a < b < after.len() implies key_lt(
                        #[trigger] after[a].0@,
                        #[trigger] after[b].0@,
                    ) by {
                        let a2 = if a < i { a } else { a + 1 };
                        let b2 = if b < i { b } else { b + 1 };
                        assert(key_lt(before[a2].0@, before[b2].0@));
                    }
                }
                if has_key(after, key@) {
                    let q = position(after, key@);
                    let p = if q < i { q } else { q + 1 };
                    assert(before[p] == after[q]);
                    lemma_unique_position(before, p);
                }
                assert forall|k: Seq<char>| k != key@ implies lookup(
                    #[trigger] self@,
                    k,
                ) == lookup(before, k) by {
                    if has_key(before, k) {
                        let p = position(before, k);
                        lemma_unique_position(before, p);
                        assert(p != i);
                        let q = if p < i { p } else { p - 1 };
                        assert(after[q] == before[p]);
                        lemma_unique_position(after, q);
                    }
                    if has_key(after, k) {
                        let q = position(after, k);
                        let p = if q < i { q } else { q + 1 };
                        assert(before[p] == after[q]);
                    }
                }
                assert(as_map(self@) =~= as_map(before).remove(key@)) by {
                    assert forall|k: Seq<char>| #[trigger] has_key(self@, k) <==> as_map(before).remove(key@).dom().contains(k) by {
                        if k != key@ {
                            assert(lookup(self@, k) == lookup(before, k));
                        }
                    }
                    assert forall|k: Seq<char>| #[trigger] has_key(self@, k) implies lookup(self@, k)->0
                        == as_map(before).remove(key@)[k] by {
                        if k != key@ {
                            assert(lookup(self@, k) == lookup(before, k));
                        }
                    }
                }
            }
            Some(entry.1)
        } else {
            proof {
                if has_key(before, key@) {
                    let p = position(before, key@);
                    lemma_lex_order_zero(before[p].0@, key@);
                    if p < i {
                        assert(key_lt(before[p].0@, key@));
                    } else {
                        assert(key_lt(key@, before[p].0@));
                        lemma_lex_order_antisymmetric(key@, before[p].0@);
                    }
                }
                assert(as_map(before) =~= as_map(before).remove(key@));
            }
            None
        }
    }
}

impl<T: Clone> KeyMap<T> {
    /// An entry-by-entry copy with the same keys in the same order.
    pub fn copied(&self) -> (r: Self)
        ensures
            r@.len() == self@.len(),
            forall|i: int|
                0 <= i < self@.len() ==> (#[trigger] r@[i]).0 == self@[i].0 && cloned(
                    self@[i].1,
                    r@[i].1,
                ),
    {
        proof {
            use_type_invariant(self);
        }
        let mut items: Vec<(String, T)> = Vec::new();
        let n = self.items.len();
        let mut i: usize = 0;
        while i < n
            invariant
                n == self@.len(),
                self@ == self.items@,
                i <= n,
                items@.len() == i,
                forall|j: int|
                    0 <= j < i ==> (#[trigger] items@[j]).0 == self@[j].0 && cloned(
                        self@[j].1,
                        items@[j].1,
                    ),
            decreases n - i,
        {
            let key = self.items[i].0.clone();
            let value = self.items[i].1.clone();
            items.push((key, value));
            i = i + 1;
        }
        proof {
            use_type_invariant(self);
            assert(sorted_keys(items@)) by {
                assert forall|a: int, b: int| 0 <= a < b < items@.len() implies key_lt(
                    #[trigger] items@[a].0@,
                    #[trigger] items@[b].0@,
                ) by {
                    assert(key_lt(self@[a].0@, self@[b].0@));
                }
            }
        }
        KeyMap { items }
    }
}

impl KeyMap<String> {
    /// A copy with the same entries.
    pub fn duplicate(&self) -> (r: Self)
        ensures
            r@ == self@,
    {
        let r = self.copied();
        assert(r@ =~= self@);
        r
    }

    /// Stores every entry of `other`, its values replacing those of equal keys here.
    pub fn extend_from(&mut self, other: &KeyMap<String>)
        ensures
            as_map(final(self)@) == as_map(old(self)@).union_prefer_right(as_map(other@)),
    {
        other.note_sorted();
        let ghost start = as_map(self@);
        let n = other.len();
        let mut i: usize = 0;
        assert(as_map(other@.take(0)) =~= Map::<Seq<char>, String>::empty());
        assert(start =~= start.union_prefer_right(as_map(other@.take(0))));
        while i < n
            invariant
                n == other@.len(),
                sorted_keys(other@),
                i <= n,
                as_map(self@) == start.union_prefer_right(as_map(other@.take(i as int))),
            decreases n - i,
        {
            let key = other.key_at(i).clone();
            let value = other.value_at(i).clone();
            self.insert(key, value);
            proof {
                lemma_as_map_take(other@, i as int);
                assert(as_map(self@) =~= start.union_prefer_right(as_map(other@.take(i + 1))));
            }
            i = i + 1;
        }
        assert(other@.take(n as int) =~= other@);
    }
}

impl<T: Clone> Clone for KeyMap<T> {
    fn clone(&self) -> Self {
        self.copied()
    }
}

} // verus!
