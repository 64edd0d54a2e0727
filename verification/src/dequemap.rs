//! An ordered map that remembers arrival: map access by key together with
//! deque access by position. Entries keep the order they were added in;
//! `insert` updates a present key in place, while `push_back` and
//! `push_front` move it to an end. Lookup is linear in the entry count.
//!
//! The contracts speak about keys only when `K`'s equality behaves like
//! equality ([`eq_reliable`]); every key type whose `==` is plain structural
//! equality, such as the integers, satisfies that.

use vstd::prelude::*;

verus! {

/// Whether `K`'s `==` coincides with logical equality and is a congruence —
/// true of the primitive types and of well-behaved derived equalities.
pub open spec fn eq_reliable<K: PartialEq>() -> bool {
    vstd::laws_eq::obeys_concrete_eq::<K>()
}

/// The position of the first entry with key `k`, or -1 when no entry has it.
pub open spec fn key_index<K, V>(s: Seq<(K, V)>, k: K) -> int
    decreases s.len(),
{
    if s.len() == 0 {
        -1
    } else if s[0].0 == k {
        0
    } else {
        let r = key_index(s.drop_first(), k);
        if r < 0 {
            -1
        } else {
            r + 1
        }
    }
}

/// Whether some entry has key `k`.
pub open spec fn has_key<K, V>(s: Seq<(K, V)>, k: K) -> bool {
    key_index(s, k) >= 0
}

/// No two entries share a key.
pub open spec fn no_dup_keys<K, V>(s: Seq<(K, V)>) -> bool {
    forall|i: int, j: int|
        0 <= i < j < s.len() ==> (#[trigger] s[i]).0 != (#[trigger] s[j]).0
}

/// The entries with the one keyed `k`, if any, taken out; order kept.
pub open spec fn spec_remove_key<K, V>(s: Seq<(K, V)>, k: K) -> Seq<(K, V)> {
    if has_key(s, k) {
        s.remove(key_index(s, k))
    } else {
        s
    }
}

/// What `insert` leaves: a present key keeps its place (and its stored key)
/// with the value replaced; an absent one joins at the back.
pub open spec fn spec_insert<K, V>(s: Seq<(K, V)>, k: K, v: V) -> Seq<(K, V)> {
    if has_key(s, k) {
        s.update(key_index(s, k), (s[key_index(s, k)].0, v))
    } else {
        s.push((k, v))
    }
}

/// Relies on std's `Vec::shrink_to_fit`: it only gives allocation back and
/// leaves the elements untouched.
#[verifier::external_body]
fn vec_shrink_to_fit<T>(v: &mut Vec<T>)
    ensures
        final(v)@ == old(v)@,
{
    v.shrink_to_fit()
}

/// Relies on std's `Vec::capacity`: the allocation holds at least the
/// elements it already contains.
#[verifier::external_body]
fn vec_capacity<T>(v: &Vec<T>) -> (c: usize)
    ensures
        c >= v@.len(),
{
    v.capacity()
}

/// Deque and map in one: entries are key-value pairs kept in arrival order
/// and reachable by key.
#[derive(Debug, Clone, PartialEq, Eq, PartialOrd, Ord)]
pub struct DequeBTreeMap<K, V> {
    items: Vec<(K, V)>,
}

impl<K: Ord, V> Default for DequeBTreeMap<K, V> {
    /// An empty map.
    fn default() -> (m: Self)
        ensures
            m@ == Seq::<(K, V)>::empty(),
            m.wf(),
    {
        DequeBTreeMap::new()
    }
}

impl<K, V> View for DequeBTreeMap<K, V> {
    type V = Seq<(K, V)>;

    closed spec fn view(&self) -> Seq<(K, V)> {
        self.items@
    }
}

/// Compares two keys with `K`'s own equality.
fn keys_equal<K: PartialEq>(a: &K, b: &K) -> (r: bool)
    ensures
        eq_reliable::<K>() ==> r == (a == b),
{
    proof {
        reveal(vstd::laws_eq::obeys_concrete_eq);
    }
    a.eq(b)
}

impl<K: Ord, V> DequeBTreeMap<K, V> {
    /// Map invariant: while `K`'s equality is reliable, no two entries share
    /// a key.
    pub open spec fn wf(&self) -> bool {
        eq_reliable::<K>() ==> no_dup_keys(self@)
    }

    /// An empty map.
    pub fn new() -> (m: Self)
        ensures
            m@ == Seq::<(K, V)>::empty(),
            m.wf(),
    {
        let m = DequeBTreeMap { items: Vec::new() };
        proof {
            assert(m@ =~= Seq::<(K, V)>::empty());
        }
        m
    }

    /// An empty map with room for `capacity` entries.
    pub fn with_capacity(capacity: usize) -> (m: Self)
        ensures
            m@ == Seq::<(K, V)>::empty(),
            m.wf(),
    {
        let m = DequeBTreeMap { items: Vec::with_capacity(capacity) };
        proof {
            assert(m@ =~= Seq::<(K, V)>::empty());
        }
        m
    }

    /// How many entries the map holds.
    pub fn len(&self) -> (n: usize)
        ensures
            n == self@.len(),
    {
        self.items.len()
    }

    /// Whether the map holds no entry.
    pub fn is_empty(&self) -> (b: bool)
        ensures
            b == (self@.len() == 0),
    {
        self.items.is_empty()
    }

    /// Removes every entry.
    pub fn clear(&mut self)
        ensures
            final(self)@ == Seq::<(K, V)>::empty(),
            final(self).wf(),
    {
        self.items.clear();
    }

    /// Asks for room for `additional` more entries.
    pub fn reserve(&mut self, additional: usize)
        ensures
            final(self)@ == old(self)@,
    {
        self.items.reserve(additional);
    }

    /// Gives unused room back to the allocator.
    pub fn shrink_to_fit(&mut self)
        ensures
            final(self)@ == old(self)@,
    {
        vec_shrink_to_fit(&mut self.items);
    }

    /// How many entries the map can hold without reallocating.
    pub fn capacity(&mut self) -> (c: usize)
        ensures
            c >= old(self)@.len(),
            final(self)@ == old(self)@,
    {
        vec_capacity(&self.items)
    }

    /// The position of the entry keyed `k`, if one is.
    fn find_index(&self, k: &K) -> (r: Option<usize>)
        ensures
            r matches Some(i) ==> i < self@.len(),
            eq_reliable::<K>() ==> match r {
                Some(i) => key_index(self@, *k) == i,
                None => key_index(self@, *k) < 0,
            },
    {
        let n = self.items.len();
        let mut i: usize = 0;
        while i < n
            invariant
                n == self@.len(),
                i <= n,
                eq_reliable::<K>() ==> forall|j: int| 0 <= j < i ==> (#[trigger] self@[j]).0 != *k,
            decreases n - i,
        {
            if keys_equal(&self.items[i].0, k) {
                proof {
                    if eq_reliable::<K>() {
                        lemma_key_index_at(self@, *k, i as int);
                    }
                }
                return Some(i);
            }
            i = i + 1;
        }
        proof {
            if eq_reliable::<K>() {
                lemma_key_index_none(self@, *k);
            }
        }
        None
    }

    /// Whether an entry is keyed `k`.
    pub fn contains_key(&self, k: &K) -> (b: bool)
        ensures
            eq_reliable::<K>() ==> b == has_key(self@, *k),
    {
        match self.find_index(k) {
            Some(_) => true,
            None => false,
        }
    }

    /// The value keyed `k`, if one is.
    pub fn get(&self, k: &K) -> (r: Option<&V>)
        ensures
            eq_reliable::<K>() ==> match r {
                Some(v) => has_key(self@, *k) && *v == self@[key_index(self@, *k)].1,
                None => !has_key(self@, *k),
            },
    {
        match self.find_index(k) {
            Some(i) => Some(&self.items[i].1),
            None => None,
        }
    }

    /// The stored key and value keyed `k`, if an entry is.
    pub fn get_key_value(&self, key: &K) -> (r: Option<(&K, &V)>)
        ensures
            eq_reliable::<K>() ==> match r {
                Some(e) => has_key(self@, *key) && (*e.0, *e.1) == self@[key_index(self@, *key)],
                None => !has_key(self@, *key),
            },
    {
        match self.find_index(key) {
            Some(i) => {
                let e = &self.items[i];
                Some((&e.0, &e.1))
            },
            None => None,
        }
    }

    /// Leave to the caller a mutable hold on the value keyed `k`, if one is.
    pub fn get_mut(&mut self, k: &K) -> (r: Option<&mut V>)
        requires
            old(self).wf(),
        ensures
            eq_reliable::<K>() ==> match r {
                Some(v) => {
                    &&& has_key(old(self)@, *k)
                    &&& *v == old(self)@[key_index(old(self)@, *k)].1
                    &&& final(self)@ == old(self)@.update(
                        key_index(old(self)@, *k),
                        (old(self)@[key_index(old(self)@, *k)].0, *final(v)),
                    )
                },
                None => !has_key(old(self)@, *k) && final(self)@ == old(self)@,
            },
            final(self).wf(),
    {
        match self.find_index(k) {
            Some(i) => {
                proof {
                    if eq_reliable::<K>() {
                        lemma_key_index_props(old(self)@, *k);
                        lemma_update_value_keeps_keys(old(self)@, i as int);
                    }
                }
                Some(&mut self.items[i].1)
            },
            None => None,
        }
    }

    /// Takes out the entry keyed `k` and returns its value; the entries
    /// behind it move up. Returns nothing when no entry is keyed `k`.
    pub fn remove(&mut self, k: &K) -> (r: Option<V>)
        requires
            old(self).wf(),
        ensures
            final(self).wf(),
            eq_reliable::<K>() ==> {
                &&& final(self)@ == spec_remove_key(old(self)@, *k)
                &&& match r {
                    Some(v) => has_key(old(self)@, *k) && v == old(self)@[key_index(
                        old(self)@,
                        *k,
                    )].1,
                    None => !has_key(old(self)@, *k),
                }
            },
    {
        match self.find_index(k) {
            Some(i) => {
                proof {
                    if eq_reliable::<K>() {
                        lemma_key_index_props(old(self)@, *k);
                        lemma_remove_keeps_no_dup(old(self)@, i as int);
                    }
                }
                let (_, v) = self.items.remove(i);
                Some(v)
            },
            None => None,
        }
    }

    /// The oldest entry, if any.
    pub fn front(&self) -> (r: Option<(&K, &V)>)
        ensures
            match r {
                Some(e) => self@.len() > 0 && (*e.0, *e.1) == self@[0],
                None => self@.len() == 0,
            },
    {
        if self.items.len() == 0 {
            None
        } else {
            let e = &self.items[0];
            Some((&e.0, &e.1))
        }
    }

    /// The newest entry, if any.
    pub fn back(&self) -> (r: Option<(&K, &V)>)
        ensures
            match r {
                Some(e) => self@.len() > 0 && (*e.0, *e.1) == self@[self@.len() - 1],
                None => self@.len() == 0,
            },
    {
        let n = self.items.len();
        if n == 0 {
            None
        } else {
            let e = &self.items[n - 1];
            Some((&e.0, &e.1))
        }
    }

    /// Takes out and returns the oldest entry, if any.
    pub fn pop_front(&mut self) -> (r: Option<(K, V)>)
        requires
            old(self).wf(),
        ensures
            final(self).wf(),
            match r {
                Some(e) => old(self)@.len() > 0 && e == old(self)@[0] && final(self)@ == old(
                    self,
                ).view().drop_first(),
                None => old(self)@.len() == 0 && final(self)@ == old(self)@,
            },
    {
        proof {
            if eq_reliable::<K>() && old(self)@.len() > 0 {
                lemma_remove_keeps_no_dup(old(self)@, 0);
            }
        }
        if self.items.len() == 0 {
            None
        } else {
            let e = self.items.remove(0);
            proof {
                assert(self@ =~= old(self)@.drop_first());
            }
            Some(e)
        }
    }

    /// Takes out and returns the newest entry, if any.
    pub fn pop_back(&mut self) -> (r: Option<(K, V)>)
        requires
            old(self).wf(),
        ensures
            final(self).wf(),
            match r {
                Some(e) => old(self)@.len() > 0 && e == old(self)@[old(self)@.len() - 1]
                    && final(self)@ == old(self)@.drop_last(),
                None => old(self)@.len() == 0 && final(self)@ == old(self)@,
            },
    {
        let r = self.items.pop();
        proof {
            if old(self)@.len() > 0 {
                assert(self@ =~= old(self)@.drop_last());
            }
        }
        r
    }

    /// The value at position `i` in arrival order.
    pub fn index(&self, i: usize) -> (v: &V)
        requires
            i < self@.len(),
        ensures
            *v == self@[i as int].1,
    {
        &self.items[i].1
    }

    /// A mutable hold on the value at position `i` in arrival order.
    pub fn index_mut(&mut self, i: usize) -> (v: &mut V)
        requires
            old(self).wf(),
            i < old(self)@.len(),
        ensures
            *v == old(self)@[i as int].1,
            final(self)@ == old(self)@.update(i as int, (old(self)@[i as int].0, *final(v))),
            final(self).wf(),
    {
        proof {
            if eq_reliable::<K>() {
                lemma_update_value_keeps_keys(old(self)@, i as int);
            }
        }
        &mut self.items[i].1
    }
}

impl<K: Ord + Clone, V> DequeBTreeMap<K, V> {
    /// Keyed insertion: a present key keeps its place and its stored key and
    /// only the value changes, the old one returned; an absent key joins at
    /// the back with nothing returned.
    pub fn insert(&mut self, key: K, value: V) -> (r: Option<V>)
        requires
            old(self).wf(),
        ensures
            final(self).wf(),
            eq_reliable::<K>() ==> {
                &&& final(self)@ == spec_insert(old(self)@, key, value)
                &&& match r {
                    Some(v) => has_key(old(self)@, key) && v == old(self)@[key_index(
                        old(self)@,
                        key,
                    )].1,
                    None => !has_key(old(self)@, key),
                }
            },
    {
        match self.find_index(&key) {
            Some(i) => {
                proof {
                    if eq_reliable::<K>() {
                        lemma_key_index_props(old(self)@, key);
                        lemma_update_value_keeps_keys(old(self)@, i as int);
                    }
                }
                let (k0, v0) = self.items.remove(i);
                self.items.insert(i, (k0, value));
                proof {
                    assert(self@ =~= old(self)@.update(
                        i as int,
                        (old(self)@[i as int].0, value),
                    ));
                }
                Some(v0)
            },
            None => {
                proof {
                    if eq_reliable::<K>() {
                        lemma_key_index_props(old(self)@, key);
                        lemma_push_new_keeps_no_dup(old(self)@, key, value);
                    }
                }
                self.items.push((key, value));
                None
            },
        }
    }

    /// Moves the entry keyed `key` — or makes one — to the back with the
    /// given value, returning the value it replaced, if any.
    pub fn push_back(&mut self, key: K, value: V) -> (r: Option<V>)
        requires
            old(self).wf(),
        ensures
            final(self).wf(),
            eq_reliable::<K>() ==> {
                &&& final(self)@ == spec_remove_key(old(self)@, key).push((key, value))
                &&& match r {
                    Some(v) => has_key(old(self)@, key) && v == old(self)@[key_index(
                        old(self)@,
                        key,
                    )].1,
                    None => !has_key(old(self)@, key),
                }
            },
    {
        let r = self.remove_entry(&key);
        proof {
            if eq_reliable::<K>() {
                lemma_remove_key_drops_key(old(self)@, key);
                lemma_push_new_keeps_no_dup(spec_remove_key(old(self)@, key), key, value);
            }
        }
        self.items.push((key, value));
        r
    }

    /// Moves the entry keyed `key` — or makes one — to the front with the
    /// given value, returning the value it replaced, if any.
    pub fn push_front(&mut self, key: K, value: V) -> (r: Option<V>)
        requires
            old(self).wf(),
        ensures
            final(self).wf(),
            eq_reliable::<K>() ==> {
                &&& final(self)@ == seq![(key, value)] + spec_remove_key(old(self)@, key)
                &&& match r {
                    Some(v) => has_key(old(self)@, key) && v == old(self)@[key_index(
                        old(self)@,
                        key,
                    )].1,
                    None => !has_key(old(self)@, key),
                }
            },
    {
        let r = self.remove_entry(&key);
        proof {
            if eq_reliable::<K>() {
                lemma_remove_key_drops_key(old(self)@, key);
                lemma_front_new_keeps_no_dup(spec_remove_key(old(self)@, key), key, value);
            }
        }
        let ghost mid = self@;
        self.items.insert(0, (key, value));
        proof {
            assert(self@ =~= seq![(key, value)] + mid);
        }
        r
    }

    /// Takes out the entry keyed `k`, returning its value.
    fn remove_entry(&mut self, k: &K) -> (r: Option<V>)
        requires
            old(self).wf(),
        ensures
            final(self).wf(),
            eq_reliable::<K>() ==> {
                &&& final(self)@ == spec_remove_key(old(self)@, *k)
                &&& match r {
                    Some(v) => has_key(old(self)@, *k) && v == old(self)@[key_index(
                        old(self)@,
                        *k,
                    )].1,
                    None => !has_key(old(self)@, *k),
                }
            },
    {
        match self.find_index(k) {
            Some(i) => {
                proof {
                    if eq_reliable::<K>() {
                        lemma_key_index_props(old(self)@, *k);
                        lemma_remove_keeps_no_dup(old(self)@, i as int);
                    }
                }
                let (_, v) = self.items.remove(i);
                Some(v)
            },
            None => None,
        }
    }
}

/// A walk over the entries, oldest first. Call [`Iter::next`] until it hands
/// nothing back.
pub struct Iter<'a, K, V> {
    rest: &'a [(K, V)],
}

impl<'a, K, V> Iter<'a, K, V> {
    /// The entries not yet handed out.
    pub closed spec fn remaining(&self) -> Seq<(K, V)> {
        self.rest@
    }

    /// Hands out the next entry, oldest first, or nothing when the walk is
    /// done.
    pub fn next(&mut self) -> (r: Option<(&'a K, &'a V)>)
        ensures
            match r {
                Some(e) => {
                    &&& old(self).remaining().len() > 0
                    &&& (*e.0, *e.1) == old(self).remaining()[0]
                    &&& final(self).remaining() == old(self).remaining().drop_first()
                },
                None => {
                    &&& old(self).remaining().len() == 0
                    &&& final(self).remaining() == old(self).remaining()
                },
            },
    {
        let n = self.rest.len();
        if n == 0 {
            None
        } else {
            let e = &self.rest[0];
            self.rest = &self.rest[1..n];
            proof {
                assert(self.rest@ =~= old(self).remaining().drop_first());
            }
            Some((&e.0, &e.1))
        }
    }

    /// How many entries are still to come.
    pub fn len(&self) -> (n: usize)
        ensures
            n == self.remaining().len(),
    {
        self.rest.len()
    }
}

/// A consuming walk over the entries, oldest first.
pub struct IntoIter<K, V> {
    rest: Vec<(K, V)>,
}

impl<K, V> IntoIter<K, V> {
    /// The entries not yet handed out.
    pub closed spec fn remaining(&self) -> Seq<(K, V)> {
        self.rest@
    }

    /// Hands out the next entry, oldest first, or nothing when the walk is
    /// done.
    pub fn next(&mut self) -> (r: Option<(K, V)>)
        ensures
            match r {
                Some(e) => {
                    &&& old(self).remaining().len() > 0
                    &&& e == old(self).remaining()[0]
                    &&& final(self).remaining() == old(self).remaining().drop_first()
                },
                None => {
                    &&& old(self).remaining().len() == 0
                    &&& final(self).remaining() == old(self).remaining()
                },
            },
    {
        if self.rest.len() == 0 {
            None
        } else {
            let e = self.rest.remove(0);
            proof {
                assert(self.rest@ =~= old(self).remaining().drop_first());
            }
            Some(e)
        }
    }

    /// How many entries are still to come.
    pub fn len(&self) -> (n: usize)
        ensures
            n == self.remaining().len(),
    {
        self.rest.len()
    }
}

/// What remains of the entries under a keep-or-drop choice per position.
pub open spec fn spec_mask<K, V>(s: Seq<(K, V)>, keep: Seq<bool>) -> Seq<(K, V)>
    decreases s.len(),
{
    if s.len() == 0 {
        Seq::empty()
    } else {
        let rest = spec_mask(s.drop_first(), keep.drop_first());
        if keep.len() > 0 && keep[0] {
            seq![s[0]] + rest
        } else {
            rest
        }
    }
}

/// The entries after a run of keyed insertions, in order.
pub open spec fn spec_extend<K, V>(s: Seq<(K, V)>, items: Seq<(K, V)>) -> Seq<(K, V)>
    decreases items.len(),
{
    if items.len() == 0 {
        s
    } else {
        spec_extend(spec_insert(s, items[0].0, items[0].1), items.drop_first())
    }
}

impl<K: Ord, V> DequeBTreeMap<K, V> {
    /// A walk over the entries in arrival order.
    pub fn iter(&self) -> (it: Iter<'_, K, V>)
        ensures
            it.remaining() == self@,
    {
        Iter { rest: self.items.as_slice() }
    }

    /// A consuming walk over the entries in arrival order.
    pub fn into_iter(self) -> (it: IntoIter<K, V>)
        ensures
            it.remaining() == self@,
    {
        IntoIter { rest: self.items }
    }

    /// The entries as a vector of pairs, in arrival order.
    pub fn to_vec(&self) -> (r: Vec<(K, V)>)
        where K: Copy, V: Copy,
        ensures
            r@ == self@,
    {
        let n = self.items.len();
        let mut r: Vec<(K, V)> = Vec::new();
        let mut i: usize = 0;
        while i < n
            invariant
                n == self@.len(),
                i <= n,
                r@ == self@.take(i as int),
            decreases n - i,
        {
            r.push(self.items[i]);
            proof {
                assert(r@ =~= self@.take(i + 1 as int));
            }
            i = i + 1;
        }
        proof {
            assert(r@ =~= self@);
        }
        r
    }

    /// Keeps each entry the given rule accepts and takes out each one it
    /// rejects; the kept entries stay in arrival order.
    pub fn retain<F: Fn(&K, &V) -> bool>(&mut self, f: F)
        requires
            old(self).wf(),
            forall|i: int|
                0 <= i < old(self)@.len() ==> #[trigger] f.requires(
                    (&old(self)@[i].0, &old(self)@[i].1),
                ),
        ensures
            final(self).wf(),
            exists|keep: Seq<bool>|
                {
                    &&& keep.len() == old(self)@.len()
                    &&& final(self)@ == spec_mask(old(self)@, keep)
                    &&& forall|i: int|
                        0 <= i < keep.len() ==> call_ensures(
                            f,
                            (&old(self)@[i].0, &old(self)@[i].1),
                            #[trigger] keep[i],
                        )
                },
    {
        let ghost all = self.items@;
        let mut kept: Vec<(K, V)> = Vec::new();
        let ghost mut keep: Seq<bool> = Seq::empty();
        let n = self.items.len();
        let mut i: usize = 0;
        proof {
            assert(all.skip(0) =~= all);
            assert(all.take(0) =~= Seq::<(K, V)>::empty());
        }
        while i < n
            invariant
                all == old(self)@,
                self@ == all.skip(i as int),
                n == all.len(),
                i <= n,
                keep.len() == i,
                kept@ == spec_mask(all.take(i as int), keep),
                forall|j: int|
                    0 <= j < i ==> call_ensures(f, (&all[j].0, &all[j].1), #[trigger] keep[j]),
                forall|j: int|
                    0 <= j < all.len() ==> #[trigger] f.requires((&all[j].0, &all[j].1)),
            decreases n - i,
        {
            let e = self.items.remove(0);
            proof {
                assert(e == all[i as int]);
                assert(self@ =~= all.skip(i + 1 as int));
            }
            let hold = f(&e.0, &e.1);
            proof {
                lemma_mask_snoc(all.take(i as int), keep, all[i as int], hold);
                assert(all.take(i + 1 as int) =~= all.take(i as int).push(all[i as int]));
            }
            if hold {
                kept.push(e);
            }
            proof {
                keep = keep.push(hold);
            }
            i = i + 1;
        }
        proof {
            assert(all.take(n as int) =~= all);
            if eq_reliable::<K>() {
                lemma_mask_no_dup(all, keep);
            }
        }
        self.items = kept;
    }
}

impl<K: Ord + Clone, V> DequeBTreeMap<K, V> {
    /// Inserts each given pair in order, as [`DequeBTreeMap::insert`] does
    /// one: a present key keeps its place with its value replaced, a new key
    /// joins at the back.
    pub fn extend(&mut self, other: Vec<(K, V)>)
        requires
            old(self).wf(),
        ensures
            final(self).wf(),
            eq_reliable::<K>() ==> final(self)@ == spec_extend(old(self)@, other@),
    {
        let ghost pre = old(self)@;
        let ghost items = other@;
        let mut rest = other;
        let mut k: usize = 0;
        let total = rest.len();
        proof {
            assert(items.skip(0) =~= items);
            assert(items.take(0) =~= Seq::<(K, V)>::empty());
        }
        while k < total
            invariant
                pre == old(self)@,
                self.wf(),
                total == items.len(),
                k <= total,
                rest@ == items.skip(k as int),
                eq_reliable::<K>() ==> self@ == spec_extend(pre, items.take(k as int)),
            decreases total - k,
        {
            let e = rest.remove(0);
            proof {
                assert(e == items[k as int]);
                assert(rest@ =~= items.skip(k + 1 as int));
                lemma_extend_step(pre, items, k as int);
            }
            self.insert(e.0, e.1);
            k = k + 1;
        }
        proof {
            assert(items.take(total as int) =~= items);
        }
    }
}

/// Extending by one more pair inserts that pair into what the shorter run
/// left behind.
proof fn lemma_extend_step<K, V>(s: Seq<(K, V)>, items: Seq<(K, V)>, k: int)
    requires
        0 <= k < items.len(),
    ensures
        spec_extend(s, items.take(k + 1)) == spec_insert(
            spec_extend(s, items.take(k)),
            items[k].0,
            items[k].1,
        ),
    decreases k,
{
    if k == 0 {
        assert(items.take(1).drop_first() =~= Seq::<(K, V)>::empty());
        assert(items.take(0) =~= Seq::<(K, V)>::empty());
        assert(items.take(1)[0] == items[0]);
        assert(spec_extend(s, items.take(0)) == s);
        assert(spec_extend(s, items.take(1)) == spec_extend(
            spec_insert(s, items[0].0, items[0].1),
            Seq::<(K, V)>::empty(),
        ));
    } else {
        let s1 = spec_insert(s, items[0].0, items[0].1);
        let t = items.drop_first();
        lemma_extend_step(s1, t, k - 1);
        assert(items.take(k + 1).drop_first() =~= t.take(k));
        assert(items.take(k).drop_first() =~= t.take(k - 1));
        assert(items.take(k + 1)[0] == items[0]);
        assert(items.take(k)[0] == items[0]);
        assert(t[k - 1] == items[k]);
        assert(spec_extend(s, items.take(k + 1)) == spec_extend(s1, t.take(k)));
        assert(spec_extend(s, items.take(k)) == spec_extend(s1, t.take(k - 1)));
    }
}

/// Masking one more entry appends it exactly when it is kept.
proof fn lemma_mask_snoc<K, V>(s: Seq<(K, V)>, keep: Seq<bool>, e: (K, V), b: bool)
    requires
        keep.len() == s.len(),
    ensures
        spec_mask(s.push(e), keep.push(b)) == if b {
            spec_mask(s, keep).push(e)
        } else {
            spec_mask(s, keep)
        },
    decreases s.len(),
{
    if s.len() == 0 {
        assert(s.push(e).drop_first() =~= s);
        assert(keep.push(b).drop_first() =~= keep);
        assert(spec_mask(s, keep) =~= Seq::<(K, V)>::empty());
        assert(s.push(e)[0] == e);
        assert(keep.push(b)[0] == b);
        if b {
            assert(spec_mask(s.push(e), keep.push(b)) == seq![e] + spec_mask(s, keep));
            assert(seq![e] + spec_mask(s, keep) =~= spec_mask(s, keep).push(e));
        } else {
            assert(spec_mask(s.push(e), keep.push(b)) == spec_mask(s, keep));
        }
    } else {
        lemma_mask_snoc(s.drop_first(), keep.drop_first(), e, b);
        assert(s.push(e).drop_first() =~= s.drop_first().push(e));
        assert(keep.push(b).drop_first() =~= keep.drop_first().push(b));
        assert(s.push(e)[0] == s[0]);
        assert(keep.push(b)[0] == keep[0]);
        let rest = spec_mask(s.drop_first(), keep.drop_first());
        let rest_snoc = spec_mask(s.drop_first().push(e), keep.drop_first().push(b));
        assert(spec_mask(s.push(e), keep.push(b)) == if keep[0] {
            seq![s[0]] + rest_snoc
        } else {
            rest_snoc
        });
        assert(spec_mask(s, keep) == if keep[0] {
            seq![s[0]] + rest
        } else {
            rest
        });
        if b {
            assert(rest_snoc == rest.push(e));
            if keep[0] {
                assert(seq![s[0]] + rest.push(e) =~= (seq![s[0]] + rest).push(e));
            }
        } else {
            assert(rest_snoc == rest);
        }
    }
}

/// Masking keeps distinct keys distinct, and hands back only entries that
/// were there.
proof fn lemma_mask_no_dup<K, V>(s: Seq<(K, V)>, keep: Seq<bool>)
    requires
        no_dup_keys(s),
    ensures
        no_dup_keys(spec_mask(s, keep)),
        forall|x: (K, V)| #[trigger] spec_mask(s, keep).contains(x) ==> s.contains(x),
    decreases s.len(),
{
    if s.len() > 0 {
        let t = s.drop_first();
        let m = spec_mask(t, keep.drop_first());
        assert forall|a: int, b: int| 0 <= a < b < t.len() implies (#[trigger] t[a]).0 != (
        #[trigger] t[b]).0 by {
            assert(t[a] == s[a + 1] && t[b] == s[b + 1]);
        }
        lemma_mask_no_dup(t, keep.drop_first());
        assert forall|x: (K, V)| #[trigger] t.contains(x) implies s.contains(x) by {
            let j = choose|j: int| 0 <= j < t.len() && t[j] == x;
            assert(s[j + 1] == x);
        }
        if keep.len() > 0 && keep[0] {
            let whole = seq![s[0]] + m;
            assert forall|a: int, b: int|
                0 <= a < b < whole.len() implies (#[trigger] whole[a]).0 != (
            #[trigger] whole[b]).0 by {
                if a == 0 {
                    assert(m.contains(whole[b]));
                    assert(t.contains(whole[b]));
                    let j = choose|j: int| 0 <= j < t.len() && t[j] == whole[b];
                    assert(t[j] == s[j + 1]);
                    assert(s[0].0 != s[j + 1].0);
                } else {
                    assert(whole[a] == m[a - 1] && whole[b] == m[b - 1]);
                }
            }
            assert forall|x: (K, V)| #[trigger] whole.contains(x) implies s.contains(x) by {
                let j = choose|j: int| 0 <= j < whole.len() && whole[j] == x;
                if j == 0 {
                    assert(s[0] == x);
                } else {
                    assert(m[j - 1] == x);
                    assert(m.contains(x));
                }
            }
        }
    }
}


/// A view into one key's place in the map: either an occupied entry or a
/// vacant one. Made by [`DequeBTreeMap::entry`]; its fields are open so that
/// the contracts can speak of the borrowed map.
pub enum Entry<'a, K, V> {
    /// No entry has the key yet.
    Vacant(VacantEntry<'a, K, V>),
    /// An entry has the key.
    Occupied(OccupiedEntry<'a, K, V>),
}

/// A vacant place: the key that would be inserted and the borrowed map.
pub struct VacantEntry<'a, K, V> {
    pub key: K,
    pub map: &'a mut DequeBTreeMap<K, V>,
}

/// An occupied place: the position of the entry in the borrowed map.
pub struct OccupiedEntry<'a, K, V> {
    pub idx: usize,
    pub map: &'a mut DequeBTreeMap<K, V>,
}

impl<'a, K: Ord, V> VacantEntry<'a, K, V> {
    /// What a vacant entry promises: the borrowed map is well formed and
    /// misses the key.
    pub open spec fn wf(&self) -> bool {
        &&& (*self.map).wf()
        &&& eq_reliable::<K>() ==> !has_key((*self.map)@, self.key)
    }

    /// The key that would be used on insertion.
    pub fn key(&self) -> (k: &K)
        ensures
            *k == self.key,
    {
        &self.key
    }

    /// Takes the key back out.
    pub fn into_key(self) -> (k: K)
        ensures
            k == self.key,
    {
        self.key
    }

    /// Fills the place: the pair joins at the back of the map, and the
    /// caller holds the fresh value.
    pub fn insert(self, value: V) -> (v: &'a mut V)
        requires
            self.wf(),
        ensures
            *v == value,
            (*final (self.map))@ == (*old(self.map))@.push((self.key, *final (v))),
            (*final (self.map)).wf(),
    {
        let VacantEntry { key, map } = self;
        let ghost orig = (*map)@;
        let ghost gk = key;
        let n = map.items.len();
        map.items.push((key, value));
        let ghost mid = map.items@;
        let v = &mut map.items[n].1;
        proof {
            if eq_reliable::<K>() {
                lemma_key_index_props(orig, gk);
                lemma_push_new_keeps_no_dup(orig, gk, *final (v));
            }
            assert(mid.update(n as int, (mid[n as int].0, *final (v))) =~= orig.push((
                gk,
                *final (v),
            )));
        }
        v
    }
}

impl<'a, K: Ord, V> OccupiedEntry<'a, K, V> {
    /// What an occupied entry promises: the borrowed map is well formed and
    /// the position lies in it.
    pub open spec fn wf(&self) -> bool {
        &&& (*self.map).wf()
        &&& self.idx < (*self.map)@.len()
    }

    /// The stored key.
    pub fn key(&self) -> (k: &K)
        requires
            self.wf(),
        ensures
            *k == (*old(self.map))@[self.idx as int].0,
    {
        &self.map.items[self.idx].0
    }

    /// The stored value.
    pub fn get(&self) -> (v: &V)
        requires
            self.wf(),
        ensures
            *v == (*old(self.map))@[self.idx as int].1,
    {
        &self.map.items[self.idx].1
    }

    /// Turns the entry into a mutable hold on its value, for the whole of
    /// the map borrow's life.
    pub fn into_mut(self) -> (v: &'a mut V)
        requires
            self.wf(),
        ensures
            *v == (*old(self.map))@[self.idx as int].1,
            (*final (self.map))@ == (*old(self.map))@.update(
                self.idx as int,
                ((*old(self.map))@[self.idx as int].0, *final (v)),
            ),
            (*final (self.map)).wf(),
    {
        let OccupiedEntry { idx, map } = self;
        proof {
            if eq_reliable::<K>() {
                lemma_update_value_keeps_keys((*map)@, idx as int);
            }
        }
        &mut map.items[idx].1
    }

    /// Replaces the stored value, returning the one it held.
    pub fn insert(self, value: V) -> (r: V)
        requires
            self.wf(),
        ensures
            r == (*old(self.map))@[self.idx as int].1,
            (*final (self.map))@ == (*old(self.map))@.update(
                self.idx as int,
                ((*old(self.map))@[self.idx as int].0, value),
            ),
            (*final (self.map)).wf(),
    {
        let OccupiedEntry { idx, map } = self;
        let ghost orig = (*map)@;
        proof {
            if eq_reliable::<K>() {
                lemma_update_value_keeps_keys(orig, idx as int);
            }
        }
        let (k0, v0) = map.items.remove(idx);
        map.items.insert(idx, (k0, value));
        proof {
            assert((*map)@ =~= orig.update(idx as int, (orig[idx as int].0, value)));
        }
        v0
    }
}

impl<'a, K: Ord, V> Entry<'a, K, V> {
    /// What either kind of entry promises.
    pub open spec fn wf(&self) -> bool {
        match self {
            Entry::Vacant(v) => v.wf(),
            Entry::Occupied(o) => o.wf(),
        }
    }

    /// This entry's key: the stored one when occupied, the pending one when
    /// vacant.
    pub fn key(&self) -> (k: &K)
        requires
            self.wf(),
        ensures
            match self {
                Entry::Occupied(o) => *k == (*o.map)@[o.idx as int].0,
                Entry::Vacant(v) => *k == v.key,
            },
    {
        match self {
            Entry::Occupied(o) => o.key(),
            Entry::Vacant(v) => v.key(),
        }
    }

    /// Makes sure the place holds a value — the given one when it was vacant
    /// — and hands the caller a mutable hold on it.
    pub fn or_insert(self, default: V) -> (v: &'a mut V)
        requires
            self.wf(),
        ensures
            self matches Entry::Occupied(o) ==> {
                &&& *v == (*o.map)@[o.idx as int].1
                &&& (*final (o.map))@ == (*o.map)@.update(
                    o.idx as int,
                    ((*o.map)@[o.idx as int].0, *final (v)),
                )
                &&& (*final (o.map)).wf()
            },
            self matches Entry::Vacant(va) ==> {
                &&& *v == default
                &&& (*final (va.map))@ == (*va.map)@.push((va.key, *final (v)))
                &&& (*final (va.map)).wf()
            },
    {
        match self {
            Entry::Occupied(o) => o.into_mut(),
            Entry::Vacant(v) => v.insert(default),
        }
    }

    /// As [`Entry::or_insert`], the fresh value made by the given rule only
    /// when the place was vacant.
    pub fn or_insert_with<F: FnOnce() -> V>(self, default: F) -> (v: &'a mut V)
        requires
            self.wf(),
            self matches Entry::Vacant(_) ==> default.requires(()),
        ensures
            self matches Entry::Occupied(o) ==> {
                &&& *v == (*o.map)@[o.idx as int].1
                &&& (*final (o.map))@ == (*o.map)@.update(
                    o.idx as int,
                    ((*o.map)@[o.idx as int].0, *final (v)),
                )
                &&& (*final (o.map)).wf()
            },
            self matches Entry::Vacant(va) ==> {
                &&& call_ensures(default, (), *v)
                &&& (*final (va.map))@ == (*va.map)@.push((va.key, *final (v)))
                &&& (*final (va.map)).wf()
            },
    {
        match self {
            Entry::Occupied(o) => o.into_mut(),
            Entry::Vacant(v) => {
                let value = default();
                v.insert(value)
            },
        }
    }

    /// As [`Entry::or_insert_with`], the rule handed the pending key.
    pub fn or_insert_with_key<F: FnOnce(&K) -> V>(self, default: F) -> (v: &'a mut V)
        requires
            self.wf(),
            self matches Entry::Vacant(va) ==> default.requires((&va.key,)),
        ensures
            self matches Entry::Occupied(o) ==> {
                &&& *v == (*o.map)@[o.idx as int].1
                &&& (*final (o.map))@ == (*o.map)@.update(
                    o.idx as int,
                    ((*o.map)@[o.idx as int].0, *final (v)),
                )
                &&& (*final (o.map)).wf()
            },
            self matches Entry::Vacant(va) ==> {
                &&& call_ensures(default, (&va.key,), *v)
                &&& (*final (va.map))@ == (*va.map)@.push((va.key, *final (v)))
                &&& (*final (va.map)).wf()
            },
    {
        match self {
            Entry::Occupied(o) => o.into_mut(),
            Entry::Vacant(v) => {
                let value = default(&v.key);
                v.insert(value)
            },
        }
    }

    /// Lets the given rule rework the stored value before any insertion,
    /// when the place is occupied; a vacant place passes through untouched.
    /// Only that one value changes: the keys and every other entry stay.
    pub fn and_modify<F: FnOnce(&mut V)>(self, f: F) -> (r: Entry<'a, K, V>)
        requires
            self.wf(),
            forall|m: &mut V| #[trigger] f.requires((m,)),
        ensures
            r.wf(),
            self matches Entry::Occupied(o) ==> (r matches Entry::Occupied(o2) && o2.idx
                == o.idx && (*o2.map)@.len() == (*o.map)@.len() && (forall|j: int|
                0 <= j < (*o.map)@.len() && j != o.idx ==> (*o2.map)@[j] == #[trigger] (*o.map)@[j])
                && (*o2.map)@[o.idx as int].0 == (*o.map)@[o.idx as int].0 && *final (o.map)
                == *final (o2.map)),
            self matches Entry::Vacant(va) ==> (r matches Entry::Vacant(va2) && va2.key == va.key
                && (*va2.map)@ == (*va.map)@ && *final (va.map) == *final (va2.map)),
    {
        match self {
            Entry::Occupied(o) => {
                let OccupiedEntry { idx, map } = o;
                let ghost orig = (*map)@;
                proof {
                    if eq_reliable::<K>() {
                        lemma_update_value_keeps_keys(orig, idx as int);
                    }
                }
                let slot = map.index_mut(idx);
                f(slot);
                proof {
                    assert((*map)@ == orig.update(
                        idx as int,
                        (orig[idx as int].0, (*map)@[idx as int].1),
                    ));
                }
                Entry::Occupied(OccupiedEntry { idx, map })
            },
            Entry::Vacant(v) => Entry::Vacant(v),
        }
    }
}

impl<'a, K: Ord, V: Default> Entry<'a, K, V> {
    /// Makes sure the place holds a value — whatever `V::default()` gives
    /// when it was vacant — and hands the caller a mutable hold on it.
    pub fn or_default(self) -> (v: &'a mut V)
        requires
            self.wf(),
        ensures
            self matches Entry::Occupied(o) ==> {
                &&& *v == (*o.map)@[o.idx as int].1
                &&& (*final (o.map))@ == (*o.map)@.update(
                    o.idx as int,
                    ((*o.map)@[o.idx as int].0, *final (v)),
                )
                &&& (*final (o.map)).wf()
            },
            self matches Entry::Vacant(va) ==> {
                &&& (*final (va.map))@ == (*va.map)@.push((va.key, *final (v)))
                &&& (*final (va.map)).wf()
            },
    {
        match self {
            Entry::Occupied(o) => o.into_mut(),
            Entry::Vacant(v) => v.insert(Default::default()),
        }
    }
}

impl<K: Ord, V> DequeBTreeMap<K, V> {
    /// A view into the key's place, vacant or occupied, through which the
    /// caller can read, rework or fill it in place.
    pub fn entry(&mut self, key: K) -> (e: Entry<'_, K, V>)
        requires
            old(self).wf(),
        ensures
            e.wf(),
            match e {
                Entry::Occupied(o) => {
                    &&& *o.map == *old(self)
                    &&& o.idx < old(self)@.len()
                    &&& (eq_reliable::<K>() ==> has_key(old(self)@, key) && key_index(
                        old(self)@,
                        key,
                    ) == o.idx)
                    &&& *final (self) == *final (o.map)
                },
                Entry::Vacant(v) => {
                    &&& *v.map == *old(self)
                    &&& v.key == key
                    &&& (eq_reliable::<K>() ==> !has_key(old(self)@, key))
                    &&& *final (self) == *final (v.map)
                },
            },
    {
        match self.find_index(&key) {
            Some(i) => Entry::Occupied(OccupiedEntry { idx: i, map: self }),
            None => Entry::Vacant(VacantEntry { key, map: self }),
        }
    }
}

/// When the first `i` entries miss `k` and the `i`-th hits it, `i` is the
/// key's position.
proof fn lemma_key_index_at<K, V>(s: Seq<(K, V)>, k: K, i: int)
    requires
        0 <= i < s.len(),
        s[i].0 == k,
        forall|j: int| 0 <= j < i ==> (#[trigger] s[j]).0 != k,
    ensures
        key_index(s, k) == i,
    decreases i,
{
    if i > 0 {
        let t = s.drop_first();
        assert forall|j: int| 0 <= j < i - 1 implies (#[trigger] t[j]).0 != k by {
            assert(t[j] == s[j + 1]);
        }
        assert(t[i - 1] == s[i]);
        lemma_key_index_at(t, k, i - 1);
    }
}

/// When no entry hits `k`, the key has no position.
proof fn lemma_key_index_none<K, V>(s: Seq<(K, V)>, k: K)
    requires
        forall|j: int| 0 <= j < s.len() ==> (#[trigger] s[j]).0 != k,
    ensures
        key_index(s, k) < 0,
    decreases s.len(),
{
    if s.len() > 0 {
        let t = s.drop_first();
        assert forall|j: int| 0 <= j < t.len() implies (#[trigger] t[j]).0 != k by {
            assert(t[j] == s[j + 1]);
        }
        lemma_key_index_none(t, k);
    }
}

/// The key's position lies in the map, carries the key, and nothing ahead of
/// it does.
pub proof fn lemma_key_index_props<K, V>(s: Seq<(K, V)>, k: K)
    ensures
        -1 <= key_index(s, k) < s.len(),
        key_index(s, k) >= 0 ==> s[key_index(s, k)].0 == k,
        forall|j: int| 0 <= j < key_index(s, k) ==> (#[trigger] s[j]).0 != k,
        key_index(s, k) < 0 ==> forall|j: int| 0 <= j < s.len() ==> (#[trigger] s[j]).0 != k,
    decreases s.len(),
{
    if s.len() > 0 && s[0].0 != k {
        let t = s.drop_first();
        lemma_key_index_props(t, k);
        assert forall|j: int| 0 <= j < key_index(s, k) implies (#[trigger] s[j]).0 != k by {
            if j > 0 {
                assert(t[j - 1] == s[j]);
            }
        }
        if key_index(s, k) < 0 {
            assert forall|j: int| 0 <= j < s.len() implies (#[trigger] s[j]).0 != k by {
                if j > 0 {
                    assert(t[j - 1] == s[j]);
                }
            }
        }
    }
}

/// Replacing a value in place moves no key, so distinctness survives.
proof fn lemma_update_value_keeps_keys<K, V>(s: Seq<(K, V)>, i: int)
    requires
        no_dup_keys(s),
    ensures
        forall|v: V| 0 <= i < s.len() ==> no_dup_keys(#[trigger] s.update(i, (s[i].0, v))),
{
    assert forall|v: V| 0 <= i < s.len() implies no_dup_keys(#[trigger] s.update(
        i,
        (s[i].0, v),
    )) by {
        let t = s.update(i, (s[i].0, v));
        assert forall|a: int, b: int|
            0 <= a < b < t.len() implies (#[trigger] t[a]).0 != (#[trigger] t[b]).0 by {
            assert(s[a].0 != s[b].0);
        }
    }
}

/// Taking an entry out keeps the remaining keys distinct.
proof fn lemma_remove_keeps_no_dup<K, V>(s: Seq<(K, V)>, i: int)
    requires
        no_dup_keys(s),
    ensures
        0 <= i < s.len() ==> no_dup_keys(s.remove(i)),
{
    if 0 <= i < s.len() {
        let t = s.remove(i);
        assert forall|a: int, b: int|
            0 <= a < b < t.len() implies (#[trigger] t[a]).0 != (#[trigger] t[b]).0 by {
            let a0 = if a < i {
                a
            } else {
                a + 1
            };
            let b0 = if b < i {
                b
            } else {
                b + 1
            };
            assert(t[a] == s[a0]);
            assert(t[b] == s[b0]);
        }
    }
}

/// After its key is taken out, the map misses it.
proof fn lemma_remove_key_drops_key<K, V>(s: Seq<(K, V)>, k: K)
    requires
        no_dup_keys(s),
    ensures
        no_dup_keys(spec_remove_key(s, k)),
        forall|j: int|
            0 <= j < spec_remove_key(s, k).len() ==> (#[trigger] spec_remove_key(s, k)[j]).0 != k,
{
    lemma_key_index_props(s, k);
    let i = key_index(s, k);
    if has_key(s, k) {
        lemma_remove_keeps_no_dup(s, i);
        let t = s.remove(i);
        assert forall|j: int| 0 <= j < t.len() implies (#[trigger] t[j]).0 != k by {
            let j0 = if j < i {
                j
            } else {
                j + 1
            };
            assert(t[j] == s[j0]);
            if j0 > i {
                assert(s[i].0 != s[j0].0);
            }
        }
    }
}

/// Appending a key the map misses keeps the keys distinct.
proof fn lemma_push_new_keeps_no_dup<K, V>(s: Seq<(K, V)>, k: K, v: V)
    requires
        no_dup_keys(s),
        forall|j: int| 0 <= j < s.len() ==> (#[trigger] s[j]).0 != k,
    ensures
        no_dup_keys(s.push((k, v))),
{
    let t = s.push((k, v));
    assert forall|a: int, b: int|
        0 <= a < b < t.len() implies (#[trigger] t[a]).0 != (#[trigger] t[b]).0 by {
        if b < s.len() {
            assert(t[a] == s[a] && t[b] == s[b]);
        } else {
            assert(t[a] == s[a] && t[b] == (k, v));
        }
    }
}

/// Prepending a key the map misses keeps the keys distinct.
proof fn lemma_front_new_keeps_no_dup<K, V>(s: Seq<(K, V)>, k: K, v: V)
    requires
        no_dup_keys(s),
        forall|j: int| 0 <= j < s.len() ==> (#[trigger] s[j]).0 != k,
    ensures
        no_dup_keys(seq![(k, v)] + s),
{
    let t = seq![(k, v)] + s;
    assert forall|a: int, b: int|
        0 <= a < b < t.len() implies (#[trigger] t[a]).0 != (#[trigger] t[b]).0 by {
        if a == 0 {
            assert(t[b] == s[b - 1]);
        } else {
            assert(t[a] == s[a - 1] && t[b] == s[b - 1]);
        }
    }
}

} // verus!
