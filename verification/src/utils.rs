//! `GeneralMap`: the maps that can track work in flight, implemented for
//! `HashMap` and for a vector of slots (`Vec<Option<_>>`, keyed by index).
use std::collections::HashMap;
use std::hash::Hash;

use vstd::prelude::*;

use crate::scheduler::obeys_key_laws;
use vstd::std_specs::iter::IteratorSpec;

verus! {

broadcast use vstd::std_specs::hash::group_hash_axioms;

/// `predicate` may answer `true` on `v`.
pub open spec fn passes<V, P: Fn(&V) -> bool>(predicate: P, v: V) -> bool {
    predicate.ensures((&v,), true)
}

/// `predicate` may answer `false` on `v`.
pub open spec fn fails<V, P: Fn(&V) -> bool>(predicate: P, v: V) -> bool {
    predicate.ensures((&v,), false)
}

/// A map from keys to values that hands out keys of its own choosing on insertion.
pub trait GeneralMap<KeyType, ValueType>: Sized where KeyType: Eq {
    /// The keys held and their values.
    spec fn contents(&self) -> Map<KeyType, ValueType>;

    /// The key type behaves as the map needs it to.
    spec fn obeys_map_laws() -> bool;

    /// `key` may be looked up without panicking.
    spec fn can_look_up(&self, key: KeyType) -> bool;

    /// `key` may be offered to `insert` without panicking.
    spec fn can_insert(&self, key: KeyType) -> bool;

    /// The map as `new` makes it: nothing held, and no room set aside.
    spec fn is_fresh(&self) -> bool;

    /// The key under which `insert` holds a value when offered `preferred`.
    spec fn chosen_key(&self, preferred: KeyType) -> KeyType;

    /// `after` is this map with `value` held under `key`, laid out as the map lays it out.
    spec fn holds_inserted(&self, key: KeyType, value: ValueType, after: &Self) -> bool;

    /// `after` is this map with `key` no longer held, laid out as the map lays it out.
    spec fn holds_removed(&self, key: KeyType, after: &Self) -> bool;

    fn new() -> (r: Self)
        requires
            Self::obeys_map_laws(),
        ensures
            r.contents() == Map::<KeyType, ValueType>::empty(),
            r.is_fresh(),
    ;

    /// Nothing is held.
    fn is_empty(&self) -> (r: bool)
        requires
            Self::obeys_map_laws(),
        ensures
            r == (self.contents().dom() == Set::<KeyType>::empty()),
    ;

    /// How many keys are held.
    fn len(&self) -> (r: usize)
        requires
            Self::obeys_map_laws(),
        ensures
            r == self.contents().len(),
    ;

    /// Whether `predicate` answers `true` on some value held.
    fn any<P: Fn(&ValueType) -> bool>(&self, predicate: P) -> (r: bool)
        requires
            Self::obeys_map_laws(),
            forall|v: ValueType| predicate.requires((&v,)),
        ensures
            r ==> exists|k: KeyType|
                self.contents().contains_key(k) && passes(predicate, #[trigger] self.contents()[k]),
            !r ==> forall|k: KeyType|
                self.contents().contains_key(k) ==> fails(predicate, #[trigger] self.contents()[k]),
    ;

    /// Hold `value` under a key that is not held yet, `slightly_preferred_key`
    /// where possible; returns that key.
    fn insert(&mut self, slightly_preferred_key: KeyType, value: ValueType) -> (r: KeyType)
        requires
            Self::obeys_map_laws(),
            old(self).can_insert(slightly_preferred_key),
        ensures
            r == old(self).chosen_key(slightly_preferred_key),
            !old(self).contents().contains_key(r),
            final(self).contents() == old(self).contents().insert(r, value),
            old(self).holds_inserted(r, value, final(self)),
    ;

    /// A key whose value `predicate` accepts, looked for in `look_here_first`
    /// first (in order), then among all keys held. Each key of `look_here_first`
    /// that is reached must be one that can be looked up: it comes before any
    /// key whose value `predicate` surely accepts.
    fn find<P: Fn(&ValueType) -> bool>(&self, look_here_first: &[KeyType], predicate: P) -> (r:
        Option<KeyType>)
        requires
            Self::obeys_map_laws(),
            forall|v: ValueType| predicate.requires((&v,)),
            forall|i: int|
                0 <= i < look_here_first@.len() ==> self.can_look_up(#[trigger] look_here_first@[i])
                    || exists|j: int|
                    0 <= j < i && self.contents().contains_key(look_here_first@[j]) && !fails(
                        predicate,
                        self.contents()[look_here_first@[j]],
                    ),
        ensures
            r matches Some(k) ==> self.contents().contains_key(k) && passes(predicate, self.contents()[k]),
            r is None ==> forall|k: KeyType|
                self.contents().contains_key(k) ==> fails(predicate, #[trigger] self.contents()[k]),
            r matches Some(k) ==> {
                ||| exists|j: int|
                    0 <= j < look_here_first@.len() && look_here_first@[j] == k && forall|i: int|
                        0 <= i < j ==> !self.contents().contains_key(#[trigger] look_here_first@[i])
                            || fails(predicate, self.contents()[look_here_first@[i]])
                ||| forall|i: int|
                    0 <= i < look_here_first@.len() ==> !self.contents().contains_key(
                        #[trigger] look_here_first@[i],
                    ) || fails(predicate, self.contents()[look_here_first@[i]])
            },
    ;

    /// Stop holding `key`; returns its value if it was held.
    fn remove(&mut self, key: &KeyType) -> (r: Option<ValueType>)
        requires
            Self::obeys_map_laws(),
            old(self).can_look_up(*key),
        ensures
            final(self).contents() == old(self).contents().remove(*key),
            old(self).holds_removed(*key, final(self)),
            r == (if old(self).contents().contains_key(*key) {
                Some(old(self).contents()[*key])
            } else {
                None
            }),
    ;

    /// `value_mapper` applied to every value held, each once, in some order of the keys.
    fn map_values<T, F: Fn(&ValueType) -> T>(&self, value_mapper: F) -> (r: Vec<T>)
        requires
            Self::obeys_map_laws(),
            forall|v: ValueType| value_mapper.requires((&v,)),
        ensures
            exists|ks: Seq<KeyType>|
                {
                    &&& ks.no_duplicates()
                    &&& ks.to_set() == self.contents().dom()
                    &&& ks.len() == r@.len()
                    &&& forall|i: int|
                        0 <= i < ks.len() ==> value_mapper.ensures(
                            (&self.contents()[#[trigger] ks[i]],),
                            r@[i],
                        )
                },
    ;

    /// Every key whose value `predicate` accepts, each once.
    fn find_all<P: Fn(&ValueType) -> bool>(&self, predicate: P) -> (r: Vec<KeyType>)
        requires
            Self::obeys_map_laws(),
            forall|v: ValueType| predicate.requires((&v,)),
        ensures
            r@.no_duplicates(),
            forall|i: int|
                0 <= i < r@.len() ==> self.contents().contains_key(#[trigger] r@[i]) && passes(
                    predicate,
                    self.contents()[r@[i]],
                ),
            forall|k: KeyType|
                self.contents().contains_key(k) ==> r@.contains(k) || fails(
                    predicate,
                    #[trigger] self.contents()[k],
                ),
    ;
}

/// The slots of `s` that hold a value, and their values.
pub open spec fn slot_contents<V>(s: Seq<Option<V>>) -> Map<usize, V> {
    Map::new(|k: usize| k < s.len() && s[k as int] is Some, |k: usize| s[k as int]->0)
}

/// The slots `s` with `v` put in slot `k`, a new slot at the end when `k` is past them.
pub open spec fn slots_with<V>(s: Seq<Option<V>>, k: usize, v: V) -> Seq<Option<V>> {
    if k < s.len() {
        s.update(k as int, Some(v))
    } else {
        s.push(Some(v))
    }
}

/// The slots `s` with slot `k` emptied.
pub open spec fn slots_without<V>(s: Seq<Option<V>>, k: usize) -> Seq<Option<V>> {
    s.update(k as int, None)
}

/// How many slots of `s` hold a value.
pub open spec fn count_held<V>(s: Seq<Option<V>>) -> nat
    decreases s.len(),
{
    if s.len() == 0 {
        0
    } else {
        count_held(s.drop_last()) + if s.last() is Some {
            1nat
        } else {
            0nat
        }
    }
}

/// The keys of the slots that hold a value are finitely many, as many as those slots.
proof fn lemma_slot_contents_len<V>(s: Seq<Option<V>>)
    requires
        s.len() <= usize::MAX,
    ensures
        slot_contents(s).dom().finite(),
        slot_contents(s).dom().len() == count_held(s),
    decreases s.len(),
{
    if s.len() == 0 {
        assert(slot_contents(s).dom() =~= Set::<usize>::empty());
    } else {
        let d = s.drop_last();
        lemma_slot_contents_len(d);
        let n = (s.len() - 1) as usize;
        if s.last() is Some {
            assert(slot_contents(s).dom() =~= slot_contents(d).dom().insert(n));
        } else {
            assert(slot_contents(s).dom() =~= slot_contents(d).dom());
        }
    }
}

impl<ValueType> GeneralMap<usize, ValueType> for Vec<Option<ValueType>> {
    open spec fn contents(&self) -> Map<usize, ValueType> {
        slot_contents(self@)
    }

    open spec fn obeys_map_laws() -> bool {
        true
    }

    open spec fn can_look_up(&self, key: usize) -> bool {
        key < self@.len()
    }

    open spec fn can_insert(&self, key: usize) -> bool {
        true
    }

    open spec fn is_fresh(&self) -> bool {
        self@.len() == 0
    }

    open spec fn holds_inserted(&self, key: usize, value: ValueType, after: &Self) -> bool {
        after@ == slots_with(self@, key, value)
    }

    open spec fn holds_removed(&self, key: usize, after: &Self) -> bool {
        after@ == slots_without(self@, key)
    }

    /// The preferred slot if it is empty, else the first empty slot, else a new slot at the end.
    open spec fn chosen_key(&self, preferred: usize) -> usize {
        if preferred < self@.len() && self@[preferred as int] is None {
            preferred
        } else if exists|j: int| 0 <= j < self@.len() && self@[j] is None {
            (choose|j: int|
                0 <= j < self@.len() && self@[j] is None && forall|i: int| 0 <= i < j ==> self@[i] is Some) as usize
        } else {
            self@.len() as usize
        }
    }

    fn new() -> (r: Self) {
        let r: Vec<Option<ValueType>> = Vec::new();
        assert(slot_contents(r@) =~= Map::<usize, ValueType>::empty());
        r
    }

    fn is_empty(&self) -> (r: bool) {
        let n = self.len();
        let mut i: usize = 0;
        while i < n
            invariant
                n == self@.len(),
                i <= n,
                forall|j: int| 0 <= j < i ==> self@[j] is None,
            decreases n - i,
        {
            if self[i].is_some() {
                assert(slot_contents(self@).dom().contains(i));
                return false;
            }
            i = i + 1;
        }
        assert(slot_contents(self@).dom() =~= Set::<usize>::empty());
        true
    }

    fn len(&self) -> (r: usize) {
        let n = Vec::len(self);
        let mut acc: usize = 0;
        let mut i: usize = 0;
        while i < n
            invariant
                n == self@.len(),
                i <= n,
                acc == count_held(self@.take(i as int)),
                acc <= i,
            decreases n - i,
        {
            assert(self@.take(i + 1).drop_last() =~= self@.take(i as int));
            if self[i].is_some() {
                acc = acc + 1;
            }
            i = i + 1;
        }
        assert(self@.take(n as int) =~= self@);
        proof {
            lemma_slot_contents_len(self@);
        }
        acc
    }

    fn any<P: Fn(&ValueType) -> bool>(&self, predicate: P) -> (r: bool) {
        let n = Vec::len(self);
        let mut i: usize = 0;
        while i < n
            invariant
                n == self@.len(),
                i <= n,
                forall|v: ValueType| predicate.requires((&v,)),
                forall|j: int|
                    0 <= j < i && self@[j] is Some ==> fails(predicate, #[trigger] self@[j]->0),
            decreases n - i,
        {
            if let Some(real_v) = &self[i] {
                if predicate(real_v) {
                    assert(slot_contents(self@).contains_key(i));
                    assert(slot_contents(self@)[i] == *real_v);
                    assert(passes(predicate, slot_contents(self@)[i]));
                    assert(self.contents().contains_key(i) && passes(predicate, self.contents()[i]));
                    return true;
                }
            }
            i = i + 1;
        }
        assert forall|k: usize| #[trigger] slot_contents(self@).contains_key(k) implies fails(
            predicate,
            slot_contents(self@)[k],
        ) by {
            assert(self@[k as int] is Some);
        }
        false
    }

    fn insert(&mut self, slightly_preferred_key: usize, value: ValueType) -> (r: usize)
    {
        let vec_len = Vec::len(self);
        if slightly_preferred_key < vec_len && self[slightly_preferred_key].is_none() {
            self.set(slightly_preferred_key, Some(value));
            assert(slot_contents(self@) =~= slot_contents(old(self)@).insert(
                slightly_preferred_key,
                value,
            ));
            slightly_preferred_key
        } else {
            let mut where_to_put: usize = 0;
            while where_to_put < vec_len
                invariant
                    self@ == old(self)@,
                    vec_len == self@.len(),
                    !(slightly_preferred_key < vec_len && old(self)@[slightly_preferred_key as int] is None),
                    where_to_put <= vec_len,
                    forall|i: int| 0 <= i < where_to_put ==> self@[i] is Some,
                decreases vec_len - where_to_put,
            {
                if self[where_to_put].is_none() {
                    proof {
                        let s = old(self)@;
                        let w = where_to_put as int;
                        assert(0 <= w < s.len() && s[w] is None);
                        assert(exists|j: int| 0 <= j < s.len() && s[j] is None);
                        assert(0 <= w < s.len() && s[w] is None && forall|i: int| 0 <= i < w ==> s[i] is Some);
                        let c = choose|j: int|
                            0 <= j < s.len() && s[j] is None && forall|i: int| 0 <= i < j ==> s[i] is Some;
                        assert(0 <= c < s.len() && s[c] is None && forall|i: int| 0 <= i < c ==> s[i] is Some);
                        if c < w {
                            assert(s[c] is Some);
                        }
                        if c > w {
                            assert(s[w] is Some);
                        }
                        assert(c == w);
                        assert(old(self).chosen_key(slightly_preferred_key) == where_to_put);
                    }
                    self.set(where_to_put, Some(value));
                    assert(slot_contents(self@) =~= slot_contents(old(self)@).insert(where_to_put, value));
                    return where_to_put;
                }
                where_to_put = where_to_put + 1;
            }
            self.push(Some(value));
            assert(slot_contents(self@) =~= slot_contents(old(self)@).insert(vec_len, value));
            vec_len
        }
    }

    fn find<P: Fn(&ValueType) -> bool>(&self, look_here_first: &[usize], predicate: P) -> (r: Option<
        usize,
    >)
        ensures
            r is None ==> forall|i: int| 0 <= i < self@.len() && self@[i] is Some ==> fails(
                predicate,
                #[trigger] self@[i]->0,
            ),
            r matches Some(k) ==> (!look_here_first@.contains(k) ==> forall|i: int|
                0 <= i < k && self@[i] is Some ==> fails(predicate, #[trigger] self@[i]->0)),
    {
        let m = look_here_first.len();
        let mut j: usize = 0;
        while j < m
            invariant
                m == look_here_first@.len(),
                j <= m,
                forall|v: ValueType| predicate.requires((&v,)),
                forall|i: int|
                    0 <= i < m ==> self.can_look_up(#[trigger] look_here_first@[i]) || exists|j2: int|
                        0 <= j2 < i && self.contents().contains_key(look_here_first@[j2]) && !fails(
                            predicate,
                            self.contents()[look_here_first@[j2]],
                        ),
                forall|i: int|
                    0 <= i < j ==> !slot_contents(self@).contains_key(#[trigger] look_here_first@[i])
                        || fails(predicate, slot_contents(self@)[look_here_first@[i]]),
            decreases m - j,
        {
            let key = look_here_first[j];
            assert(self.can_look_up(look_here_first@[j as int])) by {
                if !self.can_look_up(look_here_first@[j as int]) {
                    let j2 = choose|j2: int|
                        0 <= j2 < j && self.contents().contains_key(look_here_first@[j2]) && !fails(
                            predicate,
                            self.contents()[look_here_first@[j2]],
                        );
                    assert(!slot_contents(self@).contains_key(look_here_first@[j2]) || fails(
                        predicate,
                        slot_contents(self@)[look_here_first@[j2]],
                    ));
                }
            }
            if let Some(value_found) = &self[key] {
                if predicate(value_found) {
                    assert(slot_contents(self@).contains_key(key));
                    return Some(key);
                }
            }
            j = j + 1;
        }
        let n = Vec::len(self);
        let mut idx: usize = 0;
        while idx < n
            invariant
                n == self@.len(),
                m == look_here_first@.len(),
                idx <= n,
                forall|v: ValueType| predicate.requires((&v,)),
                forall|i: int|
                    0 <= i < m ==> !slot_contents(self@).contains_key(#[trigger] look_here_first@[i])
                        || fails(predicate, slot_contents(self@)[look_here_first@[i]]),
                forall|i: int|
                    0 <= i < idx && self@[i] is Some ==> fails(predicate, #[trigger] self@[i]->0),
            decreases n - idx,
        {
            if let Some(real_value) = &self[idx] {
                if predicate(real_value) {
                    assert(slot_contents(self@).contains_key(idx));
                    assert(slot_contents(self@)[idx] == *real_value);
                    assert(forall|i: int|
                        0 <= i < look_here_first@.len() ==> !self.contents().contains_key(
                            #[trigger] look_here_first@[i],
                        ) || fails(predicate, self.contents()[look_here_first@[i]]));
                    return Some(idx);
                }
            }
            idx = idx + 1;
        }
        assert forall|k: usize| #[trigger] slot_contents(self@).contains_key(k) implies fails(
            predicate,
            slot_contents(self@)[k],
        ) by {
            assert(self@[k as int] is Some);
        }
        None
    }

    fn remove(&mut self, key: &usize) -> (r: Option<ValueType>) {
        let mut to_return = None;
        self.set_and_swap(*key, &mut to_return);
        assert(slot_contents(self@) =~= slot_contents(old(self)@).remove(*key));
        to_return
    }

    fn map_values<T, F: Fn(&ValueType) -> T>(&self, value_mapper: F) -> (r: Vec<T>)
        ensures
            exists|ks: Seq<usize>|
                {
                    &&& forall|a: int, b: int| 0 <= a < b < ks.len() ==> ks[a] < ks[b]
                    &&& ks.to_set() == self.contents().dom()
                    &&& ks.len() == r@.len()
                    &&& forall|i: int|
                        0 <= i < ks.len() ==> value_mapper.ensures(
                            (&self.contents()[#[trigger] ks[i]],),
                            r@[i],
                        )
                },
    {
        let n = Vec::len(self);
        let mut out: Vec<T> = Vec::new();
        let mut i: usize = 0;
        let ghost mut ks: Seq<usize> = Seq::empty();
        while i < n
            invariant
                n == self@.len(),
                i <= n,
                forall|v: ValueType| value_mapper.requires((&v,)),
                ks.len() == out@.len(),
                forall|a: int, b: int| 0 <= a < b < ks.len() ==> ks[a] < ks[b],
                forall|a: int| 0 <= a < ks.len() ==> ks[a] < i && #[trigger] self@[ks[a] as int] is Some,
                forall|k: usize| k < i && self@[k as int] is Some ==> ks.contains(k),
                forall|a: int|
                    0 <= a < ks.len() ==> value_mapper.ensures(
                        (&slot_contents(self@)[#[trigger] ks[a]],),
                        out@[a],
                    ),
            decreases n - i,
        {
            let ghost ks_before = ks;
            if let Some(v) = &self[i] {
                let mapped = value_mapper(v);
                proof {
                    assert(slot_contents(self@)[i] == *v);
                    ks = ks.push(i);
                }
                out.push(mapped);
            }
            assert forall|k: usize| k < i + 1 && self@[k as int] is Some implies ks.contains(k) by {
                if k < i {
                    assert(ks_before.contains(k));
                    let a = choose|a: int| 0 <= a < ks_before.len() && ks_before[a] == k;
                    assert(ks[a] == k);
                } else {
                    assert(ks[ks.len() - 1] == k);
                }
            }
            i = i + 1;
        }
        proof {
            assert forall|a: int, b: int| 0 <= a < ks.len() && 0 <= b < ks.len() && a != b implies ks[a]
                != ks[b] by {
                if a < b {
                    assert(ks[a] < ks[b]);
                } else {
                    assert(ks[b] < ks[a]);
                }
            }
            assert forall|k: usize| ks.to_set().contains(k) <==> slot_contents(self@).dom().contains(k) by {
                if ks.to_set().contains(k) {
                    let a = choose|a: int| 0 <= a < ks.len() && ks[a] == k;
                }
            }
            assert(ks.to_set() =~= slot_contents(self@).dom());
        }
        out
    }

    fn find_all<P: Fn(&ValueType) -> bool>(&self, predicate: P) -> (r: Vec<usize>)
        ensures
            forall|a: int, b: int| 0 <= a < b < r@.len() ==> r@[a] < r@[b],
    {
        let n = Vec::len(self);
        let mut out: Vec<usize> = Vec::new();
        let mut k: usize = 0;
        while k < n
            invariant
                n == self@.len(),
                k <= n,
                forall|v: ValueType| predicate.requires((&v,)),
                forall|a: int, b: int| 0 <= a < b < out@.len() ==> out@[a] < out@[b],
                forall|a: int|
                    0 <= a < out@.len() ==> out@[a] < k && slot_contents(self@).contains_key(
                        #[trigger] out@[a],
                    ) && passes(predicate, slot_contents(self@)[out@[a]]),
                forall|j: usize|
                    j < k && #[trigger] slot_contents(self@).contains_key(j) ==> out@.contains(j)
                        || fails(predicate, slot_contents(self@)[j]),
            decreases n - k,
        {
            let ghost out_before = out@;
            if let Some(real_v) = &self[k] {
                if predicate(real_v) {
                    out.push(k);
                    assert(out@[out@.len() - 1] == k);
                }
            }
            assert forall|j: usize|
                j < k + 1 && #[trigger] slot_contents(self@).contains_key(j) implies out@.contains(j)
                || fails(predicate, slot_contents(self@)[j]) by {
                if j < k {
                    if out_before.contains(j) {
                        let a = choose|a: int| 0 <= a < out_before.len() && out_before[a] == j;
                        assert(out@[a] == j);
                    }
                } else if out@.len() > out_before.len() {
                    assert(out@[out@.len() - 1] == j);
                }
            }
            k = k + 1;
        }
        proof {
            assert forall|a: int, b: int| 0 <= a < out@.len() && 0 <= b < out@.len() && a != b implies out@[a]
                != out@[b] by {
                if a < b {
                    assert(out@[a] < out@[b]);
                } else {
                    assert(out@[b] < out@[a]);
                }
            }
        }
        out
    }
}

/// What iterating a hash map yields: each key held once, with its value.
proof fn lemma_hash_map_pairs<KeyType: Eq + Hash + Clone, ValueType>(m: &HashMap<KeyType, ValueType>)
    requires
        obeys_key_laws::<KeyType>(),
    ensures
        ({
            let pairs = m.iter().remaining().unref();
            &&& pairs.len() == m@.dom().len()
            &&& m.iter().remaining().no_duplicates() ==> pairs.no_duplicates()
            &&& forall|i: int|
                0 <= i < pairs.len() ==> m@.contains_key(#[trigger] pairs[i].0) && m@[pairs[i].0]
                    == pairs[i].1
            &&& forall|k: KeyType| #[trigger] m@.contains_key(k) ==> pairs.contains((k, m@[k]))
        }),
{
    let rem = m.iter().remaining();
    let pairs = rem.unref();
    assert forall|i: int| 0 <= i < pairs.len() implies m@.contains_key(#[trigger] pairs[i].0) && m@[pairs[i].0]
        == pairs[i].1 by {
        assert(m@.contains_key(*rem[i].0));
    }
    assert forall|k: KeyType| #[trigger] m@.contains_key(k) implies pairs.contains((k, m@[k])) by {
        assert(rem.contains((&k, &m@[k])));
        let i = choose|i: int| 0 <= i < rem.len() && rem[i] == (&k, &m@[k]);
        assert(pairs[i] == (k, m@[k]));
    }
    if rem.no_duplicates() {
        assert forall|a: int, b: int| 0 <= a < pairs.len() && 0 <= b < pairs.len() && a != b implies pairs[a]
            != pairs[b] by {
            assert(rem[a] != rem[b]);
        }
    }
}

impl<KeyType, ValueType> GeneralMap<KeyType, ValueType> for HashMap<KeyType, ValueType> where
    KeyType: Eq + Hash + Clone,
 {
    open spec fn contents(&self) -> Map<KeyType, ValueType> {
        self@
    }

    open spec fn obeys_map_laws() -> bool {
        obeys_key_laws::<KeyType>()
    }

    open spec fn can_look_up(&self, key: KeyType) -> bool {
        true
    }

    /// A key already held cannot be offered again.
    open spec fn can_insert(&self, key: KeyType) -> bool {
        !self@.contains_key(key)
    }

    /// The offered key itself.
    open spec fn chosen_key(&self, preferred: KeyType) -> KeyType {
        preferred
    }

    open spec fn is_fresh(&self) -> bool {
        self@ == Map::<KeyType, ValueType>::empty()
    }

    open spec fn holds_inserted(&self, key: KeyType, value: ValueType, after: &Self) -> bool {
        after@ == self@.insert(key, value)
    }

    open spec fn holds_removed(&self, key: KeyType, after: &Self) -> bool {
        after@ == self@.remove(key)
    }

    fn new() -> (r: Self) {
        HashMap::new()
    }

    fn is_empty(&self) -> (r: bool) {
        let r = HashMap::is_empty(self);
        assert(r == (self@.dom() =~= Set::<KeyType>::empty()));
        r
    }

    fn len(&self) -> (r: usize) {
        HashMap::len(self)
    }

    fn any<P: Fn(&ValueType) -> bool>(&self, predicate: P) -> (r: bool) {
        let ghost order = self.values().remaining().unref();
        for v in it: self.values()
            invariant
                obeys_key_laws::<KeyType>(),
                forall|v: ValueType| predicate.requires((&v,)),
                order == it.seq().unref(),
                order.to_set() == self@.values(),
                forall|j: int| 0 <= j < it.index() ==> fails(predicate, #[trigger] order[j]),
        {
            if predicate(v) {
                proof {
                    assert(order[it.index()] == *v);
                    assert(order.to_set().contains(*v));
                    let k = choose|k: KeyType| self@.contains_key(k) && self@[k] == *v;
                    assert(self.contents().contains_key(k) && passes(predicate, self.contents()[k]));
                }
                return true;
            }
        }
        assert forall|k: KeyType| #[trigger] self@.contains_key(k) implies fails(predicate, self@[k]) by {
            assert(self@.values().contains(self@[k]));
            assert(order.to_set().contains(self@[k]));
            let j = choose|j: int| 0 <= j < order.len() && order[j] == self@[k];
        }
        false
    }

    fn insert(&mut self, slightly_preferred_key: KeyType, value: ValueType) -> (r: KeyType) {
        let key = slightly_preferred_key;
        let copy = key.clone();
        assert(cloned::<KeyType>(key, copy));
        let z = HashMap::insert(self, copy, value);
        proof {
            assert(z is None);
        }
        key
    }

    fn find<P: Fn(&ValueType) -> bool>(&self, look_here_first: &[KeyType], predicate: P) -> (r:
        Option<KeyType>) {
        let m = look_here_first.len();
        let mut j: usize = 0;
        while j < m
            invariant
                obeys_key_laws::<KeyType>(),
                m == look_here_first@.len(),
                j <= m,
                forall|v: ValueType| predicate.requires((&v,)),
                forall|i: int|
                    0 <= i < j ==> !self@.contains_key(#[trigger] look_here_first@[i]) || fails(
                        predicate,
                        self@[look_here_first@[i]],
                    ),
            decreases m - j,
        {
            let key = &look_here_first[j];
            if let Some(value_found) = self.get(key) {
                if predicate(value_found) {
                    let found = key.clone();
                    assert(cloned::<KeyType>(*key, found));
                    return Some(found);
                }
            }
            j = j + 1;
        }
        let ghost pairs = self.iter().remaining().unref();
        proof {
            lemma_hash_map_pairs(self);
        }
        for kv in it: self.iter()
            invariant
                obeys_key_laws::<KeyType>(),
                m == look_here_first@.len(),
                forall|v: ValueType| predicate.requires((&v,)),
                forall|i: int|
                    0 <= i < m ==> !self@.contains_key(#[trigger] look_here_first@[i]) || fails(
                        predicate,
                        self@[look_here_first@[i]],
                    ),
                pairs == it.seq().unref(),
                pairs.len() == self@.dom().len(),
                forall|i: int|
                    0 <= i < pairs.len() ==> self@.contains_key(#[trigger] pairs[i].0) && self@[pairs[i].0]
                        == pairs[i].1,
                forall|k: KeyType| #[trigger] self@.contains_key(k) ==> pairs.contains((k, self@[k])),
                forall|i: int| 0 <= i < it.index() ==> fails(predicate, #[trigger] pairs[i].1),
        {
            let (key, value) = kv;
            assert(pairs[it.index()] == (*key, *value));
            if predicate(value) {
                let found = key.clone();
                assert(cloned::<KeyType>(*key, found));
                return Some(found);
            }
        }
        assert forall|k: KeyType| #[trigger] self@.contains_key(k) implies fails(predicate, self@[k]) by {
            assert(pairs.contains((k, self@[k])));
            let i = choose|i: int| 0 <= i < pairs.len() && pairs[i] == (k, self@[k]);
        }
        None
    }

    fn remove(&mut self, key: &KeyType) -> (r: Option<ValueType>) {
        HashMap::remove(self, key)
    }

    fn map_values<T, F: Fn(&ValueType) -> T>(&self, value_mapper: F) -> (r: Vec<T>) {
        let mut out: Vec<T> = Vec::new();
        let ghost pairs = self.iter().remaining().unref();
        proof {
            lemma_hash_map_pairs(self);
        }
        for kv in it: self.iter()
            invariant
                obeys_key_laws::<KeyType>(),
                forall|v: ValueType| value_mapper.requires((&v,)),
                self.iter().remaining().no_duplicates(),
                pairs.len() == self@.dom().len(),
                self.iter().remaining().no_duplicates() ==> pairs.no_duplicates(),
                forall|k: KeyType| #[trigger] self@.contains_key(k) ==> pairs.contains((k, self@[k])),
                pairs == it.seq().unref(),
                forall|i: int|
                    0 <= i < pairs.len() ==> self@.contains_key(#[trigger] pairs[i].0) && self@[pairs[i].0]
                        == pairs[i].1,
                out@.len() == it.index(),
                forall|i: int|
                    0 <= i < it.index() ==> value_mapper.ensures((&#[trigger] pairs[i].1,), out@[i]),
        {
            let (_key, value) = kv;
            assert(pairs[it.index()].1 == *value);
            out.push(value_mapper(value));
        }
        proof {
            let ks = pairs.map_values(|p: (KeyType, ValueType)| p.0);
            assert forall|a: int, b: int| 0 <= a < ks.len() && 0 <= b < ks.len() && a != b implies ks[a]
                != ks[b] by {
                assert(pairs[a] != pairs[b]);
                if ks[a] == ks[b] {
                    assert(pairs[a] == pairs[b]);
                }
            }
            assert forall|k: KeyType| ks.to_set().contains(k) <==> self@.dom().contains(k) by {
                if self@.contains_key(k) {
                    assert(pairs.contains((k, self@[k])));
                    let i = choose|i: int| 0 <= i < pairs.len() && pairs[i] == (k, self@[k]);
                    assert(ks[i] == k);
                }
                if ks.to_set().contains(k) {
                    let i = choose|i: int| 0 <= i < ks.len() && ks[i] == k;
                    assert(pairs[i].0 == k);
                }
            }
            assert(ks.to_set() =~= self@.dom());
            assert forall|i: int| 0 <= i < ks.len() implies value_mapper.ensures(
                (&self@[#[trigger] ks[i]],),
                out@[i],
            ) by {
                assert(self@[pairs[i].0] == pairs[i].1);
            }
        }
        out
    }

    fn find_all<P: Fn(&ValueType) -> bool>(&self, predicate: P) -> (r: Vec<KeyType>) {
        let mut out: Vec<KeyType> = Vec::new();
        let ghost pairs = self.iter().remaining().unref();
        let ghost mut taken: Seq<int> = Seq::empty();
        proof {
            lemma_hash_map_pairs(self);
        }
        for kv in it: self.iter()
            invariant
                obeys_key_laws::<KeyType>(),
                forall|v: ValueType| predicate.requires((&v,)),
                pairs == it.seq().unref(),
                self.iter().remaining().no_duplicates(),
                self.iter().remaining().no_duplicates() ==> pairs.no_duplicates(),
                forall|i: int|
                    0 <= i < pairs.len() ==> self@.contains_key(#[trigger] pairs[i].0) && self@[pairs[i].0]
                        == pairs[i].1,
                forall|k: KeyType| #[trigger] self@.contains_key(k) ==> pairs.contains((k, self@[k])),
                out@.len() == taken.len(),
                forall|a: int| 0 <= a < taken.len() ==> 0 <= #[trigger] taken[a] < it.index(),
                forall|a: int, b: int| 0 <= a < b < taken.len() ==> taken[a] < taken[b],
                forall|a: int| 0 <= a < taken.len() ==> out@[a] == pairs[#[trigger] taken[a]].0 && passes(
                    predicate,
                    pairs[taken[a]].1,
                ),
                forall|i: int|
                    0 <= i < it.index() ==> fails(predicate, #[trigger] pairs[i].1) || exists|a: int|
                        0 <= a < taken.len() && taken[a] == i,
        {
            let (key, value) = kv;
            let ghost idx = it.index();
            let ghost taken_before = taken;
            assert(pairs[idx] == (*key, *value));
            if predicate(value) {
                let found = key.clone();
                assert(cloned::<KeyType>(*key, found));
                proof {
                    taken = taken.push(idx);
                }
                out.push(found);
                assert(taken[taken.len() - 1] == idx);
            }
            assert forall|i: int| 0 <= i < idx + 1 implies fails(predicate, #[trigger] pairs[i].1)
                || exists|a: int| 0 <= a < taken.len() && taken[a] == i by {
                if i < idx {
                    if !fails(predicate, pairs[i].1) {
                        let a = choose|a: int| 0 <= a < taken_before.len() && taken_before[a] == i;
                        assert(taken[a] == i);
                    }
                } else if taken.len() > taken_before.len() {
                    assert(taken[taken.len() - 1] == i);
                }
            }
        }
        proof {
            assert forall|i: int| 0 <= i < out@.len() implies self.contents().contains_key(#[trigger] out@[i])
                && passes(predicate, self.contents()[out@[i]]) by {
                let x = taken[i];
                assert(self@.contains_key(pairs[x].0) && self@[pairs[x].0] == pairs[x].1);
            }
            assert forall|a: int, b: int| 0 <= a < out@.len() && 0 <= b < out@.len() && a != b implies out@[a]
                != out@[b] by {
                let (x, y) = (taken[a], taken[b]);
                if a < b {
                    assert(x < y);
                } else {
                    assert(y < x);
                }
                if out@[a] == out@[b] {
                    assert(pairs[x] == pairs[y]);
                }
            }
            assert forall|k: KeyType| self@.contains_key(k) implies out@.contains(k) || fails(
                predicate,
                #[trigger] self@[k],
            ) by {
                assert(pairs.contains((k, self@[k])));
                let i = choose|i: int| 0 <= i < pairs.len() && pairs[i] == (k, self@[k]);
                if !fails(predicate, pairs[i].1) {
                    let a = choose|a: int| 0 <= a < taken.len() && taken[a] == i;
                    assert(out@[a] == k);
                }
            }
        }
        out
    }
}

} // verus!
