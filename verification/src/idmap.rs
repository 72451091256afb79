//! A finite map keyed by `u64` ids.  Entries are held in a vector sorted
//! strictly by key, so iteration is deterministic and in ascending key order;
//! inserting an existing key overwrites its value (last write wins).

use vstd::prelude::*;
use vstd::map::*;

verus! {

/// Keys strictly ascending: sorted and free of duplicates.
pub open spec fn entries_sorted<V>(s: Seq<(u64, V)>) -> bool {
    forall|i: int, j: int| 0 <= i < j < s.len() ==> s[i].0 < s[j].0
}

/// The map that a sequence of entries denotes, later entries winning.
pub open spec fn entries_map<V>(s: Seq<(u64, V)>) -> Map<u64, V>
    decreases s.len(),
{
    if s.len() == 0 {
        Map::empty()
    } else {
        entries_map(s.drop_last()).insert(s.last().0, s.last().1)
    }
}

/// With pairwise-distinct keys, `entries_map` looks up exactly the entries.
pub proof fn lemma_entries_map_props<V>(s: Seq<(u64, V)>)
    requires
        forall|i: int, j: int| 0 <= i < j < s.len() ==> s[i].0 != s[j].0,
    ensures
        forall|k: u64|
            entries_map(s).contains_key(k) <==> exists|i: int|
                0 <= i < s.len() && s[i].0 == k,
        forall|i: int|
            0 <= i < s.len() ==> entries_map(s).contains_key(#[trigger] s[i].0)
                && entries_map(s)[s[i].0] == s[i].1,
    decreases s.len(),
{
    if s.len() > 0 {
        let s0 = s.drop_last();
        assert(s0 == s.subrange(0, s.len() - 1));
        assert forall|i: int| 0 <= i < s0.len() implies s0[i] == s[i] by {
            assert(s.subrange(0, s.len() - 1)[i] == s[i]);
        }
        lemma_entries_map_props(s0);
        assert(entries_map(s) == entries_map(s0).insert(s.last().0, s.last().1));
        assert forall|k: u64| entries_map(s).contains_key(k) implies exists|i: int|
            0 <= i < s.len() && s[i].0 == k by {
            if k == s.last().0 {
                assert(s[s.len() - 1].0 == k);
            } else {
                let i = choose|i: int| 0 <= i < s0.len() && s0[i].0 == k;
                assert(s[i].0 == k);
            }
        }
        assert forall|k: u64| (exists|i: int| 0 <= i < s.len() && s[i].0 == k) implies entries_map(
            s,
        ).contains_key(k) by {
            let i = choose|i: int| 0 <= i < s.len() && s[i].0 == k;
            if i < s.len() - 1 {
                assert(s0[i].0 == k);
            }
        }
        assert forall|i: int| 0 <= i < s.len() implies entries_map(s).contains_key(
            #[trigger] s[i].0,
        ) && entries_map(s)[s[i].0] == s[i].1 by {
            if i < s.len() - 1 {
                assert(s0[i] == s[i]);
                assert(s[i].0 != s.last().0);
            }
        }
    }
}

/// Overwriting the one entry that holds a key inserts into the denoted map.
proof fn lemma_map_after_update<V>(s_old: Seq<(u64, V)>, s_new: Seq<(u64, V)>, i: int, k: u64, v: V)
    requires
        entries_sorted(s_old),
        0 <= i < s_old.len(),
        s_old[i].0 == k,
        s_new.len() == s_old.len(),
        forall|j: int|
            0 <= j < s_new.len() ==> #[trigger] s_new[j] == (if j == i {
                (k, v)
            } else {
                s_old[j]
            }),
    ensures
        entries_sorted(s_new),
        entries_map(s_new) == entries_map(s_old).insert(k, v),
{
    lemma_entries_map_props(s_old);
    lemma_entries_map_props(s_new);
    assert forall|kk: u64|
        #[trigger] entries_map(s_new).contains_key(kk) == entries_map(s_old).insert(
            k,
            v,
        ).contains_key(kk) && (entries_map(s_new).contains_key(kk) ==> entries_map(s_new)[kk]
        == entries_map(s_old).insert(k, v)[kk]) by {
        if kk == k {
            assert(s_new[i].0 == k);
            assert(entries_map(s_new)[k] == v);
        } else {
            if entries_map(s_old).contains_key(kk) {
                let j = choose|j: int| 0 <= j < s_old.len() && s_old[j].0 == kk;
                assert(s_new[j].0 == kk);
            }
            if entries_map(s_new).contains_key(kk) {
                let j = choose|j: int| 0 <= j < s_new.len() && s_new[j].0 == kk;
                assert(s_old[j].0 == kk);
            }
        }
    }
    assert(entries_map(s_new) =~= entries_map(s_old).insert(k, v));
}

/// Splicing a fresh key in at its sorted position inserts into the map.
proof fn lemma_map_after_splice<V>(s_old: Seq<(u64, V)>, s_new: Seq<(u64, V)>, i: int, k: u64, v: V)
    requires
        entries_sorted(s_old),
        0 <= i <= s_old.len(),
        forall|j: int| 0 <= j < i ==> s_old[j].0 < k,
        i == s_old.len() || s_old[i].0 > k,
        s_new.len() == s_old.len() + 1,
        forall|j: int| 0 <= j < i ==> #[trigger] s_new[j] == s_old[j],
        s_new[i] == (k, v),
        forall|j: int| i < j < s_new.len() ==> #[trigger] s_new[j] == s_old[j - 1],
    ensures
        entries_sorted(s_new),
        entries_map(s_new) == entries_map(s_old).insert(k, v),
{
    lemma_entries_map_props(s_old);
    assert(entries_sorted(s_new));
    lemma_entries_map_props(s_new);
    assert forall|kk: u64|
        #[trigger] entries_map(s_new).contains_key(kk) == entries_map(s_old).insert(
            k,
            v,
        ).contains_key(kk) && (entries_map(s_new).contains_key(kk) ==> entries_map(s_new)[kk]
        == entries_map(s_old).insert(k, v)[kk]) by {
        if kk == k {
            assert(s_new[i].0 == k);
            assert(entries_map(s_new)[k] == v);
        } else {
            if entries_map(s_old).contains_key(kk) {
                let j = choose|j: int| 0 <= j < s_old.len() && s_old[j].0 == kk;
                if j < i {
                    assert(s_new[j].0 == kk);
                } else {
                    assert(s_new[j + 1].0 == kk);
                }
            }
            if entries_map(s_new).contains_key(kk) {
                let j = choose|j: int| 0 <= j < s_new.len() && s_new[j].0 == kk;
                if j < i {
                    assert(s_old[j].0 == kk);
                } else {
                    assert(s_old[j - 1].0 == kk);
                }
            }
        }
    }
    assert(entries_map(s_new) =~= entries_map(s_old).insert(k, v));
}

/// Splicing the one entry that holds a key out removes it from the map.
proof fn lemma_map_after_splice_out<V>(s_old: Seq<(u64, V)>, s_new: Seq<(u64, V)>, i: int, k: u64)
    requires
        entries_sorted(s_old),
        0 <= i < s_old.len(),
        s_old[i].0 == k,
        s_new.len() == s_old.len() - 1,
        forall|j: int| 0 <= j < i ==> #[trigger] s_new[j] == s_old[j],
        forall|j: int| i <= j < s_new.len() ==> #[trigger] s_new[j] == s_old[j + 1],
    ensures
        entries_sorted(s_new),
        entries_map(s_new) == entries_map(s_old).remove(k),
{
    lemma_entries_map_props(s_old);
    assert(entries_sorted(s_new));
    lemma_entries_map_props(s_new);
    assert forall|kk: u64|
        #[trigger] entries_map(s_new).contains_key(kk) == entries_map(s_old).remove(
            k,
        ).contains_key(kk) && (entries_map(s_new).contains_key(kk) ==> entries_map(s_new)[kk]
        == entries_map(s_old).remove(k)[kk]) by {
        if kk == k {
            if entries_map(s_new).contains_key(k) {
                let j = choose|j: int| 0 <= j < s_new.len() && s_new[j].0 == k;
                if j < i {
                    assert(s_old[j].0 == k);
                } else {
                    assert(s_old[j + 1].0 == k);
                }
            }
        } else {
            if entries_map(s_old).contains_key(kk) {
                let j = choose|j: int| 0 <= j < s_old.len() && s_old[j].0 == kk;
                assert(j != i);
                if j < i {
                    assert(s_new[j].0 == kk);
                } else {
                    assert(s_new[j - 1].0 == kk);
                }
            }
            if entries_map(s_new).contains_key(kk) {
                let j = choose|j: int| 0 <= j < s_new.len() && s_new[j].0 == kk;
                if j < i {
                    assert(s_old[j].0 == kk);
                } else {
                    assert(s_old[j + 1].0 == kk);
                }
            }
        }
    }
    assert(entries_map(s_new) =~= entries_map(s_old).remove(k));
}

/// A map from `u64` ids to values, iterable in ascending key order.
pub struct IdMap<V> {
    entries: Vec<(u64, V)>,
}

impl<V> IdMap<V> {
    /// Well-formedness: the entry vector is strictly sorted by key.
    pub closed spec fn inv(&self) -> bool {
        entries_sorted(self.entries@)
    }

    /// The map held.
    pub closed spec fn view(&self) -> Map<u64, V> {
        entries_map(self.entries@)
    }

    /// The entries in storage order (ascending by key when well-formed).
    pub closed spec fn entries_view(&self) -> Seq<(u64, V)> {
        self.entries@
    }

    /// The entry vector realises exactly the map, in ascending key order.
    pub proof fn lemma_entries(&self)
        requires
            self.inv(),
        ensures
            entries_sorted(self.entries_view()),
            forall|k: u64|
                self@.contains_key(k) <==> exists|i: int|
                    0 <= i < self.entries_view().len() && self.entries_view()[i].0 == k,
            forall|i: int|
                0 <= i < self.entries_view().len() ==> self@.contains_key(
                    #[trigger] self.entries_view()[i].0,
                ) && self@[self.entries_view()[i].0] == self.entries_view()[i].1,
    {
        lemma_entries_map_props(self.entries@);
    }

    pub fn new() -> (r: Self)
        ensures
            r.inv(),
            r@ == Map::<u64, V>::empty(),
            r.entries_view() == Seq::<(u64, V)>::empty(),
    {
        IdMap { entries: Vec::new() }
    }

    pub fn len(&self) -> (n: usize)
        ensures
            n == self.entries_view().len(),
    {
        self.entries.len()
    }

    /// The entry at a storage position.
    pub fn entry_at(&self, i: usize) -> (e: &(u64, V))
        requires
            i < self.entries_view().len(),
        ensures
            *e == self.entries_view()[i as int],
    {
        &self.entries[i]
    }

    /// Looks a key up: `Some` exactly when the key is in the map.
    pub fn get(&self, k: u64) -> (r: Option<&V>)
        requires
            self.inv(),
        ensures
            match r {
                Some(v) => self@.contains_key(k) && *v == self@[k],
                None => !self@.contains_key(k),
            },
    {
        proof {
            self.lemma_entries();
        }
        let mut i: usize = 0;
        while i < self.entries.len()
            invariant
                i <= self.entries@.len(),
                forall|j: int| 0 <= j < i ==> self.entries@[j].0 != k,
                self.inv(),
                forall|kk: u64|
                    self@.contains_key(kk) <==> exists|j: int|
                        0 <= j < self.entries@.len() && self.entries@[j].0 == kk,
                forall|j: int|
                    0 <= j < self.entries@.len() ==> self@.contains_key(
                        #[trigger] self.entries@[j].0,
                    ) && self@[self.entries@[j].0] == self.entries@[j].1,
            decreases self.entries@.len() - i,
        {
            let e = &self.entries[i];
            if e.0 == k {
                return Some(&e.1);
            }
            i += 1;
        }
        None
    }

    /// Removes a binding, handing its value back.
    pub fn remove(&mut self, k: u64) -> (r: Option<V>)
        requires
            old(self).inv(),
        ensures
            final(self).inv(),
            match r {
                Some(v) => old(self)@.contains_key(k) && v == old(self)@[k] && final(self)@ == old(
                    self,
                )@.remove(k),
                None => !old(self)@.contains_key(k) && final(self)@ == old(self)@
                    && final(self).entries_view() == old(self).entries_view(),
            },
    {
        proof {
            self.lemma_entries();
        }
        let ghost s_old = self.entries@;
        let mut i: usize = 0;
        while i < self.entries.len()
            invariant
                i <= self.entries@.len(),
                self.entries@ == s_old,
                s_old == old(self).entries@,
                entries_sorted(s_old),
                forall|j: int| 0 <= j < i ==> s_old[j].0 != k,
                forall|kk: u64|
                    entries_map(s_old).contains_key(kk) <==> exists|j: int|
                        0 <= j < s_old.len() && s_old[j].0 == kk,
                forall|j: int|
                    0 <= j < s_old.len() ==> entries_map(s_old).contains_key(#[trigger] s_old[j].0)
                        && entries_map(s_old)[s_old[j].0] == s_old[j].1,
            decreases self.entries@.len() - i,
        {
            let hit = {
                let e = &self.entries[i];
                e.0 == k
            };
            if hit {
                let e = self.entries.remove(i);
                proof {
                    assert(s_old[i as int].0 == k);
                    assert(entries_map(s_old).contains_key(k));
                    assert(entries_map(s_old)[k] == s_old[i as int].1);
                    assert(e == s_old[i as int]);
                    let s_new = self.entries@;
                    assert(s_new == s_old.remove(i as int));
                    assert forall|j: int| 0 <= j < i implies #[trigger] s_new[j] == s_old[j] by {
                        assert(s_old.remove(i as int)[j] == s_old[j]);
                    }
                    assert forall|j: int|
                        i <= j < s_new.len() implies #[trigger] s_new[j] == s_old[j + 1] by {
                        assert(s_old.remove(i as int)[j] == s_old[j + 1]);
                    }
                    lemma_map_after_splice_out(s_old, s_new, i as int, k);
                }
                return Some(e.1);
            }
            i += 1;
        }
        proof {
            if entries_map(s_old).contains_key(k) {
                let j = choose|j: int| 0 <= j < s_old.len() && s_old[j].0 == k;
                assert(s_old[j].0 != k);
            }
        }
        None
    }

    /// Inserts a binding, overwriting any previous value under the key.
    pub fn insert(&mut self, k: u64, v: V)
        requires
            old(self).inv(),
        ensures
            final(self).inv(),
            final(self)@ == old(self)@.insert(k, v),
    {
        let ghost s_old = self.entries@;
        let mut i: usize = 0;
        while i < self.entries.len() && self.entries[i].0 < k
            invariant
                i <= self.entries@.len(),
                self.entries@ == s_old,
                forall|j: int| 0 <= j < i ==> self.entries@[j].0 < k,
            decreases self.entries@.len() - i,
        {
            i += 1;
        }
        let replace = i < self.entries.len() && {
            let e = &self.entries[i];
            e.0 == k
        };
        if replace {
            self.entries.remove(i);
            self.entries.insert(i, (k, v));
            proof {
                let s_new = self.entries@;
                assert(s_new == s_old.remove(i as int).insert(i as int, (k, v)));
                assert forall|j: int| 0 <= j < s_new.len() implies #[trigger] s_new[j] == (if j
                    == i as int {
                    (k, v)
                } else {
                    s_old[j]
                }) by {
                    assert(s_old.remove(i as int).insert(i as int, (k, v))[j] == (if j == i as int {
                        (k, v)
                    } else {
                        s_old[j]
                    }));
                }
                lemma_map_after_update(s_old, s_new, i as int, k, v);
            }
        } else {
            self.entries.insert(i, (k, v));
            proof {
                let s_new = self.entries@;
                assert(s_new == s_old.insert(i as int, (k, v)));
                assert forall|j: int| 0 <= j < i implies #[trigger] s_new[j] == s_old[j] by {
                    assert(s_old.insert(i as int, (k, v))[j] == s_old[j]);
                }
                assert(s_old.insert(i as int, (k, v))[i as int] == (k, v));
                assert forall|j: int| i < j < s_new.len() implies #[trigger] s_new[j] == s_old[j
                    - 1] by {
                    assert(s_old.insert(i as int, (k, v))[j] == s_old[j - 1]);
                }
                lemma_map_after_splice(s_old, s_new, i as int, k, v);
            }
        }
    }
}

} // verus!
