//! The key-value store handle the tracker is given: string keys and values,
//! get / put / delete and a prefix scan, specified over a `Map` view.  Keys
//! are individually addressed, so each identifier's lifecycle is independent
//! of every other key.

use vstd::prelude::*;

use crate::text::str_eq;
use crate::text::str_starts_with;

verus! {

/// A store failure.  Absence of a key is its own distinguishable kind;
/// anything else is reported as the store being unavailable and is passed
/// through to callers unchanged.
#[derive(Clone, Copy, PartialEq, Eq, Structural, Debug)]
pub enum StoreError {
    NotFound,
    Unavailable,
}

/// An in-memory key-value store.  The tracker holds no state of its own:
/// everything it records lives in a store value like this one, handed in by
/// the caller.
pub struct KvStore {
    entries: Vec<(String, String)>,
}

impl View for KvStore {
    type V = Map<Seq<char>, Seq<char>>;

    closed spec fn view(&self) -> Map<Seq<char>, Seq<char>> {
        Map::new(
            |k: Seq<char>|
                exists|i: int| 0 <= i < self.entries@.len() && self.entries@[i].0@ == k,
            |k: Seq<char>|
                {
                    let i = choose|i: int|
                        0 <= i < self.entries@.len() && self.entries@[i].0@ == k;
                    self.entries@[i].1@
                },
        )
    }
}

impl KvStore {
    /// Each key is held at most once: the key space itself is the set.
    pub closed spec fn wf(self) -> bool {
        forall|i: int, j: int|
            0 <= i < j < self.entries@.len() ==> self.entries@[i].0@ != self.entries@[j].0@
    }

    pub fn new() -> (s: Self)
        ensures
            s.wf(),
            s@ == Map::<Seq<char>, Seq<char>>::empty(),
    {
        let s = KvStore { entries: Vec::new() };
        proof {
            assert(s@ =~= Map::<Seq<char>, Seq<char>>::empty());
        }
        s
    }

    /// Index of the entry holding `key`, if any.
    fn find_index(&self, key: &str) -> (r: Option<usize>)
        ensures
            match r {
                Some(i) => i < self.entries@.len() && self.entries@[i as int].0@ == key@,
                None => forall|j: int|
                    0 <= j < self.entries@.len() ==> self.entries@[j].0@ != key@,
            },
    {
        let mut i: usize = 0;
        let n = self.entries.len();
        while i < n
            invariant
                i <= n,
                n == self.entries@.len(),
                forall|j: int| 0 <= j < i ==> self.entries@[j].0@ != key@,
            decreases n - i,
        {
            if str_eq(self.entries[i].0.as_str(), key) {
                return Some(i);
            }
            i = i + 1;
        }
        None
    }

    /// With unique keys, the entry holding a key is the one the view reads.
    proof fn lemma_entry_is_view(self, i: int)
        requires
            self.wf(),
            0 <= i < self.entries@.len(),
        ensures
            self@.contains_key(self.entries@[i].0@),
            self@[self.entries@[i].0@] == self.entries@[i].1@,
    {
        let k = self.entries@[i].0@;
        let j = choose|j: int| 0 <= j < self.entries@.len() && self.entries@[j].0@ == k;
        assert(j == i);
    }

    /// Dropping the entry at `i` removes exactly its key from the view.
    proof fn lemma_view_after_remove(pre: Self, post: Self, i: int)
        requires
            pre.wf(),
            0 <= i < pre.entries@.len(),
            post.entries@ == pre.entries@.remove(i),
        ensures
            post.wf(),
            post@ == pre@.remove(pre.entries@[i].0@),
    {
        let es0 = pre.entries@;
        let es = post.entries@;
        let k0 = es0[i].0@;
        assert(forall|a: int|
            0 <= a < es.len() ==> es[a] == es0[if a < i {
                a
            } else {
                a + 1
            }]);
        assert(post.wf());
        assert forall|k: Seq<char>| #[trigger] post@.contains_key(k) implies pre@.remove(
            k0,
        ).contains_key(k) && post@[k] == pre@.remove(k0)[k] by {
            let a = choose|a: int| 0 <= a < es.len() && es[a].0@ == k;
            let b: int = if a < i {
                a
            } else {
                a + 1
            };
            assert(es0[b].0@ == k && es0[b].1@ == es[a].1@);
            assert(b != i);
            post.lemma_entry_is_view(a);
            pre.lemma_entry_is_view(b);
        }
        assert forall|k: Seq<char>| #[trigger] pre@.remove(k0).contains_key(k) implies
            post@.contains_key(k) by {
            let b = choose|b: int| 0 <= b < es0.len() && es0[b].0@ == k;
            assert(b != i);
            let a: int = if b < i {
                b
            } else {
                b - 1
            };
            assert(es[a].0@ == k);
        }
        assert(post@ =~= pre@.remove(k0));
    }

    /// Appending an entry with a fresh key inserts exactly that key.
    proof fn lemma_view_after_push(pre: Self, post: Self, key: Seq<char>, value: Seq<char>)
        requires
            pre.wf(),
            forall|j: int| 0 <= j < pre.entries@.len() ==> pre.entries@[j].0@ != key,
            post.entries@.len() == pre.entries@.len() + 1,
            post.entries@.last().0@ == key,
            post.entries@.last().1@ == value,
            forall|j: int| 0 <= j < pre.entries@.len() ==> post.entries@[j] == pre.entries@[j],
        ensures
            post.wf(),
            post@ == pre@.insert(key, value),
    {
        let es0 = pre.entries@;
        let es = post.entries@;
        let n = es0.len() as int;
        assert(post.wf());
        assert forall|k: Seq<char>| #[trigger] post@.contains_key(k) implies pre@.insert(
            key,
            value,
        ).contains_key(k) && post@[k] == pre@.insert(key, value)[k] by {
            let a = choose|a: int| 0 <= a < es.len() && es[a].0@ == k;
            post.lemma_entry_is_view(a);
            if a == n {
                assert(k == key);
            } else {
                assert(es0[a].0@ == k && k != key);
                pre.lemma_entry_is_view(a);
            }
        }
        assert forall|k: Seq<char>| #[trigger] pre@.insert(key, value).contains_key(k) implies
            post@.contains_key(k) by {
            if k == key {
                assert(es[n].0@ == k);
            } else {
                let b = choose|b: int| 0 <= b < es0.len() && es0[b].0@ == k;
                assert(es[b].0@ == k);
            }
        }
        assert(post@ =~= pre@.insert(key, value));
    }

    /// Writes `value` at `key`, overwriting any prior value.
    pub fn put(&mut self, key: &str, value: &str)
        requires
            old(self).wf(),
        ensures
            final(self).wf(),
            final(self)@ == old(self)@.insert(key@, value@),
    {
        let ghost pre = *self;
        match self.find_index(key) {
            Some(i) => {
                self.entries.remove(i);
                proof {
                    Self::lemma_view_after_remove(pre, *self, i as int);
                    assert(forall|j: int|
                        0 <= j < self.entries@.len() ==> self.entries@[j].0@ != key@);
                }
            },
            None => {},
        }
        let ghost mid = *self;
        self.entries.push((key.to_owned(), value.to_owned()));
        proof {
            Self::lemma_view_after_push(mid, *self, key@, value@);
            assert(self@ =~= pre@.insert(key@, value@));
        }
    }

    /// Reads the value at `key`.  Fails with the not-found kind exactly when
    /// the key is absent.
    pub fn get(&self, key: &str) -> (r: Result<String, StoreError>)
        requires
            self.wf(),
        ensures
            match r {
                Ok(v) => self@.contains_key(key@) && v@ == self@[key@],
                Err(e) => e == StoreError::NotFound && !self@.contains_key(key@),
            },
    {
        match self.find_index(key) {
            Some(i) => {
                proof {
                    self.lemma_entry_is_view(i as int);
                }
                Ok(self.entries[i].1.clone())
            },
            None => Err(StoreError::NotFound),
        }
    }

    /// Deletes the key.  Fails with the not-found kind exactly when the key
    /// is absent, in which case nothing changes.
    pub fn delete(&mut self, key: &str) -> (r: Result<(), StoreError>)
        requires
            old(self).wf(),
        ensures
            final(self).wf(),
            match r {
                Ok(()) => old(self)@.contains_key(key@) && final(self)@ == old(self)@.remove(
                    key@,
                ),
                Err(e) => e == StoreError::NotFound && !old(self)@.contains_key(key@)
                    && final(self)@ == old(self)@,
            },
    {
        let ghost pre = *self;
        match self.find_index(key) {
            Some(i) => {
                proof {
                    pre.lemma_entry_is_view(i as int);
                }
                self.entries.remove(i);
                proof {
                    Self::lemma_view_after_remove(pre, *self, i as int);
                }
                Ok(())
            },
            None => Err(StoreError::NotFound),
        }
    }

    /// Every key under `prefix`, with its value: each listed pair is in the
    /// store, every matching key is listed, and no key is listed twice.
    #[verifier::rlimit(50)]
    pub fn list_prefix(&self, prefix: &str) -> (r: Vec<(String, String)>)
        requires
            self.wf(),
        ensures
            forall|a: int|
                0 <= a < r@.len() ==> prefix@.is_prefix_of(#[trigger] r@[a].0@)
                    && self@.contains_key(r@[a].0@) && r@[a].1@ == self@[r@[a].0@],
            forall|k: Seq<char>|
                #[trigger] self@.contains_key(k) && prefix@.is_prefix_of(k) ==> exists|a: int|
                    0 <= a < r@.len() && r@[a].0@ == k,
            forall|a: int, b: int| 0 <= a < b < r@.len() ==> r@[a].0@ != r@[b].0@,
    {
        let mut r: Vec<(String, String)> = Vec::new();
        let n = self.entries.len();
        let mut i: usize = 0;
        while i < n
            invariant
                i <= n,
                n == self.entries@.len(),
                self.wf(),
                forall|a: int|
                    0 <= a < r@.len() ==> prefix@.is_prefix_of(#[trigger] r@[a].0@) && exists|j: int|
                        0 <= j < i && self.entries@[j].0@ == r@[a].0@ && self.entries@[j].1@
                            == r@[a].1@,
                forall|j: int|
                    0 <= j < i && prefix@.is_prefix_of(#[trigger] self.entries@[j].0@)
                        ==> exists|a: int| 0 <= a < r@.len() && r@[a].0@ == self.entries@[j].0@,
                forall|a: int, b: int| 0 <= a < b < r@.len() ==> r@[a].0@ != r@[b].0@,
            decreases n - i,
        {
            let ghost i0: int = i as int;
            if str_starts_with(self.entries[i].0.as_str(), prefix) {
                let ghost r_old: Seq<(String, String)> = r@;
                r.push((self.entries[i].0.clone(), self.entries[i].1.clone()));
                proof {
                    let last: int = r@.len() - 1;
                    assert(r@[last].0@ == self.entries@[i0].0@);
                    assert(r@[last].1@ == self.entries@[i0].1@);
                    assert(forall|a: int| 0 <= a < r_old.len() ==> r@[a] == r_old[a]);
                    assert forall|a: int, b: int| 0 <= a < b < r@.len() implies r@[a].0@
                        != r@[b].0@ by {
                        if b == last {
                            let j = choose|j: int|
                                0 <= j < i0 && self.entries@[j].0@ == r_old[a].0@
                                    && self.entries@[j].1@ == r_old[a].1@;
                            assert(self.entries@[j].0@ != self.entries@[i0].0@);
                        }
                    }
                    assert forall|j: int|
                        0 <= j < i0 + 1 && prefix@.is_prefix_of(
                            #[trigger] self.entries@[j].0@,
                        ) implies exists|a: int|
                        0 <= a < r@.len() && r@[a].0@ == self.entries@[j].0@ by {
                        if j == i0 {
                            assert(0 <= last < r@.len() && r@[last].0@ == self.entries@[j].0@);
                        } else {
                            let a = choose|a: int|
                                0 <= a < r_old.len() && r_old[a].0@ == self.entries@[j].0@;
                            assert(0 <= a < r@.len() && r@[a].0@ == self.entries@[j].0@);
                        }
                    }
                }
            } else {
                proof {
                    assert(!prefix@.is_prefix_of(self.entries@[i0].0@));
                }
            }
            i = i + 1;
        }
        proof {
            assert forall|a: int|
                0 <= a < r@.len() implies prefix@.is_prefix_of(#[trigger] r@[a].0@)
                && self@.contains_key(r@[a].0@) && r@[a].1@ == self@[r@[a].0@] by {
                let j = choose|j: int|
                    0 <= j < n && self.entries@[j].0@ == r@[a].0@ && self.entries@[j].1@
                        == r@[a].1@;
                self.lemma_entry_is_view(j);
            }
            assert forall|k: Seq<char>|
                #[trigger] self@.contains_key(k) && prefix@.is_prefix_of(k) implies exists|a: int|
                0 <= a < r@.len() && r@[a].0@ == k by {
                let j = choose|j: int| 0 <= j < self.entries@.len() && self.entries@[j].0@ == k;
                assert(prefix@.is_prefix_of(self.entries@[j].0@));
            }
        }
        r
    }
}

} // verus!
