//! Replies that are made once, when the server starts, and looked up by the
//! id of their directory.

use crate::bytes::bytes_equal;
use crate::order;
use crate::order::le;
use vstd::prelude::*;
use vstd::string::*;

verus! {

/// Replies by the id of their directory. The entries are in ascending order
/// of their keys, and no key occurs twice.
pub struct Cache {
    entries: Vec<(Vec<u8>, String)>,
}

impl View for Cache {
    type V = Map<Seq<u8>, Seq<char>>;

    closed spec fn view(&self) -> Map<Seq<u8>, Seq<char>> {
        Map::new(
            |k: Seq<u8>| self.has_key(k),
            |k: Seq<u8>| self.entries@[choose|i: int| self.key_at(k, i)].1@,
        )
    }
}

impl Cache {
    /// The entry at position `i` has the key `k`.
    spec fn key_at(&self, k: Seq<u8>, i: int) -> bool {
        0 <= i < self.entries@.len() && self.entries@[i].0@ == k
    }

    spec fn has_key(&self, k: Seq<u8>) -> bool {
        exists|i: int| self.key_at(k, i)
    }

    /// The entries are in ascending order of their keys, each once.
    #[verifier::type_invariant]
    spec fn is_ordered(&self) -> bool {
        forall|i: int, j: int|
            0 <= i < j < self.entries@.len() ==> {
                &&& order::bytes_le(
                    (#[trigger] self.entries@[i]).0@,
                    (#[trigger] self.entries@[j]).0@,
                )
                &&& self.entries@[i].0@ != self.entries@[j].0@
            }
    }

    /// An empty cache.
    pub fn new() -> (r: Cache)
        ensures
            r@ == Map::<Seq<u8>, Seq<char>>::empty(),
    {
        let r = Cache { entries: Vec::new() };
        assert(r@ =~= Map::empty());
        r
    }

    /// The position of the first key that is not before `key`.
    fn position(&self, key: &[u8]) -> (r: usize)
        ensures
            r <= self.entries@.len(),
            forall|i: int|
                0 <= i < r ==> order::bytes_le((#[trigger] self.entries@[i]).0@, key@)
                    && self.entries@[i].0@ != key@,
            forall|i: int|
                r <= i < self.entries@.len() ==> order::bytes_le(
                    key@,
                    (#[trigger] self.entries@[i]).0@,
                ),
    {
        proof {
            use_type_invariant(self);
        }
        let mut lo: usize = 0;
        let mut hi: usize = self.entries.len();
        while lo < hi
            invariant
                self.is_ordered(),
                lo <= hi <= self.entries@.len(),
                forall|i: int|
                    0 <= i < lo ==> order::bytes_le((#[trigger] self.entries@[i]).0@, key@)
                        && self.entries@[i].0@ != key@,
                forall|i: int|
                    hi <= i < self.entries@.len() ==> order::bytes_le(
                        key@,
                        (#[trigger] self.entries@[i]).0@,
                    ),
            decreases hi - lo,
        {
            let mid = lo + (hi - lo) / 2;
            let ghost m = self.entries@[mid as int].0@;
            if le(key, self.entries[mid].0.as_slice()) {
                proof {
                    assert forall|i: int| mid <= i < self.entries@.len() implies order::bytes_le(
                        key@,
                        (#[trigger] self.entries@[i]).0@,
                    ) by {
                        if i > mid {
                            assert(order::bytes_le(
                                self.entries@[mid as int].0@,
                                self.entries@[i].0@,
                            ));
                            order::lemma_bytes_le_transitive(key@, m, self.entries@[i].0@);
                        }
                    }
                }
                hi = mid;
            } else {
                proof {
                    order::lemma_bytes_le_total(key@, m);
                    assert forall|i: int| 0 <= i < mid + 1 implies order::bytes_le(
                        (#[trigger] self.entries@[i]).0@,
                        key@,
                    ) && self.entries@[i].0@ != key@ by {
                        if i < mid {
                            let e = self.entries@[i].0@;
                            assert(order::bytes_le(e, self.entries@[mid as int].0@));
                            order::lemma_bytes_le_transitive(e, m, key@);
                        } else {
                            order::lemma_bytes_le_reflexive(key@);
                        }
                    }
                }
                lo = mid + 1;
            }
        }
        lo
    }

    /// The keys before and behind the position of a key are not that key.
    proof fn lemma_position(&self, k: Seq<u8>, p: int)
        requires
            self.is_ordered(),
            0 <= p <= self.entries@.len(),
            forall|i: int|
                0 <= i < p ==> (#[trigger] self.entries@[i]).0@ != k,
            forall|i: int|
                p <= i < self.entries@.len() ==> order::bytes_le(
                    k,
                    (#[trigger] self.entries@[i]).0@,
                ),
        ensures
            forall|i: int| self.key_at(k, i) ==> i == p,
    {
        assert forall|i: int| self.key_at(k, i) implies i == p by {
            if i > p {
                assert(order::bytes_le(self.entries@[p].0@, self.entries@[i].0@));
                assert(self.entries@[p].0@ != self.entries@[i].0@);
                order::lemma_bytes_le_antisymmetric(self.entries@[p].0@, k);
            }
        }
    }

    /// The reply for an id.
    pub fn get(&self, key: &[u8]) -> (r: Option<&str>)
        ensures
            match r {
                Some(reply) => self@.dom().contains(key@) && reply@ == self@[key@],
                None => !self@.dom().contains(key@),
            },
    {
        let p = self.position(key);
        proof {
            use_type_invariant(self);
            self.lemma_position(key@, p as int);
        }
        if p < self.entries.len() && bytes_equal(self.entries[p].0.as_slice(), key) {
            assert(self.key_at(key@, p as int));
            Some(self.entries[p].1.as_str())
        } else {
            assert(forall|i: int| !self.key_at(key@, i));
            None
        }
    }

    /// Keeps a reply, in place of the one that was there for the same id.
    pub fn insert(&mut self, key: Vec<u8>, reply: String)
        ensures
            final(self)@ == old(self)@.insert(key@, reply@),
    {
        let p = self.position(key.as_slice());
        let ghost before = *self;
        let ghost k = key@;
        let ghost text = reply@;
        proof {
            use_type_invariant(&*self);
            before.lemma_position(k, p as int);
        }
        let mut entries: Vec<(Vec<u8>, String)> = Vec::new();
        std::mem::swap(&mut entries, &mut self.entries);
        let found = p < entries.len() && bytes_equal(entries[p].0.as_slice(), key.as_slice());
        if found {
            entries[p] = (key, reply);
        } else {
            entries.insert(p, (key, reply));
        }
        let ghost after = Cache { entries };
        proof {
            let shift: int = if found {
                0
            } else {
                1
            };
            assert(after.key_at(k, p as int));
            assert forall|i: int| 0 <= i < before.entries@.len() && i < p implies after.entries@[i]
                == #[trigger] before.entries@[i] by {}
            assert forall|i: int| 0 <= i < before.entries@.len() && (i > p || (i == p && !found))
                implies after.entries@[i + shift] == #[trigger] before.entries@[i] by {}
            after.lemma_is_ordered_after(before, k, p as int, shift);
            assert forall|q: Seq<u8>| q != k implies #[trigger] after.has_key(q) == before.has_key(
                q,
            ) by {
                if after.has_key(q) {
                    let i = choose|i: int| after.key_at(q, i);
                    if i < p {
                        assert(before.key_at(q, i));
                    } else {
                        assert(i != p);
                        assert(before.key_at(q, i - shift));
                    }
                }
                if before.has_key(q) {
                    let i = choose|i: int| before.key_at(q, i);
                    if i < p {
                        assert(after.key_at(q, i));
                    } else {
                        assert(after.key_at(q, i + shift));
                    }
                }
            }
            assert forall|q: Seq<u8>| q != k && before@.dom().contains(q) implies after@[q]
                == before@[q] by {
                let i = choose|i: int| before.key_at(q, i);
                let moved = if i < p {
                    i
                } else {
                    i + shift
                };
                assert(before.key_at(q, i));
                assert(after.key_at(q, moved));
                after.lemma_key_once(q, choose|j: int| after.key_at(q, j), moved);
            }
            after.lemma_key_once(k, p as int, choose|i: int| after.key_at(k, i));
            assert(after@ =~= before@.insert(k, text));
        }
        self.entries = entries;
    }

    /// No key occurs twice.
    proof fn lemma_key_once(&self, k: Seq<u8>, i: int, j: int)
        requires
            self.is_ordered(),
            self.key_at(k, i),
            self.key_at(k, j),
        ensures
            i == j,
    {
        if i < j {
            assert(self.entries@[i].0@ != self.entries@[j].0@);
        } else if j < i {
            assert(self.entries@[j].0@ != self.entries@[i].0@);
        }
    }

    /// Putting a key where it belongs keeps the order.
    proof fn lemma_is_ordered_after(&self, before: Cache, k: Seq<u8>, p: int, shift: int)
        requires
            before.is_ordered(),
            0 <= p < self.entries@.len(),
            shift == 0 || shift == 1,
            self.entries@.len() == before.entries@.len() + shift,
            self.entries@[p].0@ == k,
            shift == 0 ==> before.entries@[p].0@ == k,
            shift == 1 ==> forall|i: int| !before.key_at(k, i),
            forall|i: int| 0 <= i < p ==> self.entries@[i] == #[trigger] before.entries@[i],
            forall|i: int|
                0 <= i < before.entries@.len() && (i > p || (i == p && shift == 1))
                    ==> self.entries@[i + shift] == #[trigger] before.entries@[i],
            forall|i: int|
                0 <= i < p ==> order::bytes_le((#[trigger] before.entries@[i]).0@, k)
                    && before.entries@[i].0@ != k,
            forall|i: int|
                p <= i < before.entries@.len() ==> order::bytes_le(
                    k,
                    (#[trigger] before.entries@[i]).0@,
                ),
        ensures
            self.is_ordered(),
    {
        assert forall|i: int, j: int| 0 <= i < j < self.entries@.len() implies {
            &&& order::bytes_le(
                (#[trigger] self.entries@[i]).0@,
                (#[trigger] self.entries@[j]).0@,
            )
            &&& self.entries@[i].0@ != self.entries@[j].0@
        } by {
            let i0 = if i < p {
                i
            } else {
                i - shift
            };
            let j0 = if j < p {
                j
            } else {
                j - shift
            };
            if i == p {
                assert(self.entries@[j] == before.entries@[j0]);
                if shift == 1 {
                    assert(!before.key_at(k, j0));
                } else {
                    assert(before.entries@[i].0@ != before.entries@[j].0@);
                }
            } else if j == p {
                assert(self.entries@[i] == before.entries@[i]);
            } else {
                assert(self.entries@[i] == before.entries@[i0]);
                assert(self.entries@[j] == before.entries@[j0]);
            }
        }
    }
}

} // verus!
