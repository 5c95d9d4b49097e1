//! Bucket lists of slots under packed cell keys: the grids of all levels in one structure.
//!
//! Every bucket is a singly linked list in a shared pool of entries; emptied buckets leave the
//! directory, freed entries go onto a free list and are the first to be used again.
use crate::cellhash::{CellHash, EMPTY};
use vstd::prelude::*;

verus! {

/// A node handle. Slots are dense indices into the arena and are recycled.
pub type Slot = u32;

/// "No slot", and the end of every list.
pub const NONE: Slot = u32::MAX;

pub struct Grid {
    dir: CellHash,
    e_slot: Vec<Slot>,
    e_next: Vec<u32>,
    e_n: u32,
    e_free: u32,
    /// Per key, the entries of its bucket, head first.
    chains: Ghost<Map<u64, Seq<int>>>,
    /// The free entries, the next to be used last.
    free: Ghost<Seq<int>>,
    /// Per entry, the key of its bucket and its position there; [`EMPTY`] for a free entry.
    place: Ghost<Seq<(u64, int)>>,
}

/// This many entries can be addressed.
pub open spec fn entries_fit(n: int) -> bool {
    n < u32::MAX && (n + 1) * 64 <= usize::MAX
}

/// `m` after position `i` of the bucket under `key` has left it.
pub open spec fn bucket_without(m: Map<u64, Seq<Slot>>, key: u64, i: int) -> Map<u64, Seq<Slot>> {
    if m[key].len() == 1 {
        m.remove(key)
    } else {
        m.insert(key, m[key].remove(i))
    }
}

/// `m` after `s` was put in front of the bucket under `key`.
pub open spec fn bucket_with(m: Map<u64, Seq<Slot>>, key: u64, s: Slot) -> Map<u64, Seq<Slot>> {
    if m.contains_key(key) {
        m.insert(key, seq![s] + m[key])
    } else {
        m.insert(key, seq![s])
    }
}

/// Values that never repeat and stay below `n` belong to at most `n` keys.
pub proof fn lemma_injective_len(m: Map<u64, u32>, n: int)
    requires
        m.dom().finite(),
        n >= 0,
        forall|k: u64| #[trigger] m.contains_key(k) ==> m[k] < n,
        forall|j: u64, k: u64|
            #![trigger m[j], m[k]]
            m.contains_key(j) && m.contains_key(k) && m[j] == m[k] ==> j == k,
    ensures
        m.len() <= n,
    decreases n,
{
    if n == 0 {
        assert(m.dom() =~= Set::<u64>::empty());
    } else {
        if exists|k: u64| #[trigger] m.contains_key(k) && m[k] == n - 1 {
            let k = choose|k: u64| #[trigger] m.contains_key(k) && m[k] == n - 1;
            let r = m.remove(k);
            assert forall|j: u64| #[trigger] r.contains_key(j) implies r[j] < n - 1 by {
                assert(m.contains_key(j) && r[j] == m[j]);
                assert(m[j] != m[k]);
            }
            lemma_injective_len(r, n - 1);
        } else {
            lemma_injective_len(m, n - 1);
        }
    }
}

impl Grid {
    spec fn link(&self, k: u64, i: int) -> bool {
        let c = self.chains@[k];
        &&& 0 <= c[i] < self.e_n
        &&& self.place@[c[i]] == (k, i)
        &&& self.e_next[c[i]] == (if i + 1 < c.len() {
            c[i + 1]
        } else {
            NONE as int
        })
    }

    spec fn freed(&self, i: int) -> bool {
        let f = self.free@;
        &&& 0 <= f[i] < self.e_n
        &&& self.place@[f[i]] == (EMPTY, i)
        &&& self.e_next[f[i]] == (if i > 0 {
            f[i - 1]
        } else {
            NONE as int
        })
    }

    spec fn placed(&self, e: int) -> bool {
        let (k, i) = self.place@[e];
        if k == EMPTY {
            0 <= i < self.free@.len() && self.free@[i] == e
        } else {
            self.chains@.contains_key(k) && 0 <= i < self.chains@[k].len() && self.chains@[k][i]
                == e
        }
    }

    spec fn headed(&self, k: u64) -> bool {
        &&& self.chains@[k].len() > 0
        &&& self.dir@[k] == self.chains@[k][0]
        &&& k != EMPTY
    }

    /// Every entry is on exactly one list, and the directory points at the list heads.
    pub closed spec fn wf(&self) -> bool {
        &&& self.dir.wf()
        &&& self.e_slot.len() == self.e_next.len()
        &&& self.e_n <= self.e_slot.len()
        &&& self.e_slot.len() <= 1024 || self.e_slot.len() <= 2 * self.e_n
        &&& self.e_slot.len() >= 1
        &&& entries_fit(self.e_n as int)
        &&& self.place@.len() == self.e_n
        &&& self.dir@.dom() == self.chains@.dom()
        &&& self.e_free == (if self.free@.len() > 0 {
            self.free@.last()
        } else {
            NONE as int
        })
        &&& forall|k: u64| #[trigger] self.chains@.contains_key(k) ==> self.headed(k)
        &&& forall|k: u64, i: int|
            self.chains@.contains_key(k) && 0 <= i < self.chains@[k].len() ==> #[trigger] self.link(
                k,
                i,
            )
        &&& forall|i: int| 0 <= i < self.free@.len() ==> #[trigger] self.freed(i)
        &&& forall|e: int| 0 <= e < self.e_n ==> #[trigger] self.placed(e)
    }

    /// How many entries are on bucket lists.
    pub closed spec fn live(&self) -> int {
        self.e_n - self.free@.len()
    }

    /// How many entries were ever in use at once.
    pub closed spec fn pool(&self) -> int {
        self.e_n as int
    }

    proof fn lemma_dir_len(&self)
        requires
            self.wf(),
        ensures
            self.dir@.len() <= self.e_n,
            self.dir@.dom().finite(),
    {
        self.dir.lemma_finite();
        assert forall|k: u64| #[trigger] self.dir@.contains_key(k) implies self.dir@[k]
            < self.e_n by {
            assert(self.chains@.contains_key(k));
            assert(self.headed(k) && self.link(k, 0));
        }
        assert forall|j: u64, k: u64|
            #![trigger self.dir@[j], self.dir@[k]]
            self.dir@.contains_key(j) && self.dir@.contains_key(k) && self.dir@[j] == self.dir@[k]
            implies j == k by {
            assert(self.chains@.contains_key(j) && self.chains@.contains_key(k));
            assert(self.headed(j) && self.link(j, 0));
            assert(self.headed(k) && self.link(k, 0));
        }
        lemma_injective_len(self.dir@, self.e_n as int);
    }

    /// No more entries are free than were ever in use.
    pub proof fn lemma_live(&self)
        requires
            self.wf(),
        ensures
            0 <= self.live() <= self.pool(),
            entries_fit(self.pool()),
    {
        let f = self.free@;
        assert forall|i: int| 0 <= i < f.len() implies 0 <= #[trigger] f[i] < self.e_n by {
            assert(self.freed(i));
        }
        assert(f.no_duplicates()) by {
            assert forall|i: int, j: int| 0 <= i < f.len() && 0 <= j < f.len() && i != j implies f[i]
                != f[j] by {
                assert(self.freed(i) && self.freed(j));
            }
        }
        crate::sums::lemma_no_dup_bound(f, self.e_n as int);
    }
}

impl View for Grid {
    type V = Map<u64, Seq<Slot>>;

    closed spec fn view(&self) -> Map<u64, Seq<Slot>> {
        Map::new(
            |k: u64| self.chains@.contains_key(k),
            |k: u64|
                Seq::new(self.chains@[k].len(), |i: int| self.e_slot[self.chains@[k][i]]),
        )
    }
}

impl Grid {
    /// Buckets are never empty, and no bucket hangs under the vacant key.
    pub proof fn lemma_buckets(&self)
        requires
            self.wf(),
        ensures
            forall|k: u64| #[trigger]
                self@.contains_key(k) ==> k != EMPTY && self@[k].len() > 0,
    {
        assert forall|k: u64| #[trigger] self@.contains_key(k) implies k != EMPTY && self@[k].len()
            > 0 by {
            assert(self.chains@.contains_key(k));
            assert(self.headed(k));
        }
    }

    /// A grid with no bucket in it.
    pub fn new() -> (g: Self)
        ensures
            g.wf(),
            g@ == Map::<u64, Seq<Slot>>::empty(),
            g.live() == 0,
            g.pool() == 0,
    {
        let g = Grid {
            dir: CellHash::with_capacity(1024),
            e_slot: vec![NONE; 1024],
            e_next: vec![NONE; 1024],
            e_n: 0,
            e_free: NONE,
            chains: Ghost(Map::empty()),
            free: Ghost(Seq::empty()),
            place: Ghost(Seq::empty()),
        };
        proof {
            assert(g.dir@.dom() =~= g.chains@.dom());
            assert(g@ =~= Map::<u64, Seq<Slot>>::empty());
        }
        g
    }

    /// An entry that is on no list, with what it shall hold.
    fn new_entry(&mut self, s: Slot, next: u32) -> (e: u32)
        requires
            old(self).wf(),
            entries_fit(old(self).live() + 1),
        ensures
            final(self).dir == old(self).dir,
            final(self).chains == old(self).chains,
            final(self).e_slot.len() == final(self).e_next.len(),
            final(self).e_n <= final(self).e_slot.len(),
            final(self).e_slot.len() >= 1,
            final(self).e_slot.len() <= 1024 || final(self).e_slot.len() <= 2 * final(self).e_n,
            entries_fit(final(self).e_n as int),
            final(self).place@.len() == final(self).e_n,
            e < final(self).e_n,
            final(self).e_slot[e as int] == s,
            final(self).e_next[e as int] == next,
            forall|k: u64, i: int|
                old(self).chains@.contains_key(k) && 0 <= i < old(self).chains@[k].len()
                    ==> #[trigger] final(self).link(k, i) && final(self).e_slot[old(
                    self,
                ).chains@[k][i]] == old(self).e_slot[old(self).chains@[k][i]] && old(
                    self,
                ).chains@[k][i] != e,
            forall|i: int| 0 <= i < final(self).free@.len() ==> #[trigger] final(self).freed(i) && final(self).free@[i] != e,
            forall|x: int| 0 <= x < final(self).e_n && x != e ==> #[trigger] final(self).placed(x),
            final(self).e_free == (if final(self).free@.len() > 0 {
                final(self).free@.last()
            } else {
                NONE as int
            }),
            final(self).live() == old(self).live() + 1,
            final(self).pool() == (if old(self).live() == old(self).pool() {
                old(self).pool() + 1
            } else {
                old(self).pool()
            }),
    {
        let ghost f = self.free@;
        if self.e_free != NONE {
            let e = self.e_free;
            proof {
                assert(f.len() > 0);
                assert(self.freed(f.len() - 1));
                assert(self.freed(f.len() - 1) && e == f[f.len() - 1]);
                if f.len() > 1 {
                    assert(self.freed(f.len() - 2));
                }
            }
            self.e_free = self.e_next[e as usize];
            self.e_slot[e as usize] = s;
            self.e_next[e as usize] = next;
            self.free = Ghost(f.drop_last());
            proof {
                assert forall|k: u64, i: int|
                    old(self).chains@.contains_key(k) && 0 <= i < old(self).chains@[k].len()
                    implies #[trigger] self.link(k, i) && self.e_slot[old(self).chains@[k][i]]
                    == old(self).e_slot[old(self).chains@[k][i]] && old(self).chains@[k][i] != e by {
                    assert(old(self).link(k, i));
                    assert(old(self).headed(k));
                }
                assert forall|i: int| 0 <= i < self.free@.len() implies #[trigger] self.freed(i)
                    && self.free@[i] != e by {
                    assert(old(self).freed(i));
                }
                assert forall|x: int| 0 <= x < self.e_n && x != e implies #[trigger] self.placed(
                    x,
                ) by {
                    assert(old(self).placed(x));
                }
            }
            e
        } else {
            proof {
                if f.len() > 0 {
                    assert(self.freed(f.len() - 1));
                }
                assert(f.len() == 0);
            }
            if self.e_n as usize == self.e_slot.len() {
                self.grow_entries();
            }
            let e = self.e_n;
            self.e_n = self.e_n + 1;
            self.e_slot[e as usize] = s;
            self.e_next[e as usize] = next;
            self.place = Ghost(self.place@.push((EMPTY, -1)));
            proof {
                assert forall|k: u64, i: int|
                    old(self).chains@.contains_key(k) && 0 <= i < old(self).chains@[k].len()
                    implies #[trigger] self.link(k, i) && self.e_slot[old(self).chains@[k][i]]
                    == old(self).e_slot[old(self).chains@[k][i]] && old(self).chains@[k][i] != e by {
                    assert(old(self).link(k, i));
                }
                assert forall|x: int| 0 <= x < self.e_n && x != e implies #[trigger] self.placed(
                    x,
                ) by {
                    assert(old(self).placed(x));
                }
            }
            e
        }
    }

    fn grow_entries(&mut self)
        requires
            old(self).e_slot.len() == old(self).e_next.len(),
            1 <= old(self).e_slot.len(),
            old(self).e_slot.len() == old(self).e_n,
            entries_fit(old(self).e_n as int),
        ensures
            final(self).e_slot.len() == 2 * old(self).e_slot.len(),
            final(self).e_next.len() == 2 * old(self).e_slot.len(),
            forall|i: int|
                0 <= i < old(self).e_slot.len() ==> #[trigger] final(self).e_slot[i] == old(self).e_slot[i],
            forall|i: int|
                0 <= i < old(self).e_slot.len() ==> #[trigger] final(self).e_next[i] == old(self).e_next[i],
            final(self).dir == old(self).dir,
            final(self).chains == old(self).chains,
            final(self).free == old(self).free,
            final(self).place == old(self).place,
            final(self).e_n == old(self).e_n,
            final(self).e_free == old(self).e_free,
    {
        let cap: usize = self.e_slot.len() * 2;
        self.e_slot.resize(cap, NONE);
        self.e_next.resize(cap, NONE);
    }

    /// Put `s` in front of the bucket under `key`.
    pub fn add_at(&mut self, key: u64, s: Slot)
        requires
            old(self).wf(),
            key != EMPTY,
            entries_fit(old(self).live() + 1),
        ensures
            final(self).wf(),
            final(self)@ == bucket_with(old(self)@, key, s),
            final(self).live() == old(self).live() + 1,
            final(self).pool() == (if old(self).live() == old(self).pool() {
                old(self).pool() + 1
            } else {
                old(self).pool()
            }),
    {
        let head = match self.dir.get(key) {
            Some(h) => h,
            None => NONE,
        };
        proof {
            self.lemma_dir_len();
            self.lemma_live();
        }
        let e = self.new_entry(s, head);
        let ghost mid = *self;
        self.dir.set(key, e);
        let ghost had = old(self).chains@.contains_key(key);
        let ghost tail = if had {
            old(self).chains@[key]
        } else {
            Seq::<int>::empty()
        };
        let ghost chain = seq![e as int] + tail;
        self.chains = Ghost(self.chains@.insert(key, chain));
        self.place = Ghost(
            Seq::new(
                self.place@.len(),
                |x: int|
                    if x == e {
                        (key, 0int)
                    } else if self.place@[x].0 == key {
                        (key, self.place@[x].1 + 1)
                    } else {
                        self.place@[x]
                    },
            ),
        );
        proof {
            if had {
                assert(old(self).headed(key));
                assert(old(self).link(key, 0));
            }
            assert forall|k: u64| #[trigger] self.chains@.contains_key(k) implies self.headed(
                k,
            ) by {
                if k != key {
                    assert(old(self).headed(k));
                }
            }
            assert forall|k: u64, i: int|
                self.chains@.contains_key(k) && 0 <= i < self.chains@[k].len() implies #[trigger] self.link(
                k,
                i,
            ) by {
                if k != key {
                    assert(mid.link(k, i));
                } else if i > 0 {
                    assert(mid.link(k, i - 1));
                }
            }
            assert forall|i: int| 0 <= i < self.free@.len() implies #[trigger] self.freed(i) by {
                assert(mid.freed(i));
            }
            assert forall|x: int| 0 <= x < self.e_n implies #[trigger] self.placed(x) by {
                if x != e {
                    assert(mid.placed(x));
                }
            }
            assert(self.dir@.dom() =~= self.chains@.dom());
            let want = bucket_with(old(self)@, key, s);
            assert forall|k: u64| #[trigger] self@.contains_key(k) implies self@[k] =~= want[k] by {
                if k != key {
                    assert(old(self)@.contains_key(k));
                    assert forall|i: int| 0 <= i < self@[k].len() implies self@[k][i]
                        == want[k][i] by {
                        assert(mid.link(k, i));
                    }
                } else {
                    assert forall|i: int| 0 <= i < self@[k].len() implies self@[k][i]
                        == want[k][i] by {
                        if i > 0 {
                            assert(mid.link(k, i - 1));
                        }
                    }
                }
            }
            assert(self@.dom() =~= want.dom());
            assert(self@ =~= want);
        }
    }

    /// Take `s` out of the bucket under `key`.
    pub fn del_at(&mut self, key: u64, s: Slot)
        requires
            old(self).wf(),
            old(self)@.contains_key(key),
            old(self)@[key].contains(s),
        ensures
            final(self).wf(),
            exists|i: int|
                0 <= i < old(self)@[key].len() && old(self)@[key][i] == s && final(self)@
                    == #[trigger] bucket_without(old(self)@, key, i),
            final(self).live() == old(self).live() - 1,
            final(self).pool() == old(self).pool(),
    {
        let ghost chain = self.chains@[key];
        let ghost at = old(self)@[key].index_of(s);
        proof {
            assert(self.headed(key));
            assert(self.link(key, 0));
            assert(0 <= at < chain.len() && old(self)@[key][at] == s);
        }
        let head = match self.dir.get(key) {
            Some(h) => h,
            None => NONE,
        };
        if self.e_slot[head as usize] == s {
            let nx = self.e_next[head as usize];
            if nx == NONE {
                proof {
                    if chain.len() > 1 {
                        assert(self.link(key, 1));
                    }
                }
                let gone = self.dir.remove(key);
            } else {
                proof {
                    self.lemma_dir_len();
                    if chain.len() > 1 {
                        assert(self.link(key, 1));
                    }
                }
                self.dir.set(key, nx);
            }
            proof {
                assert(chain.len() == 1 <==> nx == NONE);
            }
            self.recycle(Ghost(*old(self)), Ghost(key), Ghost(0), head);
            return ;
        }
        let mut e = head;
        let ghost mut i = 0int;
        proof {
            assert(self.link(key, at));
            assert(self.link(key, 1));
        }
        while self.e_slot[self.e_next[e as usize] as usize] != s
            invariant
                *self == *old(self),
                self.wf(),
                self.chains@.contains_key(key),
                chain == self.chains@[key],
                0 <= i < at < chain.len(),
                e == chain[i],
                self.e_slot[chain[at]] == s,
                e < self.e_n,
                e < self.e_next.len(),
                self.e_next[e as int] < self.e_n,
                self.e_next[e as int] == chain[i + 1],
            decreases chain.len() - i,
        {
            proof {
                assert(self.link(key, i + 1));
                assert(i + 1 != at);
                assert(self.link(key, i + 2));
            }
            e = self.e_next[e as usize];
            proof {
                i = i + 1;
            }
        }
        let d = self.e_next[e as usize];
        proof {
            assert(self.link(key, i + 1));
            if i + 2 < chain.len() {
                assert(self.link(key, i + 2));
            }
        }
        self.e_next[e as usize] = self.e_next[d as usize];
        self.recycle(Ghost(*old(self)), Ghost(key), Ghost(i + 1), d);
    }

    /// Put entry `d`, just taken out of its list, onto the free list.
    fn recycle(&mut self, before: Ghost<Grid>, key: Ghost<u64>, at: Ghost<int>, d: u32)
        requires
            before@.wf(),
            before@.chains@.contains_key(key@),
            0 <= at@ < before@.chains@[key@].len(),
            d == before@.chains@[key@][at@],
            old(self).e_slot == before@.e_slot,
            old(self).e_next.len() == before@.e_next.len(),
            old(self).e_n == before@.e_n,
            old(self).e_free == before@.e_free,
            old(self).chains == before@.chains,
            old(self).free == before@.free,
            old(self).place == before@.place,
            old(self).dir.wf(),
            old(self).dir@ == (if before@.chains@[key@].len() == 1 {
                before@.dir@.remove(key@)
            } else if at@ == 0 {
                before@.dir@.insert(key@, before@.chains@[key@][1] as u32)
            } else {
                before@.dir@
            }),
            old(self).e_next@ == (if at@ == 0 {
                before@.e_next@
            } else {
                before@.e_next@.update(
                    before@.chains@[key@][at@ - 1],
                    before@.e_next[before@.chains@[key@][at@]],
                )
            }),
        ensures
            final(self).wf(),
            final(self)@ == bucket_without(before@@, key@, at@),
            final(self).live() == before@.live() - 1,
            final(self).pool() == before@.pool(),
    {
        let ghost b = before@;
        let ghost k0 = key@;
        let ghost i0 = at@;
        let ghost chain = b.chains@[k0];
        let ghost n_free = self.free@.len() as int;
        proof {
            assert(b.link(k0, i0));
            assert(b.headed(k0));
        }
        self.e_next[d as usize] = self.e_free;
        self.e_free = d;
        self.free = Ghost(self.free@.push(d as int));
        let ghost short = chain.remove(i0);
        self.chains = Ghost(
            if chain.len() == 1 {
                self.chains@.remove(k0)
            } else {
                self.chains@.insert(k0, short)
            },
        );
        self.place = Ghost(
            Seq::new(
                self.place@.len(),
                |x: int|
                    if x == d {
                        (EMPTY, n_free)
                    } else if self.place@[x].0 == k0 && self.place@[x].1 > i0 {
                        (k0, self.place@[x].1 - 1)
                    } else {
                        self.place@[x]
                    },
            ),
        );
        proof {
            assert forall|k: u64| #[trigger] self.chains@.contains_key(k) implies self.headed(
                k,
            ) by {
                assert(b.headed(k));
                if k == k0 && i0 == 0 {
                    assert(b.link(k0, 1));
                }
            }
            assert forall|k: u64, i: int|
                self.chains@.contains_key(k) && 0 <= i < self.chains@[k].len() implies #[trigger] self.link(
                k,
                i,
            ) by {
                if k != k0 {
                    assert(b.link(k, i));
                    assert(b.headed(k));
                    if i0 > 0 {
                        assert(b.link(k0, i0 - 1));
                    }
                } else {
                    let j = if i < i0 {
                        i
                    } else {
                        i + 1
                    };
                    assert(b.link(k0, j));
                    if i0 > 0 {
                        assert(b.link(k0, i0 - 1));
                    }
                    if j + 1 < chain.len() {
                        assert(b.link(k0, j + 1));
                    }
                }
            }
            assert forall|i: int| 0 <= i < self.free@.len() implies #[trigger] self.freed(i) by {
                if i < n_free {
                    assert(b.freed(i));
                    if i0 > 0 {
                        assert(b.link(k0, i0 - 1));
                    }
                } else if n_free > 0 {
                    assert(b.freed(n_free - 1));
                }
            }
            assert forall|x: int| 0 <= x < self.e_n implies #[trigger] self.placed(x) by {
                assert(b.placed(x));
                if b.place@[x].0 != EMPTY {
                    assert(b.headed(b.place@[x].0));
                }
            }
            assert(self.dir@.dom() =~= self.chains@.dom());
            let want = bucket_without(b@, k0, i0);
            assert(b@.contains_key(k0) && b@[k0].len() == chain.len());
            assert forall|k: u64| #[trigger] self@.contains_key(k) implies self@[k] =~= want[k] by {
                assert(b@.contains_key(k));
            }
            assert(self@.dom() =~= want.dom());
            assert(self@ =~= want);
        }
    }

    /// The slots in the bucket under `key`, in list order; none if there is no such bucket.
    pub fn bucket(&self, key: u64) -> (out: Vec<Slot>)
        requires
            self.wf(),
            key != EMPTY,
        ensures
            out@ == (if self@.contains_key(key) {
                self@[key]
            } else {
                Seq::<Slot>::empty()
            }),
    {
        let mut out: Vec<Slot> = Vec::new();
        let mut e = match self.dir.get(key) {
            Some(h) => h,
            None => {
                return out;
            },
        };
        let ghost chain = self.chains@[key];
        proof {
            assert(self.chains@.contains_key(key));
            assert(self.headed(key));
        }
        while e != NONE
            invariant
                self.wf(),
                self.chains@.contains_key(key),
                chain == self.chains@[key],
                out@.len() <= chain.len(),
                e == (if out@.len() < chain.len() {
                    chain[out@.len() as int]
                } else {
                    NONE as int
                }),
                forall|i: int| 0 <= i < out@.len() ==> #[trigger] out@[i] == self.e_slot[chain[i]],
            decreases chain.len() - out@.len(),
        {
            proof {
                if out@.len() < chain.len() {
                    assert(self.link(key, out@.len() as int));
                }
                if out@.len() + 1 < chain.len() {
                    assert(self.link(key, out@.len() as int + 1));
                }
            }
            out.push(self.e_slot[e as usize]);
            e = self.e_next[e as usize];
        }
        proof {
            if out@.len() < chain.len() {
                assert(self.link(key, out@.len() as int));
            }
            assert(out@ =~= self@[key]);
        }
        out
    }

    /// How many entries are on bucket lists.
    pub fn entries(&self) -> (n: usize)
        requires
            self.wf(),
        ensures
            n == self.live(),
    {
        let mut free: usize = 0;
        let mut e = self.e_free;
        proof {
            self.lemma_live();
        }
        while e != NONE
            invariant
                self.wf(),
                0 <= self.live(),
                free <= self.free@.len(),
                e == (if free < self.free@.len() {
                    self.free@[self.free@.len() - 1 - free]
                } else {
                    NONE as int
                }),
            decreases self.free@.len() - free,
        {
            proof {
                if free < self.free@.len() {
                    assert(self.freed(self.free@.len() - 1 - free));
                }
                if free + 1 < self.free@.len() {
                    assert(self.freed(self.free@.len() - 2 - free));
                }
            }
            free = free + 1;
            e = self.e_next[e as usize];
        }
        proof {
            if free < self.free@.len() {
                assert(self.freed(self.free@.len() - 1 - free));
            }
        }
        self.e_n as usize - free
    }

    /// Every bucket with its key.
    pub fn buckets(&self) -> (out: Vec<(u64, Vec<Slot>)>)
        requires
            self.wf(),
        ensures
            forall|i: int|
                0 <= i < out@.len() ==> self@.contains_key(#[trigger] out@[i].0) && out@[i].1@
                    == self@[out@[i].0],
            forall|k: u64| #[trigger]
                self@.contains_key(k) ==> exists|i: int|
                    0 <= i < out@.len() && #[trigger] out@[i].0 == k,
            forall|i: int, j: int|
                0 <= i < j < out@.len() ==> #[trigger] out@[i].0 != #[trigger] out@[j].0,
    {
        let heads = self.dir.iter();
        let mut out: Vec<(u64, Vec<Slot>)> = Vec::new();
        let mut i: usize = 0;
        while i < heads.len()
            invariant
                i <= heads@.len(),
                self.wf(),
                out@.len() == i,
                forall|j: int| 0 <= j < heads@.len() ==> self.dir@.contains_key(#[trigger] heads@[j].0),
                forall|j: int| 0 <= j < i ==> #[trigger] out@[j].0 == heads@[j].0,
                forall|j: int|
                    0 <= j < i ==> self@.contains_key(#[trigger] out@[j].0) && out@[j].1@
                        == self@[out@[j].0],
            decreases heads@.len() - i,
        {
            let k = heads[i].0;
            proof {
                assert(self.dir@.contains_key(heads@[i as int].0));
                assert(self.chains@.contains_key(k));
                assert(self.headed(k));
            }
            out.push((k, self.bucket(k)));
            i = i + 1;
        }
        proof {
            assert forall|k: u64| #[trigger] self@.contains_key(k) implies exists|j: int|
                0 <= j < out@.len() && #[trigger] out@[j].0 == k by {
                assert(self.chains@.contains_key(k));
                assert(self.dir@.contains_key(k));
                let j = choose|j: int| 0 <= j < heads@.len() && #[trigger] heads@[j].0 == k;
                assert(out@[j].0 == k);
            }
            assert forall|a: int, b: int| 0 <= a < b < out@.len() implies #[trigger] out@[a].0
                != #[trigger] out@[b].0 by {
                assert(heads@[a].0 != heads@[b].0);
            }
        }
        out
    }

    /// Resident size of the directory in bytes.
    pub fn dir_bytes(&self) -> (n: usize)
        requires
            self.wf(),
        ensures
            n == self.dir_size(),
    {
        self.dir.bytes()
    }

    /// Twelve bytes per position of the directory.
    pub closed spec fn dir_size(&self) -> int {
        self.dir.capacity() as int * 12
    }

    /// How many entries the pool has room for.
    pub fn pool_len(&self) -> (n: usize)
        requires
            self.wf(),
        ensures
            n == self.pool_size(),
    {
        self.e_slot.len()
    }

    pub closed spec fn pool_size(&self) -> int {
        self.e_slot.len() as int
    }
}

/// Bucket `k` holds slot `s`.
pub open spec fn bucket_has(g: Map<u64, Seq<Slot>>, k: u64, s: Slot) -> bool {
    g.contains_key(k) && g[k].contains(s)
}

/// Which level a cell key belongs to.
pub open spec fn key_level(k: u64) -> int {
    k as int / 0x400_0000_0000_0000
}

/// The grid holds slot `s` at level `z` exactly where `lists(s, z)`, once, under `key(s, z)`.
pub open spec fn grid_lists(
    g: Map<u64, Seq<Slot>>,
    key: spec_fn(int, int) -> u64,
    lists: spec_fn(int, int) -> bool,
) -> bool {
    &&& forall|k: u64| #[trigger] g.contains_key(k) ==> g[k].no_duplicates()
    &&& forall|k: u64, s: Slot| #[trigger]
        bucket_has(g, k, s) <==> lists(s as int, key_level(k)) && k == key(s as int, key_level(k))
}

/// Listing one more pair.
pub proof fn lemma_grid_add(
    g: Map<u64, Seq<Slot>>,
    key: spec_fn(int, int) -> u64,
    lists: spec_fn(int, int) -> bool,
    more: spec_fn(int, int) -> bool,
    s: Slot,
    z: int,
)
    requires
        grid_lists(g, key, lists),
        !lists(s as int, z),
        key_level(key(s as int, z)) == z,
        forall|t: int, v: int| #[trigger] more(t, v) == (lists(t, v) || (t == s && v == z)),
    ensures
        grid_lists(bucket_with(g, key(s as int, z), s), key, more),
{
    let k0 = key(s as int, z);
    let h = bucket_with(g, k0, s);
    assert(!bucket_has(g, k0, s));
    assert forall|k: u64| #[trigger] h.contains_key(k) implies h[k].no_duplicates() by {
        if k == k0 {
            if g.contains_key(k0) {
                let q = g[k0];
                let r = seq![s] + q;
                assert forall|i: int, j: int|
                    0 <= i < r.len() && 0 <= j < r.len() && i != j implies r[i] != r[j] by {
                    if i == 0 {
                        assert(r[j] == q[j - 1]);
                        assert(q.contains(q[j - 1]));
                    } else if j == 0 {
                        assert(r[i] == q[i - 1]);
                        assert(q.contains(q[i - 1]));
                    } else {
                        assert(r[i] == q[i - 1] && r[j] == q[j - 1]);
                    }
                }
            }
        } else {
            assert(g.contains_key(k));
        }
    }
    assert forall|k: u64, t: Slot| #[trigger] bucket_has(h, k, t) <==> more(
        t as int,
        key_level(k),
    ) && k == key(t as int, key_level(k)) by {
        assert(bucket_has(g, k, t) <==> lists(t as int, key_level(k)) && k == key(
            t as int,
            key_level(k),
        ));
        if k == k0 {
            if bucket_has(h, k, t) {
                let i = h[k].index_of(t);
                assert(h[k][i] == t);
                if i > 0 {
                    assert(g[k][i - 1] == t);
                }
            }
            if bucket_has(g, k, t) {
                let i = g[k].index_of(t);
                assert(h[k][i + 1] == t);
            }
            if t == s {
                assert(h[k][0] == t);
            }
        }
    }
}

/// Listing one pair less.
pub proof fn lemma_grid_del(
    g: Map<u64, Seq<Slot>>,
    key: spec_fn(int, int) -> u64,
    lists: spec_fn(int, int) -> bool,
    less: spec_fn(int, int) -> bool,
    s: Slot,
    z: int,
    i: int,
)
    requires
        grid_lists(g, key, lists),
        lists(s as int, z),
        key_level(key(s as int, z)) == z,
        g.contains_key(key(s as int, z)),
        0 <= i < g[key(s as int, z)].len(),
        g[key(s as int, z)][i] == s,
        forall|t: int, v: int| #[trigger] less(t, v) == (lists(t, v) && !(t == s && v == z)),
    ensures
        grid_lists(bucket_without(g, key(s as int, z), i), key, less),
{
    let k0 = key(s as int, z);
    let h = bucket_without(g, k0, i);
    let q = g[k0];
    let r = q.remove(i);
    assert(q.no_duplicates());
    assert forall|k: u64| #[trigger] h.contains_key(k) implies h[k].no_duplicates() by {
        assert(g.contains_key(k));
        if k == k0 {
            assert forall|a: int, b: int|
                0 <= a < r.len() && 0 <= b < r.len() && a != b implies r[a] != r[b] by {
                let a0 = if a < i {
                    a
                } else {
                    a + 1
                };
                let b0 = if b < i {
                    b
                } else {
                    b + 1
                };
                assert(r[a] == q[a0] && r[b] == q[b0]);
            }
        }
    }
    assert forall|k: u64, t: Slot| #[trigger] bucket_has(h, k, t) <==> less(
        t as int,
        key_level(k),
    ) && k == key(t as int, key_level(k)) by {
        assert(bucket_has(g, k, t) <==> lists(t as int, key_level(k)) && k == key(
            t as int,
            key_level(k),
        ));
        if k == k0 {
            if bucket_has(h, k, t) {
                let j = h[k].index_of(t);
                assert(r[j] == t);
                let j0 = if j < i {
                    j
                } else {
                    j + 1
                };
                assert(q[j0] == t);
                assert(q.contains(t));
            }
            if bucket_has(g, k, t) && t != s {
                let j = q.index_of(t);
                assert(q[j] == t);
                if j < i {
                    assert(r[j] == t);
                } else {
                    assert(r[j - 1] == t);
                }
                assert(r.contains(t));
            }
        }
    }
}

} // verus!
