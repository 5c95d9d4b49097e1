//! Open-addressed hash map from a packed cell key to a `u32`, backed by flat `Vec`s.
//!
//! The table is the bucket directory of the per-level grids and of the sparse filter
//! aggregates. Deletion is by backward shift, so a table that churns for ever holds no debris:
//! its contents are a plain map, and what was removed leaves no trace in any later probe.
use vstd::prelude::*;

verus! {

/// The key that marks a vacant position; it can never be stored.
pub const EMPTY: u64 = u64::MAX;

/// The largest table: twice as many positions would not be addressable.
pub const MAX_CAP: usize = usize::MAX / 16;

/// The most entries a table is asked to hold, so that doubling never exceeds [`MAX_CAP`].
pub const MAX_LEN: usize = usize::MAX / 64;

/// An open-addressed table from keys below [`EMPTY`] to `u32` values.
#[derive(Clone, Debug)]
pub struct CellHash {
    keys: Vec<u64>,
    vals: Vec<u32>,
    cap: usize,
    mask: usize,
    len: usize,
    limit: usize,
}

/// A number, doubled until it is at least another.
pub open spec fn doubled_to(n: int, least: int) -> int
    decreases
            if n < least {
                least - n
            } else {
                0
            },
{
    if n <= 0 || n >= least {
        n
    } else {
        doubled_to(2 * n, least)
    }
}

/// The 32-bit mix of the two halves of a key.
pub open spec fn hash_of(key: u64) -> u32 {
    let lo = (key & 0xFFFF_FFFF) as u32;
    let hi = (key >> 32) as u32;
    let h0 = lo.wrapping_mul(0x9e37_79b1u32) ^ hi.wrapping_mul(0x85eb_ca6bu32);
    let h1 = h0 ^ (h0 >> 15);
    let h2 = h1.wrapping_mul(0x2545_f491u32);
    h2 ^ (h2 >> 13)
}

/// Where the probe sequence of `key` starts.
spec fn home_at(key: u64, mask: usize) -> int {
    ((hash_of(key) as usize) & mask) as int
}

/// Steps from position `a` forward to position `b` in a ring of `cap` positions.
spec fn dist(a: int, b: int, cap: int) -> int {
    if b >= a {
        b - a
    } else {
        b - a + cap
    }
}

/// The position after `i` in a ring of `cap` positions.
spec fn succ(i: int, cap: int) -> int {
    if i + 1 == cap {
        0
    } else {
        i + 1
    }
}

/// How many of the first `n` positions are occupied.
spec fn occupied(keys: Seq<u64>, n: int) -> int
    decreases n,
{
    if n <= 0 {
        0
    } else {
        occupied(keys, n - 1) + if keys[n - 1] != EMPTY {
            1int
        } else {
            0
        }
    }
}

proof fn occupied_bound(keys: Seq<u64>, n: int)
    requires
        0 <= n <= keys.len(),
    ensures
        0 <= occupied(keys, n) <= n,
    decreases n,
{
    if n > 0 {
        occupied_bound(keys, n - 1);
    }
}

proof fn occupied_some_vacant(keys: Seq<u64>, n: int) -> (e: int)
    requires
        0 <= n <= keys.len(),
        occupied(keys, n) < n,
    ensures
        0 <= e < n,
        keys[e] == EMPTY,
    decreases n,
{
    if keys[n - 1] == EMPTY {
        n - 1
    } else {
        occupied_some_vacant(keys, n - 1)
    }
}

proof fn occupied_update(keys: Seq<u64>, n: int, i: int, k: u64)
    requires
        0 <= n <= keys.len(),
        0 <= i < keys.len(),
    ensures
        occupied(keys.update(i, k), n) == occupied(keys, n) + (if i < n {
            (if k != EMPTY {
                1int
            } else {
                0
            }) - (if keys[i] != EMPTY {
                1int
            } else {
                0
            })
        } else {
            0
        }),
    decreases n,
{
    if n > 0 {
        occupied_update(keys, n - 1, i, k);
    }
}

proof fn occupied_all_vacant(keys: Seq<u64>, n: int)
    requires
        0 <= n <= keys.len(),
        forall|i: int| 0 <= i < n ==> keys[i] == EMPTY,
    ensures
        occupied(keys, n) == 0,
    decreases n,
{
    if n > 0 {
        occupied_all_vacant(keys, n - 1);
    }
}

proof fn mask_bound(h: usize, mask: usize)
    ensures
        h & mask <= mask,
{
    assert(h & mask <= mask) by (bit_vector);
}

impl CellHash {
    /// Position `i` holds an entry.
    spec fn full(&self, i: int) -> bool {
        0 <= i < self.cap && self.keys[i] != EMPTY
    }

    spec fn home_of(&self, key: u64) -> int {
        home_at(key, self.mask)
    }

    /// No probe for the entry at `i` meets a vacancy before it, unless at `hole`.
    spec fn reachable(&self, i: int, hole: int) -> bool {
        forall|k: int|
            0 <= k < self.cap && k != hole && dist(self.home_of(self.keys[i]), k, self.cap as int)
                < dist(self.home_of(self.keys[i]), i, self.cap as int) ==> #[trigger] self.keys[k]
                != EMPTY
    }

    spec fn shape(&self) -> bool {
        &&& self.keys.len() == self.cap
        &&& self.vals.len() == self.cap
        &&& 8 <= self.cap <= MAX_CAP
        &&& self.mask == self.cap - 1
        &&& self.limit == self.cap * 3 / 5
        &&& forall|i: int, j: int|
            #![trigger self.keys[i], self.keys[j]]
            self.full(i) && self.full(j) && self.keys[i] == self.keys[j] ==> i == j
    }

    /// Every entry is found by its probe, and at least one position is vacant.
    pub closed spec fn wf(&self) -> bool {
        self.sound() && self.len <= self.limit
    }

    /// Well-formed, whatever the load.
    spec fn sound(&self) -> bool {
        &&& self.shape()
        &&& self.len == occupied(self.keys@, self.cap as int)
        &&& self.len < self.cap
        &&& forall|i: int| #[trigger] self.full(i) ==> self.reachable(i, -1)
    }

    spec fn stored(&self, key: u64) -> bool {
        exists|i: int| #[trigger] self.full(i) && self.keys[i] == key
    }

    spec fn index_of(&self, key: u64) -> int {
        choose|i: int| #[trigger] self.full(i) && self.keys[i] == key
    }

    /// How many positions the table has.
    pub closed spec fn capacity(&self) -> nat {
        self.cap as nat
    }
}

impl View for CellHash {
    type V = Map<u64, u32>;

    closed spec fn view(&self) -> Map<u64, u32> {
        Map::new(|k: u64| self.stored(k), |k: u64| self.vals[self.index_of(k)])
    }
}

impl CellHash {
    /// What position `i` holds is what the map holds.
    proof fn entry_in_view(&self, i: int)
        requires
            self.shape(),
            self.full(i),
        ensures
            self@.contains_key(self.keys[i]),
            self@[self.keys[i]] == self.vals[i],
    {
        assert(self.stored(self.keys[i]));
        let j = self.index_of(self.keys[i]);
        assert(self.full(j) && self.keys[j] == self.keys[i]);
    }

    /// The table has one occupied position per key of the map.
    proof fn lemma_len(&self)
        requires
            self.shape(),
        ensures
            self@.dom().finite(),
            self@.len() == occupied(self.keys@, self.cap as int),
    {
        self.lemma_len_upto(self.cap as int);
        assert(self@.dom() =~= self.keys_upto(self.cap as int));
    }

    /// A table holds finitely many keys.
    pub proof fn lemma_finite(&self)
        requires
            self.wf(),
        ensures
            self@.dom().finite(),
    {
        self.lemma_len();
    }

    spec fn keys_upto(&self, n: int) -> Set<u64> {
        Set::new(|k: u64| exists|i: int| #[trigger] self.full(i) && i < n && self.keys[i] == k)
    }

    proof fn lemma_len_upto(&self, n: int)
        requires
            self.shape(),
            0 <= n <= self.cap,
        ensures
            self.keys_upto(n).finite(),
            self.keys_upto(n).len() == occupied(self.keys@, n),
        decreases n,
    {
        if n == 0 {
            assert(self.keys_upto(0) =~= Set::<u64>::empty());
        } else {
            self.lemma_len_upto(n - 1);
            let k = self.keys[n - 1];
            if k == EMPTY {
                assert(self.keys_upto(n) =~= self.keys_upto(n - 1)) by {
                    assert forall|q: u64| self.keys_upto(n).contains(q) implies self.keys_upto(
                        n - 1,
                    ).contains(q) by {
                        let i = choose|i: int| #[trigger]
                            self.full(i) && i < n && self.keys[i] == q;
                        assert(self.full(i) && i < n - 1);
                    }
                }
            } else {
                assert(self.full(n - 1));
                assert(self.keys_upto(n) =~= self.keys_upto(n - 1).insert(k)) by {
                    assert forall|q: u64| self.keys_upto(n).contains(q) implies self.keys_upto(
                        n - 1,
                    ).insert(k).contains(q) by {
                        let i = choose|i: int| #[trigger]
                            self.full(i) && i < n && self.keys[i] == q;
                        assert(i == n - 1 || (self.full(i) && i < n - 1));
                    }
                    assert(self.keys_upto(n).contains(k));
                }
                assert(!self.keys_upto(n - 1).contains(k));
            }
        }
    }

    /// The view is the map `m` once every position agrees with `m` and every key of `m` is held.
    proof fn lemma_view_is(&self, m: Map<u64, u32>)
        requires
            self.shape(),
            forall|i: int| #[trigger]
                self.full(i) ==> m.contains_key(self.keys[i]) && m[self.keys[i]] == self.vals[i],
            forall|k: u64| #[trigger] m.contains_key(k) ==> self.stored(k),
        ensures
            self@ == m,
    {
        assert forall|k: u64| #[trigger] self@.contains_key(k) implies m.contains_key(k) && m[k]
            == self@[k] by {
            let i = self.index_of(k);
            assert(self.full(i) && self.keys[i] == k);
        }
        assert(self@.dom() =~= m.dom());
        assert(self@ =~= m);
    }

    /// An empty table with at least `initial` positions: eight, doubled until they are enough.
    pub fn with_capacity(initial: usize) -> (h: Self)
        requires
            initial <= MAX_CAP / 2,
        ensures
            h.wf(),
            h@ == Map::<u64, u32>::empty(),
            h.capacity() >= initial,
            h.capacity() >= 8,
            h.capacity() == 8 || h.capacity() < 2 * initial,
            h.capacity() == doubled_to(8, initial as int),
    {
        let mut cap: usize = 8;
        while cap < initial
            invariant
                8 <= cap <= MAX_CAP,
                initial <= MAX_CAP / 2,
                cap == 8 || cap < 2 * initial,
                doubled_to(cap as int, initial as int) == doubled_to(8, initial as int),
            decreases MAX_CAP - cap,
        {
            cap = cap * 2;
        }
        Self::vacant(cap)
    }

    /// A table of `cap` vacant positions.
    fn vacant(cap: usize) -> (h: Self)
        requires
            8 <= cap <= MAX_CAP,
        ensures
            h.wf(),
            h.cap == cap,
            h.len == 0,
            h@ == Map::<u64, u32>::empty(),
    {
        let h = CellHash {
            keys: vec![EMPTY; cap],
            vals: vec![0u32; cap],
            cap,
            mask: cap - 1,
            len: 0,
            limit: cap * 3 / 5,
        };
        proof {
            occupied_all_vacant(h.keys@, cap as int);
            h.lemma_view_is(Map::<u64, u32>::empty());
        }
        h
    }

    fn hash(key: u64) -> (h: u32)
        ensures
            h == hash_of(key),
    {
        let lo: u32 = (key & 0xFFFF_FFFF) as u32;
        let hi: u32 = (key >> 32) as u32;
        let mut h: u32 = lo.wrapping_mul(0x9e37_79b1) ^ hi.wrapping_mul(0x85eb_ca6b);
        h = h ^ (h >> 15);
        h = h.wrapping_mul(0x2545_f491);
        h = h ^ (h >> 13);
        h
    }

    fn home(&self, key: u64) -> (i: usize)
        requires
            self.shape(),
        ensures
            i == self.home_of(key),
            i < self.cap,
    {
        proof {
            mask_bound(hash_of(key) as usize, self.mask);
        }
        (Self::hash(key) as usize) & self.mask
    }

    fn next(&self, i: usize) -> (j: usize)
        requires
            self.shape(),
            i < self.cap,
        ensures
            j == succ(i as int, self.cap as int),
            j < self.cap,
    {
        if i + 1 == self.cap {
            0
        } else {
            i + 1
        }
    }

    fn steps(&self, a: usize, b: usize) -> (d: usize)
        requires
            self.shape(),
            a < self.cap,
            b < self.cap,
        ensures
            d == dist(a as int, b as int, self.cap as int),
    {
        if b >= a {
            b - a
        } else {
            b + self.cap - a
        }
    }

    /// The position that holds `key`, or the first vacancy that its probe meets.
    fn probe(&self, key: u64) -> (i: usize)
        requires
            self.sound(),
            key != EMPTY,
        ensures
            i < self.cap,
            self.keys[i as int] == key || (self.keys[i as int] == EMPTY && !self.stored(key)),
            forall|k: int|
                0 <= k < self.cap && dist(self.home_of(key), k, self.cap as int) < dist(
                    self.home_of(key),
                    i as int,
                    self.cap as int,
                ) ==> #[trigger] self.keys[k] != EMPTY,
    {
        let ghost cap = self.cap as int;
        let ghost h = self.home_of(key);
        let ghost mut e = 0int;
        proof {
            e = occupied_some_vacant(self.keys@, cap);
        }
        let mut i: usize = self.home(key);
        while self.keys[i] != key && self.keys[i] != EMPTY
            invariant
                self.sound(),
                key != EMPTY,
                cap == self.cap,
                h == self.home_of(key),
                0 <= h < cap,
                0 <= i < cap,
                0 <= e < cap,
                self.keys[e] == EMPTY,
                dist(h, i as int, cap) <= dist(h, e, cap),
                forall|k: int|
                    0 <= k < cap && dist(h, k, cap) < dist(h, i as int, cap)
                        ==> #[trigger] self.keys[k] != EMPTY && self.keys[k] != key,
            decreases dist(h, e, cap) - dist(h, i as int, cap),
        {
            i = self.next(i);
        }
        proof {
            if self.keys[i as int] == EMPTY && self.stored(key) {
                let m = self.index_of(key);
                assert(self.full(m) && self.keys[m] == key);
                assert(self.reachable(m, -1));
                assert(false);
            }
        }
        i
    }

    /// The value stored under `key`.
    pub fn get(&self, key: u64) -> (r: Option<u32>)
        requires
            self.wf(),
            key != EMPTY,
        ensures
            r == (if self@.contains_key(key) {
                Some(self@[key])
            } else {
                None
            }),
    {
        let i = self.probe(key);
        if self.keys[i] == key {
            proof {
                assert(self.full(i as int));
                self.entry_in_view(i as int);
            }
            Some(self.vals[i])
        } else {
            None
        }
    }

    /// Store `val` under `key`, replacing what was there.
    ///
    /// The table doubles exactly when more than three fifths of its positions would be taken.
    pub fn set(&mut self, key: u64, val: u32)
        requires
            old(self).wf(),
            key != EMPTY,
            old(self)@.len() < MAX_LEN,
        ensures
            final(self).wf(),
            final(self)@ == old(self)@.insert(key, val),
            final(self).capacity() == (if final(self)@.len() > old(self)@.len() && final(self)@.len()
                > old(self).capacity() * 3 / 5 {
                2 * old(self).capacity()
            } else {
                old(self).capacity()
            }),
    {
        proof {
            self.lemma_len();
        }
        self.place(key, val);
        proof {
            self.lemma_len();
        }
        if self.len > self.limit {
            self.grow();
        }
    }

    /// Store `val` under `key` in a table with a vacancy to spare.
    fn place(&mut self, key: u64, val: u32)
        requires
            old(self).sound(),
            key != EMPTY,
            old(self).len + 1 < old(self).cap,
        ensures
            final(self).sound(),
            final(self)@ == old(self)@.insert(key, val),
            final(self).cap == old(self).cap,
            final(self).len == old(self).len + (if old(self)@.contains_key(key) {
                0int
            } else {
                1
            }),
    {
        let i = self.probe(key);
        let ghost m = self@.insert(key, val);
        if self.keys[i] == key {
            self.vals[i] = val;
            proof {
                assert(old(self).full(i as int));
                old(self).entry_in_view(i as int);
                assert forall|j: int| #[trigger] self.full(j) implies self.reachable(j, -1) by {
                    assert(old(self).full(j) && old(self).reachable(j, -1));
                }
                assert forall|j: int| #[trigger] self.full(j) implies m.contains_key(self.keys[j])
                    && m[self.keys[j]] == self.vals[j] by {
                    assert(old(self).full(j));
                    old(self).entry_in_view(j);
                }
                assert forall|k: u64| #[trigger] m.contains_key(k) implies self.stored(k) by {
                    assert(old(self).stored(k));
                    let j = old(self).index_of(k);
                    assert(old(self).full(j) && old(self).keys[j] == k);
                    assert(self.full(j) && self.keys[j] == k);
                }
                self.lemma_view_is(m);
            }
            return ;
        }
        self.keys[i] = key;
        self.vals[i] = val;
        proof {
            occupied_update(old(self).keys@, self.cap as int, i as int, key);
            occupied_bound(self.keys@, self.cap as int);
        }
        self.len = self.len + 1;
        proof {
            assert(!old(self).full(i as int));
            assert(self.full(i as int));
            assert forall|j: int, l: int|
                #![trigger self.keys[j], self.keys[l]]
                self.full(j) && self.full(l) && self.keys[j] == self.keys[l] implies j == l by {
                if j != i as int && l != i as int {
                    assert(old(self).full(j) && old(self).full(l));
                    assert(old(self).keys[j] == old(self).keys[l]);
                } else if j != i as int {
                    assert(old(self).full(j) && old(self).keys[j] == key);
                } else if l != i as int {
                    assert(old(self).full(l) && old(self).keys[l] == key);
                }
            }
            assert forall|j: int| #[trigger] self.full(j) implies self.reachable(j, -1) by {
                if j != i as int {
                    assert(old(self).full(j) && old(self).reachable(j, -1));
                    assert forall|k: int|
                        0 <= k < self.cap && k != -1 && dist(
                            self.home_of(self.keys[j]),
                            k,
                            self.cap as int,
                        ) < dist(self.home_of(self.keys[j]), j, self.cap as int) implies #[trigger] self.keys[k]
                        != EMPTY by {
                        assert(old(self).keys[k] != EMPTY);
                    }
                } else {
                    assert forall|k: int|
                        0 <= k < self.cap && k != -1 && dist(
                            self.home_of(self.keys[j]),
                            k,
                            self.cap as int,
                        ) < dist(self.home_of(self.keys[j]), j, self.cap as int) implies #[trigger] self.keys[k]
                        != EMPTY by {
                        assert(old(self).keys[k] != EMPTY);
                    }
                }
            }
            assert forall|j: int| #[trigger] self.full(j) implies m.contains_key(self.keys[j])
                && m[self.keys[j]] == self.vals[j] by {
                if j != i as int {
                    assert(old(self).full(j));
                    old(self).entry_in_view(j);
                    assert(self.keys[j] != key);
                }
            }
            assert forall|k: u64| #[trigger] m.contains_key(k) implies self.stored(k) by {
                if k == key {
                    assert(self.full(i as int) && self.keys[i as int] == k);
                } else {
                    assert(old(self).stored(k));
                    let j = old(self).index_of(k);
                    assert(old(self).full(j) && old(self).keys[j] == k);
                    assert(self.full(j) && self.keys[j] == k);
                }
            }
            self.lemma_view_is(m);
        }
    }

    /// Every entry again, in a table twice as large.
    fn grow(&mut self)
        requires
            old(self).sound(),
            old(self).limit < old(self).len <= MAX_LEN,
            old(self).len <= old(self).limit + 1,
        ensures
            final(self).wf(),
            final(self)@ == old(self)@,
            final(self).cap == 2 * old(self).cap,
    {
        proof {
            self.lemma_len();
        }
        let mut fresh = Self::vacant(self.cap * 2);
        let mut i: usize = 0;
        let ghost m = self@;
        while i < self.cap
            invariant
                i <= self.cap,
                *self == *old(self),
                self.shape(),
                m == self@,
                m.dom().finite(),
                m.len() == self.len,
                self.len < self.cap,
                self.len <= self.limit + 1,
                fresh.sound(),
                fresh.cap == 2 * self.cap,
                fresh.len <= m.len(),
                forall|k: u64| #[trigger]
                    fresh@.contains_key(k) ==> m.contains_key(k) && fresh@[k] == m[k]
                        && self.held_before(k, i as int),
                forall|j: int| #[trigger]
                    self.full(j) && j < i ==> fresh@.contains_key(self.keys[j]),
            decreases self.cap - i,
        {
            if self.keys[i] != EMPTY {
                let ghost k = self.keys[i as int];
                proof {
                    assert(self.full(i as int));
                    self.entry_in_view(i as int);
                    fresh.lemma_len();
                    assert(!fresh@.contains_key(k));
                    assert(fresh@.dom().insert(k).subset_of(m.dom()));
                    vstd::set_lib::lemma_len_subset(fresh@.dom().insert(k), m.dom());
                }
                fresh.place(self.keys[i], self.vals[i]);
                proof {
                    assert(self.held_before(k, i + 1));
                }
            }
            i = i + 1;
        }
        proof {
            assert forall|k: u64| #[trigger] m.contains_key(k) implies fresh@.contains_key(k) by {
                let j = self.index_of(k);
                assert(self.full(j) && self.keys[j] == k);
            }
            assert(fresh@ =~= m);
        }
        *self = fresh;
    }

    /// Some position before `n` holds `key`.
    spec fn held_before(&self, key: u64, n: int) -> bool {
        exists|j: int| #[trigger] self.full(j) && j < n && self.keys[j] == key
    }

    /// Remove `key`, pulling back every entry that had probed past it, so that the table is
    /// left as if the key had never been stored. Answers whether it was.
    pub fn remove(&mut self, key: u64) -> (gone: bool)
        requires
            old(self).wf(),
            key != EMPTY,
        ensures
            final(self).wf(),
            gone == old(self)@.contains_key(key),
            final(self)@ == old(self)@.remove(key),
            final(self).capacity() == old(self).capacity(),
    {
        let start = self.probe(key);
        if self.keys[start] == EMPTY {
            proof {
                assert(self@ =~= self@.remove(key));
            }
            return false;
        }
        let ghost m = self@.remove(key);
        let ghost cap = self.cap as int;
        let ghost mut e = 0int;
        proof {
            e = occupied_some_vacant(self.keys@, cap);
            assert(self.full(start as int));
            self.entry_in_view(start as int);
            occupied_update(self.keys@, cap, start as int, EMPTY);
            occupied_bound(self.keys@.update(start as int, EMPTY), cap);
        }
        let mut i: usize = start;
        let mut j: usize = start;
        self.keys[i] = EMPTY;
        proof {
            self.lemma_open_gap(*old(self), start as int, m);
        }
        loop
            invariant
                i < cap,
                j < cap,
                0 <= e < cap,
                cap == self.cap,
                self.cap == old(self).cap,
                self.len == old(self).len,
                old(self).len <= old(self).limit,
                self.limit == old(self).limit,
                0 < self.len < self.cap,
                occupied(self.keys@, cap) == self.len - 1,
                self.gapped(i as int, m),
                self.keys[e] == EMPTY,
                e != i,
                dist(i as int, j as int, cap) < dist(i as int, e, cap),
                self.settled_upto(i as int, j as int),
                m == old(self)@.remove(key),
                old(self)@.contains_key(key),
            decreases dist(j as int, e, cap),
        {
            let ghost j0 = j as int;
            j = self.next(j);
            if self.keys[j] == EMPTY {
                let ghost before = *self;
                self.len = self.len - 1;
                proof {
                    self.lemma_close_gap(before, i as int, j0, m);
                }
                return true;
            }
            let home = self.home(self.keys[j]);
            let a: usize = self.steps(i, j);
            let b: usize = self.steps(home, j);
            if b >= a {
                let ghost before = *self;
                let kj = self.keys[j];
                let vj = self.vals[j];
                self.keys[i] = kj;
                self.vals[i] = vj;
                self.keys[j] = EMPTY;
                proof {
                    occupied_update(before.keys@, cap, i as int, kj);
                    occupied_update(before.keys@.update(i as int, kj), cap, j as int, EMPTY);
                    self.lemma_after_shift(before, i as int, j as int, m);
                }
                i = j;
            }
        }
    }

    /// The table holds exactly `m`, and no probe meets a vacancy other than `hole` too early.
    spec fn gapped(&self, hole: int, m: Map<u64, u32>) -> bool {
        &&& self.shape()
        &&& 0 <= hole < self.cap
        &&& self.keys[hole] == EMPTY
        &&& forall|q: int| #[trigger]
            self.full(q) ==> self.reachable(q, hole) && m.contains_key(self.keys[q])
                && m[self.keys[q]] == self.vals[q]
        &&& forall|k: u64| #[trigger] m.contains_key(k) ==> self.stored(k)
    }

    /// The probe for the entry at `q` starts behind the hole, so it never crosses it.
    spec fn settled(&self, q: int, hole: int) -> bool {
        dist(self.home_of(self.keys[q]), q, self.cap as int) < dist(hole, q, self.cap as int)
    }

    spec fn settled_upto(&self, hole: int, j: int) -> bool {
        forall|q: int|
            0 <= q < self.cap && 0 < dist(hole, q, self.cap as int) <= dist(
                hole,
                j,
                self.cap as int,
            ) ==> #[trigger] self.keys[q] != EMPTY && self.settled(q, hole)
    }

    proof fn lemma_home_range(&self, key: u64)
        requires
            self.shape(),
        ensures
            0 <= self.home_of(key) < self.cap,
    {
        mask_bound(hash_of(key) as usize, self.mask);
    }

    proof fn lemma_open_gap(&self, before: CellHash, i: int, m: Map<u64, u32>)
        requires
            before.sound(),
            before.full(i),
            m == before@.remove(before.keys[i]),
            self.keys@ == before.keys@.update(i, EMPTY),
            self.vals == before.vals,
            self.cap == before.cap,
            self.mask == before.mask,
            self.limit == before.limit,
        ensures
            self.gapped(i, m),
    {
        assert forall|p: int, q: int|
            #![trigger self.keys[p], self.keys[q]]
            self.full(p) && self.full(q) && self.keys[p] == self.keys[q] implies p == q by {
            assert(before.full(p) && before.full(q));
            assert(before.keys[p] == before.keys[q]);
        }
        assert forall|q: int| #[trigger] self.full(q) implies self.reachable(q, i)
            && m.contains_key(self.keys[q]) && m[self.keys[q]] == self.vals[q] by {
            assert(before.full(q));
            assert(before.reachable(q, -1));
            assert(before.keys[q] == self.keys[q]);
            before.entry_in_view(q);
            assert forall|k: int|
                0 <= k < self.cap && k != i && dist(self.home_of(self.keys[q]), k, self.cap as int)
                    < dist(self.home_of(self.keys[q]), q, self.cap as int) implies #[trigger] self.keys[k]
                != EMPTY by {
                assert(before.keys[k] != EMPTY);
            }
            if before.keys[q] == before.keys[i] {
                assert(q == i);
            }
        }
        assert forall|k: u64| #[trigger] m.contains_key(k) implies self.stored(k) by {
            assert(before.stored(k));
            let q = before.index_of(k);
            assert(before.full(q) && before.keys[q] == k);
            assert(self.full(q) && self.keys[q] == k);
        }
    }

    /// A vacancy right behind the settled stretch ends the repair.
    proof fn lemma_close_gap(&self, before: CellHash, i: int, j0: int, m: Map<u64, u32>)
        requires
            before.gapped(i, m),
            0 <= j0 < before.cap,
            before.settled_upto(i, j0),
            succ(j0, before.cap as int) != i,
            before.keys[succ(j0, before.cap as int)] == EMPTY,
            self.keys == before.keys,
            self.vals == before.vals,
            self.cap == before.cap,
            self.mask == before.mask,
            self.limit == before.limit,
        ensures
            self.shape(),
            forall|q: int| #[trigger] self.full(q) ==> self.reachable(q, -1),
            self@ == m,
    {
        assert(self.gapped(i, m)) by {
            assert forall|q: int| #[trigger] self.full(q) implies self.reachable(q, i)
                && m.contains_key(self.keys[q]) && m[self.keys[q]] == self.vals[q] by {
                assert(before.full(q));
                assert(before.reachable(q, i));
            }
            assert forall|k: u64| #[trigger] m.contains_key(k) implies self.stored(k) by {
                assert(before.stored(k));
                let q = before.index_of(k);
                assert(before.full(q) && before.keys[q] == k);
                assert(self.full(q) && self.keys[q] == k);
            }
        }
        assert(self.settled_upto(i, j0));
        let cap = self.cap as int;
        let j = succ(j0, cap);
        assert forall|q: int| #[trigger] self.full(q) implies self.reachable(q, -1) by {
            assert(self.reachable(q, i));
            let h = self.home_of(self.keys[q]);
            self.lemma_home_range(self.keys[q]);
            if dist(h, i, cap) < dist(h, q, cap) {
                if dist(i, q, cap) <= dist(i, j0, cap) {
                    assert(self.keys[q] != EMPTY && self.settled(q, i));
                    assert(false);
                } else {
                    assert(dist(i, j, cap) == dist(i, j0, cap) + 1);
                    assert(dist(i, j, cap) < dist(i, q, cap));
                    assert(dist(h, j, cap) < dist(h, q, cap));
                    assert(self.keys[j] != EMPTY);
                    assert(false);
                }
            }
        }
        self.lemma_view_is(m);
    }

    /// Filling the hole at `i` from `j` moves the hole to `j` and loses nothing.
    proof fn lemma_after_shift(&self, before: CellHash, i: int, j: int, m: Map<u64, u32>)
        requires
            before.gapped(i, m),
            before.full(j),
            self.keys@ == before.keys@.update(i, before.keys[j]).update(j, EMPTY),
            self.vals@ == before.vals@.update(i, before.vals[j]),
            self.cap == before.cap,
            self.mask == before.mask,
            self.limit == before.limit,
            dist(before.home_of(before.keys[j]), j, before.cap as int) >= dist(
                i,
                j,
                before.cap as int,
            ),
        ensures
            self.gapped(j, m),
    {
        let cap = before.cap as int;
        assert(i != j);
        assert forall|p: int, q: int|
            #![trigger self.keys[p], self.keys[q]]
            self.full(p) && self.full(q) && self.keys[p] == self.keys[q] implies p == q by {
            let p0 = if p == i {
                j
            } else {
                p
            };
            let q0 = if q == i {
                j
            } else {
                q
            };
            assert(before.full(p0) && before.full(q0));
            assert(before.keys[p0] == before.keys[q0]);
        }
        assert forall|q: int| #[trigger] self.full(q) implies self.reachable(q, j)
            && m.contains_key(self.keys[q]) && m[self.keys[q]] == self.vals[q] by {
            if q == i {
                self.lemma_shift_moved(before, i, j);
                assert(before.full(j));
            } else {
                assert(q != j);
                assert(before.full(q));
                assert(before.reachable(q, i));
                assert(self.keys[q] == before.keys[q]);
                assert forall|k: int|
                    0 <= k < self.cap && k != j && dist(
                        self.home_of(self.keys[q]),
                        k,
                        self.cap as int,
                    ) < dist(self.home_of(self.keys[q]), q, self.cap as int) implies #[trigger] self.keys[k]
                    != EMPTY by {
                    if k != i {
                        assert(before.keys[k] != EMPTY);
                    }
                }
            }
        }
        assert forall|k: u64| #[trigger] m.contains_key(k) implies self.stored(k) by {
            assert(before.stored(k));
            let q0 = before.index_of(k);
            assert(before.full(q0) && before.keys[q0] == k);
            let q = if q0 == j {
                i
            } else {
                q0
            };
            assert(self.full(q) && self.keys[q] == k);
        }
    }

    proof fn lemma_shift_moved(&self, before: CellHash, i: int, j: int)
        requires
            before.shape(),
            0 <= i < before.cap,
            before.keys[i] == EMPTY,
            before.full(j),
            before.reachable(j, i),
            self.keys@ == before.keys@.update(i, before.keys[j]).update(j, EMPTY),
            self.cap == before.cap,
            self.mask == before.mask,
            dist(before.home_of(before.keys[j]), j, before.cap as int) >= dist(
                i,
                j,
                before.cap as int,
            ),
        ensures
            self.reachable(i, j),
    {
        let cap = before.cap as int;
        let h = before.home_of(before.keys[j]);
        before.lemma_home_range(before.keys[j]);
        assert(i != j);
        assert(self.keys[i] == before.keys[j]);
        assert(dist(h, i, cap) == dist(h, j, cap) - dist(i, j, cap));
        assert forall|k: int|
            0 <= k < self.cap && k != j && dist(self.home_of(self.keys[i]), k, self.cap as int)
                < dist(self.home_of(self.keys[i]), i, self.cap as int) implies #[trigger] self.keys[k]
            != EMPTY by {
            assert(k != i);
            assert(before.keys[k] != EMPTY);
        }
    }

    /// Every entry, in table order.
    pub fn iter(&self) -> (out: Vec<(u64, u32)>)
        requires
            self.wf(),
        ensures
            forall|i: int|
                0 <= i < out@.len() ==> self@.contains_key(#[trigger] out@[i].0)
                    && self@[out@[i].0] == out@[i].1,
            forall|k: u64| #[trigger]
                self@.contains_key(k) ==> exists|i: int|
                    0 <= i < out@.len() && #[trigger] out@[i].0 == k,
            forall|i: int, j: int|
                0 <= i < j < out@.len() ==> #[trigger] out@[i].0 != #[trigger] out@[j].0,
            out@.len() == self@.len(),
    {
        let mut out: Vec<(u64, u32)> = Vec::new();
        let mut i: usize = 0;
        let ghost mut at: Seq<int> = Seq::empty();
        while i < self.cap
            invariant
                i <= self.cap,
                self.wf(),
                at.len() == out@.len(),
                out@.len() == occupied(self.keys@, i as int),
                forall|t: int|
                    0 <= t < at.len() ==> self.full(#[trigger] at[t]) && at[t] < i && out@[t]
                        == (self.keys[at[t]], self.vals[at[t]]),
                forall|s: int, t: int| 0 <= s < t < at.len() ==> at[s] < at[t],
                forall|p: int| #[trigger]
                    self.full(p) && p < i ==> exists|t: int|
                        0 <= t < at.len() && #[trigger] at[t] == p,
            decreases self.cap - i,
        {
            if self.keys[i] != EMPTY {
                out.push((self.keys[i], self.vals[i]));
                proof {
                    let was = at;
                    at = at.push(i as int);
                    assert(at[was.len() as int] == i);
                    assert forall|p: int| #[trigger] self.full(p) && p < i + 1 implies exists|t: int|
                        0 <= t < at.len() && #[trigger] at[t] == p by {
                        if p < i {
                            let t = choose|t: int| 0 <= t < was.len() && #[trigger] was[t] == p;
                            assert(at[t] == p);
                        }
                    }
                }
            }
            i = i + 1;
        }
        proof {
            self.lemma_len();
            assert forall|t: int| 0 <= t < out@.len() implies self@.contains_key(
                #[trigger] out@[t].0,
            ) && self@[out@[t].0] == out@[t].1 by {
                assert(self.full(at[t]));
                self.entry_in_view(at[t]);
            }
            assert forall|k: u64| #[trigger] self@.contains_key(k) implies exists|t: int|
                0 <= t < out@.len() && #[trigger] out@[t].0 == k by {
                let p = self.index_of(k);
                assert(self.full(p) && self.keys[p] == k);
                let t = choose|t: int| 0 <= t < at.len() && #[trigger] at[t] == p;
                assert(out@[t].0 == k);
            }
            assert forall|s: int, t: int| 0 <= s < t < out@.len() implies #[trigger] out@[s].0
                != #[trigger] out@[t].0 by {
                assert(self.full(at[s]) && self.full(at[t]));
                assert(at[s] < at[t]);
                if out@[s].0 == out@[t].0 {
                    assert(self.keys[at[s]] == self.keys[at[t]]);
                }
            }
        }
        out
    }

    /// How many entries the table holds.
    pub fn len(&self) -> (n: usize)
        requires
            self.wf(),
        ensures
            n == self@.len(),
            self@.dom().finite(),
    {
        proof {
            self.lemma_len();
        }
        self.len
    }

    /// Whether the table holds nothing.
    pub fn is_empty(&self) -> (r: bool)
        requires
            self.wf(),
        ensures
            r == (self@.len() == 0),
            r == (self@ == Map::<u64, u32>::empty()),
    {
        proof {
            self.lemma_len();
            if self@.len() == 0 {
                assert(self@.dom() =~= Set::<u64>::empty());
                assert(self@ =~= Map::<u64, u32>::empty());
            }
        }
        self.len == 0
    }

    /// Resident size of the table: twelve bytes per position.
    pub fn bytes(&self) -> (n: usize)
        requires
            self.wf(),
        ensures
            n == self.capacity() * 12,
    {
        self.cap * 12
    }

    /// Storing a key and removing it again leaves the contents as they were.
    pub proof fn law_set_then_remove(m: Map<u64, u32>, key: u64, val: u32)
        requires
            !m.contains_key(key),
        ensures
            m.insert(key, val).remove(key) == m,
    {
        assert(m.insert(key, val).remove(key) =~= m);
    }
}

} // verus!
