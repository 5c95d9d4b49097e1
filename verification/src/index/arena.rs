//! The nodes of an index: one per point, with doubly linked child lists and a free list.
use crate::grid::{Slot, NONE};
use vstd::prelude::*;

verus! {

/// The level of a slot that is not in the tree.
pub const DEAD: i8 = -2;

/// The most slots an arena can have.
pub const MAX_SLOTS: usize = 0x0800_0000;

/// One point, its place in the tree, and the mass of its subtree.
#[derive(Clone, Copy, Debug)]
pub struct Node {
    /// Position.
    pub qx: i32,
    pub qy: i32,
    /// Coordinate sums over the subtree.
    pub sx: i64,
    pub sy: i64,
    /// Points in the subtree.
    pub cnt: i32,
    /// Parent; for a free slot, the next free slot.
    pub par: Slot,
    /// First child.
    pub kid: Slot,
    /// Next and previous sibling.
    pub sib: Slot,
    pub psib: Slot,
    /// Coarsest level at which the point is a center; [`DEAD`] for a slot outside the tree.
    pub tz: i8,
    /// The id the point was inserted under.
    pub ext: u64,
}

/// Two nodes that differ in their links at most.
pub open spec fn same_data(a: Node, b: Node) -> bool {
    &&& a.qx == b.qx
    &&& a.qy == b.qy
    &&& a.sx == b.sx
    &&& a.sy == b.sy
    &&& a.cnt == b.cnt
    &&& a.tz == b.tz
    &&& a.ext == b.ext
}

/// Two nodes that differ in what they say of their point at most.
pub open spec fn same_links(a: Node, b: Node) -> bool {
    a.par == b.par && a.kid == b.kid && a.sib == b.sib && a.psib == b.psib
}

pub struct Arena {
    pub nodes: Vec<Node>,
    /// Per slot, the filter cells of its point.
    pub tags: Vec<Vec<u32>>,
    pub n: u32,
    pub free_head: Slot,
    /// Per slot, its children in list order.
    pub kids: Ghost<Seq<Seq<int>>>,
    /// Per slot in use, its parent and its position in the parent's list; -1 for a slot that
    /// hangs nowhere, -2 and the position in `spare` for a free one.
    pub home: Ghost<Seq<(int, int)>>,
    /// The free slots, the next to be used last.
    pub spare: Ghost<Seq<int>>,
}

/// `x`, or [`NONE`] behind the end.
pub open spec fn or_none(q: Seq<int>, i: int) -> int {
    if 0 <= i < q.len() {
        q[i]
    } else {
        NONE as int
    }
}

impl Arena {
    /// The parent of `c`, -1 if it has none, -2 if the slot is free.
    pub open spec fn up(&self, c: int) -> int {
        self.home@[c].0
    }

    /// Slot `s` is in the tree.
    pub open spec fn live(&self, s: int) -> bool {
        0 <= s < self.n && self.nodes[s].tz >= 0
    }

    pub open spec fn hung(&self, c: int) -> bool {
        let (p, i) = self.home@[c];
        if p >= 0 {
            &&& p < self.n
            &&& 0 <= i < self.kids@[p].len()
            &&& self.kids@[p][i] == c
            &&& self.nodes[c].par == p
            &&& self.nodes[p].tz < self.nodes[c].tz
        } else if p == -1 {
            self.nodes[c].par == NONE
        } else {
            p == -2 && 0 <= i < self.spare@.len() && self.spare@[i] == c
        }
    }

    pub open spec fn linked(&self, s: int, i: int) -> bool {
        let q = self.kids@[s];
        let c = q[i];
        &&& 0 <= c < self.n
        &&& self.home@[c] == (s, i)
        &&& self.nodes[c].sib == or_none(q, i + 1)
        &&& self.nodes[c].psib == or_none(q, i - 1)
    }

    pub open spec fn headed(&self, s: int) -> bool {
        self.nodes[s].kid == or_none(self.kids@[s], 0)
    }

    pub open spec fn sorted(&self, s: int) -> bool {
        let q = self.kids@[s];
        forall|i: int, j: int|
            #![trigger q[i], q[j]]
            0 <= i < j < q.len() ==> self.nodes[q[i]].tz <= self.nodes[q[j]].tz
    }

    /// The first `i` children of `p` are of a coarser level than `c`, and the next is not.
    pub open spec fn behind(&self, p: int, c: int, i: int) -> bool {
        let q = self.kids@[p];
        &&& 0 <= i <= q.len()
        &&& forall|j: int| 0 <= j < i ==> self.nodes[#[trigger] q[j]].tz < self.nodes[c].tz
        &&& i < q.len() ==> self.nodes[q[i]].tz >= self.nodes[c].tz
    }

    pub open spec fn spared(&self, i: int) -> bool {
        let c = self.spare@[i];
        &&& 0 <= c < self.n
        &&& self.home@[c] == (-2int, i)
        &&& self.nodes[c].par == or_none(self.spare@, i - 1)
        &&& self.nodes[c].tz == DEAD
        &&& self.kids@[c].len() == 0
    }

    pub open spec fn cap(&self) -> int {
        self.nodes.len() as int
    }

    pub open spec fn lens(&self) -> bool {
        &&& self.tags.len() == self.nodes.len()
        &&& self.kids@.len() == self.nodes.len()
        &&& self.home@.len() == self.n
        &&& self.n <= self.nodes.len() <= MAX_SLOTS
        &&& self.nodes.len() >= 1
        &&& self.nodes.len() == 1024 || self.nodes.len() <= 2 * self.n
        &&& forall|s: int|
            0 <= s < self.nodes.len() ==> DEAD <= (#[trigger] self.nodes[s]).tz <= 21
        &&& forall|s: int|
            self.n <= s < self.nodes.len() ==> (#[trigger] self.nodes[s]).tz == DEAD
        &&& forall|s: int| self.n <= s < self.nodes.len() ==> (#[trigger] self.kids@[s]).len() == 0
    }

    pub open spec fn wf(&self) -> bool {
        &&& self.lens()
        &&& self.free_head == or_none(self.spare@, self.spare@.len() - 1)
        &&& forall|c: int| 0 <= c < self.n ==> #[trigger] self.hung(c)
        &&& forall|s: int, i: int|
            0 <= s < self.n && 0 <= i < self.kids@[s].len() ==> #[trigger] self.linked(s, i)
        &&& forall|s: int| 0 <= s < self.n ==> #[trigger] self.headed(s)
        &&& forall|s: int| 0 <= s < self.n ==> #[trigger] self.sorted(s)
        &&& forall|i: int| 0 <= i < self.spare@.len() ==> #[trigger] self.spared(i)
    }

    /// No list holds a slot twice.
    pub proof fn lemma_kids_distinct(&self, s: int)
        requires
            self.wf(),
            0 <= s < self.n,
        ensures
            self.kids@[s].no_duplicates(),
    {
        let q = self.kids@[s];
        assert forall|i: int, j: int| 0 <= i < q.len() && 0 <= j < q.len() && i != j implies q[i]
            != q[j] by {
            assert(self.linked(s, i) && self.linked(s, j));
        }
    }

    /// The children lists of two arenas are the same, and so are all parents.
    pub open spec fn same_shape(&self, o: Arena) -> bool {
        &&& self.n == o.n
        &&& self.nodes.len() == o.nodes.len()
        &&& self.tags.len() == o.tags.len()
        &&& self.free_head == o.free_head
        &&& self.kids == o.kids
        &&& self.home == o.home
        &&& self.spare == o.spare
    }

    /// Writing data of one node, its level kept, keeps the arena well-formed.
    pub proof fn lemma_rewrite(&self, o: Arena)
        requires
            o.wf(),
            self.same_shape(o),
            forall|x: int|
                0 <= x < o.nodes.len() ==> same_links(#[trigger] self.nodes[x], o.nodes[x])
                    && self.nodes[x].tz == o.nodes[x].tz,
        ensures
            self.wf(),
    {
        assert forall|c: int| 0 <= c < self.n implies #[trigger] self.hung(c) by {
            assert(o.hung(c));
            assert(same_links(self.nodes[c], o.nodes[c]));
            if o.home@[c].0 >= 0 {
                assert(self.nodes[o.home@[c].0].tz == o.nodes[o.home@[c].0].tz);
            }
        }
        assert forall|s: int, i: int| 0 <= s < self.n && 0 <= i < self.kids@[s].len() implies #[trigger] self.linked(
            s,
            i,
        ) by {
            assert(o.linked(s, i));
            assert(same_links(self.nodes[o.kids@[s][i]], o.nodes[o.kids@[s][i]]));
        }
        assert forall|s: int| 0 <= s < self.n implies #[trigger] self.headed(s) by {
            assert(o.headed(s));
            assert(same_links(self.nodes[s], o.nodes[s]));
        }
        assert forall|s: int| 0 <= s < self.n implies #[trigger] self.sorted(s) by {
            assert(o.sorted(s));
            let q = self.kids@[s];
            assert forall|i: int, j: int|
                #![trigger q[i], q[j]]
                0 <= i < j < q.len() implies self.nodes[q[i]].tz <= self.nodes[q[j]].tz by {
                assert(o.linked(s, i) && o.linked(s, j));
                assert(self.nodes[q[i]].tz == o.nodes[q[i]].tz);
                assert(self.nodes[q[j]].tz == o.nodes[q[j]].tz);
            }
        }
        assert forall|i: int| 0 <= i < self.spare@.len() implies #[trigger] self.spared(i) by {
            assert(o.spared(i));
            assert(same_links(self.nodes[o.spare@[i]], o.nodes[o.spare@[i]]));
        }
        assert forall|s: int| 0 <= s < self.nodes.len() implies DEAD <= (#[trigger] self.nodes[s]).tz
            <= 21 by {
            assert(self.nodes[s].tz == o.nodes[s].tz);
        }
        assert forall|s: int| self.n <= s < self.nodes.len() implies (#[trigger] self.nodes[s]).tz
            == DEAD by {
            assert(self.nodes[s].tz == o.nodes[s].tz);
        }
    }

    /// The level of a slot that hangs nowhere may become anything below its children's.
    pub proof fn lemma_relevel(&self, o: Arena, s: int)
        requires
            o.wf(),
            self.same_shape(o),
            0 <= s < o.n,
            o.up(s) == -1,
            DEAD <= self.nodes[s].tz <= 21,
            same_links(self.nodes[s], o.nodes[s]),
            forall|x: int| 0 <= x < o.nodes.len() && x != s ==> #[trigger] self.nodes[x] == o.nodes[x],
            forall|i: int|
                0 <= i < o.kids@[s].len() ==> self.nodes[s].tz < o.nodes[#[trigger] o.kids@[s][i]].tz,
        ensures
            self.wf(),
    {
        assert forall|c: int| 0 <= c < self.n implies #[trigger] self.hung(c) by {
            assert(o.hung(c));
            let (p, i) = o.home@[c];
            if p == s {
                assert(o.kids@[s][i] == c);
            }
        }
        assert forall|t: int, i: int| 0 <= t < self.n && 0 <= i < self.kids@[t].len() implies #[trigger] self.linked(
            t,
            i,
        ) by {
            assert(o.linked(t, i));
        }
        assert forall|t: int| 0 <= t < self.n implies #[trigger] self.headed(t) by {
            assert(o.headed(t));
        }
        assert forall|t: int| 0 <= t < self.n implies #[trigger] self.sorted(t) by {
            assert(o.sorted(t));
            let q = self.kids@[t];
            assert forall|i: int, j: int|
                #![trigger q[i], q[j]]
                0 <= i < j < q.len() implies self.nodes[q[i]].tz <= self.nodes[q[j]].tz by {
                assert(o.linked(t, i) && o.linked(t, j));
                assert(q[i] != s && q[j] != s);
            }
        }
        assert forall|i: int| 0 <= i < self.spare@.len() implies #[trigger] self.spared(i) by {
            assert(o.spared(i));
            assert(o.spare@[i] != s);
        }
        assert forall|t: int| 0 <= t < self.nodes.len() implies DEAD <= (#[trigger] self.nodes[t]).tz
            <= 21 by {
            assert(t == s || self.nodes[t] == o.nodes[t]);
        }
        assert forall|t: int| self.n <= t < self.nodes.len() implies (#[trigger] self.nodes[t]).tz
            == DEAD by {
            assert(self.nodes[t] == o.nodes[t]);
        }
    }

    /// An arena with room for the first slots.
    pub fn new() -> (a: Self)
        ensures
            a.wf(),
            a.n == 0,
            a.spare@.len() == 0,
            a.cap() == 1024,
    {
        let mut nodes: Vec<Node> = Vec::new();
        let mut tags: Vec<Vec<u32>> = Vec::new();
        let mut i: usize = 0;
        while i < 1024
            invariant
                i <= 1024,
                nodes@.len() == i,
                tags@.len() == i,
                forall|s: int| 0 <= s < i ==> (#[trigger] nodes@[s]).tz == DEAD,
            decreases 1024 - i,
        {
            nodes.push(Self::vacant());
            tags.push(Vec::new());
            i = i + 1;
        }
        Arena {
            nodes,
            tags,
            n: 0,
            free_head: NONE,
            kids: Ghost(Seq::new(1024, |s: int| Seq::<int>::empty())),
            home: Ghost(Seq::empty()),
            spare: Ghost(Seq::empty()),
        }
    }

    fn vacant() -> (v: Node)
        ensures
            v.tz == DEAD,
    {
        Node {
            qx: 0,
            qy: 0,
            sx: 0,
            sy: 0,
            cnt: 0,
            par: NONE,
            kid: NONE,
            sib: NONE,
            psib: NONE,
            tz: DEAD,
            ext: 0,
        }
    }

    /// Whether every slot is taken.
    pub fn is_full(&self) -> (r: bool)
        requires
            self.wf(),
        ensures
            r == (self.spare@.len() == 0 && self.n == self.cap()),
    {
        proof {
            if self.spare@.len() > 0 {
                assert(self.spared(self.spare@.len() - 1));
            }
        }
        self.free_head == NONE && self.n as usize == self.nodes.len()
    }

    /// Twice as many slots.
    pub fn grow(&mut self)
        requires
            old(self).wf(),
            old(self).n == old(self).cap(),
            2 * old(self).cap() <= MAX_SLOTS,
        ensures
            final(self).wf(),
            final(self).cap() == 2 * old(self).cap(),
            final(self).n == old(self).n,
            final(self).home == old(self).home,
            final(self).spare == old(self).spare,
            forall|s: int|
                0 <= s < old(self).cap() ==> #[trigger] final(self).nodes[s] == old(self).nodes[s],
            forall|s: int|
                0 <= s < old(self).cap() ==> #[trigger] final(self).tags[s] == old(self).tags[s],
            forall|s: int|
                0 <= s < old(self).cap() ==> #[trigger] final(self).kids@[s] == old(self).kids@[s],
    {
        let was: usize = self.nodes.len();
        let want: usize = was * 2;
        let ghost o = *self;
        while self.nodes.len() < want
            invariant
                o.wf(),
                was == o.nodes.len(),
                want == 2 * was,
                was <= self.nodes.len() <= want,
                self.tags.len() == self.nodes.len(),
                self.n == o.n,
                self.free_head == o.free_head,
                self.home == o.home,
                self.spare == o.spare,
                self.kids == o.kids,
                forall|s: int| 0 <= s < was ==> #[trigger] self.nodes[s] == o.nodes[s],
                forall|s: int| 0 <= s < was ==> #[trigger] self.tags[s] == o.tags[s],
                forall|s: int| was <= s < self.nodes.len() ==> (#[trigger] self.nodes[s]).tz == DEAD,
            decreases want - self.nodes.len(),
        {
            self.nodes.push(Self::vacant());
            self.tags.push(Vec::new());
        }
        self.kids = Ghost(
            Seq::new(
                want as nat,
                |s: int|
                    if s < was {
                        self.kids@[s]
                    } else {
                        Seq::<int>::empty()
                    },
            ),
        );
        proof {
            assert forall|c: int| 0 <= c < self.n implies #[trigger] self.hung(c) by {
                assert(o.hung(c));
            }
            assert forall|t: int, i: int|
                0 <= t < self.n && 0 <= i < self.kids@[t].len() implies #[trigger] self.linked(
                t,
                i,
            ) by {
                assert(o.linked(t, i));
            }
            assert forall|t: int| 0 <= t < self.n implies #[trigger] self.headed(t) by {
                assert(o.headed(t));
            }
            assert forall|t: int| 0 <= t < self.n implies #[trigger] self.sorted(t) by {
                assert(o.sorted(t));
                let q = self.kids@[t];
                assert forall|i: int, j: int|
                    #![trigger q[i], q[j]]
                    0 <= i < j < q.len() implies self.nodes[q[i]].tz <= self.nodes[q[j]].tz by {
                    assert(o.linked(t, i) && o.linked(t, j));
                }
            }
            assert forall|i: int| 0 <= i < self.spare@.len() implies #[trigger] self.spared(i) by {
                assert(o.spared(i));
            }
        }
    }

    /// A slot out of use, ready for a new point.
    pub fn take(&mut self) -> (s: Slot)
        requires
            old(self).wf(),
            !(old(self).spare@.len() == 0 && old(self).n == old(self).cap()),
        ensures
            final(self).wf(),
            final(self).cap() == old(self).cap(),
            s < final(self).n,
            s == old(self).n || (s < old(self).n && old(self).up(s as int) == -2),
            final(self).n == (if s == old(self).n {
                old(self).n + 1
            } else {
                old(self).n as int
            }),
            old(self).spare@.len() == 0 ==> s == old(self).n && final(self).spare == old(self).spare,
            old(self).spare@.len() > 0 ==> s == old(self).spare@.last() && final(self).spare@ == old(
                self,
            ).spare@.drop_last(),
            s == old(self).n ==> old(self).spare@.len() == 0,
            final(self).up(s as int) == -1,
            final(self).nodes[s as int].tz == DEAD,
            final(self).kids@ == old(self).kids@,
            final(self).kids@[s as int].len() == 0,
            final(self).tags == old(self).tags,
            forall|x: int|
                0 <= x < old(self).n && x != s ==> #[trigger] final(self).up(x) == old(self).up(x),
            forall|x: int|
                0 <= x < old(self).cap() && x != s ==> #[trigger] final(self).nodes[x] == old(
                    self,
                ).nodes[x],
    {
        let ghost o = *self;
        let s: Slot;
        if self.free_head != NONE {
            s = self.free_head;
            proof {
                assert(self.spared(self.spare@.len() - 1));
                if self.spare@.len() > 1 {
                    assert(self.spared(self.spare@.len() - 2));
                }
            }
            self.free_head = self.nodes[s as usize].par;
            self.spare = Ghost(self.spare@.drop_last());
            self.home = Ghost(self.home@.update(s as int, (-1int, 0int)));
        } else {
            proof {
                if self.spare@.len() > 0 {
                    assert(self.spared(self.spare@.len() - 1));
                }
            }
            s = self.n;
            self.n = self.n + 1;
            self.home = Ghost(self.home@.push((-1int, 0int)));
        }
        let si = s as usize;
        let mut v = self.nodes[si];
        v.kid = NONE;
        v.sib = NONE;
        v.psib = NONE;
        v.par = NONE;
        self.nodes[si] = v;
        proof {
            assert forall|c: int| 0 <= c < self.n implies #[trigger] self.hung(c) by {
                if c != s {
                    assert(o.hung(c));
                    let (p, i) = o.home@[c];
                    if p >= 0 {
                        assert(o.linked(p, i));
                    }
                }
            }
            assert forall|t: int, i: int|
                0 <= t < self.n && 0 <= i < self.kids@[t].len() implies #[trigger] self.linked(
                t,
                i,
            ) by {
                assert(t < o.n);
                assert(o.linked(t, i));
                assert(o.hung(o.kids@[t][i]));
            }
            assert forall|t: int| 0 <= t < self.n implies #[trigger] self.headed(t) by {
                if t != s {
                    assert(o.headed(t));
                }
            }
            assert forall|t: int| 0 <= t < self.n implies #[trigger] self.sorted(t) by {
                if t < o.n {
                    assert(o.sorted(t));
                    let q = self.kids@[t];
                    assert forall|i: int, j: int|
                        #![trigger q[i], q[j]]
                        0 <= i < j < q.len() implies self.nodes[q[i]].tz <= self.nodes[q[j]].tz by {
                        assert(o.linked(t, i) && o.linked(t, j));
                    }
                }
            }
            assert forall|i: int| 0 <= i < self.spare@.len() implies #[trigger] self.spared(i) by {
                assert(o.spared(i));
            }
        }
        s
    }

    /// Give a slot that hangs nowhere back.
    pub fn give(&mut self, s: Slot)
        requires
            old(self).wf(),
            s < old(self).n,
            old(self).up(s as int) == -1,
            old(self).kids@[s as int].len() == 0,
        ensures
            final(self).wf(),
            final(self).cap() == old(self).cap(),
            final(self).n == old(self).n,
            final(self).spare@ == old(self).spare@.push(s as int),
            final(self).up(s as int) == -2,
            final(self).nodes[s as int].tz == DEAD,
            final(self).kids@ == old(self).kids@,
            final(self).tags == old(self).tags,
            forall|x: int|
                0 <= x < old(self).n && x != s ==> #[trigger] final(self).up(x) == old(self).up(x),
            forall|x: int|
                0 <= x < old(self).cap() && x != s ==> #[trigger] final(self).nodes[x] == old(
                    self,
                ).nodes[x],
    {
        let ghost o = *self;
        let si = s as usize;
        let mut v = self.nodes[si];
        v.par = self.free_head;
        v.tz = DEAD;
        self.nodes[si] = v;
        self.free_head = s;
        self.home = Ghost(self.home@.update(s as int, (-2int, self.spare@.len() as int)));
        self.spare = Ghost(self.spare@.push(s as int));
        proof {
            assert forall|c: int| 0 <= c < self.n implies #[trigger] self.hung(c) by {
                if c != s {
                    assert(o.hung(c));
                    let (p, i) = o.home@[c];
                    if p >= 0 {
                        assert(o.linked(p, i));
                    }
                }
            }
            assert forall|t: int, i: int|
                0 <= t < self.n && 0 <= i < self.kids@[t].len() implies #[trigger] self.linked(
                t,
                i,
            ) by {
                assert(o.linked(t, i));
            }
            assert forall|t: int| 0 <= t < self.n implies #[trigger] self.headed(t) by {
                assert(o.headed(t));
            }
            assert forall|t: int| 0 <= t < self.n implies #[trigger] self.sorted(t) by {
                assert(o.sorted(t));
                let q = self.kids@[t];
                assert forall|i: int, j: int|
                    #![trigger q[i], q[j]]
                    0 <= i < j < q.len() implies self.nodes[q[i]].tz <= self.nodes[q[j]].tz by {
                    assert(o.linked(t, i) && o.linked(t, j));
                }
            }
            assert forall|i: int| 0 <= i < self.spare@.len() implies #[trigger] self.spared(i) by {
                if i < o.spare@.len() {
                    assert(o.spared(i));
                } else if i > 0 {
                    assert(o.spared(i - 1));
                }
            }
        }
    }

    /// Hang `c` under `p`, before the first child of its level or a finer one.
    #[verifier::rlimit(60)]
    pub fn add_child(&mut self, p: Slot, c: Slot)
        requires
            old(self).wf(),
            p < old(self).n,
            c < old(self).n,
            p != c,
            old(self).up(p as int) >= -1,
            old(self).up(c as int) == -1,
            old(self).nodes[p as int].tz < old(self).nodes[c as int].tz,
        ensures
            final(self).wf(),
            final(self).n == old(self).n,
            final(self).cap() == old(self).cap(),
            final(self).tags == old(self).tags,
            final(self).spare == old(self).spare,
            final(self).up(c as int) == p,
            forall|x: int|
                0 <= x < old(self).n && x != c ==> #[trigger] final(self).up(x) == old(self).up(x),
            forall|x: int|
                0 <= x < old(self).cap() ==> same_data(#[trigger] final(self).nodes[x], old(self).nodes[x]),
            exists|i: int|
                old(self).behind(p as int, c as int, i) && final(self).kids@ == old(
                    self,
                ).kids@.update(p as int, #[trigger] old(self).kids@[p as int].insert(i, c as int)),
    {
        let ghost o = *self;
        let ghost (pi, ci) = (p as int, c as int);
        let ghost q = self.kids@[pi];
        let tzc = self.nodes[c as usize].tz;
        let mut prev: Slot = NONE;
        let mut cur: Slot = self.nodes[p as usize].kid;
        let ghost mut i = 0int;
        proof {
            assert(self.headed(pi));
            if q.len() > 0 {
                assert(self.linked(pi, 0));
            }
        }
        while cur != NONE && self.nodes[cur as usize].tz < tzc
            invariant
                *self == o,
                o.wf(),
                p < self.n,
                pi == p,
                q == o.kids@[pi],
                0 <= i <= q.len(),
                cur == or_none(q, i),
                prev == or_none(q, i - 1),
                i < q.len() ==> 0 <= q[i] < self.n,
                forall|j: int| 0 <= j < i ==> o.nodes[#[trigger] q[j]].tz < tzc,
            decreases q.len() - i,
        {
            proof {
                assert(o.linked(pi, i));
                if i + 1 < q.len() {
                    assert(o.linked(pi, i + 1));
                }
            }
            prev = cur;
            cur = self.nodes[cur as usize].sib;
            proof {
                i = i + 1;
            }
        }
        proof {
            if i < q.len() {
                assert(o.linked(pi, i));
            }
            if i > 0 {
                assert(o.linked(pi, i - 1));
            }
            assert forall|j: int| 0 <= j < q.len() implies #[trigger] q[j] != ci && q[j] != pi by {
                assert(o.linked(pi, j));
                assert(o.hung(q[j]));
            }
        }
        let mut v = self.nodes[c as usize];
        v.par = p;
        v.sib = cur;
        v.psib = prev;
        self.nodes[c as usize] = v;
        if cur != NONE {
            let mut w = self.nodes[cur as usize];
            w.psib = c;
            self.nodes[cur as usize] = w;
        }
        if prev == NONE {
            let mut w = self.nodes[p as usize];
            w.kid = c;
            self.nodes[p as usize] = w;
        } else {
            let mut w = self.nodes[prev as usize];
            w.sib = c;
            self.nodes[prev as usize] = w;
        }
        let ghost q2 = q.insert(i, ci);
        self.kids = Ghost(self.kids@.update(pi, q2));
        self.home = Ghost(
            Seq::new(
                self.home@.len(),
                |x: int|
                    if x == ci {
                        (pi, i)
                    } else if self.home@[x].0 == pi && self.home@[x].1 >= i {
                        (pi, self.home@[x].1 + 1)
                    } else {
                        self.home@[x]
                    },
            ),
        );
        proof {
            assert forall|x: int| 0 <= x < self.n implies #[trigger] self.hung(x) by {
                assert(o.hung(x));
                if x != ci {
                    let (t, j) = o.home@[x];
                    if t == pi && j >= i {
                        assert(q2[j + 1] == q[j]);
                    } else if t == pi {
                        assert(q2[j] == q[j]);
                    }
                } else {
                    assert(q2[i] == ci);
                }
            }
            assert forall|t: int, j: int|
                0 <= t < self.n && 0 <= j < self.kids@[t].len() implies #[trigger] self.linked(
                t,
                j,
            ) by {
                if t != pi {
                    assert(o.linked(t, j));
                    assert(o.hung(o.kids@[t][j]));
                } else if j < i {
                    assert(q2[j] == q[j]);
                    assert(o.linked(t, j));
                } else if j > i {
                    assert(q2[j] == q[j - 1]);
                    assert(o.linked(t, j - 1));
                }
            }
            assert forall|t: int| 0 <= t < self.n implies #[trigger] self.headed(t) by {
                assert(o.headed(t));
            }
            assert forall|t: int| 0 <= t < self.n implies #[trigger] self.sorted(t) by {
                assert(o.sorted(t));
                let r = self.kids@[t];
                assert forall|a: int, b: int|
                    #![trigger r[a], r[b]]
                    0 <= a < b < r.len() implies self.nodes[r[a]].tz <= self.nodes[r[b]].tz by {
                    if t != pi {
                        assert(o.linked(t, a) && o.linked(t, b));
                        assert(o.kids@[t][a] == r[a] && o.kids@[t][b] == r[b]);
                    } else {
                        let a0 = if a <= i {
                            a
                        } else {
                            a - 1
                        };
                        let b0 = if b <= i {
                            b
                        } else {
                            b - 1
                        };
                        if a != i {
                            assert(r[a] == q[a0]);
                            assert(o.linked(pi, a0));
                        }
                        if b != i {
                            assert(r[b] == q[b0]);
                            assert(o.linked(pi, b0));
                        }
                        if a == i && i < q.len() {
                            assert(o.nodes[q[i]].tz >= tzc);
                            if b0 > i {
                                assert(o.nodes[q[i]].tz <= o.nodes[q[b0]].tz);
                            }
                        }
                    }
                }
            }
            assert forall|j: int| 0 <= j < self.spare@.len() implies #[trigger] self.spared(j) by {
                assert(o.spared(j));
            }
            assert(self.kids@ == o.kids@.update(pi, o.kids@[pi].insert(i, ci)));
        }
    }

    /// Take `c` off its parent's list.
    #[verifier::rlimit(60)]
    pub fn del_child(&mut self, c: Slot)
        requires
            old(self).wf(),
            c < old(self).n,
            old(self).up(c as int) >= -1,
        ensures
            final(self).wf(),
            final(self).n == old(self).n,
            final(self).cap() == old(self).cap(),
            final(self).tags == old(self).tags,
            final(self).spare == old(self).spare,
            final(self).up(c as int) == -1,
            forall|x: int|
                0 <= x < old(self).n && x != c ==> #[trigger] final(self).up(x) == old(self).up(x),
            forall|x: int|
                0 <= x < old(self).cap() ==> same_data(#[trigger] final(self).nodes[x], old(self).nodes[x]),
            old(self).up(c as int) == -1 ==> final(self).kids@ == old(self).kids@,
            old(self).up(c as int) >= 0 ==> {
                let (p, i) = old(self).home@[c as int];
                0 <= i < old(self).kids@[p].len() && old(self).kids@[p][i] == c && final(self).kids@
                    == old(self).kids@.update(p, old(self).kids@[p].remove(i))
            },
    {
        let ghost o = *self;
        let ci = c as usize;
        proof {
            assert(self.hung(c as int));
        }
        let p = self.nodes[ci].par;
        if p == NONE {
            return ;
        }
        let ghost pi = p as int;
        let ghost cc = c as int;
        let ghost i = self.home@[cc].1;
        let ghost q = self.kids@[pi];
        proof {
            assert(self.linked(pi, i));
            if i > 0 {
                assert(self.linked(pi, i - 1));
            }
            if i + 1 < q.len() {
                assert(self.linked(pi, i + 1));
            }
            assert(self.headed(pi));
        }
        let nx = self.nodes[ci].sib;
        let pv = self.nodes[ci].psib;
        if pv == NONE {
            let mut w = self.nodes[p as usize];
            w.kid = nx;
            self.nodes[p as usize] = w;
        } else {
            let mut w = self.nodes[pv as usize];
            w.sib = nx;
            self.nodes[pv as usize] = w;
        }
        if nx != NONE {
            let mut w = self.nodes[nx as usize];
            w.psib = pv;
            self.nodes[nx as usize] = w;
        }
        let mut v = self.nodes[ci];
        v.sib = NONE;
        v.psib = NONE;
        v.par = NONE;
        self.nodes[ci] = v;
        let ghost q2 = q.remove(i);
        self.kids = Ghost(self.kids@.update(pi, q2));
        self.home = Ghost(
            Seq::new(
                self.home@.len(),
                |x: int|
                    if x == cc {
                        (-1int, 0int)
                    } else if self.home@[x].0 == pi && self.home@[x].1 > i {
                        (pi, self.home@[x].1 - 1)
                    } else {
                        self.home@[x]
                    },
            ),
        );
        proof {
            assert(pi != cc) by {
                assert(o.nodes[pi].tz < o.nodes[cc].tz);
            }
            assert forall|x: int| 0 <= x < self.n implies #[trigger] self.hung(x) by {
                assert(o.hung(x));
                if x != cc {
                    let (t, j) = o.home@[x];
                    if t == pi && j > i {
                        assert(q2[j - 1] == q[j]);
                    } else if t == pi {
                        assert(j != i);
                        assert(q2[j] == q[j]);
                    }
                }
            }
            assert forall|t: int, j: int|
                0 <= t < self.n && 0 <= j < self.kids@[t].len() implies #[trigger] self.linked(
                t,
                j,
            ) by {
                if t != pi {
                    assert(o.linked(t, j));
                    assert(o.hung(o.kids@[t][j]));
                } else if j < i {
                    assert(q2[j] == q[j]);
                    assert(o.linked(t, j));
                } else {
                    assert(q2[j] == q[j + 1]);
                    assert(o.linked(t, j + 1));
                }
            }
            assert forall|t: int| 0 <= t < self.n implies #[trigger] self.headed(t) by {
                assert(o.headed(t));
            }
            assert forall|t: int| 0 <= t < self.n implies #[trigger] self.sorted(t) by {
                assert(o.sorted(t));
                let r = self.kids@[t];
                assert forall|a: int, b: int|
                    #![trigger r[a], r[b]]
                    0 <= a < b < r.len() implies self.nodes[r[a]].tz <= self.nodes[r[b]].tz by {
                    if t != pi {
                        assert(o.linked(t, a) && o.linked(t, b));
                        assert(o.kids@[t][a] == r[a] && o.kids@[t][b] == r[b]);
                    } else {
                        let a0 = if a < i {
                            a
                        } else {
                            a + 1
                        };
                        let b0 = if b < i {
                            b
                        } else {
                            b + 1
                        };
                        assert(r[a] == q[a0] && r[b] == q[b0]);
                        assert(o.linked(pi, a0) && o.linked(pi, b0));
                    }
                }
            }
            assert forall|j: int| 0 <= j < self.spare@.len() implies #[trigger] self.spared(j) by {
                assert(o.spared(j));
            }
        }
    }

    /// The children of `s`, in list order.
    pub fn children(&self, s: Slot) -> (out: Vec<Slot>)
        requires
            self.wf(),
            s < self.n,
        ensures
            out@.len() == self.kids@[s as int].len(),
            forall|i: int|
                0 <= i < out@.len() ==> #[trigger] out@[i] == self.kids@[s as int][i] && out@[i]
                    < self.n,
    {
        let mut out: Vec<Slot> = Vec::new();
        let ghost q = self.kids@[s as int];
        let mut c = self.nodes[s as usize].kid;
        proof {
            assert(self.headed(s as int));
        }
        while c != NONE
            invariant
                self.wf(),
                s < self.n,
                q == self.kids@[s as int],
                out@.len() <= q.len(),
                c == or_none(q, out@.len() as int),
                forall|i: int| 0 <= i < out@.len() ==> #[trigger] out@[i] == q[i] && out@[i] < self.n,
            decreases q.len() - out@.len(),
        {
            proof {
                assert(self.linked(s as int, out@.len() as int));
            }
            out.push(c);
            c = self.nodes[c as usize].sib;
        }
        proof {
            if out@.len() < q.len() {
                assert(self.linked(s as int, out@.len() as int));
            }
        }
        out
    }

    /// `q` runs from `s` up through the tree as far as it goes.
    pub open spec fn is_chain(&self, q: Seq<u32>, s: int) -> bool {
        &&& q.len() > 0
        &&& q[0] == s
        &&& q.no_duplicates()
        &&& forall|i: int| 0 <= i < q.len() ==> self.live(#[trigger] q[i] as int)
        &&& forall|i: int|
            0 <= i < q.len() - 1 ==> self.up(#[trigger] q[i] as int) == q[i + 1]
        &&& !self.live(self.up(q.last() as int))
    }

    /// `s` and its ancestors, nearest first.
    pub fn chain(&self, s: Slot) -> (out: Vec<Slot>)
        requires
            self.wf(),
            self.live(s as int),
        ensures
            self.is_chain(out@, s as int),
    {
        let mut out: Vec<Slot> = Vec::new();
        let mut t = s;
        while t != NONE && self.nodes[t as usize].tz >= 0
            invariant
                self.wf(),
                self.live(s as int),
                t != NONE ==> t < self.n,
                out@.len() == 0 ==> t == s,
                out@.len() > 0 ==> out@[0] == s && (if t != NONE {
                    self.up(out@.last() as int) == t
                } else {
                    self.up(out@.last() as int) < 0
                }),
                forall|i: int| 0 <= i < out@.len() ==> self.live(#[trigger] out@[i] as int),
                forall|i: int|
                    0 <= i < out@.len() - 1 ==> self.up(#[trigger] out@[i] as int) == out@[i + 1],
                forall|i: int, j: int|
                    0 <= i < j < out@.len() ==> self.nodes[#[trigger] out@[i] as int].tz
                        > self.nodes[#[trigger] out@[j] as int].tz,
                t != NONE ==> forall|i: int|
                    0 <= i < out@.len() ==> self.nodes[#[trigger] out@[i] as int].tz
                        > self.nodes[t as int].tz,
            decreases
                    (if t != NONE {
                        self.nodes[t as int].tz + 3
                    } else {
                        0
                    }),
        {
            let ghost was = out@;
            proof {
                assert(self.hung(t as int));
                let f = self.spare@;
                if self.up(t as int) < -1 {
                    assert(self.spared(self.home@[t as int].1));
                }
            }
            out.push(t);
            proof {
                assert forall|i: int| 0 <= i < out@.len() - 1 implies self.up(
                    #[trigger] out@[i] as int,
                ) == out@[i + 1] by {
                    if i < was.len() - 1 {
                        assert(out@[i] == was[i]);
                        assert(self.up(was[i] as int) == was[i + 1]);
                    } else {
                        assert(out@[i] == was.last());
                    }
                }
            }
            t = self.nodes[t as usize].par;
        }
        out
    }

    /// Add `(dc, dx, dy)` to the mass of every node on `chain`.
    pub fn add_mass(&mut self, chain: &Vec<Slot>, dc: i32, dx: i64, dy: i64)
        requires
            old(self).wf(),
            chain@.no_duplicates(),
            forall|i: int|
                0 <= i < chain@.len() ==> mass_after(
                    old(self),
                    #[trigger] chain@[i] as int,
                    dc as int,
                    dx as int,
                    dy as int,
                ),
        ensures
            final(self).wf(),
            final(self).same_shape(*old(self)),
            final(self).tags == old(self).tags,
            forall|x: int|
                #![trigger final(self).nodes[x]]
                0 <= x < old(self).nodes.len() ==> {
                    let (a, b) = (final(self).nodes[x], old(self).nodes[x]);
                    let on = crate::cells::holds(chain@, x);
                    &&& same_links(a, b)
                    &&& a.qx == b.qx
                    &&& a.qy == b.qy
                    &&& a.tz == b.tz
                    &&& a.ext == b.ext
                    &&& a.cnt == b.cnt + (if on {
                        dc as int
                    } else {
                        0
                    })
                    &&& a.sx == b.sx + (if on {
                        dx as int
                    } else {
                        0
                    })
                    &&& a.sy == b.sy + (if on {
                        dy as int
                    } else {
                        0
                    })
                },
    {
        let ghost o = *self;
        let mut i: usize = 0;
        while i < chain.len()
            invariant
                i <= chain@.len(),
                o.wf(),
                self.same_shape(o),
                self.tags == o.tags,
                chain@.no_duplicates(),
                forall|j: int|
                    0 <= j < chain@.len() ==> mass_after(
                        &o,
                        #[trigger] chain@[j] as int,
                        dc as int,
                        dx as int,
                        dy as int,
                    ),
                forall|x: int|
                    #![trigger self.nodes[x]]
                    0 <= x < o.nodes.len() ==> {
                        let (a, b) = (self.nodes[x], o.nodes[x]);
                        let on = crate::cells::holds(chain@.take(i as int), x);
                        &&& same_links(a, b)
                        &&& a.qx == b.qx
                        &&& a.qy == b.qy
                        &&& a.tz == b.tz
                        &&& a.ext == b.ext
                        &&& a.cnt == b.cnt + (if on {
                            dc as int
                        } else {
                            0
                        })
                        &&& a.sx == b.sx + (if on {
                            dx as int
                        } else {
                            0
                        })
                        &&& a.sy == b.sy + (if on {
                            dy as int
                        } else {
                            0
                        })
                    },
            decreases chain@.len() - i,
        {
            let ghost m = *self;
            let t = chain[i];
            proof {
                assert(mass_after(&o, chain@[i as int] as int, dc as int, dx as int, dy as int));
                assert(!crate::cells::holds(chain@.take(i as int), t as int)) by {
                    if crate::cells::holds(chain@.take(i as int), t as int) {
                        let k = choose|k: int|
                            0 <= k < i && #[trigger] chain@.take(i as int)[k] == t;
                        assert(chain@[k] == chain@[i as int]);
                    }
                }
                let b = self.nodes[t as int];
            }
            let mut v = self.nodes[t as usize];
            v.cnt = v.cnt + dc;
            v.sx = v.sx + dx;
            v.sy = v.sy + dy;
            self.nodes[t as usize] = v;
            proof {
                assert forall|x: int|
                    #![trigger self.nodes[x]]
                    0 <= x < o.nodes.len() implies {
                    let (a, b) = (self.nodes[x], o.nodes[x]);
                    let on = crate::cells::holds(chain@.take(i + 1), x);
                    &&& same_links(a, b)
                    &&& a.qx == b.qx
                    &&& a.qy == b.qy
                    &&& a.tz == b.tz
                    &&& a.ext == b.ext
                    &&& a.cnt == b.cnt + (if on {
                        dc as int
                    } else {
                        0
                    })
                    &&& a.sx == b.sx + (if on {
                        dx as int
                    } else {
                        0
                    })
                    &&& a.sy == b.sy + (if on {
                        dy as int
                    } else {
                        0
                    })
                } by {
                    crate::cells::lemma_take_contains(chain@, i as int, x);
                    let a0 = m.nodes[x];
                }
            }
            i = i + 1;
        }
        proof {
            assert(chain@.take(chain@.len() as int) =~= chain@);
            assert forall|x: int| 0 <= x < o.nodes.len() implies same_links(
                #[trigger] self.nodes[x],
                o.nodes[x],
            ) && self.nodes[x].tz == o.nodes[x].tz by {}
            self.lemma_rewrite(o);
        }
    }
}

/// Slot `t` exists and its mass plus the given one fits.
pub open spec fn mass_after(a: &Arena, t: int, dc: int, dx: int, dy: int) -> bool {
    &&& 0 <= t < a.nodes.len()
    &&& i32::MIN <= a.nodes[t].cnt + dc <= i32::MAX
    &&& i64::MIN <= a.nodes[t].sx + dx <= i64::MAX
    &&& i64::MIN <= a.nodes[t].sy + dy <= i64::MAX
}

} // verus!
