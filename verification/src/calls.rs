//! Runs of calls: what an index holds after them, handles included.
use crate::clusters::{lemma_single, Window};
use crate::feature::Feature;
use crate::geometry::{cut_off, in_world, Options, PREC_I};
use crate::index::update::category_cells;
use crate::net::{law_insert_keeps_invariants, law_move_keeps_invariants, law_refile_keeps_invariants,
    law_remove_keeps_invariants, Net, Point};
use crate::order::{descent, lemma_drawn_alike, no_lists, roots_of, sight, Lists};
use crate::ratio::{alike, law_ratio, lemma_cells_alike, law_ratio_of_the_lists, law_ratio_on_the_map, with_options};
use vstd::prelude::*;

verus! {

/// The handles of an index: how many were made, and which of those are free again, the one that
/// left last at the end.
#[verifier::ext_equal]
pub struct Handles {
    pub made: int,
    pub free: Seq<int>,
}

/// No handle was made yet.
pub open spec fn no_handles() -> Handles {
    Handles { made: 0, free: Seq::empty() }
}

impl Handles {
    /// The handle of the next new point: what left last, else a new one.
    pub open spec fn next(&self) -> int {
        if self.free.len() > 0 {
            self.free.last()
        } else {
            self.made
        }
    }

    /// The handles after a new point has taken one.
    pub open spec fn taken(&self) -> Handles {
        if self.free.len() > 0 {
            Handles { free: self.free.drop_last(), ..*self }
        } else {
            Handles { made: self.made + 1, ..*self }
        }
    }

    /// The handles after `s` has been given back.
    pub open spec fn given(&self, s: int) -> Handles {
        Handles { free: self.free.push(s), ..*self }
    }
}

/// What an index holds: its points, its handles, and the order of its lists.
#[verifier::ext_equal]
pub struct Holdings {
    pub net: Net,
    pub handles: Handles,
    pub lists: Lists,
}

/// What an index holds when it is new.
pub open spec fn nothing_held(o: Options) -> Holdings {
    Holdings {
        net: Net { opts: o, pts: Map::empty() },
        handles: no_handles(),
        lists: no_lists(),
    }
}

/// A call that changes an index.
pub enum Call {
    /// Put a point at a position. A new one belongs to a category.
    Put { id: u64, x: int, y: int, cat: u32 },
    /// Put a point at a position, under some filter cells.
    File { id: u64, x: int, y: int, cells: Seq<u32> },
    /// Take a point out.
    Remove { id: u64 },
}

impl Call {
    /// Who it is about.
    pub open spec fn id(&self) -> u64 {
        match *self {
            Call::Put { id, x, y, cat } => id,
            Call::File { id, x, y, cells } => id,
            Call::Remove { id } => id,
        }
    }

    /// The position lies in the world.
    pub open spec fn placed(&self) -> bool {
        match *self {
            Call::Put { id, x, y, cat } => in_world(x) && in_world(y),
            Call::File { id, x, y, cells } => in_world(x) && in_world(y),
            Call::Remove { id } => true,
        }
    }
}

impl Holdings {
    /// What is held once a new point has come.
    pub open spec fn with(&self, id: u64, x: int, y: int, cells: Seq<u32>) -> Holdings {
        let s = self.handles.next();
        let net = self.net.place(s, (Point { id, x, y, cells, level: 0, parent: None }));
        Holdings { net, handles: self.handles.taken(), lists: self.lists.seated(net, s) }
    }

    /// What is held after a call.
    pub open spec fn after(&self, call: Call) -> Holdings {
        match call {
            Call::Put { id, x, y, cat } => if self.net.knows(id) {
                let s = self.net.holder(id);
                Holdings {
                    net: self.net.moved(s, x, y),
                    lists: self.lists.moved(self.net, s, x, y),
                    ..*self
                }
            } else {
                self.with(id, x, y, category_cells(self.net.opts, cat))
            },
            Call::File { id, x, y, cells } => if self.net.knows(id) {
                let s = self.net.holder(id);
                Holdings {
                    net: self.net.moved(s, x, y).refiled(s, cells),
                    lists: self.lists.moved(self.net, s, x, y),
                    ..*self
                }
            } else {
                self.with(id, x, y, cells)
            },
            Call::Remove { id } => if self.net.knows(id) {
                let s = self.net.holder(id);
                Holdings {
                    net: self.net.unlinked(s),
                    handles: self.handles.given(s),
                    lists: self.lists.unlinked(self.net, s),
                }
            } else {
                *self
            },
        }
    }

    /// What is held after the first `k` of some calls.
    pub open spec fn after_all(&self, calls: Seq<Call>, k: int) -> Holdings
        decreases k,
    {
        if k <= 0 {
            *self
        } else {
            self.after_all(calls, k - 1).after(calls[k - 1])
        }
    }

    /// The same under other options.
    pub open spec fn under(&self, o: Options) -> Holdings {
        Holdings { net: with_options(self.net, o), ..*self }
    }

    /// The points are in order, and a handle is in use or free, never both.
    pub open spec fn ok(&self) -> bool {
        let h = self.handles;
        &&& self.net.ok()
        &&& self.net.pts.dom().finite()
        &&& self.net.within_slots(h.made)
        &&& h.made >= 0
        &&& h.free.no_duplicates()
        &&& forall|i: int|
            0 <= i < h.free.len() ==> 0 <= #[trigger] h.free[i] < h.made && !self.net.has(h.free[i])
    }
}

/// A move changes who is there as little as a slide does.
proof fn lemma_moved_dom(net: Net, s: int, x: int, y: int)
    requires
        net.ok(),
        net.pts.dom().finite(),
        net.has(s),
    ensures
        net.moved(s, x, y).pts.dom() == net.pts.dom(),
        net.moved(s, x, y).opts == net.opts,
{
    law_remove_keeps_invariants(net, s);
    assert(net.moved(s, x, y).pts.dom() =~= net.pts.dom());
}

/// **Every call keeps the holdings in order.**
pub proof fn law_calls_keep_order(a: Holdings, call: Call)
    requires
        a.ok(),
        call.placed(),
    ensures
        a.after(call).ok(),
        a.after(call).net.opts == a.net.opts,
{
    let net = a.net;
    let b = a.after(call);
    let (h, g) = (a.handles, b.handles);
    match call {
        Call::Put { id, x, y, cat } => {
            if net.knows(id) {
                let t = net.holder(id);
                assert(net.named(t, id));
                law_move_keeps_invariants(net, t, x, y);
                lemma_moved_dom(net, t, x, y);
            } else {
                lemma_with(a, id, x, y, category_cells(net.opts, cat));
            }
        },
        Call::File { id, x, y, cells } => {
            if net.knows(id) {
                let t = net.holder(id);
                assert(net.named(t, id));
                law_move_keeps_invariants(net, t, x, y);
                lemma_moved_dom(net, t, x, y);
                law_refile_keeps_invariants(net.moved(t, x, y), t, cells);
                assert(b.net.pts.dom() =~= net.pts.dom());
            } else {
                lemma_with(a, id, x, y, cells);
            }
        },
        Call::Remove { id } => {
            if net.knows(id) {
                let t = net.holder(id);
                assert(net.named(t, id));
                law_remove_keeps_invariants(net, t);
                assert(b.net.pts.dom() == net.drop_point(t).pts.dom());
                assert(!h.free.contains(t)) by {
                    if h.free.contains(t) {
                        assert(!net.has(h.free[h.free.index_of(t)]));
                    }
                }
                assert forall|i: int| 0 <= i < g.free.len() implies 0 <= #[trigger] g.free[i]
                    < g.made && !b.net.has(g.free[i]) by {
                    if i < h.free.len() {
                        assert(g.free[i] == h.free[i]);
                    }
                }
                assert(b.net.within_slots(g.made)) by {
                    assert forall|t: int| #[trigger] b.net.has(t) implies 0 <= t < g.made by {
                        assert(net.has(t));
                    }
                }
            }
        },
    }
    if net.knows(call.id()) && call !is Remove {
        assert(b.net.within_slots(g.made)) by {
            assert forall|t: int| #[trigger] b.net.has(t) implies 0 <= t < g.made by {
                assert(net.has(t));
            }
        }
        assert forall|i: int| 0 <= i < g.free.len() implies 0 <= #[trigger] g.free[i] < g.made
            && !b.net.has(g.free[i]) by {
            assert(!net.has(h.free[i]));
        }
    }
}

/// A new point takes a handle that nobody has, and everything stays in order.
proof fn lemma_with(a: Holdings, id: u64, x: int, y: int, cells: Seq<u32>)
    requires
        a.ok(),
        !a.net.knows(id),
        in_world(x),
        in_world(y),
    ensures
        a.with(id, x, y, cells).ok(),
{
    let (net, h) = (a.net, a.handles);
    let s = h.next();
    let p = Point { id, x, y, cells, level: 0, parent: None };
    let b = a.with(id, x, y, cells);
    let g = b.handles;
    assert(!net.has(s)) by {
        if h.free.len() > 0 {
            assert(!net.has(h.free[h.free.len() - 1]));
        }
    }
    assert forall|t: int| #[trigger] net.has(t) implies net.pts[t].id != id by {
        if net.pts[t].id == id {
            assert(net.named(t, id));
        }
    }
    law_insert_keeps_invariants(net, s, p);
    assert(b.net.pts.dom() =~= net.pts.dom().insert(s));
    assert(b.net.within_slots(g.made)) by {
        assert forall|t: int| #[trigger] b.net.has(t) implies 0 <= t < g.made by {
            if t != s {
                assert(net.has(t));
            } else if h.free.len() > 0 {
                assert(0 <= h.free[h.free.len() - 1]);
            }
        }
    }
    assert forall|i: int| 0 <= i < g.free.len() implies 0 <= #[trigger] g.free[i] < g.made
        && !b.net.has(g.free[i]) by {
        assert(!net.has(h.free[i]));
        assert(h.free[i] != s);
    }
}

/// Points and lists alike.
proof fn lemma_ratio(lists: Lists, net: Net, o: Options, s: int, p: Point)
    requires
        net.ok(),
        net.pts.dom().finite(),
        o.valid(),
        alike(net.opts, o),
    ensures
        with_options(net, o).place(s, p) == with_options(net.place(s, p), o),
        lists.seated(with_options(net, o).place(s, p), s) == lists.seated(net.place(s, p), s),
        net.has(s) ==> {
            let other = with_options(net, o);
            &&& other.moved(s, p.x, p.y) == with_options(net.moved(s, p.x, p.y), o)
            &&& other.unlinked(s) == with_options(net.unlinked(s), o)
            &&& lists.moved(other, s, p.x, p.y) == lists.moved(net, s, p.x, p.y)
            &&& lists.unlinked(other, s) == lists.unlinked(net, s)
        },
{
    law_ratio(net, o, s, p);
    law_ratio_of_the_lists(lists, net, o, s, p);
}

/// **Only the ratio counts, call by call**: after the same call, holdings that were the same but
/// for options that are alike are so again.
pub proof fn law_ratio_of_a_call(a: Holdings, o: Options, call: Call)
    requires
        a.ok(),
        o.valid(),
        alike(a.net.opts, o),
        call.placed(),
    ensures
        a.under(o).after(call) == a.after(call).under(o),
{
    let net = a.net;
    let other = with_options(net, o);
    assert forall|s: int, id: u64| #[trigger] other.named(s, id) == net.named(s, id) by {}
    let id = call.id();
    if net.knows(id) {
        let t = net.holder(id);
        assert(net.named(t, id));
        assert(other.named(t, id));
        let u = other.holder(id);
        assert(other.named(u, id));
        assert(net.pts[t].id == net.pts[u].id);
        match call {
            Call::Put { id, x, y, cat } => {
                lemma_ratio(a.lists, net, o, t, Point { x, y, ..net.pts[t] });
            },
            Call::File { id, x, y, cells } => {
                lemma_ratio(a.lists, net, o, t, Point { x, y, ..net.pts[t] });
            },
            Call::Remove { id } => {
                lemma_ratio(a.lists, net, o, t, net.pts[t]);
            },
        }
    } else {
        assert(!other.knows(id)) by {
            if other.knows(id) {
                let u = other.holder(id);
                assert(other.named(u, id));
                assert(net.named(u, id));
            }
        }
        let s = a.handles.next();
        match call {
            Call::Put { id, x, y, cat } => {
                let cells = category_cells(net.opts, cat);
                lemma_ratio(a.lists, net, o, s, Point { id, x, y, cells, level: 0, parent: None });
            },
            Call::File { id, x, y, cells } => {
                lemma_ratio(a.lists, net, o, s, Point { id, x, y, cells, level: 0, parent: None });
            },
            Call::Remove { id } => {},
        }
    }
}

/// **Only the ratio counts**: two indexes whose options are alike hold the same after the same
/// calls, handles included. How the filter aggregates are laid out is not among what must be
/// alike.
pub proof fn law_same_calls(o: Options, other: Options, calls: Seq<Call>, k: int)
    requires
        o.valid(),
        other.valid(),
        alike(o, other),
        0 <= k <= calls.len(),
        forall|i: int| 0 <= i < calls.len() ==> (#[trigger] calls[i]).placed(),
    ensures
        nothing_held(other).after_all(calls, k) == nothing_held(o).after_all(calls, k).under(other),
        nothing_held(o).after_all(calls, k).ok(),
        nothing_held(o).after_all(calls, k).net.opts == o,
    decreases k,
{
    let (a, b) = (nothing_held(o), nothing_held(other));
    if k == 0 {
        assert(b == a.under(other));
    } else {
        law_same_calls(o, other, calls, k - 1);
        let m = a.after_all(calls, k - 1);
        law_calls_keep_order(m, calls[k - 1]);
        law_ratio_of_a_call(m, other, calls[k - 1]);
    }
}

/// What shows a cluster is one feature.
proof fn lemma_one_face(net: Net, f: Feature, g: Feature, n: int, c: int, s: int, z: int)
    requires
        net.within_slots(n),
        0 <= n,
        net.shows(f, n, c, s, z),
        net.shows(g, n, c, s, z),
    ensures
        f == g,
{
    if net.tally(n, 0, c, s, z) == 1 {
        let m = choose|m: int| #[trigger]
            net.member(m, s, z, c) && f == (Feature::Point {
                id: net.pts[m].id,
                x: net.pts[m].x as i32,
                y: net.pts[m].y as i32,
            });
        let k = choose|m: int| #[trigger]
            net.member(m, s, z, c) && g == (Feature::Point {
                id: net.pts[m].id,
                x: net.pts[m].x as i32,
                y: net.pts[m].y as i32,
            });
        lemma_single(net, n, c, s, z, m);
        assert(k == m);
    }
}

/// Under options that are alike a search comes upon the same centers in the same order.
proof fn lemma_same_sight(lists: Lists, net: Net, o: Options, n: int, c: int, z: int, b: Window)
    requires
        net.opts.valid(),
        o.valid(),
        alike(net.opts, o),
    ensures
        sight(lists, with_options(net, o), n, c, z, b) == sight(lists, net, n, c, z, b),
{
    let twin = with_options(net, o);
    lemma_cells_alike(net.opts, o, cut_off(b.x0), 0);
    lemma_cells_alike(net.opts, o, cut_off(b.x1), 0);
    lemma_cells_alike(net.opts, o, cut_off(b.y0), 0);
    lemma_cells_alike(net.opts, o, cut_off(b.y1), 0);
    lemma_cells_alike(net.opts, o, PREC_I as int, 0);
    assert(roots_of(lists, o, b) == roots_of(lists, net.opts, b));
    let q = descent(lists.kids, net.pts, roots_of(lists, o, b), z, 0);
    assert forall|s: int| #[trigger] net.drawn(n, c, s, z, b) == twin.drawn(n, c, s, z, b) by {
        law_ratio_on_the_map(net, o, n, c, s, z, b);
    }
    lemma_drawn_alike(q, net, twin, n, c, z, b);
}

/// **The same calls, the same answers**: two indexes whose options are alike, after the same
/// calls, show the same features in the same order, in every box, at every zoom and for every
/// category.
pub proof fn law_same_answers(
    o: Options,
    other: Options,
    calls: Seq<Call>,
    c: int,
    z: int,
    b: Window,
    out: Seq<Feature>,
    also: Seq<Feature>,
)
    requires
        o.valid(),
        other.valid(),
        alike(o, other),
        forall|i: int| 0 <= i < calls.len() ==> (#[trigger] calls[i]).placed(),
        ({
            let h = nothing_held(o).after_all(calls, calls.len() as int);
            let n = h.handles.made;
            h.net.picture(out, sight(h.lists, h.net, n, c, z, b), n, c, z, b)
        }),
        ({
            let h = nothing_held(other).after_all(calls, calls.len() as int);
            let n = h.handles.made;
            h.net.picture(also, sight(h.lists, h.net, n, c, z, b), n, c, z, b)
        }),
    ensures
        out == also,
{
    let k = calls.len() as int;
    law_same_calls(o, other, calls, k);
    let h = nothing_held(o).after_all(calls, k);
    let n = h.handles.made;
    let q = sight(h.lists, h.net, n, c, z, b);
    lemma_same_sight(h.lists, h.net, other, n, c, z, b);
    assert forall|i: int| 0 <= i < q.len() implies #[trigger] out[i] == also[i] by {
        law_ratio_on_the_map(h.net, other, n, c, q[i], z, b);
        assert(h.net.shows(out[i], n, c, q[i], z));
        assert(with_options(h.net, other).shows(also[i], n, c, q[i], z));
        lemma_one_face(h.net, out[i], also[i], n, c, q[i], z);
    }
    assert(out =~= also);
}

} // verus!
