//! What an index knows of its points, by id: position and filter cells.
use crate::net::{law_remove_keeps_invariants, Net, Point};
use vstd::prelude::*;

verus! {

/// Position and filter cells.
pub type Spot = (int, int, Seq<u32>);

pub open spec fn spot(p: Point) -> Spot {
    (p.x, p.y, p.cells)
}

impl Net {
    /// Who was inserted under `id`.
    pub open spec fn holder(&self, id: u64) -> int {
        choose|s: int| self.named(s, id)
    }

    /// What is known of each id.
    pub open spec fn register(&self) -> Map<u64, Spot> {
        Map::new(|id: u64| self.knows(id), |id: u64| spot(self.pts[self.holder(id)]))
    }
}

/// Ids are distinct, so what is known of an id is known of its point.
pub proof fn lemma_register(net: Net, s: int, id: u64)
    requires
        net.ok(),
        net.named(s, id),
    ensures
        net.register().contains_key(id),
        net.register()[id] == spot(net.pts[s]),
        net.holder(id) == s,
{
    let t = net.holder(id);
    assert(net.named(t, id));
    assert(net.pts[s].id == net.pts[t].id);
}

/// Nets with the same points but for one.
proof fn lemma_differs(a: Net, b: Net, s: int, id: u64)
    requires
        a.ok(),
        b.ok(),
        b.has(s),
        b.pts[s].id == id,
        forall|t: int| t != s && #[trigger] b.has(t) ==> a.has(t),
        forall|t: int|
            #[trigger] a.has(t) && t != s ==> b.has(t) && b.pts[t].id == a.pts[t].id && spot(
                b.pts[t],
            ) == spot(a.pts[t]),
        a.has(s) ==> a.pts[s].id == id,
    ensures
        b.register() == a.register().insert(id, spot(b.pts[s])),
{
    let m = a.register().insert(id, spot(b.pts[s]));
    assert(b.named(s, id));
    assert forall|i: u64| #[trigger] b.register().contains_key(i) <==> m.contains_key(i) by {
        if b.knows(i) && i != id {
            let t = b.holder(i);
            assert(b.named(t, i));
            assert(t != s);
            assert(a.named(t, i));
        }
        if a.knows(i) && i != id {
            let t = a.holder(i);
            assert(a.named(t, i));
            assert(t != s);
            assert(b.named(t, i));
        }
    }
    assert forall|i: u64| #[trigger] b.register().contains_key(i) implies b.register()[i]
        == m[i] by {
        if i == id {
            lemma_register(b, s, id);
        } else {
            let t = b.holder(i);
            assert(b.named(t, i));
            assert(t != s);
            assert(a.named(t, i));
            lemma_register(b, t, i);
            lemma_register(a, t, i);
        }
    }
    assert(b.register() =~= m);
}

/// **What is inserted is known**, and nothing else changes.
pub proof fn law_insert_registers(net: Net, s: int, p: Point)
    requires
        net.ok(),
        net.place(s, p).ok(),
        !net.has(s),
    ensures
        net.place(s, p).register() == net.register().insert(p.id, spot(p)),
{
    let m = net.place(s, p);
    assert(m.has(s));
    assert forall|t: int| t != s && #[trigger] m.has(t) implies net.has(t) by {}
    lemma_differs(net, m, s, p.id);
}

/// **What moves is known at its new position**, and nothing else changes.
pub proof fn law_move_registers(net: Net, s: int, x: int, y: int)
    requires
        net.ok(),
        net.moved(s, x, y).ok(),
        net.pts.dom().finite(),
        net.has(s),
    ensures
        net.moved(s, x, y).register() == net.register().insert(
            net.pts[s].id,
            (x, y, net.pts[s].cells),
        ),
        net.moved(s, x, y).has(s),
        net.moved(s, x, y).pts[s].id == net.pts[s].id,
        net.moved(s, x, y).pts[s].cells == net.pts[s].cells,
        net.moved(s, x, y).pts[s].x == x,
        net.moved(s, x, y).pts[s].y == y,
{
    let m = net.moved(s, x, y);
    let id = net.pts[s].id;
    assert(net.named(s, id));
    if net.pts[s].x == x && net.pts[s].y == y {
        lemma_register(net, s, id);
        assert(net.register() =~= net.register().insert(id, (x, y, net.pts[s].cells)));
    } else if net.may_slide(s, x, y) {
        assert forall|t: int| t != s && #[trigger] m.has(t) implies net.has(t) by {}
        lemma_differs(net, m, s, id);
    } else {
        law_remove_keeps_invariants(net, s);
        let u = net.unlinked(s);
        let d = net.drop_point(s);
        assert(u.pts.dom() == d.pts.dom());
        assert forall|t: int| t != s && #[trigger] m.has(t) implies net.has(t) by {
            assert(u.pts.dom().contains(t));
        }
        assert forall|t: int| #[trigger] net.has(t) && t != s implies m.has(t) && m.pts[t].id
            == net.pts[t].id && spot(m.pts[t]) == spot(net.pts[t]) by {
            assert(d.has(t));
            assert(u.pts.dom().contains(t));
            assert(m.pts[t] == u.pts[t]);
        }
        lemma_differs(net, m, s, id);
    }
}

/// **What is re-filed is known under its new cells**, and nothing else changes.
pub proof fn law_refile_registers(net: Net, s: int, cells: Seq<u32>)
    requires
        net.ok(),
        net.refiled(s, cells).ok(),
        net.has(s),
    ensures
        net.refiled(s, cells).register() == net.register().insert(
            net.pts[s].id,
            (net.pts[s].x, net.pts[s].y, cells),
        ),
{
    let m = net.refiled(s, cells);
    assert forall|t: int| t != s && #[trigger] m.has(t) implies net.has(t) by {}
    lemma_differs(net, m, s, net.pts[s].id);
}

/// **What is removed is forgotten**, and nothing else changes.
pub proof fn law_remove_registers(net: Net, s: int)
    requires
        net.ok(),
        net.pts.dom().finite(),
        net.has(s),
    ensures
        net.unlinked(s).register() == net.register().remove(net.pts[s].id),
{
    law_remove_keeps_invariants(net, s);
    let u = net.unlinked(s);
    let d = net.drop_point(s);
    let id = net.pts[s].id;
    assert(net.named(s, id));
    assert(u.pts.dom() == d.pts.dom());
    let m = net.register().remove(id);
    assert forall|i: u64| #[trigger] u.register().contains_key(i) <==> m.contains_key(i) by {
        if u.knows(i) {
            let t = u.holder(i);
            assert(u.named(t, i));
            assert(d.pts.dom().contains(t));
            assert(d.has(t));
            assert(net.named(t, i));
            assert(net.pts[t].id == i);
            if i == id {
                assert(net.pts[s].id == net.pts[t].id);
            }
        }
        if net.knows(i) && i != id {
            let t = net.holder(i);
            assert(net.named(t, i));
            assert(d.has(t));
            assert(u.pts.dom().contains(t));
            assert(u.named(t, i));
        }
    }
    assert forall|i: u64| #[trigger] u.register().contains_key(i) implies u.register()[i] == m[i] by {
        let t = u.holder(i);
        assert(u.named(t, i));
        assert(d.pts.dom().contains(t));
        assert(d.has(t));
        assert(net.named(t, i));
        lemma_register(u, t, i);
        lemma_register(net, t, i);
    }
    assert(u.register() =~= m);
}

} // verus!
