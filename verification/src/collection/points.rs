//! Points of the index, as the records see them.
use crate::geometry::{in_world, Options};
use crate::index::update::{category_cells, insert_counted, inserted, move_counted,
    remove_counted};
use crate::index::{cells_ok, NetCluster, State};
use crate::net::{law_move_keeps_invariants, Point};
use crate::register::{law_insert_registers, law_move_registers, law_refile_registers,
    law_remove_registers, lemma_register};
use vstd::prelude::*;

verus! {

/// A device of the index is put at a position: it moves, and is filed anew if cells are given. One
/// that the index does not hold is inserted where it belongs, under category 0 if none are given.
pub open spec fn puts(a: State, b: State, n: u64, x: int, y: int, cells: Option<Seq<u32>>) -> bool {
    if a.net.knows(n) {
        exists|s: int| #[trigger]
            a.net.named(s, n) && b.net == (match cells {
                Some(q) => a.net.moved(s, x, y).refiled(s, q),
                None => a.net.moved(s, x, y),
            }) && move_counted(b.counters, a.counters, a.net, s, x, y)
    } else {
        &&& exists|s: int| #[trigger]
            inserted(a.net, b.net, s, n, x, y, or_plain(a.net.opts, cells))
        &&& insert_counted(b.counters, a.counters)
    }
}

/// What the index goes through in `k` steps.
pub open spec fn path(ns: Seq<State>, step: spec_fn(int, State, State) -> bool, k: int) -> bool {
    &&& ns.len() == k + 1
    &&& forall|i: int| 0 <= i < k ==> step(i, #[trigger] ns[i], ns[i + 1])
}

/// One index becomes another in `k` steps.
pub open spec fn becomes(a: State, b: State, step: spec_fn(int, State, State) -> bool, k: int) -> bool {
    exists|ns: Seq<State>| #[trigger] path(ns, step, k) && ns[0] == a && ns[k] == b
}

/// No step, and one step more.
pub proof fn lemma_becomes(a: State, m: State, b: State, step: spec_fn(int, State, State) -> bool, k: int)
    requires
        k >= 0,
    ensures
        becomes(a, a, step, 0),
        becomes(a, m, step, k) && step(k, m, b) ==> becomes(a, b, step, k + 1),
{
    assert(path(seq![a], step, 0));
    if becomes(a, m, step, k) && step(k, m, b) {
        let ns = choose|ns: Seq<State>| #[trigger] path(ns, step, k) && ns[0] == a && ns[k] == m;
        let more = ns.push(b);
        assert forall|i: int| 0 <= i < k + 1 implies step(i, #[trigger] more[i], more[i + 1]) by {
            if i < k {
                assert(ns[i] == more[i]);
            }
        }
        assert(path(more, step, k + 1));
    }
}

/// The given cells, else those of category 0.
pub open spec fn or_plain(o: Options, cells: Option<Seq<u32>>) -> Seq<u32> {
    match cells {
        Some(q) => q,
        None => category_cells(o, 0),
    }
}

/// A device is taken out of the index.
pub open spec fn takes_out(a: State, b: State, n: u64) -> bool {
    exists|s: int| #[trigger] a.net.named(s, n) && b.net == a.net.unlinked(s) && remove_counted(
            b.counters,
            a.counters,
            a.net,
            s,
        )
}

/// The cells of a device that is put at a position: the given ones, else what it has in the
/// index, else those of category 0.
pub open spec fn shifted(index: NetCluster, n: u64, cells: Option<Seq<u32>>) -> Seq<u32> {
    match cells {
        Some(q) => q,
        None => if index.net().register().contains_key(n) {
            index.net().register()[n].2
        } else {
            category_cells(index.opts(), 0)
        },
    }
}

/// Put a device at a position, under some cells.
pub(super) fn put_point(index: &mut NetCluster, n: u64, x: i32, y: i32, cells: &[u32])
    requires
        old(index).wf(),
        in_world(x as int),
        in_world(y as int),
        cells_ok(old(index).opts(), cells@),
        old(index).room_for(1),
    ensures
        final(index).wf(),
        final(index).opts() == old(index).opts(),
        old(index).slots() <= final(index).slots() <= old(index).slots() + 1,
        final(index).net().register() == old(index).net().register().insert(
            n,
            (x as int, y as int, cells@),
        ),
        puts(old(index).state(), final(index).state(), n, x as int, y as int, Some(cells@)),
{
    let ghost before = index.state();
    let ghost a = before.net;
    proof {
        index.law_invariants();
    }
    let s = index.insert_projected_cells(n, x, y, cells);
    proof {
        index.law_invariants();
        let s = s as int;
        if a.knows(n) {
            let m = a.moved(s, x as int, y as int);
            law_move_keeps_invariants(a, s, x as int, y as int);
            law_move_registers(a, s, x as int, y as int);
            law_refile_registers(m, s, cells@);
            assert(before.net.named(s, n));
            assert(index.net().register() =~= a.register().insert(n, (x as int, y as int, cells@)));
        } else {
            let p = Point {
                id: n,
                x: x as int,
                y: y as int,
                cells: cells@,
                level: 0,
                parent: None,
            };
            law_insert_registers(a, s, p);
            let q = or_plain(a.opts, Some(cells@));
            assert(inserted(before.net, index.state().net, s, n, x as int, y as int, q));
        }
    }
}

/// Move a device, keeping its cells unless others are given.
pub(super) fn shift_point(
    index: &mut NetCluster,
    n: u64,
    x: i32,
    y: i32,
    cells: Option<&[u32]>,
)
    requires
        old(index).wf(),
        in_world(x as int),
        in_world(y as int),
        cells matches Some(q) ==> cells_ok(old(index).opts(), q@),
        old(index).room_for(1),
    ensures
        final(index).wf(),
        final(index).opts() == old(index).opts(),
        old(index).slots() <= final(index).slots() <= old(index).slots() + 1,
        final(index).net().register() == old(index).net().register().insert(
            n,
            (
                x as int,
                y as int,
                shifted(
                    *old(index),
                    n,
                    match cells {
                        Some(q) => Some(q@),
                        None => None,
                    },
                ),
            ),
        ),
        puts(
            old(index).state(),
            final(index).state(),
            n,
            x as int,
            y as int,
            match cells {
                Some(q) => Some(q@),
                None => None,
            },
        ),
{
    let ghost o = *index;
    let ghost before = index.state();
    let ghost a = before.net;
    proof {
        index.law_invariants();
    }
    let s = index.move_to_projected_cells(n, x, y, cells);
    proof {
        index.law_invariants();
        let s = s as int;
        if a.knows(n) {
            let m = a.moved(s, x as int, y as int);
            law_move_keeps_invariants(a, s, x as int, y as int);
            law_move_registers(a, s, x as int, y as int);
            lemma_register(a, s, n);
            assert(before.net.named(s, n));
            match cells {
                Some(q) => {
                    law_refile_registers(m, s, q@);
                    assert(index.net().register() =~= a.register().insert(
                        n,
                        (x as int, y as int, q@),
                    ));
                },
                None => {},
            }
        } else {
            let q = match cells {
                Some(q) => q@,
                None => category_cells(o.opts(), 0),
            };
            let p = Point { id: n, x: x as int, y: y as int, cells: q, level: 0, parent: None };
            law_insert_registers(a, s, p);
            let given = match cells {
                Some(q) => Some(q@),
                None => None,
            };
            assert(or_plain(a.opts, given) == q);
            let q = or_plain(a.opts, given);
            assert(inserted(before.net, index.state().net, s, n, x as int, y as int, q));
        }
    }
}

/// Take a device out of the index.
pub(super) fn drop_point(index: &mut NetCluster, n: u64) -> (gone: bool)
    requires
        old(index).wf(),
    ensures
        final(index).wf(),
        final(index).opts() == old(index).opts(),
        final(index).slots() == old(index).slots(),
        gone == old(index).net().register().contains_key(n),
        final(index).net().register() == old(index).net().register().remove(n),
        gone ==> takes_out(old(index).state(), final(index).state(), n),
        !gone ==> final(index).state() == old(index).state(),
{
    let ghost before = index.state();
    let ghost a = before.net;
    proof {
        index.law_invariants();
    }
    let gone = index.remove(n);
    proof {
        if gone {
            let s = choose|s: int| #[trigger]
                a.named(s, n) && index.net() == a.unlinked(s) && remove_counted(
                    index.counters(),
                    before.counters,
                    a,
                    s,
                );
            assert(before.net.named(s, n));
            law_remove_registers(a, s);
        } else {
            assert(a.register().remove(n) =~= a.register());
        }
    }
    gone
}

/// What the index knows of a device.
pub(super) fn known_point(index: &NetCluster, n: u64) -> (r: Option<(i32, i32, Vec<u32>)>)
    requires
        index.wf(),
    ensures
        match r {
            Some((x, y, cells)) => index.net().register().contains_key(n)
                && index.net().register()[n] == (x as int, y as int, cells@),
            None => !index.net().register().contains_key(n),
        },
{
    proof {
        index.law_invariants();
    }
    match index.position(n) {
        None => None,
        Some((x, y)) => {
            let ghost net = index.net();
            let ghost p = choose|p: int| #[trigger]
                net.named(p, n) && x == net.pts[p].x && y == net.pts[p].y;
            proof {
                lemma_register(net, p, n);
                assert(net.knows(n));
            }
            match index.cells_of(n) {
                None => None,
                Some(cells) => {
                    proof {
                        let q = choose|q: int| #[trigger]
                            net.named(q, n) && cells@ == net.pts[q].cells;
                        lemma_register(net, q, n);
                    }
                    Some((x, y, cells))
                },
            }
        },
    }
}

} // verus!
