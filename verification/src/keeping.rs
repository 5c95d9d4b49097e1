//! What a snapshot holds, byte by byte, and which devices and cells go in and come back.
use crate::collection::persist::{existing, exported, refiled, restorable, Restoring, Stored};
use crate::collection::{maybe, Collection, Device, NEVER};
use crate::snapshot::{bits, body_bytes, escaped, file_stem, fnv_of, le, lemma_le, lemma_prefix, lemma_radix, magic,
    record_bytes, records_bytes, sealed, unle, Entry};
use vstd::prelude::*;
use vstd::utf8::encode_utf8;

verus! {

/// The number that two bytes write, the lowest first.
pub open spec fn two_at(b: Seq<u8>, p: int) -> int {
    b[p] + 256 * b[p + 1]
}

/// The number that four bytes write.
pub open spec fn four_at(b: Seq<u8>, p: int) -> int {
    two_at(b, p) + 0x1_0000 * two_at(b, p + 2)
}

/// The number that eight bytes write.
pub open spec fn eight_at(b: Seq<u8>, p: int) -> int {
    four_at(b, p) + 0x1_0000_0000 * four_at(b, p + 4)
}

proof fn lemma_two(b: Seq<u8>)
    requires
        b.len() == 2,
    ensures
        unle(b) == two_at(b, 0),
{
    reveal_with_fuel(unle, 3);
    assert(b.skip(1)[0] == b[1]);
}

/// Of a number in parts: the first two bytes, then the rest.
proof fn lemma_split(b: Seq<u8>)
    requires
        b.len() >= 2,
    ensures
        unle(b) == two_at(b, 0) + 0x1_0000 * unle(b.skip(2)),
{
    reveal_with_fuel(unle, 3);
    assert(b.skip(1).skip(1) =~= b.skip(2));
    assert(b.skip(1)[0] == b[1]);
}

proof fn lemma_four(b: Seq<u8>)
    requires
        b.len() == 4,
    ensures
        unle(b) == four_at(b, 0),
{
    lemma_split(b);
    lemma_two(b.skip(2));
}

proof fn lemma_eight(b: Seq<u8>)
    requires
        b.len() == 8,
    ensures
        unle(b) == eight_at(b, 0),
{
    lemma_split(b);
    lemma_split(b.skip(2));
    assert(b.skip(2).skip(2) =~= b.skip(4));
    lemma_four(b.skip(4));
}

/// A number as it is written, where it stands.
proof fn lemma_written(b: Seq<u8>, p: int, n: int, k: int)
    requires
        k == 2 || k == 4 || k == 8,
        0 <= n < crate::snapshot::radix(k),
        0 <= p && p + k <= b.len(),
        b.subrange(p, p + k) == le(n, k),
    ensures
        k == 2 ==> two_at(b, p) == n,
        k == 4 ==> four_at(b, p) == n,
        k == 8 ==> eight_at(b, p) == n,
{
    let s = b.subrange(p, p + k);
    lemma_le(n, k);
    if k == 2 {
        lemma_two(s);
    } else if k == 4 {
        lemma_four(s);
    } else {
        lemma_eight(s);
    }
}

/// A whole number as it stands in 32 bits.
pub open spec fn is_signed(n: int, x: i32) -> bool {
    if x >= 0 {
        n == x
    } else {
        n == x + 0x1_0000_0000
    }
}

/// A record stands at `p`: the length of the id and the id, the two coordinates, the first cell
/// and the time.
pub open spec fn record_stands(b: Seq<u8>, p: int, r: Entry) -> bool {
    let id = encode_utf8(r.id);
    let q = p + 2 + id.len();
    &&& 0 <= p && q + 20 <= b.len()
    &&& two_at(b, p) == id.len()
    &&& b.subrange(p + 2, q) == id
    &&& is_signed(four_at(b, q), r.x)
    &&& is_signed(four_at(b, q + 4), r.y)
    &&& four_at(b, q + 8) == r.cat
    &&& eight_at(b, q + 12) == r.last_seen_ms
}

/// Where record `i` begins, the first one beginning at `p`.
pub open spec fn begins(q: Seq<Entry>, p: int, i: int) -> int
    decreases i,
{
    if i <= 0 {
        p
    } else {
        begins(q, p, i - 1) + 22 + encode_utf8(q[i - 1].id).len()
    }
}

proof fn lemma_record_stands(b: Seq<u8>, p: int, r: Entry)
    requires
        0 <= p,
        encode_utf8(r.id).len() <= u16::MAX,
        p + record_bytes(r).len() <= b.len(),
        b.subrange(p, p + record_bytes(r).len()) == record_bytes(r),
    ensures
        record_bytes(r).len() == 22 + encode_utf8(r.id).len(),
        record_stands(b, p, r),
{
    let id = encode_utf8(r.id);
    let n = id.len() as int;
    let t = record_bytes(r);
    lemma_radix();
    lemma_le(n, 2);
    lemma_le(bits(r.x), 4);
    lemma_le(bits(r.y), 4);
    lemma_le(r.cat as int, 4);
    lemma_le(r.last_seen_ms as int, 8);
    let q = p + 2 + n;
    let s = b.subrange(p, p + t.len());
    assert(b.subrange(p, p + 2) =~= s.subrange(0, 2));
    assert(s.subrange(0, 2) =~= le(n, 2));
    assert(b.subrange(p + 2, q) =~= s.subrange(2, 2 + n));
    assert(s.subrange(2, 2 + n) =~= id);
    assert(b.subrange(q, q + 4) =~= s.subrange(2 + n, 6 + n));
    assert(s.subrange(2 + n, 6 + n) =~= le(bits(r.x), 4));
    assert(b.subrange(q + 4, q + 8) =~= s.subrange(6 + n, 10 + n));
    assert(s.subrange(6 + n, 10 + n) =~= le(bits(r.y), 4));
    assert(b.subrange(q + 8, q + 12) =~= s.subrange(10 + n, 14 + n));
    assert(s.subrange(10 + n, 14 + n) =~= le(r.cat as int, 4));
    assert(b.subrange(q + 12, q + 20) =~= s.subrange(14 + n, 22 + n));
    assert(s.subrange(14 + n, 22 + n) =~= le(r.last_seen_ms as int, 8));
    lemma_written(b, p, n, 2);
    lemma_written(b, q, bits(r.x), 4);
    lemma_written(b, q + 4, bits(r.y), 4);
    lemma_written(b, q + 8, r.cat as int, 4);
    lemma_written(b, q + 12, r.last_seen_ms as int, 8);
}

/// Where the records are, in the bytes of all of them.
proof fn lemma_begins(q: Seq<Entry>, p: int, n: int)
    requires
        0 <= n <= q.len(),
        forall|i: int| 0 <= i < q.len() ==> encode_utf8((#[trigger] q[i]).id).len() <= u16::MAX,
    ensures
        begins(q, p, n) == p + records_bytes(q.take(n)).len(),
    decreases n,
{
    if n > 0 {
        lemma_begins(q, p, n - 1);
        assert(q.take(n).drop_last() =~= q.take(n - 1));
        let t = record_bytes(q[n - 1]);
        assert(t.subrange(0, t.len() as int) =~= t);
        lemma_record_stands(t, 0, q[n - 1]);
    }
}

/// What stands before the records.
spec fn head_bytes(meta: Seq<u8>, n: int) -> Seq<u8> {
    magic() + le(1, 2) + le(meta.len() as int, 4) + meta + le(n, 8)
}

proof fn lemma_head(meta: Seq<u8>, n: int, b: Seq<u8>)
    requires
        meta.len() <= u32::MAX,
        0 <= n <= u64::MAX,
        b.len() >= 20 + meta.len(),
        b.take(20 + meta.len() as int) == head_bytes(meta, n),
    ensures
        b.take(6) == seq![78u8, 67u8, 83u8, 78u8, 65u8, 80u8],
        two_at(b, 6) == 1,
        four_at(b, 8) == meta.len(),
        b.subrange(12, 12 + meta.len() as int) == meta,
        eight_at(b, 12 + meta.len() as int) == n,
{
    let m = meta.len() as int;
    let h = head_bytes(meta, n);
    lemma_radix();
    lemma_le(1, 2);
    lemma_le(m, 4);
    lemma_le(n, 8);
    assert(h.len() == 20 + m);
    assert(b.take(6) =~= h.take(6));
    assert(h.take(6) =~= magic());
    assert(b.subrange(6, 8) =~= h.subrange(6, 8));
    assert(h.subrange(6, 8) =~= le(1, 2));
    assert(b.subrange(8, 12) =~= h.subrange(8, 12));
    assert(h.subrange(8, 12) =~= le(m, 4));
    assert(b.subrange(12, 12 + m) =~= h.subrange(12, 12 + m));
    assert(h.subrange(12, 12 + m) =~= meta);
    assert(b.subrange(12 + m, 20 + m) =~= h.subrange(12 + m, 20 + m));
    assert(h.subrange(12 + m, 20 + m) =~= le(n, 8));
    lemma_written(b, 6, 1, 2);
    lemma_written(b, 8, m, 4);
    lemma_written(b, 12 + m, n, 8);
}

proof fn lemma_head_len(meta: Seq<u8>, n: int)
    requires
        meta.len() <= u32::MAX,
        0 <= n <= u64::MAX,
    ensures
        head_bytes(meta, n).len() == 20 + meta.len(),
{
    lemma_radix();
    lemma_le(1, 2);
    lemma_le(meta.len() as int, 4);
    lemma_le(n, 8);
}

proof fn lemma_among(q: Seq<Entry>, b: Seq<u8>, p: int, i: int)
    requires
        0 <= p,
        0 <= i < q.len(),
        forall|j: int| 0 <= j < q.len() ==> encode_utf8((#[trigger] q[j]).id).len() <= u16::MAX,
        p + records_bytes(q).len() <= b.len(),
        b.subrange(p, p + records_bytes(q).len()) == records_bytes(q),
    ensures
        record_stands(b, begins(q, p, i), q[i]),
{
    let rs = records_bytes(q);
    lemma_begins(q, p, i);
    lemma_prefix(q, i + 1);
    assert(q.take(i + 1).drop_last() =~= q.take(i));
    let (lo, hi) = (records_bytes(q.take(i)).len() as int, records_bytes(q.take(i + 1)).len() as int);
    let t = record_bytes(q[i]);
    assert(hi == lo + t.len());
    assert(b.subrange(p + lo, p + hi) =~= rs.take(hi).subrange(lo, hi));
    assert(rs.take(hi).subrange(lo, hi) =~= t);
    lemma_record_stands(b, p + lo, q[i]);
}

/// **The bytes of a snapshot**: six letters, the version, the length of the description and the
/// description, the number of devices, the devices one after the other, and the checksum of all
/// that, every number with its lowest byte first.
pub proof fn law_layout(meta: Seq<u8>, q: Seq<Entry>, b: Seq<u8>, i: int)
    requires
        b == sealed(body_bytes(meta, q)),
        meta.len() <= u32::MAX,
        q.len() <= u64::MAX,
        forall|j: int| 0 <= j < q.len() ==> encode_utf8((#[trigger] q[j]).id).len() <= u16::MAX,
    ensures
        b.len() == begins(q, 20 + meta.len() as int, q.len() as int) + 8,
        b.take(6) == seq![78u8, 67u8, 83u8, 78u8, 65u8, 80u8],
        two_at(b, 6) == 1,
        four_at(b, 8) == meta.len(),
        b.subrange(12, 12 + meta.len() as int) == meta,
        eight_at(b, 12 + meta.len() as int) == q.len(),
        0 <= i < q.len() ==> record_stands(b, begins(q, 20 + meta.len() as int, i), q[i]),
        eight_at(b, b.len() - 8) == fnv_of(14_695_981_039_346_656_037, b.take(b.len() - 8)),
{
    let body = body_bytes(meta, q);
    let m = meta.len() as int;
    let n = q.len() as int;
    let h = fnv_of(crate::snapshot::FNV_OFFSET, body);
    let rs = records_bytes(q);
    let head = head_bytes(meta, n);
    lemma_radix();
    lemma_le(h as int, 8);
    lemma_head_len(meta, n);
    assert(body == head + rs);
    assert(b == body + le(h as int, 8));
    assert(b.take(20 + m) =~= head);
    lemma_head(meta, n, b);
    assert(b.subrange(20 + m, 20 + m + rs.len()) =~= rs);
    if 0 <= i < n {
        lemma_among(q, b, 20 + m, i);
    }
    assert(b.take(b.len() - 8) =~= body);
    assert(b.subrange(b.len() - 8, b.len() as int) =~= le(h as int, 8));
    lemma_written(b, b.len() - 8, h as int, 8);
    assert(q.take(n) =~= q);
    lemma_begins(q, 20 + m, n);
}

/// **The checksum**: FNV-1a with 64 bits. Each byte is mixed in and the whole multiplied by the
/// prime, whatever overflows being lost.
pub proof fn law_checksum(h: u64, b: Seq<u8>, x: u8)
    ensures
        fnv_of(h, Seq::<u8>::empty()) == h,
        fnv_of(h, b.push(x)) == ((fnv_of(h, b) ^ (x as u64)) * 1_099_511_628_211)
            % 0x1_0000_0000_0000_0000,
{
    assert(b.push(x).drop_last() =~= b);
    let n = (fnv_of(h, b) ^ (x as u64)) * 1_099_511_628_211;
    assert(0 <= n % 0x1_0000_0000_0000_0000 < 0x1_0000_0000_0000_0000);
}

/// A character that can stand in the name of a file as it is.
pub open spec fn plain_char(c: char) -> bool {
    ||| '0' <= c <= '9'
    ||| 'A' <= c <= 'Z'
    ||| 'a' <= c <= 'z'
    ||| c == '_'
    ||| c == '-'
}

proof fn lemma_escaped_plain(name: Seq<char>, b: Seq<u8>, n: int)
    requires
        0 <= n <= name.len(),
        b.len() == name.len(),
        forall|i: int| 0 <= i < name.len() ==> plain_char(#[trigger] name[i]) && b[i] as char == name[i],
    ensures
        escaped(b, n) == name.take(n),
    decreases n,
{
    if n > 0 {
        lemma_escaped_plain(name, b, n - 1);
        assert(plain_char(name[n - 1]) && b[n - 1] as char == name[n - 1]);
        assert(crate::snapshot::kept(b[n - 1], n - 1));
        assert(name.take(n) =~= name.take(n - 1) + seq![name[n - 1]]);
    }
}

/// **A plain name is the name of its file**: letters, digits, underscores and hyphens, two hundred of
/// them at most, stand for themselves.
pub proof fn law_plain_name(name: Seq<char>)
    requires
        0 < name.len() <= 200,
        forall|i: int| 0 <= i < name.len() ==> plain_char(#[trigger] name[i]),
    ensures
        file_stem(name) == name,
{
    assert(vstd::utf8::is_ascii_chars(name));
    vstd::utf8::is_ascii_chars_encode_utf8(name);
    let b = encode_utf8(name);
    assert forall|i: int| 0 <= i < name.len() implies plain_char(#[trigger] name[i]) && b[i] as char
        == name[i] by {}
    lemma_escaped_plain(name, b, name.len() as int);
    assert(name.take(name.len() as int) =~= name);
}

/// What is stored of a device: its position, its cells, its time, its version and its properties.
pub open spec fn is_stored(t: Stored, d: Device) -> bool {
    &&& t.id == d.id@
    &&& d.position is Some ==> d.position == Some((t.x, t.y))
    &&& t.cells == d.cells@
    &&& t.seen == d.last_seen
    &&& t.version == d.last_update
    &&& t.props == maybe(d.props)
}

/// How many of the first `n` devices are live.
pub open spec fn live_count(v: Seq<Device>, n: int) -> int
    decreases n,
{
    if n <= 0 {
        0
    } else {
        live_count(v, n - 1) + if v[n - 1].last_seen != NEVER {
            1int
        } else {
            0
        }
    }
}

/// **Every live device goes into a snapshot**, behind those that stand before it.
pub proof fn law_exported(c: Collection, n: int, i: int)
    requires
        0 <= i < n <= c.devices.len(),
        c.devices[i].last_seen != NEVER,
    ensures
        ({
            let q = exported(c.recs(), n);
            let k = live_count(c.devices@, i);
            0 <= k < q.len() && is_stored(q[k], c.devices[i])
        }),
    decreases n,
{
    assert(c.recs()[n - 1] == c.devices[n - 1].record());
    law_nothing_else_exported(c, n - 1);
    if i < n - 1 {
        law_exported(c, n - 1, i);
        let k = live_count(c.devices@, i);
        assert(exported(c.recs(), n)[k] == exported(c.recs(), n - 1)[k]);
    }
}

/// **Nothing else goes into a snapshot**: it holds as many devices as are live.
pub proof fn law_nothing_else_exported(c: Collection, n: int)
    requires
        0 <= n <= c.devices.len(),
    ensures
        exported(c.recs(), n).len() == live_count(c.devices@, n),
    decreases n,
{
    if n > 0 {
        assert(c.recs()[n - 1] == c.devices[n - 1].record());
        law_nothing_else_exported(c, n - 1);
    }
}

/// **Who can be restored**: whoever lies in the world, has a time that a live device can have, and is
/// in no cell twice.
pub proof fn law_restorable(t: Stored)
    ensures
        restorable(t) <==> {
            &&& 0 <= t.x <= 0x4000_0000 && 0 <= t.y <= 0x4000_0000
            &&& t.seen != NEVER
            &&& t.cells.no_duplicates()
        },
{
}

proof fn lemma_existing_plain(q: Seq<u32>, cells: int, n: int)
    requires
        0 <= n <= q.len(),
    ensures
        (forall|j: int| 0 <= j < n ==> (#[trigger] q[j]) < cells) ==> existing(q, cells, n) == q.take(n),
        (forall|j: int| 0 <= j < n ==> (#[trigger] q[j]) >= cells) ==> existing(q, cells, n).len()
            == 0,
        forall|k: int|
            0 <= k < existing(q, cells, n).len() ==> (#[trigger] existing(q, cells, n)[k]) < cells
                && q.contains(existing(q, cells, n)[k]),
    decreases n,
{
    if n > 0 {
        lemma_existing_plain(q, cells, n - 1);
        let e = existing(q, cells, n);
        assert(q.take(n) =~= q.take(n - 1).push(q[n - 1]));
        assert forall|k: int| 0 <= k < e.len() implies (#[trigger] e[k]) < cells && q.contains(e[k]) by {
            if k < existing(q, cells, n - 1).len() {
                assert(e[k] == existing(q, cells, n - 1)[k]);
            } else {
                assert(e[k] == q[n - 1]);
            }
        }
    }
}

/// **The cells a device comes back into**: its own, if they all exist and are not too many; the
/// default ones if none of them exists; never one that does not exist or that it was not in.
pub proof fn law_restored_cells(q: Seq<u32>, rr: Restoring)
    requires
        rr.most >= 0,
    ensures
        0 < q.len() <= rr.most && (forall|j: int| 0 <= j < q.len() ==> (#[trigger] q[j]) < rr.cells)
            ==> refiled(q, rr) == q,
        (forall|j: int| 0 <= j < q.len() ==> (#[trigger] q[j]) >= rr.cells) ==> refiled(q, rr)
            == rr.defaults,
        refiled(q, rr) != rr.defaults ==> refiled(q, rr).len() <= rr.most && forall|k: int|
            0 <= k < refiled(q, rr).len() ==> (#[trigger] refiled(q, rr)[k]) < rr.cells
                && q.contains(refiled(q, rr)[k]),
{
    let e = existing(q, rr.cells, q.len() as int);
    lemma_existing_plain(q, rr.cells, q.len() as int);
    assert(q.take(q.len() as int) =~= q);
    assert(e.take(e.len() as int) =~= e);
}

} // verus!
