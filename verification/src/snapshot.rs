//! Snapshots, as bytes.
//!
//! Not the index: the tree is *derived*, so a snapshot stores only what cannot be recomputed,
//! the collection's description and for each device its id, position, category and last report
//! time.
//!
//! ```text
//! magic     "NCSNAP" + u16 version
//! meta      u32 length + description
//! count     u64
//! records   count x { u16 id_len, id bytes, i32 x, i32 y, u32 cat, u64 last_seen_ms }
//! checksum  u64 FNV-1a over everything above
//! ```
//!
//! All numbers are little-endian.
use crate::text::say;
use vstd::prelude::*;
use vstd::string::StringExecFns;
use vstd::utf8::{decode_utf8, encode_utf8, valid_utf8};

verus! {

pub const VERSION: u16 = 1;

pub const FNV_OFFSET: u64 = 14_695_981_039_346_656_037;

pub const FNV_PRIME: u64 = 1_099_511_628_211;

/// "NCSNAP".
pub open spec fn magic() -> Seq<u8> {
    seq![78u8, 67u8, 83u8, 78u8, 65u8, 80u8]
}

/// One device, as stored. Coordinates are fixed-point, not degrees: restoring through the
/// projection would re-round every position on every restart, and the drift would accumulate.
#[derive(Debug, Clone, PartialEq)]
pub struct DeviceRecord {
    pub id: String,
    pub x: i32,
    pub y: i32,
    pub cat: u32,
    pub last_seen_ms: u64,
}

/// What a [`DeviceRecord`] says.
pub struct Entry {
    pub id: Seq<char>,
    pub x: i32,
    pub y: i32,
    pub cat: u32,
    pub last_seen_ms: u64,
}

impl DeviceRecord {
    pub open spec fn entry(&self) -> Entry {
        Entry {
            id: self.id@,
            x: self.x,
            y: self.y,
            cat: self.cat,
            last_seen_ms: self.last_seen_ms,
        }
    }
}

pub open spec fn entries(v: Seq<DeviceRecord>) -> Seq<Entry> {
    Seq::new(v.len(), |i: int| v[i].entry())
}

/// The lowest `k` bytes of `n`.
pub open spec fn le(n: int, k: int) -> Seq<u8>
    decreases k,
{
    if k <= 0 {
        seq![]
    } else {
        seq![(n % 256) as u8] + le(n / 256, k - 1)
    }
}

/// The number that bytes write.
pub open spec fn unle(b: Seq<u8>) -> int
    decreases b.len(),
{
    if b.len() == 0 {
        0
    } else {
        b[0] + 256 * unle(b.skip(1))
    }
}

/// `256^k`.
pub open spec fn radix(k: int) -> int
    decreases k,
{
    if k <= 0 {
        1
    } else {
        256 * radix(k - 1)
    }
}

/// Bytes can be read back.
pub proof fn lemma_le(n: int, k: int)
    requires
        0 <= k,
        0 <= n < radix(k),
    ensures
        le(n, k).len() == k,
        unle(le(n, k)) == n,
    decreases k,
{
    if k > 0 {
        assert(n / 256 < radix(k - 1));
        lemma_le(n / 256, k - 1);
        assert(le(n, k).skip(1) =~= le(n / 256, k - 1));
    }
}

/// What bytes write fits them, and they are the bytes of it.
pub proof fn lemma_unle(b: Seq<u8>)
    ensures
        0 <= unle(b) < radix(b.len() as int),
        le(unle(b), b.len() as int) == b,
    decreases b.len(),
{
    if b.len() > 0 {
        lemma_unle(b.skip(1));
        let n = unle(b);
        assert(n % 256 == b[0]);
        assert(n / 256 == unle(b.skip(1)));
        assert(le(n, b.len() as int) =~= b);
    }
}

pub(crate) proof fn lemma_radix()
    ensures
        radix(2) == 0x1_0000,
        radix(4) == 0x1_0000_0000,
        radix(8) == 0x1_0000_0000_0000_0000,
{
    reveal_with_fuel(radix, 9);
}

/// One step of the checksum.
pub open spec fn fnv_step(h: u64, b: u8) -> u64 {
    (((h ^ (b as u64)) as int * FNV_PRIME as int) % 0x1_0000_0000_0000_0000) as u64
}

/// The checksum of `b`, from `h` on.
pub open spec fn fnv_of(h: u64, b: Seq<u8>) -> u64
    decreases b.len(),
{
    if b.len() == 0 {
        h
    } else {
        fnv_step(fnv_of(h, b.drop_last()), b.last())
    }
}

pub fn fnv(hash: &mut u64, bytes: &[u8])
    ensures
        *final(hash) == fnv_of(*old(hash), bytes@),
{
    let ghost was = *hash;
    let mut i: usize = 0;
    while i < bytes.len()
        invariant
            i <= bytes@.len(),
            *hash == fnv_of(was, bytes@.take(i as int)),
        decreases bytes@.len() - i,
    {
        let h = *hash ^ (bytes[i] as u64);
        *hash = h.wrapping_mul(FNV_PRIME);
        proof {
            assert(bytes@.take(i + 1).drop_last() =~= bytes@.take(i as int));
            assert(h.wrapping_mul(FNV_PRIME) == ((h as int * FNV_PRIME as int)
                % 0x1_0000_0000_0000_0000) as u64);
        }
        i = i + 1;
    }
    proof {
        assert(bytes@.take(bytes@.len() as int) =~= bytes@);
    }
}

/// Different checksums stay different, and different bytes make them different.
proof fn lemma_step(g: u64, h: u64, a: u8, b: u8)
    requires
        fnv_step(g, a) == fnv_step(h, b),
    ensures
        a == b ==> g == h,
        g == h ==> a == b,
{
    let m: int = 0x1_0000_0000_0000_0000;
    let x = g ^ (a as u64);
    let y = h ^ (b as u64);
    let p = FNV_PRIME as int;
    lemma_odd(x as int, y as int);
    assert(x == y);
    assert((g ^ (a as u64)) == (h ^ (b as u64)) && a == b ==> g == h) by (bit_vector);
    assert((g ^ (a as u64)) == (h ^ (b as u64)) && g == h ==> a == b) by (bit_vector);
}

/// Multiplying by an odd number forgets nothing.
proof fn lemma_odd(x: int, y: int)
    requires
        0 <= x < 0x1_0000_0000_0000_0000,
        0 <= y < 0x1_0000_0000_0000_0000,
        (x * 1_099_511_628_211) % 0x1_0000_0000_0000_0000 == (y * 1_099_511_628_211)
            % 0x1_0000_0000_0000_0000,
    ensures
        x == y,
{
    let m: int = 0x1_0000_0000_0000_0000;
    let p: int = 1_099_511_628_211;
    let d = x - y;
    let s = (x * p) / m;
    let t = (y * p) / m;
    vstd::arithmetic::div_mod::lemma_fundamental_div_mod(x * p, m);
    vstd::arithmetic::div_mod::lemma_fundamental_div_mod(y * p, m);
    assert(d * p == m * (s - t)) by (nonlinear_arith)
        requires
            x * p == m * s + (x * p) % m,
            y * p == m * t + (y * p) % m,
            (x * p) % m == (y * p) % m,
            d == x - y,
    ;
    let q: int = 14886173955864302971int;
    let k: int = 887285111055int;
    assert(p * q == 1 + k * m);
    assert(d == m * ((s - t) * q - d * k)) by (nonlinear_arith)
        requires
            d * p == m * (s - t),
            p * q == 1 + k * m,
    ;
    let e = (s - t) * q - d * k;
    assert(d == 0) by (nonlinear_arith)
        requires
            d == m * e,
            -m < d < m,
            m > 0,
    ;
}

/// A signed number as the unsigned one with the same bits.
pub open spec fn bits(x: i32) -> int {
    if x < 0 {
        x + 0x1_0000_0000
    } else {
        x as int
    }
}

/// The signed number with the bits of `n`.
pub open spec fn signed(n: int) -> int {
    if n >= 0x8000_0000 {
        n - 0x1_0000_0000
    } else {
        n
    }
}

/// The bytes of a record.
pub open spec fn record_bytes(r: Entry) -> Seq<u8> {
    let id = encode_utf8(r.id);
    le((id.len() as u16) as int, 2) + id + le(bits(r.x), 4) + le(bits(r.y), 4) + le(
        r.cat as int,
        4,
    ) + le(r.last_seen_ms as int, 8)
}

pub open spec fn records_bytes(q: Seq<Entry>) -> Seq<u8>
    decreases q.len(),
{
    if q.len() == 0 {
        seq![]
    } else {
        records_bytes(q.drop_last()) + record_bytes(q.last())
    }
}

/// A snapshot without its checksum.
pub open spec fn body_bytes(meta: Seq<u8>, q: Seq<Entry>) -> Seq<u8> {
    magic() + le(VERSION as int, 2) + le((meta.len() as u32) as int, 4) + meta + le(
        q.len() as int,
        8,
    ) + records_bytes(q)
}

/// A body with its checksum.
pub open spec fn sealed(body: Seq<u8>) -> Seq<u8> {
    body + le(fnv_of(FNV_OFFSET, body) as int, 8)
}

/// Why bytes are not a snapshot.
#[derive(Debug, Clone, Copy, PartialEq, Eq, Structural)]
pub enum Damage {
    TooShort,
    Checksum,
    Foreign,
    Version(u16),
    MidRecord,
    NotText,
    Trailing,
}

impl Damage {
    pub open spec fn text(&self) -> Seq<char> {
        match *self {
            Damage::TooShort => "snapshot is too short to be valid"@,
            Damage::Checksum => "snapshot checksum mismatch: the file is corrupt or truncated"@,
            Damage::Foreign => "not a netcluster snapshot"@,
            Damage::Version(v) => "snapshot format version "@ + crate::text::number(v as int)
                + ", this build understands 1"@,
            Damage::MidRecord => "snapshot ended mid-record"@,
            Damage::NotText => "device id is not valid UTF-8"@,
            Damage::Trailing => "snapshot has trailing bytes"@,
        }
    }

    /// The damage in words.
    pub fn message(&self) -> (s: String)
        ensures
            s@ == self.text(),
    {
        match *self {
            Damage::TooShort => String::from_str("snapshot is too short to be valid"),
            Damage::Checksum => String::from_str(
                "snapshot checksum mismatch: the file is corrupt or truncated",
            ),
            Damage::Foreign => String::from_str("not a netcluster snapshot"),
            Damage::Version(v) => say(
                "snapshot format version ",
                v as u64,
                ", this build understands 1",
            ),
            Damage::MidRecord => String::from_str("snapshot ended mid-record"),
            Damage::NotText => String::from_str("device id is not valid UTF-8"),
            Damage::Trailing => String::from_str("snapshot has trailing bytes"),
        }
    }
}

/// The number in the `n` bytes of `b` from `p` on.
pub open spec fn number_at(b: Seq<u8>, p: int, n: int) -> int {
    unle(b.subrange(p, p + n))
}

/// The record at `p`, and where the next one starts.
pub open spec fn record_at(b: Seq<u8>, p: int) -> Result<(Entry, int), Damage> {
    if p + 2 > b.len() {
        Err(Damage::MidRecord)
    } else {
        let n = number_at(b, p, 2);
        if p + 2 + n > b.len() {
            Err(Damage::MidRecord)
        } else {
            let id = b.subrange(p + 2, p + 2 + n);
            let at = p + 2 + n;
            if !valid_utf8(id) {
                Err(Damage::NotText)
            } else if at + 20 > b.len() {
                Err(Damage::MidRecord)
            } else {
                Ok(
                    (
                        Entry {
                            id: decode_utf8(id),
                            x: signed(number_at(b, at, 4)) as i32,
                            y: signed(number_at(b, at + 4, 4)) as i32,
                            cat: number_at(b, at + 8, 4) as u32,
                            last_seen_ms: number_at(b, at + 12, 8) as u64,
                        },
                        at + 20,
                    ),
                )
            }
        }
    }
}

/// The `n` records from `p` on, and where they end.
pub open spec fn records_at(b: Seq<u8>, p: int, n: int) -> Result<(Seq<Entry>, int), Damage>
    decreases n,
{
    if n <= 0 {
        Ok((seq![], p))
    } else {
        match records_at(b, p, n - 1) {
            Err(e) => Err(e),
            Ok((q, at)) => match record_at(b, at) {
                Err(e) => Err(e),
                Ok((r, next)) => Ok((q.push(r), next)),
            },
        }
    }
}

/// What a body says: the description and the records.
pub open spec fn body_at(b: Seq<u8>) -> Result<(Seq<u8>, Seq<Entry>), Damage> {
    if b.subrange(0, 6) != magic() {
        Err(Damage::Foreign)
    } else if number_at(b, 6, 2) != VERSION {
        Err(Damage::Version(number_at(b, 6, 2) as u16))
    } else {
        let m = number_at(b, 8, 4);
        if 12 + m + 8 > b.len() {
            Err(Damage::MidRecord)
        } else {
            match records_at(b, 20 + m, number_at(b, 12 + m, 8)) {
                Err(e) => Err(e),
                Ok((q, end)) => if end != b.len() {
                    Err(Damage::Trailing)
                } else {
                    Ok((b.subrange(12, 12 + m), q))
                },
            }
        }
    }
}

/// What bytes say, if they are a snapshot. The checksum is compared before anything is read.
pub open spec fn snapshot_at(b: Seq<u8>) -> Result<(Seq<u8>, Seq<Entry>), Damage> {
    if b.len() < 28 {
        Err(Damage::TooShort)
    } else {
        let body = b.take(b.len() - 8);
        if fnv_of(FNV_OFFSET, body) != unle(b.skip(b.len() - 8)) {
            Err(Damage::Checksum)
        } else {
            body_at(body)
        }
    }
}

/// Append the lowest bytes of a number.
fn put_le(out: &mut Vec<u8>, n: u64, k: usize)
    ensures
        final(out)@ == old(out)@ + le(n as int, k as int),
    decreases k,
{
    if k > 0 {
        let ghost was = out@;
        out.push((n % 256) as u8);
        put_le(out, n / 256, k - 1);
        proof {
            assert(out@ =~= was + le(n as int, k as int));
        }
    } else {
        proof {
            assert(out@ =~= out@ + le(n as int, k as int));
        }
    }
}

fn put_bytes(out: &mut Vec<u8>, b: &[u8])
    ensures
        final(out)@ == old(out)@ + b@,
{
    let ghost was = out@;
    let mut i: usize = 0;
    while i < b.len()
        invariant
            i <= b@.len(),
            out@ == was + b@.take(i as int),
        decreases b@.len() - i,
    {
        out.push(b[i]);
        proof {
            assert(b@.take(i + 1) =~= b@.take(i as int).push(b@[i as int]));
        }
        i = i + 1;
    }
    proof {
        assert(b@.take(b@.len() as int) =~= b@);
    }
}

fn as_bits(x: i32) -> (n: u32)
    ensures
        n == bits(x),
{
    if x < 0 {
        (x as i64 + 0x1_0000_0000) as u32
    } else {
        x as u32
    }
}

/// Encode a snapshot.
pub fn encode(meta: &[u8], records: &[DeviceRecord]) -> (out: Vec<u8>)
    ensures
        out@ == sealed(body_bytes(meta@, entries(records@))),
{
    let mut out: Vec<u8> = Vec::new();
    out.push(78);
    out.push(67);
    out.push(83);
    out.push(78);
    out.push(65);
    out.push(80);
    proof {
        assert(out@ =~= magic());
    }
    put_le(&mut out, VERSION as u64, 2);
    put_le(&mut out, meta.len() as u32 as u64, 4);
    put_bytes(&mut out, meta);
    put_le(&mut out, records.len() as u64, 8);
    let ghost head = out@;
    let ghost q = entries(records@);
    let mut i: usize = 0;
    proof {
        assert(head =~= head + records_bytes(q.take(0)));
    }
    while i < records.len()
        invariant
            i <= records@.len(),
            q == entries(records@),
            out@ == head + records_bytes(q.take(i as int)),
        decreases records@.len() - i,
    {
        let r = &records[i];
        let ghost was = out@;
        let id = r.id.as_str().as_bytes();
        put_le(&mut out, id.len() as u16 as u64, 2);
        put_bytes(&mut out, id);
        put_le(&mut out, as_bits(r.x) as u64, 4);
        put_le(&mut out, as_bits(r.y) as u64, 4);
        put_le(&mut out, r.cat as u64, 4);
        put_le(&mut out, r.last_seen_ms, 8);
        proof {
            assert(out@ =~= was + record_bytes(r.entry()));
            assert(q.take(i + 1).drop_last() =~= q.take(i as int));
            assert(q.take(i + 1).last() == r.entry());
            assert(out@ =~= head + records_bytes(q.take(i + 1)));
        }
        i = i + 1;
    }
    proof {
        assert(q.take(q.len() as int) =~= q);
        assert(out@ =~= body_bytes(meta@, q));
    }
    let mut h = FNV_OFFSET;
    fnv(&mut h, out.as_slice());
    put_le(&mut out, h, 8);
    out
}

/// `String::from_utf8`: the text of bytes that are UTF-8, nothing of others.
#[verifier::external_body]
fn text_of(b: &[u8]) -> (r: Option<String>)
    ensures
        match r {
            Some(s) => valid_utf8(b@) && s@ == decode_utf8(b@),
            None => !valid_utf8(b@),
        },
{
    String::from_utf8(b.to_vec()).ok()
}

fn get_bytes(b: &Vec<u8>, p: usize, n: usize) -> (r: Vec<u8>)
    requires
        p + n <= b.len(),
    ensures
        r@ == b@.subrange(p as int, p + n),
{
    let mut r: Vec<u8> = Vec::new();
    let mut i: usize = 0;
    while i < n
        invariant
            i <= n,
            p + n <= b.len(),
            r@ == b@.subrange(p as int, p + i),
        decreases n - i,
    {
        r.push(b[p + i]);
        proof {
            assert(b@.subrange(p as int, p + i + 1) =~= b@.subrange(p as int, p + i).push(
                b@[p + i],
            ));
        }
        i = i + 1;
    }
    r
}

fn get_le(b: &Vec<u8>, p: usize, n: usize) -> (r: u64)
    requires
        p + n <= b.len(),
        n <= 8,
    ensures
        r == number_at(b@, p as int, n as int),
        r < radix(n as int),
    decreases n,
{
    proof {
        lemma_unle(b@.subrange(p as int, p + n));
        lemma_radix();
    }
    if n == 0 {
        return 0;
    }
    let rest = get_le(b, p + 1, n - 1);
    proof {
        let q = b@.subrange(p as int, p + n);
        assert(q.skip(1) =~= b@.subrange(p + 1, p + n));
        assert(q[0] == b@[p as int]);
        assert(radix(n as int) <= radix(8)) by {
            reveal_with_fuel(radix, 9);
        }
        assert(unle(q) == b@[p as int] + 256 * rest);
    }
    b[p] as u64 + 256 * rest
}

fn signed_of(n: u32) -> (x: i32)
    ensures
        x == signed(n as int),
{
    if n >= 0x8000_0000 {
        (n as i64 - 0x1_0000_0000) as i32
    } else {
        n as i32
    }
}

fn get_record(b: &Vec<u8>, p: usize) -> (r: Result<(DeviceRecord, usize), Damage>)
    requires
        p <= b.len(),
    ensures
        match r {
            Ok((d, next)) => record_at(b@, p as int) == Ok::<(Entry, int), Damage>(
                (d.entry(), next as int),
            ) && p < next <= b.len(),
            Err(e) => record_at(b@, p as int) == Err::<(Entry, int), Damage>(e),
        },
{
    proof {
        lemma_radix();
    }
    if b.len() - p < 2 {
        return Err(Damage::MidRecord);
    }
    let n = get_le(b, p, 2) as usize;
    if b.len() - p - 2 < n {
        return Err(Damage::MidRecord);
    }
    let id = match text_of(get_bytes(b, p + 2, n).as_slice()) {
        Some(id) => id,
        None => {
            return Err(Damage::NotText);
        },
    };
    let at = p + 2 + n;
    if b.len() - at < 20 {
        return Err(Damage::MidRecord);
    }
    let x = signed_of(get_le(b, at, 4) as u32);
    let y = signed_of(get_le(b, at + 4, 4) as u32);
    let cat = get_le(b, at + 8, 4) as u32;
    let last_seen_ms = get_le(b, at + 12, 8);
    Ok((DeviceRecord { id, x, y, cat, last_seen_ms }, at + 20))
}

/// Once reading has failed it has failed.
proof fn lemma_failed(b: Seq<u8>, p: int, i: int, n: int)
    requires
        0 <= i <= n,
        records_at(b, p, i) is Err,
    ensures
        records_at(b, p, n) == records_at(b, p, i),
    decreases n - i,
{
    if i < n {
        lemma_failed(b, p, i, n - 1);
    }
}

fn get_body(b: &Vec<u8>) -> (r: Result<(Vec<u8>, Vec<DeviceRecord>), Damage>)
    requires
        b.len() >= 20,
    ensures
        match r {
            Ok((meta, records)) => body_at(b@) == Ok::<(Seq<u8>, Seq<Entry>), Damage>(
                (meta@, entries(records@)),
            ),
            Err(e) => body_at(b@) == Err::<(Seq<u8>, Seq<Entry>), Damage>(e),
        },
{
    proof {
        lemma_radix();
    }
    if b[0] != 78 || b[1] != 67 || b[2] != 83 || b[3] != 78 || b[4] != 65 || b[5] != 80 {
        proof {
            let s = b@.subrange(0, 6);
            assert(s[0] == b@[0] && s[1] == b@[1] && s[2] == b@[2] && s[3] == b@[3] && s[4]
                == b@[4] && s[5] == b@[5]);
            assert(s != magic());
        }
        return Err(Damage::Foreign);
    }
    proof {
        assert(b@.subrange(0, 6) =~= magic());
    }
    let version = get_le(b, 6, 2) as u16;
    if version != VERSION {
        return Err(Damage::Version(version));
    }
    let m = get_le(b, 8, 4);
    if m > (b.len() - 20) as u64 {
        return Err(Damage::MidRecord);
    }
    let m = m as usize;
    let meta = get_bytes(b, 12, m);
    let count = get_le(b, 12 + m, 8);
    let ghost start = 20 + m;
    let mut p = 20 + m;
    let mut out: Vec<DeviceRecord> = Vec::new();
    let mut i: u64 = 0;
    proof {
        assert(entries(out@) =~= seq![]);
    }
    while i < count
        invariant
            i <= count,
            p <= b.len(),
            records_at(b@, start, i as int) == Ok::<(Seq<Entry>, int), Damage>(
                (entries(out@), p as int),
            ),
            body_at(b@) == (match records_at(b@, start, count as int) {
                Err(e) => Err::<(Seq<u8>, Seq<Entry>), Damage>(e),
                Ok((q, end)) => if end != b.len() {
                    Err(Damage::Trailing)
                } else {
                    Ok((meta@, q))
                },
            }),
        decreases count - i,
    {
        let ghost before = out@;
        match get_record(b, p) {
            Err(e) => {
                proof {
                    lemma_failed(b@, start, i + 1, count as int);
                }
                return Err(e);
            },
            Ok((r, next)) => {
                proof {
                    assert(entries(before.push(r)) =~= entries(before).push(r.entry()));
                }
                out.push(r);
                p = next;
            },
        }
        i = i + 1;
    }
    if p != b.len() {
        return Err(Damage::Trailing);
    }
    Ok((meta, out))
}

/// Read a snapshot back.
///
/// The checksum is verified *before* anything is parsed. A snapshot that fails here is corrupt,
/// and the caller starts that collection empty: serving half a fleet as though it were whole is
/// worse than serving none of it, because nothing downstream can tell the difference.
pub fn decode(buf: &Vec<u8>) -> (r: Result<(Vec<u8>, Vec<DeviceRecord>), Damage>)
    ensures
        match r {
            Ok((meta, records)) => snapshot_at(buf@) == Ok::<(Seq<u8>, Seq<Entry>), Damage>(
                (meta@, entries(records@)),
            ),
            Err(e) => snapshot_at(buf@) == Err::<(Seq<u8>, Seq<Entry>), Damage>(e),
        },
{
    if buf.len() < 28 {
        return Err(Damage::TooShort);
    }
    let n = buf.len() - 8;
    let stored = get_le(buf, n, 8);
    let body = get_bytes(buf, 0, n);
    proof {
        assert(buf@.subrange(n as int, n + 8) =~= buf@.skip(n as int));
        assert(body@ =~= buf@.take(n as int));
    }
    let mut h = FNV_OFFSET;
    fnv(&mut h, body.as_slice());
    if h != stored {
        return Err(Damage::Checksum);
    }
    get_body(&body)
}

/// A record can be read back.
proof fn lemma_record(r: Entry, b: Seq<u8>, p: int)
    requires
        0 <= p,
        p + record_bytes(r).len() <= b.len(),
        b.subrange(p, p + record_bytes(r).len()) == record_bytes(r),
        encode_utf8(r.id).len() <= u16::MAX,
    ensures
        record_at(b, p) == Ok::<(Entry, int), Damage>((r, p + record_bytes(r).len())),
{
    let id = encode_utf8(r.id);
    let n = id.len() as int;
    let t = record_bytes(r);
    lemma_radix();
    lemma_le(n, 2);
    lemma_le(bits(r.x), 4);
    lemma_le(bits(r.y), 4);
    lemma_le(r.cat as int, 4);
    lemma_le(r.last_seen_ms as int, 8);
    assert(t.len() == 2 + n + 20);
    let at = p + 2 + n;
    assert forall|i: int, k: int| 0 <= i <= k <= t.len() implies b.subrange(p + i, p + k)
        == #[trigger] t.subrange(i, k) by {
        assert(b.subrange(p + i, p + k) =~= b.subrange(p, p + t.len()).subrange(i, k));
    }
    assert(t.subrange(0, 2) =~= le(n, 2));
    assert(t.subrange(2, 2 + n) =~= id);
    assert(t.subrange(2 + n, 6 + n) =~= le(bits(r.x), 4));
    assert(t.subrange(6 + n, 10 + n) =~= le(bits(r.y), 4));
    assert(t.subrange(10 + n, 14 + n) =~= le(r.cat as int, 4));
    assert(t.subrange(14 + n, 22 + n) =~= le(r.last_seen_ms as int, 8));
    assert(number_at(b, p, 2) == n);
    assert(b.subrange(p + 2, p + 2 + n) == id);
    vstd::utf8::encode_utf8_valid_utf8(r.id);
    vstd::utf8::encode_utf8_decode_utf8(r.id);
    assert(number_at(b, at, 4) == bits(r.x));
    assert(number_at(b, at + 4, 4) == bits(r.y));
    assert(number_at(b, at + 8, 4) == r.cat);
    assert(number_at(b, at + 12, 8) == r.last_seen_ms);
}

proof fn lemma_records(q: Seq<Entry>, b: Seq<u8>, p: int, n: int)
    requires
        0 <= p,
        0 <= n <= q.len(),
        p + records_bytes(q).len() <= b.len(),
        b.subrange(p, p + records_bytes(q).len()) == records_bytes(q),
        forall|i: int| 0 <= i < q.len() ==> encode_utf8((#[trigger] q[i]).id).len() <= u16::MAX,
    ensures
        records_at(b, p, n) == Ok::<(Seq<Entry>, int), Damage>(
            (q.take(n), p + records_bytes(q.take(n)).len()),
        ),
        records_bytes(q.take(n)).len() <= records_bytes(q).len(),
        records_bytes(q).take(records_bytes(q.take(n)).len() as int) == records_bytes(q.take(n)),
    decreases n,
{
    lemma_prefix(q, n);
    if n > 0 {
        lemma_records(q, b, p, n - 1);
        lemma_prefix(q, n - 1);
        let r = q[n - 1];
        let head = records_bytes(q.take(n - 1));
        let all = records_bytes(q);
        let upto = records_bytes(q.take(n));
        assert(q.take(n).drop_last() =~= q.take(n - 1));
        assert(q.take(n).last() == r);
        assert(upto == head + record_bytes(r));
        let at = p + head.len();
        let rb = record_bytes(r);
        assert(b.subrange(at, at + rb.len()) =~= rb) by {
            let whole = b.subrange(p, p + all.len());
            assert(whole == all);
            assert forall|j: int| 0 <= j < rb.len() implies b.subrange(at, at + rb.len())[j]
                == rb[j] by {
                assert(b[at + j] == whole[head.len() + j]);
                assert(all.take(upto.len() as int)[head.len() + j] == upto[head.len() + j]);
            }
        }
        lemma_record(r, b, at);
        assert(q.take(n - 1).push(r) =~= q.take(n));
    } else {
        assert(q.take(0) =~= seq![]);
    }
}

/// Earlier records come first.
pub(crate) proof fn lemma_prefix(q: Seq<Entry>, n: int)
    requires
        0 <= n <= q.len(),
    ensures
        records_bytes(q.take(n)).len() <= records_bytes(q).len(),
        records_bytes(q).take(records_bytes(q.take(n)).len() as int) == records_bytes(q.take(n)),
    decreases q.len(),
{
    if n == q.len() {
        assert(q.take(n) =~= q);
        assert(records_bytes(q).take(records_bytes(q).len() as int) =~= records_bytes(q));
    } else {
        let r = q.drop_last();
        lemma_prefix(r, n);
        assert(r.take(n) =~= q.take(n));
        let k = records_bytes(q.take(n)).len() as int;
        assert(records_bytes(q).take(k) =~= records_bytes(r).take(k));
    }
}

/// **A snapshot holds what was put in it**: what is read of a written snapshot is the description
/// and the records that were written, whatever the ids, as long as the lengths fit their fields.
pub proof fn law_round_trip(meta: Seq<u8>, q: Seq<Entry>)
    requires
        meta.len() <= u32::MAX,
        q.len() <= u64::MAX,
        forall|i: int| 0 <= i < q.len() ==> encode_utf8((#[trigger] q[i]).id).len() <= u16::MAX,
    ensures
        snapshot_at(sealed(body_bytes(meta, q))) == Ok::<(Seq<u8>, Seq<Entry>), Damage>((meta, q)),
{
    let body = body_bytes(meta, q);
    let all = sealed(body);
    let m = meta.len() as int;
    let sum = fnv_of(FNV_OFFSET, body);
    lemma_radix();
    lemma_le(VERSION as int, 2);
    lemma_le(m, 4);
    lemma_le(q.len() as int, 8);
    lemma_le(sum as int, 8);
    let recs = records_bytes(q);
    assert(body.len() == 20 + m + recs.len());
    assert(all.take(all.len() - 8) =~= body);
    assert(all.skip(all.len() - 8) =~= le(sum as int, 8));
    assert(body.subrange(0, 6) =~= magic());
    assert(body.subrange(6, 8) =~= le(VERSION as int, 2));
    assert(body.subrange(8, 12) =~= le(m, 4));
    assert(body.subrange(12, 12 + m) =~= meta);
    assert(body.subrange(12 + m, 20 + m) =~= le(q.len() as int, 8));
    assert(body.subrange(20 + m, 20 + m + recs.len()) =~= recs);
    assert(number_at(body, 6, 2) == VERSION);
    assert(number_at(body, 8, 4) == m);
    assert(number_at(body, 12 + m, 8) == q.len());
    lemma_records(q, body, 20 + m, q.len() as int);
    assert(q.take(q.len() as int) =~= q);
}

/// One byte decides the checksum, if all others are the same.
proof fn lemma_one_byte(h: u64, a: Seq<u8>, b: Seq<u8>, i: int)
    requires
        a.len() == b.len(),
        0 <= i < a.len(),
        a[i] != b[i],
        forall|j: int| 0 <= j < a.len() && j != i ==> #[trigger] a[j] == b[j],
    ensures
        fnv_of(h, a) != fnv_of(h, b),
    decreases a.len(),
{
    let (x, y) = (a.drop_last(), b.drop_last());
    if i == a.len() - 1 {
        assert(x =~= y);
        if fnv_of(h, a) == fnv_of(h, b) {
            lemma_step(fnv_of(h, x), fnv_of(h, y), a.last(), b.last());
        }
    } else {
        assert(a.last() == b.last());
        lemma_one_byte(h, x, y, i);
        if fnv_of(h, a) == fnv_of(h, b) {
            lemma_step(fnv_of(h, x), fnv_of(h, y), a.last(), b.last());
        }
    }
}

/// **Corruption is caught**: a snapshot in which one byte was changed is refused, whichever byte
/// it is and whatever it was changed to.
pub proof fn law_corruption(b: Seq<u8>, c: Seq<u8>, i: int)
    requires
        snapshot_at(b) is Ok,
        c.len() == b.len(),
        0 <= i < b.len(),
        b[i] != c[i],
        forall|j: int| 0 <= j < b.len() && j != i ==> #[trigger] b[j] == c[j],
    ensures
        snapshot_at(c) == Err::<(Seq<u8>, Seq<Entry>), Damage>(Damage::Checksum),
{
    let n = b.len() - 8;
    let (x, y) = (b.take(n), c.take(n));
    if i < n {
        lemma_one_byte(FNV_OFFSET, x, y, i);
        assert(b.skip(n) =~= c.skip(n));
    } else {
        assert(x =~= y);
        let (s, t) = (b.skip(n), c.skip(n));
        assert(s[i - n] == b[i] && t[i - n] == c[i]);
        if unle(s) == unle(t) {
            lemma_unle(s);
            lemma_unle(t);
        }
    }
}

/// A byte of a name that a file name keeps as it is. A dot is kept but in front.
pub open spec fn kept(b: u8, i: int) -> bool {
    ||| 48 <= b <= 57
    ||| 65 <= b <= 90
    ||| 97 <= b <= 122
    ||| b == 95
    ||| b == 45
    ||| (b == 46 && i > 0)
}

pub open spec fn upper_hex(n: int) -> char {
    if n < 10 {
        (48 + n) as char
    } else {
        (55 + n) as char
    }
}

pub open spec fn lower_hex(n: int) -> char {
    if n < 10 {
        (48 + n) as char
    } else {
        (87 + n) as char
    }
}

/// The lowest `k` hexadecimal digits of `n`.
pub open spec fn hex(n: int, k: int) -> Seq<char>
    decreases k,
{
    if k <= 0 {
        seq![]
    } else {
        hex(n / 16, k - 1).push(lower_hex(n % 16))
    }
}

/// What stands for the `i`-th byte of a name.
pub open spec fn escape(b: u8, i: int) -> Seq<char> {
    if kept(b, i) {
        seq![b as char]
    } else {
        seq!['%', upper_hex(b as int / 16), upper_hex(b as int % 16)]
    }
}

/// What stands for the first `n` bytes of a name.
pub open spec fn escaped(b: Seq<u8>, n: int) -> Seq<char>
    decreases n,
{
    if n <= 0 {
        seq![]
    } else {
        escaped(b, n - 1) + escape(b[n - 1], n - 1)
    }
}

/// The file name of a collection, without its extension.
pub open spec fn file_stem(name: Seq<char>) -> Seq<char> {
    let b = encode_utf8(name);
    let e = escaped(b, b.len() as int);
    if e.len() > 200 {
        e.take(180).push('~') + hex(fnv_of(FNV_OFFSET, b) as int, 16)
    } else if e.len() == 0 {
        "%00"@
    } else {
        e
    }
}

fn push_hex(out: &mut String, n: u64, k: usize)
    ensures
        final(out)@ == old(out)@ + hex(n as int, k as int),
    decreases k,
{
    let ghost was = out@;
    if k > 0 {
        push_hex(out, n / 16, k - 1);
        let d = (n % 16) as u8;
        out.push(
            if d < 10 {
                (48 + d) as char
            } else {
                (87 + d) as char
            },
        );
        proof {
            assert(out@ =~= was + hex(n as int, k as int));
        }
    } else {
        proof {
            assert(out@ =~= was + hex(n as int, k as int));
        }
    }
}

fn upper(d: u8) -> (c: char)
    requires
        d < 16,
    ensures
        c == upper_hex(d as int),
{
    if d < 10 {
        (48 + d) as char
    } else {
        (55 + d) as char
    }
}

fn push_chars(out: &mut String, v: &Vec<char>, n: usize)
    requires
        n <= v.len(),
    ensures
        final(out)@ == old(out)@ + v@.take(n as int),
{
    let ghost was = out@;
    let mut i: usize = 0;
    proof {
        assert(out@ =~= was + v@.take(0));
    }
    while i < n
        invariant
            i <= n <= v.len(),
            out@ == was + v@.take(i as int),
        decreases n - i,
    {
        out.push(v[i]);
        proof {
            assert(out@ =~= was + v@.take(i + 1));
        }
        i = i + 1;
    }
}

/// A collection name is a URL path segment, so it arrives arbitrary: `../../etc/passwd` is a
/// perfectly legal name and a path traversal if used as a filename.
///
/// Everything outside `[A-Za-z0-9._-]` is percent-encoded, and a *leading* dot is encoded too,
/// which is what rules out `.` and `..`. Long names are truncated with a hash appended, because
/// most filesystems stop at 255 bytes.
pub fn encode_name(name: &str) -> (out: String)
    ensures
        out@ == file_stem(name@),
{
    let b = name.as_bytes();
    let ghost bb = b@;
    let mut chars: Vec<char> = Vec::new();
    let mut i: usize = 0;
    while i < b.len()
        invariant
            i <= b@.len(),
            bb == b@,
            chars@ == escaped(bb, i as int),
        decreases b@.len() - i,
    {
        let c = b[i];
        let ghost was = chars@;
        if (48 <= c && c <= 57) || (65 <= c && c <= 90) || (97 <= c && c <= 122) || c == 95 || c
            == 45 || (c == 46 && i > 0) {
            chars.push(c as char);
        } else {
            chars.push('%');
            chars.push(upper(c / 16));
            chars.push(upper(c % 16));
        }
        proof {
            assert(chars@ =~= was + escape(c, i as int));
        }
        i = i + 1;
    }
    let mut out = String::new();
    if chars.len() > 200 {
        push_chars(&mut out, &chars, 180);
        out.push('~');
        let mut h = FNV_OFFSET;
        fnv(&mut h, b);
        push_hex(&mut out, h, 16);
        proof {
            assert(out@ =~= file_stem(name@));
        }
    } else if chars.len() == 0 {
        out.append("%00");
        proof {
            assert(out@ =~= file_stem(name@));
        }
    } else {
        push_chars(&mut out, &chars, chars.len());
        proof {
            assert(out@ =~= file_stem(name@));
        }
    }
    out
}

/// What stands between a directory and the name of a file in it: nothing where the directory is
/// the empty path or ends in a separator already.
pub open spec fn joint(dir: Seq<char>) -> Seq<char> {
    if dir.len() == 0 || dir.last() == '/' {
        Seq::empty()
    } else {
        seq!['/']
    }
}

/// The file of a collection in a directory.
pub fn path_for(dir: &str, name: &str) -> (out: String)
    ensures
        out@ == dir@ + joint(dir@) + file_name(name@),
{
    let mut out = String::from_str(dir);
    let n = dir.unicode_len();
    if n > 0 && dir.get_char(n - 1) != '/' {
        out.push('/');
    }
    out.append(file_of(name).as_str());
    proof {
        assert(out@ =~= dir@ + joint(dir@) + file_name(name@));
    }
    out
}

/// The name of the file of a collection.
pub open spec fn file_name(name: Seq<char>) -> Seq<char> {
    file_stem(name) + ".ncs"@
}

/// The name of the file of a collection.
pub fn file_of(name: &str) -> (out: String)
    ensures
        out@ == file_name(name@),
{
    let mut out = encode_name(name);
    out.append(".ncs");
    out
}

/// A character that a file name can hold on any filesystem.
pub open spec fn harmless(c: char) -> bool {
    ||| '0' <= c <= '9'
    ||| 'A' <= c <= 'Z'
    ||| 'a' <= c <= 'z'
    ||| c == '_'
    ||| c == '-'
    ||| c == '.'
    ||| c == '%'
    ||| c == '~'
}

proof fn lemma_escaped(b: Seq<u8>, n: int)
    requires
        0 <= n <= b.len(),
    ensures
        forall|i: int| 0 <= i < escaped(b, n).len() ==> harmless(#[trigger] escaped(b, n)[i]),
        n <= escaped(b, n).len(),
        n > 0 ==> escaped(b, n)[0] != '.',
    decreases n,
{
    if n > 0 {
        lemma_escaped(b, n - 1);
        let p = escaped(b, n - 1);
        let e = escape(b[n - 1], n - 1);
        assert forall|i: int| 0 <= i < e.len() implies harmless(#[trigger] e[i]) by {}
        assert forall|i: int| 0 <= i < (p + e).len() implies harmless(#[trigger] (p + e)[i]) by {
            if i < p.len() {
                assert((p + e)[i] == p[i]);
            } else {
                assert((p + e)[i] == e[i - p.len()]);
            }
        }
        if n == 1 {
            assert(p.len() == 0);
            assert((p + e)[0] == e[0]);
        } else {
            assert((p + e)[0] == p[0]);
        }
    }
}

proof fn lemma_hex(n: int, k: int)
    requires
        0 <= k,
        0 <= n,
    ensures
        hex(n, k).len() == k,
        forall|i: int| 0 <= i < k ==> harmless(#[trigger] hex(n, k)[i]),
    decreases k,
{
    if k > 0 {
        lemma_hex(n / 16, k - 1);
    }
}

/// **Names cannot escape the directory**: whatever the collection is called, its file name is
/// neither empty nor a relative step, holds no separator, and fits a filesystem.
pub proof fn law_safe_name(name: Seq<char>)
    ensures
        0 < file_stem(name).len() <= 200,
        file_stem(name)[0] != '.',
        forall|i: int| 0 <= i < file_stem(name).len() ==> harmless(#[trigger] file_stem(name)[i]),
        forall|i: int|
            0 <= i < file_stem(name).len() ==> (#[trigger] file_stem(name)[i]) != '/'
                && file_stem(name)[i] != '\\',
{
    let b = encode_utf8(name);
    lemma_escaped(b, b.len() as int);
    lemma_hex(fnv_of(FNV_OFFSET, b) as int, 16);
    reveal_strlit("%00");
    let e = escaped(b, b.len() as int);
    let t = file_stem(name);
    if e.len() > 200 {
        assert(t.len() == 197);
        assert forall|i: int| 0 <= i < t.len() implies harmless(#[trigger] t[i]) by {
            if i < 180 {
                assert(t[i] == e[i]);
            } else if i == 180 {
                assert(t[i] == '~');
            } else {
                assert(t[i] == hex(fnv_of(FNV_OFFSET, b) as int, 16)[i - 181]);
            }
        }
        assert(t[0] == e[0]);
    } else if e.len() > 0 {
        assert(t == e);
    } else {
        assert(t.len() == 3);
        assert(t[0] == '%' && t[1] == '0' && t[2] == '0');
    }
}

/// What stands for the bytes of a name from the `i`-th on.
spec fn escaped_from(b: Seq<u8>, i: int) -> Seq<char>
    decreases b.len() - i,
{
    if i >= b.len() {
        seq![]
    } else {
        escape(b[i], i) + escaped_from(b, i + 1)
    }
}

proof fn lemma_from(b: Seq<u8>, n: int)
    requires
        0 <= n <= b.len(),
    ensures
        escaped(b, n) + escaped_from(b, n) == escaped_from(b, 0),
    decreases n,
{
    if n > 0 {
        lemma_from(b, n - 1);
        assert(escaped(b, n) + escaped_from(b, n) =~= escaped(b, n - 1) + escaped_from(b, n - 1));
    } else {
        assert(escaped(b, 0) + escaped_from(b, 0) =~= escaped_from(b, 0));
    }
}

/// Bytes that stand for the same are the same.
proof fn lemma_tell_apart(a: Seq<u8>, b: Seq<u8>, i: int)
    requires
        0 <= i <= a.len(),
        i <= b.len(),
        escaped_from(a, i) == escaped_from(b, i),
    ensures
        a.skip(i) == b.skip(i),
    decreases a.len() - i,
{
    let (x, y) = (escaped_from(a, i), escaped_from(b, i));
    if i == a.len() || i == b.len() {
        if i < a.len() {
            assert(x.len() > 0);
        }
        if i < b.len() {
            assert(y.len() > 0);
        }
        assert(a.skip(i) =~= b.skip(i));
    } else {
        let (e, f) = (escape(a[i], i), escape(b[i], i));
        let (p, q) = (escaped_from(a, i + 1), escaped_from(b, i + 1));
        assert(x[0] == e[0] && y[0] == f[0]);
        assert(a[i] == b[i]) by {
            if kept(a[i], i) {
                assert(e[0] != '%');
            } else {
                assert(e[0] == '%');
                assert(x[1] == e[1] && x[2] == e[2]);
            }
            if kept(b[i], i) {
                assert(f[0] != '%');
            } else {
                assert(f[0] == '%');
                assert(y[1] == f[1] && y[2] == f[2]);
            }
        }
        assert(p =~= x.skip(e.len() as int));
        assert(q =~= y.skip(f.len() as int));
        lemma_tell_apart(a, b, i + 1);
        assert(a.skip(i + 1).len() == b.skip(i + 1).len());
        assert forall|k: int| 0 <= k < a.skip(i).len() implies a.skip(i)[k] == b.skip(i)[k] by {
            if k > 0 {
                assert(a.skip(i)[k] == a.skip(i + 1)[k - 1]);
                assert(b.skip(i)[k] == b.skip(i + 1)[k - 1]);
            }
        }
        assert(a.skip(i) =~= b.skip(i));
    }
}

/// How long the file name would be if nothing were cut off.
pub open spec fn full_length(name: Seq<char>) -> int {
    escaped(encode_utf8(name), encode_utf8(name).len() as int).len() as int
}

/// A name that holds nothing but a null character.
pub open spec fn null_name(name: Seq<char>) -> bool {
    name.len() == 1 && name[0] as u32 == 0
}

/// The bytes of the name that a file name is made of: a null byte stands for the empty name.
spec fn stem_bytes(name: Seq<char>) -> Seq<u8> {
    if name.len() == 0 {
        seq![0u8]
    } else {
        encode_utf8(name)
    }
}

proof fn lemma_stem(name: Seq<char>)
    requires
        full_length(name) <= 200,
    ensures
        file_stem(name) == escaped_from(stem_bytes(name), 0),
{
    let x = encode_utf8(name);
    let n = x.len() as int;
    lemma_escaped(x, n);
    vstd::utf8::encode_utf8_decode_utf8(name);
    if n == 0 {
        assert(x =~= encode_utf8(seq![]));
        vstd::utf8::encode_utf8_decode_utf8(seq![]);
        assert(name =~= seq![]);
    }
    lemma_from(x, n);
    assert(escaped(x, n) + escaped_from(x, n) =~= escaped(x, n));
    if name.len() == 0 {
        let z = seq![0u8];
        assert(escaped_from(z, 1) =~= Seq::<char>::empty());
        reveal_strlit("%00");
        assert(escaped_from(z, 0) =~= "%00"@);
    }
}

/// **Distinct names get distinct files**, unless they are so long that they are cut off and
/// hashed. One pair is left out: the empty name is given the file of a null character.
pub proof fn law_distinct_names(a: Seq<char>, b: Seq<char>)
    requires
        !(a.len() == 0 && null_name(b)),
        !(b.len() == 0 && null_name(a)),
        full_length(a) <= 200,
        full_length(b) <= 200,
        file_stem(a) == file_stem(b),
    ensures
        a == b,
{
    let (x, y) = (stem_bytes(a), stem_bytes(b));
    lemma_stem(a);
    lemma_stem(b);
    lemma_tell_apart(x, y, 0);
    assert(x.skip(0) =~= x && y.skip(0) =~= y);
    vstd::utf8::encode_utf8_decode_utf8(a);
    vstd::utf8::encode_utf8_decode_utf8(b);
    if a.len() == 0 && b.len() > 0 {
        lemma_null(b);
    } else if b.len() == 0 && a.len() > 0 {
        lemma_null(a);
    } else if a.len() == 0 {
        assert(a =~= b);
    }
}

/// Only a null character is a null byte.
proof fn lemma_null(name: Seq<char>)
    requires
        encode_utf8(name) == seq![0u8],
    ensures
        null_name(name),
{
    vstd::utf8::encode_utf8_decode_utf8(name);
    vstd::utf8::encode_utf8_valid_utf8(name);
    let b = seq![0u8];
    assert(0u8 & 0x80 == 0 && 0u8 & 0x7F == 0) by (bit_vector);
    assert(vstd::utf8::is_leading_byte_width_1(b[0]));
    assert(vstd::utf8::decode_first_scalar(b) == 0);
    let rest = vstd::utf8::pop_first_scalar(b);
    assert(rest =~= Seq::<u8>::empty());
    assert(decode_utf8(rest) =~= Seq::<char>::empty());
    assert(decode_utf8(b) == seq![0u32 as char] + decode_utf8(rest));
    assert(name[0] == 0u32 as char);
}

} // verus!
