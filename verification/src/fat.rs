//! The file allocation table: how an entry is packed into the table's bytes,
//! and the manager that reads and writes entries on the drive, keeps every
//! copy of the table in step and tracks the number of free clusters.

use vstd::prelude::*;
use crate::bytes::{get_le16, get_le32, le16, le16_bytes, le32, le32_bytes, overlay};
use crate::diskio::{flat, Drive, FatfsDiskHandler};
use crate::error::FsError;
use crate::region::{lemma_flat_same, read_run, write_run};
use crate::volume::{table_bytes, FatType, Geometry};

verus! {

/// The bytes that one entry occupies, or shares with its neighbour.
pub open spec fn entry_width(t: FatType) -> int {
    match t {
        FatType::Fat32 => 4,
        _ => 2,
    }
}

/// The offset in the table of the bytes that hold entry `n`.
pub open spec fn entry_offset(t: FatType, n: int) -> int {
    match t {
        FatType::Fat12 => n + n / 2,
        FatType::Fat16 => 2 * n,
        FatType::Fat32 => 4 * n,
    }
}

/// The largest value that an entry can hold, which also marks the end of a
/// chain.
pub open spec fn entry_max(t: FatType) -> int {
    match t {
        FatType::Fat12 => 0xFFF,
        FatType::Fat16 => 0xFFFF,
        FatType::Fat32 => 0x0FFF_FFFF,
    }
}

/// `v` marks the end of a chain.
pub open spec fn is_end(t: FatType, v: int) -> bool {
    v >= entry_max(t) - 7
}

/// The value of entry `n`, given the bytes `raw` at the entry's offset.
///
/// A 12-bit entry is the low or the high 12 bits of its two bytes, as `n`
/// is even or odd. The top four bits of a 32-bit entry are not part of its
/// value.
pub open spec fn decode_entry(t: FatType, raw: Seq<u8>, n: int) -> int {
    match t {
        FatType::Fat12 => if n % 2 == 1 {
            le16(raw, 0) / 16
        } else {
            le16(raw, 0) % 4096
        },
        FatType::Fat16 => le16(raw, 0),
        FatType::Fat32 => le32(raw, 0) % 0x1000_0000,
    }
}

/// The bytes at the offset of entry `n` once the entry holds `v`, where they
/// were `raw` before. The bits that do not belong to the entry stay.
pub open spec fn encode_entry(t: FatType, raw: Seq<u8>, n: int, v: int) -> Seq<u8> {
    match t {
        FatType::Fat12 => if n % 2 == 1 {
            seq![(raw[0] % 16 + (v % 16) * 16) as u8, (v / 16) as u8]
        } else {
            seq![(v % 256) as u8, ((raw[1] / 16) * 16 + v / 256) as u8]
        },
        FatType::Fat16 => le16_bytes(v),
        FatType::Fat32 => le32_bytes(v + (le32(raw, 0) / 0x1000_0000) * 0x1000_0000),
    }
}

/// The bytes of the table `arena` at the offset of entry `n`.
pub open spec fn entry_raw(t: FatType, arena: Seq<u8>, n: int) -> Seq<u8> {
    arena.subrange(entry_offset(t, n), entry_offset(t, n) + entry_width(t))
}

/// The value of entry `n` of the table whose bytes are `arena`.
pub open spec fn entry_in(t: FatType, arena: Seq<u8>, n: int) -> int {
    decode_entry(t, entry_raw(t, arena, n), n)
}

/// The bytes of the table once entry `n` holds `v`.
pub open spec fn put_entry(t: FatType, arena: Seq<u8>, n: int, v: int) -> Seq<u8> {
    overlay(arena, entry_offset(t, n), encode_entry(t, entry_raw(t, arena, n), n, v))
}

/// The bytes of an entry lie within a table that has room for it.
pub proof fn lemma_entry_within(t: FatType, entries: int, n: int)
    requires
        0 <= n < entries,
    ensures
        0 <= entry_offset(t, n),
        entry_offset(t, n) + entry_width(t) <= table_bytes(t, entries),
{
}

/// An entry holds a value that is at most the largest of its width.
pub proof fn lemma_entry_bound(t: FatType, arena: Seq<u8>, n: int)
    requires
        0 <= n,
        entry_offset(t, n) + entry_width(t) <= arena.len(),
    ensures
        0 <= entry_in(t, arena, n) <= entry_max(t),
{
}

/// Setting the low 12 bits of a byte pair: the pair then holds `v`, and the
/// high nibble of its second byte, which belongs to the next entry, stays.
proof fn lemma_low_bits(b1: int, b2: int, v: int)
    requires
        0 <= b1 < 256,
        0 <= b2 < 256,
        0 <= v < 4096,
    ensures
        0 <= v % 256 < 256,
        0 <= (b1 / 16) * 16 + v / 256 < 256,
        (v % 256 + 256 * ((b1 / 16) * 16 + v / 256)) % 4096 == v,
        ((b1 / 16) * 16 + v / 256 + 256 * b2) / 16 == (b1 + 256 * b2) / 16,
{
    let h = b1 / 16;
    let l = b1 % 16;
    let q = v / 256;
    let r = v % 256;
    assert(b1 == 16 * h + l && 0 <= l < 16 && 0 <= h < 16);
    assert(v == 256 * q + r && 0 <= r < 256 && 0 <= q < 16);
    assert(r + 256 * (h * 16 + q) == v + 4096 * h);
    assert((v + 4096 * h) % 4096 == v) by (nonlinear_arith)
        requires
            0 <= v < 4096,
    ;
    assert((h * 16 + q + 256 * b2) == 16 * (h + 16 * b2) + q);
    assert((16 * (h + 16 * b2) + q) / 16 == h + 16 * b2) by (nonlinear_arith)
        requires
            0 <= q < 16,
    ;
    assert(b1 + 256 * b2 == 16 * (h + 16 * b2) + l);
    assert((16 * (h + 16 * b2) + l) / 16 == h + 16 * b2) by (nonlinear_arith)
        requires
            0 <= l < 16,
    ;
}

/// Setting the high 12 bits of a byte pair: the pair then holds `v`, and the
/// low nibble of its first byte, which belongs to the entry before, stays.
proof fn lemma_high_bits(bm: int, b0: int, v: int)
    requires
        0 <= bm < 256,
        0 <= b0 < 256,
        0 <= v < 4096,
    ensures
        0 <= b0 % 16 + (v % 16) * 16 < 256,
        0 <= v / 16 < 256,
        (b0 % 16 + (v % 16) * 16 + 256 * (v / 16)) / 16 == v,
        (bm + 256 * (b0 % 16 + (v % 16) * 16)) % 4096 == (bm + 256 * b0) % 4096,
{
    let h = b0 / 16;
    let l = b0 % 16;
    let q = v / 16;
    let r = v % 16;
    assert(b0 == 16 * h + l && 0 <= l < 16 && 0 <= h < 16);
    assert(v == 16 * q + r && 0 <= r < 16 && 0 <= q < 256);
    assert(l + r * 16 + 256 * q == 16 * v + l);
    assert((16 * v + l) / 16 == v) by (nonlinear_arith)
        requires
            0 <= l < 16,
    ;
    let x = bm + 256 * l;
    assert(0 <= x < 4096);
    assert(bm + 256 * (l + r * 16) == x + 4096 * r);
    assert(bm + 256 * b0 == x + 4096 * h);
    assert((x + 4096 * r) % 4096 == x) by (nonlinear_arith)
        requires
            0 <= x < 4096,
    ;
    assert((x + 4096 * h) % 4096 == x) by (nonlinear_arith)
        requires
            0 <= x < 4096,
    ;
}

/// Setting the low 28 bits of a 32-bit number keeps its top four bits.
proof fn lemma_low_28(w: int, v: int)
    requires
        0 <= w < 0x1_0000_0000,
        0 <= v < 0x1000_0000,
    ensures
        0 <= v + (w / 0x1000_0000) * 0x1000_0000 < 0x1_0000_0000,
        (v + (w / 0x1000_0000) * 0x1000_0000) % 0x1000_0000 == v,
{
}

/// `lemma_put_entry` for 12-bit entries.
proof fn lemma_put_entry_12(arena: Seq<u8>, entries: int, n: int, v: int, m: int)
    requires
        0 <= n < entries,
        0 <= m < entries,
        table_bytes(FatType::Fat12, entries) <= arena.len(),
        0 <= v <= 0xFFF,
    ensures
        entry_in(FatType::Fat12, put_entry(FatType::Fat12, arena, n, v), m) == if m == n {
            v
        } else {
            entry_in(FatType::Fat12, arena, m)
        },
{
    let t = FatType::Fat12;
    lemma_entry_within(t, entries, n);
    lemma_entry_within(t, entries, m);
    let on = n + n / 2;
    let om = m + m / 2;
    let raw = entry_raw(t, arena, n);
    let enc = encode_entry(t, raw, n, v);
    let after = overlay(arena, on, enc);
    assert(after == put_entry(t, arena, n, v));
    let got = entry_raw(t, after, m);
    let was = entry_raw(t, arena, m);
    assert(raw[0] == arena[on] && raw[1] == arena[on + 1]);
    assert(got[0] == after[om] && got[1] == after[om + 1]);
    assert(was[0] == arena[om] && was[1] == arena[om + 1]);
    let x0 = arena[on] as int;
    let x1 = arena[on + 1] as int;
    if n % 2 == 0 {
        lemma_low_bits(x1, 0, v);
        assert(enc[0] == v % 256 && enc[1] == (x1 / 16) * 16 + v / 256);
        if m == n {
        } else if m == n + 1 {
            assert(om == on + 1);
            lemma_low_bits(x1, arena[on + 2] as int, v);
            assert(after[om] == enc[1] && after[om + 1] == arena[om + 1]);
        } else if m > n {
            assert(om >= on + 2);
        } else {
            assert(om + 2 <= on);
        }
    } else {
        lemma_high_bits(0, x0, v);
        assert(enc[0] == x0 % 16 + (v % 16) * 16 && enc[1] == v / 16);
        if m == n {
        } else if m == n - 1 {
            assert(om == on - 1);
            lemma_high_bits(arena[on - 1] as int, x0, v);
            assert(after[om] == arena[om] && after[om + 1] == enc[0]);
        } else if m > n {
            assert(om >= on + 2);
        } else {
            assert(om + 2 <= on);
        }
    }
}

/// `lemma_put_entry` for 16-bit entries.
proof fn lemma_put_entry_16(arena: Seq<u8>, entries: int, n: int, v: int, m: int)
    requires
        0 <= n < entries,
        0 <= m < entries,
        table_bytes(FatType::Fat16, entries) <= arena.len(),
        0 <= v <= 0xFFFF,
    ensures
        entry_in(FatType::Fat16, put_entry(FatType::Fat16, arena, n, v), m) == if m == n {
            v
        } else {
            entry_in(FatType::Fat16, arena, m)
        },
{
    let t = FatType::Fat16;
    let on = 2 * n;
    let om = 2 * m;
    let enc = le16_bytes(v);
    let after = overlay(arena, on, enc);
    assert(after == put_entry(t, arena, n, v));
    let got = entry_raw(t, after, m);
    let was = entry_raw(t, arena, m);
    assert(got[0] == after[om] && got[1] == after[om + 1]);
    assert(was[0] == arena[om] && was[1] == arena[om + 1]);
}

/// `lemma_put_entry` for 32-bit entries.
proof fn lemma_put_entry_32(arena: Seq<u8>, entries: int, n: int, v: int, m: int)
    requires
        0 <= n < entries,
        0 <= m < entries,
        table_bytes(FatType::Fat32, entries) <= arena.len(),
        0 <= v <= 0x0FFF_FFFF,
    ensures
        entry_in(FatType::Fat32, put_entry(FatType::Fat32, arena, n, v), m) == if m == n {
            v
        } else {
            entry_in(FatType::Fat32, arena, m)
        },
{
    let t = FatType::Fat32;
    let on = 4 * n;
    let om = 4 * m;
    let raw = entry_raw(t, arena, n);
    let w = le32(raw, 0);
    let stored = v + (w / 0x1000_0000) * 0x1000_0000;
    lemma_low_28(w, v);
    let enc = le32_bytes(stored);
    let after = overlay(arena, on, enc);
    assert(after == put_entry(t, arena, n, v));
    let got = entry_raw(t, after, m);
    let was = entry_raw(t, arena, m);
    assert(got[0] == after[om] && got[1] == after[om + 1] && got[2] == after[om + 2] && got[3]
        == after[om + 3]);
    assert(was[0] == arena[om] && was[1] == arena[om + 1] && was[2] == arena[om + 2] && was[3]
        == arena[om + 3]);
    if m == n {
        assert(got =~= enc);
        crate::bytes::lemma_le32_of_bytes(stored);
    } else {
        assert(got =~= was);
    }
}

/// After entry `n` was set to `v`, it holds `v`, and every other entry holds
/// what it held.
pub proof fn lemma_put_entry(t: FatType, arena: Seq<u8>, entries: int, n: int, v: int, m: int)
    requires
        0 <= n < entries,
        0 <= m < entries,
        table_bytes(t, entries) <= arena.len(),
        0 <= v <= entry_max(t),
    ensures
        put_entry(t, arena, n, v).len() == arena.len(),
        entry_in(t, put_entry(t, arena, n, v), m) == if m == n {
            v
        } else {
            entry_in(t, arena, m)
        },
{
    match t {
        FatType::Fat12 => lemma_put_entry_12(arena, entries, n, v, m),
        FatType::Fat16 => lemma_put_entry_16(arena, entries, n, v, m),
        FatType::Fat32 => lemma_put_entry_32(arena, entries, n, v, m),
    }
}

/// The number of entries of `table` among those numbered 2 to `upto - 1`
/// that are 0, which marks a free cluster.
pub open spec fn count_free(table: Seq<u32>, upto: int) -> int
    decreases upto,
{
    if upto <= 2 {
        0
    } else {
        count_free(table, upto - 1) + if table[upto - 1] == 0 {
            1int
        } else {
            0int
        }
    }
}

/// The number of free clusters that `table` records.
pub open spec fn free_clusters(table: Seq<u32>) -> int {
    count_free(table, table.len() as int)
}

/// At most every cluster is free.
pub proof fn lemma_count_free_bound(table: Seq<u32>, upto: int)
    requires
        2 <= upto,
    ensures
        0 <= count_free(table, upto) <= upto - 2,
    decreases upto,
{
    if upto > 2 {
        lemma_count_free_bound(table, upto - 1);
    }
}

/// Setting one entry moves the number of free clusters by one, or not at
/// all: up when a used entry becomes 0, down when a free entry is taken.
pub proof fn lemma_count_free_update(table: Seq<u32>, upto: int, n: int, v: u32)
    requires
        2 <= n < table.len(),
        2 <= upto <= table.len(),
    ensures
        count_free(table.update(n, v), upto) == count_free(table, upto) + if n < upto {
            (if v == 0 {
                1int
            } else {
                0int
            }) - (if table[n] == 0 {
                1int
            } else {
                0int
            })
        } else {
            0int
        },
    decreases upto,
{
    if upto > 2 {
        lemma_count_free_update(table, upto - 1, n, v);
    }
}

impl Geometry {
    /// The first sector of copy `copy` of the table.
    pub open spec fn copy_start(self, copy: int) -> int {
        self.fat_start + copy * self.fat_size
    }

    /// The bytes of copy `copy` of the table on `disk`.
    pub open spec fn arena(self, disk: Seq<Seq<u8>>, copy: int) -> Seq<u8> {
        flat(disk, self.copy_start(copy), self.fat_size as int)
    }

    /// The value of entry `n` in copy `copy` of the table on `disk`.
    pub open spec fn entry(self, disk: Seq<Seq<u8>>, copy: int, n: int) -> int {
        entry_in(self.fat_type, self.arena(disk, copy), n)
    }

    /// The table that `disk` holds: the entries of its first copy.
    pub open spec fn table(self, disk: Seq<Seq<u8>>) -> Seq<u32> {
        Seq::new(self.entries() as nat, |n: int| self.entry(disk, 0, n) as u32)
    }

    /// Copy `copy` of the table holds, byte for byte, the entries that the
    /// first copy holds.
    pub open spec fn mirrored(self, disk: Seq<Seq<u8>>, copy: int) -> bool {
        let used = table_bytes(self.fat_type, self.entries());
        self.arena(disk, copy).subrange(0, used) == self.arena(disk, 0).subrange(0, used)
    }

    /// Sector `i` belongs to one of the copies of the table.
    pub open spec fn in_tables(self, i: int) -> bool {
        self.fat_start <= i < self.root_start
    }

    /// The value that ends a chain.
    pub open spec fn end_mark(self) -> u32 {
        entry_max(self.fat_type) as u32
    }

    /// Each copy of the table lies between the reserved sectors and the
    /// root directory, and holds the bytes of every entry.
    pub proof fn lemma_copy_bounds(self, copy: int)
        requires
            self.wf(),
            0 <= copy < self.fat_count,
        ensures
            self.fat_start <= self.copy_start(copy),
            self.copy_start(copy) + self.fat_size <= self.root_start,
            self.root_start <= self.end(),
            table_bytes(self.fat_type, self.entries()) <= self.fat_size * self.bytes_per_sector,
            table_bytes(self.fat_type, self.entries()) <= 0x4000_0000,
    {
        assert(0 <= copy * self.fat_size && copy * self.fat_size + self.fat_size <= self.fat_count
            * self.fat_size) by (nonlinear_arith)
            requires
                0 <= copy < self.fat_count,
                0 <= self.fat_size,
        ;
        assert(0 <= self.cluster_count * self.sectors_per_cluster) by (nonlinear_arith);
    }

    /// A disk that differs from another only outside the tables holds the
    /// same tables.
    pub proof fn lemma_tables_kept(self, a: Seq<Seq<u8>>, b: Seq<Seq<u8>>)
        requires
            self.wf(),
            forall|i: int| self.in_tables(i) ==> a[i] == b[i],
        ensures
            forall|copy: int|
                0 <= copy < self.fat_count ==> #[trigger] self.arena(a, copy) == self.arena(
                    b,
                    copy,
                ),
            self.table(a) == self.table(b),
    {
        assert forall|copy: int| 0 <= copy < self.fat_count implies #[trigger] self.arena(a, copy)
            == self.arena(b, copy) by {
            self.lemma_copy_bounds(copy);
            lemma_flat_same(a, b, self.copy_start(copy), self.fat_size as int);
        }
        assert(self.arena(a, 0) == self.arena(b, 0));
        assert(self.table(a) =~= self.table(b));
    }
}

/// Every copy of the table that holds on `before` what the first copy
/// holds does so on `after`: a change of the table has reached every copy.
pub open spec fn mirrors_kept(g: Geometry, before: Seq<Seq<u8>>, after: Seq<Seq<u8>>) -> bool {
    forall|copy: int|
        0 <= copy < g.fat_count && g.mirrored(before, copy) ==> #[trigger] g.mirrored(after, copy)
}

/// Copies that were kept alike twice were kept alike.
pub proof fn lemma_mirrors_twice(g: Geometry, a: Seq<Seq<u8>>, b: Seq<Seq<u8>>, c: Seq<Seq<u8>>)
    requires
        mirrors_kept(g, a, b),
        mirrors_kept(g, b, c),
    ensures
        mirrors_kept(g, a, c),
{
    assert forall|copy: int| 0 <= copy < g.fat_count && g.mirrored(a, copy) implies #[trigger] g.mirrored(
        c,
        copy,
    ) by {
        assert(g.mirrored(b, copy));
    }
}

/// A drive that has changed only outside the tables has kept the copies of
/// the table alike.
pub proof fn lemma_mirrors_same(g: Geometry, a: Drive, b: Drive, touched: spec_fn(int) -> bool)
    requires
        g.wf(),
        g.fits(a),
        a.same_but(b, touched),
        forall|i: int| g.in_tables(i) ==> !#[trigger] touched(i),
    ensures
        mirrors_kept(g, a.sectors, b.sectors),
        g.table(a.sectors) == g.table(b.sectors),
{
    g.lemma_copy_bounds(0);
    assert forall|i: int| g.in_tables(i) implies a.sectors[i] == b.sectors[i] by {
        assert(!touched(i));
    }
    g.lemma_tables_kept(a.sectors, b.sectors);
    assert forall|copy: int|
        0 <= copy < g.fat_count && g.mirrored(a.sectors, copy) implies #[trigger] g.mirrored(
        b.sectors,
        copy,
    ) by {
        assert(g.arena(a.sectors, copy) == g.arena(b.sectors, copy));
        assert(g.arena(a.sectors, 0) == g.arena(b.sectors, 0));
    }
}

/// A mounted volume: its geometry, the drive that holds it, and what the
/// table manager remembers between operations.
#[derive(Clone, Copy, Debug)]
pub struct Volume {
    pub geom: Geometry,
    /// The number of the drive that holds the volume.
    pub pdrv: u8,
    /// The number of free clusters, where it is known.
    pub free: Option<u32>,
    /// The cluster at which the search for a free cluster begins.
    pub cursor: u32,
    /// The medium was write protected when the volume was mounted.
    pub read_only: bool,
}

impl Volume {
    /// The geometry is well formed and the search cursor names a cluster.
    pub open spec fn wf(self) -> bool {
        &&& self.geom.wf()
        &&& self.geom.holds(self.cursor as int)
    }

    /// The volume lies on drive `d`, and the number of free clusters, where
    /// the volume remembers one, is the number that the table on `d` gives.
    pub open spec fn on(self, d: Drive) -> bool {
        &&& self.wf()
        &&& d.wf()
        &&& self.geom.fits(d)
        &&& self.free matches Some(k) ==> k == free_clusters(self.geom.table(d.sectors))
    }

    /// The volume for a geometry, with nothing remembered yet.
    pub fn new(geom: Geometry, pdrv: u8, read_only: bool) -> (vol: Volume)
        requires
            geom.wf(),
        ensures
            vol.wf(),
            vol.geom == geom,
            vol.pdrv == pdrv,
            vol.free is None,
            vol.cursor == 2,
            vol.read_only == read_only,
    {
        Volume { geom, pdrv, free: None, cursor: 2, read_only }
    }
}

/// The value of an entry, decoded from the bytes at its offset.
fn decode(t: FatType, raw: &Vec<u8>, n: u32) -> (v: u32)
    requires
        raw.len() == entry_width(t),
    ensures
        v == decode_entry(t, raw@, n as int),
        v <= entry_max(t),
{
    match t {
        FatType::Fat12 => {
            let w = get_le16(raw, 0);
            if n % 2 == 1 {
                (w / 16) as u32
            } else {
                (w % 4096) as u32
            }
        },
        FatType::Fat16 => get_le16(raw, 0) as u32,
        FatType::Fat32 => get_le32(raw, 0) % 0x1000_0000,
    }
}

/// The bytes at the offset of an entry once it holds `v`.
fn encode(t: FatType, raw: &Vec<u8>, n: u32, v: u32) -> (out: Vec<u8>)
    requires
        raw.len() == entry_width(t),
        v <= entry_max(t),
    ensures
        out@ == encode_entry(t, raw@, n as int, v as int),
        out.len() == entry_width(t),
{
    let mut out: Vec<u8> = Vec::new();
    match t {
        FatType::Fat12 => {
            if n % 2 == 1 {
                out.push(raw[0] % 16 + ((v % 16) * 16) as u8);
                out.push((v / 16) as u8);
            } else {
                out.push((v % 256) as u8);
                out.push((raw[1] / 16) * 16 + (v / 256) as u8);
            }
        },
        FatType::Fat16 => {
            out.push((v % 256) as u8);
            out.push((v / 256 % 256) as u8);
        },
        FatType::Fat32 => {
            let kept: u32 = get_le32(raw, 0) / 0x1000_0000;
            let w: u32 = v + kept * 0x1000_0000;
            out.push((w % 256) as u8);
            out.push((w / 256 % 256) as u8);
            out.push((w / 65536 % 256) as u8);
            out.push((w / 16777216 % 256) as u8);
        },
    }
    assert(out@ =~= encode_entry(t, raw@, n as int, v as int));
    out
}

/// The offset in the table of the bytes of entry `n`.
fn offset_of(t: FatType, n: u32) -> (off: u32)
    requires
        n <= 0x1000_0000,
    ensures
        off == entry_offset(t, n as int),
{
    match t {
        FatType::Fat12 => n + n / 2,
        FatType::Fat16 => 2 * n,
        FatType::Fat32 => 4 * n,
    }
}

/// The width in bytes of what is read and written for one entry.
fn width_of(t: FatType) -> (w: u32)
    ensures
        w == entry_width(t),
{
    match t {
        FatType::Fat32 => 4,
        _ => 2,
    }
}

/// What `get_next` answers on a dependable drive: the entry of `cluster`
/// in the first copy of the table, or `InvalidParameter` where `cluster` is
/// not a cluster of the data region.
pub open spec fn next_of(g: Geometry, disk: Seq<Seq<u8>>, cluster: u32) -> Result<u32, FsError> {
    if g.holds(cluster as int) {
        Ok(g.table(disk)[cluster as int])
    } else {
        Err(FsError::InvalidParameter)
    }
}

/// Reads the entry of `cluster`: the next cluster of its chain, or a marker.
///
/// The drive is left as it is. On a drive that is not dependable the answer
/// may instead be the error of a failed read.
pub fn get_next<H: FatfsDiskHandler>(vol: &Volume, dev: &mut H, cluster: u32) -> (res: Result<
    u32,
    FsError,
>)
    requires
        old(dev).inv(),
        vol.on(old(dev).drive(vol.pdrv)),
    ensures
        final(dev).inv(),
        final(dev).drive(vol.pdrv) == old(dev).drive(vol.pdrv),
        res == next_of(vol.geom, old(dev).drive(vol.pdrv).sectors, cluster) || (!old(dev).drive(
            vol.pdrv,
        ).dependable && res is Err && res->Err_0.is_device()),
        res is Ok ==> res->Ok_0 <= entry_max(vol.geom.fat_type),
{
    let g = &vol.geom;
    if cluster < 2 || cluster - 2 >= g.cluster_count {
        return Err(FsError::InvalidParameter);
    }
    let t = g.fat_type;
    let off = offset_of(t, cluster);
    let width = width_of(t);
    proof {
        g.lemma_copy_bounds(0);
        lemma_entry_within(t, g.entries(), cluster as int);
    }
    match read_run(dev, vol.pdrv, g.bytes_per_sector, g.fat_start, g.fat_size, off, width) {
        Err(e) => Err(e),
        Ok(raw) => {
            assert(raw@ == entry_raw(t, g.arena(old(dev).drive(vol.pdrv).sectors, 0), cluster as int));
            Ok(decode(t, &raw, cluster))
        },
    }
}

/// What `set_next` leaves on the drive when it succeeds: in every copy of
/// the table the bytes of the entry hold `value`, with the other bits as
/// the first copy had them, and nothing else has changed.
pub open spec fn entry_set(
    g: Geometry,
    before: Seq<Seq<u8>>,
    after: Seq<Seq<u8>>,
    cluster: int,
    value: int,
) -> bool {
    let t = g.fat_type;
    let bytes = encode_entry(t, entry_raw(t, g.arena(before, 0), cluster), cluster, value);
    forall|copy: int|
        0 <= copy < g.fat_count ==> #[trigger] g.arena(after, copy) == overlay(
            g.arena(before, copy),
            entry_offset(t, cluster),
            bytes,
        )
}

/// After a successful `set_next` the table holds `value` for `cluster` and
/// is otherwise unchanged, and a copy that mirrored the first still does.
pub proof fn lemma_entry_set(
    g: Geometry,
    before: Seq<Seq<u8>>,
    after: Seq<Seq<u8>>,
    cluster: int,
    value: int,
)
    requires
        g.wf(),
        g.holds(cluster),
        0 <= value <= entry_max(g.fat_type),
        entry_set(g, before, after, cluster, value),
        forall|copy: int|
            0 <= copy < g.fat_count ==> (#[trigger] g.arena(before, copy)).len() == g.fat_size
                * g.bytes_per_sector,
    ensures
        g.table(after) == g.table(before).update(cluster, value as u32),
        forall|copy: int|
            0 <= copy < g.fat_count && g.mirrored(before, copy) ==> #[trigger] g.mirrored(
                after,
                copy,
            ),
{
    let t = g.fat_type;
    let n = g.entries();
    let used = table_bytes(t, n);
    let a0 = g.arena(before, 0);
    let off = entry_offset(t, cluster);
    let bytes = encode_entry(t, entry_raw(t, a0, cluster), cluster, value);
    g.lemma_copy_bounds(0);
    lemma_entry_within(t, n, cluster);
    assert(g.arena(after, 0) == put_entry(t, a0, cluster, value));
    assert forall|m: int| 0 <= m < n implies g.table(after)[m] == g.table(before).update(
        cluster,
        value as u32,
    )[m] by {
        lemma_put_entry(t, a0, n, cluster, value, m);
        lemma_entry_within(t, n, m);
        lemma_entry_bound(t, a0, m);
    }
    assert(g.table(after) =~= g.table(before).update(cluster, value as u32));
    assert forall|copy: int| 0 <= copy < g.fat_count && g.mirrored(before, copy) implies #[trigger] g.mirrored(
        after,
        copy,
    ) by {
        g.lemma_copy_bounds(copy);
        let ac = g.arena(before, copy);
        assert(g.arena(after, copy) == overlay(ac, off, bytes));
        assert(ac.len() == a0.len());
        assert forall|k: int| 0 <= k < used implies overlay(ac, off, bytes)[k] == overlay(
            a0,
            off,
            bytes,
        )[k] by {
            assert(ac.subrange(0, used)[k] == a0.subrange(0, used)[k]);
        }
        assert(g.arena(after, copy).subrange(0, used) =~= g.arena(after, 0).subrange(0, used));
    }
}

/// A copy of the table that mirrors the first holds the same entries.
pub proof fn lemma_mirrored_entries(g: Geometry, disk: Seq<Seq<u8>>, copy: int, n: int)
    requires
        g.wf(),
        0 <= copy < g.fat_count,
        g.mirrored(disk, copy),
        0 <= n < g.entries(),
        g.arena(disk, copy).len() == g.fat_size * g.bytes_per_sector,
        g.arena(disk, 0).len() == g.fat_size * g.bytes_per_sector,
    ensures
        g.entry(disk, copy, n) == g.entry(disk, 0, n),
{
    let t = g.fat_type;
    let used = table_bytes(t, g.entries());
    g.lemma_copy_bounds(copy);
    lemma_entry_within(t, g.entries(), n);
    let a = g.arena(disk, copy);
    let b = g.arena(disk, 0);
    let off = entry_offset(t, n);
    assert forall|k: int| 0 <= k < used implies a[k] == b[k] by {
        assert(a.subrange(0, used)[k] == b.subrange(0, used)[k]);
    }
    assert(entry_raw(t, a, n) =~= entry_raw(t, b, n));
}

impl Geometry {
    /// The copies of the table follow one another without overlap.
    pub proof fn lemma_copies_apart(self, a: int, b: int)
        requires
            self.wf(),
            0 <= a < b,
        ensures
            self.copy_start(a) + self.fat_size <= self.copy_start(b),
    {
        assert(a * self.fat_size + self.fat_size <= b * self.fat_size) by (nonlinear_arith)
            requires
                0 <= a < b,
                0 <= self.fat_size,
        ;
    }
}

/// What `set_next` answers on a dependable drive: `WriteProtected` on a
/// volume that was mounted from a protected medium, `InvalidParameter`
/// where `cluster` is not a cluster of the data region or `value` is too
/// large for an entry, and success otherwise.
pub open spec fn set_next_answer(vol: Volume, cluster: u32, value: u32) -> Result<(), FsError> {
    if vol.read_only {
        Err(FsError::WriteProtected)
    } else if !vol.geom.holds(cluster as int) || value > entry_max(vol.geom.fat_type) {
        Err(FsError::InvalidParameter)
    } else {
        Ok(())
    }
}

/// The volume remembers what it did before, but perhaps another number of
/// free clusters and another search cursor.
pub open spec fn same_volume(a: Volume, b: Volume) -> bool {
    a.geom == b.geom && a.pdrv == b.pdrv && a.read_only == b.read_only
}

/// Sets the entry of `cluster` to `value` in every copy of the table.
///
/// The first copy is written first, then each mirror takes the same bytes,
/// so that a copy that mirrored the first still does.
/// Only sectors of the tables change. The number of free clusters that the
/// volume remembers follows the change; it is forgotten when a write fails,
/// since the copies may then differ. Where the answer of a dependable drive
/// would be an error, nothing is written at all.
pub fn set_next<H: FatfsDiskHandler>(vol: &mut Volume, dev: &mut H, cluster: u32, value: u32) -> (res:
    Result<(), FsError>)
    requires
        old(dev).inv(),
        old(vol).on(old(dev).drive(old(vol).pdrv)),
    ensures
        final(dev).inv(),
        same_volume(*old(vol), *final(vol)),
        final(vol).cursor == old(vol).cursor,
        final(vol).on(final(dev).drive(old(vol).pdrv)),
        old(dev).drive(old(vol).pdrv).same_but(
            final(dev).drive(old(vol).pdrv),
            |i: int| old(vol).geom.in_tables(i),
        ),
        res == set_next_answer(*old(vol), cluster, value) || (!old(dev).drive(
            old(vol).pdrv,
        ).dependable && res is Err && res->Err_0.is_device()),
        set_next_answer(*old(vol), cluster, value) is Err ==> final(dev).drive(old(vol).pdrv) == old(
            dev,
        ).drive(old(vol).pdrv) && *final(vol) == *old(vol),
        res is Ok || old(dev).drive(old(vol).pdrv).dependable ==> mirrors_kept(
            old(vol).geom,
            old(dev).drive(old(vol).pdrv).sectors,
            final(dev).drive(old(vol).pdrv).sectors,
        ),
        res is Ok ==> entry_set(
            old(vol).geom,
            old(dev).drive(old(vol).pdrv).sectors,
            final(dev).drive(old(vol).pdrv).sectors,
            cluster as int,
            value as int,
        ) && old(vol).geom.table(final(dev).drive(old(vol).pdrv).sectors) == old(vol).geom.table(
            old(dev).drive(old(vol).pdrv).sectors,
        ).update(cluster as int, value) && (old(vol).free is Some ==> final(vol).free is Some)
            && forall|copy: int|
            0 <= copy < old(vol).geom.fat_count && old(vol).geom.mirrored(
                old(dev).drive(old(vol).pdrv).sectors,
                copy,
            ) ==> #[trigger] old(vol).geom.mirrored(final(dev).drive(old(vol).pdrv).sectors, copy),
{
    let g = vol.geom;
    let pdrv = vol.pdrv;
    let ghost d0 = old(dev).drive(pdrv);
    if vol.read_only {
        assert(d0.same_but(d0, |i: int| g.in_tables(i)));
        return Err(FsError::WriteProtected);
    }
    let t = g.fat_type;
    let max: u32 = match t {
        FatType::Fat12 => 0xFFF,
        FatType::Fat16 => 0xFFFF,
        FatType::Fat32 => 0x0FFF_FFFF,
    };
    if cluster < 2 || cluster - 2 >= g.cluster_count || value > max {
        assert(d0.same_but(d0, |i: int| g.in_tables(i)));
        return Err(FsError::InvalidParameter);
    }
    let off = offset_of(t, cluster);
    let width = width_of(t);
    proof {
        g.lemma_copy_bounds(0);
        lemma_entry_within(t, g.entries(), cluster as int);
    }
    let raw = match read_run(dev, pdrv, g.bytes_per_sector, g.fat_start, g.fat_size, off, width) {
        Err(e) => {
            assert(d0.same_but(d0, |i: int| g.in_tables(i)));
            return Err(e);
        },
        Ok(raw) => raw,
    };
    assert(raw@ == entry_raw(t, g.arena(d0.sectors, 0), cluster as int));
    let was = decode(t, &raw, cluster);
    let bytes = encode(t, &raw, cluster, value);
    assert(d0.same_but(d0, |i: int| g.in_tables(i)));
    let mut copy: u32 = 0;
    while copy < g.fat_count
        invariant
            copy <= g.fat_count,
            dev.inv(),
            g == old(vol).geom,
            pdrv == old(vol).pdrv,
            *vol == *old(vol),
            d0 == old(dev).drive(pdrv),
            old(vol).on(d0),
            set_next_answer(*old(vol), cluster, value) is Ok,
            t == g.fat_type,
            g.holds(cluster as int),
            off == entry_offset(t, cluster as int),
            bytes.len() == entry_width(t),
            d0.same_but(dev.drive(pdrv), |i: int| g.in_tables(i)),
            forall|c: int|
                0 <= c < g.fat_count ==> #[trigger] g.arena(dev.drive(pdrv).sectors, c) == if c
                    < copy {
                    overlay(g.arena(d0.sectors, c), off as int, bytes@)
                } else {
                    g.arena(d0.sectors, c)
                },
        decreases g.fat_count - copy,
    {
        let ghost cur = dev.drive(pdrv);
        proof {
            g.lemma_copy_bounds(copy as int);
            lemma_entry_within(t, g.entries(), cluster as int);
        }
        let start: u32 = g.fat_start + copy * g.fat_size;
        match write_run(dev, pdrv, g.bytes_per_sector, start, g.fat_size, off, &bytes) {
            Err(e) => {
                vol.free = None;
                proof {
                    dev.inv_shape(pdrv);
                }
                return Err(e);
            },
            Ok(_) => {
                proof {
                    let now = dev.drive(pdrv);
                    assert forall|c: int| 0 <= c < g.fat_count implies #[trigger] g.arena(
                        now.sectors,
                        c,
                    ) == if c < copy + 1 {
                        overlay(g.arena(d0.sectors, c), off as int, bytes@)
                    } else {
                        g.arena(d0.sectors, c)
                    } by {
                        if c == copy {
                            assert(g.copy_start(c) == start);
                            assert(g.arena(now.sectors, c) == overlay(
                                g.arena(cur.sectors, c),
                                off as int,
                                bytes@,
                            ));
                            assert(g.arena(cur.sectors, c) == g.arena(d0.sectors, c));
                        } else {
                            g.lemma_copy_bounds(c);
                            if c < copy {
                                g.lemma_copies_apart(c, copy as int);
                            } else {
                                g.lemma_copies_apart(copy as int, c);
                            }
                            lemma_flat_same(
                                cur.sectors,
                                now.sectors,
                                g.copy_start(c),
                                g.fat_size as int,
                            );
                            assert(g.arena(cur.sectors, c) == g.arena(now.sectors, c));
                        }
                    }
                }
            },
        }
        copy = copy + 1;
    }
    proof {
        let d1 = dev.drive(pdrv);
        dev.inv_shape(pdrv);
        assert(entry_set(g, d0.sectors, d1.sectors, cluster as int, value as int));
        assert forall|c: int| 0 <= c < g.fat_count implies (#[trigger] g.arena(d0.sectors, c)).len()
            == g.fat_size * g.bytes_per_sector by {
            g.lemma_copy_bounds(c);
            crate::diskio::lemma_flat_len(
                d0.sectors,
                g.copy_start(c),
                g.fat_size as int,
                d0.sector_size,
            );
        }
        lemma_entry_set(g, d0.sectors, d1.sectors, cluster as int, value as int);
        let table = g.table(d0.sectors);
        lemma_count_free_update(table, g.entries(), cluster as int, value);
        lemma_count_free_bound(table, g.entries());
        lemma_count_free_bound(table.update(cluster as int, value), g.entries());
        assert(table[cluster as int] == was);
    }
    match vol.free {
        Some(k) => {
            if was == 0 && value != 0 {
                vol.free = Some(k - 1);
            } else if was != 0 && value == 0 {
                vol.free = Some(k + 1);
            }
        },
        None => {},
    }
    Ok(())
}

/// Counts the free clusters of the volume by reading the whole table, and
/// remembers the number.
///
/// The drive is left as it is. On a drive that is not dependable the answer
/// may instead be the error of a failed read.
pub fn scan_free<H: FatfsDiskHandler>(vol: &mut Volume, dev: &mut H) -> (res: Result<u32, FsError>)
    requires
        old(dev).inv(),
        old(vol).on(old(dev).drive(old(vol).pdrv)),
    ensures
        final(dev).inv(),
        final(dev).drive(old(vol).pdrv) == old(dev).drive(old(vol).pdrv),
        same_volume(*old(vol), *final(vol)),
        final(vol).cursor == old(vol).cursor,
        final(vol).on(final(dev).drive(old(vol).pdrv)),
        match res {
            Ok(n) => n == free_clusters(old(vol).geom.table(old(dev).drive(old(vol).pdrv).sectors))
                && final(vol).free == Some(n),
            Err(e) => e.is_device() && !old(dev).drive(old(vol).pdrv).dependable && final(vol).free
                == old(vol).free,
        },
{
    let ghost d = old(dev).drive(vol.pdrv);
    let ghost table = vol.geom.table(d.sectors);
    let top: u32 = vol.geom.cluster_count + 2;
    let mut found: u32 = 0;
    let mut n: u32 = 2;
    while n < top
        invariant
            2 <= n <= top,
            top == vol.geom.entries(),
            dev.inv(),
            *vol == *old(vol),
            d == old(dev).drive(vol.pdrv),
            dev.drive(vol.pdrv) == d,
            vol.on(d),
            table == vol.geom.table(d.sectors),
            found == count_free(table, n as int),
            found <= n - 2,
        decreases top - n,
    {
        match get_next(vol, dev, n) {
            Err(e) => {
                return Err(e);
            },
            Ok(v) => {
                if v == 0 {
                    found = found + 1;
                }
            },
        }
        n = n + 1;
    }
    vol.free = Some(found);
    Ok(found)
}

/// The number of free clusters of the volume.
///
/// The number that the volume remembers is given where there is one; else
/// the table is scanned. The drive is left as it is. On a drive that is
/// not dependable the answer may instead be the error of a failed read.
pub fn free_count<H: FatfsDiskHandler>(vol: &mut Volume, dev: &mut H) -> (res: Result<u32, FsError>)
    requires
        old(dev).inv(),
        old(vol).on(old(dev).drive(old(vol).pdrv)),
    ensures
        final(dev).inv(),
        final(dev).drive(old(vol).pdrv) == old(dev).drive(old(vol).pdrv),
        same_volume(*old(vol), *final(vol)),
        final(vol).cursor == old(vol).cursor,
        final(vol).on(final(dev).drive(old(vol).pdrv)),
        match res {
            Ok(n) => n == free_clusters(old(vol).geom.table(old(dev).drive(old(vol).pdrv).sectors))
                && final(vol).free == Some(n),
            Err(e) => e.is_device() && !old(dev).drive(old(vol).pdrv).dependable && final(vol).free
                == old(vol).free,
        },
{
    match vol.free {
        Some(n) => Ok(n),
        None => scan_free(vol, dev),
    }
}

} // verus!
