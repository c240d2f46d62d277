//! The file engine: the bytes of a file along its cluster chain, and the
//! reads and writes that move them.

use vstd::prelude::*;
use crate::bytes::{append_range, copy_range, overlay, zero_bytes, zeros};
use crate::chain::{
    chain_upto, cluster_at, in_table, is_chain, last_cluster, lemma_chain_distinct,
    lemma_chain_is_chain, lemma_chain_walk, lemma_ends_or_walks, lemma_walk_add, lemma_walk_prefix,
    walk,
};
use crate::dir::lemma_walk_lands;
use crate::diskio::{flat, lemma_flat_len, Drive, FatfsDiskHandler};
use crate::error::FsError;
use crate::allocator::{allocate_chain, allocated, extend_chain, extended, free_chain};
use crate::dirent::Stamp;
use crate::dirops::update_entry;
use crate::fat::set_next;
use crate::chain::{lemma_chain_bound, lemma_chain_found};
use crate::fat::{entry_max, free_clusters, get_next, is_end, same_volume, Volume};
use crate::region::{
    lemma_flat_same, lemma_join, lemma_overlay_chain, lemma_sector_overlay, lemma_split, read_run,
    write_run,
};
use crate::volume::{FatType, Geometry};

verus! {

impl Geometry {
    /// The bytes of cluster `c` on `disk`.
    pub open spec fn cluster_data(self, disk: Seq<Seq<u8>>, c: int) -> Seq<u8> {
        flat(disk, self.first_sector(c), self.sectors_per_cluster as int)
    }

    /// The byte at position `p` of the file whose chain begins at cluster
    /// `first`; `None` where the chain does not reach so far.
    pub open spec fn file_byte(self, disk: Seq<Seq<u8>>, first: u32, p: int) -> Option<u8> {
        match self.reach(disk, first as int, (p / self.cluster_bytes()) as nat) {
            Some(c) => Some(self.cluster_data(disk, c)[p % self.cluster_bytes()]),
            None => None,
        }
    }

    /// The `len` bytes from position `from` on of the file whose chain
    /// begins at cluster `first`; `None` where the chain does not reach so
    /// far.
    pub open spec fn file_range(self, disk: Seq<Seq<u8>>, first: u32, from: int, len: int) -> Option<
        Seq<u8>,
    > {
        if len <= 0 {
            Some(Seq::empty())
        } else if self.reach(disk, first as int, ((from + len - 1) / self.cluster_bytes()) as nat)
            is Some {
            Some(Seq::new(len as nat, |i: int| self.file_byte(disk, first, from + i)->Some_0))
        } else {
            None
        }
    }

    /// The bytes of a cluster of the data region number as many as a
    /// cluster has bytes.
    pub proof fn lemma_cluster_data(self, d: Drive, c: int)
        requires
            self.wf(),
            d.wf(),
            self.fits(d),
            self.holds(c),
        ensures
            self.cluster_data(d.sectors, c).len() == self.cluster_bytes(),
            1 <= self.cluster_bytes() <= 524288,
            self.first_sector(c) + self.sectors_per_cluster <= d.sectors.len(),
            self.data_start <= self.first_sector(c),
    {
        self.lemma_cluster_sectors(c, 0);
        self.lemma_cluster_sectors(c, self.sectors_per_cluster - 1);
        lemma_flat_len(
            d.sectors,
            self.first_sector(c),
            self.sectors_per_cluster as int,
            d.sector_size,
        );
        assert(1 <= self.sectors_per_cluster * self.bytes_per_sector <= 524288)
            by (nonlinear_arith)
            requires
                1 <= self.sectors_per_cluster <= 128,
                512 <= self.bytes_per_sector <= 4096,
        ;
    }
}

/// What `read_at` answers on a dependable drive: the bytes of the range,
/// `CorruptVolume` where the chain does not reach so far, and
/// `InvalidParameter` where the range ends behind the largest position of
/// a file.
pub open spec fn read_answer_of(g: Geometry, disk: Seq<Seq<u8>>, first: u32, from: u32, len: u32) -> Result<
    Seq<u8>,
    FsError,
> {
    if from + len > u32::MAX {
        Err(FsError::InvalidParameter)
    } else {
        match g.file_range(disk, first, from as int, len as int) {
            Some(bytes) => Ok(bytes),
            None => Err(FsError::CorruptVolume),
        }
    }
}

/// Reads `len` bytes from position `from` on of the file whose chain begins
/// at cluster `first`.
///
/// The chain is followed from its beginning to the cluster that holds
/// `from`, and from there cluster by cluster. `CorruptVolume` is answered
/// where the chain ends or leaves the data region before the range does.
/// The drive is left as it is. On a drive that is not dependable the answer
/// may instead be the error of a failed read.
pub fn read_at<H: FatfsDiskHandler>(vol: &Volume, dev: &mut H, first: u32, from: u32, len: u32) -> (res:
    Result<Vec<u8>, FsError>)
    requires
        old(dev).inv(),
        vol.on(old(dev).drive(vol.pdrv)),
    ensures
        final(dev).inv(),
        final(dev).drive(vol.pdrv) == old(dev).drive(vol.pdrv),
        match res {
            Ok(bytes) => read_answer_of(
                vol.geom,
                old(dev).drive(vol.pdrv).sectors,
                first,
                from,
                len,
            ) == Ok::<Seq<u8>, FsError>(bytes@) && bytes.len() == len,
            Err(e) => read_answer_of(vol.geom, old(dev).drive(vol.pdrv).sectors, first, from, len)
                == Err::<Seq<u8>, FsError>(e) || (!old(dev).drive(vol.pdrv).dependable
                && e.is_device()),
        },
{
    if from as u64 + len as u64 > 0xFFFF_FFFF {
        return Err(FsError::InvalidParameter);
    }
    let g = &vol.geom;
    let t = g.fat_type;
    let ghost d = old(dev).drive(vol.pdrv);
    let ghost disk = d.sectors;
    let ghost table = g.table(disk);
    let mut out: Vec<u8> = Vec::new();
    if len == 0 {
        return Ok(out);
    }
    proof {
        g.lemma_cluster_slots();
    }
    let cb: u32 = g.sectors_per_cluster * g.bytes_per_sector;
    let end: u32 = from + len;
    let ghost last: nat = ((end - 1) as int / cb as int) as nat;
    let k0: u32 = from / cb;
    proof {
        lemma_split(from as int, cb as int);
        lemma_split(end - 1, cb as int);
        assert(k0 <= last) by (nonlinear_arith)
            requires
                from <= end - 1,
                k0 == from as int / cb as int,
                last == (end - 1) as int / cb as int,
                cb > 0,
        ;
    }
    if (end - 1) / cb >= g.cluster_count {
        // No chain has so many clusters.
        return Err(FsError::CorruptVolume);
    }
    let mut c: u32 = match cluster_at(vol, dev, first, k0) {
        Err(e) => {
            proof {
                lemma_ends_or_walks(t, table, first as int, k0 as nat);
                if walk(t, table, first as int, last) is Some {
                    lemma_walk_prefix(t, table, first as int, last, k0 as nat);
                }
            }
            return Err(e);
        },
        Ok(None) => {
            proof {
                lemma_ends_or_walks(t, table, first as int, k0 as nat);
                if walk(t, table, first as int, last) is Some {
                    lemma_walk_prefix(t, table, first as int, last, k0 as nat);
                }
            }
            return Err(FsError::CorruptVolume);
        },
        Ok(Some(c)) => c,
    };
    let end_min: u32 = match t {
        FatType::Fat12 => 0xFF8,
        FatType::Fat16 => 0xFFF8,
        FatType::Fat32 => 0x0FFF_FFF8,
    };
    let mut p: u32 = from;
    proof {
        if walk(t, table, first as int, k0 as nat) is Some {
            lemma_walk_lands(t, table, first as int, k0 as nat);
        }
    }
    while p < end
        invariant
            from <= p <= end,
            end == from + len,
            len > 0,
            *g == vol.geom,
            t == g.fat_type,
            cb == g.cluster_bytes(),
            1 <= cb <= 524288,
            end_min == entry_max(t) - 7,
            last == ((end - 1) as int / cb as int) as nat,
            last < g.cluster_count,
            p < end ==> p as int / cb as int <= last,
            dev.inv(),
            d == old(dev).drive(vol.pdrv),
            dev.drive(vol.pdrv) == d,
            disk == d.sectors,
            vol.on(d),
            table == g.table(disk),
            p < end ==> g.holds(c as int) && walk(t, table, first as int, (p as int / cb as int) as nat)
                == Some(c as int),
            p < end && p > from ==> p as int % cb as int == 0,
            p == end ==> walk(t, table, first as int, last) is Some,
            out.len() == p - from,
            forall|i: int|
                0 <= i < p - from ==> g.file_byte(disk, first, from + i) == Some(#[trigger] out@[i]),
        decreases end - p,
    {
        let off: u32 = p % cb;
        let room: u32 = cb - off;
        let n: u32 = if end - p < room {
            end - p
        } else {
            room
        };
        let ghost k = p as int / cb as int;
        proof {
            lemma_split(p as int, cb as int);
            g.lemma_cluster_data(d, c as int);
        }
        let start: u32 = g.data_start + (c - 2) * g.sectors_per_cluster;
        let chunk = match read_run(
            dev,
            vol.pdrv,
            g.bytes_per_sector,
            start,
            g.sectors_per_cluster,
            off,
            n,
        ) {
            Err(e) => {
                return Err(e);
            },
            Ok(chunk) => chunk,
        };
        let ghost before = out@;
        append_range(&mut out, &chunk, 0, n as usize);
        proof {
            assert(chunk@.subrange(0, n as int) =~= chunk@);
            assert forall|i: int| 0 <= i < p + n - from implies g.file_byte(disk, first, from + i)
                == Some(#[trigger] out@[i]) by {
                if i >= p - from {
                    let q = from + i;
                    let r = q - p;
                    lemma_join(k, off + r, cb as int);
                    assert(q == k * cb + (off + r));
                    assert(out@[i] == chunk@[r]);
                }
            }
        }
        p = p + n;
        if p < end {
            proof {
                lemma_join(k + 1, 0, cb as int);
                assert(p == (k + 1) * cb + 0) by (nonlinear_arith)
                    requires
                        p == k * cb + off + n,
                        n == cb - off,
                ;
                lemma_split(end - 1, cb as int);
                assert(k + 1 <= last) by (nonlinear_arith)
                    requires
                        (k + 1) * cb <= end - 1,
                        end - 1 == last * cb + (end - 1) % (cb as int),
                        0 <= (end - 1) % (cb as int) < cb,
                        cb > 0,
                ;
                lemma_walk_add(t, table, first as int, k as nat, 1);
                reveal_with_fuel(walk, 2);
            }
            match get_next(vol, dev, c) {
                Err(e) => {
                    return Err(e);
                },
                Ok(next) => {
                    if next >= end_min || next < 2 || next - 2 >= g.cluster_count {
                        proof {
                            if walk(t, table, first as int, last) is Some {
                                lemma_walk_prefix(t, table, first as int, last, (k + 1) as nat);
                            }
                        }
                        return Err(FsError::CorruptVolume);
                    }
                    c = next;
                },
            }
        } else {
            proof {
                lemma_split(end - 1, cb as int);
                assert(last == k) by {
                    lemma_join(k, off + n - 1, cb as int);
                }
            }
        }
    }
    proof {
        let bytes = g.file_range(disk, first, from as int, len as int)->Some_0;
        assert(bytes =~= out@);
    }
    Ok(out)
}

impl Geometry {
    /// The clusters of the chain `s` on `disk`, each as its bytes.
    pub open spec fn cluster_disk(self, disk: Seq<Seq<u8>>, s: Seq<int>) -> Seq<Seq<u8>> {
        Seq::new(s.len(), |j: int| self.cluster_data(disk, s[j]))
    }

    /// The bytes of the clusters of the chain `s` on `disk`, one cluster
    /// after the other.
    pub open spec fn chain_bytes(self, disk: Seq<Seq<u8>>, s: Seq<int>) -> Seq<u8> {
        flat(self.cluster_disk(disk, s), 0, s.len() as int)
    }

    /// The bytes that the clusters of the chain that begins at `first`
    /// hold; `None` where no chain begins there.
    pub open spec fn content(self, disk: Seq<Seq<u8>>, first: u32) -> Option<Seq<u8>> {
        match self.chain(disk, first as int) {
            Some(s) => Some(self.chain_bytes(disk, s)),
            None => None,
        }
    }

    /// The clusters of a chain hold as many bytes as a cluster has, each.
    pub proof fn lemma_cluster_disk(self, d: Drive, s: Seq<int>)
        requires
            self.wf(),
            d.wf(),
            self.fits(d),
            forall|j: int| 0 <= j < s.len() ==> self.holds(#[trigger] s[j]),
        ensures
            crate::diskio::sectors_of_size(
                self.cluster_disk(d.sectors, s),
                self.cluster_bytes() as nat,
            ),
            self.chain_bytes(d.sectors, s).len() == s.len() * self.cluster_bytes(),
            1 <= self.cluster_bytes() <= 524288,
    {
        let cd = self.cluster_disk(d.sectors, s);
        assert(1 <= self.sectors_per_cluster * self.bytes_per_sector <= 524288)
            by (nonlinear_arith)
            requires
                1 <= self.sectors_per_cluster <= 128,
                512 <= self.bytes_per_sector <= 4096,
        ;
        assert forall|j: int| 0 <= j < cd.len() implies (#[trigger] cd[j]).len()
            == self.cluster_bytes() by {
            assert(self.holds(s[j]));
            self.lemma_cluster_data(d, s[j]);
        }
        lemma_flat_len(cd, 0, s.len() as int, self.cluster_bytes() as nat);
    }

    /// Different clusters share no sector.
    pub proof fn lemma_clusters_apart(self, a: int, b: int)
        requires
            self.wf(),
            a != b,
        ensures
            self.first_sector(a) + self.sectors_per_cluster <= self.first_sector(b)
                || self.first_sector(b) + self.sectors_per_cluster <= self.first_sector(a),
    {
        let spc = self.sectors_per_cluster as int;
        assert((a - 2) * spc + spc <= (b - 2) * spc || (b - 2) * spc + spc <= (a - 2) * spc)
            by (nonlinear_arith)
            requires
                a != b,
                spc >= 1,
        ;
    }
}

/// Every cluster of the data region that is none of `s` holds on `after`
/// the bytes that it held on `before`.
pub open spec fn others_kept(g: Geometry, before: Seq<Seq<u8>>, after: Seq<Seq<u8>>, s: Seq<int>) -> bool {
    forall|c: int|
        g.holds(c) && !s.contains(c) ==> #[trigger] g.cluster_data(after, c) == g.cluster_data(
            before,
            c,
        )
}

/// A change within the tables leaves the bytes of every cluster.
pub proof fn lemma_data_kept(g: Geometry, a: Drive, b: Drive, s: Seq<int>)
    requires
        g.wf(),
        a.wf(),
        g.fits(a),
        a.same_but(b, |i: int| g.in_tables(i)),
    ensures
        others_kept(g, a.sectors, b.sectors, s),
{
    g.lemma_copy_bounds(0);
    assert forall|c: int| g.holds(c) && !s.contains(c) implies #[trigger] g.cluster_data(
        b.sectors,
        c,
    ) == g.cluster_data(a.sectors, c) by {
        g.lemma_cluster_data(a, c);
        lemma_flat_same(a.sectors, b.sectors, g.first_sector(c), g.sectors_per_cluster as int);
    }
}

/// What was kept twice was kept.
pub proof fn lemma_others_twice(
    g: Geometry,
    a: Seq<Seq<u8>>,
    b: Seq<Seq<u8>>,
    c: Seq<Seq<u8>>,
    s: Seq<int>,
)
    requires
        others_kept(g, a, b, s),
        others_kept(g, b, c, s),
    ensures
        others_kept(g, a, c, s),
{
    assert forall|x: int| g.holds(x) && !s.contains(x) implies #[trigger] g.cluster_data(c, x)
        == g.cluster_data(a, x) by {
        assert(g.cluster_data(b, x) == g.cluster_data(a, x));
    }
}

/// Why a write into the clusters of a chain is refused, if it is: the
/// volume is write protected, the range ends behind the largest position
/// of a file, no chain begins at `first`, or the range does not lie within
/// the clusters of the chain.
pub open spec fn write_refusal(vol: Volume, disk: Seq<Seq<u8>>, first: u32, from: u32, len: int) -> Option<
    FsError,
> {
    if vol.read_only {
        Some(FsError::WriteProtected)
    } else if from + len > u32::MAX {
        Some(FsError::InvalidParameter)
    } else {
        match vol.geom.chain(disk, first as int) {
            None => Some(FsError::CorruptVolume),
            Some(s) => if from + len > s.len() * vol.geom.cluster_bytes() {
                Some(FsError::InvalidParameter)
            } else {
                None
            },
        }
    }
}

/// Writes `data` from position `from` on into the clusters of the chain
/// that begins at `first`.
///
/// The chain is walked once before anything is written. A refusal leaves
/// the drive as it is. Only sectors of clusters of the chain change, and
/// no sector of the tables. On a drive that is not dependable a transfer
/// may fail midway: the answer is then the driver's error, and a part of
/// the bytes may have been written.
pub fn write_into<H: FatfsDiskHandler>(vol: &Volume, dev: &mut H, first: u32, from: u32, data: &Vec<u8>) -> (res:
    Result<(), FsError>)
    requires
        old(dev).inv(),
        vol.on(old(dev).drive(vol.pdrv)),
    ensures
        final(dev).inv(),
        vol.on(final(dev).drive(vol.pdrv)),
        old(dev).drive(vol.pdrv).same_but(
            final(dev).drive(vol.pdrv),
            |i: int| vol.geom.data_start <= i < vol.geom.end(),
        ),
        vol.geom.table(final(dev).drive(vol.pdrv).sectors) == vol.geom.table(
            old(dev).drive(vol.pdrv).sectors,
        ),
        vol.geom.chain(old(dev).drive(vol.pdrv).sectors, first as int) matches Some(s)
            ==> others_kept(
            vol.geom,
            old(dev).drive(vol.pdrv).sectors,
            final(dev).drive(vol.pdrv).sectors,
            s,
        ),
        match res {
            Ok(_) => write_refusal(
                *vol,
                old(dev).drive(vol.pdrv).sectors,
                first,
                from,
                data.len() as int,
            ) is None && vol.geom.content(final(dev).drive(vol.pdrv).sectors, first) == Some(
                overlay(
                    vol.geom.content(old(dev).drive(vol.pdrv).sectors, first)->Some_0,
                    from as int,
                    data@,
                ),
            ),
            Err(e) => (write_refusal(
                *vol,
                old(dev).drive(vol.pdrv).sectors,
                first,
                from,
                data.len() as int,
            ) == Some(e) && final(dev).drive(vol.pdrv) == old(dev).drive(vol.pdrv)) || (!old(
                dev,
            ).drive(vol.pdrv).dependable && e.is_device()),
        },
{
    let g = &vol.geom;
    let t = g.fat_type;
    let pdrv = vol.pdrv;
    let ghost d0 = old(dev).drive(pdrv);
    let ghost table = g.table(d0.sectors);
    assert(d0.same_but(d0, |i: int| vol.geom.data_start <= i < vol.geom.end()));
    if vol.read_only {
        return Err(FsError::WriteProtected);
    }
    if data.len() > 0xFFFF_FFFF || from as u64 + data.len() as u64 > 0xFFFF_FFFF {
        return Err(FsError::InvalidParameter);
    }
    let (_last, count) = match last_cluster(vol, dev, first) {
        Err(e) => {
            return Err(e);
        },
        Ok(r) => r,
    };
    let ghost s = g.chain(d0.sectors, first as int)->Some_0;
    proof {
        lemma_chain_is_chain(t, table, first as int, g.cluster_count as nat);
        lemma_chain_distinct(t, table, s);
        g.lemma_cluster_disk(d0, s);
        assert(count == s.len());
    }
    let cb: u32 = g.sectors_per_cluster * g.bytes_per_sector;
    assert(count * cb <= 0x0FFF_FFF5 * 524288) by (nonlinear_arith)
        requires
            count <= 0x0FFF_FFF5,
            cb <= 524288,
    ;
    let len: u32 = data.len() as u32;
    if from as u64 + len as u64 > count as u64 * cb as u64 {
        return Err(FsError::InvalidParameter);
    }
    let ghost all0 = g.chain_bytes(d0.sectors, s);
    if len == 0 {
        assert(overlay(all0, from as int, data@) =~= all0);
        return Ok(());
    }
    let k0: u32 = from / cb;
    proof {
        lemma_split(from as int, cb as int);
        assert(k0 < count) by (nonlinear_arith)
            requires
                from < count * cb,
                from == k0 * cb + from as int % cb as int,
                0 <= from as int % cb as int,
                cb > 0,
        ;
        lemma_chain_walk(t, table, s, k0 as nat);
        assert(overlay(all0, from as int, data@.subrange(0, 0)) =~= all0);
    }
    let mut c: u32 = match cluster_at(vol, dev, first, k0) {
        Err(e) => {
            return Err(e);
        },
        Ok(None) => {
            proof {
                lemma_ends_or_walks(t, table, first as int, k0 as nat);
            }
            assert(false);
            return Err(FsError::CorruptVolume);
        },
        Ok(Some(c)) => c,
    };
    let mut done: u32 = 0;
    while done < len
        invariant
            done <= len,
            len == data.len(),
            len > 0,
            from + len <= count * cb,
            from + len <= u32::MAX,
            *g == vol.geom,
            t == g.fat_type,
            pdrv == vol.pdrv,
            !vol.read_only,
            cb == g.cluster_bytes(),
            1 <= cb <= 524288,
            dev.inv(),
            d0 == old(dev).drive(pdrv),
            vol.on(d0),
            vol.on(dev.drive(pdrv)),
            table == g.table(d0.sectors),
            g.table(dev.drive(pdrv).sectors) == table,
            d0.same_but(dev.drive(pdrv), |i: int| vol.geom.data_start <= i < vol.geom.end()),
            g.chain(d0.sectors, first as int) == Some(s),
            is_chain(t, table, s),
            s.no_duplicates(),
            count == s.len(),
            all0 == g.chain_bytes(d0.sectors, s),
            write_refusal(*vol, d0.sectors, first, from, len as int) is None,
            g.chain_bytes(dev.drive(pdrv).sectors, s) == overlay(
                all0,
                from as int,
                data@.subrange(0, done as int),
            ),
            forall|x: int|
                g.holds(x) && !s.contains(x) ==> #[trigger] g.cluster_data(
                    dev.drive(pdrv).sectors,
                    x,
                ) == g.cluster_data(d0.sectors, x),
            done < len ==> c == s[(from + done) as int / cb as int],
        decreases len - done,
    {
        let pos: u32 = from + done;
        let off: u32 = pos % cb;
        let room: u32 = cb - off;
        let n: u32 = if len - done < room {
            len - done
        } else {
            room
        };
        let ghost k = pos as int / cb as int;
        let ghost cur = dev.drive(pdrv);
        proof {
            lemma_split(pos as int, cb as int);
            assert(k < count) by (nonlinear_arith)
                requires
                    pos < count * cb,
                    pos == k * cb + off,
                    0 <= off,
                    cb > 0,
            ;
            assert(g.holds(s[k]));
            g.lemma_cluster_data(cur, c as int);
        }
        let chunk = copy_range(data, done as usize, n as usize);
        let start: u32 = g.data_start + (c - 2) * g.sectors_per_cluster;
        match write_run(dev, pdrv, g.bytes_per_sector, start, g.sectors_per_cluster, off, &chunk) {
            Err(e) => {
                proof {
                    dev.inv_shape(pdrv);
                    lemma_data_twice(*g, d0, cur, dev.drive(pdrv));
                    g.lemma_copy_bounds(0);
                    g.lemma_tables_kept(cur.sectors, dev.drive(pdrv).sectors);
                    lemma_others_kept(*g, d0, cur, dev.drive(pdrv), s, c as int);
                }
                return Err(e);
            },
            Ok(_) => {},
        }
        proof {
            let next = dev.drive(pdrv);
            dev.inv_shape(pdrv);
            lemma_data_twice(*g, d0, cur, next);
            g.lemma_copy_bounds(0);
            g.lemma_tables_kept(cur.sectors, next.sectors);
            lemma_others_kept(*g, d0, cur, next, s, c as int);
            let before = g.cluster_disk(cur.sectors, s);
            let after = g.cluster_disk(next.sectors, s);
            g.lemma_cluster_disk(cur, s);
            assert(after =~= before.update(k, overlay(before[k], off as int, chunk@))) by {
                assert forall|j: int| 0 <= j < s.len() implies after[j] == before.update(
                    k,
                    overlay(before[k], off as int, chunk@),
                )[j] by {
                    if j != k {
                        assert(s[j] != s[k]);
                        assert(g.holds(s[j]));
                        g.lemma_clusters_apart(s[j], s[k]);
                        g.lemma_cluster_data(cur, s[j]);
                        lemma_flat_same(
                            cur.sectors,
                            next.sectors,
                            g.first_sector(s[j]),
                            g.sectors_per_cluster as int,
                        );
                    }
                }
            }
            lemma_sector_overlay(
                before,
                after,
                0,
                s.len() as int,
                cb as nat,
                pos as int,
                chunk@,
            );
            lemma_overlay_chain(all0, from as int, data@, done as int, n as int);
        }
        done = done + n;
        if done < len {
            proof {
                lemma_join(k + 1, 0, cb as int);
                assert(from + done == (k + 1) * cb + 0) by (nonlinear_arith)
                    requires
                        from + done == k * cb + off + n,
                        n == cb - off,
                ;
                assert(k + 1 < count) by (nonlinear_arith)
                    requires
                        (k + 1) * cb < count * cb,
                        cb > 0,
                ;
                assert(table[s[k]] == s[k + 1]);
                assert(g.holds(s[k + 1]));
            }
            match get_next(vol, dev, c) {
                Err(e) => {
                    return Err(e);
                },
                Ok(next) => {
                    c = next;
                },
            }
        }
    }
    proof {
        assert(data@.subrange(0, len as int) =~= data@);
        assert(g.chain(dev.drive(pdrv).sectors, first as int) == Some(s));
    }
    Ok(())
}

/// Clusters outside a chain keep their bytes when only a cluster of the
/// chain is written.
proof fn lemma_others_kept(g: Geometry, d0: Drive, cur: Drive, next: Drive, s: Seq<int>, c: int)
    requires
        g.wf(),
        d0.wf(),
        cur.wf(),
        g.fits(cur),
        g.holds(c),
        s.contains(c),
        cur.same_but(
            next,
            |i: int| g.first_sector(c) <= i < g.first_sector(c) + g.sectors_per_cluster,
        ),
        forall|x: int|
            g.holds(x) && !s.contains(x) ==> #[trigger] g.cluster_data(cur.sectors, x)
                == g.cluster_data(d0.sectors, x),
    ensures
        forall|x: int|
            g.holds(x) && !s.contains(x) ==> #[trigger] g.cluster_data(next.sectors, x)
                == g.cluster_data(d0.sectors, x),
{
    assert forall|x: int| g.holds(x) && !s.contains(x) implies #[trigger] g.cluster_data(
        next.sectors,
        x,
    ) == g.cluster_data(d0.sectors, x) by {
        g.lemma_clusters_apart(x, c);
        g.lemma_cluster_data(cur, x);
        lemma_flat_same(cur.sectors, next.sectors, g.first_sector(x), g.sectors_per_cluster as int);
    }
}

/// Changes within the data region add up to a change within the data
/// region.
pub proof fn lemma_data_twice(g: Geometry, a: Drive, b: Drive, c: Drive)
    requires
        g.wf(),
        a.same_but(b, |i: int| g.data_start <= i < g.end()),
        b.same_but(
            c,
            |i: int| exists|x: int| g.holds(x) && g.first_sector(x) <= i < g.first_sector(x) + g.sectors_per_cluster,
        ) || b.same_but(c, |i: int| g.data_start <= i < g.end()),
    ensures
        a.same_but(c, |i: int| g.data_start <= i < g.end()),
{
    assert forall|i: int|
        0 <= i < a.sectors.len() && !(g.data_start <= i < g.end()) implies #[trigger] c.sectors[i]
        == a.sectors[i] by {
        assert(b.sectors[i] == a.sectors[i]);
        if !b.same_but(c, |i: int| g.data_start <= i < g.end()) {
            if exists|x: int|
                g.holds(x) && g.first_sector(x) <= i < g.first_sector(x) + g.sectors_per_cluster {
                let x = choose|x: int|
                    g.holds(x) && g.first_sector(x) <= i < g.first_sector(x)
                        + g.sectors_per_cluster;
                g.lemma_cluster_sectors(x, i - g.first_sector(x));
            }
        }
    }
}

/// A chain with a new chain hung behind its last cluster is the chain of
/// the old clusters followed by the new ones.
pub proof fn lemma_chain_extended(
    t: FatType,
    before: Seq<u32>,
    after: Seq<u32>,
    s: Seq<int>,
    first_new: int,
    count: nat,
)
    requires
        is_chain(t, before, s),
        extended(t, before, after, s[s.len() - 1], first_new, count),
        before.len() <= entry_max(t) - 7,
    ensures
        is_chain(t, after, s + chain_upto(t, after, first_new, count)->Some_0),
        chain_upto(t, after, s[0], (after.len() - 2) as nat) == Some(
            s + chain_upto(t, after, first_new, count)->Some_0,
        ),
{
    let fresh = chain_upto(t, after, first_new, count)->Some_0;
    let all = s + fresh;
    let last = s[s.len() - 1];
    lemma_chain_is_chain(t, after, first_new, count);
    lemma_chain_distinct(t, before, s);
    assert forall|i: int| 0 <= i < s.len() implies !fresh.contains(#[trigger] s[i]) by {
        if fresh.contains(s[i]) {
            let j = choose|j: int| 0 <= j < fresh.len() && fresh[j] == s[i];
            assert(before[fresh[j]] == 0);
            assert(in_table(before, s[i]));
            if i + 1 < s.len() {
                assert(in_table(before, s[i + 1]));
            }
        }
    }
    assert forall|i: int| 0 <= i < all.len() implies in_table(after, #[trigger] all[i]) by {
        if i < s.len() {
            assert(in_table(before, s[i]));
        } else {
            assert(in_table(after, fresh[i - s.len()]));
        }
    }
    assert forall|i: int| 0 <= i < all.len() - 1 implies after[#[trigger] all[i]] == all[i + 1]
        && !is_end(t, after[all[i]] as int) by {
        if i < s.len() - 1 {
            assert(s[i] != last);
            assert(in_table(before, s[i]));
            assert(in_table(before, s[i + 1]));
            assert(after[s[i]] == before[s[i]]);
        } else if i == s.len() - 1 {
            assert(in_table(after, fresh[0]));
        } else {
            let j = i - s.len();
            assert(all[i] == fresh[j] && all[i + 1] == fresh[j + 1]);
        }
    }
    assert(all[all.len() - 1] == fresh[fresh.len() - 1]);
    lemma_chain_bound(t, after, all);
    lemma_chain_found(t, after, all, (after.len() - 2) as nat);
}

impl Geometry {
    /// The bytes of the clusters of two chains that follow one another are
    /// the bytes of the first followed by those of the second.
    pub proof fn lemma_chain_bytes_add(self, d: Drive, a: Seq<int>, b: Seq<int>)
        requires
            self.wf(),
            d.wf(),
            self.fits(d),
            forall|j: int| 0 <= j < a.len() ==> self.holds(#[trigger] a[j]),
            forall|j: int| 0 <= j < b.len() ==> self.holds(#[trigger] b[j]),
        ensures
            self.chain_bytes(d.sectors, a + b) == self.chain_bytes(d.sectors, a) + self.chain_bytes(
                d.sectors,
                b,
            ),
        decreases b.len(),
    {
        let disk = d.sectors;
        if b.len() == 0 {
            assert(a + b =~= a);
            assert(self.chain_bytes(disk, b) =~= Seq::<u8>::empty());
            assert(self.chain_bytes(disk, a) + Seq::<u8>::empty() =~= self.chain_bytes(disk, a));
        } else {
            let b0 = b.subrange(0, b.len() - 1);
            let x = b[b.len() - 1];
            assert forall|j: int| 0 <= j < b0.len() implies self.holds(#[trigger] b0[j]) by {
                assert(b0[j] == b[j]);
            }
            self.lemma_chain_bytes_add(d, a, b0);
            let ab = a + b;
            let ab0 = a + b0;
            assert(ab.len() == ab0.len() + 1);
            assert forall|i: int| 0 <= i < ab0.len() implies self.cluster_disk(disk, ab)[i]
                == self.cluster_disk(disk, ab0)[i] by {
                assert(ab[i] == ab0[i]);
            }
            lemma_flat_same(
                self.cluster_disk(disk, ab),
                self.cluster_disk(disk, ab0),
                0,
                ab0.len() as int,
            );
            assert forall|i: int| 0 <= i < b0.len() implies self.cluster_disk(disk, b)[i]
                == self.cluster_disk(disk, b0)[i] by {
                assert(b[i] == b0[i]);
            }
            lemma_flat_same(
                self.cluster_disk(disk, b),
                self.cluster_disk(disk, b0),
                0,
                b0.len() as int,
            );
            assert(self.cluster_disk(disk, ab)[ab.len() - 1] == self.cluster_data(disk, x));
            assert(self.cluster_disk(disk, b)[b.len() - 1] == self.cluster_data(disk, x));
            assert(self.chain_bytes(disk, ab) =~= self.chain_bytes(disk, ab0) + self.cluster_data(
                disk,
                x,
            ));
            assert(self.chain_bytes(disk, b) =~= self.chain_bytes(disk, b0) + self.cluster_data(
                disk,
                x,
            ));
            assert((self.chain_bytes(disk, a) + self.chain_bytes(disk, b0)) + self.cluster_data(
                disk,
                x,
            ) =~= self.chain_bytes(disk, a) + (self.chain_bytes(disk, b0) + self.cluster_data(
                disk,
                x,
            )));
        }
    }

    /// A change within the tables leaves the bytes of every cluster.
    pub proof fn lemma_clusters_kept(self, a: Drive, b: Drive, s: Seq<int>)
        requires
            self.wf(),
            a.wf(),
            self.fits(a),
            a.same_but(b, |i: int| self.in_tables(i)),
            forall|j: int| 0 <= j < s.len() ==> self.holds(#[trigger] s[j]),
        ensures
            self.chain_bytes(b.sectors, s) == self.chain_bytes(a.sectors, s),
    {
        self.lemma_copy_bounds(0);
        assert(self.cluster_disk(b.sectors, s) =~= self.cluster_disk(a.sectors, s)) by {
            assert forall|j: int| 0 <= j < s.len() implies self.cluster_disk(b.sectors, s)[j]
                == self.cluster_disk(a.sectors, s)[j] by {
                assert(self.holds(s[j]));
                self.lemma_cluster_data(a, s[j]);
                lemma_flat_same(
                    a.sectors,
                    b.sectors,
                    self.first_sector(s[j]),
                    self.sectors_per_cluster as int,
                );
            }
        }
    }
}

impl Geometry {
    /// The clusters of the chain that begins at `first`, where 0 stands for
    /// a file without clusters.
    pub open spec fn clusters_of(self, disk: Seq<Seq<u8>>, first: u32) -> Option<Seq<int>> {
        if first == 0 {
            Some(Seq::empty())
        } else {
            self.chain(disk, first as int)
        }
    }
}

/// Why a file cannot be given `need` clusters, if it cannot: the volume is
/// write protected, no cluster is asked for, the file's chain is corrupt,
/// or fewer clusters are free than are missing.
pub open spec fn supply_refusal(vol: Volume, disk: Seq<Seq<u8>>, first: u32, need: u32) -> Option<
    FsError,
> {
    if vol.read_only {
        Some(FsError::WriteProtected)
    } else if need == 0 {
        Some(FsError::InvalidParameter)
    } else {
        match vol.geom.clusters_of(disk, first) {
            None => Some(FsError::CorruptVolume),
            Some(s) => if need - s.len() > free_clusters(vol.geom.table(disk)) {
                Some(FsError::DiskFull)
            } else {
                None
            },
        }
    }
}

/// The drive `after` holds the chain of `before` that begins at `first`,
/// made longer where it had fewer than `need` clusters: the chain now
/// begins at `first_after`, has the old clusters at its beginning, and the
/// bytes of the old clusters are as they were.
pub open spec fn supplied(
    g: Geometry,
    before: Drive,
    after: Drive,
    first: u32,
    first_after: u32,
    need: u32,
) -> bool {
    g.clusters_of(before.sectors, first) matches Some(s0) && g.chain(
        after.sectors,
        first_after as int,
    ) matches Some(s1) && {
        &&& first != 0 ==> first_after == first
        &&& s1.len() == if s0.len() < need {
            need as nat
        } else {
            s0.len()
        }
        &&& s1.subrange(0, s0.len() as int) == s0
        &&& g.chain_bytes(after.sectors, s0) == g.chain_bytes(before.sectors, s0)
        &&& free_clusters(g.table(after.sectors)) == free_clusters(g.table(before.sectors)) - (
        s1.len() - s0.len())
    }
}

/// A chain that was allocated for a file without clusters supplies the
/// file.
proof fn lemma_supplied_fresh(g: Geometry, d0: Drive, d1: Drive, c: u32, need: u32)
    requires
        g.wf(),
        d0.wf(),
        g.fits(d0),
        d0.same_but(d1, |i: int| g.in_tables(i)),
        allocated(g.fat_type, g.table(d0.sectors), g.table(d1.sectors), c as int, need as nat),
        need >= 1,
    ensures
        supplied(g, d0, d1, 0, c, need),
{
    let t = g.fat_type;
    let t1 = g.table(d1.sectors);
    lemma_chain_is_chain(t, t1, c as int, need as nat);
    let s1 = chain_upto(t, t1, c as int, need as nat)->Some_0;
    lemma_chain_bound(t, t1, s1);
    lemma_chain_found(t, t1, s1, g.cluster_count as nat);
    assert(s1.subrange(0, 0) =~= Seq::<int>::empty());
    g.lemma_clusters_kept(d0, d1, Seq::<int>::empty());
}

/// A chain that was made longer supplies the file.
proof fn lemma_supplied_more(
    g: Geometry,
    d0: Drive,
    d1: Drive,
    first: u32,
    first_new: u32,
    need: u32,
)
    requires
        g.wf(),
        d0.wf(),
        g.fits(d0),
        first != 0,
        d0.same_but(d1, |i: int| g.in_tables(i)),
        g.chain(d0.sectors, first as int) is Some,
        g.chain(d0.sectors, first as int)->Some_0.len() < need,
        extended(
            g.fat_type,
            g.table(d0.sectors),
            g.table(d1.sectors),
            g.chain(d0.sectors, first as int)->Some_0[g.chain(d0.sectors, first as int)->Some_0.len()
                - 1],
            first_new as int,
            (need - g.chain(d0.sectors, first as int)->Some_0.len()) as nat,
        ),
    ensures
        supplied(g, d0, d1, first, first, need),
{
    let t = g.fat_type;
    let t0 = g.table(d0.sectors);
    let t1 = g.table(d1.sectors);
    let s0 = g.chain(d0.sectors, first as int)->Some_0;
    let more = (need - s0.len()) as nat;
    lemma_chain_is_chain(t, t0, first as int, g.cluster_count as nat);
    lemma_chain_extended(t, t0, t1, s0, first_new as int, more);
    let fresh = chain_upto(t, t1, first_new as int, more)->Some_0;
    assert((s0 + fresh).subrange(0, s0.len() as int) =~= s0);
    g.lemma_clusters_kept(d0, d1, s0);
}

/// Gives a file without clusters a chain of `need` clusters.
fn supply_first<H: FatfsDiskHandler>(vol: &mut Volume, dev: &mut H, need: u32) -> (res: Result<
    u32,
    FsError,
>)
    requires
        old(dev).inv(),
        old(vol).on(old(dev).drive(old(vol).pdrv)),
        need >= 1,
        !old(vol).read_only,
    ensures
        final(dev).inv(),
        same_volume(*old(vol), *final(vol)),
        final(vol).on(final(dev).drive(old(vol).pdrv)),
        old(dev).drive(old(vol).pdrv).same_but(
            final(dev).drive(old(vol).pdrv),
            |i: int| old(vol).geom.in_tables(i),
        ),
        res is Ok || old(dev).drive(old(vol).pdrv).dependable ==> crate::fat::mirrors_kept(
            old(vol).geom,
            old(dev).drive(old(vol).pdrv).sectors,
            final(dev).drive(old(vol).pdrv).sectors,
        ),
        match res {
            Ok(first_after) => need <= free_clusters(
                old(vol).geom.table(old(dev).drive(old(vol).pdrv).sectors),
            ) && supplied(
                old(vol).geom,
                old(dev).drive(old(vol).pdrv),
                final(dev).drive(old(vol).pdrv),
                0,
                first_after,
                need,
            ),
            Err(e) => (e == FsError::DiskFull && need > free_clusters(
                old(vol).geom.table(old(dev).drive(old(vol).pdrv).sectors),
            ) && final(dev).drive(old(vol).pdrv) == old(dev).drive(old(vol).pdrv)) || (!old(
                dev,
            ).drive(old(vol).pdrv).dependable && e.is_device()),
        },
{
    let ghost g = vol.geom;
    let ghost d0 = old(dev).drive(vol.pdrv);
    match allocate_chain(vol, dev, need) {
        Err(e) => Err(e),
        Ok(c) => {
            proof {
                lemma_supplied_fresh(g, d0, dev.drive(vol.pdrv), c, need);
            }
            Ok(c)
        },
    }
}

/// Makes the chain that ends at `last` longer by `more` clusters.
fn supply_more<H: FatfsDiskHandler>(
    vol: &mut Volume,
    dev: &mut H,
    first: u32,
    last: u32,
    count: u32,
    need: u32,
) -> (res: Result<u32, FsError>)
    requires
        old(dev).inv(),
        old(vol).on(old(dev).drive(old(vol).pdrv)),
        !old(vol).read_only,
        first != 0,
        count < need,
        old(vol).geom.chain(old(dev).drive(old(vol).pdrv).sectors, first as int) matches Some(s)
            && s.len() == count && s[s.len() - 1] == last,
    ensures
        final(dev).inv(),
        same_volume(*old(vol), *final(vol)),
        final(vol).on(final(dev).drive(old(vol).pdrv)),
        old(dev).drive(old(vol).pdrv).same_but(
            final(dev).drive(old(vol).pdrv),
            |i: int| old(vol).geom.in_tables(i),
        ),
        res is Ok || old(dev).drive(old(vol).pdrv).dependable ==> crate::fat::mirrors_kept(
            old(vol).geom,
            old(dev).drive(old(vol).pdrv).sectors,
            final(dev).drive(old(vol).pdrv).sectors,
        ),
        match res {
            Ok(first_after) => need - count <= free_clusters(
                old(vol).geom.table(old(dev).drive(old(vol).pdrv).sectors),
            ) && supplied(
                old(vol).geom,
                old(dev).drive(old(vol).pdrv),
                final(dev).drive(old(vol).pdrv),
                first,
                first_after,
                need,
            ),
            Err(e) => (e == FsError::DiskFull && need - count > free_clusters(
                old(vol).geom.table(old(dev).drive(old(vol).pdrv).sectors),
            ) && final(dev).drive(old(vol).pdrv) == old(dev).drive(old(vol).pdrv)) || (!old(
                dev,
            ).drive(old(vol).pdrv).dependable && e.is_device()),
        },
{
    let ghost g = vol.geom;
    let ghost d0 = old(dev).drive(vol.pdrv);
    proof {
        lemma_chain_is_chain(
            g.fat_type,
            g.table(d0.sectors),
            first as int,
            g.cluster_count as nat,
        );
    }
    match extend_chain(vol, dev, last, need - count) {
        Err(e) => Err(e),
        Ok(first_new) => {
            proof {
                lemma_supplied_more(g, d0, dev.drive(vol.pdrv), first, first_new, need);
            }
            Ok(first)
        },
    }
}

/// Makes the chain of a file at least `need` clusters long, and gives the
/// first cluster of the chain. `first` is the first cluster so far, or 0
/// where the file has none.
///
/// A refusal leaves the drive as it is; in particular nothing is taken
/// where fewer clusters are free than are missing. Only sectors of the
/// tables change. On a drive that is not dependable a transfer may fail
/// midway: the answer is then the driver's error.
pub fn supply_clusters<H: FatfsDiskHandler>(vol: &mut Volume, dev: &mut H, first: u32, need: u32) -> (res:
    Result<u32, FsError>)
    requires
        old(dev).inv(),
        old(vol).on(old(dev).drive(old(vol).pdrv)),
    ensures
        final(dev).inv(),
        same_volume(*old(vol), *final(vol)),
        final(vol).on(final(dev).drive(old(vol).pdrv)),
        old(dev).drive(old(vol).pdrv).same_but(
            final(dev).drive(old(vol).pdrv),
            |i: int| old(vol).geom.in_tables(i),
        ),
        res is Ok || old(dev).drive(old(vol).pdrv).dependable ==> crate::fat::mirrors_kept(
            old(vol).geom,
            old(dev).drive(old(vol).pdrv).sectors,
            final(dev).drive(old(vol).pdrv).sectors,
        ),
        match res {
            Ok(first_after) => supply_refusal(
                *old(vol),
                old(dev).drive(old(vol).pdrv).sectors,
                first,
                need,
            ) is None && supplied(
                old(vol).geom,
                old(dev).drive(old(vol).pdrv),
                final(dev).drive(old(vol).pdrv),
                first,
                first_after,
                need,
            ),
            Err(e) => (supply_refusal(
                *old(vol),
                old(dev).drive(old(vol).pdrv).sectors,
                first,
                need,
            ) == Some(e) && final(dev).drive(old(vol).pdrv) == old(dev).drive(old(vol).pdrv)) || (
            !old(dev).drive(old(vol).pdrv).dependable && e.is_device()),
        },
{
    let ghost g = vol.geom;
    let ghost d0 = old(dev).drive(vol.pdrv);
    assert(d0.same_but(d0, |i: int| g.in_tables(i)));
    if vol.read_only {
        return Err(FsError::WriteProtected);
    }
    if need == 0 {
        return Err(FsError::InvalidParameter);
    }
    if first == 0 {
        return supply_first(vol, dev, need);
    }
    let (last, count) = match last_cluster(vol, dev, first) {
        Err(e) => {
            return Err(e);
        },
        Ok(r) => r,
    };
    proof {
        lemma_chain_is_chain(
            g.fat_type,
            g.table(d0.sectors),
            first as int,
            g.cluster_count as nat,
        );
        let s0 = g.chain(d0.sectors, first as int)->Some_0;
        assert(count == s0.len());
        assert(last == s0[s0.len() - 1]);
    }
    if count >= need {
        proof {
            let s0 = g.chain(d0.sectors, first as int)->Some_0;
            assert(s0.subrange(0, s0.len() as int) =~= s0);
            crate::fat::lemma_count_free_bound(g.table(d0.sectors), g.entries());
        }
        return Ok(first);
    }
    supply_more(vol, dev, first, last, count, need)
}

/// An open file: where its entry stands, what the entry said when the file
/// was opened or last written, and the position of the next transfer.
#[derive(Clone, Copy, Debug)]
pub struct File {
    /// The directory that holds the file's entry.
    pub dir: u32,
    /// The number of the slot that holds the short entry.
    pub index: u32,
    /// The first cluster of the file's chain, or 0 where it has none.
    pub first_cluster: u32,
    /// The size of the file in bytes.
    pub size: u32,
    /// The position of the next transfer.
    pub pos: u32,
    /// The file was opened for writing.
    pub writable: bool,
    /// The size or the first cluster differ from what the entry says.
    pub dirty: bool,
}

impl File {
    /// The bytes of the file on `disk`: the first `size` bytes that the
    /// clusters of its chain hold. `None` where the chain is corrupt or
    /// holds fewer bytes.
    pub open spec fn data(self, g: Geometry, disk: Seq<Seq<u8>>) -> Option<Seq<u8>> {
        match g.clusters_of(disk, self.first_cluster) {
            Some(s) => if self.size <= s.len() * g.cluster_bytes() {
                Some(g.chain_bytes(disk, s).subrange(0, self.size as int))
            } else {
                None
            },
            None => None,
        }
    }

    /// The number of bytes that a read of `len` bytes gives: as many as lie
    /// between the position and the end of the file, and no more than
    /// `len`.
    pub open spec fn readable(self, len: u32) -> u32 {
        if self.pos >= self.size {
            0
        } else if len < self.size - self.pos {
            len
        } else {
            (self.size - self.pos) as u32
        }
    }
}

/// Reads up to `len` bytes from the position of the file, and moves the
/// position behind what was read.
///
/// Fewer bytes than `len` are given where the file ends before; at or
/// behind the end of the file the answer is empty. `CorruptVolume` is
/// answered where the file's chain ends before its size is reached. The
/// drive is left as it is. On a drive that is not dependable the answer
/// may instead be the error of a failed read.
pub fn file_read<H: FatfsDiskHandler>(vol: &Volume, dev: &mut H, f: &mut File, len: u32) -> (res:
    Result<Vec<u8>, FsError>)
    requires
        old(dev).inv(),
        vol.on(old(dev).drive(vol.pdrv)),
    ensures
        final(dev).inv(),
        final(dev).drive(vol.pdrv) == old(dev).drive(vol.pdrv),
        match res {
            Ok(bytes) => *final(f) == (File { pos: (old(f).pos + old(f).readable(len)) as u32, ..*old(f) })
                && bytes.len() == old(f).readable(len) && read_answer_of(
                vol.geom,
                old(dev).drive(vol.pdrv).sectors,
                old(f).first_cluster,
                old(f).pos,
                old(f).readable(len),
            ) == Ok::<Seq<u8>, FsError>(bytes@),
            Err(e) => *final(f) == *old(f) && ((e == FsError::CorruptVolume && read_answer_of(
                vol.geom,
                old(dev).drive(vol.pdrv).sectors,
                old(f).first_cluster,
                old(f).pos,
                old(f).readable(len),
            ) == Err::<Seq<u8>, FsError>(e)) || (!old(dev).drive(vol.pdrv).dependable
                && e.is_device())),
        },
{
    let n: u32 = if f.pos >= f.size {
        0
    } else if len < f.size - f.pos {
        len
    } else {
        f.size - f.pos
    };
    match read_at(vol, dev, f.first_cluster, f.pos, n) {
        Err(e) => Err(e),
        Ok(bytes) => {
            f.pos = f.pos + n;
            Ok(bytes)
        },
    }
}

/// Moves the position of a file.
///
/// `InvalidParameter` is answered where `position` is negative or larger
/// than the largest file size; the position then stays. A position behind
/// the end of the file is accepted: the next write fills the gap.
pub fn file_seek(f: &mut File, position: i64) -> (res: Result<(), FsError>)
    ensures
        res == if 0 <= position <= u32::MAX {
            Ok::<(), FsError>(())
        } else {
            Err(FsError::InvalidParameter)
        },
        *final(f) == if 0 <= position <= u32::MAX {
            File { pos: position as u32, ..*old(f) }
        } else {
            *old(f)
        },
{
    if position < 0 || position > 0xFFFF_FFFF {
        return Err(FsError::InvalidParameter);
    }
    f.pos = position as u32;
    Ok(())
}

/// Writes `len` zero bytes from position `from` on into the clusters of the
/// chain that begins at `first`.
///
/// The bytes are written a cluster's worth at a time. What `write_into`
/// says of refusals and of what stays holds here as well.
pub fn fill_zeros<H: FatfsDiskHandler>(vol: &Volume, dev: &mut H, first: u32, from: u32, len: u32) -> (res:
    Result<(), FsError>)
    requires
        old(dev).inv(),
        vol.on(old(dev).drive(vol.pdrv)),
    ensures
        final(dev).inv(),
        vol.on(final(dev).drive(vol.pdrv)),
        old(dev).drive(vol.pdrv).same_but(
            final(dev).drive(vol.pdrv),
            |i: int| vol.geom.data_start <= i < vol.geom.end(),
        ),
        vol.geom.table(final(dev).drive(vol.pdrv).sectors) == vol.geom.table(
            old(dev).drive(vol.pdrv).sectors,
        ),
        vol.geom.chain(old(dev).drive(vol.pdrv).sectors, first as int) matches Some(s)
            ==> others_kept(
            vol.geom,
            old(dev).drive(vol.pdrv).sectors,
            final(dev).drive(vol.pdrv).sectors,
            s,
        ),
        match res {
            Ok(_) => write_refusal(
                *vol,
                old(dev).drive(vol.pdrv).sectors,
                first,
                from,
                len as int,
            ) is None && vol.geom.content(final(dev).drive(vol.pdrv).sectors, first) == Some(
                overlay(
                    vol.geom.content(old(dev).drive(vol.pdrv).sectors, first)->Some_0,
                    from as int,
                    zeros(len as nat),
                ),
            ),
            Err(e) => (write_refusal(
                *vol,
                old(dev).drive(vol.pdrv).sectors,
                first,
                from,
                len as int,
            ) == Some(e) && final(dev).drive(vol.pdrv) == old(dev).drive(vol.pdrv)) || (!old(
                dev,
            ).drive(vol.pdrv).dependable && e.is_device()),
        },
{
    let g = &vol.geom;
    let pdrv = vol.pdrv;
    let ghost d0 = old(dev).drive(pdrv);
    let ghost whole = g.chain(d0.sectors, first as int);
    assert(d0.same_but(d0, |i: int| vol.geom.data_start <= i < vol.geom.end()));
    if vol.read_only {
        return Err(FsError::WriteProtected);
    }
    if from as u64 + len as u64 > 0xFFFF_FFFF {
        return Err(FsError::InvalidParameter);
    }
    proof {
        g.lemma_cluster_slots();
    }
    let cb: u32 = g.sectors_per_cluster * g.bytes_per_sector;
    let blank = zero_bytes(cb as usize);
    let empty: Vec<u8> = Vec::new();
    // An empty write settles the refusals before the first chunk is written.
    match write_into(vol, dev, first, from + len, &empty) {
        Err(e) => {
            proof {
                let r = write_refusal(*vol, d0.sectors, first, (from + len) as u32, 0);
                assert(r == write_refusal(*vol, d0.sectors, first, from, len as int));
            }
            return Err(e);
        },
        Ok(_) => {},
    }
    let ghost all0 = g.content(d0.sectors, first)->Some_0;
    let ghost d1 = dev.drive(pdrv);
    assert(overlay(all0, (from + len) as int, empty@) =~= all0);
    assert(overlay(all0, from as int, zeros(0)) =~= all0);
    let mut done: u32 = 0;
    while done < len
        invariant
            done <= len,
            from + len <= u32::MAX,
            *g == vol.geom,
            pdrv == vol.pdrv,
            cb == g.cluster_bytes(),
            1 <= cb <= 524288,
            blank@ == zeros(cb as nat),
            dev.inv(),
            d0 == old(dev).drive(pdrv),
            vol.on(d0),
            vol.on(dev.drive(pdrv)),
            g.table(dev.drive(pdrv).sectors) == g.table(d0.sectors),
            d0.same_but(dev.drive(pdrv), |i: int| vol.geom.data_start <= i < vol.geom.end()),
            write_refusal(*vol, d0.sectors, first, from, len as int) is None,
            g.content(d0.sectors, first) == Some(all0),
            g.content(dev.drive(pdrv).sectors, first) == Some(
                overlay(all0, from as int, zeros(done as nat)),
            ),
            whole == g.chain(d0.sectors, first as int),
            whole matches Some(s) ==> others_kept(*g, d0.sectors, dev.drive(pdrv).sectors, s),
        decreases len - done,
    {
        let n: u32 = if len - done < cb {
            len - done
        } else {
            cb
        };
        let chunk = copy_range(&blank, 0, n as usize);
        let ghost cur = dev.drive(pdrv);
        assert(chunk@ =~= zeros(n as nat));
        match write_into(vol, dev, first, from + done, &chunk) {
            Err(e) => {
                proof {
                    lemma_data_twice(*g, d0, cur, dev.drive(pdrv));
                    if whole is Some {
                        assert(g.chain(cur.sectors, first as int) == whole);
                        lemma_others_twice(
                            *g,
                            d0.sectors,
                            cur.sectors,
                            dev.drive(pdrv).sectors,
                            whole->Some_0,
                        );
                    }
                }
                return Err(e);
            },
            Ok(_) => {},
        }
        proof {
            lemma_data_twice(*g, d0, cur, dev.drive(pdrv));
            if whole is Some {
                assert(g.chain(cur.sectors, first as int) == whole);
                lemma_others_twice(*g, d0.sectors, cur.sectors, dev.drive(pdrv).sectors, whole->Some_0);
            }
            let z = zeros((done + n) as nat);
            assert(z.subrange(0, done as int) =~= zeros(done as nat));
            assert(z.subrange(done as int, done + n) =~= zeros(n as nat));
            lemma_overlay_chain(all0, from as int, z, done as int, n as int);
            assert(z.subrange(0, done + n) =~= z);
        }
        done = done + n;
    }
    Ok(())
}

/// The bytes of a file after `data` was written at position `pos`: where
/// the write ends behind the old end of the file, the file has grown, and
/// zero bytes fill what lies between the old end and `pos`.
pub open spec fn write_result(was: Seq<u8>, pos: int, data: Seq<u8>) -> Seq<u8> {
    if pos + data.len() > was.len() {
        overlay(was + zeros((pos + data.len() - was.len()) as nat), pos, data)
    } else {
        overlay(was, pos, data)
    }
}

/// Why a write to a file is refused, if it is.
pub open spec fn file_write_refusal(vol: Volume, disk: Seq<Seq<u8>>, f: File, len: int) -> Option<
    FsError,
> {
    let g = vol.geom;
    if !f.writable || f.pos + len > u32::MAX {
        Some(FsError::InvalidParameter)
    } else if vol.read_only {
        Some(FsError::WriteProtected)
    } else if f.data(g, disk) is None {
        Some(FsError::CorruptVolume)
    } else if (f.pos + len + g.cluster_bytes() - 1) / g.cluster_bytes() - g.clusters_of(
        disk,
        f.first_cluster,
    )->Some_0.len() > free_clusters(g.table(disk)) {
        Some(FsError::DiskFull)
    } else {
        None
    }
}

/// What the clusters of a file hold after a write gives the file's new
/// bytes.
proof fn lemma_write_result(
    was: Seq<u8>,
    all1: Seq<u8>,
    all3: Seq<u8>,
    size: int,
    pos: int,
    data: Seq<u8>,
)
    requires
        0 <= size == was.len(),
        0 <= pos,
        size <= all1.len(),
        pos + data.len() <= all1.len(),
        all1.subrange(0, size) == was,
        all3 == overlay(
            if pos > size {
                overlay(all1, size, zeros((pos - size) as nat))
            } else {
                all1
            },
            pos,
            data,
        ),
    ensures
        all3.subrange(
            0,
            if pos + data.len() > size {
                pos + data.len()
            } else {
                size
            },
        ) == write_result(was, pos, data),
{
    let end = pos + data.len();
    let newsize = if end > size {
        end
    } else {
        size
    };
    let got = all3.subrange(0, newsize);
    let want = write_result(was, pos, data);
    assert(got.len() == want.len());
    assert forall|p: int| 0 <= p < newsize implies got[p] == want[p] by {
        if p < size {
            assert(all1.subrange(0, size)[p] == was[p]);
        }
    }
    assert(got =~= want);
}

/// Counts the clusters of a file and checks that they hold as many bytes
/// as the file has.
///
/// `CorruptVolume` is answered where the file's chain is corrupt or holds
/// fewer bytes than the size of the file. The drive is left as it is.
pub fn check_file<H: FatfsDiskHandler>(vol: &Volume, dev: &mut H, f: &File) -> (res: Result<
    u32,
    FsError,
>)
    requires
        old(dev).inv(),
        vol.on(old(dev).drive(vol.pdrv)),
    ensures
        final(dev).inv(),
        final(dev).drive(vol.pdrv) == old(dev).drive(vol.pdrv),
        match res {
            Ok(count) => f.data(vol.geom, old(dev).drive(vol.pdrv).sectors) is Some && count
                == vol.geom.clusters_of(
                old(dev).drive(vol.pdrv).sectors,
                f.first_cluster,
            )->Some_0.len(),
            Err(e) => (e == FsError::CorruptVolume && f.data(
                vol.geom,
                old(dev).drive(vol.pdrv).sectors,
            ) is None) || (!old(dev).drive(vol.pdrv).dependable && e.is_device()),
        },
{
    let g = &vol.geom;
    let ghost d0 = old(dev).drive(vol.pdrv);
    proof {
        g.lemma_cluster_slots();
    }
    let cb: u32 = g.sectors_per_cluster * g.bytes_per_sector;
    let count: u32 = if f.first_cluster == 0 {
        0
    } else {
        match last_cluster(vol, dev, f.first_cluster) {
            Err(e) => {
                return Err(e);
            },
            Ok((_, n)) => n,
        }
    };
    proof {
        if f.first_cluster != 0 {
            lemma_chain_is_chain(
                g.fat_type,
                g.table(d0.sectors),
                f.first_cluster as int,
                g.cluster_count as nat,
            );
        }
    }
    assert(count * cb <= 0x0FFF_FFF5 * 524288) by (nonlinear_arith)
        requires
            count <= 0x0FFF_FFF5,
            cb <= 524288,
    ;
    if f.size as u64 > count as u64 * cb as u64 {
        return Err(FsError::CorruptVolume);
    }
    Ok(count)
}

/// Writes `data` at position `pos` into the clusters of a chain that is
/// long enough, after zero bytes from `size` to `pos` where `pos` lies
/// behind `size`.
fn put_data<H: FatfsDiskHandler>(
    vol: &Volume,
    dev: &mut H,
    first: u32,
    size: u32,
    pos: u32,
    data: &Vec<u8>,
) -> (res: Result<(), FsError>)
    requires
        old(dev).inv(),
        vol.on(old(dev).drive(vol.pdrv)),
        !vol.read_only,
        pos + data.len() <= u32::MAX,
        vol.geom.chain(old(dev).drive(vol.pdrv).sectors, first as int) matches Some(s) && pos
            + data.len() <= s.len() * vol.geom.cluster_bytes() && size <= s.len()
            * vol.geom.cluster_bytes(),
    ensures
        final(dev).inv(),
        vol.on(final(dev).drive(vol.pdrv)),
        old(dev).drive(vol.pdrv).same_but(
            final(dev).drive(vol.pdrv),
            |i: int| vol.geom.data_start <= i < vol.geom.end(),
        ),
        vol.geom.table(final(dev).drive(vol.pdrv).sectors) == vol.geom.table(
            old(dev).drive(vol.pdrv).sectors,
        ),
        others_kept(
            vol.geom,
            old(dev).drive(vol.pdrv).sectors,
            final(dev).drive(vol.pdrv).sectors,
            vol.geom.chain(old(dev).drive(vol.pdrv).sectors, first as int)->Some_0,
        ),
        match res {
            Ok(_) => vol.geom.content(final(dev).drive(vol.pdrv).sectors, first) == Some(
                overlay(
                    if pos > size {
                        overlay(
                            vol.geom.content(old(dev).drive(vol.pdrv).sectors, first)->Some_0,
                            size as int,
                            zeros((pos - size) as nat),
                        )
                    } else {
                        vol.geom.content(old(dev).drive(vol.pdrv).sectors, first)->Some_0
                    },
                    pos as int,
                    data@,
                ),
            ),
            Err(e) => !old(dev).drive(vol.pdrv).dependable && e.is_device(),
        },
{
    let ghost d0 = old(dev).drive(vol.pdrv);
    let ghost whole = vol.geom.chain(d0.sectors, first as int)->Some_0;
    assert(d0.same_but(d0, |i: int| vol.geom.data_start <= i < vol.geom.end()));
    assert(others_kept(vol.geom, d0.sectors, d0.sectors, whole));
    if pos > size {
        match fill_zeros(vol, dev, first, size, pos - size) {
            Err(e) => {
                return Err(e);
            },
            Ok(_) => {},
        }
    }
    let ghost d1 = dev.drive(vol.pdrv);
    let r = write_into(vol, dev, first, pos, data);
    proof {
        lemma_data_twice(vol.geom, d0, d1, dev.drive(vol.pdrv));
        assert(vol.geom.chain(d1.sectors, first as int) == Some(whole));
        lemma_others_twice(vol.geom, d0.sectors, d1.sectors, dev.drive(vol.pdrv).sectors, whole);
    }
    r
}

/// After a file was supplied with clusters and the data was put into
/// them, the file holds the bytes that the write should leave.
proof fn lemma_file_written(
    g: Geometry,
    d0: Drive,
    d1: Drive,
    d3: Drive,
    f0: File,
    first: u32,
    need: u32,
    data: Seq<u8>,
)
    requires
        g.wf(),
        d0.wf(),
        d1.wf(),
        d3.wf(),
        g.fits(d0),
        g.fits(d1),
        g.fits(d3),
        data.len() >= 1,
        f0.pos + data.len() <= u32::MAX,
        f0.data(g, d0.sectors) is Some,
        need == (f0.pos + data.len() + g.cluster_bytes() - 1) / g.cluster_bytes(),
        supplied(g, d0, d1, f0.first_cluster, first, need),
        g.table(d3.sectors) == g.table(d1.sectors),
        g.content(d3.sectors, first) == Some(
            overlay(
                if f0.pos > f0.size {
                    overlay(
                        g.content(d1.sectors, first)->Some_0,
                        f0.size as int,
                        zeros((f0.pos - f0.size) as nat),
                    )
                } else {
                    g.content(d1.sectors, first)->Some_0
                },
                f0.pos as int,
                data,
            ),
        ),
    ensures
        (File {
            first_cluster: first,
            size: if f0.pos + data.len() > f0.size {
                (f0.pos + data.len()) as u32
            } else {
                f0.size
            },
            ..f0
        }).data(g, d3.sectors) == Some(
            write_result(f0.data(g, d0.sectors)->Some_0, f0.pos as int, data),
        ),
        f0.pos + data.len() <= g.chain(d1.sectors, first as int)->Some_0.len() * g.cluster_bytes(),
        f0.size <= g.chain(d1.sectors, first as int)->Some_0.len() * g.cluster_bytes(),
{
    let t = g.fat_type;
    let cb = g.cluster_bytes();
    let end = f0.pos + data.len();
    let s0 = g.clusters_of(d0.sectors, f0.first_cluster)->Some_0;
    let s1 = g.chain(d1.sectors, first as int)->Some_0;
    lemma_chain_is_chain(t, g.table(d1.sectors), first as int, g.cluster_count as nat);
    g.lemma_cluster_disk(d1, s1);
    g.lemma_cluster_disk(d3, s1);
    assert(end <= need * cb) by (nonlinear_arith)
        requires
            need == (end + cb - 1) / cb,
            cb > 0,
    ;
    assert(need * cb <= s1.len() * cb && s0.len() * cb <= s1.len() * cb) by (nonlinear_arith)
        requires
            need <= s1.len(),
            s0.len() <= s1.len(),
            cb > 0,
    ;
    let all0 = g.chain_bytes(d0.sectors, s0);
    let all1 = g.chain_bytes(d1.sectors, s1);
    let all3 = g.content(d3.sectors, first)->Some_0;
    let was = f0.data(g, d0.sectors)->Some_0;
    let fresh = s1.subrange(s0.len() as int, s1.len() as int);
    assert(s1 =~= s0 + fresh);
    assert forall|j: int| 0 <= j < s0.len() implies g.holds(#[trigger] s0[j]) by {
        assert(s0[j] == s1.subrange(0, s0.len() as int)[j]);
        assert(g.holds(s1[j]));
    }
    assert forall|j: int| 0 <= j < fresh.len() implies g.holds(#[trigger] fresh[j]) by {
        assert(fresh[j] == s1[s0.len() + j]);
    }
    g.lemma_chain_bytes_add(d1, s0, fresh);
    g.lemma_cluster_disk(d1, s0);
    assert(g.chain_bytes(d1.sectors, s0) == all0);
    assert(all1.subrange(0, f0.size as int) =~= was);
    lemma_write_result(was, all1, all3, f0.size as int, f0.pos as int, data);
}

/// The chain of a file after it was given room for `need` clusters: the
/// chain that began at `first` on `before` begins at `first_after` on
/// `after`, has the old clusters at its beginning and `need` clusters
/// where it had fewer, and as many fewer clusters are free as it has
/// grown by. The clusters of other chains hold what they held, and no
/// sector of the root directory has changed.
pub open spec fn chain_grown(
    g: Geometry,
    before: Drive,
    after: Drive,
    first: u32,
    first_after: u32,
    need: int,
) -> bool {
    g.clusters_of(before.sectors, first) matches Some(s0) && g.clusters_of(
        after.sectors,
        first_after,
    ) matches Some(s1) && {
        &&& first != 0 ==> first_after == first
        &&& s1.len() == if s0.len() < need {
            need
        } else {
            s0.len() as int
        }
        &&& s1.subrange(0, s0.len() as int) == s0
        &&& free_clusters(g.table(after.sectors)) == free_clusters(g.table(before.sectors)) - (
        s1.len() - s0.len())
        &&& others_kept(g, before.sectors, after.sectors, s1)
        &&& before.same_but(after, |i: int| g.in_tables(i) || g.data_start <= i < g.end())
    }
}

/// The chain of a file after it was cut to `keep` clusters: the chain on
/// `after` is the first `keep` clusters of the chain on `before`, the
/// clusters behind them are free again, and nothing but the tables has
/// changed. A file that keeps no cluster has the first cluster 0.
pub open spec fn chain_cut(
    g: Geometry,
    before: Drive,
    after: Drive,
    first: u32,
    first_after: u32,
    keep: int,
) -> bool {
    g.clusters_of(before.sectors, first) matches Some(s0) && {
        &&& 0 <= keep <= s0.len()
        &&& first_after == if keep == 0 {
            0
        } else {
            first
        }
        &&& g.clusters_of(after.sectors, first_after) == Some(s0.subrange(0, keep))
        &&& free_clusters(g.table(after.sectors)) == free_clusters(g.table(before.sectors))
            + s0.len() - keep
        &&& before.same_but(after, |i: int| g.in_tables(i))
    }
}

/// What a write of the bytes `data`, which are not none, leaves: nothing
/// refused the write; the file is marked as changed, its position lies
/// behind what was written, its size is the larger of the old size and
/// the new position, and its directory, its slot and its mode are as they
/// were; it holds what `write_result` says; and its chain has grown as
/// `chain_grown` says, to as many clusters as hold its bytes up to the
/// new position.
pub open spec fn written(vol: Volume, before: Drive, after: Drive, f0: File, f1: File, data: Seq<u8>) -> bool {
    let g = vol.geom;
    let end = f0.pos + data.len();
    &&& file_write_refusal(vol, before.sectors, f0, data.len() as int) is None
    &&& f1 == (File {
        first_cluster: f1.first_cluster,
        size: if end > f0.size {
            end as u32
        } else {
            f0.size
        },
        pos: end as u32,
        dirty: true,
        ..f0
    })
    &&& f1.data(g, after.sectors) == Some(write_result(f0.data(g, before.sectors)->Some_0, f0.pos as int, data))
    &&& chain_grown(
        g,
        before,
        after,
        f0.first_cluster,
        f1.first_cluster,
        (end + g.cluster_bytes() - 1) / g.cluster_bytes(),
    )
}

/// Writes `data` at the position of the file, and moves the position
/// behind what was written.
///
/// See `written` for what holds afterwards. The file's chain is made
/// longer where the write ends behind it. Where
/// the position lies behind the end of the file, zero bytes are written
/// from the end of the file to the position. A refusal leaves the drive
/// and the file as they are; `DiskFull` is such a refusal. Writing no
/// bytes changes nothing. On a drive that is not dependable a transfer may
/// fail midway: the answer is then the driver's error.
pub fn file_write<H: FatfsDiskHandler>(vol: &mut Volume, dev: &mut H, f: &mut File, data: &Vec<u8>) -> (res:
    Result<u32, FsError>)
    requires
        old(dev).inv(),
        old(vol).on(old(dev).drive(old(vol).pdrv)),
    ensures
        final(dev).inv(),
        same_volume(*old(vol), *final(vol)),
        final(vol).on(final(dev).drive(old(vol).pdrv)),
        old(dev).drive(old(vol).pdrv).same_but(
            final(dev).drive(old(vol).pdrv),
            |i: int| old(vol).geom.fat_start <= i < old(vol).geom.end(),
        ),
        crate::dirops::body_changed(
            old(vol).geom,
            old(dev).drive(old(vol).pdrv),
            final(dev).drive(old(vol).pdrv),
        ),
        final(f).dir == old(f).dir && final(f).index == old(f).index && final(f).writable == old(
            f,
        ).writable,
        match res {
            Ok(n) => n == data.len() && if n == 0 {
                *final(f) == *old(f) && final(dev).drive(old(vol).pdrv) == old(dev).drive(
                    old(vol).pdrv,
                )
            } else {
                written(
                    *old(vol),
                    old(dev).drive(old(vol).pdrv),
                    final(dev).drive(old(vol).pdrv),
                    *old(f),
                    *final(f),
                    data@,
                )
            },
            Err(e) => (file_write_refusal(
                *old(vol),
                old(dev).drive(old(vol).pdrv).sectors,
                *old(f),
                data.len() as int,
            ) == Some(e) && final(dev).drive(old(vol).pdrv) == old(dev).drive(old(vol).pdrv)
                && *final(f) == *old(f)) || (!old(dev).drive(old(vol).pdrv).dependable
                && e.is_device()),
        },
{
    let g = vol.geom;
    let pdrv = vol.pdrv;
    let ghost d0 = old(dev).drive(pdrv);
    let ghost f0 = *old(f);
    assert(d0.same_but(d0, |i: int| g.fat_start <= i < g.end()));
    if data.len() == 0 {
        return Ok(0);
    }
    if !f.writable || data.len() > 0xFFFF_FFFF || f.pos as u64 + data.len() as u64 > 0xFFFF_FFFF {
        return Err(FsError::InvalidParameter);
    }
    if vol.read_only {
        return Err(FsError::WriteProtected);
    }
    let len: u32 = data.len() as u32;
    let end: u32 = f.pos + len;
    match check_file(vol, dev, f) {
        Err(e) => {
            return Err(e);
        },
        Ok(_) => {},
    }
    proof {
        g.lemma_cluster_slots();
    }
    let cb: u32 = g.sectors_per_cluster * g.bytes_per_sector;
    assert(1 <= (end + cb - 1) / (cb as int) <= end) by (nonlinear_arith)
        requires
            end >= 1,
            cb >= 1,
    ;
    let need: u32 = ((end as u64 + cb as u64 - 1) / cb as u64) as u32;
    let first = match supply_clusters(vol, dev, f.first_cluster, need) {
        Err(e) => {
            proof {
                lemma_tables_in_volume(g, d0, dev.drive(pdrv));
            }
            return Err(e);
        },
        Ok(c) => c,
    };
    let ghost d1 = dev.drive(pdrv);
    proof {
        lemma_tables_in_volume(g, d0, d1);
        dev.inv_shape(pdrv);
        lemma_supplied_room(g, d0, d1, f0, first, need, data@.len() as int);
        crate::dirops::lemma_tables_in_body(g, d0, d1);
    }
    f.first_cluster = first;
    f.dirty = true;
    match put_data(vol, dev, first, f.size, f.pos, data) {
        Err(e) => {
            proof {
                lemma_data_in_volume(g, d1, dev.drive(pdrv));
                lemma_volume_twice(g, d0, d1, dev.drive(pdrv));
                lemma_put_in_body(g, d0, d1, dev.drive(pdrv));
            }
            return Err(e);
        },
        Ok(_) => {},
    }
    proof {
        let d3 = dev.drive(pdrv);
        dev.inv_shape(pdrv);
        lemma_data_in_volume(g, d1, d3);
        lemma_volume_twice(g, d0, d1, d3);
        lemma_put_in_body(g, d0, d1, d3);
        lemma_file_written(g, d0, d1, d3, f0, first, need, data@);
        assert(g.chain(d3.sectors, first as int) == g.chain(d1.sectors, first as int));
        let s1 = g.chain(d1.sectors, first as int)->Some_0;
        lemma_data_kept(g, d0, d1, s1);
        lemma_others_twice(g, d0.sectors, d1.sectors, d3.sectors, s1);
        assert(d0.same_but(d3, |i: int| g.in_tables(i) || g.data_start <= i < g.end())) by {
            assert forall|i: int|
                0 <= i < d0.sectors.len() && !(g.in_tables(i) || g.data_start <= i < g.end())
                implies #[trigger] d3.sectors[i] == d0.sectors[i] by {
                assert(d1.sectors[i] == d0.sectors[i]);
            }
        }
        assert(chain_grown(g, d0, d3, f0.first_cluster, first, need as int));
    }
    if end > f.size {
        f.size = end;
    }
    f.pos = end;
    Ok(len)
}

/// A file that was supplied with clusters for a write has room for the
/// write and for what it held.
proof fn lemma_supplied_room(
    g: Geometry,
    d0: Drive,
    d1: Drive,
    f0: File,
    first: u32,
    need: u32,
    len: int,
)
    requires
        g.wf(),
        d1.wf(),
        g.fits(d1),
        len >= 1,
        f0.data(g, d0.sectors) is Some,
        need == (f0.pos + len + g.cluster_bytes() - 1) / g.cluster_bytes(),
        supplied(g, d0, d1, f0.first_cluster, first, need),
    ensures
        g.chain(d1.sectors, first as int) matches Some(s) && f0.pos + len <= s.len()
            * g.cluster_bytes() && f0.size <= s.len() * g.cluster_bytes(),
{
    let cb = g.cluster_bytes();
    let end = f0.pos + len;
    let s0 = g.clusters_of(d0.sectors, f0.first_cluster)->Some_0;
    let s1 = g.chain(d1.sectors, first as int)->Some_0;
    lemma_chain_is_chain(g.fat_type, g.table(d1.sectors), first as int, g.cluster_count as nat);
    g.lemma_cluster_disk(d1, s1);
    assert(end <= need * cb) by (nonlinear_arith)
        requires
            need == (end + cb - 1) / cb,
            cb > 0,
    ;
    assert(need * cb <= s1.len() * cb && s0.len() * cb <= s1.len() * cb) by (nonlinear_arith)
        requires
            need <= s1.len(),
            s0.len() <= s1.len(),
            cb > 0,
    ;
}

/// A change within the volume and then one within the data region add up
/// to a change within the volume.
proof fn lemma_put_in_body(g: Geometry, a: Drive, b: Drive, c: Drive)
    requires
        g.wf(),
        g.fits(b),
        crate::dirops::body_changed(g, a, b),
        b.same_but(c, |i: int| g.data_start <= i < g.end()),
    ensures
        crate::dirops::body_changed(g, a, c),
{
    g.lemma_copy_bounds(0);
    crate::fat::lemma_mirrors_same(g, b, c, |i: int| g.data_start <= i < g.end());
    assert(crate::dirops::body_changed(g, b, c));
    crate::dirops::lemma_body_twice(g, a, b, c);
}

/// A change within the tables is a change within the volume.
pub proof fn lemma_tables_in_volume(g: Geometry, a: Drive, b: Drive)
    requires
        g.wf(),
        a.same_but(b, |i: int| g.in_tables(i)),
    ensures
        a.same_but(b, |i: int| g.fat_start <= i < g.end()),
{
    g.lemma_copy_bounds(0);
}

/// A change within the data region is a change within the volume.
pub proof fn lemma_data_in_volume(g: Geometry, a: Drive, b: Drive)
    requires
        g.wf(),
        a.same_but(b, |i: int| g.data_start <= i < g.end()),
    ensures
        a.same_but(b, |i: int| g.fat_start <= i < g.end()),
{
    g.lemma_copy_bounds(0);
}

/// Changes within the volume add up to a change within the volume.
pub proof fn lemma_volume_twice(g: Geometry, a: Drive, b: Drive, c: Drive)
    requires
        a.same_but(b, |i: int| g.fat_start <= i < g.end()),
        b.same_but(c, |i: int| g.fat_start <= i < g.end()),
    ensures
        a.same_but(c, |i: int| g.fat_start <= i < g.end()),
{
    assert forall|i: int|
        0 <= i < a.sectors.len() && !(g.fat_start <= i < g.end()) implies #[trigger] c.sectors[i]
        == a.sectors[i] by {
        assert(b.sectors[i] == a.sectors[i]);
    }
}

impl Geometry {
    /// The bytes of a sound chain, position by position: the byte at
    /// position `p` lies in cluster `p / cluster_bytes` of the chain.
    pub proof fn lemma_chain_byte(self, d: Drive, first: u32, p: int)
        requires
            self.wf(),
            d.wf(),
            self.fits(d),
            self.chain(d.sectors, first as int) is Some,
            0 <= p < self.chain(d.sectors, first as int)->Some_0.len() * self.cluster_bytes(),
        ensures
            self.file_byte(d.sectors, first, p) == Some(self.content(d.sectors, first)->Some_0[p]),
    {
        let t = self.fat_type;
        let table = self.table(d.sectors);
        let s = self.chain(d.sectors, first as int)->Some_0;
        let cb = self.cluster_bytes();
        lemma_chain_is_chain(t, table, first as int, self.cluster_count as nat);
        self.lemma_cluster_disk(d, s);
        crate::region::lemma_flat_index(
            self.cluster_disk(d.sectors, s),
            0,
            s.len() as int,
            cb as nat,
            p,
        );
        lemma_chain_walk(t, table, s, (p / cb) as nat);
    }

    /// The bytes of a file number as many as its size says.
    pub proof fn lemma_data_len(self, d: Drive, f: File)
        requires
            self.wf(),
            d.wf(),
            self.fits(d),
            f.data(self, d.sectors) is Some,
        ensures
            f.data(self, d.sectors)->Some_0.len() == f.size,
    {
        let cb = self.cluster_bytes();
        let all = self.clusters_of(d.sectors, f.first_cluster)->Some_0;
        if f.first_cluster == 0 {
            assert(all.len() * cb == 0) by (nonlinear_arith)
                requires
                    all.len() == 0,
            ;
        } else {
            lemma_chain_is_chain(
                self.fat_type,
                self.table(d.sectors),
                f.first_cluster as int,
                self.cluster_count as nat,
            );
            self.lemma_cluster_disk(d, all);
        }
    }

    /// Reading a range of a file whose chain is sound gives the bytes of
    /// the file in that range.
    pub proof fn lemma_range_of_data(self, d: Drive, f: File, from: int, len: int)
        requires
            self.wf(),
            d.wf(),
            self.fits(d),
            f.data(self, d.sectors) is Some,
            0 <= from,
            0 <= len,
            from + len <= f.size,
        ensures
            self.file_range(d.sectors, f.first_cluster, from, len) == Some(
                f.data(self, d.sectors)->Some_0.subrange(from, from + len),
            ),
    {
        let bytes = f.data(self, d.sectors)->Some_0;
        let cb = self.cluster_bytes();
        let all = self.clusters_of(d.sectors, f.first_cluster)->Some_0;
        if f.first_cluster == 0 {
            assert(all.len() * cb == 0) by (nonlinear_arith)
                requires
                    all.len() == 0,
            ;
        } else {
            lemma_chain_is_chain(
                self.fat_type,
                self.table(d.sectors),
                f.first_cluster as int,
                self.cluster_count as nat,
            );
            self.lemma_cluster_disk(d, all);
        }
        assert(bytes.len() == f.size);
        if len > 0 {
            let s = self.chain(d.sectors, f.first_cluster as int)->Some_0;
            self.lemma_chain_byte(d, f.first_cluster, from + len - 1);
            let got = self.file_range(d.sectors, f.first_cluster, from, len)->Some_0;
            assert forall|i: int| 0 <= i < len implies got[i] == bytes.subrange(from, from + len)[i] by {
                self.lemma_chain_byte(d, f.first_cluster, from + i);
            }
            assert(got =~= bytes.subrange(from, from + len));
        } else {
            assert(bytes.subrange(from, from + len) =~= Seq::<u8>::empty());
        }
    }
}

/// What was written to a file is what a read at the same position gives:
/// where a write has left the file with the bytes that `write_result`
/// names, the range that was written holds `data`.
pub proof fn lemma_write_then_read(
    g: Geometry,
    d: Drive,
    f: File,
    was: Seq<u8>,
    pos: int,
    data: Seq<u8>,
)
    requires
        g.wf(),
        d.wf(),
        g.fits(d),
        0 <= pos,
        f.data(g, d.sectors) == Some(write_result(was, pos, data)),
        f.size == if pos + data.len() > was.len() {
            pos + data.len()
        } else {
            was.len() as int
        },
    ensures
        g.file_range(d.sectors, f.first_cluster, pos, data.len() as int) == Some(data),
{
    g.lemma_range_of_data(d, f, pos, data.len() as int);
    assert(write_result(was, pos, data).subrange(pos, pos + data.len()) =~= data);
}

/// Writes the size, the first cluster and the time of the last write of a
/// file into its directory entry, where they have changed, and asks the
/// driver to complete every pending write.
///
/// See `update_refusal` for the refusals, which leave the drive and the
/// file as they are. No sector of the tables changes. On a drive that is
/// not dependable the answer may be the error of a failed transfer; the
/// file then stays marked as changed.
pub fn file_sync<H: FatfsDiskHandler>(vol: &Volume, dev: &mut H, f: &mut File, stamp: Stamp) -> (res:
    Result<(), FsError>)
    requires
        old(dev).inv(),
        vol.on(old(dev).drive(vol.pdrv)),
    ensures
        final(dev).inv(),
        vol.on(final(dev).drive(vol.pdrv)),
        old(dev).drive(vol.pdrv).same_but(
            final(dev).drive(vol.pdrv),
            |i: int| vol.geom.root_start <= i < vol.geom.end(),
        ),
        vol.geom.table(final(dev).drive(vol.pdrv).sectors) == vol.geom.table(
            old(dev).drive(vol.pdrv).sectors,
        ),
        !old(f).dirty ==> final(dev).drive(vol.pdrv) == old(dev).drive(vol.pdrv),
        match res {
            Ok(_) => {
                &&& *final(f) == (File { dirty: false, ..*old(f) })
                &&& old(f).dirty ==> crate::dirops::update_refusal(
                    *vol,
                    old(dev).drive(vol.pdrv).sectors,
                    old(f).dir,
                    old(f).index as int,
                ) is None && crate::dir::slot_frame(
                    vol.geom,
                    old(dev).drive(vol.pdrv),
                    final(dev).drive(vol.pdrv),
                    old(f).dir,
                    old(f).index as int,
                )
                &&& old(f).dirty ==> (vol.geom.slot(
                    old(dev).drive(vol.pdrv).sectors,
                    old(f).dir,
                    old(f).index as int,
                ) matches Some(was) && crate::dir::slots_written(
                    vol.geom,
                    old(dev).drive(vol.pdrv),
                    final(dev).drive(vol.pdrv),
                    old(f).dir,
                    old(f).index as int,
                    seq![crate::dirent::restamped(was, old(f).first_cluster, old(f).size, stamp)],
                ))
            },
            Err(e) => *final(f) == *old(f) && ((old(f).dirty && crate::dirops::update_refusal(
                *vol,
                old(dev).drive(vol.pdrv).sectors,
                old(f).dir,
                old(f).index as int,
            ) == Some(e) && final(dev).drive(vol.pdrv) == old(dev).drive(vol.pdrv)) || (!old(
                dev,
            ).drive(vol.pdrv).dependable && e.is_device())),
        },
{
    let ghost d0 = old(dev).drive(vol.pdrv);
    assert(d0.same_but(d0, |i: int| vol.geom.root_start <= i < vol.geom.end()));
    if f.dirty {
        match update_entry(vol, dev, f.dir, f.index, f.first_cluster, f.size, stamp) {
            Err(e) => {
                return Err(e);
            },
            Ok(_) => {},
        }
    }
    match crate::diskio::sync_drive(dev, vol.pdrv) {
        Err(e) => Err(e),
        Ok(_) => {
            f.dirty = false;
            Ok(())
        },
    }
}

/// Makes a file longer, with zero bytes behind its old end: a zero byte is
/// written as the last byte of the longer file, and the write fills what
/// lies before it.
fn grow_file<H: FatfsDiskHandler>(vol: &mut Volume, dev: &mut H, f: &mut File, new_size: u32) -> (res:
    Result<(), FsError>)
    requires
        old(dev).inv(),
        old(vol).on(old(dev).drive(old(vol).pdrv)),
        !old(vol).read_only,
        old(f).writable,
        new_size > old(f).size,
    ensures
        final(dev).inv(),
        same_volume(*old(vol), *final(vol)),
        final(vol).on(final(dev).drive(old(vol).pdrv)),
        old(dev).drive(old(vol).pdrv).same_but(
            final(dev).drive(old(vol).pdrv),
            |i: int| old(vol).geom.fat_start <= i < old(vol).geom.end(),
        ),
        crate::dirops::body_changed(
            old(vol).geom,
            old(dev).drive(old(vol).pdrv),
            final(dev).drive(old(vol).pdrv),
        ),
        final(f).dir == old(f).dir && final(f).index == old(f).index && final(f).writable == old(
            f,
        ).writable && final(f).pos == old(f).pos,
        match res {
            Ok(_) => file_write_refusal(
                *old(vol),
                old(dev).drive(old(vol).pdrv).sectors,
                File { pos: (new_size - 1) as u32, ..*old(f) },
                1,
            ) is None && *final(f) == (File {
                first_cluster: final(f).first_cluster,
                size: new_size,
                dirty: true,
                ..*old(f)
            }) && final(f).data(old(vol).geom, final(dev).drive(old(vol).pdrv).sectors) == Some(
                old(f).data(old(vol).geom, old(dev).drive(old(vol).pdrv).sectors)->Some_0 + zeros(
                    (new_size - old(f).size) as nat,
                ),
            ) && chain_grown(
                old(vol).geom,
                old(dev).drive(old(vol).pdrv),
                final(dev).drive(old(vol).pdrv),
                old(f).first_cluster,
                final(f).first_cluster,
                kept_clusters(old(vol).geom, new_size),
            ),
            Err(e) => (file_write_refusal(
                *old(vol),
                old(dev).drive(old(vol).pdrv).sectors,
                File { pos: (new_size - 1) as u32, ..*old(f) },
                1,
            ) == Some(e) && final(dev).drive(old(vol).pdrv) == old(dev).drive(old(vol).pdrv)
                && *final(f) == *old(f)) || (!old(dev).drive(old(vol).pdrv).dependable
                && e.is_device()),
        },
{
    let ghost g = vol.geom;
    let ghost d0 = old(dev).drive(vol.pdrv);
    let ghost f0 = *old(f);
    let pos = f.pos;
    let mut zero: Vec<u8> = Vec::new();
    zero.push(0u8);
    f.pos = new_size - 1;
    let r = file_write(vol, dev, f, &zero);
    f.pos = pos;
    proof {
        if r is Ok {
            let at = File { pos: (new_size - 1) as u32, ..f0 };
            assert(at.data(g, d0.sectors) == f0.data(g, d0.sectors));
            let was = f0.data(g, d0.sectors)->Some_0;
            old(dev).inv_shape(old(vol).pdrv);
            g.lemma_data_len(d0, f0);
            assert(was.len() == f0.size);
            assert(write_result(was, new_size - 1, zero@) =~= was + zeros(
                (new_size - f0.size) as nat,
            ));
            let now = *f;
            let moved = File { pos: new_size, ..now };
            assert(now.data(g, dev.drive(vol.pdrv).sectors) == moved.data(
                g,
                dev.drive(vol.pdrv).sectors,
            ));
        }
    }
    match r {
        Err(e) => Err(e),
        Ok(_) => Ok(()),
    }
}

/// What is left of a chain that was cut behind its first `keep` clusters,
/// after the clusters behind them were set free.
proof fn lemma_cut(
    t: FatType,
    before: Seq<u32>,
    ended: Seq<u32>,
    after: Seq<u32>,
    s: Seq<int>,
    keep: int,
    freed: nat,
)
    requires
        is_chain(t, before, s),
        1 <= keep < s.len(),
        before.len() <= entry_max(t) - 7,
        ended == before.update(s[keep - 1], entry_max(t) as u32),
        crate::allocator::released(t, ended, after, s[keep], freed),
    ensures
        freed == s.len() - keep,
        is_chain(t, after, s.subrange(0, keep)),
        chain_upto(t, after, s[0], (after.len() - 2) as nat) == Some(s.subrange(0, keep)),
        free_clusters(after) == free_clusters(before) + freed,
{
    let head = s.subrange(0, keep);
    let tail = s.subrange(keep, s.len() as int);
    let last = s[keep - 1];
    lemma_chain_distinct(t, before, s);
    crate::chain::lemma_chain_tail(t, before, s, keep);
    assert(in_table(before, last));
    assert forall|i: int| 0 <= i < tail.len() implies ended[#[trigger] tail[i]] == before[tail[i]] by {
        assert(tail[i] == s[keep + i]);
    }
    crate::chain::lemma_chain_kept(t, before, ended, tail);
    lemma_chain_bound(t, ended, tail);
    lemma_chain_found(t, ended, tail, (ended.len() - 2) as nat);
    assert(tail[0] == s[keep]);
    assert forall|i: int| 0 <= i < head.len() implies !tail.contains(#[trigger] head[i]) by {
        if tail.contains(head[i]) {
            let j = choose|j: int| 0 <= j < tail.len() && tail[j] == head[i];
            assert(s[keep + j] == s[i]);
        }
    }
    assert forall|i: int| 0 <= i < head.len() implies in_table(after, #[trigger] head[i]) by {
        assert(in_table(before, s[i]));
    }
    assert forall|i: int| 0 <= i < head.len() - 1 implies after[#[trigger] head[i]] == head[i + 1]
        && !is_end(t, after[head[i]] as int) by {
        assert(head[i] == s[i] && head[i + 1] == s[i + 1]);
        assert(in_table(before, s[i]));
        assert(s[i] != last);
        assert(!tail.contains(head[i]));
        assert(after[s[i]] == ended[s[i]]);
    }
    assert(head[head.len() - 1] == last);
    assert(!tail.contains(head[keep - 1]));
    assert(after[last] == ended[last]);
    lemma_chain_bound(t, after, head);
    lemma_chain_found(t, after, head, (after.len() - 2) as nat);
    assert(in_table(before, s[keep]));
    crate::fat::lemma_count_free_update(before, before.len() as int, last, entry_max(t) as u32);
}

/// The clusters of a file that shrinks to `new_size` bytes: as many as hold
/// that many bytes.
pub open spec fn kept_clusters(g: Geometry, new_size: u32) -> int {
    (new_size + g.cluster_bytes() - 1) / g.cluster_bytes()
}

/// Cuts the chain of a file behind the clusters that hold its first
/// `new_size` bytes, and sets free what lies behind.
fn cut_chain<H: FatfsDiskHandler>(vol: &mut Volume, dev: &mut H, f: &mut File, new_size: u32) -> (res:
    Result<(), FsError>)
    requires
        old(dev).inv(),
        old(vol).on(old(dev).drive(old(vol).pdrv)),
        !old(vol).read_only,
        new_size < old(f).size,
        old(f).data(old(vol).geom, old(dev).drive(old(vol).pdrv).sectors) is Some,
    ensures
        final(dev).inv(),
        same_volume(*old(vol), *final(vol)),
        final(vol).on(final(dev).drive(old(vol).pdrv)),
        old(dev).drive(old(vol).pdrv).same_but(
            final(dev).drive(old(vol).pdrv),
            |i: int| old(vol).geom.in_tables(i),
        ),
        res is Ok || old(dev).drive(old(vol).pdrv).dependable ==> crate::fat::mirrors_kept(
            old(vol).geom,
            old(dev).drive(old(vol).pdrv).sectors,
            final(dev).drive(old(vol).pdrv).sectors,
        ),
        final(f).dir == old(f).dir && final(f).index == old(f).index && final(f).writable == old(
            f,
        ).writable && final(f).pos == old(f).pos && final(f).size == old(f).size,
        match res {
            Ok(_) => {
                &&& new_size == 0 ==> final(f).first_cluster == 0
                &&& new_size != 0 ==> final(f).first_cluster == old(f).first_cluster
                &&& old(vol).geom.clusters_of(
                    final(dev).drive(old(vol).pdrv).sectors,
                    final(f).first_cluster,
                ) == Some(
                    old(vol).geom.clusters_of(
                        old(dev).drive(old(vol).pdrv).sectors,
                        old(f).first_cluster,
                    )->Some_0.subrange(0, kept_clusters(old(vol).geom, new_size)),
                )
                &&& kept_clusters(old(vol).geom, new_size) <= old(vol).geom.clusters_of(
                    old(dev).drive(old(vol).pdrv).sectors,
                    old(f).first_cluster,
                )->Some_0.len()
                &&& free_clusters(
                    old(vol).geom.table(final(dev).drive(old(vol).pdrv).sectors),
                ) == free_clusters(old(vol).geom.table(old(dev).drive(old(vol).pdrv).sectors))
                    + old(vol).geom.clusters_of(
                    old(dev).drive(old(vol).pdrv).sectors,
                    old(f).first_cluster,
                )->Some_0.len() - kept_clusters(old(vol).geom, new_size)
            },
            Err(e) => !old(dev).drive(old(vol).pdrv).dependable && e.is_device(),
        },
{
    let g = vol.geom;
    let t = g.fat_type;
    let pdrv = vol.pdrv;
    let ghost d0 = old(dev).drive(pdrv);
    let ghost t0 = g.table(d0.sectors);
    let ghost s = g.clusters_of(d0.sectors, f.first_cluster)->Some_0;
    assert(d0.same_but(d0, |i: int| g.in_tables(i)));
    proof {
        g.lemma_cluster_slots();
    }
    let cb: u32 = g.sectors_per_cluster * g.bytes_per_sector;
    let ghost keep_spec = kept_clusters(g, new_size);
    proof {
        assert(0 <= keep_spec <= new_size) by (nonlinear_arith)
            requires
                keep_spec == (new_size + cb - 1) / (cb as int),
                new_size >= 0,
                cb >= 1,
        ;
        assert(keep_spec <= s.len()) by (nonlinear_arith)
            requires
                keep_spec == (new_size + cb - 1) / (cb as int),
                new_size < s.len() * cb,
                new_size >= 0,
                cb >= 1,
                s.len() >= 0,
        ;
        assert(new_size == 0 ==> keep_spec == 0) by (nonlinear_arith)
            requires
                keep_spec == (new_size + cb - 1) / (cb as int),
                cb >= 1,
        ;
        assert(new_size > 0 ==> keep_spec >= 1) by (nonlinear_arith)
            requires
                keep_spec == (new_size + cb - 1) / (cb as int),
                cb >= 1,
                new_size >= 0,
        ;
        if f.first_cluster == 0 {
            assert(s.len() * cb == 0) by (nonlinear_arith)
                requires
                    s.len() == 0,
            ;
        } else {
            lemma_chain_is_chain(t, t0, f.first_cluster as int, g.cluster_count as nat);
        }
    }
    let keep: u32 = ((new_size as u64 + cb as u64 - 1) / cb as u64) as u32;
    if keep == 0 {
        let r = free_chain(vol, dev, f.first_cluster);
        return match r {
            Err(e) => Err(e),
            Ok(_) => {
                f.first_cluster = 0;
                f.dirty = true;
                proof {
                    assert(s.subrange(0, 0) =~= Seq::<int>::empty());
                }
                Ok(())
            },
        };
    }
    proof {
        lemma_chain_walk(t, t0, s, (keep - 1) as nat);
    }
    let c = match cluster_at(vol, dev, f.first_cluster, keep - 1) {
        Err(e) => {
            return Err(e);
        },
        Ok(None) => {
            proof {
                lemma_ends_or_walks(t, t0, f.first_cluster as int, (keep - 1) as nat);
            }
            assert(false);
            return Err(FsError::CorruptVolume);
        },
        Ok(Some(c)) => c,
    };
    assert(c == s[keep - 1]);
    proof {
        if keep as int == s.len() {
            assert(s.subrange(0, keep as int) =~= s);
        }
    }
    let next = match get_next(vol, dev, c) {
        Err(e) => {
            return Err(e);
        },
        Ok(v) => v,
    };
    let end_min: u32 = match t {
        FatType::Fat12 => 0xFF8,
        FatType::Fat16 => 0xFFF8,
        FatType::Fat32 => 0x0FFF_FFF8,
    };
    if next >= end_min {
        return Ok(());
    }
    assert(keep < s.len());
    assert(next == s[keep as int]);
    let end_mark: u32 = match t {
        FatType::Fat12 => 0xFFF,
        FatType::Fat16 => 0xFFFF,
        FatType::Fat32 => 0x0FFF_FFFF,
    };
    match set_next(vol, dev, c, end_mark) {
        Err(e) => {
            return Err(e);
        },
        Ok(_) => {},
    }
    let ghost d1 = dev.drive(pdrv);
    let ghost t1 = g.table(d1.sectors);
    f.dirty = true;
    proof {
        // The clusters behind the cut still form a chain.
        let tail = s.subrange(keep as int, s.len() as int);
        lemma_chain_distinct(t, t0, s);
        crate::chain::lemma_chain_tail(t, t0, s, keep as int);
        assert forall|i: int| 0 <= i < tail.len() implies t1[#[trigger] tail[i]] == t0[tail[i]] by {
            assert(tail[i] == s[keep + i]);
        }
        crate::chain::lemma_chain_kept(t, t0, t1, tail);
        lemma_chain_bound(t, t1, tail);
        lemma_chain_found(t, t1, tail, g.cluster_count as nat);
        assert(tail[0] == next);
    }
    let r = free_chain(vol, dev, next);
    proof {
        crate::allocator::lemma_same_but_twice(d0, d1, dev.drive(pdrv), g);
        if r is Ok {
            lemma_cut(
                t,
                t0,
                t1,
                g.table(dev.drive(pdrv).sectors),
                s,
                keep as int,
                r->Ok_0 as nat,
            );
            assert(s[0] == f.first_cluster);
        }
    }
    match r {
        Err(e) => Err(e),
        Ok(_) => Ok(()),
    }
}

/// After the chain of a file was cut, the file holds the first bytes of
/// what it held.
#[verifier::rlimit(30)]
proof fn lemma_cut_data(
    g: Geometry,
    d0: Drive,
    d1: Drive,
    f0: File,
    first: u32,
    new_size: u32,
)
    requires
        g.wf(),
        d0.wf(),
        g.fits(d0),
        d0.same_but(d1, |i: int| g.in_tables(i)),
        f0.data(g, d0.sectors) is Some,
        new_size < f0.size,
        kept_clusters(g, new_size) <= g.clusters_of(d0.sectors, f0.first_cluster)->Some_0.len(),
        g.clusters_of(d1.sectors, first) == Some(
            g.clusters_of(d0.sectors, f0.first_cluster)->Some_0.subrange(
                0,
                kept_clusters(g, new_size),
            ),
        ),
    ensures
        (File { first_cluster: first, size: new_size, ..f0 }).data(g, d1.sectors) == Some(
            f0.data(g, d0.sectors)->Some_0.subrange(0, new_size as int),
        ),
{
    let cb = g.cluster_bytes();
    let s = g.clusters_of(d0.sectors, f0.first_cluster)->Some_0;
    let keep = kept_clusters(g, new_size);
    let head = s.subrange(0, keep);
    let tail = s.subrange(keep, s.len() as int);
    g.lemma_cluster_slots();
    if f0.first_cluster != 0 {
        lemma_chain_is_chain(
            g.fat_type,
            g.table(d0.sectors),
            f0.first_cluster as int,
            g.cluster_count as nat,
        );
    }
    assert(s =~= head + tail);
    assert forall|j: int| 0 <= j < head.len() implies g.holds(#[trigger] head[j]) by {
        assert(head[j] == s[j]);
    }
    assert forall|j: int| 0 <= j < tail.len() implies g.holds(#[trigger] tail[j]) by {
        assert(tail[j] == s[keep + j]);
    }
    g.lemma_chain_bytes_add(d0, head, tail);
    g.lemma_clusters_kept(d0, d1, head);
    g.lemma_cluster_disk(d0, head);
    g.lemma_cluster_disk(d0, s);
    assert(new_size <= keep * cb) by (nonlinear_arith)
        requires
            keep == (new_size + cb - 1) / cb,
            cb >= 1,
            new_size >= 0,
    ;
    let all = g.chain_bytes(d0.sectors, s);
    let part = g.chain_bytes(d0.sectors, head);
    let rest = g.chain_bytes(d0.sectors, tail);
    assert(all == part + rest);
    assert(part.len() == keep * cb);
    let was = all.subrange(0, f0.size as int);
    assert forall|p: int| 0 <= p < new_size implies was.subrange(0, new_size as int)[p]
        == part.subrange(0, new_size as int)[p] by {
        assert(was[p] == all[p]);
        assert(all[p] == part[p]);
    }
    assert(was.subrange(0, new_size as int) =~= part.subrange(0, new_size as int));
}

/// Why a change of a file's size is refused, if it is.
pub open spec fn truncate_refusal(vol: Volume, disk: Seq<Seq<u8>>, f: File, new_size: u32) -> Option<
    FsError,
> {
    let g = vol.geom;
    if !f.writable {
        Some(FsError::InvalidParameter)
    } else if vol.read_only {
        Some(FsError::WriteProtected)
    } else if new_size == f.size {
        None
    } else if f.data(g, disk) is None {
        Some(FsError::CorruptVolume)
    } else if kept_clusters(g, new_size) - g.clusters_of(disk, f.first_cluster)->Some_0.len()
        > free_clusters(g.table(disk)) {
        Some(FsError::DiskFull)
    } else {
        None
    }
}

/// The bytes of a file after its size was set: the first bytes of what it
/// held where it shrinks, and what it held with zero bytes behind where it
/// grows.
pub open spec fn resized(was: Seq<u8>, new_size: u32) -> Seq<u8> {
    if new_size <= was.len() {
        was.subrange(0, new_size as int)
    } else {
        was + zeros((new_size - was.len()) as nat)
    }
}

/// What a change of a file's size to `new_size` leaves: nothing refused
/// it; where the size is the old one, nothing has changed; else the file
/// is marked as changed and has the new size, its position, its
/// directory, its slot and its mode are as they were, it holds what
/// `resized` says, and its chain was cut as `chain_cut` says where the
/// file shrinks, and has grown as `chain_grown` says where it grows, to as
/// many clusters as hold `new_size` bytes.
pub open spec fn truncated(vol: Volume, before: Drive, after: Drive, f0: File, f1: File, new_size: u32) -> bool {
    let g = vol.geom;
    &&& truncate_refusal(vol, before.sectors, f0, new_size) is None
    &&& if new_size == f0.size {
        f1 == f0 && after == before
    } else {
        &&& f1 == (File { first_cluster: f1.first_cluster, size: new_size, dirty: true, ..f0 })
        &&& f1.data(g, after.sectors) == Some(resized(f0.data(g, before.sectors)->Some_0, new_size))
        &&& if new_size < f0.size {
            chain_cut(
                g,
                before,
                after,
                f0.first_cluster,
                f1.first_cluster,
                kept_clusters(g, new_size),
            )
        } else {
            chain_grown(
                g,
                before,
                after,
                f0.first_cluster,
                f1.first_cluster,
                kept_clusters(g, new_size),
            )
        }
    }
}

/// Sets the size of a file.
///
/// See `truncated` for what holds afterwards.
/// A file that shrinks gives back the clusters behind the last one that it
/// still needs. A file that grows is given clusters, and zero bytes from
/// its old end to its new end. The position stays. A refusal leaves the
/// drive and the file as they are. On a drive that is not dependable a
/// transfer may fail midway: the answer is then the driver's error.
pub fn file_truncate<H: FatfsDiskHandler>(vol: &mut Volume, dev: &mut H, f: &mut File, new_size: u32) -> (res:
    Result<(), FsError>)
    requires
        old(dev).inv(),
        old(vol).on(old(dev).drive(old(vol).pdrv)),
    ensures
        final(dev).inv(),
        same_volume(*old(vol), *final(vol)),
        final(vol).on(final(dev).drive(old(vol).pdrv)),
        old(dev).drive(old(vol).pdrv).same_but(
            final(dev).drive(old(vol).pdrv),
            |i: int| old(vol).geom.fat_start <= i < old(vol).geom.end(),
        ),
        crate::dirops::body_changed(
            old(vol).geom,
            old(dev).drive(old(vol).pdrv),
            final(dev).drive(old(vol).pdrv),
        ),
        final(f).dir == old(f).dir && final(f).index == old(f).index && final(f).writable == old(
            f,
        ).writable && final(f).pos == old(f).pos,
        match res {
            Ok(_) => {
                &&& truncated(
                    *old(vol),
                    old(dev).drive(old(vol).pdrv),
                    final(dev).drive(old(vol).pdrv),
                    *old(f),
                    *final(f),
                    new_size,
                )
                &&& final(f).size == new_size
                &&& new_size == 0 && old(f).size != 0 ==> final(f).first_cluster == 0
            },
            Err(e) => (truncate_refusal(
                *old(vol),
                old(dev).drive(old(vol).pdrv).sectors,
                *old(f),
                new_size,
            ) == Some(e) && final(dev).drive(old(vol).pdrv) == old(dev).drive(old(vol).pdrv)
                && *final(f) == *old(f)) || (!old(dev).drive(old(vol).pdrv).dependable
                && e.is_device()),
        },
{
    let g = vol.geom;
    let ghost d0 = old(dev).drive(vol.pdrv);
    let ghost f0 = *old(f);
    assert(d0.same_but(d0, |i: int| g.fat_start <= i < g.end()));
    if !f.writable {
        return Err(FsError::InvalidParameter);
    }
    if vol.read_only {
        return Err(FsError::WriteProtected);
    }
    if new_size == f.size {
        return Ok(());
    }
    if new_size > f.size {
        let r = grow_file(vol, dev, f, new_size);
        proof {
            old(dev).inv_shape(old(vol).pdrv);
            let at = File { pos: (new_size - 1) as u32, ..f0 };
            assert(at.data(g, d0.sectors) == f0.data(g, d0.sectors));
            if f0.data(g, d0.sectors) is Some {
                g.lemma_data_len(d0, f0);
            }
        }
        return r;
    }
    match check_file(vol, dev, f) {
        Err(e) => {
            return Err(e);
        },
        Ok(_) => {},
    }
    proof {
        old(dev).inv_shape(old(vol).pdrv);
        g.lemma_data_len(d0, f0);
        crate::fat::lemma_count_free_bound(g.table(d0.sectors), g.entries());
    }
    let r = cut_chain(vol, dev, f, new_size);
    proof {
        lemma_tables_in_volume(g, d0, dev.drive(vol.pdrv));
        if r is Ok {
            lemma_cut_data(g, d0, dev.drive(vol.pdrv), f0, f.first_cluster, new_size);
        }
    }
    match r {
        Err(e) => Err(e),
        Ok(_) => {
            f.size = new_size;
            f.dirty = true;
            Ok(())
        },
    }
}

} // verus!
