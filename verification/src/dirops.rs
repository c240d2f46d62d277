//! Changes to directories: finding room, growing a directory, and adding,
//! removing and updating entries.

use vstd::prelude::*;
use crate::allocator::allocate_chain;
use crate::bytes::{overlay, zero_bytes, zeros};
use crate::chain::last_cluster;
use crate::dir::{
    find_from, gather, is_entry, listed_name, long_name_at, lookup, read_slot, slots_written,
    slots_refusal, write_slots, MAX_SLOTS, Probe, Scan, Slots,
};
use crate::dirent::{
    checksum, fragment_slot, is_slot_free, lemma_fragment_slot, lemma_short_slot_fields,
    make_fragment_slot, make_short_slot, name_checksum, restamp_slot, restamped, short_slot,
    slot_free, slot_long, MARK_DELETED, MARK_END, Stamp,
};
use crate::diskio::{flat, Drive, FatfsDiskHandler};
use crate::error::FsError;
use crate::fat::{same_volume, set_next, Volume};
use crate::name::{
    check_name, classify, fragment_count, fragment_of, fragments_joined, lemma_name_round_trip,
    make_tailed, name_fragment, name_ok, naming_of, short_basis, stem_len, trim_name, with_tail,
    MAX_TAIL, Naming,
};
use crate::region::write_run;
use crate::volume::{FatType, Geometry};

verus! {

impl Geometry {
    /// Sector `i` belongs to the tables, the root directory or the data
    /// region of the volume.
    pub open spec fn in_body(self, i: int) -> bool {
        self.fat_start <= i < self.end()
    }
}

/// The drive `after` differs from `before` only in sectors of the volume's
/// tables, root directory and data region: the boot sector, the reserved
/// sectors and whatever lies outside the volume are as they were. On a
/// dependable drive every change of the table has reached every copy of
/// the table that was like the first.
pub open spec fn body_changed(g: Geometry, before: Drive, after: Drive) -> bool {
    &&& before.same_but(after, |i: int| g.in_body(i))
    &&& before.dependable ==> crate::fat::mirrors_kept(g, before.sectors, after.sectors)
}

/// Changes within the volume add up to a change within the volume.
pub proof fn lemma_body_twice(g: Geometry, a: Drive, b: Drive, c: Drive)
    requires
        body_changed(g, a, b),
        body_changed(g, b, c),
    ensures
        body_changed(g, a, c),
{
    assert forall|i: int| 0 <= i < a.sectors.len() && !g.in_body(i) implies #[trigger] c.sectors[i]
        == a.sectors[i] by {
        assert(b.sectors[i] == a.sectors[i]);
    }
    if a.dependable {
        crate::fat::lemma_mirrors_twice(g, a.sectors, b.sectors, c.sectors);
    }
}

/// A change within the tables that has reached every copy is a change
/// within the volume.
pub proof fn lemma_tables_in_body(g: Geometry, a: Drive, b: Drive)
    requires
        g.wf(),
        a.same_but(b, |i: int| g.in_tables(i)),
        a.dependable ==> crate::fat::mirrors_kept(g, a.sectors, b.sectors),
    ensures
        body_changed(g, a, b),
{
    g.lemma_copy_bounds(0);
}

/// A change behind the tables is a change within the volume.
pub proof fn lemma_data_in_body(g: Geometry, a: Drive, b: Drive)
    requires
        g.wf(),
        g.fits(a),
        a.same_but(b, |i: int| g.root_start <= i < g.end()),
    ensures
        body_changed(g, a, b),
{
    g.lemma_copy_bounds(0);
    crate::fat::lemma_mirrors_same(g, a, b, |i: int| g.root_start <= i < g.end());
}

/// The first run of `need` free slots at or behind slot `i`, where `run`
/// free slots stand directly before `i`.
pub open spec fn room_from(slots: Slots, need: int, i: int, run: int) -> Scan
    decreases MAX_SLOTS - i,
{
    if i < 0 || i >= MAX_SLOTS {
        Scan::Nothing
    } else {
        match slots(i) {
            Probe::Holds(s) => if slot_free(s) {
                if run + 1 >= need {
                    Scan::At(i + 1 - need)
                } else {
                    room_from(slots, need, i + 1, run + 1)
                }
            } else {
                room_from(slots, need, i + 1, 0)
            },
            Probe::Absent => Scan::Nothing,
            Probe::Broken => Scan::Broken,
        }
    }
}

/// Looks in directory `dir` for `need` free slots that follow one another,
/// and gives the number of the first.
///
/// `None` is answered where the directory ends before such a run is found,
/// `CorruptVolume` where its chain leaves the data region. The drive is
/// left as it is. On a drive that is not dependable the answer may instead
/// be the error of a failed read.
pub fn find_room<H: FatfsDiskHandler>(vol: &Volume, dev: &mut H, dir: u32, need: u32) -> (res:
    Result<Option<u32>, FsError>)
    requires
        old(dev).inv(),
        vol.on(old(dev).drive(vol.pdrv)),
    ensures
        final(dev).inv(),
        final(dev).drive(vol.pdrv) == old(dev).drive(vol.pdrv),
        (if !(1 <= need <= 21) {
            res == Err::<Option<u32>, FsError>(FsError::InvalidParameter)
        } else {
            match room_from(
                vol.geom.slots(old(dev).drive(vol.pdrv).sectors, dir),
                need as int,
                0,
                0,
            ) {
                Scan::At(b) => res == Ok::<Option<u32>, FsError>(Some(b as u32)),
                Scan::Nothing => res == Ok::<Option<u32>, FsError>(None),
                Scan::Broken => res == Err::<Option<u32>, FsError>(FsError::CorruptVolume),
            }
        }) || (!old(dev).drive(vol.pdrv).dependable && res is Err && res->Err_0.is_device()),
        res matches Ok(Some(b)) ==> b + need <= MAX_SLOTS,
{
    if need < 1 || need > 21 {
        return Err(FsError::InvalidParameter);
    }
    let ghost disk = old(dev).drive(vol.pdrv).sectors;
    let ghost slots = vol.geom.slots(disk, dir);
    let mut run: u32 = 0;
    let mut i: u32 = 0;
    while i < MAX_SLOTS
        invariant
            i <= MAX_SLOTS,
            run <= i,
            run < need,
            1 <= need <= 21,
            dev.inv(),
            disk == old(dev).drive(vol.pdrv).sectors,
            dev.drive(vol.pdrv) == old(dev).drive(vol.pdrv),
            vol.on(dev.drive(vol.pdrv)),
            slots == vol.geom.slots(disk, dir),
            room_from(slots, need as int, 0, 0) == room_from(slots, need as int, i as int, run as int),
        decreases MAX_SLOTS - i,
    {
        let s = match read_slot(vol, dev, dir, i) {
            Err(e) => {
                return Err(e);
            },
            Ok(None) => {
                return Ok(None);
            },
            Ok(Some(s)) => s,
        };
        if is_slot_free(&s) {
            if run + 1 >= need {
                return Ok(Some(i + 1 - need));
            }
            run = run + 1;
        } else {
            run = 0;
        }
        i = i + 1;
    }
    Ok(None)
}

/// The first entry at or behind slot `i` whose short name is `short`.
pub open spec fn short_from(slots: Slots, short: Seq<u8>, i: int) -> Scan
    decreases MAX_SLOTS - i,
{
    if i < 0 || i >= MAX_SLOTS {
        Scan::Nothing
    } else {
        match slots(i) {
            Probe::Holds(s) => if s[0] == MARK_END {
                Scan::Nothing
            } else if !slot_free(s) && !crate::dirent::slot_long(s) && s.subrange(0, 11) == short {
                Scan::At(i)
            } else {
                short_from(slots, short, i + 1)
            },
            Probe::Absent => Scan::Nothing,
            Probe::Broken => Scan::Broken,
        }
    }
}

/// Tells whether directory `dir` holds a short entry with the short name
/// `short`.
///
/// `CorruptVolume` is answered where the directory's chain leaves the data
/// region. The drive is left as it is. On a drive that is not dependable
/// the answer may instead be the error of a failed read.
pub fn short_taken<H: FatfsDiskHandler>(vol: &Volume, dev: &mut H, dir: u32, short: &Vec<u8>) -> (res:
    Result<bool, FsError>)
    requires
        old(dev).inv(),
        vol.on(old(dev).drive(vol.pdrv)),
    ensures
        final(dev).inv(),
        final(dev).drive(vol.pdrv) == old(dev).drive(vol.pdrv),
        (if short.len() != 11 {
            res == Err::<bool, FsError>(FsError::InvalidParameter)
        } else {
            match short_from(vol.geom.slots(old(dev).drive(vol.pdrv).sectors, dir), short@, 0) {
                Scan::At(_) => res == Ok::<bool, FsError>(true),
                Scan::Nothing => res == Ok::<bool, FsError>(false),
                Scan::Broken => res == Err::<bool, FsError>(FsError::CorruptVolume),
            }
        }) || (!old(dev).drive(vol.pdrv).dependable && res is Err && res->Err_0.is_device()),
{
    if short.len() != 11 {
        return Err(FsError::InvalidParameter);
    }
    let ghost disk = old(dev).drive(vol.pdrv).sectors;
    let ghost slots = vol.geom.slots(disk, dir);
    let mut i: u32 = 0;
    while i < MAX_SLOTS
        invariant
            i <= MAX_SLOTS,
            short.len() == 11,
            dev.inv(),
            disk == old(dev).drive(vol.pdrv).sectors,
            dev.drive(vol.pdrv) == old(dev).drive(vol.pdrv),
            vol.on(dev.drive(vol.pdrv)),
            slots == vol.geom.slots(disk, dir),
            short_from(slots, short@, 0) == short_from(slots, short@, i as int),
        decreases MAX_SLOTS - i,
    {
        let s = match read_slot(vol, dev, dir, i) {
            Err(e) => {
                return Err(e);
            },
            Ok(None) => {
                return Ok(false);
            },
            Ok(Some(s)) => s,
        };
        if s[0] == MARK_END {
            return Ok(false);
        }
        if !is_slot_free(&s) && !crate::dirent::is_slot_long(&s) {
            let same = crate::bytes::holds_at(&s, 0, short);
            if same {
                return Ok(true);
            }
        }
        i = i + 1;
    }
    Ok(false)
}

/// Fills cluster `cluster` with zero bytes.
///
/// `InvalidParameter` is answered where `cluster` is not a cluster of the
/// data region, `WriteProtected` on a volume that was mounted from a
/// protected medium; the drive is then left as it is. Only the sectors of
/// the cluster change. On a drive that is not dependable the answer may
/// instead be the error of a failed write.
pub fn clear_cluster<H: FatfsDiskHandler>(vol: &Volume, dev: &mut H, cluster: u32) -> (res: Result<
    (),
    FsError,
>)
    requires
        old(dev).inv(),
        vol.on(old(dev).drive(vol.pdrv)),
    ensures
        final(dev).inv(),
        vol.on(final(dev).drive(vol.pdrv)),
        old(dev).drive(vol.pdrv).same_but(
            final(dev).drive(vol.pdrv),
            |i: int|
                vol.geom.holds(cluster as int) && vol.geom.first_sector(cluster as int) <= i
                    < vol.geom.first_sector(cluster as int) + vol.geom.sectors_per_cluster,
        ),
        vol.geom.table(final(dev).drive(vol.pdrv).sectors) == vol.geom.table(
            old(dev).drive(vol.pdrv).sectors,
        ),
        body_changed(vol.geom, old(dev).drive(vol.pdrv), final(dev).drive(vol.pdrv)),
        match res {
            Ok(_) => !vol.read_only && vol.geom.holds(cluster as int) && flat(
                final(dev).drive(vol.pdrv).sectors,
                vol.geom.first_sector(cluster as int),
                vol.geom.sectors_per_cluster as int,
            ) == zeros(vol.geom.cluster_bytes() as nat),
            Err(e) => (final(dev).drive(vol.pdrv) == old(dev).drive(vol.pdrv) && e == (
            if vol.read_only {
                FsError::WriteProtected
            } else {
                FsError::InvalidParameter
            }) && (vol.read_only || !vol.geom.holds(cluster as int))) || (!old(dev).drive(
                vol.pdrv,
            ).dependable && e.is_device()),
        },
{
    let g = &vol.geom;
    let ghost d0 = old(dev).drive(vol.pdrv);
    assert(d0.same_but(
        d0,
        |i: int|
            vol.geom.holds(cluster as int) && vol.geom.first_sector(cluster as int) <= i
                < vol.geom.first_sector(cluster as int) + vol.geom.sectors_per_cluster,
    ));
    assert(body_changed(vol.geom, d0, d0));
    if vol.read_only {
        return Err(FsError::WriteProtected);
    }
    if cluster < 2 || cluster - 2 >= g.cluster_count {
        return Err(FsError::InvalidParameter);
    }
    proof {
        g.lemma_cluster_slots();
        g.lemma_cluster_sectors(cluster as int, 0);
        g.lemma_cluster_sectors(cluster as int, g.sectors_per_cluster - 1);
        g.lemma_copy_bounds(0);
        crate::diskio::lemma_flat_len(
            d0.sectors,
            g.first_sector(cluster as int),
            g.sectors_per_cluster as int,
            d0.sector_size,
        );
    }
    let bytes: u32 = g.sectors_per_cluster * g.bytes_per_sector;
    let blank = zero_bytes(bytes as usize);
    let start: u32 = g.data_start + (cluster - 2) * g.sectors_per_cluster;
    let r = write_run(dev, vol.pdrv, g.bytes_per_sector, start, g.sectors_per_cluster, 0, &blank);
    proof {
        let d1 = dev.drive(vol.pdrv);
        dev.inv_shape(vol.pdrv);
        g.lemma_tables_kept(d0.sectors, d1.sectors);
        if r is Ok {
            assert(overlay(
                flat(d0.sectors, start as int, g.sectors_per_cluster as int),
                0,
                blank@,
            ) =~= blank@);
        }
    }
    r
}

/// Why a directory cannot grow, if it cannot: the volume is write
/// protected, the directory is a root directory of fixed size, its chain
/// is corrupt, it has reached the largest size of a directory, or no
/// cluster is free.
pub open spec fn grow_refusal(vol: Volume, disk: Seq<Seq<u8>>, dir: u32) -> Option<FsError> {
    let g = vol.geom;
    if vol.read_only {
        Some(FsError::WriteProtected)
    } else if g.fixed_root(dir) {
        Some(FsError::DirectoryFull)
    } else {
        match g.chain(disk, g.dir_first(dir)) {
            None => Some(FsError::CorruptVolume),
            Some(s) => if (s.len() + 1) * g.cluster_slots() > MAX_SLOTS {
                Some(FsError::DirectoryFull)
            } else if crate::fat::free_clusters(g.table(disk)) < 1 {
                Some(FsError::DiskFull)
            } else {
                None
            },
        }
    }
}

/// The drive `after` is `before` with cluster `c`, which was free, taken
/// and cleared: its entry marks the end of a chain, its bytes are zero, and
/// nothing else has changed but the number of free clusters.
pub open spec fn taken(g: Geometry, before: Drive, after: Drive, c: int) -> bool {
    &&& g.holds(c)
    &&& g.table(before.sectors)[c] == 0
    &&& crate::fat::is_end(g.fat_type, g.table(after.sectors)[c] as int)
    &&& forall|n: int|
        0 <= n < g.entries() && n != c ==> #[trigger] g.table(after.sectors)[n] == g.table(
            before.sectors,
        )[n]
    &&& flat(after.sectors, g.first_sector(c), g.sectors_per_cluster as int) == zeros(
        g.cluster_bytes() as nat,
    )
    &&& before.same_but(
        after,
        |i: int|
            g.in_tables(i) || g.first_sector(c) <= i < g.first_sector(c) + g.sectors_per_cluster,
    )
}

/// Takes a free cluster and fills it with zero bytes. The cluster is the
/// only one of its chain.
pub fn take_cleared<H: FatfsDiskHandler>(vol: &mut Volume, dev: &mut H) -> (res: Result<u32, FsError>)
    requires
        old(dev).inv(),
        old(vol).on(old(dev).drive(old(vol).pdrv)),
    ensures
        final(dev).inv(),
        same_volume(*old(vol), *final(vol)),
        final(vol).on(final(dev).drive(old(vol).pdrv)),
        body_changed(old(vol).geom, old(dev).drive(old(vol).pdrv), final(dev).drive(old(vol).pdrv)),
        match res {
            Ok(c) => {
                &&& !old(vol).read_only
                &&& old(vol).geom.holds(c as int)
                &&& old(vol).geom.table(old(dev).drive(old(vol).pdrv).sectors)[c as int] == 0
                &&& old(vol).geom.chain(final(dev).drive(old(vol).pdrv).sectors, c as int) == Some(
                    seq![c as int],
                )
                &&& taken(
                    old(vol).geom,
                    old(dev).drive(old(vol).pdrv),
                    final(dev).drive(old(vol).pdrv),
                    c as int,
                )
            },
            Err(e) => (final(dev).drive(old(vol).pdrv) == old(dev).drive(old(vol).pdrv) && e == (
            if old(vol).read_only {
                FsError::WriteProtected
            } else {
                FsError::DiskFull
            }) && (old(vol).read_only || crate::fat::free_clusters(
                old(vol).geom.table(old(dev).drive(old(vol).pdrv).sectors),
            ) < 1)) || (!old(dev).drive(old(vol).pdrv).dependable && e.is_device()),
        },
{
    let g = vol.geom;
    let pdrv = vol.pdrv;
    let ghost d0 = old(dev).drive(pdrv);
    let c = match allocate_chain(vol, dev, 1) {
        Err(e) => {
            proof {
                lemma_tables_in_body(g, d0, dev.drive(pdrv));
            }
            return Err(e);
        },
        Ok(c) => c,
    };
    let ghost d1 = dev.drive(pdrv);
    proof {
        lemma_tables_in_body(g, d0, d1);
        let t1 = g.table(d1.sectors);
        crate::chain::lemma_chain_is_chain(g.fat_type, t1, c as int, 1);
        let s = crate::chain::chain_upto(g.fat_type, t1, c as int, 1)->Some_0;
        assert(s[0] == c);
        assert(g.table(d0.sectors)[s[0]] == 0);
        assert(s =~= seq![c as int]);
        crate::chain::lemma_chain_found(g.fat_type, t1, s, g.cluster_count as nat);
        assert forall|n: int| 0 <= n < g.entries() && n != c implies #[trigger] t1[n] == g.table(
            d0.sectors,
        )[n] by {
            assert(!s.contains(n));
        }
    }
    let r = clear_cluster(vol, dev, c);
    proof {
        let d2 = dev.drive(pdrv);
        lemma_body_twice(g, d0, d1, d2);
        assert forall|i: int|
            0 <= i < d0.sectors.len() && !(g.in_tables(i) || g.first_sector(c as int) <= i
                < g.first_sector(c as int) + g.sectors_per_cluster) implies #[trigger] d2.sectors[i]
            == d0.sectors[i] by {
            assert(d1.sectors[i] == d0.sectors[i]);
        }
    }
    match r {
        Err(e) => Err(e),
        Ok(_) => Ok(c),
    }
}

/// The drive `after` is `before` with a cluster `c`, which was free, taken,
/// cleared and linked behind cluster `last`, the last of a chain.
pub open spec fn attached(g: Geometry, before: Drive, after: Drive, last: int, c: int) -> bool {
    &&& g.holds(c)
    &&& g.holds(last)
    &&& c != last
    &&& g.table(before.sectors)[c] == 0
    &&& crate::fat::is_end(g.fat_type, g.table(after.sectors)[c] as int)
    &&& g.table(after.sectors)[last] == c
    &&& forall|n: int|
        0 <= n < g.entries() && n != c && n != last ==> #[trigger] g.table(after.sectors)[n]
            == g.table(before.sectors)[n]
    &&& flat(after.sectors, g.first_sector(c), g.sectors_per_cluster as int) == zeros(
        g.cluster_bytes() as nat,
    )
    &&& before.same_but(
        after,
        |i: int|
            g.in_tables(i) || g.first_sector(c) <= i < g.first_sector(c) + g.sectors_per_cluster,
    )
}

/// A directory that has grown by a cluster holds in its old slots what it
/// held, and its new slots were never used.
pub proof fn lemma_grown(g: Geometry, before: Drive, after: Drive, dir: u32, c: int, j: int)
    requires
        g.wf(),
        before.wf(),
        after.wf(),
        g.fits(before),
        !g.fixed_root(dir),
        g.chain(before.sectors, g.dir_first(dir)) is Some,
        attached(
            g,
            before,
            after,
            g.chain(before.sectors, g.dir_first(dir))->Some_0.last(),
            c,
        ),
        0 <= j < MAX_SLOTS,
    ensures
        g.chain(after.sectors, g.dir_first(dir)) == Some(
            g.chain(before.sectors, g.dir_first(dir))->Some_0.push(c),
        ),
        g.probe(after.sectors, dir, j) == if j < g.chain(
            before.sectors,
            g.dir_first(dir),
        )->Some_0.len() * g.cluster_slots() {
            g.probe(before.sectors, dir, j)
        } else if j < (g.chain(before.sectors, g.dir_first(dir))->Some_0.len() + 1)
            * g.cluster_slots() {
            Probe::Holds(zeros(32))
        } else {
            Probe::Absent
        },
        j < g.chain(before.sectors, g.dir_first(dir))->Some_0.len() * g.cluster_slots()
            ==> g.probe(before.sectors, dir, j) is Holds,
{
    let t = g.fat_type;
    let t0 = g.table(before.sectors);
    let t1 = g.table(after.sectors);
    let first = g.dir_first(dir);
    let s = g.chain(before.sectors, first)->Some_0;
    let last = s.last();
    let all = s.push(c);
    let per = g.cluster_slots();
    let k = j / per;
    g.lemma_cluster_slots();
    crate::chain::lemma_chain_is_chain(t, t0, first, g.cluster_count as nat);
    crate::chain::lemma_chain_distinct(t, t0, s);
    crate::region::lemma_split(j, per);
    // The chain of the directory is the old chain and the new cluster.
    assert forall|i: int| 0 <= i < s.len() implies s[i] != c by {
        assert(crate::chain::in_table(t0, s[i]));
        if i + 1 < s.len() {
            assert(crate::chain::in_table(t0, s[i + 1]));
        }
    }
    assert(crate::chain::is_chain(t, t1, all)) by {
        assert forall|i: int| 0 <= i < all.len() implies crate::chain::in_table(
            t1,
            #[trigger] all[i],
        ) by {
            if i < s.len() {
                assert(crate::chain::in_table(t0, s[i]));
            }
        }
        assert forall|i: int| 0 <= i < all.len() - 1 implies t1[#[trigger] all[i]] == all[i + 1]
            && !crate::fat::is_end(t, t1[all[i]] as int) by {
            assert(crate::chain::in_table(t0, s[i]));
            if i < s.len() - 1 {
                assert(s[i] != last);
                assert(s[i] != c);
                assert(crate::chain::in_table(t0, s[i + 1]));
                assert(t1[s[i]] == t0[s[i]]);
            }
        }
    }
    crate::chain::lemma_chain_bound(t, t1, all);
    assert(all.len() <= g.cluster_count);
    crate::chain::lemma_chain_found(t, t1, all, g.cluster_count as nat);
    crate::chain::lemma_chain_walk(t, t1, all, k as nat);
    crate::chain::lemma_chain_walk(t, t0, s, k as nat);
    assert(k < s.len() <==> j < s.len() * per) by (nonlinear_arith)
        requires
            j == k * per + j % per,
            0 <= j % per < per,
            per > 0,
            s.len() >= 0,
    ;
    assert(k < s.len() + 1 <==> j < (s.len() + 1) * per) by (nonlinear_arith)
        requires
            j == k * per + j % per,
            0 <= j % per < per,
            per > 0,
            s.len() >= 0,
    ;
    g.lemma_copy_bounds(0);
    if k < s.len() {
        let x = s[k];
        assert(all[k] == x);
        assert(g.holds(x));
        assert(x != c);
        g.lemma_clusters_apart(x, c);
        g.lemma_cluster_data(before, x);
        crate::region::lemma_flat_same(
            before.sectors,
            after.sectors,
            g.first_sector(x),
            g.sectors_per_cluster as int,
        );
    } else if k == s.len() {
        assert(all[k] == c);
        let run = flat(after.sectors, g.first_sector(c), g.sectors_per_cluster as int);
        let off = (j % per) * 32;
        assert(off + 32 <= per * 32) by (nonlinear_arith)
            requires
                off == (j % per) * 32,
                0 <= j % per < per,
        ;
        assert(run.subrange(off, off + 32) =~= zeros(32));
    } else {
        crate::chain::lemma_ends_or_walks(t, t1, first, k as nat);
        lemma_chain_ends(t, t1, all, k as nat);
        lemma_chain_ends(t, t1, all, g.cluster_count as nat);
    }
}

/// A chain ends within as many links as it has clusters, or more.
pub proof fn lemma_chain_ends(t: FatType, table: Seq<u32>, s: Seq<int>, steps: nat)
    requires
        crate::chain::is_chain(t, table, s),
        steps >= s.len(),
    ensures
        crate::chain::ends_within(t, table, s[0], steps),
    decreases s.len(),
{
    if s.len() > 1 {
        crate::chain::lemma_chain_tail(t, table, s, 1);
        let rest = s.subrange(1, s.len() as int);
        assert(rest[0] == s[1]);
        lemma_chain_ends(t, table, rest, (steps - 1) as nat);
    }
}

/// Takes a free cluster, fills it with zero bytes and links it behind
/// cluster `last`, the last cluster of a chain.
fn attach_cluster<H: FatfsDiskHandler>(vol: &mut Volume, dev: &mut H, last: u32) -> (res: Result<
    u32,
    FsError,
>)
    requires
        old(dev).inv(),
        old(vol).on(old(dev).drive(old(vol).pdrv)),
        old(vol).geom.holds(last as int),
        old(vol).geom.table(old(dev).drive(old(vol).pdrv).sectors)[last as int] != 0,
        !old(vol).read_only,
    ensures
        final(dev).inv(),
        same_volume(*old(vol), *final(vol)),
        final(vol).on(final(dev).drive(old(vol).pdrv)),
        body_changed(old(vol).geom, old(dev).drive(old(vol).pdrv), final(dev).drive(old(vol).pdrv)),
        match res {
            Ok(c) => crate::fat::free_clusters(
                old(vol).geom.table(old(dev).drive(old(vol).pdrv).sectors),
            ) >= 1 && attached(
                old(vol).geom,
                old(dev).drive(old(vol).pdrv),
                final(dev).drive(old(vol).pdrv),
                last as int,
                c as int,
            ),
            Err(e) => (e == FsError::DiskFull && crate::fat::free_clusters(
                old(vol).geom.table(old(dev).drive(old(vol).pdrv).sectors),
            ) < 1 && final(dev).drive(old(vol).pdrv) == old(dev).drive(old(vol).pdrv)) || (!old(
                dev,
            ).drive(old(vol).pdrv).dependable && e.is_device()),
        },
{
    let g = vol.geom;
    let pdrv = vol.pdrv;
    let ghost d0 = old(dev).drive(pdrv);
    let c = match take_cleared(vol, dev) {
        Err(e) => {
            return Err(e);
        },
        Ok(c) => c,
    };
    let ghost d2 = dev.drive(pdrv);
    proof {
        crate::fat::lemma_count_free_bound(g.table(d0.sectors), g.entries());
        lemma_one_free(g.table(d0.sectors), g.entries(), c as int);
    }
    let r = set_next(vol, dev, last, c);
    proof {
        let d3 = dev.drive(pdrv);
        lemma_tables_in_body(g, d2, d3);
        lemma_body_twice(g, d0, d2, d3);
        g.lemma_cluster_sectors(c as int, 0);
        g.lemma_cluster_sectors(c as int, g.sectors_per_cluster - 1);
        g.lemma_copy_bounds(0);
        crate::region::lemma_flat_same(
            d2.sectors,
            d3.sectors,
            g.first_sector(c as int),
            g.sectors_per_cluster as int,
        );
        assert forall|i: int|
            0 <= i < d0.sectors.len() && !(g.in_tables(i) || g.first_sector(c as int) <= i
                < g.first_sector(c as int) + g.sectors_per_cluster) implies #[trigger] d3.sectors[i]
            == d0.sectors[i] by {
            assert(d2.sectors[i] == d0.sectors[i]);
        }
    }
    match r {
        Err(e) => Err(e),
        Ok(_) => Ok(c),
    }
}

/// A table with a free entry records at least one free cluster.
pub proof fn lemma_one_free(table: Seq<u32>, upto: int, c: int)
    requires
        2 <= c < upto <= table.len(),
        table[c] == 0,
    ensures
        crate::fat::count_free(table, upto) >= 1,
    decreases upto,
{
    if c < upto - 1 {
        lemma_one_free(table, upto - 1, c);
    } else {
        crate::fat::lemma_count_free_bound(table, upto - 1);
    }
}

/// Appends one cluster, filled with zero bytes, to directory `dir`, and
/// gives the number of the cluster.
///
/// The new cluster is taken and cleared before it is linked, so that a
/// failure midway leaves the directory as it was. A refusal leaves the
/// drive as it is. On a drive that is not dependable a transfer may fail:
/// the answer is then the driver's error.
pub fn grow_dir<H: FatfsDiskHandler>(vol: &mut Volume, dev: &mut H, dir: u32) -> (res: Result<
    u32,
    FsError,
>)
    requires
        old(dev).inv(),
        old(vol).on(old(dev).drive(old(vol).pdrv)),
    ensures
        final(dev).inv(),
        same_volume(*old(vol), *final(vol)),
        final(vol).on(final(dev).drive(old(vol).pdrv)),
        body_changed(old(vol).geom, old(dev).drive(old(vol).pdrv), final(dev).drive(old(vol).pdrv)),
        match res {
            Ok(c) => grow_refusal(*old(vol), old(dev).drive(old(vol).pdrv).sectors, dir) is None
                && attached(
                old(vol).geom,
                old(dev).drive(old(vol).pdrv),
                final(dev).drive(old(vol).pdrv),
                old(vol).geom.chain(
                    old(dev).drive(old(vol).pdrv).sectors,
                    old(vol).geom.dir_first(dir),
                )->Some_0.last(),
                c as int,
            ),
            Err(e) => (grow_refusal(*old(vol), old(dev).drive(old(vol).pdrv).sectors, dir) == Some(
                e,
            ) && final(dev).drive(old(vol).pdrv) == old(dev).drive(old(vol).pdrv)) || (!old(
                dev,
            ).drive(old(vol).pdrv).dependable && e.is_device()),
        },
{
    let g = vol.geom;
    let pdrv = vol.pdrv;
    let ghost d0 = old(dev).drive(pdrv);
    assert(body_changed(g, d0, d0));
    if vol.read_only {
        return Err(FsError::WriteProtected);
    }
    if dir == 0 && !(g.fat_type == FatType::Fat32) {
        return Err(FsError::DirectoryFull);
    }
    let first: u32 = if dir == 0 {
        g.root_cluster
    } else {
        dir
    };
    let (last, count) = match last_cluster(vol, dev, first) {
        Err(e) => {
            return Err(e);
        },
        Ok(r) => r,
    };
    proof {
        g.lemma_cluster_slots();
        crate::chain::lemma_chain_is_chain(
            g.fat_type,
            g.table(d0.sectors),
            first as int,
            g.cluster_count as nat,
        );
        let chain = g.chain(d0.sectors, first as int)->Some_0;
        assert(count == chain.len());
        assert(last == chain[chain.len() - 1]);
    }
    let per: u32 = g.sectors_per_cluster * (g.bytes_per_sector / 32);
    assert((count + 1) * per <= 0x400_0000_0000) by (nonlinear_arith)
        requires
            count <= 0x0FFF_FFF5,
            per <= 16384,
    ;
    if (count as u64 + 1) * per as u64 > MAX_SLOTS as u64 {
        return Err(FsError::DirectoryFull);
    }
    attach_cluster(vol, dev, last)
}

/// The number of fragments that the entry for `name` is stored with.
pub open spec fn entry_fragments(name: Seq<u16>) -> nat {
    match naming_of(name) {
        Naming::ShortOnly => 0,
        _ => fragment_count(name.len()),
    }
}

/// Slot `i` of the slots of an entry: the fragments, the last in the name
/// first, and then the short entry.
pub open spec fn entry_slot(
    name: Seq<u16>,
    short: Seq<u8>,
    frags: int,
    i: int,
    attr: u8,
    first_cluster: u32,
    size: u32,
    stamp: Stamp,
) -> Seq<u8> {
    if i < frags {
        let k = frags - i;
        fragment_slot(
            fragment_of(name, k),
            (if i == 0 {
                k + 0x40
            } else {
                k
            }) as u8,
            checksum(short),
        )
    } else {
        short_slot(short, attr, first_cluster, size, stamp)
    }
}

/// The slots of an entry with `frags` fragments.
pub open spec fn entry_slots(
    name: Seq<u16>,
    short: Seq<u8>,
    frags: int,
    attr: u8,
    first_cluster: u32,
    size: u32,
    stamp: Stamp,
) -> Seq<Seq<u8>> {
    Seq::new(
        (frags + 1) as nat,
        |i: int| entry_slot(name, short, frags, i, attr, first_cluster, size, stamp),
    )
}

/// The bytes of each element of `v`.
pub open spec fn views(v: Seq<Vec<u8>>) -> Seq<Seq<u8>> {
    Seq::new(v.len(), |i: int| v[i]@)
}

/// Builds the slots of an entry.
pub(crate) fn build_entry(
    name: &Vec<u16>,
    short: &Vec<u8>,
    frags: u32,
    attr: u8,
    first_cluster: u32,
    size: u32,
    stamp: Stamp,
) -> (out: Vec<Vec<u8>>)
    requires
        short.len() == 11,
        frags <= 20,
        name.len() <= 255,
    ensures
        views(out@) == entry_slots(
            name@,
            short@,
            frags as int,
            attr,
            first_cluster,
            size,
            stamp,
        ),
        out.len() == frags + 1,
        forall|k: int| 0 <= k < out.len() ==> (#[trigger] out@[k]).len() == 32,
{
    let sum = name_checksum(short);
    let mut out: Vec<Vec<u8>> = Vec::new();
    let mut i: u32 = 0;
    while i < frags
        invariant
            i <= frags,
            frags <= 20,
            short.len() == 11,
            name.len() <= 255,
            sum == checksum(short@),
            out.len() == i,
            forall|k: int| 0 <= k < i ==> (#[trigger] out@[k]).len() == 32,
            forall|k: int|
                0 <= k < i ==> (#[trigger] out@[k])@ == entry_slot(
                    name@,
                    short@,
                    frags as int,
                    k,
                    attr,
                    first_cluster,
                    size,
                    stamp,
                ),
        decreases frags - i,
    {
        let k: u32 = frags - i;
        let order: u8 = if i == 0 {
            (k + 0x40) as u8
        } else {
            k as u8
        };
        let units = name_fragment(name, k);
        out.push(make_fragment_slot(&units, order, sum));
        i = i + 1;
    }
    out.push(make_short_slot(short, attr, first_cluster, size, stamp));
    assert(views(out@) =~= entry_slots(
        name@,
        short@,
        frags as int,
        attr,
        first_cluster,
        size,
        stamp,
    ));
    out
}

/// Gathering the fragments of an entry from fragment `k` on gives its name.
proof fn lemma_gather_entry(
    slots: Slots,
    j: int,
    name: Seq<u16>,
    sum: u8,
    frags: int,
    k: int,
)
    requires
        1 <= k <= frags <= 20,
        frags <= j,
        forall|m: int|
            k <= m <= frags ==> #[trigger] slots(j - m) == Probe::Holds(
                fragment_slot(
                    fragment_of(name, m),
                    (if m == frags {
                        m + 0x40
                    } else {
                        m
                    }) as u8,
                    sum,
                ),
            ),
    ensures
        gather(slots, j, sum, k, fragments_joined(name, (k - 1) as nat)) == Some(
            (trim_name(fragments_joined(name, frags as nat)), frags),
        ),
    decreases frags - k,
{
    let order = (if k == frags {
        k + 0x40
    } else {
        k
    }) as u8;
    let s = fragment_slot(fragment_of(name, k), order, sum);
    assert(slots(j - k) == Probe::Holds(s));
    lemma_fragment_slot(fragment_of(name, k), order, sum);
    assert(fragments_joined(name, (k - 1) as nat) + fragment_of(name, k) == fragments_joined(
        name,
        k as nat,
    ));
    if k < frags {
        lemma_gather_entry(slots, j, name, sum, frags, k + 1);
    }
}

/// An entry that was stored with fragments is listed under its name: where
/// the slots from `base` on hold the slots of the entry for `name`, the
/// long name of the short entry is `name`.
pub proof fn lemma_entry_listed(
    slots: Slots,
    base: int,
    name: Seq<u16>,
    short: Seq<u8>,
    attr: u8,
    first_cluster: u32,
    size: u32,
    stamp: Stamp,
)
    requires
        name_ok(name),
        short.len() == 11,
        0 <= base,
        forall|i: int|
            0 <= i <= fragment_count(name.len()) ==> #[trigger] slots(base + i) == Probe::Holds(
                entry_slot(
                    name,
                    short,
                    fragment_count(name.len()) as int,
                    i,
                    attr,
                    first_cluster,
                    size,
                    stamp,
                ),
            ),
    ensures
        long_name_at(slots, base + fragment_count(name.len())) == Some(
            (name, fragment_count(name.len()) as int),
        ),
        listed_name(slots, base + fragment_count(name.len())) == name,
{
    let frags = fragment_count(name.len()) as int;
    let j = base + frags;
    let sum = checksum(short);
    lemma_name_round_trip(name);
    lemma_short_slot_fields(short, attr, first_cluster, size, stamp);
    let last = short_slot(short, attr, first_cluster, size, stamp);
    assert(slots(base + frags) == Probe::Holds(last));
    assert(last.subrange(0, 11) == short);
    assert forall|m: int| 1 <= m <= frags implies #[trigger] slots(j - m) == Probe::Holds(
        fragment_slot(
            fragment_of(name, m),
            (if m == frags {
                m + 0x40
            } else {
                m
            }) as u8,
            sum,
        ),
    ) by {
        let i = frags - m;
        assert(slots(base + i) == Probe::Holds(
            entry_slot(name, short, frags, i, attr, first_cluster, size, stamp),
        ));
    }
    lemma_gather_entry(slots, j, name, sum, frags, 1);
    assert(fragments_joined(name, 0) =~= Seq::<u16>::empty());
}

/// The slots of a run of free slots exist and are free.
pub proof fn lemma_room(slots: Slots, need: int, i: int, run: int)
    requires
        0 <= run <= i,
        run < need,
        forall|k: int| i - run <= k < i ==> (#[trigger] slots(k) matches Probe::Holds(s) && slot_free(s)),
        room_from(slots, need, i, run) is At,
    ensures
        ({
            let b = room_from(slots, need, i, run)->At_0;
            &&& 0 <= b
            &&& b + need <= MAX_SLOTS
            &&& forall|k: int| b <= k < b + need ==> (#[trigger] slots(k) matches Probe::Holds(s) && slot_free(s))
        }),
    decreases MAX_SLOTS - i,
{
    match slots(i) {
        Probe::Holds(s) => {
            if slot_free(s) {
                if run + 1 < need {
                    lemma_room(slots, need, i + 1, run + 1);
                }
            } else {
                lemma_room(slots, need, i + 1, 0);
            }
        },
        _ => {},
    }
}

/// With the numeric tail `n` the short name `basis` is not taken, and with
/// every lesser tail it is.
pub open spec fn tail_free(slots: Slots, basis: Seq<u8>, stem: nat, n: nat) -> bool {
    &&& 1 <= n <= MAX_TAIL
    &&& short_from(slots, with_tail(basis, stem, n), 0) is Nothing
    &&& forall|m: nat| 1 <= m < n ==> #[trigger] short_from(slots, with_tail(basis, stem, m), 0) is At
}

/// With every numeric tail the short name `basis` is taken.
pub open spec fn tails_taken(slots: Slots, basis: Seq<u8>, stem: nat) -> bool {
    forall|m: nat|
        1 <= m <= MAX_TAIL ==> #[trigger] short_from(slots, with_tail(basis, stem, m), 0) is At
}

/// The scan for a short name leaves the data region where the scan for a
/// name does, if it comes that far.
pub proof fn lemma_short_scan(slots: Slots, name: Seq<u16>, short: Seq<u8>, i: int)
    requires
        !(find_from(slots, name, i) is Broken),
        !(find_from(slots, name, i) is At),
    ensures
        !(short_from(slots, short, i) is Broken),
    decreases MAX_SLOTS - i,
{
    if 0 <= i < MAX_SLOTS {
        match slots(i) {
            Probe::Holds(s) => {
                if s[0] != MARK_END {
                    lemma_short_scan(slots, name, short, i + 1);
                }
            },
            _ => {},
        }
    }
}

/// Finds the least numeric tail with which the short name `basis` is not
/// taken in directory `dir`, and gives the short name with that tail.
///
/// `DirectoryFull` is answered where every tail is taken, `CorruptVolume`
/// where the directory's chain leaves the data region. The drive is left
/// as it is. On a drive that is not dependable the answer may instead be
/// the error of a failed read.
pub(crate) fn pick_tail<H: FatfsDiskHandler>(vol: &Volume, dev: &mut H, dir: u32, basis: &Vec<u8>, stem: usize) -> (res:
    Result<(Vec<u8>, u32), FsError>)
    requires
        old(dev).inv(),
        vol.on(old(dev).drive(vol.pdrv)),
        basis.len() == 11,
        stem <= 8,
    ensures
        final(dev).inv(),
        final(dev).drive(vol.pdrv) == old(dev).drive(vol.pdrv),
        match res {
            Ok((short, n)) => short@ == with_tail(basis@, stem as nat, n as nat) && short.len()
                == 11 && tail_free(
                vol.geom.slots(old(dev).drive(vol.pdrv).sectors, dir),
                basis@,
                stem as nat,
                n as nat,
            ),
            Err(e) => (e == FsError::DirectoryFull && tails_taken(
                vol.geom.slots(old(dev).drive(vol.pdrv).sectors, dir),
                basis@,
                stem as nat,
            )) || (e == FsError::CorruptVolume && exists|m: nat| #[trigger]
                short_from(
                    vol.geom.slots(old(dev).drive(vol.pdrv).sectors, dir),
                    with_tail(basis@, stem as nat, m),
                    0,
                ) is Broken) || (!old(dev).drive(vol.pdrv).dependable && e.is_device()),
        },
{
    let ghost slots = vol.geom.slots(old(dev).drive(vol.pdrv).sectors, dir);
    let mut n: u32 = 1;
    while n <= MAX_TAIL
        invariant
            1 <= n <= MAX_TAIL + 1,
            basis.len() == 11,
            stem <= 8,
            dev.inv(),
            dev.drive(vol.pdrv) == old(dev).drive(vol.pdrv),
            vol.on(dev.drive(vol.pdrv)),
            slots == vol.geom.slots(old(dev).drive(vol.pdrv).sectors, dir),
            forall|m: nat|
                1 <= m < n ==> #[trigger] short_from(slots, with_tail(basis@, stem as nat, m), 0)
                    is At,
        decreases MAX_TAIL + 1 - n,
    {
        let cand = make_tailed(basis, stem, n);
        match short_taken(vol, dev, dir, &cand) {
            Err(e) => {
                return Err(e);
            },
            Ok(false) => {
                return Ok((cand, n));
            },
            Ok(true) => {},
        }
        n = n + 1;
    }
    Err(FsError::DirectoryFull)
}

/// Every slot that directory `dir` had on `before` holds on `after` what it
/// held.
pub open spec fn slots_kept(g: Geometry, before: Seq<Seq<u8>>, after: Seq<Seq<u8>>, dir: u32) -> bool {
    forall|j: int|
        0 <= j < MAX_SLOTS && g.probe(before, dir, j) is Holds ==> #[trigger] g.probe(after, dir, j)
            == g.probe(before, dir, j)
}

/// Every slot that directory `dir` has on `after` and had not on `before`
/// was never used.
pub open spec fn slots_new_blank(g: Geometry, before: Seq<Seq<u8>>, after: Seq<Seq<u8>>, dir: u32) -> bool {
    forall|j: int|
        0 <= j && !(g.probe(before, dir, j) is Holds) && (#[trigger] g.probe(after, dir, j))
            is Holds ==> g.probe(after, dir, j) == Probe::Holds(zeros(32))
}

/// A directory that has grown by a cluster has kept its slots.
proof fn lemma_grown_kept(g: Geometry, before: Drive, after: Drive, dir: u32, c: int)
    requires
        g.wf(),
        before.wf(),
        after.wf(),
        g.fits(before),
        !g.fixed_root(dir),
        g.chain(before.sectors, g.dir_first(dir)) is Some,
        attached(
            g,
            before,
            after,
            g.chain(before.sectors, g.dir_first(dir))->Some_0.last(),
            c,
        ),
    ensures
        slots_kept(g, before.sectors, after.sectors, dir),
        slots_new_blank(g, before.sectors, after.sectors, dir),
{
    let t = g.fat_type;
    let t0 = g.table(before.sectors);
    let first = g.dir_first(dir);
    let s = g.chain(before.sectors, first)->Some_0;
    let per = g.cluster_slots();
    g.lemma_cluster_slots();
    crate::chain::lemma_chain_is_chain(t, t0, first, g.cluster_count as nat);
    assert forall|j: int|
        0 <= j && !(g.probe(before.sectors, dir, j) is Holds) && (#[trigger] g.probe(
            after.sectors,
            dir,
            j,
        )) is Holds implies g.probe(after.sectors, dir, j) == Probe::Holds(zeros(32)) by {
        if j < MAX_SLOTS {
            lemma_grown(g, before, after, dir, c, j);
        }
    }
    assert forall|j: int|
        0 <= j < MAX_SLOTS && g.probe(before.sectors, dir, j) is Holds implies #[trigger] g.probe(
        after.sectors,
        dir,
        j,
    ) == g.probe(before.sectors, dir, j) by {
        lemma_grown(g, before, after, dir, c, j);
        let k = j / per;
        crate::region::lemma_split(j, per);
        crate::chain::lemma_chain_walk(t, t0, s, k as nat);
        assert(k < s.len());
        assert(j < s.len() * per) by (nonlinear_arith)
            requires
                j == k * per + j % per,
                0 <= j % per < per,
                k < s.len(),
                per > 0,
        ;
    }
}

/// What the search for `need` free slots in directory `dir` comes to on
/// `disk`: the first slot of the run that is found; the error, where the
/// directory's chain leaves the data region, or where no run is found and
/// the directory cannot grow; `None` where no run is found and the
/// directory can grow.
pub open spec fn room_answer(vol: Volume, disk: Seq<Seq<u8>>, dir: u32, need: int) -> Option<
    Result<int, FsError>,
> {
    match room_from(vol.geom.slots(disk, dir), need, 0, 0) {
        Scan::At(b) => Some(Ok(b)),
        Scan::Broken => Some(Err(FsError::CorruptVolume)),
        Scan::Nothing => match grow_refusal(vol, disk, dir) {
            Some(e) => Some(Err(e)),
            None => None,
        },
    }
}

/// The drive `after` is `before` with directory `dir` grown `n` times by a
/// cluster, each time because it had no room for `need` slots and could
/// grow.
#[verifier::opaque]
pub open spec fn grown(vol: Volume, before: Drive, after: Drive, dir: u32, need: int, n: nat) -> bool
    decreases n,
{
    if n == 0 {
        after == before
    } else {
        exists|mid: Drive, c: int|
            grown(vol, before, mid, dir, need, (n - 1) as nat) && room_answer(
                vol,
                mid.sectors,
                dir,
                need,
            ) is None && #[trigger] attached(
                vol.geom,
                mid,
                after,
                vol.geom.chain(mid.sectors, vol.geom.dir_first(dir))->Some_0.last(),
                c,
            )
    }
}

/// The most clusters by which a directory grows for one entry.
pub const MAX_GROWTH: u32 = 3;

/// What `make_room` answers on a drive on which the directory has grown
/// `n` times: what the search comes to, but `DirectoryFull` where no run
/// is found and the directory has grown as often as it may.
pub open spec fn room_result(vol: Volume, disk: Seq<Seq<u8>>, dir: u32, need: int, n: nat) -> Option<
    Result<int, FsError>,
> {
    if n >= MAX_GROWTH && room_from(vol.geom.slots(disk, dir), need, 0, 0) is Nothing {
        Some(Err(FsError::DirectoryFull))
    } else {
        room_answer(vol, disk, dir, need)
    }
}

/// A drive is itself with a directory that has not grown.
pub proof fn lemma_grown_none(vol: Volume, before: Drive, dir: u32, need: int)
    ensures
        grown(vol, before, before, dir, need, 0),
{
    reveal(grown);
}

/// A directory that has grown `n` times and grows once more has grown
/// `n + 1` times.
pub proof fn lemma_grown_more(
    vol: Volume,
    before: Drive,
    mid: Drive,
    after: Drive,
    dir: u32,
    need: int,
    n: nat,
    c: int,
)
    requires
        grown(vol, before, mid, dir, need, n),
        room_answer(vol, mid.sectors, dir, need) is None,
        attached(
            vol.geom,
            mid,
            after,
            vol.geom.chain(mid.sectors, vol.geom.dir_first(dir))->Some_0.last(),
            c,
        ),
    ensures
        grown(vol, before, after, dir, need, n + 1),
{
    reveal_with_fuel(grown, 2);
}

/// A directory that has grown had no room before.
pub proof fn lemma_grown_first(vol: Volume, before: Drive, after: Drive, dir: u32, need: int, n: nat)
    requires
        grown(vol, before, after, dir, need, n),
        n > 0,
    ensures
        room_answer(vol, before.sectors, dir, need) is None,
    decreases n,
{
    reveal_with_fuel(grown, 2);
    let (mid, c) = choose|mid: Drive, c: int|
        grown(vol, before, mid, dir, need, (n - 1) as nat) && room_answer(
            vol,
            mid.sectors,
            dir,
            need,
        ) is None && #[trigger] attached(
            vol.geom,
            mid,
            after,
            vol.geom.chain(mid.sectors, vol.geom.dir_first(dir))->Some_0.last(),
            c,
        );
    if n > 1 {
        lemma_grown_first(vol, before, mid, dir, need, (n - 1) as nat);
    }
}

/// Finds `need` free slots that follow one another in directory `dir`,
/// growing the directory where it has none, and gives the number of the
/// first. See `room_result` for the answer and `grown` for the drive
/// afterwards.
///
/// Where the directory has room, the drive is left as it is. Else the
/// directory grows by a cluster at a time; `DirectoryFull` is answered
/// where it cannot grow, `DiskFull` where no cluster is free.
pub(crate) fn make_room<H: FatfsDiskHandler>(vol: &mut Volume, dev: &mut H, dir: u32, need: u32) -> (res:
    Result<u32, FsError>)
    requires
        old(dev).inv(),
        old(vol).on(old(dev).drive(old(vol).pdrv)),
        1 <= need <= 21,
    ensures
        final(dev).inv(),
        same_volume(*old(vol), *final(vol)),
        final(vol).on(final(dev).drive(old(vol).pdrv)),
        body_changed(old(vol).geom, old(dev).drive(old(vol).pdrv), final(dev).drive(old(vol).pdrv)),
        (exists|n: nat| #[trigger]
            grown(
                *old(vol),
                old(dev).drive(old(vol).pdrv),
                final(dev).drive(old(vol).pdrv),
                dir,
                need as int,
                n,
            ) && n <= MAX_GROWTH && (match res {
                Ok(b) => room_result(
                    *old(vol),
                    final(dev).drive(old(vol).pdrv).sectors,
                    dir,
                    need as int,
                    n,
                ) == Some(Ok::<int, FsError>(b as int)),
                Err(e) => room_result(
                    *old(vol),
                    final(dev).drive(old(vol).pdrv).sectors,
                    dir,
                    need as int,
                    n,
                ) == Some(Err::<int, FsError>(e)),
            })) || (!old(dev).drive(old(vol).pdrv).dependable && res is Err
            && res->Err_0.is_device()),
        res matches Ok(b) ==> b + need <= MAX_SLOTS && slots_kept(
            old(vol).geom,
            old(dev).drive(old(vol).pdrv).sectors,
            final(dev).drive(old(vol).pdrv).sectors,
            dir,
        ) && slots_new_blank(
            old(vol).geom,
            old(dev).drive(old(vol).pdrv).sectors,
            final(dev).drive(old(vol).pdrv).sectors,
            dir,
        ),
{
    let g = vol.geom;
    let pdrv = vol.pdrv;
    let ghost v0 = *vol;
    let ghost d0 = old(dev).drive(pdrv);
    assert(body_changed(g, d0, d0));
    proof {
        lemma_grown_none(v0, d0, dir, need as int);
    }
    let mut tries: u32 = 0;
    loop
        invariant
            tries <= MAX_GROWTH,
            1 <= need <= 21,
            dev.inv(),
            g == old(vol).geom,
            pdrv == old(vol).pdrv,
            v0 == *old(vol),
            same_volume(*old(vol), *vol),
            d0 == old(dev).drive(pdrv),
            vol.on(dev.drive(pdrv)),
            body_changed(g, d0, dev.drive(pdrv)),
            slots_kept(g, d0.sectors, dev.drive(pdrv).sectors, dir),
            slots_new_blank(g, d0.sectors, dev.drive(pdrv).sectors, dir),
            grown(v0, d0, dev.drive(pdrv), dir, need as int, tries as nat),
        decreases MAX_GROWTH - tries,
    {
        let ghost cur = dev.drive(pdrv);
        match find_room(vol, dev, dir, need) {
            Err(e) => {
                return Err(e);
            },
            Ok(Some(b)) => {
                proof {
                    lemma_room(g.slots(cur.sectors, dir), need as int, 0, 0);
                }
                return Ok(b);
            },
            Ok(None) => {},
        }
        if tries >= MAX_GROWTH {
            return Err(FsError::DirectoryFull);
        }
        match grow_dir(vol, dev, dir) {
            Err(e) => {
                return Err(e);
            },
            Ok(c) => {
                proof {
                    let next = dev.drive(pdrv);
                    lemma_body_twice(g, d0, cur, next);
                    dev.inv_shape(pdrv);
                    lemma_grown_kept(g, cur, next, dir, c as int);
                    assert forall|j: int|
                        0 <= j < MAX_SLOTS && g.probe(d0.sectors, dir, j)
                            is Holds implies #[trigger] g.probe(next.sectors, dir, j) == g.probe(
                        d0.sectors,
                        dir,
                        j,
                    ) by {
                        assert(g.probe(cur.sectors, dir, j) == g.probe(d0.sectors, dir, j));
                    }
                    assert forall|j: int|
                        0 <= j && !(g.probe(d0.sectors, dir, j) is Holds) && (#[trigger] g.probe(
                            next.sectors,
                            dir,
                            j,
                        )) is Holds implies g.probe(next.sectors, dir, j) == Probe::Holds(
                        zeros(32),
                    ) by {
                        if g.probe(cur.sectors, dir, j) is Holds {
                            assert(g.probe(cur.sectors, dir, j) == Probe::Holds(zeros(32)));
                            assert(j < MAX_SLOTS);
                            assert(g.probe(next.sectors, dir, j) == g.probe(cur.sectors, dir, j));
                        }
                    }
                    lemma_grown_more(v0, d0, cur, next, dir, need as int, tries as nat, c as int);
                }
            },
        }
        tries = tries + 1;
    }
}

/// The attribute byte can be given to a new entry: it marks no volume
/// label, and so no fragment either.
pub open spec fn attr_ok(attr: u8) -> bool {
    attr / 8 % 2 == 0
}

/// `short` is a short name that the entry for `name` can be stored with:
/// the name's own short name, or that short name with a numeric tail where
/// the name asks for one.
pub open spec fn short_for(name: Seq<u16>, short: Seq<u8>) -> bool {
    match naming_of(name) {
        Naming::LongTailed => exists|n: nat|
            1 <= n <= MAX_TAIL && short == #[trigger] with_tail(
                short_basis(name),
                stem_len(name),
                n,
            ),
        _ => short == short_basis(name),
    }
}

/// Why a new entry is refused before the directory is read, if it is.
pub open spec fn add_refusal(vol: Volume, name: Seq<u16>, attr: u8) -> Option<FsError> {
    if vol.read_only {
        Some(FsError::WriteProtected)
    } else if !name_ok(name) || !attr_ok(attr) {
        Some(FsError::InvalidParameter)
    } else {
        None
    }
}

/// What holds of a directory after the slots of an entry were written to
/// it: each slot holds its bytes, the short entry stands for an entry, and
/// an entry with fragments is listed under its name.
proof fn lemma_added(
    g: Geometry,
    d1: Drive,
    d2: Drive,
    dir: u32,
    base: int,
    name: Seq<u16>,
    short: Seq<u8>,
    frags: int,
    attr: u8,
    first_cluster: u32,
    size: u32,
    stamp: Stamp,
)
    requires
        name_ok(name),
        attr_ok(attr),
        short.len() == 11,
        0x21 <= short[0] < 0x7F,
        0 <= base,
        frags == entry_fragments(name),
        slots_written(
            g,
            d1,
            d2,
            dir,
            base,
            entry_slots(name, short, frags, attr, first_cluster, size, stamp),
        ),
        short_for(name, short),
    ensures
        forall|i: int|
            0 <= i <= frags ==> #[trigger] g.probe(d2.sectors, dir, base + frags - frags + i)
                == Probe::Holds(
                entry_slot(name, short, frags, i, attr, first_cluster, size, stamp),
            ),
        is_entry(short_slot(short, attr, first_cluster, size, stamp)),
        frags > 0 ==> listed_name(g.slots(d2.sectors, dir), base + frags) == name,
        crate::dir::goes_by(g.slots(d2.sectors, dir), base + frags, name),
{
    let all = entry_slots(name, short, frags, attr, first_cluster, size, stamp);
    assert forall|i: int| 0 <= i <= frags implies #[trigger] g.probe(
        d2.sectors,
        dir,
        base + frags - frags + i,
    ) == Probe::Holds(entry_slot(name, short, frags, i, attr, first_cluster, size, stamp)) by {
        assert(g.probe(d2.sectors, dir, base + i) == Probe::Holds(all[i]));
    }
    lemma_short_slot_fields(short, attr, first_cluster, size, stamp);
    if frags > 0 {
        let slots = g.slots(d2.sectors, dir);
        assert forall|i: int| 0 <= i <= fragment_count(name.len()) implies #[trigger] slots(
            base + i,
        ) == Probe::Holds(
            entry_slot(
                name,
                short,
                fragment_count(name.len()) as int,
                i,
                attr,
                first_cluster,
                size,
                stamp,
            ),
        ) by {
            assert(g.probe(d2.sectors, dir, base + i) == Probe::Holds(all[i]));
        }
        lemma_entry_listed(slots, base, name, short, attr, first_cluster, size, stamp);
        assert(crate::name::same_name(name, name));
    } else {
        let last = short_slot(short, attr, first_cluster, size, stamp);
        assert(g.probe(d2.sectors, dir, base + 0) == Probe::Holds(all[0]));
        assert(last.subrange(0, 11) == short);
        assert(crate::dir::short_shown(last) == name);
        assert(crate::name::same_name(name, name));
    }
}

/// The slots of a directory that are not written keep their bytes when
/// other slots of the directory are written.
proof fn lemma_others_kept(
    g: Geometry,
    d0: Drive,
    d1: Drive,
    d2: Drive,
    dir: u32,
    base: int,
    frags: int,
    data: Seq<Seq<u8>>,
)
    requires
        g.wf(),
        data.len() == frags + 1,
        0 <= base,
        slots_kept(g, d0.sectors, d1.sectors, dir),
        g.dir_sound(d1.sectors, dir),
        slots_written(g, d1, d2, dir, base, data),
        forall|i: int| 0 <= i <= frags ==> (#[trigger] g.probe(d1.sectors, dir, base + i)) is Holds,
    ensures
        forall|j: int|
            0 <= j < MAX_SLOTS && !(base + frags - frags <= j <= base + frags) && g.probe(
                d0.sectors,
                dir,
                j,
            ) is Holds ==> #[trigger] g.probe(d2.sectors, dir, j) == g.probe(d0.sectors, dir, j),
        forall|j: int|
            0 <= j && !(base <= j <= base + frags) && g.probe(d1.sectors, dir, j) is Holds
                ==> #[trigger] g.probe(d2.sectors, dir, j) == g.probe(d1.sectors, dir, j),
        forall|j: int|
            0 <= j && !(g.probe(d1.sectors, dir, j) is Holds) ==> !(#[trigger] g.probe(
                d2.sectors,
                dir,
                j,
            ) is Holds),
{
    assert forall|j: int| 0 <= j && !(g.probe(d1.sectors, dir, j) is Holds) implies !(
    #[trigger] g.probe(d2.sectors, dir, j) is Holds) by {
        crate::dir::lemma_same_table_same_place(g, d1.sectors, d2.sectors, dir, j);
    }
    assert forall|j: int|
        0 <= j && !(base <= j <= base + frags) && g.probe(d1.sectors, dir, j)
            is Holds implies #[trigger] g.probe(d2.sectors, dir, j) == g.probe(
        d1.sectors,
        dir,
        j,
    ) by {
        assert(crate::dir::kept_apart(g, d1.sectors, dir, base, data.len() as int, dir, j)) by {
            assert forall|i: int| 0 <= i < data.len() implies g.slot_place(d1.sectors, dir, j)
                != #[trigger] g.slot_place(d1.sectors, dir, base + i) by {
                assert(g.probe(d1.sectors, dir, base + i) is Holds);
                g.lemma_places_differ(d1.sectors, dir, j, base + i);
            }
        }
    }
    assert forall|j: int|
        0 <= j < MAX_SLOTS && !(base + frags - frags <= j <= base + frags) && g.probe(
            d0.sectors,
            dir,
            j,
        ) is Holds implies #[trigger] g.probe(d2.sectors, dir, j) == g.probe(d0.sectors, dir, j) by {
        assert(g.probe(d1.sectors, dir, j) == g.probe(d0.sectors, dir, j));
        assert(crate::dir::kept_apart(g, d1.sectors, dir, base, data.len() as int, dir, j)) by {
            assert forall|i: int| 0 <= i < data.len() implies g.slot_place(d1.sectors, dir, j)
                != #[trigger] g.slot_place(d1.sectors, dir, base + i) by {
                assert(g.probe(d1.sectors, dir, base + i) is Holds);
                g.lemma_places_differ(d1.sectors, dir, j, base + i);
            }
        }
    }
}

/// An entry that was added to a directory.
pub struct Added {
    /// The number of the slot that holds the short entry.
    pub index: u32,
    /// The number of fragments that stand before it.
    pub fragments: u32,
    /// The short name that the entry was given.
    pub short: Vec<u8>,
}

/// `short` is the short name that the entry for `name` is stored with in
/// a directory with the slots `slots`: the name's own short name, or that
/// short name with the least numeric tail with which it is not taken,
/// where the name asks for a tail.
pub open spec fn short_picked(slots: Slots, name: Seq<u16>, short: Seq<u8>) -> bool {
    match naming_of(name) {
        Naming::LongTailed => exists|n: nat| #[trigger]
            tail_free(slots, short_basis(name), stem_len(name), n) && short == with_tail(
                short_basis(name),
                stem_len(name),
                n,
            ),
        _ => short == short_basis(name),
    }
}

/// Why a new entry is refused before anything is written, if it is: what
/// `add_refusal` says; an entry goes by `name`; the directory's chain
/// leaves the data region; or the name asks for a numeric tail, and every
/// tail is taken.
pub open spec fn add_err(vol: Volume, disk: Seq<Seq<u8>>, dir: u32, name: Seq<u16>, attr: u8) -> Option<
    FsError,
> {
    let slots = vol.geom.slots(disk, dir);
    if add_refusal(vol, name, attr) is Some {
        add_refusal(vol, name, attr)
    } else {
        match find_from(slots, name, 0) {
            Scan::At(_) => Some(FsError::AlreadyExists),
            Scan::Broken => Some(FsError::CorruptVolume),
            Scan::Nothing => if naming_of(name) is LongTailed && tails_taken(
                slots,
                short_basis(name),
                stem_len(name),
            ) {
                Some(FsError::DirectoryFull)
            } else {
                None
            },
        }
    }
}

/// Why no entry of `need` slots is written to directory `dir` once the
/// directory has grown `n` times, if none is: no room was found, and the
/// directory could not grow; or its clusters form no chain.
pub open spec fn late_err(vol: Volume, disk: Seq<Seq<u8>>, dir: u32, need: int, n: nat) -> Option<
    FsError,
> {
    match room_result(vol, disk, dir, need, n) {
        Some(Err(e)) => Some(e),
        Some(Ok(_)) => if !vol.geom.dir_sound(disk, dir) {
            Some(FsError::CorruptVolume)
        } else {
            None
        },
        None => None,
    }
}

/// What `add_entry` leaves when it fails with `e`: the drive as it was,
/// where the entry was refused before anything was written; else the
/// directory grown by the clusters that were added before the failure.
pub open spec fn add_failed(
    vol: Volume,
    before: Drive,
    after: Drive,
    dir: u32,
    name: Seq<u16>,
    attr: u8,
    e: FsError,
) -> bool {
    match add_err(vol, before.sectors, dir, name, attr) {
        Some(x) => e == x && after == before,
        None => exists|n: nat| #[trigger]
            grown(vol, before, after, dir, entry_fragments(name) as int + 1, n) && n <= MAX_GROWTH
                && late_err(vol, after.sectors, dir, entry_fragments(name) as int + 1, n) == Some(
                e,
            ),
    }
}

/// The entry was written to the first run of free slots that is long
/// enough, once the directory had grown as far as was needed: `mid` is
/// the drive before the slots were written.
pub open spec fn placed(
    vol: Volume,
    before: Drive,
    mid: Drive,
    after: Drive,
    dir: u32,
    base: int,
    data: Seq<Seq<u8>>,
    n: nat,
) -> bool {
    &&& n <= MAX_GROWTH
    &&& grown(vol, before, mid, dir, data.len() as int, n)
    &&& room_result(vol, mid.sectors, dir, data.len() as int, n) == Some(Ok::<int, FsError>(base))
    &&& slots_written(vol.geom, mid, after, dir, base, data)
}

/// What holds after an entry for `name` was added to directory `dir`, in
/// the slot `index` with `fragments` fragments before it and the short name
/// `short`:
///
/// - nothing refused the entry, and no entry went by `name` before;
/// - the slots of the entry hold the fragments and the short entry;
/// - the entry goes by `name`, and is listed under `name` where it has
///   fragments;
/// - every other slot that the directory had holds what it held;
/// - where the directory was tidy, a search for `name` finds the entry, and
///   a listing that comes to its first slot gives it;
/// - where the directory had room, nothing has changed on the drive but
///   the slots of the entry;
/// - the short name is the one that `short_picked` describes;
/// - the directory has grown as `grown` describes before the slots were
///   written, and nothing else has changed.
pub open spec fn added(
    vol: Volume,
    before: Drive,
    after: Drive,
    dir: u32,
    name: Seq<u16>,
    attr: u8,
    first_cluster: u32,
    size: u32,
    stamp: Stamp,
    index: int,
    fragments: int,
    short: Seq<u8>,
) -> bool {
    let g = vol.geom;
    &&& add_refusal(vol, name, attr) is None
    &&& find_from(g.slots(before.sectors, dir), name, 0) is Nothing
    &&& fragments == entry_fragments(name)
    &&& short_for(name, short)
    &&& 0 <= fragments <= index < MAX_SLOTS
    &&& forall|i: int|
        0 <= i <= fragments ==> #[trigger] g.probe(after.sectors, dir, index - fragments + i)
            == Probe::Holds(
            entry_slot(name, short, fragments, i, attr, first_cluster, size, stamp),
        )
    &&& is_entry(short_slot(short, attr, first_cluster, size, stamp))
    &&& fragments > 0 ==> listed_name(g.slots(after.sectors, dir), index) == name
    &&& crate::dir::goes_by(g.slots(after.sectors, dir), index, name)
    &&& forall|j: int|
        0 <= j < MAX_SLOTS && !(index - fragments <= j <= index) && g.probe(before.sectors, dir, j)
            is Holds ==> #[trigger] g.probe(after.sectors, dir, j) == g.probe(
            before.sectors,
            dir,
            j,
        )
    &&& crate::dirscan::tidy(g.slots(before.sectors, dir)) ==> find_from(
        g.slots(after.sectors, dir),
        name,
        0,
    ) == Scan::At(index) && crate::dir::entry_from(g.slots(after.sectors, dir), index - fragments)
        == Scan::At(index) && crate::dirscan::tidy(g.slots(after.sectors, dir))
    &&& room_from(g.slots(before.sectors, dir), fragments + 1, 0, 0) matches Scan::At(b)
        ==> index == b + fragments && slots_written(
        g,
        before,
        after,
        dir,
        b,
        entry_slots(name, short, fragments, attr, first_cluster, size, stamp),
    )
    &&& add_err(vol, before.sectors, dir, name, attr) is None
    &&& short_picked(g.slots(before.sectors, dir), name, short)
    &&& exists|mid: Drive, n: nat| #[trigger]
        placed(
            vol,
            before,
            mid,
            after,
            dir,
            index - fragments,
            entry_slots(name, short, fragments, attr, first_cluster, size, stamp),
            n,
        )
}

/// What the steps of `add_entry` have established gives what `added` says.
proof fn lemma_add_entry(
    vol: Volume,
    d0: Drive,
    d1: Drive,
    d2: Drive,
    dir: u32,
    name: Seq<u16>,
    attr: u8,
    first_cluster: u32,
    size: u32,
    stamp: Stamp,
    base: int,
    frags: int,
    short: Seq<u8>,
    n: nat,
)
    requires
        vol.geom.wf(),
        add_refusal(vol, name, attr) is None,
        find_from(vol.geom.slots(d0.sectors, dir), name, 0) is Nothing,
        frags == entry_fragments(name),
        short_for(name, short),
        short.len() == 11,
        0x21 <= short[0] < 0x7F,
        0 <= base,
        base + frags < MAX_SLOTS,
        slots_kept(vol.geom, d0.sectors, d1.sectors, dir),
        slots_new_blank(vol.geom, d0.sectors, d1.sectors, dir),
        room_from(vol.geom.slots(d1.sectors, dir), frags + 1, 0, 0) == Scan::At(base),
        add_err(vol, d0.sectors, dir, name, attr) is None,
        short_picked(vol.geom.slots(d0.sectors, dir), name, short),
        n <= MAX_GROWTH,
        grown(vol, d0, d1, dir, frags + 1, n),
        vol.geom.dir_sound(d1.sectors, dir),
        slots_written(
            vol.geom,
            d1,
            d2,
            dir,
            base,
            entry_slots(name, short, frags, attr, first_cluster, size, stamp),
        ),
    ensures
        added(
            vol,
            d0,
            d2,
            dir,
            name,
            attr,
            first_cluster,
            size,
            stamp,
            base + frags,
            frags,
            short,
        ),
{
    let g = vol.geom;
    let data = entry_slots(name, short, frags, attr, first_cluster, size, stamp);
    let slots1 = g.slots(d1.sectors, dir);
    lemma_room(slots1, frags + 1, 0, 0);
    if n > 0 {
        lemma_grown_first(vol, d0, d1, dir, frags + 1, n);
    } else {
        reveal(grown);
    }
    assert(room_from(g.slots(d0.sectors, dir), frags + 1, 0, 0) is At ==> d1 == d0);
    assert(placed(vol, d0, d1, d2, dir, base, data, n));
    assert forall|i: int| 0 <= i <= frags implies (#[trigger] g.probe(d1.sectors, dir, base + i))
        is Holds by {
        assert(slots1(base + i) is Holds);
    }
    lemma_others_kept(g, d0, d1, d2, dir, base, frags, data);
    lemma_added(g, d1, d2, dir, base, name, short, frags, attr, first_cluster, size, stamp);
    if crate::dirscan::tidy(g.slots(d0.sectors, dir)) {
        crate::dirscan::lemma_added_on_drive(
            g,
            d0,
            d1,
            d2,
            dir,
            name,
            short,
            base,
            frags,
            attr,
            first_cluster,
            size,
            stamp,
        );
    }
}

/// How a directory has grown does not depend on what the volume remembers.
pub proof fn lemma_grown_same(v0: Volume, v1: Volume, before: Drive, after: Drive, dir: u32, need: int, n: nat)
    requires
        same_volume(v0, v1),
        grown(v0, before, after, dir, need, n),
    ensures
        grown(v1, before, after, dir, need, n),
    decreases n,
{
    reveal_with_fuel(grown, 2);
    if n > 0 {
        let (mid, c) = choose|mid: Drive, c: int|
            grown(v0, before, mid, dir, need, (n - 1) as nat) && room_answer(
                v0,
                mid.sectors,
                dir,
                need,
            ) is None && #[trigger] attached(
                v0.geom,
                mid,
                after,
                v0.geom.chain(mid.sectors, v0.geom.dir_first(dir))->Some_0.last(),
                c,
            );
        lemma_grown_same(v0, v1, before, mid, dir, need, (n - 1) as nat);
        assert(room_answer(v1, mid.sectors, dir, need) is None);
    }
}

/// What holds of an added entry does not depend on what the volume
/// remembers.
pub proof fn lemma_added_same(
    v0: Volume,
    v1: Volume,
    before: Drive,
    after: Drive,
    dir: u32,
    name: Seq<u16>,
    attr: u8,
    first_cluster: u32,
    size: u32,
    stamp: Stamp,
    index: int,
    fragments: int,
    short: Seq<u8>,
)
    requires
        same_volume(v0, v1),
        added(v0, before, after, dir, name, attr, first_cluster, size, stamp, index, fragments, short),
    ensures
        added(v1, before, after, dir, name, attr, first_cluster, size, stamp, index, fragments, short),
{
    let data = entry_slots(name, short, fragments, attr, first_cluster, size, stamp);
    let (mid, n) = choose|mid: Drive, n: nat| #[trigger]
        placed(v0, before, mid, after, dir, index - fragments, data, n);
    lemma_grown_same(v0, v1, before, mid, dir, data.len() as int, n);
    assert(placed(v1, before, mid, after, dir, index - fragments, data, n));
}

/// What a failed attempt to add an entry leaves does not depend on what
/// the volume remembers.
pub proof fn lemma_add_failed_same(
    v0: Volume,
    v1: Volume,
    before: Drive,
    after: Drive,
    dir: u32,
    name: Seq<u16>,
    attr: u8,
    e: FsError,
)
    requires
        same_volume(v0, v1),
        add_failed(v0, before, after, dir, name, attr, e),
    ensures
        add_failed(v1, before, after, dir, name, attr, e),
{
    if add_err(v0, before.sectors, dir, name, attr) is None {
        let need = entry_fragments(name) as int + 1;
        let n = choose|n: nat| #[trigger]
            grown(v0, before, after, dir, need, n) && n <= MAX_GROWTH && late_err(
                v0,
                after.sectors,
                dir,
                need,
                n,
            ) == Some(e);
        lemma_grown_same(v0, v1, before, after, dir, need, n);
        assert(late_err(v1, after.sectors, dir, need, n) == Some(e));
    }
}

/// Picks the short name for a new entry of directory `dir`, and tells how
/// many fragments the entry has.
fn pick_short<H: FatfsDiskHandler>(vol: &Volume, dev: &mut H, dir: u32, name: &Vec<u16>, attr: u8) -> (res:
    Result<(Vec<u8>, u32), FsError>)
    requires
        old(dev).inv(),
        vol.on(old(dev).drive(vol.pdrv)),
        add_refusal(*vol, name@, attr) is None,
        find_from(vol.geom.slots(old(dev).drive(vol.pdrv).sectors, dir), name@, 0) is Nothing,
    ensures
        final(dev).inv(),
        final(dev).drive(vol.pdrv) == old(dev).drive(vol.pdrv),
        match res {
            Ok((short, frags)) => {
                &&& add_err(*vol, old(dev).drive(vol.pdrv).sectors, dir, name@, attr) is None
                &&& short_picked(
                    vol.geom.slots(old(dev).drive(vol.pdrv).sectors, dir),
                    name@,
                    short@,
                )
                &&& short_for(name@, short@)
                &&& frags == entry_fragments(name@)
                &&& frags <= 20
                &&& short.len() == 11
                &&& 0x21 <= short[0] < 0x7F
            },
            Err(e) => add_err(*vol, old(dev).drive(vol.pdrv).sectors, dir, name@, attr) == Some(e)
                || (!old(dev).drive(vol.pdrv).dependable && e.is_device()),
        },
{
    let ghost slots = vol.geom.slots(old(dev).drive(vol.pdrv).sectors, dir);
    let (naming, basis, stem) = classify(name);
    let frags: u32 = match naming {
        Naming::ShortOnly => 0,
        _ => ((name.len() + 12) / 13) as u32,
    };
    match naming {
        Naming::LongTailed => {
            match pick_tail(vol, dev, dir, &basis, stem) {
                Err(e) => {
                    proof {
                        if e == FsError::CorruptVolume && old(dev).drive(vol.pdrv).dependable {
                            let m = choose|m: nat| #[trigger]
                                short_from(slots, with_tail(basis@, stem as nat, m), 0) is Broken;
                            lemma_short_scan(slots, name@, with_tail(basis@, stem as nat, m), 0);
                        }
                        if e == FsError::CorruptVolume && !e.is_device() {
                            let m = choose|m: nat| #[trigger]
                                short_from(slots, with_tail(basis@, stem as nat, m), 0) is Broken;
                            lemma_short_scan(slots, name@, with_tail(basis@, stem as nat, m), 0);
                        }
                    }
                    Err(e)
                },
                Ok((short, n)) => {
                    proof {
                        crate::name::lemma_short_first(name@, n as nat);
                        assert(!tails_taken(slots, basis@, stem as nat)) by {
                            if tails_taken(slots, basis@, stem as nat) {
                                assert(short_from(slots, with_tail(basis@, stem as nat, n as nat), 0)
                                    is At);
                            }
                        }
                    }
                    Ok((short, frags))
                },
            }
        },
        _ => {
            proof {
                crate::name::lemma_short_first(name@, 1);
            }
            Ok((basis, frags))
        },
    }
}

/// Adds an entry for `name` to directory `dir`. See `added` for what holds
/// afterwards, and `add_failed` for the refusals and what they leave.
///
/// `WriteProtected` is answered on a volume that was mounted from a
/// protected medium, `InvalidParameter` where the name is not acceptable
/// or `attr` marks a volume label, and `AlreadyExists` where an entry goes
/// by `name`; the drive is then left as it is. The entry's fragments are
/// written before its short entry, into the first run of free slots that
/// is long enough; the directory grows where it has none.
pub fn add_entry<H: FatfsDiskHandler>(
    vol: &mut Volume,
    dev: &mut H,
    dir: u32,
    name: &Vec<u16>,
    attr: u8,
    first_cluster: u32,
    size: u32,
    stamp: Stamp,
) -> (res: Result<Added, FsError>)
    requires
        old(dev).inv(),
        old(vol).on(old(dev).drive(old(vol).pdrv)),
    ensures
        final(dev).inv(),
        same_volume(*old(vol), *final(vol)),
        final(vol).on(final(dev).drive(old(vol).pdrv)),
        body_changed(old(vol).geom, old(dev).drive(old(vol).pdrv), final(dev).drive(old(vol).pdrv)),
        add_refusal(*old(vol), name@, attr) matches Some(e) ==> res == Err::<Added, FsError>(e)
            && final(dev).drive(old(vol).pdrv) == old(dev).drive(old(vol).pdrv),
        match res {
            Ok(a) => added(
                *old(vol),
                old(dev).drive(old(vol).pdrv),
                final(dev).drive(old(vol).pdrv),
                dir,
                name@,
                attr,
                first_cluster,
                size,
                stamp,
                a.index as int,
                a.fragments as int,
                a.short@,
            ),
            Err(e) => add_failed(
                *old(vol),
                old(dev).drive(old(vol).pdrv),
                final(dev).drive(old(vol).pdrv),
                dir,
                name@,
                attr,
                e,
            ) || (!old(dev).drive(old(vol).pdrv).dependable && e.is_device()),
        },
{
    let g = vol.geom;
    let pdrv = vol.pdrv;
    let ghost v0 = *vol;
    let ghost d0 = old(dev).drive(pdrv);
    assert(body_changed(g, d0, d0));
    if vol.read_only {
        return Err(FsError::WriteProtected);
    }
    if !check_name(name) || attr / 8 % 2 != 0 {
        return Err(FsError::InvalidParameter);
    }
    match lookup(vol, dev, dir, name) {
        Err(e) => {
            return Err(e);
        },
        Ok(Some(_)) => {
            return Err(FsError::AlreadyExists);
        },
        Ok(None) => {},
    }
    let (short, frags) = match pick_short(vol, dev, dir, name, attr) {
        Err(e) => {
            return Err(e);
        },
        Ok(p) => p,
    };
    let data = build_entry(name, &short, frags, attr, first_cluster, size, stamp);
    let ghost need = frags as int + 1;
    let r = make_room(vol, dev, dir, frags + 1);
    let ghost d1 = dev.drive(pdrv);
    let ghost n: nat = if exists|n: nat| #[trigger]
        grown(v0, d0, d1, dir, need, n) && n <= MAX_GROWTH && room_result(v0, d1.sectors, dir, need, n)
            is Some {
        choose|n: nat| #[trigger]
            grown(v0, d0, d1, dir, need, n) && n <= MAX_GROWTH && room_result(
                v0,
                d1.sectors,
                dir,
                need,
                n,
            ) is Some
    } else {
        0
    };
    let base = match r {
        Err(e) => {
            return Err(e);
        },
        Ok(b) => b,
    };
    proof {
        assert(views(data@) =~= Seq::new(data.len() as nat, |i: int| data@[i]@));
        lemma_room(g.slots(d1.sectors, dir), need, 0, 0);
        assert(g.slots(d1.sectors, dir)(base + frags) is Holds);
    }
    match write_slots(vol, dev, dir, base, &data) {
        Err(e) => {
            proof {
                lemma_data_in_body(g, d1, dev.drive(pdrv));
                lemma_body_twice(g, d0, d1, dev.drive(pdrv));
                if !e.is_device() || d0.dependable {
                    let all = Seq::new(data.len() as nat, |i: int| data@[i]@);
                    assert(forall|i: int| 0 <= i < all.len() ==> (#[trigger] all[i]).len() == 32);
                    assert(g.slot_place(d1.sectors, dir, base + frags) is Some);
                    assert(slots_refusal(*vol, d1.sectors, dir, base as int, all) == Some(e));
                    assert(late_err(v0, d1.sectors, dir, need, n) == Some(e));
                }
            }
            return Err(e);
        },
        Ok(_) => {},
    }
    proof {
        let d2 = dev.drive(pdrv);
        lemma_data_in_body(g, d1, d2);
        lemma_body_twice(g, d0, d1, d2);
        lemma_add_entry(
            v0,
            d0,
            d1,
            d2,
            dir,
            name@,
            attr,
            first_cluster,
            size,
            stamp,
            base as int,
            frags as int,
            short@,
            n,
        );
    }
    Ok(Added { index: base + frags, fragments: frags, short })
}

/// The slots of an entry, marked as deleted: slot `count - 1` is the short
/// entry in slot `index`, and the slots before it are its fragments.
pub open spec fn marked_slots(g: Geometry, disk: Seq<Seq<u8>>, dir: u32, index: int, count: int) -> Seq<
    Seq<u8>,
> {
    Seq::new(
        count as nat,
        |i: int| g.slot(disk, dir, index - count + 1 + i)->Some_0.update(0, MARK_DELETED),
    )
}

/// Slot `index` of directory `dir` holds a short entry, and the `fragments`
/// slots before it hold fragments.
pub open spec fn removable(g: Geometry, disk: Seq<Seq<u8>>, dir: u32, index: int, fragments: int) -> bool {
    forall|k: int|
        0 <= k <= fragments ==> (#[trigger] g.probe(disk, dir, index - k) matches Probe::Holds(s)
            && !slot_free(s) && (slot_long(s) <==> k > 0))
}

/// Why the slots from `base + i` to `base + fragments` are not those of
/// an entry with `fragments` fragments, if they are not: the first of
/// them that does not fit is missing, free, or a fragment where the short
/// entry should stand or the other way round, which is answered with
/// `InvalidParameter`; or the directory's chain leaves the data region
/// there, which is answered with `CorruptVolume`.
pub open spec fn marks_from(slots: Slots, base: int, fragments: int, i: int) -> Option<FsError>
    decreases fragments + 1 - i,
{
    if i < 0 || i > fragments {
        None
    } else {
        match slots(base + i) {
            Probe::Broken => Some(FsError::CorruptVolume),
            Probe::Absent => Some(FsError::InvalidParameter),
            Probe::Holds(s) => if slot_free(s) || slot_long(s) != (i < fragments) {
                Some(FsError::InvalidParameter)
            } else {
                marks_from(slots, base, fragments, i + 1)
            },
        }
    }
}

/// Why the entry in slot `index` of directory `dir`, with `fragments`
/// fragments before it, is not removed, if it is not: there are no such
/// slot numbers; the slots are not those of such an entry; the volume is
/// write protected; or the directory's clusters form no chain.
pub open spec fn erase_refusal(vol: Volume, disk: Seq<Seq<u8>>, dir: u32, index: int, fragments: int) -> Option<
    FsError,
> {
    let slots = vol.geom.slots(disk, dir);
    if fragments > 20 || fragments > index || index >= MAX_SLOTS {
        Some(FsError::InvalidParameter)
    } else if marks_from(slots, index - fragments, fragments, 0) is Some {
        marks_from(slots, index - fragments, fragments, 0)
    } else if vol.read_only {
        Some(FsError::WriteProtected)
    } else if !vol.geom.dir_sound(disk, dir) {
        Some(FsError::CorruptVolume)
    } else {
        None
    }
}

/// Removes the entry whose short entry stands in slot `index` of directory
/// `dir`, with the `fragments` fragments before it: the first byte of each
/// of these slots becomes the mark of a deleted entry.
///
/// See `erase_refusal` for the refusals, which leave the drive as it is:
/// `InvalidParameter` is answered where the slots do not exist or do not
/// hold a short entry with that many fragments before it, or more than 20
/// fragments are named. The cluster chain of the entry is not
/// touched, and no sector of the tables changes. On a drive that is not
/// dependable a transfer may fail midway: the answer is then the driver's
/// error, and a part of the slots may have been marked.
pub fn remove_entry<H: FatfsDiskHandler>(vol: &Volume, dev: &mut H, dir: u32, index: u32, fragments: u32) -> (res:
    Result<(), FsError>)
    requires
        old(dev).inv(),
        vol.on(old(dev).drive(vol.pdrv)),
    ensures
        final(dev).inv(),
        vol.on(final(dev).drive(vol.pdrv)),
        old(dev).drive(vol.pdrv).same_but(
            final(dev).drive(vol.pdrv),
            |i: int| vol.geom.root_start <= i < vol.geom.end(),
        ),
        vol.geom.table(final(dev).drive(vol.pdrv).sectors) == vol.geom.table(
            old(dev).drive(vol.pdrv).sectors,
        ),
        match res {
            Ok(_) => erase_refusal(
                *vol,
                old(dev).drive(vol.pdrv).sectors,
                dir,
                index as int,
                fragments as int,
            ) is None && fragments <= 20 && fragments <= index < MAX_SLOTS && removable(
                vol.geom,
                old(dev).drive(vol.pdrv).sectors,
                dir,
                index as int,
                fragments as int,
            ) && slots_written(
                vol.geom,
                old(dev).drive(vol.pdrv),
                final(dev).drive(vol.pdrv),
                dir,
                index - fragments,
                marked_slots(
                    vol.geom,
                    old(dev).drive(vol.pdrv).sectors,
                    dir,
                    index as int,
                    fragments + 1,
                ),
            ) && (forall|j: int|
                0 <= j && !(index - fragments <= j <= index) ==> #[trigger] vol.geom.probe(
                    final(dev).drive(vol.pdrv).sectors,
                    dir,
                    j,
                ) == vol.geom.probe(old(dev).drive(vol.pdrv).sectors, dir, j))
                && (crate::dirscan::tidy(vol.geom.slots(old(dev).drive(vol.pdrv).sectors, dir))
                ==> crate::dirscan::tidy(
                vol.geom.slots(final(dev).drive(vol.pdrv).sectors, dir),
            )),
            Err(e) => (erase_refusal(
                *vol,
                old(dev).drive(vol.pdrv).sectors,
                dir,
                index as int,
                fragments as int,
            ) == Some(e) && final(dev).drive(vol.pdrv) == old(dev).drive(vol.pdrv) && !(
            !vol.read_only && fragments <= 20 && fragments <= index < MAX_SLOTS && removable(
                vol.geom,
                old(dev).drive(vol.pdrv).sectors,
                dir,
                index as int,
                fragments as int,
            ) && vol.geom.dir_sound(old(dev).drive(vol.pdrv).sectors, dir))) || (!old(dev).drive(
                vol.pdrv,
            ).dependable && e.is_device()),
        },
{
    let ghost d0 = old(dev).drive(vol.pdrv);
    let ghost slots0 = vol.geom.slots(d0.sectors, dir);
    assert(d0.same_but(d0, |i: int| vol.geom.root_start <= i < vol.geom.end()));
    if fragments > 20 || fragments > index || index >= MAX_SLOTS {
        return Err(FsError::InvalidParameter);
    }
    let base: u32 = index - fragments;
    let mut data: Vec<Vec<u8>> = Vec::new();
    let mut i: u32 = 0;
    while i <= fragments
        invariant
            i <= fragments + 1,
            fragments <= 20,
            base == index - fragments,
            index < MAX_SLOTS,
            dev.inv(),
            d0 == old(dev).drive(vol.pdrv),
            dev.drive(vol.pdrv) == d0,
            vol.on(d0),
            slots0 == vol.geom.slots(d0.sectors, dir),
            marks_from(slots0, base as int, fragments as int, 0) == marks_from(
                slots0,
                base as int,
                fragments as int,
                i as int,
            ),
            data.len() == i,
            forall|k: int|
                0 <= k < i ==> (#[trigger] data@[k])@ == vol.geom.slot(
                    d0.sectors,
                    dir,
                    base + k,
                )->Some_0.update(0, MARK_DELETED),
            forall|k: int|
                0 <= k < i ==> (#[trigger] vol.geom.probe(
                    d0.sectors,
                    dir,
                    base + k,
                ) matches Probe::Holds(s) && s.len() == 32 && !slot_free(s) && (slot_long(s)
                    <==> k < fragments)),
        decreases fragments + 1 - i,
    {
        let mut s = match read_slot(vol, dev, dir, base + i) {
            Err(e) => {
                proof {
                    let k = fragments - i;
                    if vol.geom.dir_broken(d0.sectors, dir, base + i) {
                        assert(!(vol.geom.probe(d0.sectors, dir, index - k) is Holds));
                        assert(slots0(base + i) is Broken);
                    }
                }
                return Err(e);
            },
            Ok(None) => {
                proof {
                    let k = fragments - i;
                    assert(!(vol.geom.probe(d0.sectors, dir, index - k) is Holds));
                    assert(slots0(base + i) is Absent);
                }
                return Err(FsError::InvalidParameter);
            },
            Ok(Some(s)) => s,
        };
        assert(slots0(base + i) == Probe::Holds(s@));
        if is_slot_free(&s) || crate::dirent::is_slot_long(&s) != (i < fragments) {
            proof {
                let k = fragments - i;
                assert(vol.geom.probe(d0.sectors, dir, index - k) == Probe::Holds(s@));
            }
            return Err(FsError::InvalidParameter);
        }
        s[0] = MARK_DELETED;
        data.push(s);
        i = i + 1;
    }
    assert(marks_from(slots0, base as int, fragments as int, 0) is None);
    let r = write_slots(vol, dev, dir, base, &data);
    proof {
        let marked = marked_slots(vol.geom, d0.sectors, dir, index as int, fragments + 1);
        assert(index as int - fragments as int == base as int);

        assert(Seq::new(data.len() as nat, |i: int| data@[i]@) =~= marked);
        assert forall|k: int| 0 <= k <= fragments implies (#[trigger] vol.geom.probe(
            d0.sectors,
            dir,
            index - k,
        ) matches Probe::Holds(s) && !slot_free(s) && (slot_long(s) <==> k > 0)) by {
            assert(vol.geom.probe(d0.sectors, dir, base + (fragments - k)) is Holds);
        }
        assert forall|i: int| 0 <= i < marked.len() implies (#[trigger] vol.geom.slot_place(
            d0.sectors,
            dir,
            base + i,
        )) is Some && marked[i].len() == 32 by {
            assert(vol.geom.probe(d0.sectors, dir, base + i) is Holds);
        }
        if r is Err && (d0.dependable || !r->Err_0.is_device()) {
            assert(vol.geom.slot_place(d0.sectors, dir, base + (marked.len() - 1)) is Some);
            assert(slots_refusal(*vol, d0.sectors, dir, base as int, marked) == Some(r->Err_0));
            assert(!vol.read_only ==> !vol.geom.dir_sound(d0.sectors, dir));
        }
        if r is Ok {
            assert forall|i: int| 0 <= i < marked.len() implies (#[trigger] vol.geom.probe(
                d0.sectors,
                dir,
                base + i,
            )) is Holds by {}
            assert forall|i: int| 0 <= i < marked.len() implies (crate::dirscan::is_blank(
                #[trigger] vol.geom.probe(d0.sectors, dir, base + i),
            ) <==> marked[i][0] == MARK_END) by {
                let was = vol.geom.slot(d0.sectors, dir, base + i)->Some_0;
                assert(vol.geom.probe(d0.sectors, dir, base + i) == Probe::Holds(was));
                assert(was.len() == 32);
                assert(marked[i] == was.update(0, MARK_DELETED));
            }
            crate::dirscan::lemma_rewritten(
                vol.geom,
                d0,
                dev.drive(vol.pdrv),
                dir,
                base as int,
                marked,
            );
        }
    }
    r
}

/// Why the short entry in slot `index` of directory `dir` is not
/// rewritten, if it is not: the directory has no such slot, or the slot
/// holds no short entry of a file or a directory; the directory's chain
/// leaves the data region, or its clusters form no chain; or the volume is
/// write protected.
pub open spec fn update_refusal(vol: Volume, disk: Seq<Seq<u8>>, dir: u32, index: int) -> Option<FsError> {
    if index >= MAX_SLOTS {
        Some(FsError::InvalidParameter)
    } else {
        match vol.geom.probe(disk, dir, index) {
            Probe::Broken => Some(FsError::CorruptVolume),
            Probe::Absent => Some(FsError::InvalidParameter),
            Probe::Holds(was) => if !is_entry(was) {
                Some(FsError::InvalidParameter)
            } else if vol.read_only {
                Some(FsError::WriteProtected)
            } else if !vol.geom.dir_sound(disk, dir) {
                Some(FsError::CorruptVolume)
            } else {
                None
            },
        }
    }
}

/// Replaces the first cluster, the size and the time of the last write in
/// the short entry in slot `index` of directory `dir`.
///
/// See `update_refusal` for the refusals, which leave the drive as it is:
/// `InvalidParameter` is answered where the slot does not exist or holds no
/// short entry. No sector of the tables changes. On a drive that is not
/// dependable the answer may instead be the error of a failed transfer.
pub fn update_entry<H: FatfsDiskHandler>(
    vol: &Volume,
    dev: &mut H,
    dir: u32,
    index: u32,
    first_cluster: u32,
    size: u32,
    stamp: Stamp,
) -> (res: Result<(), FsError>)
    requires
        old(dev).inv(),
        vol.on(old(dev).drive(vol.pdrv)),
    ensures
        final(dev).inv(),
        vol.on(final(dev).drive(vol.pdrv)),
        old(dev).drive(vol.pdrv).same_but(
            final(dev).drive(vol.pdrv),
            |i: int| vol.geom.root_start <= i < vol.geom.end(),
        ),
        vol.geom.table(final(dev).drive(vol.pdrv).sectors) == vol.geom.table(
            old(dev).drive(vol.pdrv).sectors,
        ),
        match res {
            Ok(_) => {
                &&& index < MAX_SLOTS
                &&& update_refusal(*vol, old(dev).drive(vol.pdrv).sectors, dir, index as int)
                    is None
                &&& crate::dir::slot_frame(
                    vol.geom,
                    old(dev).drive(vol.pdrv),
                    final(dev).drive(vol.pdrv),
                    dir,
                    index as int,
                )
                &&& vol.geom.slot(old(dev).drive(vol.pdrv).sectors, dir, index as int) matches Some(
                    was,
                ) && is_entry(was) && slots_written(
                    vol.geom,
                    old(dev).drive(vol.pdrv),
                    final(dev).drive(vol.pdrv),
                    dir,
                    index as int,
                    seq![restamped(was, first_cluster, size, stamp)],
                )
            },
            Err(e) => (update_refusal(*vol, old(dev).drive(vol.pdrv).sectors, dir, index as int)
                == Some(e) && final(dev).drive(vol.pdrv) == old(dev).drive(vol.pdrv)) || (!old(
                dev,
            ).drive(vol.pdrv).dependable && e.is_device()),
        },
{
    let ghost d0 = old(dev).drive(vol.pdrv);
    assert(d0.same_but(d0, |i: int| vol.geom.root_start <= i < vol.geom.end()));
    if index >= MAX_SLOTS {
        return Err(FsError::InvalidParameter);
    }
    let s = match read_slot(vol, dev, dir, index) {
        Err(e) => {
            return Err(e);
        },
        Ok(None) => {
            return Err(FsError::InvalidParameter);
        },
        Ok(Some(s)) => s,
    };
    if is_slot_free(&s) || crate::dirent::is_slot_long(&s) || s[11] / 8 % 2 != 0 {
        return Err(FsError::InvalidParameter);
    }
    let mut data: Vec<Vec<u8>> = Vec::new();
    data.push(restamp_slot(&s, first_cluster, size, stamp));
    let r = write_slots(vol, dev, dir, index, &data);
    proof {
        let new = seq![restamped(s@, first_cluster, size, stamp)];
        assert(Seq::new(data.len() as nat, |i: int| data@[i]@) =~= new);
        assert(vol.geom.probe(d0.sectors, dir, index as int) == Probe::Holds(s@));
        if r is Err && (d0.dependable || !r->Err_0.is_device()) {
            crate::dirent::lemma_restamped_fields(s@, first_cluster, size, stamp);
            assert(new[0].len() == 32);
            assert(vol.geom.slot_place(d0.sectors, dir, index + (new.len() - 1)) is Some);
            assert(slots_refusal(*vol, d0.sectors, dir, index as int, new) == Some(r->Err_0));
        }
        if r is Ok {
            assert forall|i: int| 0 <= i < new.len() implies (#[trigger] vol.geom.probe(
                d0.sectors,
                dir,
                index + i,
            )) is Holds by {}
            crate::dirscan::lemma_rewritten(
                vol.geom,
                d0,
                dev.drive(vol.pdrv),
                dir,
                index as int,
                new,
            );
            crate::dirent::lemma_restamped_fields(s@, first_cluster, size, stamp);
            assert(new[0].subrange(0, 20)[0] == s@.subrange(0, 20)[0]);
        }
    }
    r
}

/// The first entry at or behind slot `i` that is neither the entry `.` nor
/// the entry `..`.
pub open spec fn content_from(slots: Slots, i: int) -> Scan
    decreases MAX_SLOTS - i,
{
    if i < 0 || i >= MAX_SLOTS {
        Scan::Nothing
    } else {
        match slots(i) {
            Probe::Holds(s) => if s[0] == MARK_END {
                Scan::Nothing
            } else if is_entry(s) && s[0] != 0x2E {
                Scan::At(i)
            } else {
                content_from(slots, i + 1)
            },
            Probe::Absent => Scan::Nothing,
            Probe::Broken => Scan::Broken,
        }
    }
}

/// Tells whether directory `dir` holds no entry but `.` and `..`.
///
/// `CorruptVolume` is answered where the directory's chain leaves the data
/// region. The drive is left as it is. On a drive that is not dependable
/// the answer may instead be the error of a failed read.
pub fn is_dir_empty<H: FatfsDiskHandler>(vol: &Volume, dev: &mut H, dir: u32) -> (res: Result<
    bool,
    FsError,
>)
    requires
        old(dev).inv(),
        vol.on(old(dev).drive(vol.pdrv)),
    ensures
        final(dev).inv(),
        final(dev).drive(vol.pdrv) == old(dev).drive(vol.pdrv),
        (match content_from(vol.geom.slots(old(dev).drive(vol.pdrv).sectors, dir), 0) {
            Scan::At(_) => res == Ok::<bool, FsError>(false),
            Scan::Nothing => res == Ok::<bool, FsError>(true),
            Scan::Broken => res == Err::<bool, FsError>(FsError::CorruptVolume),
        }) || (!old(dev).drive(vol.pdrv).dependable && res is Err && res->Err_0.is_device()),
{
    let ghost disk = old(dev).drive(vol.pdrv).sectors;
    let ghost slots = vol.geom.slots(disk, dir);
    let mut i: u32 = 0;
    while i < MAX_SLOTS
        invariant
            i <= MAX_SLOTS,
            dev.inv(),
            disk == old(dev).drive(vol.pdrv).sectors,
            dev.drive(vol.pdrv) == old(dev).drive(vol.pdrv),
            vol.on(dev.drive(vol.pdrv)),
            slots == vol.geom.slots(disk, dir),
            content_from(slots, 0) == content_from(slots, i as int),
        decreases MAX_SLOTS - i,
    {
        let s = match read_slot(vol, dev, dir, i) {
            Err(e) => {
                return Err(e);
            },
            Ok(None) => {
                return Ok(true);
            },
            Ok(Some(s)) => s,
        };
        if s[0] == MARK_END {
            return Ok(true);
        }
        if !is_slot_free(&s) && !crate::dirent::is_slot_long(&s) && s[11] / 8 % 2 == 0 && s[0]
            != 0x2E {
            return Ok(false);
        }
        i = i + 1;
    }
    Ok(true)
}

} // verus!
