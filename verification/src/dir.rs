//! Directories on the drive: the slots of a directory, and the scans that
//! find an entry by name, list entries, and find room for a new entry.
//!
//! A directory is named by its first cluster; 0 names the root directory.
//! Its slots are numbered from 0, through the root directory's fixed run of
//! sectors or through the clusters of the directory's chain.

use vstd::prelude::*;
use crate::bytes::overlay;
use crate::chain::{cluster_at, ends_within, in_table, lemma_ends_or_walks, lemma_walk_prefix, walk};
use crate::dirent::{
    checksum, fragment_units, is_slot_free, is_slot_long, name_checksum, read_fragment_units,
    slot_free, slot_long, MARK_END,
};
use crate::diskio::{flat, lemma_flat_len, Drive, FatfsDiskHandler};
use crate::error::FsError;
use crate::fat::Volume;
use crate::name::{display_name, names_match, same_name, short_display, trim_name, trim_units};
use crate::region::{lemma_flat_same, read_run, write_run};
use crate::volume::{FatType, Geometry};

verus! {

/// The largest number of slots of a directory.
pub const MAX_SLOTS: u32 = 65536;

impl Geometry {
    /// `dir` is the root directory of a volume whose root directory is a
    /// fixed run of sectors.
    pub open spec fn fixed_root(self, dir: u32) -> bool {
        dir == 0 && self.fat_type != FatType::Fat32
    }

    /// The first cluster of the chain of directory `dir`.
    pub open spec fn dir_first(self, dir: u32) -> int {
        if dir == 0 {
            self.root_cluster as int
        } else {
            dir as int
        }
    }

    /// The number of slots that a cluster holds.
    pub open spec fn cluster_slots(self) -> int {
        self.sectors_per_cluster * (self.bytes_per_sector / 32)
    }

    /// The number of sectors of a run of directory `dir`: of the fixed
    /// root, or of a cluster.
    pub open spec fn dir_run(self, dir: u32) -> int {
        if self.fixed_root(dir) {
            self.root_sectors()
        } else {
            self.sectors_per_cluster as int
        }
    }

    /// Where slot `index` of directory `dir` lies on `disk`: the first
    /// sector of its run and its offset in the run. `None` where the
    /// directory has no such slot.
    pub open spec fn slot_place(self, disk: Seq<Seq<u8>>, dir: u32, index: int) -> Option<(int, int)> {
        if index < 0 || index >= MAX_SLOTS {
            None
        } else if self.fixed_root(dir) {
            if index < self.root_entries {
                Some((self.root_start as int, index * 32))
            } else {
                None
            }
        } else {
            match self.reach(disk, self.dir_first(dir), (index / self.cluster_slots()) as nat) {
                Some(c) => Some((self.first_sector(c), (index % self.cluster_slots()) * 32)),
                None => None,
            }
        }
    }

    /// The 32 bytes of slot `index` of directory `dir` on `disk`.
    pub open spec fn slot(self, disk: Seq<Seq<u8>>, dir: u32, index: int) -> Option<Seq<u8>> {
        match self.slot_place(disk, dir, index) {
            Some((start, off)) => Some(flat(disk, start, self.dir_run(dir)).subrange(off, off + 32)),
            None => None,
        }
    }

    /// The chain of directory `dir` leaves the data region or runs in a
    /// circle before slot `index` is reached.
    pub open spec fn dir_broken(self, disk: Seq<Seq<u8>>, dir: u32, index: int) -> bool {
        &&& 0 <= index < MAX_SLOTS
        &&& !self.fixed_root(dir)
        &&& self.reach(disk, self.dir_first(dir), (index / self.cluster_slots()) as nat) is None
        &&& !self.ends_before(disk, self.dir_first(dir), (index / self.cluster_slots()) as nat)
    }

    /// A cluster holds between 16 and 16384 slots, which fill it.
    pub proof fn lemma_cluster_slots(self)
        requires
            self.wf(),
        ensures
            16 <= self.cluster_slots() <= 16384,
            self.cluster_slots() * 32 == self.cluster_bytes(),
            self.cluster_bytes() <= 524288,
    {
        let bps = self.bytes_per_sector as int;
        let spc = self.sectors_per_cluster as int;
        assert(bps / 32 * 32 == bps);
        assert(spc * (bps / 32) * 32 == spc * bps) by (nonlinear_arith)
            requires
                bps / 32 * 32 == bps,
        ;
        assert(16 <= spc * (bps / 32) <= 16384) by (nonlinear_arith)
            requires
                1 <= spc <= 128,
                16 <= bps / 32 <= 128,
        ;
    }

    /// The place of a slot lies in a run of its directory, inside the
    /// volume and behind the tables.
    pub proof fn lemma_slot_place(self, disk: Seq<Seq<u8>>, dir: u32, index: int)
        requires
            self.wf(),
            self.slot_place(disk, dir, index) is Some,
        ensures
            ({
                let (start, off) = self.slot_place(disk, dir, index)->Some_0;
                &&& self.root_start <= start
                &&& start + self.dir_run(dir) <= self.end()
                &&& 1 <= self.dir_run(dir)
                &&& 0 <= off
                &&& off + 32 <= self.dir_run(dir) * self.bytes_per_sector
                &&& off + 32 <= 0x20_0000
                &&& off % 32 == 0
            }),
    {
        self.lemma_cluster_slots();
        self.lemma_copy_bounds(0);
        if self.fixed_root(dir) {
            assert(self.cluster_count * self.sectors_per_cluster >= 0) by (nonlinear_arith);
        } else {
            let per = self.cluster_slots();
            let c = self.reach(disk, self.dir_first(dir), (index / per) as nat)->Some_0;
            lemma_walk_lands(
                self.fat_type,
                self.table(disk),
                self.dir_first(dir),
                (index / per) as nat,
            );
            self.lemma_cluster_sectors(c, 0);
            self.lemma_cluster_sectors(c, self.sectors_per_cluster - 1);
            assert(0 <= index % per < per);
            assert((index % per) * 32 + 32 <= per * 32) by (nonlinear_arith)
                requires
                    0 <= index % per < per,
            ;
            assert(((index % per) * 32) % 32 == 0) by (nonlinear_arith);
        }
    }
}

/// A walk arrives at a cluster of the table.
pub proof fn lemma_walk_lands(t: FatType, table: Seq<u32>, first: int, steps: nat)
    requires
        walk(t, table, first, steps) is Some,
    ensures
        in_table(table, walk(t, table, first, steps)->Some_0),
    decreases steps,
{
    if steps > 0 {
        lemma_walk_lands(t, table, table[first] as int, (steps - 1) as nat);
    }
}

/// Finds the run and the offset of a slot of a directory.
///
/// `None` is answered where the directory has no such slot, `CorruptVolume`
/// where its chain leaves the data region. The drive is left as it is.
pub fn locate_slot<H: FatfsDiskHandler>(vol: &Volume, dev: &mut H, dir: u32, index: u32) -> (res:
    Result<Option<(u32, u32, u32)>, FsError>)
    requires
        old(dev).inv(),
        vol.on(old(dev).drive(vol.pdrv)),
    ensures
        final(dev).inv(),
        final(dev).drive(vol.pdrv) == old(dev).drive(vol.pdrv),
        match res {
            Ok(Some((start, count, off))) => vol.geom.slot_place(
                old(dev).drive(vol.pdrv).sectors,
                dir,
                index as int,
            ) == Some((start as int, off as int)) && count == vol.geom.dir_run(dir),
            Ok(None) => vol.geom.slot_place(old(dev).drive(vol.pdrv).sectors, dir, index as int)
                is None && !vol.geom.dir_broken(old(dev).drive(vol.pdrv).sectors, dir, index as int),
            Err(e) => (e == FsError::CorruptVolume && vol.geom.dir_broken(
                old(dev).drive(vol.pdrv).sectors,
                dir,
                index as int,
            )) || (!old(dev).drive(vol.pdrv).dependable && e.is_device()),
        },
{
    let g = &vol.geom;
    let ghost disk = old(dev).drive(vol.pdrv).sectors;
    if index >= MAX_SLOTS {
        return Ok(None);
    }
    let fixed = dir == 0 && !(g.fat_type == FatType::Fat32);
    if fixed {
        if index < g.root_entries {
            Ok(Some((g.root_start, g.data_start - g.root_start, index * 32)))
        } else {
            Ok(None)
        }
    } else {
        proof {
            g.lemma_cluster_slots();
        }
        let first: u32 = if dir == 0 {
            g.root_cluster
        } else {
            dir
        };
        let per: u32 = g.sectors_per_cluster * (g.bytes_per_sector / 32);
        let steps: u32 = index / per;
        let within: u32 = index % per;
        match cluster_at(vol, dev, first, steps) {
            Err(e) => {
                proof {
                    lemma_ends_or_walks(g.fat_type, g.table(disk), first as int, steps as nat);
                }
                Err(e)
            },
            Ok(None) => {
                proof {
                    lemma_ends_or_walks(g.fat_type, g.table(disk), first as int, steps as nat);
                }
                Ok(None)
            },
            Ok(Some(c)) => {
                proof {
                    g.lemma_cluster_sectors(c as int, 0);
                    if g.reach(disk, first as int, steps as nat) is Some {
                        lemma_walk_lands(g.fat_type, g.table(disk), first as int, steps as nat);
                    }
                    assert(within * 32 + 32 <= per * 32) by (nonlinear_arith)
                        requires
                            0 <= within < per,
                    ;
                }
                Ok(
                    Some(
                        (
                            g.data_start + (c - 2) * g.sectors_per_cluster,
                            g.sectors_per_cluster,
                            within * 32,
                        ),
                    ),
                )
            },
        }
    }
}

/// Reads slot `index` of directory `dir`.
///
/// `None` is answered where the directory has no such slot, `CorruptVolume`
/// where its chain leaves the data region. The drive is left as it is. On a
/// drive that is not dependable the answer may instead be the error of a
/// failed read.
pub fn read_slot<H: FatfsDiskHandler>(vol: &Volume, dev: &mut H, dir: u32, index: u32) -> (res:
    Result<Option<Vec<u8>>, FsError>)
    requires
        old(dev).inv(),
        vol.on(old(dev).drive(vol.pdrv)),
    ensures
        final(dev).inv(),
        final(dev).drive(vol.pdrv) == old(dev).drive(vol.pdrv),
        match res {
            Ok(Some(bytes)) => vol.geom.slot(old(dev).drive(vol.pdrv).sectors, dir, index as int)
                == Some(bytes@) && bytes.len() == 32,
            Ok(None) => vol.geom.slot(old(dev).drive(vol.pdrv).sectors, dir, index as int) is None
                && !vol.geom.dir_broken(old(dev).drive(vol.pdrv).sectors, dir, index as int),
            Err(e) => (e == FsError::CorruptVolume && vol.geom.dir_broken(
                old(dev).drive(vol.pdrv).sectors,
                dir,
                index as int,
            )) || (!old(dev).drive(vol.pdrv).dependable && e.is_device()),
        },
{
    let g = &vol.geom;
    let ghost disk = old(dev).drive(vol.pdrv).sectors;
    match locate_slot(vol, dev, dir, index) {
        Err(e) => Err(e),
        Ok(None) => Ok(None),
        Ok(Some((start, count, off))) => {
            proof {
                g.lemma_slot_place(disk, dir, index as int);
            }
            match read_run(dev, vol.pdrv, g.bytes_per_sector, start, count, off, 32) {
                Err(e) => Err(e),
                Ok(bytes) => Ok(Some(bytes)),
            }
        },
    }
}

/// What `write_slot` leaves on the drive when it succeeds: the run that
/// holds the slot has taken `data` at the slot's offset, and no sector
/// outside that run has changed.
pub open spec fn slot_written(
    g: Geometry,
    before: Drive,
    after: Drive,
    dir: u32,
    index: int,
    data: Seq<u8>,
) -> bool {
    g.slot_place(before.sectors, dir, index) matches Some((start, off)) && {
        &&& before.same_but(after, |i: int| start <= i < start + g.dir_run(dir))
        &&& flat(after.sectors, start, g.dir_run(dir)) == overlay(
            flat(before.sectors, start, g.dir_run(dir)),
            off,
            data,
        )
    }
}

/// Writes the 32 bytes `data` to slot `index` of directory `dir`.
///
/// `InvalidParameter` is answered where the directory has no such slot or
/// `data` is not 32 bytes long, `WriteProtected` on a volume that was
/// mounted from a protected medium, `CorruptVolume` where the directory's
/// chain leaves the data region; the drive is then left as it is. No
/// sector of the tables changes. On a drive that is not dependable the
/// answer may instead be the error of a failed transfer.
pub fn write_slot<H: FatfsDiskHandler>(
    vol: &Volume,
    dev: &mut H,
    dir: u32,
    index: u32,
    data: &Vec<u8>,
) -> (res: Result<(), FsError>)
    requires
        old(dev).inv(),
        vol.on(old(dev).drive(vol.pdrv)),
    ensures
        final(dev).inv(),
        vol.on(final(dev).drive(vol.pdrv)),
        old(dev).drive(vol.pdrv).same_but(
            final(dev).drive(vol.pdrv),
            |i: int| vol.geom.root_start <= i < vol.geom.end(),
        ),
        vol.geom.table(final(dev).drive(vol.pdrv).sectors) == vol.geom.table(
            old(dev).drive(vol.pdrv).sectors,
        ),
        match res {
            Ok(_) => !vol.read_only && data.len() == 32 && slot_written(
                vol.geom,
                old(dev).drive(vol.pdrv),
                final(dev).drive(vol.pdrv),
                dir,
                index as int,
                data@,
            ),
            Err(e) => (final(dev).drive(vol.pdrv) == old(dev).drive(vol.pdrv) && e == (
            if vol.read_only {
                FsError::WriteProtected
            } else if data.len() != 32 || (vol.geom.slot_place(
                old(dev).drive(vol.pdrv).sectors,
                dir,
                index as int,
            ) is None && !vol.geom.dir_broken(old(dev).drive(vol.pdrv).sectors, dir, index as int)) {
                FsError::InvalidParameter
            } else {
                FsError::CorruptVolume
            }) && (vol.read_only || data.len() != 32 || vol.geom.slot_place(
                old(dev).drive(vol.pdrv).sectors,
                dir,
                index as int,
            ) is None)) || (!old(dev).drive(vol.pdrv).dependable && e.is_device()),
        },
{
    let g = &vol.geom;
    let ghost d0 = old(dev).drive(vol.pdrv);
    assert(d0.same_but(d0, |i: int| vol.geom.root_start <= i < vol.geom.end()));
    if vol.read_only {
        return Err(FsError::WriteProtected);
    }
    if data.len() != 32 {
        return Err(FsError::InvalidParameter);
    }
    match locate_slot(vol, dev, dir, index) {
        Err(e) => Err(e),
        Ok(None) => Err(FsError::InvalidParameter),
        Ok(Some((start, count, off))) => {
            proof {
                g.lemma_slot_place(d0.sectors, dir, index as int);
            }
            let r = write_run(dev, vol.pdrv, g.bytes_per_sector, start, count, off, data);
            proof {
                let d1 = dev.drive(vol.pdrv);
                dev.inv_shape(vol.pdrv);
                assert(d0.same_but(d1, |i: int| vol.geom.root_start <= i < vol.geom.end()));
                g.lemma_tables_kept(d0.sectors, d1.sectors);
            }
            r
        },
    }
}

/// What is found at a slot number of a directory.
pub enum Probe {
    /// The slot exists and holds these 32 bytes.
    Holds(Seq<u8>),
    /// The directory ends before the slot.
    Absent,
    /// The directory's chain leaves the data region before the slot.
    Broken,
}

/// The slots of a directory, by their number.
pub type Slots = spec_fn(int) -> Probe;

impl Geometry {
    /// What is found at slot `index` of directory `dir` on `disk`.
    pub open spec fn probe(self, disk: Seq<Seq<u8>>, dir: u32, index: int) -> Probe {
        match self.slot(disk, dir, index) {
            Some(bytes) => Probe::Holds(bytes),
            None => if self.dir_broken(disk, dir, index) {
                Probe::Broken
            } else {
                Probe::Absent
            },
        }
    }

    /// The slots of directory `dir` on `disk`.
    pub open spec fn slots(self, disk: Seq<Seq<u8>>, dir: u32) -> Slots {
        |i: int| self.probe(disk, dir, i)
    }

    /// Before a slot that exists, every slot exists.
    pub proof fn lemma_slots_before(self, disk: Seq<Seq<u8>>, dir: u32, index: int, earlier: int)
        requires
            self.wf(),
            self.slot(disk, dir, index) is Some,
            0 <= earlier <= index,
        ensures
            self.slot(disk, dir, earlier) is Some,
    {
        if !self.fixed_root(dir) {
            self.lemma_cluster_slots();
            let per = self.cluster_slots();
            assert(earlier / per <= index / per) by (nonlinear_arith)
                requires
                    0 <= earlier <= index,
                    per > 0,
            ;
            assert(0 <= earlier / per) by (nonlinear_arith)
                requires
                    0 <= earlier,
                    per > 0,
            ;
            lemma_walk_prefix(
                self.fat_type,
                self.table(disk),
                self.dir_first(dir),
                (index / per) as nat,
                (earlier / per) as nat,
            );
        }
    }
}

/// The slot holds a short entry that stands for a file or a directory: it
/// is not free, no fragment and no volume label.
pub open spec fn is_entry(slot: Seq<u8>) -> bool {
    !slot_free(slot) && !slot_long(slot) && slot[11] / 8 % 2 == 0
}

/// The long name that the fragments before slot `j` hold, gathered from
/// fragment number `k` on, and the number of fragments. `acc` holds the
/// units of the fragments before `k`.
///
/// Fragment number `k` stands `k` slots before the short entry. Each must
/// be a fragment with the sequence number `k` and the checksum `sum`; the
/// one that carries the flag of the last fragment ends the name.
pub open spec fn gather(slots: Slots, j: int, sum: u8, k: int, acc: Seq<u16>) -> Option<
    (Seq<u16>, int),
>
    decreases 21 - k,
{
    if k < 1 || k > 20 || j < k {
        None
    } else {
        match slots(j - k) {
            Probe::Holds(s) => if !slot_long(s) || s[13] != sum {
                None
            } else if s[0] == k {
                gather(slots, j, sum, k + 1, acc + fragment_units(s))
            } else if s[0] == k + 0x40 {
                Some((trim_name(acc + fragment_units(s)), k))
            } else {
                None
            },
            _ => None,
        }
    }
}

/// A gathered name has at least as many fragments as the number at which
/// the gathering began.
pub proof fn lemma_gather_count(slots: Slots, j: int, sum: u8, k: int, acc: Seq<u16>)
    requires
        gather(slots, j, sum, k, acc) is Some,
    ensures
        1 <= k <= gather(slots, j, sum, k, acc)->Some_0.1 <= 20,
        gather(slots, j, sum, k, acc)->Some_0.1 <= j,
    decreases 21 - k,
{
    match slots(j - k) {
        Probe::Holds(s) => {
            if s[0] == k {
                lemma_gather_count(slots, j, sum, k + 1, acc + fragment_units(s));
            }
        },
        _ => {},
    }
}

/// The fragments of a gathered name stand in slots that exist and are not
/// free.
pub proof fn lemma_gather_slots(slots: Slots, j: int, sum: u8, k: int, acc: Seq<u16>, m: int)
    requires
        gather(slots, j, sum, k, acc) is Some,
        k <= m <= gather(slots, j, sum, k, acc)->Some_0.1,
    ensures
        slots(j - m) matches Probe::Holds(s) && slot_long(s) && !slot_free(s),
    decreases 21 - k,
{
    match slots(j - k) {
        Probe::Holds(s) => {
            if s[0] == k {
                if m > k {
                    lemma_gather_slots(slots, j, sum, k + 1, acc + fragment_units(s), m);
                }
            }
        },
        _ => {},
    }
}

/// The long name of the short entry in slot `j`, and the number of its
/// fragments; `None` where no complete run of fragments with the right
/// checksum stands before the entry.
pub open spec fn long_name_at(slots: Slots, j: int) -> Option<(Seq<u16>, int)> {
    match slots(j) {
        Probe::Holds(s) => gather(slots, j, checksum(s.subrange(0, 11)), 1, Seq::empty()),
        _ => None,
    }
}

/// The name that the short entry in `slot` shows by itself.
pub open spec fn short_shown(slot: Seq<u8>) -> Seq<u16> {
    display_name(slot.subrange(0, 11), slot[12])
}

/// The name under which the entry in slot `j` is listed: its long name
/// where it has one, else the name that its short entry shows.
pub open spec fn listed_name(slots: Slots, j: int) -> Seq<u16> {
    match long_name_at(slots, j) {
        Some((name, _)) => name,
        None => match slots(j) {
            Probe::Holds(s) => short_shown(s),
            _ => Seq::empty(),
        },
    }
}

/// The number of fragments that belong to the entry in slot `j`.
pub open spec fn fragments_at(slots: Slots, j: int) -> int {
    match long_name_at(slots, j) {
        Some((_, n)) => n,
        None => 0,
    }
}

/// The entry in slot `j` goes by `name`: its long name or the name that its
/// short entry shows is `name` but for letter case.
pub open spec fn goes_by(slots: Slots, j: int, name: Seq<u16>) -> bool {
    ||| (long_name_at(slots, j) matches Some((long, _)) && same_name(long, name))
    ||| (slots(j) matches Probe::Holds(s) && same_name(short_shown(s), name))
}

/// How a scan of a directory ends.
pub enum Scan {
    /// At this slot.
    At(int),
    /// At the end of the directory, with nothing found.
    Nothing,
    /// At a place where the directory's chain leaves the data region.
    Broken,
}

/// The first entry at or behind slot `i` that goes by `name`. The scan ends
/// at the first slot that was never used.
pub open spec fn find_from(slots: Slots, name: Seq<u16>, i: int) -> Scan
    decreases MAX_SLOTS - i,
{
    if i < 0 || i >= MAX_SLOTS {
        Scan::Nothing
    } else {
        match slots(i) {
            Probe::Holds(s) => if s[0] == MARK_END {
                Scan::Nothing
            } else if is_entry(s) && goes_by(slots, i, name) {
                Scan::At(i)
            } else {
                find_from(slots, name, i + 1)
            },
            Probe::Absent => Scan::Nothing,
            Probe::Broken => Scan::Broken,
        }
    }
}

/// The first entry at or behind slot `i`. The scan ends at the first slot
/// that was never used.
pub open spec fn entry_from(slots: Slots, i: int) -> Scan
    decreases MAX_SLOTS - i,
{
    if i < 0 || i >= MAX_SLOTS {
        Scan::Nothing
    } else {
        match slots(i) {
            Probe::Holds(s) => if s[0] == MARK_END {
                Scan::Nothing
            } else if is_entry(s) {
                Scan::At(i)
            } else {
                entry_from(slots, i + 1)
            },
            Probe::Absent => Scan::Nothing,
            Probe::Broken => Scan::Broken,
        }
    }
}

/// An entry that a scan has found.
pub struct Found {
    /// The number of the slot that holds the short entry.
    pub index: u32,
    /// The number of fragments that stand before it.
    pub fragments: u32,
    /// The name under which the entry is listed.
    pub name: Vec<u16>,
    /// The bytes of the short entry.
    pub slot: Vec<u8>,
}

impl Found {
    /// The entry is the one in slot `self.index` of `slots`.
    pub open spec fn is_at(self, slots: Slots) -> bool {
        &&& slots(self.index as int) == Probe::Holds(self.slot@)
        &&& self.slot.len() == 32
        &&& is_entry(self.slot@)
        &&& self.fragments == fragments_at(slots, self.index as int)
        &&& self.fragments <= self.index
        &&& self.fragments <= 20
        &&& self.name@ == listed_name(slots, self.index as int)
    }
}

/// Gathers the long name of the short entry in slot `j`, whose short name
/// has the checksum `sum`.
pub(crate) fn read_long_name<H: FatfsDiskHandler>(vol: &Volume, dev: &mut H, dir: u32, j: u32, sum: u8) -> (res:
    Result<Option<(Vec<u16>, u32)>, FsError>)
    requires
        old(dev).inv(),
        vol.on(old(dev).drive(vol.pdrv)),
        vol.geom.slot(old(dev).drive(vol.pdrv).sectors, dir, j as int) is Some,
    ensures
        final(dev).inv(),
        final(dev).drive(vol.pdrv) == old(dev).drive(vol.pdrv),
        match res {
            Ok(Some((name, n))) => gather(
                vol.geom.slots(old(dev).drive(vol.pdrv).sectors, dir),
                j as int,
                sum,
                1,
                Seq::empty(),
            ) == Some((name@, n as int)) && 1 <= n <= 20 && n <= j,
            Ok(None) => gather(
                vol.geom.slots(old(dev).drive(vol.pdrv).sectors, dir),
                j as int,
                sum,
                1,
                Seq::empty(),
            ) is None,
            Err(e) => !old(dev).drive(vol.pdrv).dependable && e.is_device(),
        },
{
    let ghost disk = old(dev).drive(vol.pdrv).sectors;
    let ghost slots = vol.geom.slots(disk, dir);
    let mut units: Vec<u16> = Vec::new();
    let mut k: u32 = 1;
    while k <= 20
        invariant
            1 <= k <= 21,
            dev.inv(),
            disk == old(dev).drive(vol.pdrv).sectors,
            dev.drive(vol.pdrv) == old(dev).drive(vol.pdrv),
            vol.on(dev.drive(vol.pdrv)),
            slots == vol.geom.slots(disk, dir),
            vol.geom.slot(disk, dir, j as int) is Some,
            gather(slots, j as int, sum, 1, Seq::empty()) == gather(slots, j as int, sum, k as int, units@),
        decreases 21 - k,
    {
        if j < k {
            return Ok(None);
        }
        proof {
            vol.geom.lemma_slots_before(disk, dir, j as int, j - k);
        }
        let s = match read_slot(vol, dev, dir, j - k) {
            Err(e) => {
                return Err(e);
            },
            Ok(None) => {
                return Ok(None);
            },
            Ok(Some(s)) => s,
        };
        if !is_slot_long(&s) || s[13] != sum {
            return Ok(None);
        }
        let mut part = read_fragment_units(&s);
        let ghost before = units@;
        units.append(&mut part);
        assert(units@ =~= before + fragment_units(s@));
        if s[0] as u32 == k {
            k = k + 1;
        } else if s[0] as u32 == k + 0x40 {
            return Ok(Some((trim_units(&units), k)));
        } else {
            return Ok(None);
        }
    }
    Ok(None)
}

/// Completes what is known of the short entry in slot `j`: gathers its
/// long name, or shows its short name.
pub(crate) fn describe<H: FatfsDiskHandler>(vol: &Volume, dev: &mut H, dir: u32, j: u32, slot: Vec<u8>) -> (res:
    Result<Found, FsError>)
    requires
        old(dev).inv(),
        vol.on(old(dev).drive(vol.pdrv)),
        vol.geom.slot(old(dev).drive(vol.pdrv).sectors, dir, j as int) == Some(slot@),
        slot.len() == 32,
        is_entry(slot@),
    ensures
        final(dev).inv(),
        final(dev).drive(vol.pdrv) == old(dev).drive(vol.pdrv),
        match res {
            Ok(found) => found.index == j && found.is_at(
                vol.geom.slots(old(dev).drive(vol.pdrv).sectors, dir),
            ),
            Err(e) => !old(dev).drive(vol.pdrv).dependable && e.is_device(),
        },
{
    let short = crate::bytes::copy_range(&slot, 0, 11);
    let sum = name_checksum(&short);
    match read_long_name(vol, dev, dir, j, sum) {
        Err(e) => Err(e),
        Ok(Some((name, n))) => Ok(Found { index: j, fragments: n, name, slot }),
        Ok(None) => {
            let name = short_display(&short, slot[12]);
            Ok(Found { index: j, fragments: 0, name, slot })
        },
    }
}

/// What a scan answers on a dependable drive, where `found` is what it
/// found.
pub open spec fn scan_answer(scan: Scan, slots: Slots, found: Result<Option<Found>, FsError>) -> bool {
    match scan {
        Scan::At(j) => found matches Ok(Some(f)) && f.index == j && f.is_at(slots),
        Scan::Nothing => found matches Ok(None),
        Scan::Broken => found matches Err(e) && e == FsError::CorruptVolume,
    }
}

/// Looks in directory `dir` for the entry that goes by `name`.
///
/// The slots are scanned in order; the scan ends at the first slot that
/// was never used. `CorruptVolume` is answered where the directory's chain
/// leaves the data region. The drive is left as it is. On a drive that is
/// not dependable the answer may instead be the error of a failed read.
pub fn lookup<H: FatfsDiskHandler>(vol: &Volume, dev: &mut H, dir: u32, name: &Vec<u16>) -> (res:
    Result<Option<Found>, FsError>)
    requires
        old(dev).inv(),
        vol.on(old(dev).drive(vol.pdrv)),
    ensures
        final(dev).inv(),
        final(dev).drive(vol.pdrv) == old(dev).drive(vol.pdrv),
        scan_answer(
            find_from(vol.geom.slots(old(dev).drive(vol.pdrv).sectors, dir), name@, 0),
            vol.geom.slots(old(dev).drive(vol.pdrv).sectors, dir),
            res,
        ) || (!old(dev).drive(vol.pdrv).dependable && res is Err && res->Err_0.is_device()),
{
    let ghost disk = old(dev).drive(vol.pdrv).sectors;
    let ghost slots = vol.geom.slots(disk, dir);
    let mut i: u32 = 0;
    while i < MAX_SLOTS
        invariant
            i <= MAX_SLOTS,
            dev.inv(),
            disk == old(dev).drive(vol.pdrv).sectors,
            dev.drive(vol.pdrv) == old(dev).drive(vol.pdrv),
            vol.on(dev.drive(vol.pdrv)),
            slots == vol.geom.slots(disk, dir),
            find_from(slots, name@, 0) == find_from(slots, name@, i as int),
        decreases MAX_SLOTS - i,
    {
        let s = match read_slot(vol, dev, dir, i) {
            Err(e) => {
                return Err(e);
            },
            Ok(None) => {
                return Ok(None);
            },
            Ok(Some(s)) => s,
        };
        if s[0] == MARK_END {
            return Ok(None);
        }
        if !is_slot_free(&s) && !is_slot_long(&s) && s[11] / 8 % 2 == 0 {
            let found = match describe(vol, dev, dir, i, s) {
                Err(e) => {
                    return Err(e);
                },
                Ok(f) => f,
            };
            let shown = short_display(&crate::bytes::copy_range(&found.slot, 0, 11), found.slot[12]);
            proof {
                if long_name_at(slots, i as int) is Some {
                    lemma_gather_count(
                        slots,
                        i as int,
                        checksum(found.slot@.subrange(0, 11)),
                        1,
                        Seq::empty(),
                    );
                }
            }
            if (found.fragments > 0 && names_match(&found.name, name)) || names_match(&shown, name) {
                return Ok(Some(found));
            }
        }
        i = i + 1;
    }
    Ok(None)
}

/// Finds the first entry of directory `dir` at or behind slot `from`.
///
/// This is the step of a listing: the caller goes on behind the slot that
/// was found. The scan ends at the first slot that was never used.
/// `CorruptVolume` is answered where the directory's chain leaves the data
/// region. The drive is left as it is. On a drive that is not dependable
/// the answer may instead be the error of a failed read.
pub fn next_entry<H: FatfsDiskHandler>(vol: &Volume, dev: &mut H, dir: u32, from: u32) -> (res:
    Result<Option<Found>, FsError>)
    requires
        old(dev).inv(),
        vol.on(old(dev).drive(vol.pdrv)),
    ensures
        final(dev).inv(),
        final(dev).drive(vol.pdrv) == old(dev).drive(vol.pdrv),
        scan_answer(
            entry_from(vol.geom.slots(old(dev).drive(vol.pdrv).sectors, dir), from as int),
            vol.geom.slots(old(dev).drive(vol.pdrv).sectors, dir),
            res,
        ) || (!old(dev).drive(vol.pdrv).dependable && res is Err && res->Err_0.is_device()),
{
    let ghost disk = old(dev).drive(vol.pdrv).sectors;
    let ghost slots = vol.geom.slots(disk, dir);
    let mut i: u32 = from;
    while i < MAX_SLOTS
        invariant
            dev.inv(),
            disk == old(dev).drive(vol.pdrv).sectors,
            dev.drive(vol.pdrv) == old(dev).drive(vol.pdrv),
            vol.on(dev.drive(vol.pdrv)),
            slots == vol.geom.slots(disk, dir),
            entry_from(slots, from as int) == entry_from(slots, i as int),
        decreases MAX_SLOTS - i,
    {
        let s = match read_slot(vol, dev, dir, i) {
            Err(e) => {
                return Err(e);
            },
            Ok(None) => {
                return Ok(None);
            },
            Ok(Some(s)) => s,
        };
        if s[0] == MARK_END {
            return Ok(None);
        }
        if !is_slot_free(&s) && !is_slot_long(&s) && s[11] / 8 % 2 == 0 {
            return match describe(vol, dev, dir, i, s) {
                Err(e) => Err(e),
                Ok(f) => Ok(Some(f)),
            };
        }
        i = i + 1;
    }
    Ok(None)
}

impl Geometry {
    /// The runs of two places of slots are the same run, or they share no
    /// sector.
    pub proof fn lemma_runs_apart(
        self,
        disk: Seq<Seq<u8>>,
        dir: u32,
        index: int,
        dir2: u32,
        j: int,
    )
        requires
            self.wf(),
            self.slot_place(disk, dir, index) is Some,
            self.slot_place(disk, dir2, j) is Some,
        ensures
            ({
                let (s1, o1) = self.slot_place(disk, dir, index)->Some_0;
                let (s2, o2) = self.slot_place(disk, dir2, j)->Some_0;
                if s1 == s2 {
                    self.dir_run(dir) == self.dir_run(dir2)
                } else {
                    s1 + self.dir_run(dir) <= s2 || s2 + self.dir_run(dir2) <= s1
                }
            }),
    {
        self.lemma_slot_place(disk, dir, index);
        self.lemma_slot_place(disk, dir2, j);
        self.lemma_cluster_slots();
        let spc = self.sectors_per_cluster as int;
        let per = self.cluster_slots();
        if !self.fixed_root(dir) {
            let c1 = self.reach(disk, self.dir_first(dir), (index / per) as nat)->Some_0;
            lemma_walk_lands(
                self.fat_type,
                self.table(disk),
                self.dir_first(dir),
                (index / per) as nat,
            );
            self.lemma_cluster_sectors(c1, 0);
            if !self.fixed_root(dir2) {
                let c2 = self.reach(disk, self.dir_first(dir2), (j / per) as nat)->Some_0;
                assert(c1 == c2 || (c1 - 2) * spc + spc <= (c2 - 2) * spc || (c2 - 2) * spc + spc
                    <= (c1 - 2) * spc) by (nonlinear_arith)
                    requires
                        spc >= 1,
                ;
            }
        } else if !self.fixed_root(dir2) {
            let c2 = self.reach(disk, self.dir_first(dir2), (j / per) as nat)->Some_0;
            lemma_walk_lands(
                self.fat_type,
                self.table(disk),
                self.dir_first(dir2),
                (j / per) as nat,
            );
            self.lemma_cluster_sectors(c2, 0);
        }
    }

    /// What is found at any slot after a slot was written: the bytes that
    /// were written where the slot lies at the place that was written, and
    /// what was there before everywhere else.
    pub proof fn lemma_slot_after_write(
        self,
        before: Drive,
        after: Drive,
        dir: u32,
        index: int,
        data: Seq<u8>,
        dir2: u32,
        j: int,
    )
        requires
            self.wf(),
            before.wf(),
            self.fits(before),
            data.len() == 32,
            slot_written(self, before, after, dir, index, data),
            self.table(after.sectors) == self.table(before.sectors),
        ensures
            self.slot_place(after.sectors, dir2, j) == self.slot_place(before.sectors, dir2, j),
            self.probe(after.sectors, dir2, j) == if self.slot_place(before.sectors, dir2, j)
                == self.slot_place(before.sectors, dir, index) {
                Probe::Holds(data)
            } else {
                self.probe(before.sectors, dir2, j)
            },
    {
        let (s1, o1) = self.slot_place(before.sectors, dir, index)->Some_0;
        let n1 = self.dir_run(dir);
        self.lemma_slot_place(before.sectors, dir, index);
        lemma_flat_len(before.sectors, s1, n1, before.sector_size);
        if self.slot_place(before.sectors, dir2, j) is Some {
            let (s2, o2) = self.slot_place(before.sectors, dir2, j)->Some_0;
            let n2 = self.dir_run(dir2);
            self.lemma_slot_place(before.sectors, dir2, j);
            self.lemma_runs_apart(before.sectors, dir, index, dir2, j);
            if s1 == s2 {
                let was = flat(before.sectors, s1, n1);
                let now = flat(after.sectors, s1, n1);
                if o1 == o2 {
                    assert(now.subrange(o2, o2 + 32) =~= data);
                } else {
                    assert(o2 + 32 <= o1 || o1 + 32 <= o2);
                    assert(now.subrange(o2, o2 + 32) =~= was.subrange(o2, o2 + 32));
                }
            } else {
                lemma_flat_same(before.sectors, after.sectors, s2, n2);
            }
        }
    }
}

impl Geometry {
    /// Directory `dir` is the root directory of fixed size, or its clusters
    /// form a chain.
    pub open spec fn dir_sound(self, disk: Seq<Seq<u8>>, dir: u32) -> bool {
        self.fixed_root(dir) || self.chain(disk, self.dir_first(dir)) is Some
    }

    /// In a sound directory, slots with different numbers lie at different
    /// places.
    pub proof fn lemma_places_differ(self, disk: Seq<Seq<u8>>, dir: u32, i: int, j: int)
        requires
            self.wf(),
            self.dir_sound(disk, dir),
            self.slot_place(disk, dir, i) is Some,
            self.slot_place(disk, dir, j) is Some,
            i != j,
        ensures
            self.slot_place(disk, dir, i) != self.slot_place(disk, dir, j),
    {
        self.lemma_cluster_slots();
        if !self.fixed_root(dir) {
            let per = self.cluster_slots();
            let t = self.fat_type;
            let table = self.table(disk);
            let first = self.dir_first(dir);
            let s = self.chain(disk, first)->Some_0;
            crate::chain::lemma_chain_is_chain(t, table, first, self.cluster_count as nat);
            crate::chain::lemma_chain_distinct(t, table, s);
            let ki = i / per;
            let kj = j / per;
            crate::region::lemma_split(i, per);
            crate::region::lemma_split(j, per);
            crate::chain::lemma_chain_walk(t, table, s, ki as nat);
            crate::chain::lemma_chain_walk(t, table, s, kj as nat);
            if ki != kj {
                let ci = s[ki];
                let cj = s[kj];
                assert(ci != cj);
                if self.first_sector(ci) == self.first_sector(cj) {
                    self.lemma_sectors_apart(ci, 0, cj, 0);
                }
            } else {
                assert(i % per != j % per);
            }
        }
    }
}

/// What `write_slots` leaves on the drive when it succeeds: each of the
/// slots holds its bytes, the slots at other places hold what they held,
/// and the tables are as they were.
pub open spec fn slots_written(
    g: Geometry,
    before: Drive,
    after: Drive,
    dir: u32,
    base: int,
    data: Seq<Seq<u8>>,
) -> bool {
    &&& g.table(after.sectors) == g.table(before.sectors)
    &&& forall|i: int|
        0 <= i < data.len() ==> #[trigger] g.probe(after.sectors, dir, base + i) == Probe::Holds(
            data[i],
        )
    &&& forall|dir2: u32, j: int|
        kept_apart(g, before.sectors, dir, base, data.len() as int, dir2, j) ==> #[trigger] g.probe(
            after.sectors,
            dir2,
            j,
        ) == g.probe(before.sectors, dir2, j)
}

/// Slot `j` of directory `dir2` lies at none of the places of the `count`
/// slots of `dir` from `base` on.
pub open spec fn kept_apart(
    g: Geometry,
    disk: Seq<Seq<u8>>,
    dir: u32,
    base: int,
    count: int,
    dir2: u32,
    j: int,
) -> bool {
    forall|i: int|
        0 <= i < count ==> g.slot_place(disk, dir2, j) != #[trigger] g.slot_place(
            disk,
            dir,
            base + i,
        )
}

/// Checks that the clusters of a directory form a chain.
///
/// `CorruptVolume` is answered where they do not. The drive is left as it
/// is. On a drive that is not dependable the answer may instead be the
/// error of a failed read.
pub fn check_dir<H: FatfsDiskHandler>(vol: &Volume, dev: &mut H, dir: u32) -> (res: Result<
    (),
    FsError,
>)
    requires
        old(dev).inv(),
        vol.on(old(dev).drive(vol.pdrv)),
    ensures
        final(dev).inv(),
        final(dev).drive(vol.pdrv) == old(dev).drive(vol.pdrv),
        match res {
            Ok(_) => vol.geom.dir_sound(old(dev).drive(vol.pdrv).sectors, dir),
            Err(e) => (e == FsError::CorruptVolume && !vol.geom.dir_sound(
                old(dev).drive(vol.pdrv).sectors,
                dir,
            )) || (!old(dev).drive(vol.pdrv).dependable && e.is_device()),
        },
{
    let g = &vol.geom;
    if dir == 0 && !(g.fat_type == FatType::Fat32) {
        return Ok(());
    }
    let first: u32 = if dir == 0 {
        g.root_cluster
    } else {
        dir
    };
    match crate::chain::chain_length(vol, dev, first) {
        Err(e) => Err(e),
        Ok(_) => Ok(()),
    }
}

/// Nothing has changed from `before` to `after` but the run of sectors
/// that holds slot `index` of directory `dir`: the fixed root directory,
/// or the cluster of the slot.
pub open spec fn slot_frame(g: Geometry, before: Drive, after: Drive, dir: u32, index: int) -> bool {
    g.slot_place(before.sectors, dir, index) matches Some((start, off)) && before.same_but(
        after,
        |i: int| start <= i < start + g.dir_run(dir),
    )
}

/// The slots `data` can be written to directory `dir` from slot `base` on:
/// the volume is not write protected, the directory is sound, every slot
/// exists, and every element of `data` is 32 bytes long.
pub open spec fn writable_slots(
    vol: Volume,
    disk: Seq<Seq<u8>>,
    dir: u32,
    base: int,
    data: Seq<Seq<u8>>,
) -> bool {
    &&& !vol.read_only
    &&& base + data.len() <= MAX_SLOTS
    &&& vol.geom.dir_sound(disk, dir)
    &&& forall|i: int|
        0 <= i < data.len() ==> (#[trigger] vol.geom.slot_place(disk, dir, base + i)) is Some
            && data[i].len() == 32
}

/// Why the slots `data` are not written to directory `dir` from slot
/// `base` on, if they are not: there are no such slot numbers; the volume
/// is write protected; an element of `data` is not 32 bytes long; the
/// directory's chain leaves the data region before the last slot, or ends
/// before it; or the directory's clusters form no chain.
pub open spec fn slots_refusal(
    vol: Volume,
    disk: Seq<Seq<u8>>,
    dir: u32,
    base: int,
    data: Seq<Seq<u8>>,
) -> Option<FsError> {
    let last = base + data.len() - 1;
    if base + data.len() > MAX_SLOTS {
        Some(FsError::InvalidParameter)
    } else if vol.read_only {
        Some(FsError::WriteProtected)
    } else if exists|i: int| 0 <= i < data.len() && (#[trigger] data[i]).len() != 32 {
        Some(FsError::InvalidParameter)
    } else if data.len() > 0 && vol.geom.dir_broken(disk, dir, last) {
        Some(FsError::CorruptVolume)
    } else if data.len() > 0 && vol.geom.slot_place(disk, dir, last) is None {
        Some(FsError::InvalidParameter)
    } else if !vol.geom.dir_sound(disk, dir) {
        Some(FsError::CorruptVolume)
    } else {
        None
    }
}

/// Writes the slots `data` to directory `dir`, the first to slot `base`
/// and each next one to the next slot. See `slots_refusal` for the
/// refusals, which leave the drive as it is.
///
/// No sector of the tables changes. On a drive that is not dependable a
/// transfer may fail midway: the answer is then the driver's error, and a
/// part of the slots may have been written.
pub fn write_slots<H: FatfsDiskHandler>(
    vol: &Volume,
    dev: &mut H,
    dir: u32,
    base: u32,
    data: &Vec<Vec<u8>>,
) -> (res: Result<(), FsError>)
    requires
        old(dev).inv(),
        vol.on(old(dev).drive(vol.pdrv)),
    ensures
        final(dev).inv(),
        vol.on(final(dev).drive(vol.pdrv)),
        old(dev).drive(vol.pdrv).same_but(
            final(dev).drive(vol.pdrv),
            |i: int| vol.geom.root_start <= i < vol.geom.end(),
        ),
        vol.geom.table(final(dev).drive(vol.pdrv).sectors) == vol.geom.table(
            old(dev).drive(vol.pdrv).sectors,
        ),
        match res {
            Ok(_) => (data.len() == 1 ==> slot_frame(
                vol.geom,
                old(dev).drive(vol.pdrv),
                final(dev).drive(vol.pdrv),
                dir,
                base as int,
            )) && writable_slots(
                *vol,
                old(dev).drive(vol.pdrv).sectors,
                dir,
                base as int,
                Seq::new(data.len() as nat, |i: int| data@[i]@),
            ) && slots_written(
                vol.geom,
                old(dev).drive(vol.pdrv),
                final(dev).drive(vol.pdrv),
                dir,
                base as int,
                Seq::new(data.len() as nat, |i: int| data@[i]@),
            ),
            Err(e) => (slots_refusal(
                *vol,
                old(dev).drive(vol.pdrv).sectors,
                dir,
                base as int,
                Seq::new(data.len() as nat, |i: int| data@[i]@),
            ) == Some(e) && !writable_slots(
                *vol,
                old(dev).drive(vol.pdrv).sectors,
                dir,
                base as int,
                Seq::new(data.len() as nat, |i: int| data@[i]@),
            ) && final(dev).drive(vol.pdrv) == old(dev).drive(vol.pdrv)) || (!old(dev).drive(
                vol.pdrv,
            ).dependable && e.is_device()),
        },
{
    let g = &vol.geom;
    let pdrv = vol.pdrv;
    let ghost d0 = old(dev).drive(pdrv);
    let ghost all = Seq::new(data.len() as nat, |i: int| data@[i]@);
    assert(d0.same_but(d0, |i: int| vol.geom.root_start <= i < vol.geom.end()));
    if data.len() > MAX_SLOTS as usize || base > MAX_SLOTS - data.len() as u32 {
        return Err(FsError::InvalidParameter);
    }
    if vol.read_only {
        return Err(FsError::WriteProtected);
    }
    let mut n: usize = 0;
    while n < data.len()
        invariant
            n <= data.len(),
            base + data.len() <= MAX_SLOTS,
            !vol.read_only,
            dev.inv(),
            *g == vol.geom,
            pdrv == vol.pdrv,
            d0 == old(dev).drive(pdrv),
            dev.drive(pdrv) == d0,
            vol.on(d0),
            all == Seq::new(data.len() as nat, |i: int| data@[i]@),
            forall|i: int| 0 <= i < n ==> (#[trigger] all[i]).len() == 32,
        decreases data.len() - n,
    {
        if data[n].len() != 32 {
            proof {
                assert(all[n as int].len() != 32);
                if writable_slots(*vol, d0.sectors, dir, base as int, all) {
                    assert(g.slot_place(d0.sectors, dir, base + n) is Some);
                }
            }
            return Err(FsError::InvalidParameter);
        }
        n += 1;
    }
    if data.len() > 0 {
        match locate_slot(vol, dev, dir, base + (data.len() - 1) as u32) {
            Err(e) => {
                return Err(e);
            },
            Ok(None) => {
                assert(g.slot_place(d0.sectors, dir, base + (all.len() - 1)) is None);
                return Err(FsError::InvalidParameter);
            },
            Ok(Some(_)) => {},
        }
    }
    match check_dir(vol, dev, dir) {
        Err(e) => {
            return Err(e);
        },
        Ok(_) => {},
    }
    proof {
        assert forall|i: int| 0 <= i < all.len() implies (#[trigger] g.slot_place(
            d0.sectors,
            dir,
            base + i,
        )) is Some by {
            g.lemma_slots_before(d0.sectors, dir, base + all.len() - 1, base + i);
        }
    }
    let mut k: usize = 0;
    while k < data.len()
        invariant
            k <= data.len(),
            base + data.len() <= MAX_SLOTS,
            dev.inv(),
            *g == vol.geom,
            pdrv == vol.pdrv,
            d0 == old(dev).drive(pdrv),
            vol.on(d0),
            vol.on(dev.drive(pdrv)),
            all == Seq::new(data.len() as nat, |i: int| data@[i]@),
            g.dir_sound(d0.sectors, dir),
            writable_slots(*vol, d0.sectors, dir, base as int, all),
            k == 0 ==> dev.drive(pdrv) == d0,
            k == 1 ==> slot_frame(*g, d0, dev.drive(pdrv), dir, base as int),
            d0.same_but(dev.drive(pdrv), |i: int| vol.geom.root_start <= i < vol.geom.end()),
            slots_written(*g, d0, dev.drive(pdrv), dir, base as int, all.subrange(0, k as int)),
        decreases data.len() - k,
    {
        let ghost cur = dev.drive(pdrv);
        match write_slot(vol, dev, dir, base + k as u32, &data[k]) {
            Err(e) => {
                proof {
                    lemma_data_twice(*g, d0, cur, dev.drive(pdrv));
                    lemma_same_table_same_place(*g, d0.sectors, cur.sectors, dir, base + k);
                    assert(all[k as int] == data@[k as int]@);
                }
                return Err(e);
            },
            Ok(_) => {},
        }
        proof {
            let next = dev.drive(pdrv);
            let done = all.subrange(0, k as int);
            let more = all.subrange(0, k + 1);
            lemma_data_twice(*g, d0, cur, next);
            assert(g.slot_place(cur.sectors, dir, base + k) is Some);
            assert forall|i: int| 0 <= i < more.len() implies #[trigger] g.probe(
                next.sectors,
                dir,
                base + i,
            ) == Probe::Holds(more[i]) by {
                g.lemma_slot_after_write(cur, next, dir, base + k, data@[k as int]@, dir, base + i);
                if i < k {
                    assert(g.probe(cur.sectors, dir, base + i) == Probe::Holds(done[i]));
                    lemma_same_table_same_place(*g, d0.sectors, cur.sectors, dir, base + i);
                    lemma_same_table_same_place(*g, d0.sectors, cur.sectors, dir, base + k);
                    g.lemma_places_differ(d0.sectors, dir, base + i, base + k);
                }
            }
            assert forall|dir2: u32, j: int|
                kept_apart(
                    *g,
                    d0.sectors,
                    dir,
                    base as int,
                    more.len() as int,
                    dir2,
                    j,
                ) implies #[trigger] g.probe(next.sectors, dir2, j) == g.probe(
                d0.sectors,
                dir2,
                j,
            ) by {
                g.lemma_slot_after_write(cur, next, dir, base + k, data@[k as int]@, dir2, j);
                lemma_same_table_same_place(*g, d0.sectors, cur.sectors, dir2, j);
                lemma_same_table_same_place(*g, d0.sectors, cur.sectors, dir, base + k);
                assert(g.slot_place(d0.sectors, dir2, j) != g.slot_place(d0.sectors, dir, base + k));
                assert(kept_apart(*g, d0.sectors, dir, base as int, done.len() as int, dir2, j)) by {
                    assert forall|i: int| 0 <= i < done.len() implies g.slot_place(
                        d0.sectors,
                        dir2,
                        j,
                    ) != #[trigger] g.slot_place(d0.sectors, dir, base + i) by {}
                }
            }
        }
        k += 1;
    }
    assert(all.subrange(0, data.len() as int) =~= all);
    Ok(())
}

/// Changes behind the tables add up to a change behind the tables.
pub proof fn lemma_data_twice(g: Geometry, a: Drive, b: Drive, c: Drive)
    requires
        a.same_but(b, |i: int| g.root_start <= i < g.end()),
        b.same_but(c, |i: int| g.root_start <= i < g.end()),
    ensures
        a.same_but(c, |i: int| g.root_start <= i < g.end()),
{
    assert forall|i: int|
        0 <= i < a.sectors.len() && !(g.root_start <= i < g.end()) implies #[trigger] c.sectors[i]
        == a.sectors[i] by {
        assert(b.sectors[i] == a.sectors[i]);
    }
}

/// The place of a slot depends on the table only.
pub proof fn lemma_same_table_same_place(
    g: Geometry,
    a: Seq<Seq<u8>>,
    b: Seq<Seq<u8>>,
    dir: u32,
    index: int,
)
    requires
        g.table(a) == g.table(b),
    ensures
        g.slot_place(a, dir, index) == g.slot_place(b, dir, index),
        g.dir_broken(a, dir, index) == g.dir_broken(b, dir, index),
        g.dir_sound(a, dir) == g.dir_sound(b, dir),
{
}

} // verus!
