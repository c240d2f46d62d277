//! The filesystem: one drive with its driver, the volume that is mounted on
//! it, and the files and directory listings that are open.

use vstd::prelude::*;
use crate::dir::{entry_from, listed_name, next_entry, Scan};
use crate::dirent::{
    short_fields, slot_first_cluster, slot_size, slot_written, Stamp, ATTR_ARCHIVE,
};
use crate::diskio::{
    disk_initialize, read_sector, sector_count, sync_drive, Drive, FatfsDiskHandler, DSTATUS,
    STA_NODISK,
    STA_NOINIT, STA_PROTECT,
};
use crate::error::FsError;
use crate::fat::{free_clusters, free_count, same_volume, Volume};
use crate::file::{
    file_read, file_seek, file_sync, file_truncate, file_write, file_write_refusal, read_answer_of,
    write_result, File,
};
use crate::dirops::body_changed;
use crate::format::{boot_sector, cleared_end, format_volume, fresh, plan_of, FormatOptions};
use crate::path::marks_dir;
use crate::tree::{
    create_file, dir_named, file_of, find_dir, find_target, make_dir, named, remove, rename, Named,
    Target,
};
use crate::volume::{boot_geometry, parse_boot_sector, Geometry};

verus! {

/// How a file is opened.
#[derive(Clone, Copy, Debug)]
pub struct OpenMode {
    /// The file can be written.
    pub write: bool,
    /// The file is created where it does not exist.
    pub create: bool,
    /// With `create`: the file must not exist.
    pub exclusive: bool,
    /// The file is cut to no bytes when it is opened.
    pub truncate: bool,
}

/// What a handle stands for.
#[derive(Clone, Copy, Debug)]
pub enum Kind {
    /// An open file.
    File(File),
    /// A listing of directory `dir`, which goes on at slot `next`.
    Listing { dir: u32, next: u32 },
}

/// An open object in the registry.
#[derive(Clone, Copy, Debug)]
pub struct Object {
    pub serial: u64,
    pub kind: Kind,
}

/// The name of an open file or of a directory listing. A handle names an
/// object only as long as the object is open: the serial number tells it
/// from every handle that was given before for the same place in the
/// registry.
#[derive(Clone, Copy, Debug, PartialEq, Eq, Structural)]
pub struct Handle {
    pub slot: u32,
    pub serial: u64,
}

/// What a volume reports of itself.
#[derive(Clone, Copy, Debug, PartialEq, Eq, Structural)]
pub struct VolumeStat {
    /// The number of clusters of the data region.
    pub total_clusters: u32,
    /// The number of clusters that are free.
    pub free_clusters: u32,
    /// The size of a cluster in bytes.
    pub cluster_size: u32,
}

/// An entry of a directory, as a listing gives it.
pub struct DirEntry {
    /// The long name of the entry where it has one, else the name that its
    /// short entry shows.
    pub name: Vec<u16>,
    /// The attribute byte.
    pub attr: u8,
    /// The entry is a directory.
    pub is_dir: bool,
    /// The size in bytes, as the entry says.
    pub size: u32,
    /// The first cluster of the entry's chain, or 0.
    pub first_cluster: u32,
    /// The time of the last write.
    pub written: Stamp,
}

/// One drive, the volume that is mounted on it, and the open objects.
pub struct FatFs<H: FatfsDiskHandler> {
    dev: H,
    pdrv: u8,
    vol: Option<Volume>,
    objects: Vec<Option<Object>>,
    serial: u64,
    now: Stamp,
}

impl<H: FatfsDiskHandler> FatFs<H> {
    /// The driver is sound, and the volume that is mounted lies on the
    /// drive.
    pub closed spec fn wf(&self) -> bool {
        &&& self.dev.inv()
        &&& self.objects.len() <= u32::MAX
        &&& self.handles_fresh()
        &&& self.vol matches Some(v) ==> v.pdrv == self.pdrv && v.on(self.dev.drive(self.pdrv))
    }

    /// The volume that is mounted, if one is.
    pub closed spec fn mounted(&self) -> Option<Volume> {
        self.vol
    }

    /// The drive as the storage contract sees it.
    pub closed spec fn drive(&self) -> Drive {
        self.dev.drive(self.pdrv)
    }

    /// The number of the drive.
    pub closed spec fn number(&self) -> u8 {
        self.pdrv
    }

    /// The object that `h` names, if `h` names an open object.
    pub closed spec fn object(&self, h: Handle) -> Option<Kind> {
        if h.slot < self.objects.len() {
            match self.objects@[h.slot as int] {
                Some(o) => if o.serial == h.serial {
                    Some(o.kind)
                } else {
                    None
                },
                None => None,
            }
        } else {
            None
        }
    }

    /// The open file that `h` names, if it names one.
    pub open spec fn file(&self, h: Handle) -> Option<File> {
        match self.object(h) {
            Some(Kind::File(f)) => Some(f),
            _ => None,
        }
    }

    /// The time that new and changed entries are given.
    pub closed spec fn time(&self) -> Stamp {
        self.now
    }

    /// The serial number that the next handle is given.
    pub closed spec fn next_serial(&self) -> u64 {
        self.serial
    }

    /// Every open object has a serial number below the one that the next
    /// handle is given.
    pub closed spec fn handles_fresh(&self) -> bool {
        forall|i: int|
            0 <= i < self.objects.len() ==> (#[trigger] self.objects@[i] matches Some(o)
                ==> o.serial < self.serial)
    }

    /// The status flags that the driver reports when it is asked to prepare
    /// the drive.
    pub closed spec fn start_status(&self) -> DSTATUS {
        self.dev.ready_status(self.pdrv)
    }

    /// The drive is reported as not initialised or without a medium.
    pub open spec fn not_ready(&self) -> bool {
        self.start_status() & (STA_NOINIT | STA_NODISK) != 0
    }

    /// A handle can still be given out: a serial number is left, and a
    /// place in the registry.
    pub closed spec fn handles_left(&self) -> bool {
        self.serial < u64::MAX && (self.objects.len() < 0xFFFF_FFFF || exists|i: int|
            0 <= i < self.objects.len() && (#[trigger] self.objects@[i]) is None)
    }

    /// The open files in the order of their places in the registry; `None`
    /// stands for a place that holds a listing or nothing.
    pub closed spec fn open_files(&self) -> Seq<Option<File>> {
        Seq::new(
            self.objects.len() as nat,
            |i: int|
                match self.objects@[i] {
                    Some(o) => match o.kind {
                        Kind::File(f) => Some(f),
                        _ => None,
                    },
                    None => None,
                },
        )
    }

    /// The open file that a handle names stands at the handle's place
    /// among the open files.
    pub proof fn lemma_open_files(&self, h: Handle)
        ensures
            self.file(h) matches Some(f) ==> h.slot < self.open_files().len()
                && self.open_files()[h.slot as int] == Some(f),
    {
    }

    /// A filesystem that is well formed has a well-formed drive, and the
    /// volume that is mounted lies on that drive.
    pub proof fn lemma_wf(&self)
        requires
            self.wf(),
        ensures
            self.mounted() matches Some(v) ==> v.pdrv == self.number() && v.on(self.drive()),
    {
    }

    /// A filesystem on drive `pdrv` of `dev`, with no volume mounted and
    /// nothing open. New entries are dated 1 January 1980 until the time
    /// is set.
    pub fn new(dev: H, pdrv: u8) -> (fs: FatFs<H>)
        requires
            dev.inv(),
        ensures
            fs.wf(),
            fs.mounted() is None,
            fs.drive() == dev.drive(pdrv),
            fs.number() == pdrv,
            forall|h: Handle| fs.object(h) is None,
    {
        FatFs {
            dev,
            pdrv,
            vol: None,
            objects: Vec::new(),
            serial: 0,
            now: Stamp { date: 0x0021, time: 0 },
        }
    }

    /// Gives the driver back. What was mounted and open is forgotten
    /// without being written: unmount first.
    pub fn release(self) -> (dev: H)
        requires
            self.wf(),
        ensures
            dev.inv(),
            dev.drive(self.number()) == self.drive(),
    {
        self.dev
    }

    /// Sets the time that new and changed entries are given.
    pub fn set_time(&mut self, now: Stamp)
        requires
            old(self).wf(),
        ensures
            final(self).wf(),
            final(self).number() == old(self).number(),
            final(self).time() == now,
            final(self).mounted() == old(self).mounted(),
            final(self).drive() == old(self).drive(),
            forall|h: Handle| final(self).object(h) == old(self).object(h),
    {
        self.now = now;
    }

    /// Tells whether a volume is mounted.
    pub fn is_mounted(&self) -> (b: bool)
        ensures
            b == self.mounted() is Some,
    {
        self.vol.is_some()
    }

    /// Mounts the volume whose boot sector is sector `base` of the drive.
    ///
    /// `AlreadyMounted` is answered where a volume is mounted, `NotReady`
    /// where the drive reports that it is not initialised or holds no
    /// medium, `CorruptVolume` where the boot sector is none or describes
    /// a volume that the engine does not accept. The drive is left as it
    /// is. A medium that is write protected is mounted for reading only;
    /// a dependable drive is mounted for reading and writing.
    pub fn mount_at(&mut self, base: u32) -> (res: Result<(), FsError>)
        requires
            old(self).wf(),
        ensures
            final(self).wf(),
            final(self).number() == old(self).number(),
            final(self).time() == old(self).time(),
            final(self).drive() == old(self).drive(),
            forall|h: Handle| final(self).object(h) == old(self).object(h),
            old(self).mounted() is Some ==> res == Err::<(), FsError>(FsError::AlreadyMounted)
                && final(self).mounted() == old(self).mounted(),
            old(self).mounted() is None && old(self).not_ready() ==> res == Err::<(), FsError>(
                FsError::NotReady,
            ),
            match res {
                Ok(_) => {
                    &&& old(self).mounted() is None
                    &&& !old(self).not_ready()
                    &&& base < old(self).drive().sectors.len()
                    &&& final(self).mounted() matches Some(v) && Some(v.geom) == boot_geometry(
                        old(self).drive().sectors[base as int],
                        base as int,
                        old(self).drive().sectors.len() as int,
                    ) && v.free is None && v.cursor == 2 && v.pdrv == old(self).number()
                        && v.read_only == (old(self).start_status() & STA_PROTECT != 0) && (old(
                        self,
                    ).drive().dependable ==> !v.read_only)
                },
                Err(e) => final(self).mounted() == old(self).mounted() && (old(self).mounted()
                    is None ==> {
                    ||| (e == FsError::NotReady && old(self).not_ready())
                    ||| (!old(self).not_ready() && e == FsError::CorruptVolume && (base >= old(
                        self,
                    ).drive().sectors.len() || boot_geometry(
                        old(self).drive().sectors[base as int],
                        base as int,
                        old(self).drive().sectors.len() as int,
                    ) is None))
                    ||| (!old(self).not_ready() && !old(self).drive().dependable && e.is_device())
                }),
            },
    {
        if self.vol.is_some() {
            return Err(FsError::AlreadyMounted);
        }
        proof {
            self.dev.inv_shape(self.pdrv);
        }
        let status = disk_initialize(&mut self.dev, self.pdrv);
        assert(0u8 & (0x01u8 | 0x02u8) == 0u8) by (bit_vector);
        assert(0u8 & 0x04u8 == 0u8) by (bit_vector);
        if status & (STA_NOINIT | STA_NODISK) != 0 {
            return Err(FsError::NotReady);
        }
        let read_only = status & STA_PROTECT != 0;
        let count = match sector_count(&mut self.dev, self.pdrv) {
            Err(e) => {
                return Err(e);
            },
            Ok(n) => n,
        };
        if base >= count {
            return Err(FsError::CorruptVolume);
        }
        let boot = match read_sector(&mut self.dev, self.pdrv, base) {
            Err(e) => {
                return Err(e);
            },
            Ok(s) => s,
        };
        match parse_boot_sector(&boot, base, count) {
            Err(e) => Err(e),
            Ok(geom) => {
                self.vol = Some(Volume::new(geom, self.pdrv, read_only));
                Ok(())
            },
        }
    }

    /// Mounts the volume whose boot sector is the first sector of the
    /// drive. See `mount_at`.
    pub fn mount(&mut self) -> (res: Result<(), FsError>)
        requires
            old(self).wf(),
        ensures
            final(self).wf(),
            final(self).number() == old(self).number(),
            final(self).time() == old(self).time(),
            final(self).drive() == old(self).drive(),
            forall|h: Handle| final(self).object(h) == old(self).object(h),
            old(self).mounted() is Some ==> res == Err::<(), FsError>(FsError::AlreadyMounted)
                && final(self).mounted() == old(self).mounted(),
            old(self).mounted() is None && old(self).not_ready() ==> res == Err::<(), FsError>(
                FsError::NotReady,
            ),
            match res {
                Ok(_) => {
                    &&& old(self).mounted() is None
                    &&& !old(self).not_ready()
                    &&& final(self).mounted() matches Some(v) && Some(v.geom) == boot_geometry(
                        old(self).drive().sectors[0],
                        0,
                        old(self).drive().sectors.len() as int,
                    ) && v.free is None && v.cursor == 2 && v.pdrv == old(self).number()
                        && v.read_only == (old(self).start_status() & STA_PROTECT != 0) && (old(
                        self,
                    ).drive().dependable ==> !v.read_only)
                },
                Err(e) => final(self).mounted() == old(self).mounted() && (old(self).mounted()
                    is None ==> {
                    ||| (e == FsError::NotReady && old(self).not_ready())
                    ||| (!old(self).not_ready() && e == FsError::CorruptVolume && (old(
                        self,
                    ).drive().sectors.len() == 0 || boot_geometry(
                        old(self).drive().sectors[0],
                        0,
                        old(self).drive().sectors.len() as int,
                    ) is None))
                    ||| (!old(self).not_ready() && !old(self).drive().dependable && e.is_device())
                }),
            },
    {
        self.mount_at(0)
    }

    /// Formats the volume that begins at sector `base` of the drive and
    /// takes the rest of the drive. See `format_volume`.
    ///
    /// `AlreadyMounted` is answered where a volume is mounted: a mounted
    /// volume is not formatted.
    pub fn format(&mut self, base: u32, opts: &FormatOptions) -> (res: Result<(), FsError>)
        requires
            old(self).wf(),
        ensures
            final(self).wf(),
            final(self).number() == old(self).number(),
            final(self).time() == old(self).time(),
            final(self).mounted() == old(self).mounted(),
            forall|h: Handle| final(self).object(h) == old(self).object(h),
            old(self).drive().same_but(final(self).drive(), |i: int| base <= i),
            old(self).mounted() is Some ==> res == Err::<(), FsError>(FsError::AlreadyMounted)
                && final(self).drive() == old(self).drive(),
            match res {
                Ok(_) => {
                    &&& old(self).mounted() is None
                    &&& plan_of(
                        base,
                        old(self).drive().sectors.len() as u32,
                        old(self).drive().sector_size as u32,
                        *opts,
                    ) matches Some((p, g)) && final(self).drive().sectors[base as int]
                        == boot_sector(p, base, opts.serial) && boot_geometry(
                        final(self).drive().sectors[base as int],
                        base as int,
                        final(self).drive().sectors.len() as int,
                    ) == Some(g) && fresh(g, final(self).drive().sectors) && g.fits(
                        final(self).drive(),
                    ) && old(self).drive().same_but(
                        final(self).drive(),
                        |i: int| base <= i < cleared_end(g),
                    )
                },
                Err(e) => old(self).mounted() is None ==> (e == FsError::InvalidParameter
                    && plan_of(
                    base,
                    old(self).drive().sectors.len() as u32,
                    old(self).drive().sector_size as u32,
                    *opts,
                ) is None && final(self).drive() == old(self).drive()) || (!old(self).drive().dependable && e.is_device()),
            },
    {
        if self.vol.is_some() {
            assert(self.drive().same_but(self.drive(), |i: int| base <= i));
            return Err(FsError::AlreadyMounted);
        }
        match format_volume(&mut self.dev, self.pdrv, base, opts) {
            Err(e) => Err(e),
            Ok(_) => Ok(()),
        }
    }

    /// Finds a place in the registry for one more object, if a handle can
    /// still be given out.
    fn free_slot(&self) -> (res: Option<usize>)
        requires
            self.wf(),
        ensures
            match res {
                Some(i) => self.handles_left() && self.serial < u64::MAX && i <= self.objects.len()
                    && i < 0xFFFF_FFFF && (i < self.objects.len() ==> self.objects@[i as int]
                    is None),
                None => !self.handles_left(),
            },
    {
        if self.serial == u64::MAX {
            return None;
        }
        let mut i: usize = 0;
        while i < self.objects.len()
            invariant
                i <= self.objects.len(),
                self.objects.len() <= u32::MAX,
                self.serial < u64::MAX,
                forall|k: int| 0 <= k < i ==> (#[trigger] self.objects@[k]) is Some,
            decreases self.objects.len() - i,
        {
            if self.objects[i].is_none() {
                assert(self.objects@[i as int] is None);
                return Some(i);
            }
            i += 1;
        }
        if self.objects.len() >= 0xFFFF_FFFF {
            return None;
        }
        Some(self.objects.len())
    }

    /// Puts an object into the place `i` of the registry and gives the
    /// handle that names it.
    fn put(&mut self, i: usize, kind: Kind) -> (h: Handle)
        requires
            old(self).wf(),
            old(self).serial < u64::MAX,
            i <= old(self).objects.len(),
            i < 0xFFFF_FFFF,
            i < old(self).objects.len() ==> old(self).objects@[i as int] is None,
        ensures
            final(self).wf(),
            final(self).number() == old(self).number(),
            final(self).mounted() == old(self).mounted(),
            final(self).drive() == old(self).drive(),
            final(self).time() == old(self).time(),
            old(self).object(h) is None,
            final(self).object(h) == Some(kind),
            forall|k: Handle| k != h ==> final(self).object(k) == old(self).object(k),
    {
        let serial = self.serial;
        let object = Object { serial, kind };
        if i < self.objects.len() {
            self.objects[i] = Some(object);
        } else {
            self.objects.push(Some(object));
        }
        self.serial = serial + 1;
        let h = Handle { slot: i as u32, serial };
        assert forall|k: Handle| k != h implies self.object(k) == old(self).object(k) by {}
        h
    }

    /// The object that a handle names.
    fn find(&self, h: Handle) -> (res: Option<Kind>)
        ensures
            res == self.object(h),
    {
        if (h.slot as usize) < self.objects.len() {
            match self.objects[h.slot as usize] {
                Some(o) => {
                    if o.serial == h.serial {
                        Some(o.kind)
                    } else {
                        None
                    }
                },
                None => None,
            }
        } else {
            None
        }
    }

    /// Replaces the object that a handle names.
    fn store(&mut self, h: Handle, kind: Kind)
        requires
            old(self).object(h) is Some,
        ensures
            final(self).object(h) == Some(kind),
            forall|k: Handle| k != h ==> final(self).object(k) == old(self).object(k),
            final(self).handles_fresh() == old(self).handles_fresh(),
            final(self).mounted() == old(self).mounted(),
            final(self).drive() == old(self).drive(),
            final(self).time() == old(self).time(),
            final(self).number() == old(self).number(),
            old(self).wf() ==> final(self).wf(),
    {
        self.objects[h.slot as usize] = Some(Object { serial: h.serial, kind });
        assert forall|k: Handle| k != h implies self.object(k) == old(self).object(k) by {}
        assert(self.handles_fresh() == old(self).handles_fresh()) by {
            if old(self).handles_fresh() {
                assert forall|i: int| 0 <= i < self.objects.len() implies (#[trigger] self.objects@[i]
                    matches Some(o) ==> o.serial < self.serial) by {
                    if i != h.slot {
                        assert(self.objects@[i] == old(self).objects@[i]);
                    } else {
                        assert(old(self).objects@[i] is Some);
                    }
                }
            }
            if self.handles_fresh() {
                assert forall|i: int| 0 <= i < old(self).objects.len() implies (#[trigger] old(self).objects@[i] matches Some(o) ==> o.serial < old(self).serial) by {
                    if i != h.slot {
                        assert(self.objects@[i] == old(self).objects@[i]);
                    } else {
                        assert(self.objects@[i] is Some);
                    }
                }
            }
        }
    }

    /// Takes the object that a handle names out of the registry.
    fn forget(&mut self, h: Handle)
        requires
            old(self).object(h) is Some,
        ensures
            final(self).object(h) is None,
            forall|k: Handle| k != h ==> final(self).object(k) == old(self).object(k),
            old(self).handles_fresh() ==> final(self).handles_fresh(),
            final(self).mounted() == old(self).mounted(),
            final(self).drive() == old(self).drive(),
            final(self).time() == old(self).time(),
            final(self).number() == old(self).number(),
            final(self).next_serial() == old(self).next_serial(),
            old(self).wf() ==> final(self).wf(),
    {
        self.objects[h.slot as usize] = None;
        assert forall|k: Handle| k != h implies self.object(k) == old(self).object(k) by {}
        proof {
            if old(self).handles_fresh() {
                assert forall|i: int| 0 <= i < self.objects.len() implies (#[trigger] self.objects@[i]
                    matches Some(o) ==> o.serial < self.serial) by {
                    if i != h.slot {
                        assert(self.objects@[i] == old(self).objects@[i]);
                    }
                }
            }
        }
    }

    /// Reports the number of clusters of the mounted volume, the number of
    /// free clusters and the size of a cluster.
    ///
    /// The free clusters are counted where their number is not known. The
    /// drive is left as it is. `NotReady` is answered where no volume is
    /// mounted.
    pub fn stat_volume(&mut self) -> (res: Result<VolumeStat, FsError>)
        requires
            old(self).wf(),
        ensures
            final(self).wf(),
            final(self).number() == old(self).number(),
            final(self).time() == old(self).time(),
            final(self).drive() == old(self).drive(),
            forall|h: Handle| final(self).object(h) == old(self).object(h),
            match old(self).mounted() {
                None => res == Err::<VolumeStat, FsError>(FsError::NotReady) && final(self).mounted() is None,
                Some(v) => final(self).mounted() matches Some(w) && same_volume(v, w) && (match res {
                    Ok(stat) => stat == (VolumeStat {
                        total_clusters: v.geom.cluster_count,
                        free_clusters: free_clusters(
                            v.geom.table(old(self).drive().sectors),
                        ) as u32,
                        cluster_size: v.geom.cluster_bytes() as u32,
                    }),
                    Err(e) => e.is_device() && !old(self).drive().dependable,
                }),
            },
    {
        let mut vol = match self.vol {
            None => {
                return Err(FsError::NotReady);
            },
            Some(v) => v,
        };
        let r = free_count(&mut vol, &mut self.dev);
        self.vol = Some(vol);
        proof {
            vol.geom.lemma_cluster_slots();
        }
        match r {
            Err(e) => Err(e),
            Ok(free) => Ok(
                VolumeStat {
                    total_clusters: vol.geom.cluster_count,
                    free_clusters: free,
                    cluster_size: vol.geom.sectors_per_cluster * vol.geom.bytes_per_sector,
                },
            ),
        }
    }

    /// Reads up to `len` bytes from the position of the open file that `h`
    /// names, and moves the position behind what was read. See
    /// `file_read`.
    ///
    /// `NotReady` is answered where no volume is mounted, `InvalidHandle`
    /// where `h` names no open file.
    pub fn read(&mut self, h: Handle, len: u32) -> (res: Result<Vec<u8>, FsError>)
        requires
            old(self).wf(),
        ensures
            final(self).wf(),
            final(self).number() == old(self).number(),
            final(self).time() == old(self).time(),
            final(self).drive() == old(self).drive(),
            final(self).mounted() == old(self).mounted(),
            forall|k: Handle| k != h ==> final(self).object(k) == old(self).object(k),
            match (old(self).mounted(), old(self).file(h)) {
                (None, _) => res matches Err(e) && e == FsError::NotReady && final(self).object(h)
                    == old(self).object(h),
                (Some(_), None) => res matches Err(e) && e == FsError::InvalidHandle && final(self).object(h) == old(self).object(h),
                (Some(v), Some(f)) => match res {
                    Ok(bytes) => final(self).file(h) == Some(
                        File { pos: (f.pos + f.readable(len)) as u32, ..f },
                    ) && bytes.len() == f.readable(len) && read_answer_of(
                        v.geom,
                        old(self).drive().sectors,
                        f.first_cluster,
                        f.pos,
                        f.readable(len),
                    ) == Ok::<Seq<u8>, FsError>(bytes@),
                    Err(e) => final(self).object(h) == old(self).object(h) && ((e
                        == FsError::CorruptVolume && read_answer_of(
                        v.geom,
                        old(self).drive().sectors,
                        f.first_cluster,
                        f.pos,
                        f.readable(len),
                    ) is Err) || (!old(self).drive().dependable && e.is_device())),
                },
            },
    {
        let vol = match self.vol {
            None => {
                return Err(FsError::NotReady);
            },
            Some(v) => v,
        };
        let mut f = match self.find(h) {
            Some(Kind::File(f)) => f,
            _ => {
                return Err(FsError::InvalidHandle);
            },
        };
        let r = file_read(&vol, &mut self.dev, &mut f, len);
        self.store(h, Kind::File(f));
        r
    }

    /// Writes `data` at the position of the open file that `h` names, and
    /// moves the position behind what was written. See `written` for what
    /// holds afterwards.
    ///
    /// `NotReady` is answered where no volume is mounted, `InvalidHandle`
    /// where `h` names no open file. The size is written into the file's
    /// directory entry when the file is closed.
    pub fn write(&mut self, h: Handle, data: &Vec<u8>) -> (res: Result<u32, FsError>)
        requires
            old(self).wf(),
        ensures
            final(self).wf(),
            final(self).number() == old(self).number(),
            final(self).time() == old(self).time(),
            forall|k: Handle| k != h ==> final(self).object(k) == old(self).object(k),
            match (old(self).mounted(), old(self).file(h)) {
                (None, _) => res matches Err(e) && e == FsError::NotReady && final(self).object(h)
                    == old(self).object(h) && final(self).drive() == old(self).drive()
                    && final(self).mounted() is None,
                (Some(_), None) => res matches Err(e) && e == FsError::InvalidHandle && final(self).object(h) == old(self).object(h) && final(self).drive() == old(self).drive()
                    && final(self).mounted() == old(self).mounted(),
                (Some(v), Some(f)) => final(self).mounted() is Some && same_volume(
                    v,
                    final(self).mounted()->Some_0,
                ) && final(self).file(h) is Some && body_changed(
                    v.geom,
                    old(self).drive(),
                    final(self).drive(),
                ) && ({
                    let g = final(self).file(h)->Some_0;
                    match res {
                    Ok(n) => n == data.len() && if n == 0 {
                        g == f && final(self).drive() == old(self).drive()
                    } else {
                        crate::file::written(v, old(self).drive(), final(self).drive(), f, g, data@)
                    },
                    Err(e) => (file_write_refusal(
                        v,
                        old(self).drive().sectors,
                        f,
                        data.len() as int,
                    ) == Some(e) && final(self).drive() == old(self).drive() && g == f) || (!old(self).drive().dependable && e.is_device()),
                }
                }),
            },
    {
        let mut vol = match self.vol {
            None => {
                return Err(FsError::NotReady);
            },
            Some(v) => v,
        };
        let mut f = match self.find(h) {
            Some(Kind::File(f)) => f,
            _ => {
                return Err(FsError::InvalidHandle);
            },
        };
        let r = file_write(&mut vol, &mut self.dev, &mut f, data);
        self.vol = Some(vol);
        self.store(h, Kind::File(f));
        r
    }

    /// Moves the position of the open file that `h` names. See
    /// `file_seek`.
    ///
    /// `NotReady` is answered where no volume is mounted, `InvalidHandle`
    /// where `h` names no open file, `InvalidParameter` where `position`
    /// is negative or larger than the largest file size.
    pub fn seek(&mut self, h: Handle, position: i64) -> (res: Result<(), FsError>)
        requires
            old(self).wf(),
        ensures
            final(self).wf(),
            final(self).number() == old(self).number(),
            final(self).time() == old(self).time(),
            final(self).drive() == old(self).drive(),
            final(self).mounted() == old(self).mounted(),
            forall|k: Handle| k != h ==> final(self).object(k) == old(self).object(k),
            res == (if old(self).mounted() is None {
                Err::<(), FsError>(FsError::NotReady)
            } else if old(self).file(h) is None {
                Err(FsError::InvalidHandle)
            } else if 0 <= position <= u32::MAX {
                Ok(())
            } else {
                Err(FsError::InvalidParameter)
            }),
            final(self).object(h) == if res is Ok {
                Some(Kind::File(File { pos: position as u32, ..old(self).file(h)->Some_0 }))
            } else {
                old(self).object(h)
            },
    {
        if self.vol.is_none() {
            return Err(FsError::NotReady);
        }
        let mut f = match self.find(h) {
            Some(Kind::File(f)) => f,
            _ => {
                return Err(FsError::InvalidHandle);
            },
        };
        let r = file_seek(&mut f, position);
        self.store(h, Kind::File(f));
        r
    }

    /// Sets the size of the open file that `h` names. See `truncated` for
    /// what holds afterwards.
    ///
    /// `NotReady` is answered where no volume is mounted, `InvalidHandle`
    /// where `h` names no open file.
    pub fn truncate(&mut self, h: Handle, new_size: u32) -> (res: Result<(), FsError>)
        requires
            old(self).wf(),
        ensures
            final(self).wf(),
            final(self).number() == old(self).number(),
            final(self).time() == old(self).time(),
            forall|k: Handle| k != h ==> final(self).object(k) == old(self).object(k),
            match (old(self).mounted(), old(self).file(h)) {
                (None, _) => res matches Err(e) && e == FsError::NotReady && final(self).object(h)
                    == old(self).object(h) && final(self).drive() == old(self).drive()
                    && final(self).mounted() is None,
                (Some(_), None) => res matches Err(e) && e == FsError::InvalidHandle && final(self).object(h) == old(self).object(h) && final(self).drive() == old(self).drive()
                    && final(self).mounted() == old(self).mounted(),
                (Some(v), Some(f)) => final(self).mounted() is Some && same_volume(
                    v,
                    final(self).mounted()->Some_0,
                ) && final(self).file(h) is Some && body_changed(
                    v.geom,
                    old(self).drive(),
                    final(self).drive(),
                ) && ({
                    let g = final(self).file(h)->Some_0;
                    g.pos == f.pos && (match res {
                        Ok(_) => crate::file::truncated(
                            v,
                            old(self).drive(),
                            final(self).drive(),
                            f,
                            g,
                            new_size,
                        ),
                        Err(e) => (crate::file::truncate_refusal(
                            v,
                            old(self).drive().sectors,
                            f,
                            new_size,
                        ) == Some(e) && final(self).drive() == old(self).drive() && g == f) || (
                        !old(self).drive().dependable && e.is_device()),
                    })
                }),
            },
    {
        let mut vol = match self.vol {
            None => {
                return Err(FsError::NotReady);
            },
            Some(v) => v,
        };
        let mut f = match self.find(h) {
            Some(Kind::File(f)) => f,
            _ => {
                return Err(FsError::InvalidHandle);
            },
        };
        let r = file_truncate(&mut vol, &mut self.dev, &mut f, new_size);
        self.vol = Some(vol);
        self.store(h, Kind::File(f));
        r
    }

    /// Opens the file that `path` names. See `open_refusal` for the
    /// refusals, and `open_failed` for every failure and what it leaves.
    ///
    /// `NotReady` is answered where no volume is mounted, `InvalidHandle`
    /// where no handle can be given out any more. A file that does not
    /// exist is created where the mode asks for it, and a file that exists
    /// is cut to no bytes where the mode asks for that. The position of
    /// the open file is 0.
    pub fn open(&mut self, path: &Vec<u16>, mode: OpenMode) -> (res: Result<Handle, FsError>)
        requires
            old(self).wf(),
        ensures
            final(self).wf(),
            final(self).number() == old(self).number(),
            final(self).time() == old(self).time(),
            old(self).mounted() is None ==> res == Err::<Handle, FsError>(FsError::NotReady)
                && final(self).drive() == old(self).drive() && final(self).mounted() is None,
            old(self).mounted() matches Some(v) ==> final(self).mounted() is Some && same_volume(
                v,
                final(self).mounted()->Some_0,
            ) && body_changed(v.geom, old(self).drive(), final(self).drive()),
            match res {
                Ok(h) => {
                    &&& old(self).object(h) is None
                    &&& forall|k: Handle| k != h ==> final(self).object(k) == old(self).object(k)
                    &&& old(self).mounted() is Some
                    &&& old(self).handles_left()
                    &&& final(self).file(h) is Some
                    &&& opened(
                        old(self).mounted()->Some_0,
                        old(self).drive(),
                        final(self).drive(),
                        path@,
                        mode,
                        old(self).time(),
                        final(self).file(h)->Some_0,
                    )
                },
                Err(e) => (forall|k: Handle| final(self).object(k) == old(self).object(k)) && (old(
                    self,
                ).mounted() matches Some(v) ==> open_failed(
                    v,
                    old(self).drive(),
                    final(self).drive(),
                    path@,
                    mode,
                    old(self).handles_left(),
                    e,
                ) || (!old(self).drive().dependable && e.is_device())),
            },
    {
        let mut vol = match self.vol {
            None => {
                return Err(FsError::NotReady);
            },
            Some(v) => v,
        };
        let ghost v0 = vol;
        let ghost d0 = self.dev.drive(self.pdrv);
        assert(body_changed(v0.geom, d0, d0));
        let place = match self.free_slot() {
            None => {
                return Err(FsError::InvalidHandle);
            },
            Some(i) => i,
        };
        if (mode.create || mode.truncate) && !mode.write {
            return Err(FsError::InvalidParameter);
        }
        if mode.write && vol.read_only {
            return Err(FsError::WriteProtected);
        }
        let target = match find_target(&vol, &mut self.dev, path) {
            Err(e) => {
                return Err(e);
            },
            Ok(t) => t,
        };
        let mut f = match target {
            Target::Root => {
                return Err(FsError::InvalidParameter);
            },
            Target::Entry { dir, found } => {
                if mode.create && mode.exclusive {
                    return Err(FsError::AlreadyExists);
                }
                if found.slot[11] / 16 % 2 == 1 {
                    return Err(FsError::InvalidParameter);
                }
                if mode.write && found.slot[11] % 2 == 1 {
                    return Err(FsError::WriteProtected);
                }
                file_of(dir, &found, mode.write)
            },
            Target::Missing { dir, name } => {
                if !mode.create {
                    return Err(FsError::NotFound);
                }
                let r = create_file(&mut vol, &mut self.dev, dir, &name, self.now);
                self.vol = Some(vol);
                match r {
                    Err(e) => {
                        return Err(e);
                    },
                    Ok(f) => f,
                }
            },
        };
        if mode.truncate && f.size != 0 {
            let ghost d1 = self.dev.drive(self.pdrv);
            let r = file_truncate(&mut vol, &mut self.dev, &mut f, 0);
            self.vol = Some(vol);
            proof {
                crate::dirops::lemma_body_twice(v0.geom, d0, d1, self.dev.drive(self.pdrv));
            }
            match r {
                Err(e) => {
                    return Err(e);
                },
                Ok(_) => {},
            }
        }
        Ok(self.put(place, Kind::File(f)))
    }

    /// Closes the open file or the directory listing that `h` names.
    ///
    /// `NotReady` is answered where no volume is mounted, `InvalidHandle`
    /// where `h` names nothing. A file whose size or first cluster has
    /// changed has them written into its directory entry, with the time
    /// of the filesystem; see `entry_rewritten` for what is written and
    /// `update_refusal` for the refusals of that step. The handle names
    /// nothing afterwards, whatever the answer.
    pub fn close(&mut self, h: Handle) -> (res: Result<(), FsError>)
        requires
            old(self).wf(),
        ensures
            final(self).wf(),
            final(self).number() == old(self).number(),
            final(self).time() == old(self).time(),
            final(self).mounted() == old(self).mounted(),
            forall|k: Handle| k != h ==> final(self).object(k) == old(self).object(k),
            old(self).mounted() is Some ==> final(self).object(h) is None,
            old(self).mounted() is None ==> res == Err::<(), FsError>(FsError::NotReady)
                && final(self).drive() == old(self).drive(),
            old(self).mounted() is Some && old(self).object(h) is None ==> res == Err::<
                (),
                FsError,
            >(FsError::InvalidHandle) && final(self).drive() == old(self).drive(),
            old(self).mounted() matches Some(v) ==> old(self).drive().same_but(
                final(self).drive(),
                |i: int| v.geom.root_start <= i < v.geom.end(),
            ) && v.geom.table(final(self).drive().sectors) == v.geom.table(
                old(self).drive().sectors,
            ) && (match old(self).object(h) {
                Some(Kind::File(f)) => if f.dirty {
                    match res {
                        Ok(_) => entry_rewritten(
                            v,
                            old(self).drive(),
                            final(self).drive(),
                            f,
                            old(self).time(),
                        ),
                        Err(e) => (crate::dirops::update_refusal(
                            v,
                            old(self).drive().sectors,
                            f.dir,
                            f.index as int,
                        ) == Some(e) && final(self).drive() == old(self).drive()) || (!old(
                            self,
                        ).drive().dependable && e.is_device()),
                    }
                } else {
                    final(self).drive() == old(self).drive() && (res matches Err(e) ==> !old(
                        self,
                    ).drive().dependable && e.is_device())
                },
                Some(Kind::Listing { .. }) => final(self).drive() == old(self).drive() && res
                    is Ok,
                None => final(self).drive() == old(self).drive(),
            }),
    {
        let vol = match self.vol {
            None => {
                return Err(FsError::NotReady);
            },
            Some(v) => v,
        };
        let ghost d0 = self.dev.drive(self.pdrv);
        assert(d0.same_but(d0, |i: int| vol.geom.root_start <= i < vol.geom.end()));
        match self.find(h) {
            None => Err(FsError::InvalidHandle),
            Some(Kind::Listing { dir: _, next: _ }) => {
                self.forget(h);
                Ok(())
            },
            Some(Kind::File(mut f)) => {
                let r = file_sync(&vol, &mut self.dev, &mut f, self.now);
                self.forget(h);
                r
            },
        }
    }

    /// Creates the directory that `path` names. See `make_dir_outcome` for
    /// the answer and for what holds afterwards.
    ///
    /// `NotReady` is answered where no volume is mounted.
    pub fn mkdir(&mut self, path: &Vec<u16>) -> (res: Result<(), FsError>)
        requires
            old(self).wf(),
        ensures
            final(self).wf(),
            final(self).number() == old(self).number(),
            final(self).time() == old(self).time(),
            forall|k: Handle| final(self).object(k) == old(self).object(k),
            match old(self).mounted() {
                None => res == Err::<(), FsError>(FsError::NotReady) && final(self).drive() == old(self).drive() && final(self).mounted() is None,
                Some(v) => final(self).mounted() is Some && same_volume(
                    v,
                    final(self).mounted()->Some_0,
                ) && body_changed(v.geom, old(self).drive(), final(self).drive())
                    && crate::tree::make_dir_outcome(
                    v,
                    old(self).drive(),
                    final(self).drive(),
                    path@,
                    old(self).time(),
                    res,
                ),
            },
    {
        let mut vol = match self.vol {
            None => {
                return Err(FsError::NotReady);
            },
            Some(v) => v,
        };
        let r = make_dir(&mut vol, &mut self.dev, path, self.now);
        self.vol = Some(vol);
        r
    }

    /// Removes the file or the empty directory that `path` names. See
    /// `remove`.
    ///
    /// `NotReady` is answered where no volume is mounted. A file that is
    /// open is removed like any other: its handles then read what the
    /// clusters hold that it had, which may be given to other files.
    pub fn unlink(&mut self, path: &Vec<u16>) -> (res: Result<(), FsError>)
        requires
            old(self).wf(),
        ensures
            final(self).wf(),
            final(self).number() == old(self).number(),
            final(self).time() == old(self).time(),
            forall|k: Handle| final(self).object(k) == old(self).object(k),
            match old(self).mounted() {
                None => res == Err::<(), FsError>(FsError::NotReady) && final(self).drive() == old(self).drive() && final(self).mounted() is None,
                Some(v) => final(self).mounted() is Some && same_volume(
                    v,
                    final(self).mounted()->Some_0,
                ) && body_changed(v.geom, old(self).drive(), final(self).drive()) && (match res {
                    Ok(_) => {
                        &&& crate::tree::remove_refusal(v, old(self).drive().sectors, path@)
                            is None
                        &&& named(v.geom, old(self).drive().sectors, path@) matches Ok(
                            Named::Entry { dir, index },
                        ) && crate::tree::removed(
                            v,
                            old(self).drive(),
                            final(self).drive(),
                            dir,
                            index,
                        )
                    },
                    Err(e) => (crate::tree::remove_refusal(v, old(self).drive().sectors, path@)
                        == Some(e) && final(self).drive() == old(self).drive()) || (!old(self).drive().dependable && e.is_device()),
                }),
            },
    {
        let mut vol = match self.vol {
            None => {
                return Err(FsError::NotReady);
            },
            Some(v) => v,
        };
        let r = remove(&mut vol, &mut self.dev, path);
        self.vol = Some(vol);
        r
    }

    /// Gives the entry that `from` names the name and the place that `to`
    /// names. See `rename_outcome` for the answer and for what holds
    /// afterwards.
    ///
    /// `NotReady` is answered where no volume is mounted.
    pub fn rename(&mut self, from: &Vec<u16>, to: &Vec<u16>) -> (res: Result<(), FsError>)
        requires
            old(self).wf(),
        ensures
            final(self).wf(),
            final(self).number() == old(self).number(),
            final(self).time() == old(self).time(),
            forall|k: Handle| final(self).object(k) == old(self).object(k),
            match old(self).mounted() {
                None => res == Err::<(), FsError>(FsError::NotReady) && final(self).drive() == old(self).drive() && final(self).mounted() is None,
                Some(v) => final(self).mounted() is Some && same_volume(
                    v,
                    final(self).mounted()->Some_0,
                ) && body_changed(v.geom, old(self).drive(), final(self).drive())
                    && crate::tree::rename_outcome(
                    v,
                    old(self).drive(),
                    final(self).drive(),
                    from@,
                    to@,
                    res,
                ),
            },
    {
        let mut vol = match self.vol {
            None => {
                return Err(FsError::NotReady);
            },
            Some(v) => v,
        };
        let r = rename(&mut vol, &mut self.dev, from, to);
        self.vol = Some(vol);
        r
    }

    /// Opens a listing of the directory that `path` names.
    ///
    /// `NotReady` is answered where no volume is mounted, `InvalidHandle`
    /// where no handle can be given out any more, `NotFound` where the
    /// path names nothing, `NotADirectory` where it names a file. The
    /// drive is left as it is. The listing begins at the first slot of the
    /// directory.
    pub fn open_dir(&mut self, path: &Vec<u16>) -> (res: Result<Handle, FsError>)
        requires
            old(self).wf(),
        ensures
            final(self).wf(),
            final(self).number() == old(self).number(),
            final(self).time() == old(self).time(),
            final(self).drive() == old(self).drive(),
            final(self).mounted() == old(self).mounted(),
            old(self).mounted() is None ==> res == Err::<Handle, FsError>(FsError::NotReady),
            match res {
                Ok(h) => {
                    &&& old(self).object(h) is None
                    &&& forall|k: Handle| k != h ==> final(self).object(k) == old(self).object(k)
                    &&& old(self).mounted() is Some
                    &&& old(self).handles_left()
                    &&& final(self).object(h) == Some(
                        Kind::Listing {
                            dir: dir_named(
                                old(self).mounted()->Some_0.geom,
                                old(self).drive().sectors,
                                path@,
                            )->Ok_0,
                            next: 0,
                        },
                    )
                    &&& dir_named(
                        old(self).mounted()->Some_0.geom,
                        old(self).drive().sectors,
                        path@,
                    ) is Ok
                },
                Err(e) => (forall|k: Handle| final(self).object(k) == old(self).object(k)) && (old(
                    self,
                ).mounted() matches Some(v) ==> (if !old(self).handles_left() {
                    e == FsError::InvalidHandle
                } else {
                    dir_named(v.geom, old(self).drive().sectors, path@) == Err::<u32, FsError>(e)
                }) || (!old(self).drive().dependable && e.is_device())),
            },
    {
        let vol = match self.vol {
            None => {
                return Err(FsError::NotReady);
            },
            Some(v) => v,
        };
        let place = match self.free_slot() {
            None => {
                return Err(FsError::InvalidHandle);
            },
            Some(i) => i,
        };
        let dir = match find_dir(&vol, &mut self.dev, path) {
            Err(e) => {
                return Err(e);
            },
            Ok(d) => d,
        };
        Ok(self.put(place, Kind::Listing { dir, next: 0 }))
    }

    /// Gives the next entry of the listing that `h` names, or `None` at the
    /// end of the directory, and moves the listing behind the entry.
    ///
    /// `NotReady` is answered where no volume is mounted, `InvalidHandle`
    /// where `h` names no listing, `CorruptVolume` where the directory's
    /// chain leaves the data region. The drive is left as it is. An entry
    /// is listed under its long name where fragments with the checksum of
    /// its short name stand before it, else under the name that its short
    /// entry shows.
    pub fn read_dir(&mut self, h: Handle) -> (res: Result<Option<DirEntry>, FsError>)
        requires
            old(self).wf(),
        ensures
            final(self).wf(),
            final(self).number() == old(self).number(),
            final(self).time() == old(self).time(),
            final(self).drive() == old(self).drive(),
            final(self).mounted() == old(self).mounted(),
            forall|k: Handle| k != h ==> final(self).object(k) == old(self).object(k),
            match (old(self).mounted(), old(self).object(h)) {
                (None, _) => res matches Err(e) && e == FsError::NotReady && final(self).object(h)
                    == old(self).object(h),
                (Some(v), Some(Kind::Listing { dir, next })) => (match entry_from(
                    v.geom.slots(old(self).drive().sectors, dir),
                    next as int,
                ) {
                    Scan::At(j) => res matches Ok(Some(e)) && final(self).object(h) == Some(
                        Kind::Listing { dir, next: (j + 1) as u32 },
                    ) && e.name@ == listed_name(v.geom.slots(old(self).drive().sectors, dir), j)
                        && entry_shows(e, v.geom.slot(old(self).drive().sectors, dir, j)->Some_0),
                    Scan::Nothing => res matches Ok(None) && final(self).object(h) == old(self).object(h),
                    Scan::Broken => res matches Err(e) && e == FsError::CorruptVolume && final(self).object(h) == old(self).object(h),
                }) || (!old(self).drive().dependable && res is Err && res->Err_0.is_device()
                    && final(self).object(h) == old(self).object(h)),
                (Some(_), _) => res matches Err(e) && e == FsError::InvalidHandle && final(self).object(h) == old(self).object(h),
            },
    {
        let vol = match self.vol {
            None => {
                return Err(FsError::NotReady);
            },
            Some(v) => v,
        };
        let (dir, next) = match self.find(h) {
            Some(Kind::Listing { dir, next }) => (dir, next),
            _ => {
                return Err(FsError::InvalidHandle);
            },
        };
        match next_entry(&vol, &mut self.dev, dir, next) {
            Err(e) => Err(e),
            Ok(None) => Ok(None),
            Ok(Some(found)) => {
                proof {
                    vol.geom.lemma_slot_place(
                        self.dev.drive(self.pdrv).sectors,
                        dir,
                        found.index as int,
                    );
                }
                self.store(h, Kind::Listing { dir, next: found.index + 1 });
                let attr = found.slot[11];
                Ok(
                    Some(
                        DirEntry {
                            attr,
                            is_dir: attr / 16 % 2 == 1,
                            size: slot_size(&found.slot),
                            first_cluster: slot_first_cluster(&found.slot),
                            written: slot_written(&found.slot),
                            name: found.name,
                        },
                    ),
                )
            },
        }
    }

    /// Writes what is changed of every open file into its directory entry,
    /// closes every open object, asks the driver to complete every pending
    /// write, and unmounts the volume.
    ///
    /// `NotReady` is answered where no volume is mounted. See `all_synced`
    /// for what the drive holds afterwards. Where the entry
    /// of an open file cannot be rewritten, as `update_refusal` says, or a
    /// transfer fails, the volume stays mounted, and the objects that were
    /// not reached stay open. No sector of the tables changes, and none
    /// before the root directory: the boot sector is as it was.
    pub fn unmount(&mut self) -> (res: Result<(), FsError>)
        requires
            old(self).wf(),
        ensures
            final(self).wf(),
            final(self).number() == old(self).number(),
            final(self).time() == old(self).time(),
            match old(self).mounted() {
                None => res == Err::<(), FsError>(FsError::NotReady) && final(self).drive() == old(self).drive() && final(self).mounted() is None,
                Some(v) => old(self).drive().same_but(
                    final(self).drive(),
                    |i: int| v.geom.root_start <= i < v.geom.end(),
                ) && v.geom.table(final(self).drive().sectors) == v.geom.table(
                    old(self).drive().sectors,
                ) && (match res {
                    Ok(_) => final(self).mounted() is None && (forall|k: Handle|
                        final(self).object(k) is None) && all_synced(
                        v,
                        old(self).open_files(),
                        old(self).drive(),
                        final(self).drive(),
                        old(self).time(),
                    ),
                    Err(e) => final(self).mounted() == old(self).mounted() && ((exists|k: Handle|
                        (#[trigger] old(self).file(k)) is Some && old(self).file(k)->Some_0.dirty
                            && crate::dirops::update_refusal(
                            v,
                            final(self).drive().sectors,
                            old(self).file(k)->Some_0.dir,
                            old(self).file(k)->Some_0.index as int,
                        ) == Some(e)) || (!old(self).drive().dependable && e.is_device())),
                }),
            },
    {
        let vol = match self.vol {
            None => {
                return Err(FsError::NotReady);
            },
            Some(v) => v,
        };
        let ghost d0 = self.dev.drive(self.pdrv);
        assert(d0.same_but(d0, |i: int| vol.geom.root_start <= i < vol.geom.end()));
        let n = self.objects.len();
        let ghost files = self.open_files();
        proof {
            lemma_synced_none(vol, files.subrange(0, 0), d0, self.now);
        }
        let mut i: usize = 0;
        while i < n
            invariant
                i <= n,
                n == self.objects.len(),
                self.wf(),
                self.vol == Some(vol),
                self.pdrv == old(self).pdrv,
                self.now == old(self).now,
                files == old(self).open_files(),
                files.len() == n,
                all_synced(
                    vol,
                    files.subrange(0, i as int),
                    d0,
                    self.dev.drive(self.pdrv),
                    self.now,
                ),
                old(self).wf(),
                old(self).vol == Some(vol),
                self.serial == old(self).serial,
                d0 == old(self).dev.drive(old(self).pdrv),
                old(self).handles_fresh() ==> self.handles_fresh(),
                d0.same_but(
                    self.dev.drive(self.pdrv),
                    |k: int| vol.geom.root_start <= k < vol.geom.end(),
                ),
                vol.geom.table(self.dev.drive(self.pdrv).sectors) == vol.geom.table(d0.sectors),
                forall|k: int| 0 <= k < i ==> (#[trigger] self.objects@[k]) is None,
                n == old(self).objects.len(),
                n <= u32::MAX,
                forall|k: int| i <= k < n ==> (#[trigger] self.objects@[k]) == old(self).objects@[k],
            decreases n - i,
        {
            let ghost cur = self.dev.drive(self.pdrv);
            match self.objects[i] {
                Some(Object { serial, kind: Kind::File(mut f) }) => {
                    let ghost was = f;
                    let r = file_sync(&vol, &mut self.dev, &mut f, self.now);
                    proof {
                        crate::dir::lemma_data_twice(
                            vol.geom,
                            d0,
                            cur,
                            self.dev.drive(self.pdrv),
                        );
                        let k = Handle { slot: i as u32, serial };
                        assert(old(self).objects@[i as int] == self.objects@[i as int]);
                        assert(k.slot as int == i as int);
                        assert(old(self).object(k) == Some(Kind::File(was)));
                        assert(old(self).file(k) == Some(was));
                    }
                    match r {
                        Err(e) => {
                            return Err(e);
                        },
                        Ok(_) => {},
                    }
                },
                _ => {},
            }
            proof {
                assert(old(self).objects@[i as int] == self.objects@[i as int]);
                lemma_synced_more(
                    vol,
                    files,
                    i as int,
                    d0,
                    cur,
                    self.dev.drive(self.pdrv),
                    self.now,
                );
            }
            let ghost before = *self;
            self.objects[i] = None;
            proof {
                if old(self).handles_fresh() {
                    assert forall|k: int| 0 <= k < self.objects.len() implies (#[trigger] self.objects@[k]
                        matches Some(o) ==> o.serial < self.serial) by {
                        if k != i {
                            assert(self.objects@[k] == before.objects@[k]);
                        }
                    }
                }
            }
            i += 1;
        }
        assert(files.subrange(0, n as int) =~= files);
        match sync_drive(&mut self.dev, self.pdrv) {
            Err(e) => Err(e),
            Ok(_) => {
                self.vol = None;
                Ok(())
            },
        }
    }
}

/// What `file_sync` leaves when it succeeds: the entry of a file that is
/// marked as changed holds the file's first cluster and size and the time
/// `stamp`, and is else as it was, and nothing has changed outside the
/// run of sectors that holds the entry; for a file that is not marked,
/// nothing has changed.
pub open spec fn entry_rewritten(vol: Volume, before: Drive, after: Drive, f: File, stamp: Stamp) -> bool {
    if f.dirty {
        crate::dirops::update_refusal(vol, before.sectors, f.dir, f.index as int) is None
            && crate::dir::slot_frame(vol.geom, before, after, f.dir, f.index as int)
            && crate::dir::slots_written(
            vol.geom,
            before,
            after,
            f.dir,
            f.index as int,
            seq![
                crate::dirent::restamped(
                    vol.geom.slot(before.sectors, f.dir, f.index as int)->Some_0,
                    f.first_cluster,
                    f.size,
                    stamp,
                ),
            ],
        )
    } else {
        after == before
    }
}

/// What the next step of `unmount` leaves: the entry of an open file
/// rewritten as `entry_rewritten` says, and nothing changed where the
/// place holds no open file.
pub open spec fn place_synced(vol: Volume, before: Drive, after: Drive, file: Option<File>, stamp: Stamp) -> bool {
    match file {
        Some(f) => entry_rewritten(vol, before, after, f, stamp),
        None => after == before,
    }
}

/// The drive `after` is `before` with the entries of the open files
/// `files` rewritten one after the other, in the order of `files`, as
/// `entry_rewritten` says.
#[verifier::opaque]
pub open spec fn all_synced(
    vol: Volume,
    files: Seq<Option<File>>,
    before: Drive,
    after: Drive,
    stamp: Stamp,
) -> bool
    decreases files.len(),
{
    if files.len() == 0 {
        after == before
    } else {
        exists|mid: Drive|
            all_synced(vol, files.drop_last(), before, mid, stamp) && #[trigger] place_synced(
                vol,
                mid,
                after,
                files.last(),
                stamp,
            )
    }
}

/// With no file, nothing is rewritten.
pub proof fn lemma_synced_none(vol: Volume, files: Seq<Option<File>>, before: Drive, stamp: Stamp)
    requires
        files.len() == 0,
    ensures
        all_synced(vol, files, before, before, stamp),
{
    reveal(all_synced);
}

/// One more file whose entry is rewritten.
pub proof fn lemma_synced_more(
    vol: Volume,
    files: Seq<Option<File>>,
    i: int,
    before: Drive,
    mid: Drive,
    after: Drive,
    stamp: Stamp,
)
    requires
        0 <= i < files.len(),
        all_synced(vol, files.subrange(0, i), before, mid, stamp),
        place_synced(vol, mid, after, files[i], stamp),
    ensures
        all_synced(vol, files.subrange(0, i + 1), before, after, stamp),
{
    let more = files.subrange(0, i + 1);
    assert(more.drop_last() =~= files.subrange(0, i));
    assert(more.last() == files[i]);
    assert(more.len() > 0);
    assert(all_synced(vol, more.drop_last(), before, mid, stamp) && place_synced(
        vol,
        mid,
        after,
        more.last(),
        stamp,
    ));
    assert(all_synced(vol, more, before, after, stamp)) by {
        reveal_with_fuel(all_synced, 2);
    }
}

/// Why a file is not opened, if it is not: the mode asks to create or to
/// cut without asking to write; it asks to write to a volume or a file
/// that is write protected; the path names nothing, and the mode does not
/// ask to create; the path names the root directory or a directory; or it
/// names an entry that exists, and the mode asks for a new one.
pub open spec fn open_refusal(vol: Volume, disk: Seq<Seq<u8>>, path: Seq<u16>, mode: OpenMode) -> Option<
    FsError,
> {
    if (mode.create || mode.truncate) && !mode.write {
        Some(FsError::InvalidParameter)
    } else if mode.write && vol.read_only {
        Some(FsError::WriteProtected)
    } else {
        match named(vol.geom, disk, path) {
            Err(e) => Some(e),
            Ok(Named::Root) => Some(FsError::InvalidParameter),
            Ok(Named::Entry { dir, index }) => {
                let attr = vol.geom.slot(disk, dir, index)->Some_0[11];
                if mode.create && mode.exclusive {
                    Some(FsError::AlreadyExists)
                } else if marks_dir(attr) {
                    Some(FsError::InvalidParameter)
                } else if mode.write && attr % 2 == 1 {
                    Some(FsError::WriteProtected)
                } else {
                    None
                }
            },
            Ok(Named::Missing { .. }) => if !mode.create {
                Some(FsError::NotFound)
            } else {
                None
            },
        }
    }
}

/// The open file for the entry in slot `index` of directory `dir`.
pub open spec fn file_at(g: Geometry, disk: Seq<Seq<u8>>, dir: u32, index: int, writable: bool) -> File {
    let s = g.slot(disk, dir, index)->Some_0;
    File {
        dir,
        index: index as u32,
        first_cluster: short_fields(s).first_cluster,
        size: short_fields(s).size,
        pos: 0,
        writable,
        dirty: false,
    }
}

/// What holds of the file `f` that `open` gives, and of the drive:
/// nothing refused the file;
///
/// - where the path names an entry, the file is that entry's, and the
///   drive is as it was; but where the mode asks to cut and the file holds
///   bytes, its size is 0, it has no cluster, and it holds no bytes;
/// - where the path names nothing, an entry for an empty file was added,
///   as `added` says, and the file is that entry's.
pub open spec fn opened(
    vol: Volume,
    before: Drive,
    after: Drive,
    path: Seq<u16>,
    mode: OpenMode,
    stamp: Stamp,
    f: File,
) -> bool {
    let g = vol.geom;
    &&& open_refusal(vol, before.sectors, path, mode) is None
    &&& f.pos == 0
    &&& f.writable == mode.write
    &&& match named(g, before.sectors, path) {
        Ok(Named::Entry { dir, index }) => {
            let was = file_at(g, before.sectors, dir, index, mode.write);
            if mode.truncate && was.size != 0 {
                &&& f.dir == dir
                &&& f.index == index
                &&& f.size == 0
                &&& f.first_cluster == 0
                &&& f.dirty
                &&& crate::file::truncate_refusal(vol, before.sectors, was, 0) is None
                &&& f.data(g, after.sectors) == Some(
                    crate::file::resized(was.data(g, before.sectors)->Some_0, 0),
                )
            } else {
                f == was && after == before
            }
        },
        Ok(Named::Missing { dir, name }) => {
            &&& f == (File {
                dir,
                index: f.index,
                first_cluster: 0,
                size: 0,
                pos: 0,
                writable: true,
                dirty: false,
            })
            &&& exists|fragments: int, short: Seq<u8>| #[trigger]
                crate::dirops::added(
                    vol,
                    before,
                    after,
                    dir,
                    name,
                    ATTR_ARCHIVE,
                    0,
                    0,
                    stamp,
                    f.index as int,
                    fragments,
                    short,
                )
        },
        _ => false,
    }
}

/// What `open` leaves when it fails with `e`, `room` telling whether a
/// handle could still be given out: `InvalidHandle` where none could; the
/// error that `open_refusal` gives; the error for which the entry of a new
/// file could not be added, with what `add_failed` says of the drive; or
/// the error for which a file was not cut. But for a new entry that could
/// not be added, the drive is as it was.
pub open spec fn open_failed(
    vol: Volume,
    before: Drive,
    after: Drive,
    path: Seq<u16>,
    mode: OpenMode,
    room: bool,
    e: FsError,
) -> bool {
    let g = vol.geom;
    if !room {
        e == FsError::InvalidHandle && after == before
    } else if open_refusal(vol, before.sectors, path, mode) is Some {
        open_refusal(vol, before.sectors, path, mode) == Some(e) && after == before
    } else {
        match named(g, before.sectors, path) {
            Ok(Named::Entry { dir, index }) => mode.truncate && after == before
                && crate::file::truncate_refusal(
                vol,
                before.sectors,
                file_at(g, before.sectors, dir, index, mode.write),
                0,
            ) == Some(e),
            Ok(Named::Missing { dir, name }) => crate::dirops::add_failed(
                vol,
                before,
                after,
                dir,
                name,
                ATTR_ARCHIVE,
                e,
            ),
            _ => false,
        }
    }
}

/// The entry of a listing shows the fields of the short entry in `slot`.
pub open spec fn entry_shows(e: DirEntry, slot: Seq<u8>) -> bool {
    &&& e.attr == short_fields(slot).attr
    &&& e.is_dir == marks_dir(slot[11])
    &&& e.size == short_fields(slot).size
    &&& e.first_cluster == short_fields(slot).first_cluster
    &&& e.written == short_fields(slot).written
}

/// The entry of the file `f` lies in no cluster of the file's chain: it
/// lies in the root directory of fixed size, or in a cluster that is none
/// of the file's.
pub open spec fn entry_apart(g: Geometry, disk: Seq<Seq<u8>>, f: File) -> bool {
    g.slot_place(disk, f.dir, f.index as int) matches Some((start, off)) && g.clusters_of(
        disk,
        f.first_cluster,
    ) matches Some(s) && forall|j: int|
        0 <= j < s.len() ==> start + g.dir_run(f.dir) <= g.first_sector(#[trigger] s[j])
            || g.first_sector(s[j]) + g.sectors_per_cluster <= start
}

/// A file whose entry was rewritten is found again as it was: the file
/// that is opened from the entry has the first cluster and the size of
/// `f`, and holds the bytes that `f` held, where the entry lies in no
/// cluster of the file.
pub proof fn lemma_reopened(vol: Volume, before: Drive, after: Drive, f: File, stamp: Stamp, writable: bool)
    requires
        vol.geom.wf(),
        before.wf(),
        vol.geom.fits(before),
        f.dirty,
        entry_rewritten(vol, before, after, f, stamp),
        f.data(vol.geom, before.sectors) is Some,
        entry_apart(vol.geom, before.sectors, f),
    ensures
        file_at(vol.geom, after.sectors, f.dir, f.index as int, writable) == (File {
            pos: 0,
            dirty: false,
            writable,
            ..f
        }),
        file_at(vol.geom, after.sectors, f.dir, f.index as int, writable).data(
            vol.geom,
            after.sectors,
        ) == f.data(vol.geom, before.sectors),
{
    let g = vol.geom;
    let was = g.slot(before.sectors, f.dir, f.index as int)->Some_0;
    let new = crate::dirent::restamped(was, f.first_cluster, f.size, stamp);
    let (start, off) = g.slot_place(before.sectors, f.dir, f.index as int)->Some_0;
    let s = g.clusters_of(before.sectors, f.first_cluster)->Some_0;
    g.lemma_slot_place(before.sectors, f.dir, f.index as int);
    crate::diskio::lemma_flat_len(before.sectors, start, g.dir_run(f.dir), before.sector_size);
    assert(was.len() == 32);
    crate::dirent::lemma_restamped_fields(was, f.first_cluster, f.size, stamp);
    assert(g.probe(after.sectors, f.dir, f.index as int + 0) == crate::dir::Probe::Holds(
        seq![new][0],
    ));
    assert(g.slot(after.sectors, f.dir, f.index as int) == Some(new));
    assert(g.clusters_of(after.sectors, f.first_cluster) == Some(s));
    if f.first_cluster != 0 {
        crate::chain::lemma_chain_is_chain(
            g.fat_type,
            g.table(before.sectors),
            f.first_cluster as int,
            g.cluster_count as nat,
        );
    }
    assert(g.cluster_disk(after.sectors, s) =~= g.cluster_disk(before.sectors, s)) by {
        assert forall|j: int| 0 <= j < s.len() implies g.cluster_disk(after.sectors, s)[j]
            == g.cluster_disk(before.sectors, s)[j] by {
            assert(g.holds(s[j]));
            g.lemma_cluster_data(before, s[j]);
            crate::region::lemma_flat_same(
                before.sectors,
                after.sectors,
                g.first_sector(s[j]),
                g.sectors_per_cluster as int,
            );
        }
    }
}

} // verus!
