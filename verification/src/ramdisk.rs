//! A drive held in memory, for tests and for volumes that live in RAM.

use vstd::prelude::*;
use crate::diskio::{
    flat, stored, CTRL_SYNC, DRESULT, DSTATUS, GET_BLOCK_SIZE, GET_SECTOR_COUNT, GET_SECTOR_SIZE,
    STA_NOINIT, STA_PROTECT, Drive, FatfsDiskHandler, IoctlArg,
};

verus! {

/// One drive whose sectors are held in memory.
///
/// It answers for a single drive number. It can be told to fail every
/// transfer, or to refuse writes, so that the engine's handling of a failing
/// medium can be exercised.
pub struct RamDisk {
    pdrv: u8,
    sector_size: u32,
    sectors: Vec<Vec<u8>>,
    failing: bool,
    protected: bool,
}

/// The bytes of each sector of `v`.
pub open spec fn sector_views(v: Seq<Vec<u8>>) -> Seq<Seq<u8>> {
    Seq::new(v.len(), |i: int| v[i]@)
}

impl RamDisk {
    /// The drive number that this disk answers for.
    pub closed spec fn number(&self) -> u8 {
        self.pdrv
    }

    /// The sectors that the disk holds.
    pub closed spec fn content(&self) -> Seq<Seq<u8>> {
        sector_views(self.sectors@)
    }

    /// The size of each sector in bytes.
    pub closed spec fn bytes_per_sector(&self) -> nat {
        self.sector_size as nat
    }

    /// Every transfer is made to fail.
    pub closed spec fn is_failing(&self) -> bool {
        self.failing
    }

    /// Writes are refused.
    pub closed spec fn is_protected(&self) -> bool {
        self.protected
    }

    /// A disk of `sector_count` sectors of `sector_size` bytes, all zero,
    /// that answers for drive `pdrv`.
    pub fn new(pdrv: u8, sector_size: u32, sector_count: u32) -> (disk: RamDisk)
        ensures
            disk.inv(),
            disk.number() == pdrv,
            disk.bytes_per_sector() == sector_size,
            disk.content() == Seq::new(
                sector_count as nat,
                |i: int| Seq::new(sector_size as nat, |j: int| 0u8),
            ),
            !disk.is_failing(),
            !disk.is_protected(),
    {
        let mut sectors: Vec<Vec<u8>> = Vec::new();
        let mut i: u32 = 0;
        while i < sector_count
            invariant
                i <= sector_count,
                sectors@.len() == i,
                forall|k: int|
                    0 <= k < i ==> (#[trigger] sectors@[k])@ == Seq::new(
                        sector_size as nat,
                        |j: int| 0u8,
                    ),
            decreases sector_count - i,
        {
            let mut sector: Vec<u8> = Vec::new();
            let mut j: u32 = 0;
            while j < sector_size
                invariant
                    j <= sector_size,
                    sector@.len() == j,
                    forall|k: int| 0 <= k < j ==> #[trigger] sector@[k] == 0u8,
                decreases sector_size - j,
            {
                sector.push(0u8);
                j += 1;
            }
            assert(sector@ =~= Seq::new(sector_size as nat, |j: int| 0u8));
            sectors.push(sector);
            i += 1;
        }
        let disk = RamDisk { pdrv, sector_size, sectors, failing: false, protected: false };
        assert(disk.content() =~= Seq::new(
            sector_count as nat,
            |i: int| Seq::new(sector_size as nat, |j: int| 0u8),
        ));
        disk
    }

    /// Makes every later transfer fail, or work again.
    pub fn set_failing(&mut self, failing: bool)
        requires
            old(self).inv(),
        ensures
            final(self).inv(),
            final(self).is_failing() == failing,
            final(self).is_protected() == old(self).is_protected(),
            final(self).number() == old(self).number(),
            final(self).content() == old(self).content(),
            final(self).bytes_per_sector() == old(self).bytes_per_sector(),
    {
        self.failing = failing;
    }

    /// Makes the disk refuse writes, or accept them again.
    pub fn set_protected(&mut self, protected: bool)
        requires
            old(self).inv(),
        ensures
            final(self).inv(),
            final(self).is_protected() == protected,
            final(self).is_failing() == old(self).is_failing(),
            final(self).number() == old(self).number(),
            final(self).content() == old(self).content(),
            final(self).bytes_per_sector() == old(self).bytes_per_sector(),
    {
        self.protected = protected;
    }

    /// The number of sectors of the disk.
    pub fn sector_count(&self) -> (n: u32)
        requires
            self.inv(),
        ensures
            n == self.content().len(),
    {
        self.sectors.len() as u32
    }

    /// The byte at offset `offset` of sector `sector`, if there is one.
    pub fn peek(&self, sector: u32, offset: u32) -> (b: Option<u8>)
        requires
            self.inv(),
        ensures
            b == if sector < self.content().len() && offset < self.bytes_per_sector() {
                Some(self.content()[sector as int][offset as int])
            } else {
                None
            },
    {
        if (sector as usize) < self.sectors.len() && offset < self.sector_size {
            assert(self.content()[sector as int] == self.sectors@[sector as int]@);
            Some(self.sectors[sector as usize][offset as usize])
        } else {
            None
        }
    }
}

impl FatfsDiskHandler for RamDisk {
    closed spec fn drive(&self, pdrv: u8) -> Drive {
        if pdrv == self.pdrv {
            Drive {
                sectors: sector_views(self.sectors@),
                sector_size: self.sector_size as nat,
                dependable: !self.failing && !self.protected,
            }
        } else {
            Drive { sectors: Seq::empty(), sector_size: 0, dependable: false }
        }
    }

    closed spec fn inv(&self) -> bool {
        &&& self.sectors@.len() <= u32::MAX
        &&& forall|i: int|
            0 <= i < self.sectors@.len() ==> (#[trigger] self.sectors@[i])@.len() == self.sector_size
    }

    proof fn inv_shape(&self, pdrv: u8) {
    }

    /// `STA_NOINIT` for a drive that the disk does not answer for,
    /// `STA_PROTECT` where it refuses writes, and no flag else.
    open spec fn status(&self, pdrv: u8) -> DSTATUS {
        if pdrv != self.number() {
            STA_NOINIT
        } else if self.is_protected() {
            STA_PROTECT
        } else {
            0
        }
    }

    /// The disk has nothing to prepare.
    open spec fn ready_status(&self, pdrv: u8) -> DSTATUS {
        self.status(pdrv)
    }

    /// `RES_NOTRDY` for a drive that the disk does not answer for,
    /// `RES_PARERR` for a range that is empty or does not lie within the
    /// disk, `RES_ERROR` where the disk was told to fail, and `RES_OK`
    /// else.
    open spec fn read_code(&self, pdrv: u8, sector: u32, count: u32) -> DRESULT {
        if pdrv != self.number() {
            DRESULT::RES_NOTRDY
        } else if count == 0 || sector + count > self.content().len() {
            DRESULT::RES_PARERR
        } else if self.is_failing() {
            DRESULT::RES_ERROR
        } else {
            DRESULT::RES_OK
        }
    }

    /// `RES_NOTRDY` for a drive that the disk does not answer for,
    /// `RES_PARERR` for a range that is empty or does not lie within the
    /// disk and for a buffer that does not hold whole sectors, `RES_WRPRT`
    /// where the disk refuses writes, `RES_ERROR` where it was told to
    /// fail, and `RES_OK` else.
    open spec fn write_code(&self, pdrv: u8, buf: &Vec<u8>, sector: u32, count: u32) -> DRESULT {
        if pdrv != self.number() {
            DRESULT::RES_NOTRDY
        } else if count == 0 || sector + count > self.content().len() {
            DRESULT::RES_PARERR
        } else if buf@.len() != count * self.bytes_per_sector() {
            DRESULT::RES_PARERR
        } else if self.is_protected() {
            DRESULT::RES_WRPRT
        } else if self.is_failing() {
            DRESULT::RES_ERROR
        } else {
            DRESULT::RES_OK
        }
    }

    /// `RES_NOTRDY` for a drive that the disk does not answer for,
    /// `RES_OK` for the requests that it knows, and `RES_PARERR` else.
    open spec fn ioctl_code(&self, pdrv: u8, cmd: u8, arg: IoctlArg) -> DRESULT {
        if pdrv != self.number() {
            DRESULT::RES_NOTRDY
        } else if cmd == CTRL_SYNC || cmd == GET_SECTOR_COUNT || cmd == GET_SECTOR_SIZE || cmd
            == GET_BLOCK_SIZE {
            DRESULT::RES_OK
        } else {
            DRESULT::RES_PARERR
        }
    }

    fn disk_status(&mut self, pdrv: u8) -> (status: DSTATUS) {
        if pdrv != self.pdrv {
            STA_NOINIT
        } else if self.protected {
            STA_PROTECT
        } else {
            0
        }
    }

    fn disk_initialize(&mut self, pdrv: u8) -> (status: DSTATUS) {
        self.disk_status(pdrv)
    }

    fn disk_read(&mut self, pdrv: u8, buf: &mut Vec<u8>, sector: u32, count: u32) -> (r: DRESULT) {
        if pdrv != self.pdrv {
            return DRESULT::RES_NOTRDY;
        }
        if count == 0 || sector as u64 + count as u64 > self.sectors.len() as u64 {
            return DRESULT::RES_PARERR;
        }
        if self.failing {
            return DRESULT::RES_ERROR;
        }
        buf.clear();
        let ghost disk = sector_views(self.sectors@);
        let total: usize = self.sectors.len();
        let mut k: u32 = 0;
        while k < count
            invariant
                k <= count,
                total == self.sectors@.len(),
                sector + count <= self.sectors@.len(),
                disk == sector_views(self.sectors@),
                buf@ == flat(disk, sector as int, k as int),
            decreases count - k,
        {
            let src = &self.sectors[sector as usize + k as usize];
            let mut j: usize = 0;
            let ghost before = buf@;
            while j < src.len()
                invariant
                    j <= src.len(),
                    buf@ == before + src@.subrange(0, j as int),
                decreases src.len() - j,
            {
                buf.push(src[j]);
                j += 1;
                assert(buf@ =~= before + src@.subrange(0, j as int));
            }
            assert(src@.subrange(0, src.len() as int) =~= src@);
            assert(disk[sector + k] == src@);
            k += 1;
        }
        DRESULT::RES_OK
    }

    fn disk_write(&mut self, pdrv: u8, buf: &Vec<u8>, sector: u32, count: u32) -> (r: DRESULT) {
        if pdrv != self.pdrv {
            return DRESULT::RES_NOTRDY;
        }
        if count == 0 || sector as u64 + count as u64 > self.sectors.len() as u64 {
            return DRESULT::RES_PARERR;
        }
        assert(count * self.sector_size <= 0xffff_ffff * 0xffff_ffff) by (nonlinear_arith)
            requires
                count <= 0xffff_ffff,
                self.sector_size <= 0xffff_ffff,
        ;
        if buf.len() as u64 != count as u64 * self.sector_size as u64 {
            return DRESULT::RES_PARERR;
        }
        if self.protected {
            return DRESULT::RES_WRPRT;
        }
        if self.failing {
            return DRESULT::RES_ERROR;
        }
        let ghost disk = sector_views(self.sectors@);
        let size = self.sector_size as usize;
        let total: usize = self.sectors.len();
        let given: usize = buf.len();
        let mut k: u32 = 0;
        while k < count
            invariant
                k <= count,
                total == self.sectors@.len(),
                given == buf@.len(),
                sector + count <= self.sectors@.len(),
                self.sectors@.len() == disk.len(),
                size == self.sector_size,
                buf@.len() == count * size,
                self.inv(),
                self.pdrv == old(self).pdrv,
                self.sector_size == old(self).sector_size,
                self.failing == old(self).failing,
                self.protected == old(self).protected,
                forall|i: int|
                    0 <= i < disk.len() ==> #[trigger] sector_views(self.sectors@)[i] == if sector
                        <= i < sector + k {
                        buf@.subrange((i - sector) * size, (i - sector + 1) * size)
                    } else {
                        disk[i]
                    },
            decreases count - k,
        {
            let mut fresh: Vec<u8> = Vec::new();
            assert(k * size + size <= count * size && 0 <= k * size) by (nonlinear_arith)
                requires
                    0 <= k < count,
                    0 <= size,
            ;
            let base: usize = k as usize * size;
            let mut j: usize = 0;
            while j < size
                invariant
                    j <= size,
                    given == buf@.len(),
                    base + size <= buf@.len(),
                    fresh@ == buf@.subrange(base as int, base + j),
                decreases size - j,
            {
                fresh.push(buf[base + j]);
                j += 1;
                assert(fresh@ =~= buf@.subrange(base as int, base + j));
            }
            assert((k + 1) * size == k * size + size) by (nonlinear_arith);
            let ghost prior = sector_views(self.sectors@);
            self.sectors[sector as usize + k as usize] = fresh;
            assert(sector_views(self.sectors@) =~= prior.update(sector + k, fresh@));
            k += 1;
            assert forall|i: int| 0 <= i < disk.len() implies #[trigger] sector_views(
                self.sectors@,
            )[i] == if sector <= i < sector + k {
                buf@.subrange((i - sector) * size, (i - sector + 1) * size)
            } else {
                disk[i]
            } by {
                assert(sector_views(self.sectors@)[i] == prior.update(sector + k - 1, fresh@)[i]);
                if i != sector + k - 1 {
                    assert(sector_views(self.sectors@)[i] == prior[i]);
                }
            }
        }
        assert(sector_views(self.sectors@) =~= stored(
            disk,
            sector as int,
            count as int,
            buf@,
            size as nat,
        ));
        DRESULT::RES_OK
    }

    fn disk_ioctl(&mut self, pdrv: u8, cmd: u8, arg: &mut IoctlArg) -> (r: DRESULT) {
        if pdrv != self.pdrv {
            return DRESULT::RES_NOTRDY;
        }
        if cmd == CTRL_SYNC {
            DRESULT::RES_OK
        } else if cmd == GET_SECTOR_COUNT {
            arg.value = self.sectors.len() as u32;
            DRESULT::RES_OK
        } else if cmd == GET_SECTOR_SIZE {
            arg.value = self.sector_size;
            DRESULT::RES_OK
        } else if cmd == GET_BLOCK_SIZE {
            arg.value = 1;
            DRESULT::RES_OK
        } else {
            DRESULT::RES_PARERR
        }
    }
}

/// What the storage contract sees of a `RamDisk`: the drive it answers for
/// holds its sectors and is dependable unless the disk was told to fail or
/// to refuse writes; every other drive is empty.
pub proof fn lemma_ramdisk_drive(disk: &RamDisk, pdrv: u8)
    ensures
        pdrv == disk.number() ==> disk.drive(pdrv) == (Drive {
            sectors: disk.content(),
            sector_size: disk.bytes_per_sector(),
            dependable: !disk.is_failing() && !disk.is_protected(),
        }),
        pdrv != disk.number() ==> disk.drive(pdrv).sectors.len() == 0 && !disk.drive(
            pdrv,
        ).dependable,
{
}

} // verus!
