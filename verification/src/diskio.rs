//! The storage contract: what the filesystem engine asks of the driver that
//! moves sectors to and from the medium, and the thin adapter through which
//! every other module reaches that driver.

use vstd::prelude::*;
use crate::error::FsError;

verus! {

/// Outcome of one request to the storage driver.
#[derive(Clone, Copy, Debug, PartialEq, Eq, Structural)]
pub enum DRESULT {
    /// The request completed.
    RES_OK,
    /// A read or write failed on the medium.
    RES_ERROR,
    /// The medium is write protected.
    RES_WRPRT,
    /// The drive is not ready.
    RES_NOTRDY,
    /// A parameter of the request is invalid.
    RES_PARERR,
}

/// Status flags of a drive, a combination of the `STA_*` bits.
pub type DSTATUS = u8;

/// The drive has not been initialised.
pub const STA_NOINIT: DSTATUS = 0x01;

/// There is no medium in the drive.
pub const STA_NODISK: DSTATUS = 0x02;

/// The medium is write protected.
pub const STA_PROTECT: DSTATUS = 0x04;

/// `disk_ioctl` command: complete every pending write.
pub const CTRL_SYNC: u8 = 0;

/// `disk_ioctl` command: report the number of sectors of the drive.
pub const GET_SECTOR_COUNT: u8 = 1;

/// `disk_ioctl` command: report the size of a sector in bytes.
pub const GET_SECTOR_SIZE: u8 = 2;

/// `disk_ioctl` command: report the erase block size in sectors.
pub const GET_BLOCK_SIZE: u8 = 3;

/// `disk_ioctl` command: the sectors of a range hold no data any longer.
pub const CTRL_TRIM: u8 = 4;

/// Argument and answer of a `disk_ioctl` request.
///
/// The `GET_*` commands store their answer in `value`. `CTRL_TRIM` reads the
/// first sector of the range from `value` and its last sector from `end`.
#[derive(Clone, Copy, Debug)]
pub struct IoctlArg {
    pub value: u32,
    pub end: u32,
}

/// What the contracts know of one drive: its sectors, the size of each, and
/// whether the driver answers every request within the drive with `RES_OK`.
pub struct Drive {
    pub sectors: Seq<Seq<u8>>,
    pub sector_size: nat,
    pub dependable: bool,
}

impl Drive {
    /// Every sector has the drive's sector size, and a `u32` holds the
    /// sector count and the sector size.
    pub open spec fn wf(self) -> bool {
        &&& sectors_of_size(self.sectors, self.sector_size)
        &&& self.sectors.len() <= u32::MAX
        &&& self.sector_size <= u32::MAX
    }

    /// The drive with other sectors.
    pub open spec fn with(self, sectors: Seq<Seq<u8>>) -> Drive {
        Drive { sectors, sector_size: self.sector_size, dependable: self.dependable }
    }

    /// `other` is this drive but for the content of sectors for which
    /// `touched` holds.
    pub open spec fn same_but(self, other: Drive, touched: spec_fn(int) -> bool) -> bool {
        &&& other.sector_size == self.sector_size
        &&& other.dependable == self.dependable
        &&& other.sectors.len() == self.sectors.len()
        &&& forall|i: int|
            0 <= i < self.sectors.len() && !touched(i) ==> #[trigger] other.sectors[i]
                == self.sectors[i]
    }
}

/// Every sector of `disk` holds exactly `size` bytes.
pub open spec fn sectors_of_size(disk: Seq<Seq<u8>>, size: nat) -> bool {
    forall|i: int| 0 <= i < disk.len() ==> (#[trigger] disk[i]).len() == size
}

/// The bytes of `count` consecutive sectors of `disk`, from sector `start` on.
pub open spec fn flat(disk: Seq<Seq<u8>>, start: int, count: int) -> Seq<u8>
    decreases count,
{
    if count <= 0 {
        Seq::empty()
    } else {
        flat(disk, start, count - 1) + disk[start + count - 1]
    }
}

/// `disk` after `data` has been stored in the `count` sectors from `start` on,
/// `size` bytes to each sector.
pub open spec fn stored(disk: Seq<Seq<u8>>, start: int, count: int, data: Seq<u8>, size: nat) -> Seq<
    Seq<u8>,
> {
    Seq::new(
        disk.len(),
        |i: int|
            if start <= i < start + count {
                data.subrange((i - start) * size, (i - start + 1) * size)
            } else {
                disk[i]
            },
    )
}

/// A request for `count` sectors from `sector` on lies within `disk`.
pub open spec fn in_range(disk: Seq<Seq<u8>>, sector: u32, count: u32) -> bool {
    1 <= count && sector + count <= disk.len()
}

/// One sector read as `flat` sees it.
pub proof fn lemma_flat_one(disk: Seq<Seq<u8>>, start: int)
    ensures
        flat(disk, start, 1) == disk[start],
{
    reveal_with_fuel(flat, 2);
    assert(flat(disk, start, 1) =~= disk[start]);
}

/// The length of `count` sectors of `size` bytes each.
pub proof fn lemma_flat_len(disk: Seq<Seq<u8>>, start: int, count: int, size: nat)
    requires
        sectors_of_size(disk, size),
        0 <= start,
        0 <= count,
        start + count <= disk.len(),
    ensures
        flat(disk, start, count).len() == count * size,
    decreases count,
{
    if count > 0 {
        lemma_flat_len(disk, start, count - 1, size);
        assert(disk[start + count - 1].len() == size);
        assert((count - 1) * size + size == count * size) by (nonlinear_arith);
    } else {
        assert(count * size == 0) by (nonlinear_arith)
            requires
                count == 0,
        ;
    }
}

/// One sector stored as `stored` sees it.
pub proof fn lemma_stored_one(disk: Seq<Seq<u8>>, start: int, data: Seq<u8>, size: nat)
    requires
        0 <= start < disk.len(),
        data.len() == size,
    ensures
        stored(disk, start, 1, data, size) == disk.update(start, data),
{
    assert(data.subrange(0 * (size as int), 1 * (size as int)) =~= data);
    assert(stored(disk, start, 1, data, size) =~= disk.update(start, data));
}

/// The driver that the user of the engine provides: it moves whole sectors
/// between caller-owned buffers and the media of its drives.
///
/// The contract speaks of a model of each drive, a `Drive`, and of the
/// answers that the driver gives in its present state: each method gives
/// the answer that the spec function of its name stands for. Of a drive
/// that is not dependable a contract says what holds when a request
/// happens to succeed, and what a failed request leaves untouched.
pub trait FatfsDiskHandler: Sized {
    /// The model of drive `pdrv`.
    spec fn drive(&self, pdrv: u8) -> Drive;

    /// The driver's own invariant.
    spec fn inv(&self) -> bool;

    /// The invariant makes the model of every drive well formed.
    proof fn inv_shape(&self, pdrv: u8)
        requires
            self.inv(),
        ensures
            self.drive(pdrv).wf(),
    ;

    /// The status flags that the driver reports for drive `pdrv`.
    spec fn status(&self, pdrv: u8) -> DSTATUS;

    /// The status flags that the driver reports for drive `pdrv` when it is
    /// asked to prepare the drive.
    spec fn ready_status(&self, pdrv: u8) -> DSTATUS;

    /// The driver's answer to a request to read `count` sectors of drive
    /// `pdrv` from `sector` on.
    spec fn read_code(&self, pdrv: u8, sector: u32, count: u32) -> DRESULT;

    /// The driver's answer to a request to write the bytes of `buf` to the
    /// `count` sectors of drive `pdrv` from `sector` on.
    spec fn write_code(&self, pdrv: u8, buf: &Vec<u8>, sector: u32, count: u32) -> DRESULT;

    /// The driver's answer to the control request `cmd` on drive `pdrv`.
    spec fn ioctl_code(&self, pdrv: u8, cmd: u8, arg: IoctlArg) -> DRESULT;

    /// Reports the status flags of drive `pdrv`.
    fn disk_status(&mut self, pdrv: u8) -> (status: DSTATUS)
        requires
            old(self).inv(),
        ensures
            final(self).inv(),
            final(self).drive(pdrv) == old(self).drive(pdrv),
            status == old(self).status(pdrv),
            old(self).drive(pdrv).dependable ==> status == 0,
    ;

    /// Prepares drive `pdrv` for use and reports its status flags. See
    /// `initialize_by_status` for a driver that has nothing to prepare.
    fn disk_initialize(&mut self, pdrv: u8) -> (status: DSTATUS)
        requires
            old(self).inv(),
        ensures
            final(self).inv(),
            final(self).drive(pdrv) == old(self).drive(pdrv),
            status == old(self).ready_status(pdrv),
            old(self).drive(pdrv).dependable ==> status == 0,
    ;

    /// Reads `count` sectors of drive `pdrv`, from `sector` on, into `buf`,
    /// whose former content is replaced.
    fn disk_read(&mut self, pdrv: u8, buf: &mut Vec<u8>, sector: u32, count: u32) -> (r: DRESULT)
        requires
            old(self).inv(),
        ensures
            final(self).inv(),
            final(self).drive(pdrv) == old(self).drive(pdrv),
            r == old(self).read_code(pdrv, sector, count),
            read_answer(old(self).drive(pdrv), sector, count, r, final(buf)@),
    ;

    /// Writes the bytes of `buf` to the `count` sectors of drive `pdrv` from
    /// `sector` on. A failed write may leave any bytes in those sectors.
    fn disk_write(&mut self, pdrv: u8, buf: &Vec<u8>, sector: u32, count: u32) -> (r: DRESULT)
        requires
            old(self).inv(),
        ensures
            final(self).inv(),
            r == old(self).write_code(pdrv, buf, sector, count),
            write_answer(old(self).drive(pdrv), buf@, sector, count, r, final(self).drive(pdrv)),
    ;

    /// Carries out the control request `cmd` on drive `pdrv`.
    ///
    /// `GET_SECTOR_COUNT` and `GET_SECTOR_SIZE` answer in `arg.value`. Only
    /// `CTRL_TRIM` may change what the drive holds, and only in the sectors
    /// from `arg.value` to `arg.end`.
    fn disk_ioctl(&mut self, pdrv: u8, cmd: u8, arg: &mut IoctlArg) -> (r: DRESULT)
        requires
            old(self).inv(),
        ensures
            final(self).inv(),
            r == old(self).ioctl_code(pdrv, cmd, *old(arg)),
            ioctl_answer(
                old(self).drive(pdrv),
                cmd,
                *old(arg),
                r,
                *final(arg),
                final(self).drive(pdrv),
            ),
    ;
}

/// What `disk_read` promises: a successful read lay within the drive and
/// filled the buffer with the sectors' bytes; a dependable drive answers a
/// read within it with `RES_OK`.
pub open spec fn read_answer(d: Drive, sector: u32, count: u32, r: DRESULT, buf: Seq<u8>) -> bool {
    &&& r == DRESULT::RES_OK ==> in_range(d.sectors, sector, count) && buf == flat(
        d.sectors,
        sector as int,
        count as int,
    )
    &&& d.dependable && in_range(d.sectors, sector, count) ==> r == DRESULT::RES_OK
}

/// What `disk_write` promises: sectors outside the request keep their
/// content; a successful write lay within the drive, brought whole sectors
/// and stored them; a dependable drive answers such a write with `RES_OK`.
pub open spec fn write_answer(
    d: Drive,
    buf: Seq<u8>,
    sector: u32,
    count: u32,
    r: DRESULT,
    after: Drive,
) -> bool {
    &&& d.same_but(after, |i: int| sector <= i < sector + count)
    &&& r == DRESULT::RES_OK ==> in_range(d.sectors, sector, count) && buf.len() == count
        * d.sector_size && after.sectors == stored(
        d.sectors,
        sector as int,
        count as int,
        buf,
        d.sector_size,
    )
    &&& d.dependable && in_range(d.sectors, sector, count) && buf.len() == count * d.sector_size
        ==> r == DRESULT::RES_OK
}

/// What `disk_ioctl` promises: only `CTRL_TRIM` changes sectors, and only
/// those of its range; the two `GET_*` commands that the engine uses answer
/// with the drive's sector count and sector size; a dependable drive
/// answers these and `CTRL_SYNC` with `RES_OK`.
pub open spec fn ioctl_answer(
    d: Drive,
    cmd: u8,
    arg: IoctlArg,
    r: DRESULT,
    answer: IoctlArg,
    after: Drive,
) -> bool {
    &&& d.same_but(after, |i: int| cmd == CTRL_TRIM && arg.value <= i <= arg.end)
    &&& r == DRESULT::RES_OK && cmd == GET_SECTOR_COUNT ==> answer.value == d.sectors.len()
    &&& r == DRESULT::RES_OK && cmd == GET_SECTOR_SIZE ==> answer.value == d.sector_size
    &&& d.dependable && (cmd == CTRL_SYNC || cmd == GET_SECTOR_COUNT || cmd == GET_SECTOR_SIZE)
        ==> r == DRESULT::RES_OK
}

/// Reports the status flags of drive `pdrv` of `handler`.
pub fn disk_status<H: FatfsDiskHandler>(handler: &mut H, pdrv: u8) -> (status: DSTATUS)
    requires
        old(handler).inv(),
    ensures
        final(handler).inv(),
        final(handler).drive(pdrv) == old(handler).drive(pdrv),
        status == old(handler).status(pdrv),
        old(handler).drive(pdrv).dependable ==> status == 0,
{
    handler.disk_status(pdrv)
}

/// Reports the status flags of drive `pdrv` in place of preparing the
/// drive: the answer to `disk_initialize` of a driver that has nothing to
/// prepare.
pub fn initialize_by_status<H: FatfsDiskHandler>(handler: &mut H, pdrv: u8) -> (status: DSTATUS)
    requires
        old(handler).inv(),
    ensures
        final(handler).inv(),
        final(handler).drive(pdrv) == old(handler).drive(pdrv),
        status == old(handler).status(pdrv),
        old(handler).drive(pdrv).dependable ==> status == 0,
{
    handler.disk_status(pdrv)
}

/// Prepares drive `pdrv` of `handler` for use and reports its status flags.
pub fn disk_initialize<H: FatfsDiskHandler>(handler: &mut H, pdrv: u8) -> (status: DSTATUS)
    requires
        old(handler).inv(),
    ensures
        final(handler).inv(),
        final(handler).drive(pdrv) == old(handler).drive(pdrv),
        status == old(handler).ready_status(pdrv),
        old(handler).drive(pdrv).dependable ==> status == 0,
{
    handler.disk_initialize(pdrv)
}

/// Reads `count` sectors of drive `pdrv`, from `sector` on, into `buf`. The
/// driver's answer is handed on as it is.
pub fn disk_read<H: FatfsDiskHandler>(
    handler: &mut H,
    pdrv: u8,
    buf: &mut Vec<u8>,
    sector: u32,
    count: u32,
) -> (r: DRESULT)
    requires
        old(handler).inv(),
    ensures
        final(handler).inv(),
        final(handler).drive(pdrv) == old(handler).drive(pdrv),
        r == old(handler).read_code(pdrv, sector, count),
        read_answer(old(handler).drive(pdrv), sector, count, r, final(buf)@),
{
    handler.disk_read(pdrv, buf, sector, count)
}

/// Writes `buf` to the `count` sectors of drive `pdrv` from `sector` on. The
/// driver's answer is handed on as it is.
pub fn disk_write<H: FatfsDiskHandler>(
    handler: &mut H,
    pdrv: u8,
    buf: &Vec<u8>,
    sector: u32,
    count: u32,
) -> (r: DRESULT)
    requires
        old(handler).inv(),
    ensures
        final(handler).inv(),
        r == old(handler).write_code(pdrv, buf, sector, count),
        write_answer(old(handler).drive(pdrv), buf@, sector, count, r, final(handler).drive(pdrv)),
{
    handler.disk_write(pdrv, buf, sector, count)
}

/// Carries out the control request `cmd` on drive `pdrv`. The driver's
/// answer is handed on as it is.
pub fn disk_ioctl<H: FatfsDiskHandler>(handler: &mut H, pdrv: u8, cmd: u8, arg: &mut IoctlArg) -> (r:
    DRESULT)
    requires
        old(handler).inv(),
    ensures
        final(handler).inv(),
        r == old(handler).ioctl_code(pdrv, cmd, *old(arg)),
        ioctl_answer(
            old(handler).drive(pdrv),
            cmd,
            *old(arg),
            r,
            *final(arg),
            final(handler).drive(pdrv),
        ),
{
    handler.disk_ioctl(pdrv, cmd, arg)
}

/// Reads sector `sector` of drive `pdrv`.
///
/// A dependable drive gives the sector whenever it exists; any failure is
/// reported as the error that stands for the driver's answer.
pub fn read_sector<H: FatfsDiskHandler>(handler: &mut H, pdrv: u8, sector: u32) -> (res: Result<
    Vec<u8>,
    FsError,
>)
    requires
        old(handler).inv(),
    ensures
        final(handler).inv(),
        final(handler).drive(pdrv) == old(handler).drive(pdrv),
        match res {
            Ok(bytes) => old(handler).read_code(pdrv, sector, 1) == DRESULT::RES_OK && sector < old(
                handler,
            ).drive(pdrv).sectors.len() && bytes@ == old(handler).drive(pdrv).sectors[sector as int],
            Err(e) => Err::<(), FsError>(e) == outcome_of(old(handler).read_code(pdrv, sector, 1))
                && e.is_device() && !(old(handler).drive(pdrv).dependable && sector < old(
                handler,
            ).drive(pdrv).sectors.len()),
        },
{
    let mut buf: Vec<u8> = Vec::new();
    let r = disk_read(handler, pdrv, &mut buf, sector, 1);
    match r {
        DRESULT::RES_OK => {
            proof {
                lemma_flat_one(old(handler).drive(pdrv).sectors, sector as int);
            }
            Ok(buf)
        },
        _ => Err(FsError::from_dresult(r)),
    }
}

/// Writes `data` to sector `sector` of drive `pdrv`.
///
/// A dependable drive stores a whole sector whenever the sector exists; any
/// failure is reported as the error that stands for the driver's answer, and
/// leaves every other sector as it was.
pub fn write_sector<H: FatfsDiskHandler>(handler: &mut H, pdrv: u8, sector: u32, data: &Vec<u8>) -> (res:
    Result<(), FsError>)
    requires
        old(handler).inv(),
    ensures
        final(handler).inv(),
        old(handler).drive(pdrv).same_but(final(handler).drive(pdrv), |i: int| i == sector),
        match res {
            Ok(_) => sector < old(handler).drive(pdrv).sectors.len() && data@.len() == old(
                handler,
            ).drive(pdrv).sector_size && final(handler).drive(pdrv).sectors == old(handler).drive(
                pdrv,
            ).sectors.update(sector as int, data@),
            Err(e) => e.is_device() && !(old(handler).drive(pdrv).dependable && sector < old(
                handler,
            ).drive(pdrv).sectors.len() && data@.len() == old(handler).drive(pdrv).sector_size),
        },
        res == outcome_of(old(handler).write_code(pdrv, data, sector, 1)),
{
    let r = disk_write(handler, pdrv, data, sector, 1);
    match r {
        DRESULT::RES_OK => {
            proof {
                lemma_stored_one(
                    old(handler).drive(pdrv).sectors,
                    sector as int,
                    data@,
                    old(handler).drive(pdrv).sector_size,
                );
            }
            Ok(())
        },
        _ => Err(FsError::from_dresult(r)),
    }
}

/// What the driver's answer `r` to a request that hands nothing back
/// comes to: success for `RES_OK`, else the error that stands for `r`.
pub open spec fn outcome_of(r: DRESULT) -> Result<(), FsError> {
    if r == DRESULT::RES_OK {
        Ok(())
    } else {
        Err(FsError::of_dresult(r))
    }
}

/// Translates the driver's answer to a request that hands nothing back.
pub fn outcome(r: DRESULT) -> (res: Result<(), FsError>)
    ensures
        res == outcome_of(r),
{
    match r {
        DRESULT::RES_OK => Ok(()),
        _ => Err(FsError::from_dresult(r)),
    }
}

/// Asks the driver of drive `pdrv` to complete every pending write, and
/// gives what `outcome` makes of the driver's answer.
///
/// The drive holds what it held. A dependable drive always answers with
/// success; any failure is reported as the error that stands for the
/// driver's answer.
pub fn sync_drive<H: FatfsDiskHandler>(handler: &mut H, pdrv: u8) -> (res: Result<(), FsError>)
    requires
        old(handler).inv(),
    ensures
        final(handler).inv(),
        final(handler).drive(pdrv) == old(handler).drive(pdrv),
        res == outcome_of(old(handler).ioctl_code(pdrv, CTRL_SYNC, IoctlArg { value: 0, end: 0 })),
        res is Err ==> res->Err_0.is_device() && !old(handler).drive(pdrv).dependable,
{
    let mut arg = IoctlArg { value: 0, end: 0 };
    let r = disk_ioctl(handler, pdrv, CTRL_SYNC, &mut arg);
    proof {
        let a = old(handler).drive(pdrv);
        let b = handler.drive(pdrv);
        assert(a.sectors =~= b.sectors);
    }
    outcome(r)
}

/// Asks the driver for the number of sectors of drive `pdrv`.
///
/// The drive holds what it held. A dependable drive always answers; any
/// failure is reported as the error that stands for the driver's answer.
pub fn sector_count<H: FatfsDiskHandler>(handler: &mut H, pdrv: u8) -> (res: Result<u32, FsError>)
    requires
        old(handler).inv(),
    ensures
        final(handler).inv(),
        final(handler).drive(pdrv) == old(handler).drive(pdrv),
        match res {
            Ok(n) => old(handler).ioctl_code(
                pdrv,
                GET_SECTOR_COUNT,
                IoctlArg { value: 0, end: 0 },
            ) == DRESULT::RES_OK && n == old(handler).drive(pdrv).sectors.len(),
            Err(e) => Err::<(), FsError>(e) == outcome_of(
                old(handler).ioctl_code(pdrv, GET_SECTOR_COUNT, IoctlArg { value: 0, end: 0 }),
            ) && e.is_device() && !old(handler).drive(pdrv).dependable,
        },
{
    let mut arg = IoctlArg { value: 0, end: 0 };
    let r = disk_ioctl(handler, pdrv, GET_SECTOR_COUNT, &mut arg);
    proof {
        let a = old(handler).drive(pdrv);
        let b = handler.drive(pdrv);
        assert(a.sectors =~= b.sectors);
    }
    match r {
        DRESULT::RES_OK => Ok(arg.value),
        _ => Err(FsError::from_dresult(r)),
    }
}

} // verus!
