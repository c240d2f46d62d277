use fatfs::diskio::{
    disk_initialize, disk_ioctl, disk_read, disk_status, disk_write, initialize_by_status, outcome,
    read_sector, sync_drive, write_sector, Drive,
    FatfsDiskHandler, IoctlArg, CTRL_SYNC, DRESULT, DSTATUS, GET_SECTOR_COUNT, GET_SECTOR_SIZE,
};
use fatfs::error::FsError;
use fatfs::ramdisk::RamDisk;

struct Flaky {
    inner: RamDisk,
    left: u32,
}

impl FatfsDiskHandler for Flaky {
    fn drive(&self, _pdrv: u8) -> Drive {
        unreachable!()
    }

    fn inv(&self) -> bool {
        unreachable!()
    }

    fn inv_shape(&self, _pdrv: u8) {}

    fn status(&self, _pdrv: u8) -> DSTATUS {
        unreachable!()
    }

    fn ready_status(&self, _pdrv: u8) -> DSTATUS {
        unreachable!()
    }

    fn read_code(&self, _pdrv: u8, _sector: u32, _count: u32) -> DRESULT {
        unreachable!()
    }

    fn write_code(&self, _pdrv: u8, _buf: &Vec<u8>, _sector: u32, _count: u32) -> DRESULT {
        unreachable!()
    }

    fn ioctl_code(&self, _pdrv: u8, _cmd: u8, _arg: IoctlArg) -> DRESULT {
        unreachable!()
    }

    fn disk_status(&mut self, pdrv: u8) -> DSTATUS {
        self.inner.disk_status(pdrv)
    }

    fn disk_initialize(&mut self, pdrv: u8) -> DSTATUS {
        self.inner.disk_initialize(pdrv)
    }

    fn disk_read(&mut self, pdrv: u8, buf: &mut Vec<u8>, sector: u32, count: u32) -> DRESULT {
        if self.left == 0 {
            return DRESULT::RES_ERROR;
        }
        self.left -= 1;
        self.inner.disk_read(pdrv, buf, sector, count)
    }

    fn disk_write(&mut self, pdrv: u8, buf: &Vec<u8>, sector: u32, count: u32) -> DRESULT {
        self.inner.disk_write(pdrv, buf, sector, count)
    }

    fn disk_ioctl(&mut self, pdrv: u8, cmd: u8, arg: &mut IoctlArg) -> DRESULT {
        self.inner.disk_ioctl(pdrv, cmd, arg)
    }
}

#[test]
fn ramdisk_sector_round_trip() {
    let mut disk = RamDisk::new(0, 512, 16);
    let data: Vec<u8> = (0..512u32).map(|i| (i % 251) as u8).collect();
    assert_eq!(write_sector(&mut disk, 0, 3, &data), Ok(()));
    assert_eq!(read_sector(&mut disk, 0, 3), Ok(data));
    assert_eq!(read_sector(&mut disk, 0, 4), Ok(vec![0u8; 512]));
}

#[test]
fn user_handler_errors_are_handed_on() {
    let mut disk = Flaky { inner: RamDisk::new(0, 512, 16), left: 1 };
    assert!(read_sector(&mut disk, 0, 0).is_ok());
    assert_eq!(read_sector(&mut disk, 0, 0), Err(FsError::IOError));
}

#[test]
fn ramdisk_reports_its_geometry() {
    let mut disk = RamDisk::new(2, 1024, 40);
    let mut arg = IoctlArg { value: 0, end: 0 };
    assert!(disk_ioctl(&mut disk, 2, GET_SECTOR_COUNT, &mut arg) == DRESULT::RES_OK);
    assert_eq!(arg.value, 40);
    assert!(disk_ioctl(&mut disk, 2, GET_SECTOR_SIZE, &mut arg) == DRESULT::RES_OK);
    assert_eq!(arg.value, 1024);
    let mut buf: Vec<u8> = Vec::new();
    assert!(disk_read(&mut disk, 2, &mut buf, 38, 2) == DRESULT::RES_OK);
    assert_eq!(buf.len(), 2048);
    assert!(disk_read(&mut disk, 2, &mut buf, 39, 2) == DRESULT::RES_PARERR);
    assert!(disk_write(&mut disk, 2, &buf, 0, 1) == DRESULT::RES_PARERR);
    assert!(disk_read(&mut disk, 1, &mut buf, 0, 1) == DRESULT::RES_NOTRDY);
}

/// A driver that answers every control request with `answer`, and keeps
/// the requests that it was given.
struct Answering {
    answer: DRESULT,
    asked: Vec<(u8, u8)>,
}

impl FatfsDiskHandler for Answering {
    fn drive(&self, _pdrv: u8) -> Drive {
        unreachable!()
    }

    fn inv(&self) -> bool {
        unreachable!()
    }

    fn inv_shape(&self, _pdrv: u8) {}

    fn status(&self, _pdrv: u8) -> DSTATUS {
        unreachable!()
    }

    fn ready_status(&self, _pdrv: u8) -> DSTATUS {
        unreachable!()
    }

    fn read_code(&self, _pdrv: u8, _sector: u32, _count: u32) -> DRESULT {
        unreachable!()
    }

    fn write_code(&self, _pdrv: u8, _buf: &Vec<u8>, _sector: u32, _count: u32) -> DRESULT {
        unreachable!()
    }

    fn ioctl_code(&self, _pdrv: u8, _cmd: u8, _arg: IoctlArg) -> DRESULT {
        unreachable!()
    }

    fn disk_status(&mut self, _pdrv: u8) -> DSTATUS {
        0
    }

    fn disk_initialize(&mut self, pdrv: u8) -> DSTATUS {
        initialize_by_status(self, pdrv)
    }

    fn disk_read(&mut self, _pdrv: u8, _buf: &mut Vec<u8>, _sector: u32, _count: u32) -> DRESULT {
        DRESULT::RES_ERROR
    }

    fn disk_write(&mut self, _pdrv: u8, _buf: &Vec<u8>, _sector: u32, _count: u32) -> DRESULT {
        DRESULT::RES_ERROR
    }

    fn disk_ioctl(&mut self, pdrv: u8, cmd: u8, _arg: &mut IoctlArg) -> DRESULT {
        self.asked.push((pdrv, cmd));
        self.answer
    }
}

#[test]
fn the_answer_of_the_driver_becomes_the_outcome() {
    assert_eq!(outcome(DRESULT::RES_OK), Ok(()));
    assert_eq!(outcome(DRESULT::RES_ERROR), Err(FsError::IOError));
    assert_eq!(outcome(DRESULT::RES_WRPRT), Err(FsError::WriteProtected));
    assert_eq!(outcome(DRESULT::RES_NOTRDY), Err(FsError::NotReady));
    assert_eq!(outcome(DRESULT::RES_PARERR), Err(FsError::InvalidParameter));
}

#[test]
fn a_sync_asks_the_driver_once_and_hands_its_answer_on() {
    for (answer, expected) in [
        (DRESULT::RES_OK, Ok(())),
        (DRESULT::RES_ERROR, Err(FsError::IOError)),
        (DRESULT::RES_WRPRT, Err(FsError::WriteProtected)),
        (DRESULT::RES_NOTRDY, Err(FsError::NotReady)),
        (DRESULT::RES_PARERR, Err(FsError::InvalidParameter)),
    ] {
        let mut driver = Answering { answer, asked: Vec::new() };
        assert_eq!(sync_drive(&mut driver, 3), expected);
        assert_eq!(driver.asked, vec![(3u8, CTRL_SYNC)]);
    }
}

#[test]
fn a_ramdisk_completes_its_writes_at_once() {
    let mut disk = RamDisk::new(1, 512, 4);
    assert_eq!(write_sector(&mut disk, 1, 2, &vec![9u8; 512]), Ok(()));
    assert_eq!(sync_drive(&mut disk, 1), Ok(()));
    assert_eq!(read_sector(&mut disk, 1, 2), Ok(vec![9u8; 512]));
    // It answers for one drive only.
    assert_eq!(sync_drive(&mut disk, 0), Err(FsError::NotReady));
}

/// A driver that reports the status flags `flags`, and answers every read
/// and write with `answer`.
struct Flagged {
    flags: DSTATUS,
    started: DSTATUS,
    answer: DRESULT,
}

impl FatfsDiskHandler for Flagged {
    fn drive(&self, _pdrv: u8) -> Drive {
        unreachable!()
    }

    fn inv(&self) -> bool {
        unreachable!()
    }

    fn inv_shape(&self, _pdrv: u8) {}

    fn status(&self, _pdrv: u8) -> DSTATUS {
        unreachable!()
    }

    fn ready_status(&self, _pdrv: u8) -> DSTATUS {
        unreachable!()
    }

    fn read_code(&self, _pdrv: u8, _sector: u32, _count: u32) -> DRESULT {
        unreachable!()
    }

    fn write_code(&self, _pdrv: u8, _buf: &Vec<u8>, _sector: u32, _count: u32) -> DRESULT {
        unreachable!()
    }

    fn ioctl_code(&self, _pdrv: u8, _cmd: u8, _arg: IoctlArg) -> DRESULT {
        unreachable!()
    }

    fn disk_status(&mut self, _pdrv: u8) -> DSTATUS {
        self.flags
    }

    fn disk_initialize(&mut self, _pdrv: u8) -> DSTATUS {
        self.started
    }

    fn disk_read(&mut self, _pdrv: u8, _buf: &mut Vec<u8>, _sector: u32, _count: u32) -> DRESULT {
        self.answer
    }

    fn disk_write(&mut self, _pdrv: u8, _buf: &Vec<u8>, _sector: u32, _count: u32) -> DRESULT {
        self.answer
    }

    fn disk_ioctl(&mut self, _pdrv: u8, _cmd: u8, _arg: &mut IoctlArg) -> DRESULT {
        self.answer
    }
}

#[test]
fn the_status_and_the_answers_are_the_drivers() {
    for answer in [
        DRESULT::RES_ERROR,
        DRESULT::RES_WRPRT,
        DRESULT::RES_NOTRDY,
        DRESULT::RES_PARERR,
    ] {
        let mut driver = Flagged { flags: 0x05, started: 0x02, answer };
        assert_eq!(disk_status(&mut driver, 0), 0x05);
        assert_eq!(disk_initialize(&mut driver, 0), 0x02);
        assert_eq!(initialize_by_status(&mut driver, 0), 0x05);
        let mut buf = vec![1u8, 2, 3];
        assert!(disk_read(&mut driver, 0, &mut buf, 0, 1) == answer);
        assert!(disk_write(&mut driver, 0, &buf, 0, 1) == answer);
        let mut arg = IoctlArg { value: 0, end: 0 };
        assert!(disk_ioctl(&mut driver, 0, GET_SECTOR_COUNT, &mut arg) == answer);
        assert_eq!(read_sector(&mut driver, 0, 0), outcome(answer).map(|_| Vec::new()));
        assert_eq!(write_sector(&mut driver, 0, 0, &buf), outcome(answer));
    }
}

#[test]
fn a_ramdisk_that_refuses_writes_says_so() {
    let mut disk = RamDisk::new(0, 512, 4);
    disk.set_protected(true);
    assert_eq!(disk_status(&mut disk, 0), 0x04);
    assert_eq!(disk_initialize(&mut disk, 0), 0x04);
    assert_eq!(disk_status(&mut disk, 1), 0x01);
    let data = vec![7u8; 512];
    assert!(disk_write(&mut disk, 0, &data, 0, 1) == DRESULT::RES_WRPRT);
    assert_eq!(write_sector(&mut disk, 0, 0, &data), Err(FsError::WriteProtected));
    assert_eq!(read_sector(&mut disk, 0, 0), Ok(vec![0u8; 512]));
    disk.set_protected(false);
    disk.set_failing(true);
    assert_eq!(disk_status(&mut disk, 0), 0);
    assert!(disk_write(&mut disk, 0, &data, 0, 1) == DRESULT::RES_ERROR);
    let mut buf = Vec::new();
    assert!(disk_read(&mut disk, 0, &mut buf, 0, 1) == DRESULT::RES_ERROR);
    assert!(disk_write(&mut disk, 0, &data, 4, 1) == DRESULT::RES_PARERR);
    assert!(disk_write(&mut disk, 0, &vec![7u8; 511], 0, 1) == DRESULT::RES_PARERR);
}
