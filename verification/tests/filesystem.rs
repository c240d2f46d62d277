use fatfs::diskio::{Drive, FatfsDiskHandler, IoctlArg, DRESULT, DSTATUS, STA_NODISK, STA_NOINIT};
use fatfs::dirent::Stamp;
use fatfs::error::FsError;
use fatfs::format::FormatOptions;
use fatfs::fs::{FatFs, Handle, OpenMode};
use fatfs::ramdisk::RamDisk;

fn u(s: &str) -> Vec<u16> {
    s.encode_utf16().collect()
}

fn options() -> FormatOptions {
    FormatOptions { sectors_per_cluster: 4, fat_count: 2, root_entries: 0, serial: 1 }
}

fn formatted() -> FatFs<RamDisk> {
    let mut fs = FatFs::new(RamDisk::new(0, 512, 16600), 0);
    assert_eq!(fs.format(0, &options()), Ok(()));
    fs
}

fn mounted() -> FatFs<RamDisk> {
    let mut fs = formatted();
    assert_eq!(fs.mount(), Ok(()));
    fs
}

fn rw() -> OpenMode {
    OpenMode { write: true, create: true, exclusive: false, truncate: false }
}

fn ro() -> OpenMode {
    OpenMode { write: false, create: false, exclusive: false, truncate: false }
}

// A driver that reports a status of its own and counts what it is asked.
struct Odd {
    inner: RamDisk,
    status: DSTATUS,
    writes: u32,
    fail_writes_after: Option<u32>,
}

impl FatfsDiskHandler for Odd {
    fn drive(&self, _pdrv: u8) -> Drive {
        unreachable!()
    }

    fn inv(&self) -> bool {
        unreachable!()
    }

    fn inv_shape(&self, _pdrv: u8) {}

    fn status(&self, _pdrv: u8) -> DSTATUS {
        unreachable!()
    }

    fn ready_status(&self, _pdrv: u8) -> DSTATUS {
        unreachable!()
    }

    fn read_code(&self, _pdrv: u8, _sector: u32, _count: u32) -> DRESULT {
        unreachable!()
    }

    fn write_code(&self, _pdrv: u8, _buf: &Vec<u8>, _sector: u32, _count: u32) -> DRESULT {
        unreachable!()
    }

    fn ioctl_code(&self, _pdrv: u8, _cmd: u8, _arg: IoctlArg) -> DRESULT {
        unreachable!()
    }

    fn disk_status(&mut self, _pdrv: u8) -> DSTATUS {
        self.status
    }

    fn disk_initialize(&mut self, _pdrv: u8) -> DSTATUS {
        self.status
    }

    fn disk_read(&mut self, pdrv: u8, buf: &mut Vec<u8>, sector: u32, count: u32) -> DRESULT {
        self.inner.disk_read(pdrv, buf, sector, count)
    }

    fn disk_write(&mut self, pdrv: u8, buf: &Vec<u8>, sector: u32, count: u32) -> DRESULT {
        if let Some(n) = self.fail_writes_after {
            if self.writes >= n {
                return DRESULT::RES_ERROR;
            }
        }
        self.writes += 1;
        self.inner.disk_write(pdrv, buf, sector, count)
    }

    fn disk_ioctl(&mut self, pdrv: u8, cmd: u8, arg: &mut IoctlArg) -> DRESULT {
        self.inner.disk_ioctl(pdrv, cmd, arg)
    }
}

fn odd(status: DSTATUS) -> Odd {
    let fs = formatted();
    Odd { inner: fs.release(), status, writes: 0, fail_writes_after: None }
}

#[test]
fn nothing_works_before_a_volume_is_mounted() {
    let mut fs = formatted();
    let h = Handle { slot: 0, serial: 0 };
    assert!(!fs.is_mounted());
    assert_eq!(fs.stat_volume(), Err(FsError::NotReady));
    assert_eq!(fs.open(&u("/a"), rw()).err(), Some(FsError::NotReady));
    assert_eq!(fs.open_dir(&u("/")).err(), Some(FsError::NotReady));
    assert_eq!(fs.read(h, 1), Err(FsError::NotReady));
    assert_eq!(fs.write(h, &vec![1]), Err(FsError::NotReady));
    assert_eq!(fs.seek(h, 0), Err(FsError::NotReady));
    assert_eq!(fs.truncate(h, 0), Err(FsError::NotReady));
    assert_eq!(fs.close(h), Err(FsError::NotReady));
    assert_eq!(fs.read_dir(h).err(), Some(FsError::NotReady));
    assert_eq!(fs.mkdir(&u("/a")), Err(FsError::NotReady));
    assert_eq!(fs.unlink(&u("/a")), Err(FsError::NotReady));
    assert_eq!(fs.rename(&u("/a"), &u("/b")), Err(FsError::NotReady));
    assert_eq!(fs.unmount(), Err(FsError::NotReady));
}

#[test]
fn a_volume_is_mounted_once() {
    let mut fs = formatted();
    assert_eq!(fs.mount(), Ok(()));
    assert!(fs.is_mounted());
    assert_eq!(fs.mount(), Err(FsError::AlreadyMounted));
    assert_eq!(fs.mount_at(5), Err(FsError::AlreadyMounted));
    assert_eq!(fs.format(0, &options()), Err(FsError::AlreadyMounted));
    assert!(fs.is_mounted());
    assert_eq!(fs.unmount(), Ok(()));
    assert!(!fs.is_mounted());
    assert_eq!(fs.unmount(), Err(FsError::NotReady));
    assert_eq!(fs.mount(), Ok(()));
}

#[test]
fn a_drive_without_a_volume_is_corrupt() {
    let mut fs = FatFs::new(RamDisk::new(0, 512, 100), 0);
    assert_eq!(fs.mount(), Err(FsError::CorruptVolume));
    assert_eq!(fs.mount_at(100), Err(FsError::CorruptVolume));
    let mut none = FatFs::new(RamDisk::new(0, 512, 0), 0);
    assert_eq!(none.mount(), Err(FsError::CorruptVolume));
    assert_eq!(none.format(0, &options()), Err(FsError::InvalidParameter));
}

#[test]
fn a_drive_that_is_not_ready_is_not_mounted() {
    for status in [STA_NOINIT, STA_NODISK, STA_NOINIT | STA_NODISK] {
        let mut fs = FatFs::new(odd(status), 0);
        assert_eq!(fs.mount(), Err(FsError::NotReady));
        assert!(!fs.is_mounted());
    }
    // Another drive number of the same driver holds nothing.
    let disk = formatted().release();
    let mut other = FatFs::new(disk, 3);
    assert_eq!(other.mount(), Err(FsError::NotReady));
}

#[test]
fn a_protected_medium_is_mounted_for_reading() {
    let mut fs = mounted();
    let h = fs.open(&u("/keep.txt"), rw()).unwrap();
    assert_eq!(fs.write(h, &vec![1, 2, 3]), Ok(3));
    assert_eq!(fs.close(h), Ok(()));
    assert_eq!(fs.unmount(), Ok(()));
    let mut disk = fs.release();
    disk.set_protected(true);
    let mut fs = FatFs::new(disk, 0);
    assert_eq!(fs.mount(), Ok(()));
    let h = fs.open(&u("/keep.txt"), ro()).unwrap();
    assert_eq!(fs.read(h, 10).unwrap(), vec![1, 2, 3]);
    assert_eq!(fs.close(h), Ok(()));
    assert_eq!(fs.open(&u("/keep.txt"), rw()).err(), Some(FsError::WriteProtected));
    assert_eq!(fs.open(&u("/new.txt"), rw()).err(), Some(FsError::WriteProtected));
    assert_eq!(fs.mkdir(&u("/d")), Err(FsError::WriteProtected));
    assert_eq!(fs.unlink(&u("/keep.txt")), Err(FsError::WriteProtected));
    assert_eq!(fs.rename(&u("/keep.txt"), &u("/k")), Err(FsError::WriteProtected));
    assert_eq!(fs.unmount(), Ok(()));
}

#[test]
fn a_handle_names_nothing_after_it_is_closed() {
    let mut fs = mounted();
    let a = fs.open(&u("/a"), rw()).unwrap();
    let b = fs.open(&u("/b"), rw()).unwrap();
    assert_ne!(a, b);
    assert_eq!(fs.close(a), Ok(()));
    assert_eq!(fs.close(a), Err(FsError::InvalidHandle));
    assert_eq!(fs.read(a, 1), Err(FsError::InvalidHandle));
    assert_eq!(fs.write(a, &vec![1]), Err(FsError::InvalidHandle));
    assert_eq!(fs.seek(a, 0), Err(FsError::InvalidHandle));
    assert_eq!(fs.truncate(a, 0), Err(FsError::InvalidHandle));
    // The place in the registry is used again, under another serial number.
    let c = fs.open(&u("/c"), rw()).unwrap();
    assert_eq!(c.slot, a.slot);
    assert_ne!(c.serial, a.serial);
    assert_eq!(fs.write(a, &vec![1]), Err(FsError::InvalidHandle));
    assert_eq!(fs.write(c, &vec![1]), Ok(1));
    assert_eq!(fs.write(b, &vec![1, 2]), Ok(2));
    // A handle of another kind is not a file.
    let d = fs.open_dir(&u("/")).unwrap();
    assert_eq!(fs.read(d, 1), Err(FsError::InvalidHandle));
    assert_eq!(fs.read_dir(b).err(), Some(FsError::InvalidHandle));
    assert_eq!(fs.read(Handle { slot: 99, serial: 0 }, 1), Err(FsError::InvalidHandle));
    assert_eq!(fs.close(d), Ok(()));
    assert_eq!(fs.read_dir(d).err(), Some(FsError::InvalidHandle));
}

#[test]
fn unmounting_closes_what_is_open_and_writes_the_sizes() {
    let mut fs = mounted();
    let a = fs.open(&u("/a"), rw()).unwrap();
    let b = fs.open(&u("/b"), rw()).unwrap();
    assert_eq!(fs.write(a, &vec![1; 10]), Ok(10));
    assert_eq!(fs.write(b, &vec![2; 3000]), Ok(3000));
    assert_eq!(fs.unmount(), Ok(()));
    assert_eq!(fs.mount(), Ok(()));
    assert_eq!(fs.read(a, 1), Err(FsError::InvalidHandle));
    assert_eq!(fs.close(b), Err(FsError::InvalidHandle));
    let d = fs.open_dir(&u("/")).unwrap();
    let first = fs.read_dir(d).unwrap().unwrap();
    let second = fs.read_dir(d).unwrap().unwrap();
    assert_eq!((first.size, second.size), (10, 3000));
}

#[test]
fn opening_is_refused_as_the_mode_and_the_path_say() {
    let mut fs = mounted();
    assert_eq!(fs.mkdir(&u("/d")), Ok(()));
    let h = fs.open(&u("/d/f"), rw()).unwrap();
    assert_eq!(fs.close(h), Ok(()));
    let mode = |write, create, exclusive, truncate| OpenMode { write, create, exclusive, truncate };
    assert_eq!(fs.open(&u("/d/none"), ro()).err(), Some(FsError::NotFound));
    assert_eq!(fs.open(&u("/d/none"), mode(true, false, false, false)).err(), Some(FsError::NotFound));
    assert_eq!(fs.open(&u("/none/f"), rw()).err(), Some(FsError::NotFound));
    assert_eq!(fs.open(&u("/d/f/g"), rw()).err(), Some(FsError::NotADirectory));
    assert_eq!(fs.open(&u("/d/f"), mode(true, true, true, false)).err(), Some(FsError::AlreadyExists));
    assert_eq!(fs.open(&u("/d/f"), mode(false, true, false, false)).err(), Some(FsError::InvalidParameter));
    assert_eq!(fs.open(&u("/d/f"), mode(false, false, false, true)).err(), Some(FsError::InvalidParameter));
    assert_eq!(fs.open(&u("/d"), ro()).err(), Some(FsError::InvalidParameter));
    assert_eq!(fs.open(&u("/"), ro()).err(), Some(FsError::InvalidParameter));
    assert_eq!(fs.open(&u("/d/a*b"), rw()).err(), Some(FsError::InvalidParameter));
    assert_eq!(fs.open(&u("/d/.."), ro()).err(), Some(FsError::InvalidParameter));
    assert!(fs.open(&u("/d/new"), mode(true, true, true, false)).is_ok());
    assert!(fs.open(&u("\\D\\F"), ro()).is_ok());
}

#[test]
fn the_time_of_the_filesystem_dates_the_entries() {
    let mut fs = mounted();
    let d = fs.open_dir(&u("/")).unwrap();
    let h = fs.open(&u("/first"), rw()).unwrap();
    assert_eq!(fs.close(h), Ok(()));
    assert!(fs.read_dir(d).unwrap().unwrap().written == Stamp { date: 0x0021, time: 0 });
    let noon = Stamp { date: 0x5B5C, time: 0x6000 };
    fs.set_time(noon);
    let h = fs.open(&u("/second"), rw()).unwrap();
    assert_eq!(fs.close(h), Ok(()));
    assert!(fs.read_dir(d).unwrap().unwrap().written == noon);
    // Closing a file that was written dates it anew.
    let later = Stamp { date: 0x5B5D, time: 1 };
    let h = fs.open(&u("/first"), rw()).unwrap();
    assert_eq!(fs.write(h, &vec![1]), Ok(1));
    fs.set_time(later);
    assert_eq!(fs.close(h), Ok(()));
    let d = fs.open_dir(&u("/")).unwrap();
    assert!(fs.read_dir(d).unwrap().unwrap().written == later);
    assert!(fs.read_dir(d).unwrap().unwrap().written == noon);
}

#[test]
fn errors_of_the_driver_are_handed_on() {
    let mut fs = mounted();
    let h = fs.open(&u("/f"), rw()).unwrap();
    assert_eq!(fs.write(h, &vec![1; 100]), Ok(100));
    assert_eq!(fs.seek(h, 0), Ok(()));
    let mut disk = fs.release();
    disk.set_failing(true);
    let mut fs = FatFs::new(disk, 0);
    assert_eq!(fs.mount(), Err(FsError::IOError));
    let mut disk = fs.release();
    disk.set_failing(false);
    let mut fs = FatFs::new(disk, 0);
    assert_eq!(fs.mount(), Ok(()));

    // A driver that fails in the middle of a write: the table has taken the
    // clusters, the data has not been written.
    let mut driver = odd(0);
    driver.fail_writes_after = Some(30);
    let mut fs = FatFs::new(driver, 0);
    assert_eq!(fs.mount(), Ok(()));
    let h = fs.open(&u("/f"), rw()).unwrap();
    assert_eq!(fs.write(h, &vec![7; 10_000]), Err(FsError::IOError));
    assert_eq!(fs.mkdir(&u("/d")), Err(FsError::IOError));
    assert_eq!(fs.open(&u("/g"), rw()).err(), Some(FsError::IOError));
    // The file is marked as changed, and its entry cannot be written.
    assert_eq!(fs.unmount(), Err(FsError::IOError));
    assert!(fs.is_mounted());
    assert_eq!(fs.close(h), Err(FsError::IOError));
    assert_eq!(fs.close(h), Err(FsError::InvalidHandle));
    assert_eq!(fs.unmount(), Ok(()));
}

#[test]
fn an_open_file_that_is_unlinked_keeps_its_handle() {
    let mut fs = mounted();
    let h = fs.open(&u("/gone"), rw()).unwrap();
    assert_eq!(fs.write(h, &vec![4; 3000]), Ok(3000));
    assert_eq!(fs.close(h), Ok(()));
    let free = fs.stat_volume().unwrap().free_clusters;
    let h = fs.open(&u("/gone"), ro()).unwrap();
    assert_eq!(fs.unlink(&u("/gone")), Ok(()));
    // The chain is given back at once; what the handle reads is whatever its clusters hold.
    assert_eq!(fs.stat_volume().unwrap().free_clusters, free + 2);
    assert_eq!(fs.read(h, 3000), Err(FsError::CorruptVolume));
    assert_eq!(fs.close(h), Ok(()));
    assert_eq!(fs.open(&u("/gone"), ro()).err(), Some(FsError::NotFound));
}
