use fatfs::chain::chain_length;
use fatfs::error::FsError;
use fatfs::fat::{free_count, Volume};
use fatfs::file::{
    check_file, file_read, file_seek, file_truncate, file_write, fill_zeros, read_at,
    supply_clusters, write_into, File,
};
use fatfs::format::{format_volume, FormatOptions};
use fatfs::fs::{FatFs, OpenMode};
use fatfs::ramdisk::RamDisk;

fn u(s: &str) -> Vec<u16> {
    s.encode_utf16().collect()
}

fn volume(sectors: u32, spc: u8) -> (RamDisk, Volume) {
    let mut disk = RamDisk::new(0, 512, sectors);
    let opts = FormatOptions { sectors_per_cluster: spc, fat_count: 2, root_entries: 0, serial: 1 };
    let g = format_volume(&mut disk, 0, 0, &opts).unwrap();
    (disk, Volume::new(g, 0, false))
}

fn mounted(sectors: u32, spc: u8) -> FatFs<RamDisk> {
    let (disk, _) = volume(sectors, spc);
    let mut fs = FatFs::new(disk, 0);
    assert_eq!(fs.mount(), Ok(()));
    fs
}

fn open_file() -> File {
    File { dir: 0, index: 0, first_cluster: 0, size: 0, pos: 0, writable: true, dirty: false }
}

fn pattern(n: usize, seed: usize) -> Vec<u8> {
    (0..n).map(|i| ((i * 31 + seed * 17 + i / 256) % 256) as u8).collect()
}

fn rw() -> OpenMode {
    OpenMode { write: true, create: true, exclusive: false, truncate: false }
}

#[test]
fn write_then_read_gives_the_bytes_back() {
    // Cluster size 2048: sizes below a sector, of a sector, of a cluster, and of several clusters.
    let sizes = [1usize, 100, 511, 512, 513, 2047, 2048, 2049, 4096, 10000, 20000];
    let offsets = [0u32, 1, 511, 512, 2047, 2048, 5000, 8192];
    for (si, &n) in sizes.iter().enumerate() {
        for (oi, &at) in offsets.iter().enumerate() {
            let (mut disk, mut vol) = volume(16600, 4);
            let mut f = open_file();
            // The file is allocated first, so that the offset lies within it.
            let base = pattern(30000, 99);
            assert_eq!(file_write(&mut vol, &mut disk, &mut f, &base), Ok(30000));
            let data = pattern(n, si * 10 + oi);
            assert_eq!(file_seek(&mut f, at as i64), Ok(()));
            assert_eq!(file_write(&mut vol, &mut disk, &mut f, &data), Ok(n as u32));
            assert_eq!(f.pos, at + n as u32);
            assert_eq!(f.size, 30000);
            assert_eq!(file_seek(&mut f, at as i64), Ok(()));
            assert_eq!(file_read(&vol, &mut disk, &mut f, n as u32).unwrap(), data);
            // What lies around the range is as it was.
            let mut want = base.clone();
            want[at as usize..at as usize + n].copy_from_slice(&data);
            assert_eq!(file_seek(&mut f, 0), Ok(()));
            assert_eq!(file_read(&vol, &mut disk, &mut f, 40000).unwrap(), want);
        }
    }
}

#[test]
fn a_write_behind_the_end_makes_the_file_longer() {
    let (mut disk, mut vol) = volume(16600, 4);
    let free = free_count(&mut vol, &mut disk).unwrap();
    let mut f = open_file();
    assert_eq!(file_write(&mut vol, &mut disk, &mut f, &pattern(100, 1)), Ok(100));
    assert_eq!((f.size, f.pos, f.dirty), (100, 100, true));
    assert_ne!(f.first_cluster, 0);
    assert_eq!(chain_length(&vol, &mut disk, f.first_cluster), Ok(1));
    assert_eq!(file_write(&mut vol, &mut disk, &mut f, &pattern(1948, 2)), Ok(1948));
    assert_eq!(chain_length(&vol, &mut disk, f.first_cluster), Ok(1));
    assert_eq!(file_write(&mut vol, &mut disk, &mut f, &pattern(1, 3)), Ok(1));
    assert_eq!(chain_length(&vol, &mut disk, f.first_cluster), Ok(2));
    assert_eq!(f.size, 2049);
    assert_eq!(free_count(&mut vol, &mut disk), Ok(free - 2));
    let mut want = pattern(100, 1);
    want.extend(pattern(1948, 2));
    want.extend(pattern(1, 3));
    assert_eq!(read_at(&vol, &mut disk, f.first_cluster, 0, 2049).unwrap(), want);
    assert_eq!(check_file(&vol, &mut disk, &f), Ok(2));
}

#[test]
fn the_gap_behind_the_old_end_is_filled_with_zeros() {
    let (mut disk, mut vol) = volume(16600, 4);
    // The clusters that the file will take hold other bytes.
    let mut scratch = open_file();
    assert_eq!(file_write(&mut vol, &mut disk, &mut scratch, &vec![0xEE; 20000]), Ok(20000));
    assert_eq!(file_truncate(&mut vol, &mut disk, &mut scratch, 0), Ok(()));
    vol.cursor = 2;

    let mut f = open_file();
    assert_eq!(file_write(&mut vol, &mut disk, &mut f, &vec![1, 2, 3]), Ok(3));
    assert_eq!(file_seek(&mut f, 7000), Ok(()));
    assert_eq!(f.size, 3);
    assert_eq!(file_write(&mut vol, &mut disk, &mut f, &vec![9, 8]), Ok(2));
    assert_eq!(f.size, 7002);
    assert_eq!(file_seek(&mut f, 0), Ok(()));
    let got = file_read(&vol, &mut disk, &mut f, 10000).unwrap();
    let mut want = vec![1u8, 2, 3];
    want.extend(vec![0u8; 6997]);
    want.extend([9, 8]);
    assert_eq!(got, want);
}

#[test]
fn reads_are_clamped_to_the_end_of_the_file() {
    let (mut disk, mut vol) = volume(16600, 4);
    let mut f = open_file();
    let data = pattern(3000, 5);
    assert_eq!(file_write(&mut vol, &mut disk, &mut f, &data), Ok(3000));
    assert_eq!(file_read(&vol, &mut disk, &mut f, 10).unwrap(), Vec::<u8>::new());
    assert_eq!(file_seek(&mut f, 2990), Ok(()));
    assert_eq!(file_read(&vol, &mut disk, &mut f, 100).unwrap(), data[2990..].to_vec());
    assert_eq!(f.pos, 3000);
    assert_eq!(file_seek(&mut f, 5000), Ok(()));
    assert_eq!(file_read(&vol, &mut disk, &mut f, 100).unwrap(), Vec::<u8>::new());
    assert_eq!(f.pos, 5000);
    assert_eq!(file_seek(&mut f, 0), Ok(()));
    assert_eq!(file_read(&vol, &mut disk, &mut f, 0).unwrap(), Vec::<u8>::new());
    assert_eq!(file_read(&vol, &mut disk, &mut f, 1).unwrap(), data[..1].to_vec());
    assert_eq!(file_read(&vol, &mut disk, &mut f, 2047).unwrap(), data[1..2048].to_vec());
    assert_eq!(file_read(&vol, &mut disk, &mut f, u32::MAX).unwrap(), data[2048..].to_vec());
}

#[test]
fn seeking_checks_the_position() {
    let mut f = open_file();
    assert_eq!(file_seek(&mut f, -1), Err(FsError::InvalidParameter));
    assert_eq!(file_seek(&mut f, i64::MIN), Err(FsError::InvalidParameter));
    assert_eq!(file_seek(&mut f, 0x1_0000_0000), Err(FsError::InvalidParameter));
    assert_eq!(f.pos, 0);
    assert_eq!(file_seek(&mut f, 0xFFFF_FFFF), Ok(()));
    assert_eq!(f.pos, 0xFFFF_FFFF);
    assert_eq!(file_seek(&mut f, 12), Ok(()));
    assert_eq!(f.pos, 12);
}

#[test]
fn a_write_that_does_not_fit_changes_nothing() {
    let (mut disk, mut vol) = volume(2880, 1);
    let free = free_count(&mut vol, &mut disk).unwrap();
    let mut f = open_file();
    assert_eq!(file_write(&mut vol, &mut disk, &mut f, &pattern(1000, 1)), Ok(1000));
    let was = f;
    let too_much = vec![7u8; (free as usize) * 512];
    assert_eq!(file_write(&mut vol, &mut disk, &mut f, &too_much), Err(FsError::DiskFull));
    assert_eq!((f.size, f.pos, f.first_cluster), (was.size, was.pos, was.first_cluster));
    assert_eq!(free_count(&mut vol, &mut disk), Ok(free - 2));
    assert_eq!(read_at(&vol, &mut disk, f.first_cluster, 0, 1000).unwrap(), pattern(1000, 1));
    // All that is left can be written.
    let rest = vec![7u8; (free as usize - 2) * 512 + 24];
    assert_eq!(file_write(&mut vol, &mut disk, &mut f, &rest), Ok(rest.len() as u32));
    assert_eq!(free_count(&mut vol, &mut disk), Ok(0));
    assert_eq!(file_write(&mut vol, &mut disk, &mut f, &vec![1]), Err(FsError::DiskFull));

    let mut at_end = open_file();
    at_end.pos = 0xFFFF_FFFF;
    assert_eq!(file_write(&mut vol, &mut disk, &mut at_end, &vec![1]), Err(FsError::InvalidParameter));
    let mut closed = open_file();
    closed.writable = false;
    assert_eq!(file_write(&mut vol, &mut disk, &mut closed, &vec![1]), Err(FsError::InvalidParameter));
    assert_eq!(file_write(&mut vol, &mut disk, &mut closed, &vec![]), Ok(0));
}

#[test]
fn truncating_gives_clusters_back() {
    let (mut disk, mut vol) = volume(16600, 4);
    let free = free_count(&mut vol, &mut disk).unwrap();
    let mut f = open_file();
    let data = pattern(10000, 4);
    assert_eq!(file_write(&mut vol, &mut disk, &mut f, &data), Ok(10000));
    assert_eq!(free_count(&mut vol, &mut disk), Ok(free - 5));
    let first = f.first_cluster;

    assert_eq!(file_truncate(&mut vol, &mut disk, &mut f, 10000), Ok(()));
    assert_eq!(file_truncate(&mut vol, &mut disk, &mut f, 4097), Ok(()));
    assert_eq!((f.size, f.pos, f.first_cluster), (4097, 10000, first));
    assert_eq!(chain_length(&vol, &mut disk, first), Ok(3));
    assert_eq!(free_count(&mut vol, &mut disk), Ok(free - 3));
    assert_eq!(file_truncate(&mut vol, &mut disk, &mut f, 4096), Ok(()));
    assert_eq!(chain_length(&vol, &mut disk, first), Ok(2));
    assert_eq!(file_truncate(&mut vol, &mut disk, &mut f, 1), Ok(()));
    assert_eq!(chain_length(&vol, &mut disk, first), Ok(1));
    assert_eq!(read_at(&vol, &mut disk, first, 0, 1).unwrap(), data[..1].to_vec());
    assert_eq!(file_truncate(&mut vol, &mut disk, &mut f, 0), Ok(()));
    assert_eq!((f.size, f.first_cluster), (0, 0));
    assert_eq!(free_count(&mut vol, &mut disk), Ok(free));
}

#[test]
fn truncating_to_a_larger_size_extends_with_zeros() {
    let (mut disk, mut vol) = volume(16600, 4);
    let mut scratch = open_file();
    assert_eq!(file_write(&mut vol, &mut disk, &mut scratch, &vec![0xEE; 20000]), Ok(20000));
    assert_eq!(file_truncate(&mut vol, &mut disk, &mut scratch, 0), Ok(()));
    vol.cursor = 2;

    let mut f = open_file();
    assert_eq!(file_write(&mut vol, &mut disk, &mut f, &vec![5; 10]), Ok(10));
    assert_eq!(file_truncate(&mut vol, &mut disk, &mut f, 5000), Ok(()));
    assert_eq!((f.size, f.pos), (5000, 10));
    assert_eq!(chain_length(&vol, &mut disk, f.first_cluster), Ok(3));
    let mut want = vec![5u8; 10];
    want.extend(vec![0u8; 4990]);
    assert_eq!(read_at(&vol, &mut disk, f.first_cluster, 0, 5000).unwrap(), want);

    let mut empty = open_file();
    assert_eq!(file_truncate(&mut vol, &mut disk, &mut empty, 1), Ok(()));
    assert_eq!(read_at(&vol, &mut disk, empty.first_cluster, 0, 1).unwrap(), vec![0u8]);
    let mut closed = open_file();
    closed.writable = false;
    assert_eq!(file_truncate(&mut vol, &mut disk, &mut closed, 1), Err(FsError::InvalidParameter));
}

#[test]
fn a_file_whose_chain_is_too_short_is_corrupt() {
    let (mut disk, mut vol) = volume(16600, 4);
    let mut f = open_file();
    assert_eq!(file_write(&mut vol, &mut disk, &mut f, &pattern(3000, 1)), Ok(3000));
    f.size = 5000;
    assert_eq!(check_file(&vol, &mut disk, &f), Err(FsError::CorruptVolume));
    f.pos = 0;
    assert_eq!(file_read(&vol, &mut disk, &mut f, 4096).unwrap(), pattern(3000, 1)
        .into_iter()
        .chain(read_at(&vol, &mut disk, f.first_cluster, 3000, 1096).unwrap())
        .collect::<Vec<u8>>());
    f.pos = 0;
    assert_eq!(file_read(&vol, &mut disk, &mut f, 4097), Err(FsError::CorruptVolume));
    assert_eq!(f.pos, 0);
    assert_eq!(file_write(&mut vol, &mut disk, &mut f, &vec![1]), Err(FsError::CorruptVolume));
    let mut none = open_file();
    none.size = 1;
    assert_eq!(file_read(&vol, &mut disk, &mut none, 1), Err(FsError::CorruptVolume));
    assert_eq!(read_at(&vol, &mut disk, 0, 0, 0).unwrap(), Vec::<u8>::new());
}

#[test]
fn writes_into_a_chain_stay_within_it() {
    let (mut disk, mut vol) = volume(16600, 4);
    let a = supply_clusters(&mut vol, &mut disk, 0, 2).unwrap();
    let b = supply_clusters(&mut vol, &mut disk, 0, 2).unwrap();
    assert_eq!(supply_clusters(&mut vol, &mut disk, a, 2), Ok(a));
    assert_eq!(supply_clusters(&mut vol, &mut disk, a, 1), Ok(a));
    assert_eq!(fill_zeros(&vol, &mut disk, a, 0, 4096), Ok(()));
    assert_eq!(fill_zeros(&vol, &mut disk, b, 0, 4096), Ok(()));
    assert_eq!(write_into(&vol, &mut disk, a, 2000, &vec![3u8; 2096]), Ok(()));
    assert_eq!(write_into(&vol, &mut disk, a, 2000, &vec![3u8; 2097]), Err(FsError::InvalidParameter));
    assert_eq!(write_into(&vol, &mut disk, a, 4097, &vec![]), Err(FsError::InvalidParameter));
    assert_eq!(write_into(&vol, &mut disk, a, 4096, &vec![]), Ok(()));
    assert_eq!(write_into(&vol, &mut disk, 1, 0, &vec![]), Err(FsError::CorruptVolume));
    let mut want = vec![0u8; 2000];
    want.extend(vec![3u8; 2096]);
    assert_eq!(read_at(&vol, &mut disk, a, 0, 4096).unwrap(), want);
    assert_eq!(read_at(&vol, &mut disk, b, 0, 4096).unwrap(), vec![0u8; 4096]);
    assert_eq!(supply_clusters(&mut vol, &mut disk, a, 4), Ok(a));
    assert_eq!(chain_length(&vol, &mut disk, a), Ok(4));
    assert_eq!(read_at(&vol, &mut disk, a, 0, 4096).unwrap(), want);
}

#[test]
fn the_size_reaches_the_directory_entry_when_the_file_is_closed() {
    let mut fs = mounted(16600, 4);
    let h = fs.open(&u("/log.txt"), rw()).unwrap();
    assert_eq!(fs.write(h, &pattern(5000, 1)), Ok(5000));
    let d = fs.open_dir(&u("/")).unwrap();
    assert_eq!(fs.read_dir(d).unwrap().unwrap().size, 0);
    assert_eq!(fs.close(h), Ok(()));
    let d = fs.open_dir(&u("/")).unwrap();
    let e = fs.read_dir(d).unwrap().unwrap();
    assert_eq!(e.size, 5000);
    assert_ne!(e.first_cluster, 0);

    let h = fs.open(&u("/log.txt"), rw()).unwrap();
    assert_eq!(fs.seek(h, 5000), Ok(()));
    assert_eq!(fs.write(h, &pattern(100, 2)), Ok(100));
    assert_eq!(fs.close(h), Ok(()));
    let h = fs.open(&u("/log.txt"), OpenMode { write: false, create: false, exclusive: false, truncate: false }).unwrap();
    let mut want = pattern(5000, 1);
    want.extend(pattern(100, 2));
    assert_eq!(fs.read(h, 6000).unwrap(), want);
    assert_eq!(fs.write(h, &vec![1]), Err(FsError::InvalidParameter));
    assert_eq!(fs.truncate(h, 0), Err(FsError::InvalidParameter));
}

#[test]
fn opening_with_truncate_cuts_the_file() {
    let mut fs = mounted(16600, 4);
    let free = fs.stat_volume().unwrap().free_clusters;
    let h = fs.open(&u("/t"), rw()).unwrap();
    assert_eq!(fs.write(h, &pattern(5000, 1)), Ok(5000));
    assert_eq!(fs.close(h), Ok(()));
    let h = fs.open(&u("/t"), OpenMode { write: true, create: true, exclusive: false, truncate: true }).unwrap();
    assert_eq!(fs.read(h, 10).unwrap(), Vec::<u8>::new());
    assert_eq!(fs.close(h), Ok(()));
    assert_eq!(fs.stat_volume().unwrap().free_clusters, free);
    let d = fs.open_dir(&u("/")).unwrap();
    let e = fs.read_dir(d).unwrap().unwrap();
    assert_eq!((e.size, e.first_cluster), (0, 0));
}

#[test]
fn large_files_span_many_clusters_on_every_width() {
    for (sectors, spc, size) in [(2880u32, 1u8, 300_000usize), (16600, 4, 1_000_000), (70000, 1, 2_000_000)] {
        let mut fs = mounted(sectors, spc);
        let data = pattern(size, sectors as usize);
        let h = fs.open(&u("/big.bin"), rw()).unwrap();
        for chunk in data.chunks(70_000) {
            assert_eq!(fs.write(h, &chunk.to_vec()), Ok(chunk.len() as u32));
        }
        assert_eq!(fs.close(h), Ok(()));
        assert_eq!(fs.unmount(), Ok(()));
        assert_eq!(fs.mount(), Ok(()));
        let h = fs.open(&u("/big.bin"), OpenMode { write: false, create: false, exclusive: false, truncate: false }).unwrap();
        let mut back = Vec::new();
        loop {
            let part = fs.read(h, 33_333).unwrap();
            if part.is_empty() {
                break;
            }
            back.extend(part);
        }
        assert!(back == data);
    }
}
