use fatfs::format::FormatOptions;
use fatfs::fs::{FatFs, OpenMode};
use fatfs::ramdisk::RamDisk;
use fatfs::volume::FatType;

fn u(s: &str) -> Vec<u16> {
    s.encode_utf16().collect()
}

fn create() -> OpenMode {
    OpenMode { write: true, create: true, exclusive: false, truncate: false }
}

fn read_only() -> OpenMode {
    OpenMode { write: false, create: false, exclusive: false, truncate: false }
}

fn pattern(n: usize) -> Vec<u8> {
    (0..n).map(|i| (i % 251) as u8).collect()
}

// 512-byte sectors, 4 sectors per cluster, 4096 clusters: one boot sector,
// two tables of 17 sectors, 32 sectors of root directory and 16384 sectors
// of data.
fn fat16_volume() -> FatFs<RamDisk> {
    let disk = RamDisk::new(0, 512, 16451);
    let mut fs = FatFs::new(disk, 0);
    let opts = FormatOptions { sectors_per_cluster: 4, fat_count: 2, root_entries: 512, serial: 7 };
    assert_eq!(fs.format(0, &opts), Ok(()));
    fs
}

#[test]
fn write_close_remount_read_back() {
    let mut fs = fat16_volume();
    assert_eq!(fs.mount(), Ok(()));
    let stat = fs.stat_volume().unwrap();
    assert_eq!(stat.total_clusters, 4096);
    assert_eq!(stat.cluster_size, 2048);
    assert_eq!(stat.free_clusters, stat.total_clusters);

    assert_eq!(fs.mkdir(&u("/a")), Ok(()));
    let h = fs.open(&u("/a/b.txt"), create()).unwrap();
    let data = pattern(10000);
    assert_eq!(fs.write(h, &data), Ok(10000));
    assert_eq!(fs.close(h), Ok(()));
    assert_eq!(fs.unmount(), Ok(()));

    assert_eq!(fs.mount(), Ok(()));
    let h = fs.open(&u("/a/b.txt"), read_only()).unwrap();
    let back = fs.read(h, 16384).unwrap();
    assert_eq!(back.len(), 10000);
    assert_eq!(back, data);
    assert_eq!(fs.read(h, 10).unwrap().len(), 0);
    assert_eq!(fs.close(h), Ok(()));

    // The entry says 10000 bytes, and the chain has ceil(10000 / 2048) clusters:
    // one for the directory `a` and five for the file are taken.
    let d = fs.open_dir(&u("/a")).unwrap();
    let mut seen = Vec::new();
    while let Some(e) = fs.read_dir(d).unwrap() {
        seen.push((String::from_utf16(&e.name).unwrap(), e.size, e.is_dir));
    }
    assert_eq!(
        seen,
        vec![
            (".".to_string(), 0, true),
            ("..".to_string(), 0, true),
            ("b.txt".to_string(), 10000, false)
        ]
    );
    let after = fs.stat_volume().unwrap();
    assert_eq!(after.free_clusters, 4096 - 1 - 5);
    assert_eq!(fs.unmount(), Ok(()));
}

#[test]
fn the_formatted_volume_is_fat16() {
    let mut fs = fat16_volume();
    let mut disk = fs.release();
    let boot = fatfs::diskio::read_sector(&mut disk, 0, 0).unwrap();
    let g = fatfs::volume::parse_boot_sector(&boot, 0, 16451).unwrap();
    assert!(g.fat_type == FatType::Fat16);
    assert_eq!(g.sectors_per_cluster, 4);
    assert_eq!(g.bytes_per_sector, 512);
    assert_eq!(g.fat_count, 2);
    assert_eq!(g.root_entries, 512);
    assert_eq!(g.cluster_count, 4096);
    assert_eq!(g.fat_size, 17);
}
