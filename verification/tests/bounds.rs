use fatfs::allocator::allocate_chain;
use fatfs::chain::{chain_length, cluster_at};
use fatfs::dirent::Stamp;
use fatfs::error::FsError;
use fatfs::fat::{free_count, get_next, set_next, Volume};
use fatfs::file::{file_read, file_seek, file_truncate, file_write, read_at};
use fatfs::format::{format_volume, FormatOptions};
use fatfs::fs::{FatFs, OpenMode};
use fatfs::ramdisk::RamDisk;
use fatfs::tree::{create_file, remove};

fn t(s: &str) -> Vec<u16> {
    s.encode_utf16().collect()
}

fn now() -> Stamp {
    Stamp { date: 0x5A21, time: 0x1234 }
}

/// A FAT16 volume of 4096 clusters of 2048 bytes: the tables are the
/// sectors 1 to 17 and 18 to 34.
fn volume_4096() -> (RamDisk, Volume) {
    let mut disk = RamDisk::new(0, 512, 16451);
    let opts = FormatOptions { sectors_per_cluster: 4, fat_count: 2, root_entries: 512, serial: 7 };
    let g = format_volume(&mut disk, 0, 0, &opts).unwrap();
    assert_eq!(g.cluster_count, 4096);
    assert_eq!((g.fat_start, g.fat_size, g.root_start), (1, 17, 35));
    (disk, Volume::new(g, 0, false))
}

fn copies_alike(disk: &RamDisk) -> bool {
    (0..17u32).all(|s| (0..512u32).all(|o| disk.peek(1 + s, o) == disk.peek(18 + s, o)))
}

#[test]
fn a_walk_follows_no_more_links_than_the_volume_has_clusters() {
    let (mut disk, mut vol) = volume_4096();
    let first = allocate_chain(&mut vol, &mut disk, 3).unwrap();
    let second = get_next(&vol, &mut disk, first).unwrap();
    let third = get_next(&vol, &mut disk, second).unwrap();
    assert_eq!(cluster_at(&vol, &mut disk, first, 2), Ok(Some(third)));
    assert_eq!(cluster_at(&vol, &mut disk, first, 3), Ok(None));
    assert_eq!(cluster_at(&vol, &mut disk, first, 4096), Ok(None));
    assert_eq!(cluster_at(&vol, &mut disk, first, u32::MAX), Ok(None));
    assert_eq!(read_at(&vol, &mut disk, first, 3 * 2048, 1).err(), Some(FsError::CorruptVolume));

    // The last cluster is linked to the first: the chain runs in a circle.
    assert_eq!(set_next(&mut vol, &mut disk, third, first), Ok(()));
    assert_eq!(cluster_at(&vol, &mut disk, first, 3), Ok(Some(first)));
    assert_eq!(cluster_at(&vol, &mut disk, first, 4095), Ok(Some(first)));
    assert_eq!(cluster_at(&vol, &mut disk, first, 4096), Err(FsError::CorruptVolume));
    assert_eq!(cluster_at(&vol, &mut disk, first, u32::MAX), Err(FsError::CorruptVolume));
    assert_eq!(chain_length(&vol, &mut disk, first), Err(FsError::CorruptVolume));
    assert_eq!(read_at(&vol, &mut disk, first, 4096 * 2048, 1).err(), Some(FsError::CorruptVolume));
    assert_eq!(
        read_at(&vol, &mut disk, first, 4095 * 2048, 2049).err(),
        Some(FsError::CorruptVolume)
    );
    assert_eq!(read_at(&vol, &mut disk, first, u32::MAX - 1, 1).err(), Some(FsError::CorruptVolume));

    // A link that leaves the data region.
    assert_eq!(set_next(&mut vol, &mut disk, third, 5000), Ok(()));
    assert_eq!(cluster_at(&vol, &mut disk, first, 3), Err(FsError::CorruptVolume));
    assert_eq!(read_at(&vol, &mut disk, first, 3 * 2048, 1).err(), Some(FsError::CorruptVolume));
}

#[test]
fn a_file_whose_chain_runs_in_a_circle_is_not_read_for_ever() {
    let (mut disk, mut vol) = volume_4096();
    let mut f = create_file(&mut vol, &mut disk, 0, &t("LOOP"), now()).unwrap();
    assert_eq!(file_write(&mut vol, &mut disk, &mut f, &vec![5u8; 4096]), Ok(4096));
    let second = get_next(&vol, &mut disk, f.first_cluster).unwrap();
    assert_eq!(set_next(&mut vol, &mut disk, second, f.first_cluster), Ok(()));
    f.size = u32::MAX;
    assert_eq!(file_seek(&mut f, 4096 * 2048), Ok(()));
    assert_eq!(file_read(&vol, &mut disk, &mut f, 16).err(), Some(FsError::CorruptVolume));
    assert_eq!(file_seek(&mut f, 0), Ok(()));
    assert_eq!(file_read(&vol, &mut disk, &mut f, u32::MAX).err(), Some(FsError::CorruptVolume));
}

#[test]
fn a_chain_has_as_many_clusters_as_hold_the_bytes() {
    let (mut disk, mut vol) = volume_4096();
    let free = free_count(&mut vol, &mut disk).unwrap();
    assert_eq!(free, 4096);
    let mut f = create_file(&mut vol, &mut disk, 0, &t("B.TXT"), now()).unwrap();
    assert_eq!(f.first_cluster, 0);
    assert_eq!(file_write(&mut vol, &mut disk, &mut f, &vec![1u8; 10000]), Ok(10000));
    assert!(f.dirty);
    assert_eq!(chain_length(&vol, &mut disk, f.first_cluster), Ok(5));
    assert_eq!(free_count(&mut vol, &mut disk), Ok(4096 - 5));
    // A write within the file takes no cluster.
    assert_eq!(file_seek(&mut f, 100), Ok(()));
    assert_eq!(file_write(&mut vol, &mut disk, &mut f, &vec![2u8; 9000]), Ok(9000));
    assert_eq!(chain_length(&vol, &mut disk, f.first_cluster), Ok(5));
    // A write up to the end of the last cluster takes none, one byte more
    // takes one.
    assert_eq!(file_seek(&mut f, 10000), Ok(()));
    assert_eq!(file_write(&mut vol, &mut disk, &mut f, &vec![3u8; 240]), Ok(240));
    assert_eq!(chain_length(&vol, &mut disk, f.first_cluster), Ok(5));
    assert_eq!(file_write(&mut vol, &mut disk, &mut f, &vec![4u8; 1]), Ok(1));
    assert_eq!(chain_length(&vol, &mut disk, f.first_cluster), Ok(6));
    assert_eq!(free_count(&mut vol, &mut disk), Ok(4096 - 6));

    // A file that shrinks keeps the clusters that hold its bytes.
    assert_eq!(file_truncate(&mut vol, &mut disk, &mut f, 4097), Ok(()));
    assert_eq!(chain_length(&vol, &mut disk, f.first_cluster), Ok(3));
    assert_eq!(free_count(&mut vol, &mut disk), Ok(4096 - 3));
    assert_eq!(file_truncate(&mut vol, &mut disk, &mut f, 4096), Ok(()));
    assert_eq!(chain_length(&vol, &mut disk, f.first_cluster), Ok(2));
    // A file that grows is given them.
    assert_eq!(file_truncate(&mut vol, &mut disk, &mut f, 8193), Ok(()));
    assert_eq!(chain_length(&vol, &mut disk, f.first_cluster), Ok(5));
    assert_eq!(file_truncate(&mut vol, &mut disk, &mut f, 0), Ok(()));
    assert_eq!(f.first_cluster, 0);
    assert_eq!(free_count(&mut vol, &mut disk), Ok(4096));
    assert!(copies_alike(&disk));
}

#[test]
fn every_change_of_the_table_reaches_both_copies() {
    let (mut disk, mut vol) = volume_4096();
    assert!(copies_alike(&disk));
    let first = allocate_chain(&mut vol, &mut disk, 7).unwrap();
    assert!(copies_alike(&disk));
    assert_eq!(disk.peek(1, 2 * first), disk.peek(18, 2 * first));
    assert_eq!(fatfs::allocator::extend_chain(&mut vol, &mut disk, first + 6, 2).map(|_| ()), Ok(()));
    assert!(copies_alike(&disk));
    assert_eq!(fatfs::allocator::free_chain(&mut vol, &mut disk, first), Ok(9));
    assert!(copies_alike(&disk));
    for c in first..first + 9 {
        for copy_start in [1u32, 18] {
            let at = 2 * c;
            assert_eq!(disk.peek(copy_start + at / 512, at % 512), Some(0));
            assert_eq!(disk.peek(copy_start + at / 512, at % 512 + 1), Some(0));
        }
    }
    let mut f = create_file(&mut vol, &mut disk, 0, &t("F"), now()).unwrap();
    assert_eq!(file_write(&mut vol, &mut disk, &mut f, &vec![1u8; 5000]), Ok(5000));
    assert_eq!(fatfs::file::file_sync(&vol, &mut disk, &mut f, now()), Ok(()));
    assert!(copies_alike(&disk));
    assert_eq!(remove(&mut vol, &mut disk, &t("/F")), Ok(()));
    assert!(copies_alike(&disk));
    assert_eq!(free_count(&mut vol, &mut disk), Ok(4096));
}

#[test]
fn the_entry_holds_the_size_after_close_and_after_unmount() {
    let (disk, _) = volume_4096();
    let mut fs = FatFs::new(disk, 0);
    assert_eq!(fs.mount(), Ok(()));
    let rw = OpenMode { write: true, create: true, exclusive: false, truncate: false };
    let a = fs.open(&t("/A.BIN"), rw).unwrap();
    let b = fs.open(&t("/B.BIN"), rw).unwrap();
    assert_eq!(fs.write(a, &vec![1u8; 10000]), Ok(10000));
    assert_eq!(fs.write(b, &vec![2u8; 3]), Ok(3));
    assert_eq!(fs.close(a), Ok(()));
    // `b` stays open: unmounting writes its entry.
    assert_eq!(fs.unmount(), Ok(()));
    let mut disk = fs.release();
    // The entries stand in the slots 0 and 1 of the root directory, which
    // begins at sector 35: the size is the little-endian number at 28.
    let size_a: Vec<u8> = (28..32).map(|o| disk.peek(35, o).unwrap()).collect();
    let size_b: Vec<u8> = (28..32).map(|o| disk.peek(35, 32 + o).unwrap()).collect();
    assert_eq!(size_a, vec![0x10, 0x27, 0x00, 0x00]);
    assert_eq!(size_b, vec![0x03, 0x00, 0x00, 0x00]);
    assert!(copies_alike(&disk));
    let boot = fatfs::diskio::read_sector(&mut disk, 0, 0).unwrap();
    let g = fatfs::volume::parse_boot_sector(&boot, 0, 16451).unwrap();
    let mut vol = Volume::new(g, 0, false);
    assert_eq!(free_count(&mut vol, &mut disk), Ok(4096 - 5 - 1));
}

#[test]
fn the_first_free_cluster_behind_the_cursor_is_taken() {
    let (mut disk, mut vol) = volume_4096();
    assert_eq!(vol.cursor, 2);
    assert_eq!(fatfs::allocator::find_free(&vol, &mut disk), Ok(Some(3)));
    let first = allocate_chain(&mut vol, &mut disk, 3).unwrap();
    assert_eq!(first, 3);
    assert_eq!(get_next(&vol, &mut disk, 3), Ok(4));
    assert_eq!(get_next(&vol, &mut disk, 4), Ok(5));
    assert_eq!(vol.cursor, 5);
    assert_eq!(fatfs::allocator::free_chain(&mut vol, &mut disk, 3), Ok(3));
    // The search goes on behind the cursor, and round the table.
    assert_eq!(fatfs::allocator::find_free(&vol, &mut disk), Ok(Some(6)));
    vol.cursor = 4097;
    assert_eq!(fatfs::allocator::find_free(&vol, &mut disk), Ok(Some(2)));
    assert_eq!(allocate_chain(&mut vol, &mut disk, 2), Ok(2));
    assert_eq!(get_next(&vol, &mut disk, 2), Ok(3));
    vol.cursor = 4097;
    assert_eq!(fatfs::allocator::find_free(&vol, &mut disk), Ok(Some(4)));
}
