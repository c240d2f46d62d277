use fatfs::dir::{lookup, read_slot, write_slots};
use fatfs::dirent::{Stamp, ATTR_ARCHIVE};
use fatfs::dirops::{add_entry, remove_entry};
use fatfs::error::FsError;
use fatfs::fat::{free_count, Volume};
use fatfs::format::{format_volume, FormatOptions};
use fatfs::ramdisk::RamDisk;
use fatfs::tree::{create_file, make_dir, remove, rename};

fn w(s: &str) -> Vec<u16> {
    s.encode_utf16().collect()
}

fn when() -> Stamp {
    Stamp { date: 0x5A21, time: 0x1234 }
}

/// A FAT16 volume whose root directory has `root_entries` slots.
fn small_root(root_entries: u16) -> (RamDisk, Volume) {
    let mut disk = RamDisk::new(0, 512, 16600);
    let opts = FormatOptions { sectors_per_cluster: 4, fat_count: 2, root_entries, serial: 7 };
    let g = format_volume(&mut disk, 0, 0, &opts).unwrap();
    (disk, Volume::new(g, 0, false))
}

fn bytes_of(disk: &RamDisk) -> Vec<u8> {
    let mut all = Vec::new();
    for sector in 0..disk.sector_count() {
        for offset in 0..512 {
            all.push(disk.peek(sector, offset).unwrap());
        }
    }
    all
}

fn fill_root(disk: &mut RamDisk, vol: &mut Volume, count: u32) {
    for i in 0..count {
        let name = w(&format!("F{}.TXT", i));
        let added = add_entry(vol, disk, 0, &name, ATTR_ARCHIVE, 0, 0, when()).unwrap();
        assert_eq!(added.index, i);
        assert_eq!(added.fragments, 0);
    }
}

#[test]
fn peek_shows_the_bytes_of_the_drive() {
    let (disk, _) = small_root(16);
    assert_eq!(disk.peek(0, 510), Some(0x55));
    assert_eq!(disk.peek(0, 511), Some(0xAA));
    assert_eq!(disk.peek(0, 512), None);
    assert_eq!(disk.peek(16600, 0), None);
}

#[test]
fn slots_are_written_all_or_not_at_all() {
    let (mut disk, vol) = small_root(16);
    let before = bytes_of(&disk);
    let two = vec![vec![1u8; 32], vec![2u8; 32]];
    assert_eq!(write_slots(&vol, &mut disk, 0, 15, &two), Err(FsError::InvalidParameter));
    assert_eq!(bytes_of(&disk), before);
    let short = vec![vec![1u8; 32], vec![2u8; 31]];
    assert_eq!(write_slots(&vol, &mut disk, 0, 3, &short), Err(FsError::InvalidParameter));
    assert_eq!(bytes_of(&disk), before);
    assert_eq!(write_slots(&vol, &mut disk, 0, 65535, &two), Err(FsError::InvalidParameter));
    assert_eq!(bytes_of(&disk), before);
    assert_eq!(write_slots(&vol, &mut disk, 0, 14, &two), Ok(()));
    assert_eq!(read_slot(&vol, &mut disk, 0, 14).unwrap(), Some(vec![1u8; 32]));
    assert_eq!(read_slot(&vol, &mut disk, 0, 15).unwrap(), Some(vec![2u8; 32]));
    assert_eq!(read_slot(&vol, &mut disk, 0, 13).unwrap(), Some(vec![0u8; 32]));
}

#[test]
fn slots_are_not_written_to_a_protected_volume() {
    let (mut disk, vol) = small_root(16);
    let locked = Volume::new(vol.geom, 0, true);
    let before = bytes_of(&disk);
    let one = vec![vec![1u8; 32]];
    assert_eq!(write_slots(&locked, &mut disk, 0, 0, &one), Err(FsError::WriteProtected));
    assert_eq!(bytes_of(&disk), before);
}

#[test]
fn only_the_slots_of_an_entry_are_removed() {
    let (mut disk, mut vol) = small_root(16);
    let long = add_entry(&mut vol, &mut disk, 0, &w("a long file name.txt"), ATTR_ARCHIVE, 0, 0, when())
        .unwrap();
    assert_eq!(long.fragments, 2);
    assert_eq!(long.index, 2);
    let plain = add_entry(&mut vol, &mut disk, 0, &w("B.TXT"), ATTR_ARCHIVE, 0, 0, when()).unwrap();
    assert_eq!((plain.index, plain.fragments), (3, 0));
    let before = bytes_of(&disk);
    // A fragment where the short entry should stand.
    assert_eq!(remove_entry(&vol, &mut disk, 0, 1, 1), Err(FsError::InvalidParameter));
    // A short entry where a fragment should stand.
    assert_eq!(remove_entry(&vol, &mut disk, 0, 3, 1), Err(FsError::InvalidParameter));
    // Fewer fragments than the entry has are accepted; more are not.
    assert_eq!(remove_entry(&vol, &mut disk, 0, 2, 3), Err(FsError::InvalidParameter));
    // A slot that was never used, and one that the directory does not have.
    assert_eq!(remove_entry(&vol, &mut disk, 0, 4, 0), Err(FsError::InvalidParameter));
    assert_eq!(remove_entry(&vol, &mut disk, 0, 16, 0), Err(FsError::InvalidParameter));
    assert_eq!(remove_entry(&vol, &mut disk, 0, 30, 21), Err(FsError::InvalidParameter));
    assert_eq!(bytes_of(&disk), before);
    let locked = Volume::new(vol.geom, 0, true);
    assert_eq!(remove_entry(&locked, &mut disk, 0, 2, 2), Err(FsError::WriteProtected));
    assert_eq!(bytes_of(&disk), before);
    assert_eq!(remove_entry(&vol, &mut disk, 0, 2, 2), Ok(()));
    for i in 0..3 {
        assert_eq!(read_slot(&vol, &mut disk, 0, i).unwrap().unwrap()[0], 0xE5);
    }
    assert!(lookup(&vol, &mut disk, 0, &w("a long file name.txt")).unwrap().is_none());
    assert_eq!(lookup(&vol, &mut disk, 0, &w("b.txt")).unwrap().unwrap().index, 3);
}

#[test]
fn an_entry_that_is_refused_leaves_the_drive_as_it_is() {
    let (mut disk, mut vol) = small_root(16);
    fill_root(&mut disk, &mut vol, 16);
    let before = bytes_of(&disk);
    assert_eq!(
        add_entry(&mut vol, &mut disk, 0, &w("G.TXT"), ATTR_ARCHIVE, 0, 0, when()).err(),
        Some(FsError::DirectoryFull)
    );
    assert_eq!(
        add_entry(&mut vol, &mut disk, 0, &w("f3.txt"), ATTR_ARCHIVE, 0, 0, when()).err(),
        Some(FsError::AlreadyExists)
    );
    assert_eq!(
        add_entry(&mut vol, &mut disk, 0, &w("a*b"), ATTR_ARCHIVE, 0, 0, when()).err(),
        Some(FsError::InvalidParameter)
    );
    assert_eq!(
        add_entry(&mut vol, &mut disk, 0, &w("L.TXT"), 0x08, 0, 0, when()).err(),
        Some(FsError::InvalidParameter)
    );
    assert_eq!(create_file(&mut vol, &mut disk, 0, &w("G.TXT"), when()).err(), Some(FsError::DirectoryFull));
    assert_eq!(bytes_of(&disk), before);
}

#[test]
fn a_directory_that_finds_no_room_gives_its_cluster_back() {
    let (mut disk, mut vol) = small_root(16);
    fill_root(&mut disk, &mut vol, 16);
    let free = free_count(&mut vol, &mut disk).unwrap();
    assert_eq!(make_dir(&mut vol, &mut disk, &w("/SUB"), when()), Err(FsError::DirectoryFull));
    assert_eq!(free_count(&mut vol, &mut disk), Ok(free));
    assert!(lookup(&vol, &mut disk, 0, &w("sub")).unwrap().is_none());
    // Once a slot is free the directory is made. A name that needs a
    // fragment besides its short entry still finds no room.
    assert_eq!(remove(&mut vol, &mut disk, &w("/F5.TXT")), Ok(()));
    assert_eq!(make_dir(&mut vol, &mut disk, &w("/sub"), when()), Err(FsError::DirectoryFull));
    assert_eq!(free_count(&mut vol, &mut disk), Ok(free));
    assert_eq!(make_dir(&mut vol, &mut disk, &w("/SUB"), when()), Ok(()));
    assert_eq!(free_count(&mut vol, &mut disk), Ok(free - 1));
    assert_eq!(lookup(&vol, &mut disk, 0, &w("sub")).unwrap().unwrap().index, 5);
}

#[test]
fn a_directory_is_refused_before_anything_is_written() {
    let (mut disk, mut vol) = small_root(16);
    assert_eq!(make_dir(&mut vol, &mut disk, &w("/a"), when()), Ok(()));
    let before = bytes_of(&disk);
    assert_eq!(make_dir(&mut vol, &mut disk, &w("/"), when()), Err(FsError::AlreadyExists));
    assert_eq!(make_dir(&mut vol, &mut disk, &w("/A"), when()), Err(FsError::AlreadyExists));
    assert_eq!(make_dir(&mut vol, &mut disk, &w("/b/c"), when()), Err(FsError::NotFound));
    assert_eq!(make_dir(&mut vol, &mut disk, &w("/a/b?"), when()), Err(FsError::InvalidParameter));
    let mut locked = Volume::new(vol.geom, 0, true);
    assert_eq!(make_dir(&mut locked, &mut disk, &w("/b"), when()), Err(FsError::WriteProtected));
    assert_eq!(bytes_of(&disk), before);
}

#[test]
fn a_new_directory_holds_its_two_entries_and_nothing_else() {
    let (mut disk, mut vol) = small_root(16);
    assert_eq!(make_dir(&mut vol, &mut disk, &w("/a"), when()), Ok(()));
    let a = lookup(&vol, &mut disk, 0, &w("a")).unwrap().unwrap();
    let first = u32::from(a.slot[26]) + 256 * u32::from(a.slot[27]);
    assert!(first >= 2);
    let dot = read_slot(&vol, &mut disk, first, 0).unwrap().unwrap();
    let dotdot = read_slot(&vol, &mut disk, first, 1).unwrap().unwrap();
    assert_eq!(&dot[0..11], b".          ");
    assert_eq!(&dotdot[0..11], b"..         ");
    assert_eq!(dot[11], 0x10);
    assert_eq!(dotdot[11], 0x10);
    assert_eq!(u32::from(dot[26]) + 256 * u32::from(dot[27]), first);
    assert_eq!(u32::from(dotdot[26]) + 256 * u32::from(dotdot[27]), 0);
    // Four sectors of 512 bytes hold 64 slots.
    for i in 2..64 {
        assert_eq!(read_slot(&vol, &mut disk, first, i).unwrap(), Some(vec![0u8; 32]));
    }
    assert_eq!(read_slot(&vol, &mut disk, first, 64).unwrap(), None);
}

#[test]
fn a_name_is_changed_or_the_drive_is_left_as_it_is() {
    let (mut disk, mut vol) = small_root(16);
    fill_root(&mut disk, &mut vol, 15);
    assert_eq!(make_dir(&mut vol, &mut disk, &w("/D"), when()), Ok(()));
    let before = bytes_of(&disk);
    assert_eq!(rename(&mut vol, &mut disk, &w("/"), &w("/x")), Err(FsError::InvalidParameter));
    assert_eq!(rename(&mut vol, &mut disk, &w("/none"), &w("/x")), Err(FsError::NotFound));
    assert_eq!(rename(&mut vol, &mut disk, &w("/F1.TXT"), &w("/F2.TXT")), Err(FsError::AlreadyExists));
    assert_eq!(rename(&mut vol, &mut disk, &w("/F1.TXT"), &w("/")), Err(FsError::AlreadyExists));
    assert_eq!(rename(&mut vol, &mut disk, &w("/F1.TXT"), &w("/no/x")), Err(FsError::NotFound));
    assert_eq!(rename(&mut vol, &mut disk, &w("/F1.TXT"), &w("/F1.TXT/x")), Err(FsError::NotADirectory));
    // The root directory is full: the new entry finds no room.
    assert_eq!(rename(&mut vol, &mut disk, &w("/F1.TXT"), &w("/G.TXT")), Err(FsError::DirectoryFull));
    let mut locked = Volume::new(vol.geom, 0, true);
    assert_eq!(rename(&mut locked, &mut disk, &w("/F1.TXT"), &w("/d/x")), Err(FsError::WriteProtected));
    assert_eq!(bytes_of(&disk), before);
    assert_eq!(rename(&mut vol, &mut disk, &w("/F1.TXT"), &w("/d/G.TXT")), Ok(()));
    assert!(lookup(&vol, &mut disk, 0, &w("F1.TXT")).unwrap().is_none());
    let d = lookup(&vol, &mut disk, 0, &w("d")).unwrap().unwrap();
    let first = u32::from(d.slot[26]) + 256 * u32::from(d.slot[27]);
    assert_eq!(lookup(&vol, &mut disk, first, &w("g.txt")).unwrap().unwrap().index, 2);
    // Now the root directory has a free slot.
    assert_eq!(rename(&mut vol, &mut disk, &w("/F2.TXT"), &w("/H.TXT")), Ok(()));
    assert_eq!(lookup(&vol, &mut disk, 0, &w("H.TXT")).unwrap().unwrap().index, 1);
    assert!(lookup(&vol, &mut disk, 0, &w("F2.TXT")).unwrap().is_none());
}

#[test]
fn a_directory_that_moves_names_its_new_parent() {
    let (mut disk, mut vol) = small_root(16);
    assert_eq!(make_dir(&mut vol, &mut disk, &w("/a"), when()), Ok(()));
    assert_eq!(make_dir(&mut vol, &mut disk, &w("/b"), when()), Ok(()));
    assert_eq!(make_dir(&mut vol, &mut disk, &w("/a/c"), when()), Ok(()));
    let b = lookup(&vol, &mut disk, 0, &w("b")).unwrap().unwrap();
    let b_first = u32::from(b.slot[26]) + 256 * u32::from(b.slot[27]);
    assert_eq!(rename(&mut vol, &mut disk, &w("/a/c"), &w("/b/c2")), Ok(()));
    let c = lookup(&vol, &mut disk, b_first, &w("c2")).unwrap().unwrap();
    let c_first = u32::from(c.slot[26]) + 256 * u32::from(c.slot[27]);
    let dotdot = read_slot(&vol, &mut disk, c_first, 1).unwrap().unwrap();
    assert_eq!(&dotdot[0..11], b"..         ");
    assert_eq!(u32::from(dotdot[26]) + 256 * u32::from(dotdot[27]), b_first);
    // Moved to the root directory, it names cluster 0.
    assert_eq!(rename(&mut vol, &mut disk, &w("/b/c2"), &w("/c3")), Ok(()));
    let dotdot = read_slot(&vol, &mut disk, c_first, 1).unwrap().unwrap();
    assert_eq!(u32::from(dotdot[26]) + 256 * u32::from(dotdot[27]), 0);
}

#[test]
fn the_least_free_tail_is_taken() {
    let (mut disk, mut vol) = small_root(64);
    let a = add_entry(&mut vol, &mut disk, 0, &w("long name one.txt"), ATTR_ARCHIVE, 0, 0, when()).unwrap();
    assert_eq!(a.short, b"LONGNA~1TXT".to_vec());
    let b = add_entry(&mut vol, &mut disk, 0, &w("long name two.txt"), ATTR_ARCHIVE, 0, 0, when()).unwrap();
    assert_eq!(b.short, b"LONGNA~2TXT".to_vec());
    assert_eq!(remove_entry(&vol, &mut disk, 0, a.index, a.fragments), Ok(()));
    let c = add_entry(&mut vol, &mut disk, 0, &w("long name six.txt"), ATTR_ARCHIVE, 0, 0, when()).unwrap();
    assert_eq!(c.short, b"LONGNA~1TXT".to_vec());
}

#[test]
fn a_full_directory_takes_one_more_cluster() {
    let (mut disk, mut vol) = small_root(16);
    assert_eq!(make_dir(&mut vol, &mut disk, &w("/d"), when()), Ok(()));
    let d = lookup(&vol, &mut disk, 0, &w("d")).unwrap().unwrap();
    let first = u32::from(d.slot[26]) + 256 * u32::from(d.slot[27]);
    let free = free_count(&mut vol, &mut disk).unwrap();
    // The cluster holds 64 slots, two of them taken.
    for i in 0..62u32 {
        let name = w(&format!("N{}", i));
        let added = add_entry(&mut vol, &mut disk, first, &name, ATTR_ARCHIVE, 0, 0, when()).unwrap();
        assert_eq!(added.index, i + 2);
    }
    assert_eq!(free_count(&mut vol, &mut disk), Ok(free));
    assert_eq!(read_slot(&vol, &mut disk, first, 64).unwrap(), None);
    let added = add_entry(&mut vol, &mut disk, first, &w("LAST"), ATTR_ARCHIVE, 0, 0, when()).unwrap();
    assert_eq!(added.index, 64);
    assert_eq!(free_count(&mut vol, &mut disk), Ok(free - 1));
    assert_eq!(read_slot(&vol, &mut disk, first, 65).unwrap(), Some(vec![0u8; 32]));
    assert_eq!(read_slot(&vol, &mut disk, first, 127).unwrap(), Some(vec![0u8; 32]));
    assert_eq!(read_slot(&vol, &mut disk, first, 128).unwrap(), None);
}
