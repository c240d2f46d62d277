use fatfs::dir::{lookup, next_entry, read_slot, write_slot};
use fatfs::dirent::{make_short_slot, name_checksum, Stamp};
use fatfs::dirops::{add_entry, find_room, is_dir_empty, remove_entry, update_entry};
use fatfs::error::FsError;
use fatfs::fat::{free_count, Volume};
use fatfs::format::{format_volume, FormatOptions};
use fatfs::fs::{FatFs, OpenMode};
use fatfs::ramdisk::RamDisk;
use fatfs::volume::FatType;

fn u(s: &str) -> Vec<u16> {
    s.encode_utf16().collect()
}

fn s(v: &[u16]) -> String {
    String::from_utf16(v).unwrap()
}

fn stamp() -> Stamp {
    Stamp { date: 0x5A21, time: 0x1234 }
}

fn volume(sectors: u32, spc: u8, root_entries: u16) -> (RamDisk, Volume) {
    let mut disk = RamDisk::new(0, 512, sectors);
    let opts = FormatOptions { sectors_per_cluster: spc, fat_count: 2, root_entries, serial: 1 };
    let g = format_volume(&mut disk, 0, 0, &opts).unwrap();
    (disk, Volume::new(g, 0, false))
}

fn mounted(sectors: u32, spc: u8) -> FatFs<RamDisk> {
    let (disk, _) = volume(sectors, spc, 0);
    let mut fs = FatFs::new(disk, 0);
    assert_eq!(fs.mount(), Ok(()));
    fs
}

fn create() -> OpenMode {
    OpenMode { write: true, create: true, exclusive: false, truncate: false }
}

fn listing(fs: &mut FatFs<RamDisk>, path: &str) -> Vec<String> {
    let d = fs.open_dir(&u(path)).unwrap();
    let mut names = Vec::new();
    while let Some(e) = fs.read_dir(d).unwrap() {
        names.push(s(&e.name));
    }
    assert_eq!(fs.close(d), Ok(()));
    names
}

fn touch(fs: &mut FatFs<RamDisk>, path: &str) {
    let h = fs.open(&u(path), create()).unwrap();
    assert_eq!(fs.close(h), Ok(()));
}

#[test]
fn a_fresh_root_directory_is_empty() {
    for (sectors, spc) in [(2880u32, 1u8), (16600, 4), (70000, 1)] {
        let (mut disk, vol) = volume(sectors, spc, 0);
        assert_eq!(is_dir_empty(&vol, &mut disk, 0), Ok(true));
        assert!(lookup(&vol, &mut disk, 0, &u("a")).unwrap().is_none());
        assert!(next_entry(&vol, &mut disk, 0, 0).unwrap().is_none());
        assert_eq!(find_room(&vol, &mut disk, 0, 16), Ok(Some(0)));
        assert_eq!(read_slot(&vol, &mut disk, 0, 0).unwrap(), Some(vec![0u8; 32]));
    }
}

#[test]
fn the_fixed_root_directory_ends_after_its_entries() {
    let (mut disk, vol) = volume(2880, 1, 32);
    assert!(vol.geom.fat_type == FatType::Fat12);
    assert!(read_slot(&vol, &mut disk, 0, 31).unwrap().is_some());
    assert!(read_slot(&vol, &mut disk, 0, 32).unwrap().is_none());
    assert_eq!(write_slot(&vol, &mut disk, 0, 32, &vec![1u8; 32]), Err(FsError::InvalidParameter));
    assert_eq!(write_slot(&vol, &mut disk, 0, 3, &vec![1u8; 31]), Err(FsError::InvalidParameter));
    assert_eq!(write_slot(&vol, &mut disk, 0, 3, &vec![1u8; 32]), Ok(()));
    assert_eq!(read_slot(&vol, &mut disk, 0, 3).unwrap(), Some(vec![1u8; 32]));
    assert_eq!(read_slot(&vol, &mut disk, 0, 2).unwrap(), Some(vec![0u8; 32]));
    assert_eq!(read_slot(&vol, &mut disk, 0, 4).unwrap(), Some(vec![0u8; 32]));
}

#[test]
fn the_fixed_root_directory_fills_up() {
    let (mut disk, mut vol) = volume(2880, 1, 16);
    for i in 0..16 {
        let name = u(&format!("F{}", i));
        assert!(add_entry(&mut vol, &mut disk, 0, &name, 0x20, 0, 0, stamp()).is_ok());
    }
    let r = add_entry(&mut vol, &mut disk, 0, &u("ONEMORE"), 0x20, 0, 0, stamp());
    assert_eq!(r.err(), Some(FsError::DirectoryFull));
    // A deleted entry makes room again.
    let found = lookup(&vol, &mut disk, 0, &u("F7")).unwrap().unwrap();
    assert_eq!(remove_entry(&vol, &mut disk, 0, found.index, found.fragments), Ok(()));
    let added = add_entry(&mut vol, &mut disk, 0, &u("ONEMORE"), 0x20, 0, 0, stamp()).unwrap();
    assert_eq!(added.index, 7);
}

#[test]
fn an_entry_with_a_short_name_takes_one_slot() {
    let (mut disk, mut vol) = volume(16600, 4, 0);
    let added = add_entry(&mut vol, &mut disk, 0, &u("README.TXT"), 0x20, 9, 77, stamp()).unwrap();
    assert_eq!((added.index, added.fragments), (0, 0));
    assert_eq!(added.short, b"README  TXT".to_vec());
    let slot = read_slot(&vol, &mut disk, 0, 0).unwrap().unwrap();
    assert_eq!(slot, make_short_slot(&added.short, 0x20, 9, 77, stamp()));
    let found = lookup(&vol, &mut disk, 0, &u("readme.txt")).unwrap().unwrap();
    assert_eq!((found.index, found.fragments), (0, 0));
    assert_eq!(s(&found.name), "README.TXT");
    assert_eq!(found.slot, slot);
}

#[test]
fn an_entry_with_a_long_name_is_stored_with_fragments() {
    let (mut disk, mut vol) = volume(16600, 4, 0);
    let name = u("The quick brown fox jumps.text");
    let added = add_entry(&mut vol, &mut disk, 0, &name, 0x20, 0, 0, stamp()).unwrap();
    assert_eq!((added.index, added.fragments), (3, 3));
    assert_eq!(added.short, b"THEQUI~1TEX".to_vec());
    let sum = name_checksum(&added.short);
    for (i, order) in [(0u32, 0x43u8), (1, 2), (2, 1)] {
        let slot = read_slot(&vol, &mut disk, 0, i).unwrap().unwrap();
        assert_eq!(slot[0], order);
        assert_eq!(slot[11], 0x0F);
        assert_eq!(slot[13], sum);
    }
    let found = lookup(&vol, &mut disk, 0, &name).unwrap().unwrap();
    assert_eq!((found.index, found.fragments), (3, 3));
    assert_eq!(found.name, name);
    // The entry is found under its short name as well, and in any letter case.
    assert_eq!(lookup(&vol, &mut disk, 0, &u("thequi~1.tex")).unwrap().unwrap().index, 3);
    assert_eq!(lookup(&vol, &mut disk, 0, &u("THE QUICK BROWN FOX JUMPS.TEXT")).unwrap().unwrap().index, 3);
    assert!(lookup(&vol, &mut disk, 0, &u("The quick brown fox jumps.tex")).unwrap().is_none());
}

#[test]
fn names_that_differ_in_case_only_keep_the_plain_short_name() {
    let (mut disk, mut vol) = volume(16600, 4, 0);
    let added = add_entry(&mut vol, &mut disk, 0, &u("ReadMe.txt"), 0x20, 0, 0, stamp()).unwrap();
    assert_eq!((added.index, added.fragments), (1, 1));
    assert_eq!(added.short, b"README  TXT".to_vec());
    assert_eq!(s(&next_entry(&vol, &mut disk, 0, 0).unwrap().unwrap().name), "ReadMe.txt");
}

#[test]
fn numeric_tails_avoid_short_names_that_are_taken() {
    let (mut disk, mut vol) = volume(16600, 4, 0);
    let mut shorts = Vec::new();
    for i in 0..12 {
        let name = u(&format!("A long name number {}.text", i));
        let added = add_entry(&mut vol, &mut disk, 0, &name, 0x20, 0, 0, stamp()).unwrap();
        shorts.push(String::from_utf8(added.short).unwrap());
    }
    assert_eq!(shorts[0], "ALONGN~1TEX");
    assert_eq!(shorts[8], "ALONGN~9TEX");
    assert_eq!(shorts[9], "ALONG~10TEX");
    assert_eq!(shorts[11], "ALONG~12TEX");
    for i in 0..12 {
        let name = u(&format!("A long name number {}.text", i));
        assert_eq!(lookup(&vol, &mut disk, 0, &name).unwrap().unwrap().name, name);
    }
}

#[test]
fn a_name_that_is_taken_is_refused() {
    let (mut disk, mut vol) = volume(16600, 4, 0);
    assert!(add_entry(&mut vol, &mut disk, 0, &u("Some File.txt"), 0x20, 0, 0, stamp()).is_ok());
    for taken in ["Some File.txt", "some file.TXT", "SOMEFI~1.TXT"] {
        let r = add_entry(&mut vol, &mut disk, 0, &u(taken), 0x20, 0, 0, stamp());
        assert_eq!(r.err(), Some(FsError::AlreadyExists), "{}", taken);
    }
    for bad in ["", "a/b", "a.", "a?"] {
        let r = add_entry(&mut vol, &mut disk, 0, &u(bad), 0x20, 0, 0, stamp());
        assert_eq!(r.err(), Some(FsError::InvalidParameter), "{:?}", bad);
    }
    let r = add_entry(&mut vol, &mut disk, 0, &u("label"), 0x08, 0, 0, stamp());
    assert_eq!(r.err(), Some(FsError::InvalidParameter));
}

#[test]
fn removing_marks_the_fragments_and_the_short_entry() {
    let (mut disk, mut vol) = volume(16600, 4, 0);
    assert!(add_entry(&mut vol, &mut disk, 0, &u("FIRST"), 0x20, 0, 0, stamp()).is_ok());
    let name = u("a name with fragments.txt");
    let added = add_entry(&mut vol, &mut disk, 0, &name, 0x20, 0, 0, stamp()).unwrap();
    assert_eq!((added.index, added.fragments), (3, 2));
    assert!(add_entry(&mut vol, &mut disk, 0, &u("LAST"), 0x20, 0, 0, stamp()).is_ok());
    assert_eq!(remove_entry(&vol, &mut disk, 0, 3, 2), Ok(()));
    for i in 1..=3 {
        assert_eq!(read_slot(&vol, &mut disk, 0, i).unwrap().unwrap()[0], 0xE5);
    }
    assert!(lookup(&vol, &mut disk, 0, &name).unwrap().is_none());
    assert_eq!(lookup(&vol, &mut disk, 0, &u("first")).unwrap().unwrap().index, 0);
    assert_eq!(lookup(&vol, &mut disk, 0, &u("last")).unwrap().unwrap().index, 4);
    // The run of three free slots is used again.
    assert_eq!(find_room(&vol, &mut disk, 0, 3), Ok(Some(1)));
    assert_eq!(find_room(&vol, &mut disk, 0, 4), Ok(Some(5)));
    assert_eq!(remove_entry(&vol, &mut disk, 0, 3, 4), Err(FsError::InvalidParameter));
    assert_eq!(remove_entry(&vol, &mut disk, 0, 3, 21), Err(FsError::InvalidParameter));
}

#[test]
fn fragments_with_a_wrong_checksum_are_not_shown() {
    let (mut disk, mut vol) = volume(16600, 4, 0);
    let name = u("a name with fragments.txt");
    let added = add_entry(&mut vol, &mut disk, 0, &name, 0x20, 0, 0, stamp()).unwrap();
    let mut slot = read_slot(&vol, &mut disk, 0, 1).unwrap().unwrap();
    slot[13] = slot[13].wrapping_add(1);
    assert_eq!(write_slot(&vol, &mut disk, 0, 1, &slot), Ok(()));
    let found = next_entry(&vol, &mut disk, 0, 0).unwrap().unwrap();
    assert_eq!(found.index, added.index);
    assert_eq!(found.fragments, 0);
    assert_eq!(s(&found.name), "ANAMEW~1.TXT");
    assert!(next_entry(&vol, &mut disk, 0, found.index + 1).unwrap().is_none());
    assert!(lookup(&vol, &mut disk, 0, &name).unwrap().is_none());
    assert!(lookup(&vol, &mut disk, 0, &u("ANAMEW~1.TXT")).unwrap().is_some());
}

#[test]
fn an_entry_is_updated_in_place() {
    let (mut disk, mut vol) = volume(16600, 4, 0);
    let added = add_entry(&mut vol, &mut disk, 0, &u("data.bin"), 0x20, 0, 0, stamp()).unwrap();
    let later = Stamp { date: 0x5B00, time: 2 };
    assert_eq!(update_entry(&vol, &mut disk, 0, added.index, 17, 12345, later), Ok(()));
    let found = lookup(&vol, &mut disk, 0, &u("data.bin")).unwrap().unwrap();
    assert_eq!(found.slot, make_short_slot(&added.short, 0x20, 17, 12345, stamp())[..20]
        .iter()
        .copied()
        .chain(make_short_slot(&added.short, 0x20, 17, 12345, later)[20..].iter().copied())
        .collect::<Vec<u8>>());
    assert_eq!(update_entry(&vol, &mut disk, 0, 0, 1, 1, later), Err(FsError::InvalidParameter));
    assert_eq!(update_entry(&vol, &mut disk, 0, 9, 1, 1, later), Err(FsError::InvalidParameter));
}

#[test]
fn a_directory_grows_by_a_cluster_when_it_is_full() {
    let mut fs = mounted(16600, 1);
    assert_eq!(fs.mkdir(&u("/d")), Ok(()));
    let before = fs.stat_volume().unwrap().free_clusters;
    // A cluster of 512 bytes holds 16 slots, two of which are taken by the dot entries.
    for i in 0..14 {
        touch(&mut fs, &format!("/d/F{}", i));
    }
    assert_eq!(fs.stat_volume().unwrap().free_clusters, before);
    touch(&mut fs, "/d/F14");
    assert_eq!(fs.stat_volume().unwrap().free_clusters, before - 1);
    let names = listing(&mut fs, "/d");
    assert_eq!(names.len(), 17);
    assert_eq!(names[16], "F14");
    // A long name may need slots in two new clusters.
    let long = "z".repeat(200);
    for i in 0..13 {
        touch(&mut fs, &format!("/d/G{}", i));
    }
    touch(&mut fs, &format!("/d/{}", long));
    assert_eq!(listing(&mut fs, "/d").last().unwrap(), &long);
}

#[test]
fn a_long_name_round_trips_through_create_and_list() {
    let mut fs = mounted(16600, 4);
    let names = [
        "a",
        "READ.ME",
        "lower.txt",
        "Mixed Case Name.Txt",
        "exactly 13 ch",
        "exactly twenty-six chars!!",
        "A name that is a good deal longer than one cluster of directory slots could hold.data",
        "\u{4e2d}\u{6587}\u{540d}\u{79f0}.txt",
        "smile \u{1F600}.txt",
        ".hidden",
        "two..dots",
    ];
    for n in names {
        touch(&mut fs, &format!("/{}", n));
    }
    let longest = "n".repeat(255);
    touch(&mut fs, &format!("/{}", longest));
    let mut want: Vec<String> = names.iter().map(|n| n.to_string()).collect();
    want.push(longest);
    assert_eq!(listing(&mut fs, "/"), want);
    assert_eq!(fs.unmount(), Ok(()));
    assert_eq!(fs.mount(), Ok(()));
    assert_eq!(listing(&mut fs, "/"), want);
}

#[test]
fn create_delete_recreate_gives_a_new_empty_file() {
    let mut fs = mounted(16600, 4);
    let free = fs.stat_volume().unwrap().free_clusters;
    let h = fs.open(&u("/again.txt"), create()).unwrap();
    assert_eq!(fs.write(h, &vec![0xAB; 5000]), Ok(5000));
    assert_eq!(fs.close(h), Ok(()));
    assert_eq!(fs.stat_volume().unwrap().free_clusters, free - 3);
    assert_eq!(fs.unlink(&u("/again.txt")), Ok(()));
    assert_eq!(fs.stat_volume().unwrap().free_clusters, free);
    assert_eq!(fs.unlink(&u("/again.txt")), Err(FsError::NotFound));

    let h = fs.open(&u("/again.txt"), create()).unwrap();
    assert_eq!(fs.read(h, 100).unwrap(), Vec::<u8>::new());
    assert_eq!(fs.close(h), Ok(()));
    let d = fs.open_dir(&u("/")).unwrap();
    let e = fs.read_dir(d).unwrap().unwrap();
    assert_eq!(s(&e.name), "again.txt");
    assert_eq!(e.size, 0);
    assert_eq!(e.first_cluster, 0);
    assert!(fs.read_dir(d).unwrap().is_none());
    assert_eq!(fs.stat_volume().unwrap().free_clusters, free);

    // What is written next does not show the old bytes.
    let h = fs.open(&u("/again.txt"), OpenMode { write: true, create: false, exclusive: false, truncate: false }).unwrap();
    assert_eq!(fs.seek(h, 100), Ok(()));
    assert_eq!(fs.write(h, &vec![1]), Ok(1));
    assert_eq!(fs.seek(h, 0), Ok(()));
    let mut want = vec![0u8; 100];
    want.push(1);
    assert_eq!(fs.read(h, 1000).unwrap(), want);
}

#[test]
fn directories_are_made_entered_and_removed() {
    let mut fs = mounted(16600, 4);
    let free = fs.stat_volume().unwrap().free_clusters;
    assert_eq!(fs.mkdir(&u("/a")), Ok(()));
    assert_eq!(fs.mkdir(&u("/a/b")), Ok(()));
    assert_eq!(fs.mkdir(&u("/a/b/A long directory name")), Ok(()));
    assert_eq!(fs.stat_volume().unwrap().free_clusters, free - 3);
    assert_eq!(fs.mkdir(&u("/a")), Err(FsError::AlreadyExists));
    assert_eq!(fs.mkdir(&u("/A/B")), Err(FsError::AlreadyExists));
    assert_eq!(fs.mkdir(&u("/")), Err(FsError::AlreadyExists));
    assert_eq!(fs.mkdir(&u("/x/y")), Err(FsError::NotFound));
    assert_eq!(fs.mkdir(&u("/a/b?")), Err(FsError::InvalidParameter));
    touch(&mut fs, "/a/file");
    assert_eq!(fs.mkdir(&u("/a/file/c")), Err(FsError::NotADirectory));
    assert_eq!(fs.mkdir(&u("/a/file")), Err(FsError::AlreadyExists));
    assert_eq!(listing(&mut fs, "/"), vec!["a"]);
    assert_eq!(listing(&mut fs, "/a"), vec![".", "..", "b", "file"]);
    assert_eq!(listing(&mut fs, "/a/b"), vec![".", "..", "A long directory name"]);
    assert_eq!(listing(&mut fs, "/a/./b/../b"), vec![".", "..", "A long directory name"]);
    assert_eq!(listing(&mut fs, "/a/.."), vec!["a"]);
    assert_eq!(fs.open_dir(&u("/a/file")).err(), Some(FsError::NotADirectory));
    assert_eq!(fs.open_dir(&u("/a/none")).err(), Some(FsError::NotFound));
    assert_eq!(fs.open_dir(&u("/none/b")).err(), Some(FsError::NotFound));

    assert_eq!(fs.unlink(&u("/a")), Err(FsError::DirectoryNotEmpty));
    assert_eq!(fs.unlink(&u("/a/b")), Err(FsError::DirectoryNotEmpty));
    assert_eq!(fs.unlink(&u("/")), Err(FsError::InvalidParameter));
    assert_eq!(fs.unlink(&u("/a/b/a long directory NAME")), Ok(()));
    assert_eq!(fs.unlink(&u("/a/b")), Ok(()));
    assert_eq!(fs.unlink(&u("/a/file")), Ok(()));
    assert_eq!(fs.unlink(&u("/a")), Ok(()));
    assert_eq!(fs.stat_volume().unwrap().free_clusters, free);
    assert_eq!(listing(&mut fs, "/"), Vec::<String>::new());
}

#[test]
fn renaming_keeps_the_chain_and_the_size() {
    let mut fs = mounted(16600, 4);
    assert_eq!(fs.mkdir(&u("/d")), Ok(()));
    assert_eq!(fs.mkdir(&u("/e")), Ok(()));
    let h = fs.open(&u("/d/old name.txt"), create()).unwrap();
    let data: Vec<u8> = (0..3000u32).map(|i| (i % 253) as u8).collect();
    assert_eq!(fs.write(h, &data), Ok(3000));
    assert_eq!(fs.close(h), Ok(()));
    let free = fs.stat_volume().unwrap().free_clusters;

    assert_eq!(fs.rename(&u("/d/old name.txt"), &u("/e/NEW.TXT")), Ok(()));
    assert_eq!(fs.stat_volume().unwrap().free_clusters, free);
    assert_eq!(listing(&mut fs, "/d"), vec![".", ".."]);
    assert_eq!(listing(&mut fs, "/e"), vec![".", "..", "NEW.TXT"]);
    let h = fs.open(&u("/e/new.txt"), OpenMode { write: false, create: false, exclusive: false, truncate: false }).unwrap();
    assert_eq!(fs.read(h, 5000).unwrap(), data);
    assert_eq!(fs.close(h), Ok(()));

    assert_eq!(fs.rename(&u("/e/new.txt"), &u("/e")), Err(FsError::AlreadyExists));
    assert_eq!(fs.rename(&u("/e/new.txt"), &u("/")), Err(FsError::AlreadyExists));
    assert_eq!(fs.rename(&u("/e/none"), &u("/e/x")), Err(FsError::NotFound));
    assert_eq!(fs.rename(&u("/"), &u("/e/x")), Err(FsError::InvalidParameter));
    assert_eq!(fs.rename(&u("/e/new.txt"), &u("/none/x")), Err(FsError::NotFound));
    assert_eq!(listing(&mut fs, "/e"), vec![".", "..", "NEW.TXT"]);

    // A directory that moves has its `..` set to its new parent.
    assert_eq!(fs.mkdir(&u("/d/sub")), Ok(()));
    touch(&mut fs, "/d/sub/inner");
    assert_eq!(fs.rename(&u("/d/sub"), &u("/e/moved")), Ok(()));
    assert_eq!(listing(&mut fs, "/e/moved"), vec![".", "..", "inner"]);
    assert_eq!(listing(&mut fs, "/e/moved/.."), vec![".", "..", "NEW.TXT", "moved"]);
    assert_eq!(fs.rename(&u("/e/moved"), &u("/top")), Ok(()));
    assert_eq!(listing(&mut fs, "/top/.."), vec!["d", "e", "top"]);
}

#[test]
fn a_listing_goes_on_where_it_stood() {
    let mut fs = mounted(16600, 4);
    for n in ["one", "two", "three"] {
        touch(&mut fs, &format!("/{}", n));
    }
    let a = fs.open_dir(&u("/")).unwrap();
    let b = fs.open_dir(&u("/")).unwrap();
    assert_eq!(s(&fs.read_dir(a).unwrap().unwrap().name), "one");
    assert_eq!(s(&fs.read_dir(a).unwrap().unwrap().name), "two");
    assert_eq!(s(&fs.read_dir(b).unwrap().unwrap().name), "one");
    assert_eq!(fs.unlink(&u("/two")), Ok(()));
    assert_eq!(s(&fs.read_dir(b).unwrap().unwrap().name), "three");
    assert_eq!(s(&fs.read_dir(a).unwrap().unwrap().name), "three");
    assert!(fs.read_dir(a).unwrap().is_none());
    assert!(fs.read_dir(a).unwrap().is_none());
}

#[test]
fn the_volume_label_is_not_listed() {
    let (mut disk, mut vol) = volume(16600, 4, 0);
    let label = make_short_slot(&b"MY VOLUME  ".to_vec(), 0x08, 0, 0, stamp());
    assert_eq!(write_slot(&vol, &mut disk, 0, 0, &label), Ok(()));
    assert!(add_entry(&mut vol, &mut disk, 0, &u("FILE"), 0x20, 0, 0, stamp()).is_ok());
    let first = next_entry(&vol, &mut disk, 0, 0).unwrap().unwrap();
    assert_eq!((first.index, s(&first.name)), (1, "FILE".to_string()));
    assert!(lookup(&vol, &mut disk, 0, &u("MY VOLUME")).unwrap().is_none());
    assert_eq!(is_dir_empty(&vol, &mut disk, 0), Ok(false));
    assert_eq!(free_count(&mut vol, &mut disk).unwrap(), vol.geom.cluster_count);
}
