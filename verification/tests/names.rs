use fatfs::dirent::{
    is_slot_free, is_slot_long, make_fragment_slot, make_short_slot, name_checksum,
    read_fragment_units, restamp_slot, slot_first_cluster, slot_size, slot_written, Stamp,
};
use fatfs::name::{
    check_name, classify, make_short_basis, make_tailed, name_fragment, names_equal, names_match,
    short_display, to_upper, trim_units, Naming,
};
use fatfs::path::split_path;

fn u(s: &str) -> Vec<u16> {
    s.encode_utf16().collect()
}

fn s(v: &[u16]) -> String {
    String::from_utf16(v).unwrap()
}

fn short(name: &str) -> Vec<u8> {
    assert_eq!(name.len(), 11);
    name.bytes().collect()
}

#[test]
fn letter_case_is_folded_for_ascii_letters_only() {
    assert_eq!(to_upper('a' as u16), 'A' as u16);
    assert_eq!(to_upper('z' as u16), 'Z' as u16);
    assert_eq!(to_upper('A' as u16), 'A' as u16);
    assert_eq!(to_upper('`' as u16), '`' as u16);
    assert_eq!(to_upper('{' as u16), '{' as u16);
    assert_eq!(to_upper(0xE4), 0xE4);
    assert!(names_match(&u("ReadMe.TXT"), &u("readme.txt")));
    assert!(!names_match(&u("readme.txt"), &u("readme.tx")));
    assert!(!names_match(&u("\u{e4}"), &u("\u{c4}")));
    assert!(names_equal(&u("abc"), &u("abc")));
    assert!(!names_equal(&u("abc"), &u("abC")));
    assert!(!names_equal(&u("abc"), &u("abcd")));
}

#[test]
fn names_are_checked() {
    for ok in ["a", "a.b", "A long name with spaces.txt", ".hidden", "x+y=z", "\u{e4}\u{f6}\u{fc}"] {
        assert!(check_name(&u(ok)), "{}", ok);
    }
    let long = "x".repeat(255);
    assert!(check_name(&u(&long)));
    let too_long = "x".repeat(256);
    for bad in
        ["", ".", "..", "a.", "a ", "a/b", "a\\b", "a:b", "a*b", "a?b", "a\"b", "a<b", "a>b", "a|b", "a\u{1}b", "a\u{7f}", &too_long]
    {
        assert!(!check_name(&u(bad)), "{:?}", bad);
    }
}

#[test]
fn short_names_are_shown() {
    assert_eq!(s(&short_display(&short("README  TXT"), 0)), "README.TXT");
    assert_eq!(s(&short_display(&short("README     "), 0)), "README");
    assert_eq!(s(&short_display(&short("A       B  "), 0)), "A.B");
    assert_eq!(s(&short_display(&short("A B     C D"), 0)), "A B.C D");
    assert_eq!(s(&short_display(&short(".          "), 0)), ".");
    assert_eq!(s(&short_display(&short("..         "), 0)), "..");
    assert_eq!(s(&short_display(&short("README  TXT"), 0x08)), "readme.TXT");
    assert_eq!(s(&short_display(&short("README  TXT"), 0x10)), "README.txt");
    assert_eq!(s(&short_display(&short("README  TXT"), 0x18)), "readme.txt");
    let mut kanji = short("XBC        ");
    kanji[0] = 0x05;
    assert_eq!(short_display(&kanji, 0), vec![0xE5, 'B' as u16, 'C' as u16]);
}

#[test]
fn short_names_are_derived() {
    let cases = [
        ("README.TXT", "README  TXT", 6),
        ("readme.txt", "README  TXT", 6),
        ("a", "A          ", 1),
        ("archive.tar.gz", "ARCHIVETGZ ", 8),
        ("A long name.text", "ALONGNAMTEX", 8),
        (".bashrc", "        BAS", 0),
        ("x+y=z.[1]", "X_Y_Z   _1_", 5),
        ("\u{e4}b", "_B         ", 2),
        ("noext", "NOEXT      ", 5),
        ("12345678.123", "12345678123", 8),
        ("123456789.1234", "12345678123", 8),
    ];
    for (name, want, stem) in cases {
        let (basis, n) = make_short_basis(&u(name));
        assert_eq!(String::from_utf8(basis).unwrap(), want, "{}", name);
        assert_eq!(n, stem, "{}", name);
    }
}

#[test]
fn names_are_classified() {
    assert!(matches!(classify(&u("README.TXT")).0, Naming::ShortOnly));
    assert!(matches!(classify(&u("A")).0, Naming::ShortOnly));
    assert!(matches!(classify(&u("readme.txt")).0, Naming::LongPlain));
    assert!(matches!(classify(&u("ReadMe.Txt")).0, Naming::LongPlain));
    assert!(matches!(classify(&u("A long name.text")).0, Naming::LongTailed));
    assert!(matches!(classify(&u("archive.tar.gz")).0, Naming::LongTailed));
    assert!(matches!(classify(&u(".bashrc")).0, Naming::LongTailed));
    assert!(matches!(classify(&u("a b")).0, Naming::LongTailed));
    assert!(matches!(classify(&u("x+y")).0, Naming::LongTailed));
}

#[test]
fn numeric_tails_cut_the_base() {
    let basis = short("ALONGNAMTEX");
    assert_eq!(String::from_utf8(make_tailed(&basis, 8, 1)).unwrap(), "ALONGN~1TEX");
    assert_eq!(String::from_utf8(make_tailed(&basis, 8, 9)).unwrap(), "ALONGN~9TEX");
    assert_eq!(String::from_utf8(make_tailed(&basis, 8, 10)).unwrap(), "ALONG~10TEX");
    assert_eq!(String::from_utf8(make_tailed(&basis, 8, 123)).unwrap(), "ALON~123TEX");
    assert_eq!(String::from_utf8(make_tailed(&basis, 8, 999_999)).unwrap(), "A~999999TEX");
    assert_eq!(String::from_utf8(make_tailed(&basis, 8, 100_000)).unwrap(), "A~100000TEX");
    let small = short("AB      C  ");
    assert_eq!(String::from_utf8(make_tailed(&small, 2, 1)).unwrap(), "AB~1    C  ");
    assert_eq!(String::from_utf8(make_tailed(&small, 2, 4321)).unwrap(), "AB~4321 C  ");
    assert_eq!(String::from_utf8(make_tailed(&small, 2, 54321)).unwrap(), "AB~54321C  ");
    let none = short("        BAS");
    assert_eq!(String::from_utf8(make_tailed(&none, 0, 7)).unwrap(), "~7      BAS");
}

#[test]
fn the_checksum_is_the_rotating_sum() {
    // The reference computation, bit by bit.
    fn reference(name: &[u8]) -> u8 {
        let mut sum: u8 = 0;
        for &b in name {
            sum = (if sum & 1 != 0 { 0x80u8 } else { 0 }).wrapping_add(sum >> 1).wrapping_add(b);
        }
        sum
    }
    for name in ["README  TXT", "ALONGN~1TEX", "A          ", "~7      BAS", "ZZZZZZZZZZZ"] {
        assert_eq!(name_checksum(&short(name)), reference(name.as_bytes()), "{}", name);
    }
    assert_eq!(name_checksum(&vec![0u8; 11]), 0);
    assert_eq!(name_checksum(&short("FOO     BAR")), reference(b"FOO     BAR"));
    assert_ne!(name_checksum(&short("FOO     BAR")), name_checksum(&short("FOO     BAS")));
}

#[test]
fn fragments_hold_thirteen_units_each() {
    let name = u("The quick brown fox.txt");
    assert_eq!(name.len(), 23);
    let first = name_fragment(&name, 1);
    let second = name_fragment(&name, 2);
    let third = name_fragment(&name, 3);
    assert_eq!(first, name[0..13].to_vec());
    assert_eq!(&second[0..10], &name[13..23]);
    assert_eq!(&second[10..13], &[0, 0xFFFF, 0xFFFF]);
    assert_eq!(third, vec![0xFFFF; 13]);
    let exact = u("exactly 13 ch");
    assert_eq!(name_fragment(&exact, 1), exact);
    assert_eq!(name_fragment(&exact, 2)[0], 0);
}

#[test]
fn a_long_name_comes_back_from_its_fragments() {
    for name in ["a", "exactly 13 ch", "The quick brown fox.txt", "\u{4e2d}\u{6587}.txt"] {
        let name = u(name);
        let count = (name.len() as u32 + 12) / 13;
        let mut units = Vec::new();
        for k in 1..=count {
            let slot = make_fragment_slot(&name_fragment(&name, k), k as u8, 0x5A);
            assert!(is_slot_long(&slot));
            assert!(!is_slot_free(&slot));
            assert_eq!(slot[13], 0x5A);
            units.extend(read_fragment_units(&slot));
        }
        assert_eq!(trim_units(&units), name);
    }
    let longest = u(&"y".repeat(255));
    let mut units = Vec::new();
    for k in 1..=20 {
        units.extend(read_fragment_units(&make_fragment_slot(&name_fragment(&longest, k), k as u8, 0)));
    }
    assert_eq!(units.len(), 260);
    assert_eq!(trim_units(&units), longest);
}

#[test]
fn a_fragment_has_the_layout_of_the_format() {
    let units: Vec<u16> = (1..=13).map(|i| 0x100 * i + i).collect();
    let slot = make_fragment_slot(&units, 0x42, 0xC3);
    assert_eq!(slot.len(), 32);
    assert_eq!(slot[0], 0x42);
    assert_eq!(&slot[1..11], &[1, 1, 2, 2, 3, 3, 4, 4, 5, 5]);
    assert_eq!(slot[11], 0x0F);
    assert_eq!(slot[12], 0);
    assert_eq!(slot[13], 0xC3);
    assert_eq!(&slot[14..26], &[6, 6, 7, 7, 8, 8, 9, 9, 10, 10, 11, 11]);
    assert_eq!(&slot[26..28], &[0, 0]);
    assert_eq!(&slot[28..32], &[12, 12, 13, 13]);
}

#[test]
fn a_short_entry_has_the_layout_of_the_format() {
    let stamp = Stamp { date: 0x5A21, time: 0x8C63 };
    let slot = make_short_slot(&short("README  TXT"), 0x20, 0x0012_3456, 10000, stamp);
    assert_eq!(slot.len(), 32);
    assert_eq!(&slot[0..11], b"README  TXT");
    assert_eq!(slot[11], 0x20);
    assert_eq!(&slot[12..14], &[0, 0]);
    assert_eq!(&slot[14..16], &[0x63, 0x8C]);
    assert_eq!(&slot[16..18], &[0x21, 0x5A]);
    assert_eq!(&slot[18..20], &[0x21, 0x5A]);
    assert_eq!(&slot[20..22], &[0x12, 0x00]);
    assert_eq!(&slot[22..24], &[0x63, 0x8C]);
    assert_eq!(&slot[24..26], &[0x21, 0x5A]);
    assert_eq!(&slot[26..28], &[0x56, 0x34]);
    assert_eq!(&slot[28..32], &[0x10, 0x27, 0, 0]);
    assert_eq!(slot_first_cluster(&slot), 0x0012_3456);
    assert_eq!(slot_size(&slot), 10000);
    assert!(slot_written(&slot) == stamp);
    assert!(!is_slot_free(&slot));
    assert!(!is_slot_long(&slot));

    let later = Stamp { date: 0x5A22, time: 1 };
    let again = restamp_slot(&slot, 7, 0xFFFF_FFFF, later);
    assert_eq!(&again[0..20], &slot[0..20]);
    assert_eq!(slot_first_cluster(&again), 7);
    assert_eq!(slot_size(&again), 0xFFFF_FFFF);
    assert!(slot_written(&again) == later);
}

#[test]
fn free_slots_are_told_by_their_first_byte() {
    let mut slot = vec![0u8; 32];
    assert!(is_slot_free(&slot));
    slot[0] = 0xE5;
    assert!(is_slot_free(&slot));
    slot[0] = 0x05;
    assert!(!is_slot_free(&slot));
    slot[0] = b'A';
    assert!(!is_slot_free(&slot));
}

#[test]
fn paths_are_cut_at_slashes_and_backslashes() {
    let names = |p: &str| -> Vec<String> { split_path(&u(p)).iter().map(|n| s(n)).collect() };
    assert_eq!(names(""), Vec::<String>::new());
    assert_eq!(names("/"), Vec::<String>::new());
    assert_eq!(names("///"), Vec::<String>::new());
    assert_eq!(names("a"), vec!["a"]);
    assert_eq!(names("/a"), vec!["a"]);
    assert_eq!(names("/a/b.txt"), vec!["a", "b.txt"]);
    assert_eq!(names("a\\b/c"), vec!["a", "b", "c"]);
    assert_eq!(names("//a///b//"), vec!["a", "b"]);
    assert_eq!(names("/a b/c d"), vec!["a b", "c d"]);
}
