//! File names: which names are accepted, when two names are the same, how a
//! short name is shown and derived, and how a long name is cut into
//! fragments.
//!
//! A name is a sequence of UTF-16 code units. Letter case is folded for the
//! letters `a` to `z` only.

use vstd::prelude::*;

verus! {

/// The longest name that a directory entry can carry.
pub const MAX_NAME: usize = 255;

/// The unit is one of the letters `a` to `z`.
pub open spec fn is_lower(u: u16) -> bool {
    0x61 <= u <= 0x7A
}

/// The unit with the letters `a` to `z` in upper case.
pub open spec fn upper(u: u16) -> u16 {
    if is_lower(u) {
        (u - 0x20) as u16
    } else {
        u
    }
}

/// The two names are the same but for letter case.
pub open spec fn same_name(a: Seq<u16>, b: Seq<u16>) -> bool {
    a.len() == b.len() && forall|i: int| 0 <= i < a.len() ==> upper(#[trigger] a[i]) == upper(b[i])
}

/// The unit may occur in a name: it is no control character and none of
/// `" * / : < > ? \ |`.
pub open spec fn unit_ok(u: u16) -> bool {
    u >= 0x20 && u != 0x7F && u != 0x22 && u != 0x2A && u != 0x2F && u != 0x3A && u != 0x3C && u
        != 0x3E && u != 0x3F && u != 0x5C && u != 0x7C
}

/// The name can be given to an entry: it has 1 to 255 units, each of which
/// may occur in a name, and ends in neither a space nor a dot.
pub open spec fn name_ok(name: Seq<u16>) -> bool {
    &&& 1 <= name.len() <= MAX_NAME
    &&& forall|i: int| 0 <= i < name.len() ==> unit_ok(#[trigger] name[i])
    &&& name[name.len() - 1] != 0x20
    &&& name[name.len() - 1] != 0x2E
}

/// Folds the letter case of a unit.
pub fn to_upper(u: u16) -> (r: u16)
    ensures
        r == upper(u),
{
    if 0x61 <= u && u <= 0x7A {
        u - 0x20
    } else {
        u
    }
}

/// Tells whether two names are the same but for letter case.
pub fn names_match(a: &Vec<u16>, b: &Vec<u16>) -> (same: bool)
    ensures
        same == same_name(a@, b@),
{
    if a.len() != b.len() {
        return false;
    }
    let mut i: usize = 0;
    while i < a.len()
        invariant
            i <= a.len(),
            a.len() == b.len(),
            forall|k: int| 0 <= k < i ==> upper(#[trigger] a@[k]) == upper(b@[k]),
        decreases a.len() - i,
    {
        if to_upper(a[i]) != to_upper(b[i]) {
            return false;
        }
        i += 1;
    }
    true
}

/// Tells whether a name can be given to an entry.
pub fn check_name(name: &Vec<u16>) -> (ok: bool)
    ensures
        ok == name_ok(name@),
{
    let n = name.len();
    if n < 1 || n > MAX_NAME {
        return false;
    }
    if name[n - 1] == 0x20 || name[n - 1] == 0x2E {
        return false;
    }
    let mut i: usize = 0;
    while i < n
        invariant
            i <= n,
            n == name.len(),
            forall|k: int| 0 <= k < i ==> unit_ok(#[trigger] name@[k]),
        decreases n - i,
    {
        let u = name[i];
        if !(u >= 0x20 && u != 0x7F && u != 0x22 && u != 0x2A && u != 0x2F && u != 0x3A && u != 0x3C
            && u != 0x3E && u != 0x3F && u != 0x5C && u != 0x7C) {
            return false;
        }
        i += 1;
    }
    true
}

/// The length of the first `n` bytes of `s` without the spaces at their end.
pub open spec fn trimmed_len(s: Seq<u8>, n: nat) -> nat
    decreases n,
{
    if n == 0 {
        0
    } else if s[n - 1] != 0x20 {
        n
    } else {
        trimmed_len(s, (n - 1) as nat)
    }
}

/// A byte of a short name as a unit of the name that is shown: in lower
/// case where the entry's case flag asks for it.
pub open spec fn shown_unit(b: u8, lower: bool) -> u16 {
    if lower && 0x41 <= b <= 0x5A {
        (b + 0x20) as u16
    } else {
        b as u16
    }
}

/// The name that a short entry shows: the base without the spaces at its
/// end, and, where the extension is not blank, a dot and the extension.
/// A first byte 05 stands for E5. Bit 3 of `case_flags` asks for a base in
/// lower case, bit 4 for an extension in lower case.
pub open spec fn display_name(short: Seq<u8>, case_flags: u8) -> Seq<u16> {
    let base_len = trimmed_len(short, 8);
    let ext_len = trimmed_len(short.subrange(8, 11), 3);
    let low_base = case_flags / 8 % 2 == 1;
    let low_ext = case_flags / 16 % 2 == 1;
    let base = Seq::new(
        base_len,
        |i: int|
            if i == 0 && short[0] == 0x05 {
                0xE5u16
            } else {
                shown_unit(short[i], low_base)
            },
    );
    if ext_len == 0 {
        base
    } else {
        base + seq![0x2Eu16] + Seq::new(ext_len, |i: int| shown_unit(short[8 + i], low_ext))
    }
}

/// Computes the length of the first `n` bytes without the spaces at their
/// end, for the bytes of `s` from `from` on.
fn trim_len(s: &Vec<u8>, from: usize, n: usize) -> (len: usize)
    requires
        from + n <= s.len(),
    ensures
        len == trimmed_len(s@.subrange(from as int, from + n), n as nat),
        len <= n,
{
    let ghost part = s@.subrange(from as int, from + n);
    let mut k: usize = n;
    while k > 0 && s[from + k - 1] == 0x20
        invariant
            k <= n,
            from + n <= s.len(),
            part == s@.subrange(from as int, from + n),
            trimmed_len(part, n as nat) == trimmed_len(part, k as nat),
        decreases k,
    {
        k -= 1;
    }
    k
}

/// The displayed form of a byte of a short name.
fn show_unit(b: u8, lower: bool) -> (u: u16)
    ensures
        u == shown_unit(b, lower),
{
    if lower && 0x41 <= b && b <= 0x5A {
        (b + 0x20) as u16
    } else {
        b as u16
    }
}

/// Builds the name that a short entry shows.
pub fn short_display(short: &Vec<u8>, case_flags: u8) -> (name: Vec<u16>)
    requires
        short.len() == 11,
    ensures
        name@ == display_name(short@, case_flags),
        name.len() <= 12,
{
    let base_len = trim_len(short, 0, 8);
    let ext_len = trim_len(short, 8, 3);
    assert(short@.subrange(0, 8).subrange(0, 8) =~= short@.subrange(0, 8));
    proof {
        lemma_trimmed_prefix(short@, short@.subrange(0, 8), 8);
    }
    let low_base = case_flags / 8 % 2 == 1;
    let low_ext = case_flags / 16 % 2 == 1;
    let mut name: Vec<u16> = Vec::new();
    let ghost base = Seq::new(
        base_len as nat,
        |i: int|
            if i == 0 && short@[0] == 0x05 {
                0xE5u16
            } else {
                shown_unit(short@[i], low_base)
            },
    );
    let mut i: usize = 0;
    while i < base_len
        invariant
            i <= base_len,
            base_len <= 8,
            short.len() == 11,
            name@ == base.subrange(0, i as int),
            base.len() == base_len,
            forall|k: int|
                0 <= k < base_len ==> #[trigger] base[k] == if k == 0 && short@[0] == 0x05 {
                    0xE5u16
                } else {
                    shown_unit(short@[k], low_base)
                },
        decreases base_len - i,
    {
        if i == 0 && short[0] == 0x05 {
            name.push(0xE5);
        } else {
            name.push(show_unit(short[i], low_base));
        }
        i += 1;
        assert(name@ =~= base.subrange(0, i as int));
    }
    assert(name@ =~= base);
    if ext_len > 0 {
        name.push(0x2E);
        let ghost ext = Seq::new(ext_len as nat, |i: int| shown_unit(short@[8 + i], low_ext));
        let mut j: usize = 0;
        while j < ext_len
            invariant
                j <= ext_len,
                ext_len <= 3,
                short.len() == 11,
                ext.len() == ext_len,
                forall|k: int| 0 <= k < ext_len ==> #[trigger] ext[k] == shown_unit(short@[8 + k], low_ext),
                name@ == base + seq![0x2Eu16] + ext.subrange(0, j as int),
            decreases ext_len - j,
        {
            name.push(show_unit(short[8 + j], low_ext));
            j += 1;
            assert(name@ =~= base + seq![0x2Eu16] + ext.subrange(0, j as int));
        }
        assert(ext.subrange(0, ext_len as int) =~= ext);
    }
    name
}

/// The trimmed length of a prefix depends on the bytes of the prefix only.
proof fn lemma_trimmed_prefix(s: Seq<u8>, p: Seq<u8>, n: nat)
    requires
        n <= p.len(),
        n <= s.len(),
        forall|i: int| 0 <= i < n ==> s[i] == p[i],
    ensures
        trimmed_len(s, n) == trimmed_len(p, n),
    decreases n,
{
    if n > 0 {
        lemma_trimmed_prefix(s, p, (n - 1) as nat);
    }
}

/// The unit can stand in a short name as it is: a capital letter, a digit
/// or one of the signs that a short name admits.
pub open spec fn short_unit_ok(u: u16) -> bool {
    0x21 <= u < 0x7F && !is_lower(u) && u != 0x22 && u != 0x2A && u != 0x2B && u != 0x2C && u
        != 0x2E && u != 0x2F && u != 0x3A && u != 0x3B && u != 0x3C && u != 0x3D && u != 0x3E && u
        != 0x3F && u != 0x5B && u != 0x5C && u != 0x5D && u != 0x7C
}

/// The byte that stands for a unit in a short name: the letter in upper
/// case, the unit itself where a short name admits it, else an underscore.
pub open spec fn short_byte(u: u16) -> u8 {
    if is_lower(u) {
        (u - 0x20) as u8
    } else if short_unit_ok(u) {
        u as u8
    } else {
        0x5F
    }
}

/// The bytes that stand in a short name for the units `from` to `to - 1` of
/// `name`, spaces and dots left out.
pub open spec fn picked(name: Seq<u16>, from: int, to: int) -> Seq<u8>
    decreases to - from,
{
    if to <= from {
        Seq::empty()
    } else {
        let rest = picked(name, from, to - 1);
        let u = name[to - 1];
        if u == 0x20 || u == 0x2E {
            rest
        } else {
            rest.push(short_byte(u))
        }
    }
}

/// The position of the last dot among the first `n` units of `name`, or
/// `name.len()` where there is none.
pub open spec fn last_dot(name: Seq<u16>, n: nat) -> int
    decreases n,
{
    if n == 0 {
        name.len() as int
    } else if name[n - 1] == 0x2E {
        n - 1
    } else {
        last_dot(name, (n - 1) as nat)
    }
}

/// The first `n` bytes of `s`, filled up with spaces to `width` bytes.
pub open spec fn padded(s: Seq<u8>, width: nat) -> Seq<u8> {
    Seq::new(
        width,
        |i: int|
            if i < s.len() {
                s[i]
            } else {
                0x20u8
            },
    )
}

/// The short name that a name is given before a numeric tail is considered:
/// up to 8 bytes for what stands before the last dot and up to 3 for what
/// follows it.
pub open spec fn short_basis(name: Seq<u16>) -> Seq<u8> {
    let dot = last_dot(name, name.len());
    padded(picked(name, 0, dot), 8) + padded(picked(name, dot + 1, name.len() as int), 3)
}

/// The number of bytes of the base of the short name that `name` is given.
pub open spec fn stem_len(name: Seq<u16>) -> nat {
    let n = picked(name, 0, last_dot(name, name.len())).len();
    if n > 8 {
        8
    } else {
        n
    }
}

/// The number of decimal digits of `n`.
pub open spec fn digits(n: nat) -> nat
    decreases n,
{
    if n < 10 {
        1
    } else {
        1 + digits(n / 10)
    }
}

/// Digit `i` of `n`, counted from the last, as a character.
pub open spec fn digit_char(n: nat, i: nat) -> u8
    decreases i,
{
    if i == 0 {
        (0x30 + n % 10) as u8
    } else {
        digit_char(n / 10, (i - 1) as nat)
    }
}

/// The short name `basis` with the numeric tail `~n`: the base is cut so
/// that the tail fits into its 8 bytes, the extension stays.
pub open spec fn with_tail(basis: Seq<u8>, stem: nat, n: nat) -> Seq<u8> {
    let d = digits(n);
    let keep = if stem + 1 + d > 8 {
        (8 - 1 - d) as nat
    } else {
        stem
    };
    Seq::new(
        11,
        |i: int|
            if i >= 8 {
                basis[i]
            } else if i < keep {
                basis[i]
            } else if i == keep {
                0x7Eu8
            } else if i <= keep + d {
                digit_char(n, (keep + d - i) as nat)
            } else {
                0x20u8
            },
    )
}

/// How an entry for `name` is stored.
pub enum Naming {
    /// The short entry alone shows the name.
    ShortOnly,
    /// Fragments carry the name; the short name is the name in upper case.
    LongPlain,
    /// Fragments carry the name; the short name gets a numeric tail.
    LongTailed,
}

/// How the entry for `name` is stored: without fragments where the short
/// name shows the name exactly, with the plain short name where the two
/// differ in letter case only, and with a numeric tail otherwise.
pub open spec fn naming_of(name: Seq<u16>) -> Naming {
    let basis = short_basis(name);
    if stem_len(name) == 0 {
        Naming::LongTailed
    } else if display_name(basis, 0) == name {
        Naming::ShortOnly
    } else if same_name(display_name(basis, 0), name) {
        Naming::LongPlain
    } else {
        Naming::LongTailed
    }
}

/// The number of fragments that hold a name of `len` units.
pub open spec fn fragment_count(len: nat) -> nat {
    (len + 12) / 13
}

/// Unit `i` of a name as the fragments hold it: behind the name stands one
/// unit 0000, and FFFF fills the rest.
pub open spec fn padded_unit(name: Seq<u16>, i: int) -> u16 {
    if i < name.len() {
        name[i]
    } else if i == name.len() {
        0
    } else {
        0xFFFF
    }
}

/// The units of fragment number `k` of `name`, counted from 1.
pub open spec fn fragment_of(name: Seq<u16>, k: int) -> Seq<u16> {
    Seq::new(13, |j: int| padded_unit(name, (k - 1) * 13 + j))
}

/// The position of the first unit 0000 among the units of `units` from
/// `from` on, or `units.len()` where there is none.
pub open spec fn first_zero(units: Seq<u16>, from: int) -> int
    decreases units.len() - from,
{
    if from >= units.len() {
        units.len() as int
    } else if units[from] == 0 {
        from
    } else {
        first_zero(units, from + 1)
    }
}

/// The name that the units of a run of fragments hold: the units before the
/// first 0000.
pub open spec fn trim_name(units: Seq<u16>) -> Seq<u16> {
    units.subrange(0, first_zero(units, 0))
}

/// The units of the first `n` fragments of `name`, in the order of the
/// name.
pub open spec fn fragments_joined(name: Seq<u16>, n: nat) -> Seq<u16>
    decreases n,
{
    if n == 0 {
        Seq::empty()
    } else {
        fragments_joined(name, (n - 1) as nat) + fragment_of(name, n as int)
    }
}

/// The joined fragments hold the name unit by unit, then the padding.
pub proof fn lemma_fragments_joined(name: Seq<u16>, n: nat)
    ensures
        fragments_joined(name, n).len() == 13 * n,
        forall|i: int| 0 <= i < 13 * n ==> fragments_joined(name, n)[i] == padded_unit(name, i),
    decreases n,
{
    if n > 0 {
        lemma_fragments_joined(name, (n - 1) as nat);
    }
}

/// No unit 0000 stands before position `upto`.
proof fn lemma_first_zero(units: Seq<u16>, from: int, upto: int)
    requires
        0 <= from <= upto <= units.len(),
        forall|i: int| from <= i < upto ==> units[i] != 0,
        upto == units.len() || units[upto] == 0,
    ensures
        first_zero(units, from) == upto,
    decreases upto - from,
{
    if from < upto {
        lemma_first_zero(units, from + 1, upto);
    }
}

/// A name that is cut into fragments and joined again is the same name.
pub proof fn lemma_name_round_trip(name: Seq<u16>)
    requires
        name_ok(name),
    ensures
        trim_name(fragments_joined(name, fragment_count(name.len()))) == name,
        1 <= fragment_count(name.len()) <= 20,
{
    let n = fragment_count(name.len());
    let all = fragments_joined(name, n);
    lemma_fragments_joined(name, n);
    assert(name.len() <= 13 * n < name.len() + 13);
    assert forall|i: int| 0 <= i < name.len() implies all[i] != 0 by {
        assert(all[i] == padded_unit(name, i));
        assert(unit_ok(name[i]));
    }
    if name.len() < all.len() {
        assert(all[name.len() as int] == padded_unit(name, name.len() as int));
    }
    lemma_first_zero(all, 0, name.len() as int);
    assert forall|i: int| 0 <= i < name.len() implies all.subrange(0, name.len() as int)[i]
        == name[i] by {
        assert(all[i] == padded_unit(name, i));
    }
    assert(all.subrange(0, name.len() as int) =~= name);
}

/// Builds the units of fragment number `k` of `name`, counted from 1.
pub fn name_fragment(name: &Vec<u16>, k: u32) -> (units: Vec<u16>)
    requires
        1 <= k <= 20,
        name.len() <= MAX_NAME,
    ensures
        units@ == fragment_of(name@, k as int),
        units.len() == 13,
{
    let base: usize = (k as usize - 1) * 13;
    let mut units: Vec<u16> = Vec::new();
    let mut j: usize = 0;
    while j < 13
        invariant
            j <= 13,
            base == (k - 1) * 13,
            base <= 247,
            name.len() <= MAX_NAME,
            units@ == Seq::new(j as nat, |i: int| padded_unit(name@, base + i)),
        decreases 13 - j,
    {
        let i = base + j;
        let u: u16 = if i < name.len() {
            name[i]
        } else if i == name.len() {
            0
        } else {
            0xFFFF
        };
        units.push(u);
        j += 1;
        assert(units@ =~= Seq::new(j as nat, |i: int| padded_unit(name@, base + i)));
    }
    assert(units@ =~= fragment_of(name@, k as int));
    units
}

/// Cuts the units of a run of fragments down to the name they hold.
pub fn trim_units(units: &Vec<u16>) -> (name: Vec<u16>)
    ensures
        name@ == trim_name(units@),
{
    let mut name: Vec<u16> = Vec::new();
    let mut i: usize = 0;
    while i < units.len() && units[i] != 0
        invariant
            i <= units.len(),
            name@ == units@.subrange(0, i as int),
            first_zero(units@, 0) == first_zero(units@, i as int),
        decreases units.len() - i,
    {
        name.push(units[i]);
        i += 1;
        assert(name@ =~= units@.subrange(0, i as int));
    }
    name
}

/// Tells whether two names are the same unit by unit.
pub fn names_equal(a: &Vec<u16>, b: &Vec<u16>) -> (same: bool)
    ensures
        same == (a@ == b@),
{
    if a.len() != b.len() {
        return false;
    }
    let mut i: usize = 0;
    while i < a.len()
        invariant
            i <= a.len(),
            a.len() == b.len(),
            forall|k: int| 0 <= k < i ==> a@[k] == b@[k],
        decreases a.len() - i,
    {
        if a[i] != b[i] {
            return false;
        }
        i += 1;
    }
    assert(a@ =~= b@);
    true
}

/// Finds the last dot of a name.
fn find_last_dot(name: &Vec<u16>) -> (pos: usize)
    ensures
        pos == last_dot(name@, name.len() as nat),
        pos <= name.len(),
{
    let mut n: usize = name.len();
    while n > 0
        invariant
            n <= name.len(),
            last_dot(name@, name.len() as nat) == last_dot(name@, n as nat),
        decreases n,
    {
        if name[n - 1] == 0x2E {
            return n - 1;
        }
        n -= 1;
    }
    name.len()
}

/// The byte that stands for a unit in a short name.
fn to_short_byte(u: u16) -> (b: u8)
    ensures
        b == short_byte(u),
{
    if 0x61 <= u && u <= 0x7A {
        (u - 0x20) as u8
    } else if 0x21 <= u && u < 0x7F && u != 0x22 && u != 0x2A && u != 0x2B && u != 0x2C && u != 0x2E
        && u != 0x2F && u != 0x3A && u != 0x3B && u != 0x3C && u != 0x3D && u != 0x3E && u != 0x3F
        && u != 0x5B && u != 0x5C && u != 0x5D && u != 0x7C {
        u as u8
    } else {
        0x5F
    }
}

/// Picks the bytes that stand in a short name for a part of a name.
fn pick(name: &Vec<u16>, from: usize, to: usize) -> (out: Vec<u8>)
    requires
        to <= name.len(),
    ensures
        out@ == picked(name@, from as int, to as int),
{
    let mut out: Vec<u8> = Vec::new();
    if to <= from {
        return out;
    }
    let mut i: usize = from;
    while i < to
        invariant
            from <= i <= to,
            to <= name.len(),
            out@ == picked(name@, from as int, i as int),
        decreases to - i,
    {
        let u = name[i];
        if !(u == 0x20 || u == 0x2E) {
            out.push(to_short_byte(u));
        }
        i += 1;
    }
    out
}

/// Derives the short name that a name is given before a numeric tail is
/// considered, and the number of bytes of its base.
pub fn make_short_basis(name: &Vec<u16>) -> (res: (Vec<u8>, usize))
    ensures
        res.0@ == short_basis(name@),
        res.0.len() == 11,
        res.1 == stem_len(name@),
        res.1 <= 8,
{
    let dot = find_last_dot(name);
    let stem = pick(name, 0, dot);
    let ext = if dot < name.len() {
        pick(name, dot + 1, name.len())
    } else {
        Vec::new()
    };
    let mut out: Vec<u8> = Vec::new();
    let mut i: usize = 0;
    while i < 8
        invariant
            i <= 8,
            out@ == padded(stem@, 8).subrange(0, i as int),
        decreases 8 - i,
    {
        if i < stem.len() {
            out.push(stem[i]);
        } else {
            out.push(0x20);
        }
        i += 1;
        assert(out@ =~= padded(stem@, 8).subrange(0, i as int));
    }
    assert(out@ =~= padded(stem@, 8));
    let mut j: usize = 0;
    while j < 3
        invariant
            j <= 3,
            out@ == padded(stem@, 8) + padded(ext@, 3).subrange(0, j as int),
        decreases 3 - j,
    {
        if j < ext.len() {
            out.push(ext[j]);
        } else {
            out.push(0x20);
        }
        j += 1;
        assert(out@ =~= padded(stem@, 8) + padded(ext@, 3).subrange(0, j as int));
    }
    assert(padded(ext@, 3).subrange(0, 3) =~= padded(ext@, 3));
    let kept = if stem.len() > 8 {
        8
    } else {
        stem.len()
    };
    (out, kept)
}

/// Decides how the entry for a name is stored, and derives its short name
/// without a tail.
pub fn classify(name: &Vec<u16>) -> (res: (Naming, Vec<u8>, usize))
    ensures
        res.0 == naming_of(name@),
        res.1@ == short_basis(name@),
        res.1.len() == 11,
        res.2 == stem_len(name@),
        res.2 <= 8,
{
    let (basis, stem) = make_short_basis(name);
    if stem == 0 {
        return (Naming::LongTailed, basis, stem);
    }
    let shown = short_display(&basis, 0);
    let naming = if names_equal(&shown, name) {
        Naming::ShortOnly
    } else if names_match(&shown, name) {
        Naming::LongPlain
    } else {
        Naming::LongTailed
    };
    (naming, basis, stem)
}

/// The largest number that a numeric tail can hold.
pub const MAX_TAIL: u32 = 999_999;

/// The digits of a number are those of its tenth and its last digit.
proof fn lemma_digit_shift(n: nat, i: nat)
    ensures
        digit_char(n, (i + 1) as nat) == digit_char(n / 10, i),
{
}

/// Gives a short name the numeric tail `~n`.
pub fn make_tailed(basis: &Vec<u8>, stem: usize, n: u32) -> (out: Vec<u8>)
    requires
        basis.len() == 11,
        stem <= 8,
        1 <= n <= MAX_TAIL,
    ensures
        out@ == with_tail(basis@, stem as nat, n as nat),
        out.len() == 11,
{
    let d: usize = if n < 10 {
        1
    } else if n < 100 {
        2
    } else if n < 1000 {
        3
    } else if n < 10000 {
        4
    } else if n < 100000 {
        5
    } else {
        6
    };
    proof {
        reveal_with_fuel(digits, 7);
        assert(d == digits(n as nat));
    }
    let keep: usize = if stem + 1 + d > 8 {
        8 - 1 - d
    } else {
        stem
    };
    let mut out: Vec<u8> = Vec::new();
    let mut i: usize = 0;
    while i < 11
        invariant
            i <= 11,
            basis.len() == 11,
            out.len() == i,
            forall|k: int|
                0 <= k < i ==> #[trigger] out@[k] == if k >= 8 || k < keep {
                    basis@[k]
                } else if k == keep {
                    0x7Eu8
                } else {
                    0x20u8
                },
        decreases 11 - i,
    {
        if i >= 8 || i < keep {
            out.push(basis[i]);
        } else if i == keep {
            out.push(0x7E);
        } else {
            out.push(0x20);
        }
        i += 1;
    }
    let mut m: u32 = n;
    let mut j: usize = 0;
    while j < d
        invariant
            j <= d,
            1 <= d <= 6,
            keep + d <= 7,
            basis.len() == 11,
            out.len() == 11,
            forall|q: nat| digit_char(n as nat, (j + q) as nat) == #[trigger] digit_char(m as nat, q),
            forall|k: int|
                0 <= k < 11 ==> #[trigger] out@[k] == if k >= 8 || k < keep {
                    basis@[k]
                } else if k == keep {
                    0x7Eu8
                } else if keep + d - j < k <= keep + d {
                    digit_char(n as nat, (keep + d - k) as nat)
                } else {
                    0x20u8
                },
        decreases d - j,
    {
        let at: usize = keep + d - j;
        proof {
            assert(digit_char(n as nat, (j + 0) as nat) == digit_char(m as nat, 0));
            assert forall|q: nat| digit_char(n as nat, (j + 1 + q) as nat) == #[trigger] digit_char(
                (m / 10) as nat,
                q,
            ) by {
                lemma_digit_shift(m as nat, q);
                assert(digit_char(n as nat, (j + (q + 1)) as nat) == digit_char(m as nat, (q + 1) as nat));
            }
        }
        out[at] = 0x30 + (m % 10) as u8;
        m = m / 10;
        j += 1;
    }
    assert(out@ =~= with_tail(basis@, stem as nat, n as nat));
    out
}

/// A byte that stands for a unit in a short name is a printable character
/// other than the space.
pub proof fn lemma_short_byte(u: u16)
    ensures
        0x21 <= short_byte(u) < 0x7F,
{
}

/// The bytes that were picked for a short name are printable characters
/// other than the space.
pub proof fn lemma_picked(name: Seq<u16>, from: int, to: int, i: int)
    requires
        0 <= i < picked(name, from, to).len(),
    ensures
        0x21 <= picked(name, from, to)[i] < 0x7F,
    decreases to - from,
{
    if to > from {
        let rest = picked(name, from, to - 1);
        let u = name[to - 1];
        if u == 0x20 || u == 0x2E {
            lemma_picked(name, from, to - 1, i);
        } else {
            lemma_short_byte(u);
            if i < rest.len() {
                lemma_picked(name, from, to - 1, i);
            }
        }
    }
}

/// The first byte of a short name with a tail, and of one without a tail
/// whose base is not empty, is a printable character other than the space.
pub proof fn lemma_short_first(name: Seq<u16>, n: nat)
    requires
        n <= MAX_TAIL,
    ensures
        stem_len(name) > 0 ==> 0x21 <= short_basis(name)[0] < 0x7F,
        0x21 <= with_tail(short_basis(name), stem_len(name), n)[0] < 0x7F,
        short_basis(name).len() == 11,
        with_tail(short_basis(name), stem_len(name), n).len() == 11,
{
    let dot = last_dot(name, name.len());
    let stem = picked(name, 0, dot);
    if stem.len() > 0 {
        lemma_picked(name, 0, dot, 0);
        assert(short_basis(name)[0] == padded(stem, 8)[0]);
    }
    lemma_digits(n);
    reveal_with_fuel(digits, 7);
    assert(digits(n) <= 6);
}

/// A number has at least one digit.
pub proof fn lemma_digits(n: nat)
    ensures
        digits(n) >= 1,
    decreases n,
{
    if n >= 10 {
        lemma_digits(n / 10);
    }
}

} // verus!
