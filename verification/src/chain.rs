//! Cluster chains: what the table says of the clusters that belong together,
//! and the bounded walks that follow a chain on the drive.

use vstd::prelude::*;
use vstd::set_lib::{lemma_int_range, lemma_len_subset, set_int_range};
use crate::diskio::FatfsDiskHandler;
use crate::error::FsError;
use crate::fat::{entry_max, get_next, is_end, Volume};
use crate::volume::{FatType, Geometry};

verus! {

/// `c` is the number of a cluster that `table` has an entry for.
pub open spec fn in_table(table: Seq<u32>, c: int) -> bool {
    2 <= c < table.len()
}

/// The cluster that is reached from `first` after `steps` links; `None`
/// where the way leaves the table or the chain ends before.
pub open spec fn walk(t: FatType, table: Seq<u32>, first: int, steps: nat) -> Option<int>
    decreases steps,
{
    if !in_table(table, first) {
        None
    } else if steps == 0 {
        Some(first)
    } else if is_end(t, table[first] as int) {
        None
    } else {
        walk(t, table, table[first] as int, (steps - 1) as nat)
    }
}

/// The chain that begins at `first`: the clusters that the links lead
/// through, up to the one whose entry marks the end. `None` where a link
/// leaves the table, or where no end is reached within `fuel` clusters.
pub open spec fn chain_upto(t: FatType, table: Seq<u32>, first: int, fuel: nat) -> Option<
    Seq<int>,
>
    decreases fuel,
{
    if fuel == 0 || !in_table(table, first) {
        None
    } else if is_end(t, table[first] as int) {
        Some(seq![first])
    } else {
        match chain_upto(t, table, table[first] as int, (fuel - 1) as nat) {
            Some(rest) => Some(seq![first] + rest),
            None => None,
        }
    }
}

/// `s` lists the clusters of a chain of `table`: each is linked to the next
/// and the last one's entry marks the end.
pub open spec fn is_chain(t: FatType, table: Seq<u32>, s: Seq<int>) -> bool {
    &&& s.len() >= 1
    &&& forall|i: int| 0 <= i < s.len() ==> in_table(table, #[trigger] s[i])
    &&& forall|i: int|
        0 <= i < s.len() - 1 ==> table[#[trigger] s[i]] == s[i + 1] && !is_end(
            t,
            table[s[i]] as int,
        )
    &&& is_end(t, table[s[s.len() - 1]] as int)
}

/// What `chain_upto` gives is a chain that begins at `first` and is no
/// longer than the fuel.
pub proof fn lemma_chain_is_chain(t: FatType, table: Seq<u32>, first: int, fuel: nat)
    requires
        chain_upto(t, table, first, fuel) is Some,
    ensures
        is_chain(t, table, chain_upto(t, table, first, fuel)->Some_0),
        chain_upto(t, table, first, fuel)->Some_0[0] == first,
        chain_upto(t, table, first, fuel)->Some_0.len() <= fuel,
    decreases fuel,
{
    if !is_end(t, table[first] as int) {
        let next = table[first] as int;
        lemma_chain_is_chain(t, table, next, (fuel - 1) as nat);
        let rest = chain_upto(t, table, next, (fuel - 1) as nat)->Some_0;
        let s = seq![first] + rest;
        assert forall|i: int| 0 <= i < s.len() implies in_table(table, #[trigger] s[i]) by {
            if i > 0 {
                assert(s[i] == rest[i - 1]);
            }
        }
        assert forall|i: int| 0 <= i < s.len() - 1 implies table[#[trigger] s[i]] == s[i + 1]
            && !is_end(t, table[s[i]] as int) by {
            if i > 0 {
                assert(s[i] == rest[i - 1]);
                assert(s[i + 1] == rest[i]);
            } else {
                assert(s[1] == rest[0]);
            }
        }
        assert(s[s.len() - 1] == rest[rest.len() - 1]);
    }
}

/// A chain is what `chain_upto` gives from its first cluster, with any fuel
/// that is at least its length.
pub proof fn lemma_chain_found(t: FatType, table: Seq<u32>, s: Seq<int>, fuel: nat)
    requires
        is_chain(t, table, s),
        fuel >= s.len(),
    ensures
        chain_upto(t, table, s[0], fuel) == Some(s),
    decreases s.len(),
{
    if s.len() == 1 {
        assert(s =~= seq![s[0]]);
    } else {
        let rest = s.subrange(1, s.len() as int);
        assert(table[s[0]] == s[1]);
        assert forall|i: int| 0 <= i < rest.len() - 1 implies table[#[trigger] rest[i]] == rest[i
            + 1] && !is_end(t, table[rest[i]] as int) by {
            assert(rest[i] == s[i + 1]);
        }
        assert forall|i: int| 0 <= i < rest.len() implies in_table(table, #[trigger] rest[i]) by {
            assert(rest[i] == s[i + 1]);
        }
        lemma_chain_found(t, table, rest, (fuel - 1) as nat);
        assert(seq![s[0]] + rest =~= s);
    }
}

/// What follows a cluster of a chain is a chain.
pub proof fn lemma_chain_tail(t: FatType, table: Seq<u32>, s: Seq<int>, from: int)
    requires
        is_chain(t, table, s),
        0 <= from < s.len(),
    ensures
        is_chain(t, table, s.subrange(from, s.len() as int)),
{
    let tail = s.subrange(from, s.len() as int);
    assert forall|i: int| 0 <= i < tail.len() - 1 implies table[#[trigger] tail[i]] == tail[i + 1]
        && !is_end(t, table[tail[i]] as int) by {
        assert(tail[i] == s[from + i]);
    }
    assert forall|i: int| 0 <= i < tail.len() implies in_table(table, #[trigger] tail[i]) by {
        assert(tail[i] == s[from + i]);
    }
}

/// No cluster occurs twice in a chain.
pub proof fn lemma_chain_distinct(t: FatType, table: Seq<u32>, s: Seq<int>)
    requires
        is_chain(t, table, s),
    ensures
        s.no_duplicates(),
{
    assert forall|i: int, j: int| 0 <= i < s.len() && 0 <= j < s.len() && i != j implies s[i]
        != s[j] by {
        if s[i] == s[j] {
            let a = s.subrange(i, s.len() as int);
            let b = s.subrange(j, s.len() as int);
            lemma_chain_tail(t, table, s, i);
            lemma_chain_tail(t, table, s, j);
            lemma_chain_found(t, table, a, s.len());
            lemma_chain_found(t, table, b, s.len());
            assert(a[0] == b[0]);
            assert(a.len() != b.len());
        }
    }
}

/// A chain has at most as many clusters as the table has entries for.
pub proof fn lemma_chain_bound(t: FatType, table: Seq<u32>, s: Seq<int>)
    requires
        is_chain(t, table, s),
    ensures
        s.len() <= table.len() - 2,
{
    lemma_chain_distinct(t, table, s);
    s.unique_seq_to_set();
    lemma_int_range(2, table.len() as int);
    assert(s.to_set().subset_of(set_int_range(2, table.len() as int))) by {
        assert forall|c: int| s.to_set().contains(c) implies set_int_range(
            2,
            table.len() as int,
        ).contains(c) by {
            let i = choose|i: int| 0 <= i < s.len() && s[i] == c;
            assert(in_table(table, s[i]));
        }
    }
    lemma_len_subset(s.to_set(), set_int_range(2, table.len() as int));
}

/// The cluster at index `i` of a chain is reached from its first cluster
/// after `i` links, and nothing is reached after as many links as the chain
/// has clusters.
pub proof fn lemma_chain_walk(t: FatType, table: Seq<u32>, s: Seq<int>, i: nat)
    requires
        is_chain(t, table, s),
    ensures
        walk(t, table, s[0], i) == if i < s.len() {
            Some(s[i as int])
        } else {
            None
        },
    decreases i,
{
    if i > 0 {
        if s.len() > 1 {
            let rest = s.subrange(1, s.len() as int);
            lemma_chain_tail(t, table, s, 1);
            lemma_chain_walk(t, table, rest, (i - 1) as nat);
            assert(rest[0] == s[1]);
            if i < s.len() {
                assert(rest[i - 1] == s[i as int]);
            }
        }
    }
}

/// A table that agrees with another in the entries of a chain has the same
/// chain.
pub proof fn lemma_chain_kept(t: FatType, before: Seq<u32>, after: Seq<u32>, s: Seq<int>)
    requires
        is_chain(t, before, s),
        after.len() == before.len(),
        forall|i: int| 0 <= i < s.len() ==> after[#[trigger] s[i]] == before[s[i]],
    ensures
        is_chain(t, after, s),
{
    assert forall|i: int| 0 <= i < s.len() - 1 implies after[#[trigger] s[i]] == s[i + 1]
        && !is_end(t, after[s[i]] as int) by {
        assert(in_table(before, s[i]));
    }
    assert forall|i: int| 0 <= i < s.len() implies in_table(after, #[trigger] s[i]) by {
        assert(in_table(before, s[i]));
    }
}

/// A table that agrees with another along a walk leads to the same cluster.
pub proof fn lemma_walk_kept(
    t: FatType,
    before: Seq<u32>,
    after: Seq<u32>,
    first: int,
    steps: nat,
)
    requires
        after.len() == before.len(),
        walk(t, before, first, steps) is Some,
        forall|k: nat|
            k < steps ==> after[(#[trigger] walk(t, before, first, k))->Some_0] == before[walk(
                t,
                before,
                first,
                k,
            )->Some_0],
    ensures
        walk(t, after, first, steps) == walk(t, before, first, steps),
    decreases steps,
{
    if steps > 0 {
        let next = before[first] as int;
        assert(walk(t, before, first, 0) == Some(first));
        assert(after[first] == before[first]);
        assert forall|k: nat| k < steps - 1 implies after[(#[trigger] walk(
            t,
            before,
            next,
            k,
        ))->Some_0] == before[walk(t, before, next, k)->Some_0] by {
            assert(walk(t, before, first, (k + 1) as nat) == walk(t, before, next, k));
        }
        lemma_walk_kept(t, before, after, next, (steps - 1) as nat);
    }
}

/// A walk of `a` links followed by a walk of `b` links is a walk of `a + b`
/// links.
pub proof fn lemma_walk_add(t: FatType, table: Seq<u32>, first: int, a: nat, b: nat)
    requires
        walk(t, table, first, a) is Some,
    ensures
        walk(t, table, first, a + b) == walk(t, table, walk(t, table, first, a)->Some_0, b),
    decreases a,
{
    if a > 0 {
        lemma_walk_add(t, table, table[first] as int, (a - 1) as nat, b);
    } else {
        if b > 0 {
        }
    }
}

/// A walk that arrives passed through clusters of the table only.
pub proof fn lemma_walk_prefix(t: FatType, table: Seq<u32>, first: int, steps: nat, k: nat)
    requires
        walk(t, table, first, steps) is Some,
        k <= steps,
    ensures
        walk(t, table, first, k) is Some,
        in_table(table, walk(t, table, first, k)->Some_0),
        k < steps ==> !is_end(t, table[walk(t, table, first, k)->Some_0] as int) && walk(
            t,
            table,
            first,
            k + 1,
        ) == Some(table[walk(t, table, first, k)->Some_0] as int),
    decreases k,
{
    reveal_with_fuel(walk, 2);
    if k > 0 {
        lemma_walk_prefix(t, table, table[first] as int, (steps - 1) as nat, (k - 1) as nat);
    }
}

impl Geometry {
    /// The chain that begins at cluster `first` on `disk`; `None` where the
    /// links leave the data region or run in a circle.
    pub open spec fn chain(self, disk: Seq<Seq<u8>>, first: int) -> Option<Seq<int>> {
        chain_upto(self.fat_type, self.table(disk), first, self.cluster_count as nat)
    }

    /// The cluster that is reached from `first` after `steps` links on
    /// `disk`. No more links are followed than the volume has clusters: a
    /// chain has none behind them.
    pub open spec fn reach(self, disk: Seq<Seq<u8>>, first: int, steps: nat) -> Option<int> {
        if steps >= self.cluster_count {
            None
        } else {
            walk(self.fat_type, self.table(disk), first, steps)
        }
    }

    /// The chain that begins at `first` ends before `steps` links are
    /// followed, and before as many links are followed as the volume has
    /// clusters.
    pub open spec fn ends_before(self, disk: Seq<Seq<u8>>, first: int, steps: nat) -> bool {
        ends_within(
            self.fat_type,
            self.table(disk),
            first,
            if steps < self.cluster_count {
                steps
            } else {
                self.cluster_count as nat
            },
        )
    }
}

/// What `chain_length` answers on a dependable drive.
pub open spec fn chain_length_of(g: Geometry, disk: Seq<Seq<u8>>, first: u32) -> Result<u32, FsError> {
    match g.chain(disk, first as int) {
        Some(s) => Ok(s.len() as u32),
        None => Err(FsError::CorruptVolume),
    }
}

/// Counts the clusters of the chain that begins at `first`.
///
/// The walk is bounded by the number of clusters of the volume: a chain
/// that leaves the data region, meets a free or bad cluster or runs in a
/// circle is reported as `CorruptVolume`. The drive is left as it is. On a
/// drive that is not dependable the answer may instead be the error of a
/// failed read.
pub fn chain_length<H: FatfsDiskHandler>(vol: &Volume, dev: &mut H, first: u32) -> (res: Result<
    u32,
    FsError,
>)
    requires
        old(dev).inv(),
        vol.on(old(dev).drive(vol.pdrv)),
    ensures
        final(dev).inv(),
        final(dev).drive(vol.pdrv) == old(dev).drive(vol.pdrv),
        res == chain_length_of(vol.geom, old(dev).drive(vol.pdrv).sectors, first) || (!old(
            dev,
        ).drive(vol.pdrv).dependable && res is Err && res->Err_0.is_device()),
        res is Ok ==> 1 <= res->Ok_0 <= vol.geom.cluster_count,
{
    let g = &vol.geom;
    let t = g.fat_type;
    let ghost d = old(dev).drive(vol.pdrv);
    let ghost table = g.table(d.sectors);
    let ghost fuel = g.cluster_count as nat;
    let ghost mut seen: Seq<int> = Seq::empty();
    let end_min: u32 = match t {
        FatType::Fat12 => 0xFF8,
        FatType::Fat16 => 0xFFF8,
        FatType::Fat32 => 0x0FFF_FFF8,
    };
    let mut c: u32 = first;
    let mut n: u32 = 0;
    assert(seen + chain_upto(t, table, c as int, fuel)->Some_0 =~= chain_upto(
        t,
        table,
        c as int,
        fuel,
    )->Some_0);
    loop
        invariant
            n <= g.cluster_count,
            fuel == g.cluster_count,
            *g == vol.geom,
            t == g.fat_type,
            end_min == entry_max(t) - 7,
            dev.inv(),
            d == old(dev).drive(vol.pdrv),
            dev.drive(vol.pdrv) == d,
            vol.on(d),
            table == g.table(d.sectors),
            seen.len() == n,
            chain_upto(t, table, first as int, fuel) == match chain_upto(
                t,
                table,
                c as int,
                (fuel - n) as nat,
            ) {
                Some(rest) => Some(seen + rest),
                None => None,
            },
        decreases g.cluster_count - n,
    {
        if n == g.cluster_count {
            return Err(FsError::CorruptVolume);
        }
        if c < 2 || c - 2 >= g.cluster_count {
            return Err(FsError::CorruptVolume);
        }
        match get_next(vol, dev, c) {
            Err(e) => {
                return Err(e);
            },
            Ok(next) => {
                n = n + 1;
                if next >= end_min {
                    proof {
                        assert((seen + seq![c as int]).len() == n);
                    }
                    return Ok(n);
                }
                proof {
                    let rest = chain_upto(t, table, next as int, (fuel - n) as nat);
                    if rest is Some {
                        assert(seen + (seq![c as int] + rest->Some_0) =~= seen.push(c as int)
                            + rest->Some_0);
                    }
                    seen = seen.push(c as int);
                }
                c = next;
            },
        }
    }
}

/// The chain that begins at `first` ends before `steps` links are
/// followed: the way stays in the table up to a cluster whose entry marks
/// the end.
pub open spec fn ends_within(t: FatType, table: Seq<u32>, first: int, steps: nat) -> bool
    decreases steps,
{
    in_table(table, first) && steps > 0 && (is_end(t, table[first] as int) || ends_within(
        t,
        table,
        table[first] as int,
        (steps - 1) as nat,
    ))
}

/// A walk does not arrive where the chain ends before.
pub proof fn lemma_ends_or_walks(t: FatType, table: Seq<u32>, first: int, steps: nat)
    ensures
        !(ends_within(t, table, first, steps) && walk(t, table, first, steps) is Some),
    decreases steps,
{
    if steps > 0 && in_table(table, first) && !is_end(t, table[first] as int) {
        lemma_ends_or_walks(t, table, table[first] as int, (steps - 1) as nat);
    }
}

/// What `cluster_at` answers on a dependable drive: the cluster that is
/// reached, `None` where the chain ends before, and `CorruptVolume` where
/// the way leaves the data region, or where as many links were followed as
/// the volume has clusters and the chain has not ended.
pub open spec fn cluster_at_of(g: Geometry, disk: Seq<Seq<u8>>, first: u32, steps: u32) -> Result<
    Option<u32>,
    FsError,
> {
    match g.reach(disk, first as int, steps as nat) {
        Some(c) => Ok(Some(c as u32)),
        None => if g.ends_before(disk, first as int, steps as nat) {
            Ok(None)
        } else {
            Err(FsError::CorruptVolume)
        },
    }
}

/// Follows `steps` links from cluster `first` and gives the cluster that is
/// reached, or `None` where the chain ends before.
///
/// The walk is bounded by the number of clusters of the volume: a way that
/// leaves the data region or runs in a circle is reported as
/// `CorruptVolume`. The drive is left as it is. On a drive that is not
/// dependable the answer may instead be the error of a failed read.
pub fn cluster_at<H: FatfsDiskHandler>(vol: &Volume, dev: &mut H, first: u32, steps: u32) -> (res:
    Result<Option<u32>, FsError>)
    requires
        old(dev).inv(),
        vol.on(old(dev).drive(vol.pdrv)),
    ensures
        final(dev).inv(),
        final(dev).drive(vol.pdrv) == old(dev).drive(vol.pdrv),
        res == cluster_at_of(vol.geom, old(dev).drive(vol.pdrv).sectors, first, steps) || (!old(
            dev,
        ).drive(vol.pdrv).dependable && res is Err && res->Err_0.is_device()),
        res matches Ok(Some(c)) ==> vol.geom.holds(c as int),
{
    let g = &vol.geom;
    let t = g.fat_type;
    let ghost d = old(dev).drive(vol.pdrv);
    let ghost table = g.table(d.sectors);
    let end_min: u32 = match t {
        FatType::Fat12 => 0xFF8,
        FatType::Fat16 => 0xFFF8,
        FatType::Fat32 => 0x0FFF_FFF8,
    };
    let limit: u32 = if steps < g.cluster_count {
        steps
    } else {
        g.cluster_count
    };
    let mut c: u32 = first;
    let mut k: u32 = 0;
    loop
        invariant
            k <= limit,
            limit == if steps < g.cluster_count {
                steps
            } else {
                g.cluster_count
            },
            *g == vol.geom,
            t == g.fat_type,
            end_min == entry_max(t) - 7,
            dev.inv(),
            d == old(dev).drive(vol.pdrv),
            dev.drive(vol.pdrv) == d,
            vol.on(d),
            table == g.table(d.sectors),
            steps < g.cluster_count ==> walk(t, table, first as int, steps as nat) == walk(
                t,
                table,
                c as int,
                (steps - k) as nat,
            ),
            ends_within(t, table, first as int, limit as nat) == ends_within(
                t,
                table,
                c as int,
                (limit - k) as nat,
            ),
        decreases limit - k,
    {
        if c < 2 || c - 2 >= g.cluster_count {
            return Err(FsError::CorruptVolume);
        }
        if k == limit {
            if steps < g.cluster_count {
                return Ok(Some(c));
            }
            return Err(FsError::CorruptVolume);
        }
        match get_next(vol, dev, c) {
            Err(e) => {
                return Err(e);
            },
            Ok(next) => {
                if next >= end_min {
                    return Ok(None);
                }
                c = next;
                k = k + 1;
            },
        }
    }
}

/// What `last_cluster` answers on a dependable drive: the last cluster of
/// the chain that begins at `first` and the number of its clusters.
pub open spec fn last_cluster_of(g: Geometry, disk: Seq<Seq<u8>>, first: u32) -> Result<
    (u32, u32),
    FsError,
> {
    match g.chain(disk, first as int) {
        Some(s) => Ok((s[s.len() - 1] as u32, s.len() as u32)),
        None => Err(FsError::CorruptVolume),
    }
}

/// Finds the last cluster of the chain that begins at `first`, and counts
/// the clusters of the chain.
///
/// The walk is bounded by the number of clusters of the volume: a chain
/// that leaves the data region or runs in a circle is reported as
/// `CorruptVolume`. The drive is left as it is. On a drive that is not
/// dependable the answer may instead be the error of a failed read.
pub fn last_cluster<H: FatfsDiskHandler>(vol: &Volume, dev: &mut H, first: u32) -> (res: Result<
    (u32, u32),
    FsError,
>)
    requires
        old(dev).inv(),
        vol.on(old(dev).drive(vol.pdrv)),
    ensures
        final(dev).inv(),
        final(dev).drive(vol.pdrv) == old(dev).drive(vol.pdrv),
        res == last_cluster_of(vol.geom, old(dev).drive(vol.pdrv).sectors, first) || (!old(
            dev,
        ).drive(vol.pdrv).dependable && res is Err && res->Err_0.is_device()),
        res is Ok ==> vol.geom.holds(res->Ok_0.0 as int) && 1 <= res->Ok_0.1 <= vol.geom.cluster_count,
{
    let g = &vol.geom;
    let t = g.fat_type;
    let ghost d = old(dev).drive(vol.pdrv);
    let ghost table = g.table(d.sectors);
    let ghost fuel = g.cluster_count as nat;
    let ghost mut seen: Seq<int> = Seq::empty();
    let end_min: u32 = match t {
        FatType::Fat12 => 0xFF8,
        FatType::Fat16 => 0xFFF8,
        FatType::Fat32 => 0x0FFF_FFF8,
    };
    let mut c: u32 = first;
    let mut n: u32 = 0;
    assert(seen + chain_upto(t, table, c as int, fuel)->Some_0 =~= chain_upto(
        t,
        table,
        c as int,
        fuel,
    )->Some_0);
    loop
        invariant
            n <= g.cluster_count,
            fuel == g.cluster_count,
            *g == vol.geom,
            t == g.fat_type,
            end_min == entry_max(t) - 7,
            dev.inv(),
            d == old(dev).drive(vol.pdrv),
            dev.drive(vol.pdrv) == d,
            vol.on(d),
            table == g.table(d.sectors),
            seen.len() == n,
            chain_upto(t, table, first as int, fuel) == match chain_upto(
                t,
                table,
                c as int,
                (fuel - n) as nat,
            ) {
                Some(rest) => Some(seen + rest),
                None => None,
            },
        decreases g.cluster_count - n,
    {
        if n == g.cluster_count {
            return Err(FsError::CorruptVolume);
        }
        if c < 2 || c - 2 >= g.cluster_count {
            return Err(FsError::CorruptVolume);
        }
        match get_next(vol, dev, c) {
            Err(e) => {
                return Err(e);
            },
            Ok(next) => {
                n = n + 1;
                if next >= end_min {
                    proof {
                        let all = seen + seq![c as int];
                        assert(all.len() == n);
                        assert(all[all.len() - 1] == c);
                    }
                    return Ok((c, n));
                }
                proof {
                    let rest = chain_upto(t, table, next as int, (fuel - n) as nat);
                    if rest is Some {
                        assert(seen + (seq![c as int] + rest->Some_0) =~= seen.push(c as int)
                            + rest->Some_0);
                    }
                    seen = seen.push(c as int);
                }
                c = next;
            },
        }
    }
}

} // verus!
