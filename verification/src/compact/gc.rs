//! Garbage collection: which files of a database directory are no longer needed.
//!
//! The two newest manifests stay, and with them every log and every table that one of them,
//! or the manifest in memory, speaks of.

use crate::data_stores::file_name::{
    is_digit, lemma_padded_digits, lemma_padded_round_trip, name_of, number_of, padded,
    parse_u32, parse_u64, suffix_mf, suffix_sst, suffix_wal, FileKind,
};
use crate::data_stores::manifest::{LevelView, Manifest, ManifestView};
use crate::data_stores::Loggable;
use crate::err::DbError;
use std::collections::HashSet;
use vstd::prelude::*;
use vstd::slice::slice_subrange;

verus! {

broadcast use vstd::std_specs::hash::group_hash_axioms;

/// How many manifests stay.
pub const MANIFESTS_KEPT: usize = 2;

// --- What a manifest speaks of ---

pub open spec fn speaks_of_wal(m: ManifestView, id: u32) -> bool {
    m.wals.contains(id)
}

pub open spec fn level_has(files: LevelView, id: u32) -> bool {
    exists|i: int| 0 <= i < files.len() && (#[trigger] files[i]).file_id == id
}

pub open spec fn speaks_of_table(m: ManifestView, id: u32) -> bool {
    exists|l: int| 0 <= l < m.levels.len() && level_has(#[trigger] m.levels[l], id)
}

/// A manifest speaks of the tables of all its levels, and of no others.
pub proof fn lemma_speaks_of(m: ManifestView, id: u32)
    ensures
        speaks_of_table(m, id) <==> exists|l: int, i: int|
            0 <= l < m.levels.len() && 0 <= i < m.levels[l].len() && (
            #[trigger] m.levels[l][i]).file_id == id,
        speaks_of_wal(m, id) <==> exists|i: int|
            0 <= i < m.wals.len() && #[trigger] m.wals[i] == id,
{
    if speaks_of_table(m, id) {
        let l = choose|l: int| 0 <= l < m.levels.len() && level_has(#[trigger] m.levels[l], id);
        let i = choose|i: int|
            0 <= i < m.levels[l].len() && (#[trigger] m.levels[l][i]).file_id == id;
        assert(m.levels[l][i].file_id == id);
    }
    if exists|l: int, i: int|
        0 <= l < m.levels.len() && 0 <= i < m.levels[l].len() && (
        #[trigger] m.levels[l][i]).file_id == id {
        let (l, i) = choose|l: int, i: int|
            0 <= l < m.levels.len() && 0 <= i < m.levels[l].len() && (
            #[trigger] m.levels[l][i]).file_id == id;
        assert(level_has(m.levels[l], id));
    }
}

/// Adds the logs and the tables of a manifest to those that stay.
fn add_references(m: &Manifest, wals: &mut HashSet<u32>, ssts: &mut HashSet<u32>)
    ensures
        forall|id: u32| #[trigger]
            final(wals)@.contains(id) <==> old(wals)@.contains(id) || speaks_of_wal(m@, id),
        forall|id: u32| #[trigger]
            final(ssts)@.contains(id) <==> old(ssts)@.contains(id) || speaks_of_table(m@, id),
{
    let ghost old_wals = wals@;
    let ghost old_ssts = ssts@;
    assert(m.wals.deep_view() =~= m.wals@);
    let mut i: usize = 0;
    while i < m.wals.len()
        invariant
            i <= m.wals@.len(),
            forall|id: u32| #[trigger]
                wals@.contains(id) <==> old_wals.contains(id) || exists|j: int|
                    0 <= j < i && #[trigger] m.wals@[j] == id,
        decreases m.wals@.len() - i,
    {
        let ghost before = wals@;
        wals.insert(m.wals[i]);
        proof {
            assert forall|id: u32| #[trigger]
                wals@.contains(id) <==> old_wals.contains(id) || exists|j: int|
                    0 <= j < i + 1 && #[trigger] m.wals@[j] == id by {
                assert(wals@.contains(id) <==> before.contains(id) || id == m.wals@[i as int]);
                if before.contains(id) && !old_wals.contains(id) {
                    let j = choose|j: int| 0 <= j < i && #[trigger] m.wals@[j] == id;
                    assert(m.wals@[j] == id);
                }
            }
        }
        i = i + 1;
    }
    assert forall|id: u32| #[trigger] wals@.contains(id) <==> old_wals.contains(id)
        || speaks_of_wal(m@, id) by {
        if exists|j: int| 0 <= j < i && #[trigger] m.wals@[j] == id {
            let j = choose|j: int| 0 <= j < i && #[trigger] m.wals@[j] == id;
            assert(m@.wals[j] == id);
        }
        if speaks_of_wal(m@, id) {
            let j = choose|j: int| 0 <= j < m@.wals.len() && m@.wals[j] == id;
            assert(m.wals@[j] == id);
        }
    }
    let ghost levels = m.levels.deep_view();
    let mut l: usize = 0;
    while l < m.levels.len()
        invariant
            l <= m.levels@.len(),
            levels == m.levels.deep_view(),
            forall|id: u32| #[trigger]
                ssts@.contains(id) <==> old_ssts.contains(id) || exists|k: int|
                    0 <= k < l && level_has(#[trigger] levels[k], id),
        decreases m.levels@.len() - l,
    {
        let ghost before = ssts@;
        let files = &m.levels[l].files;
        let ghost level = files.deep_view();
        assert(levels[l as int] == level);
        let mut f: usize = 0;
        while f < files.len()
            invariant
                f <= files@.len(),
                level == files.deep_view(),
                forall|id: u32| #[trigger]
                    ssts@.contains(id) <==> before.contains(id) || exists|k: int|
                        0 <= k < f && (#[trigger] level[k]).file_id == id,
            decreases files@.len() - f,
        {
            let ghost had = ssts@;
            ssts.insert(files[f].file_id);
            proof {
                assert forall|id: u32| #[trigger]
                    ssts@.contains(id) <==> before.contains(id) || exists|k: int|
                        0 <= k < f + 1 && (#[trigger] level[k]).file_id == id by {
                    assert(ssts@.contains(id) <==> had.contains(id) || id
                        == level[f as int].file_id);
                    if had.contains(id) && !before.contains(id) {
                        let k = choose|k: int| 0 <= k < f && (#[trigger] level[k]).file_id == id;
                        assert(level[k].file_id == id);
                    }
                }
            }
            f = f + 1;
        }
        proof {
            assert forall|id: u32| #[trigger]
                ssts@.contains(id) <==> old_ssts.contains(id) || exists|k: int|
                    0 <= k < l + 1 && level_has(#[trigger] levels[k], id) by {
                assert(ssts@.contains(id) <==> before.contains(id) || level_has(level, id));
                if before.contains(id) && !old_ssts.contains(id) {
                    let k = choose|k: int| 0 <= k < l && level_has(#[trigger] levels[k], id);
                    assert(level_has(levels[k], id));
                }
                if level_has(level, id) {
                    assert(level_has(levels[l as int], id));
                }
                if exists|k: int| 0 <= k < l + 1 && level_has(#[trigger] levels[k], id) {
                    let k = choose|k: int| 0 <= k < l + 1 && level_has(#[trigger] levels[k], id);
                    if k < l {
                        assert(before.contains(id));
                    }
                }
            }
        }
        l = l + 1;
    }
    assert forall|id: u32| #[trigger] ssts@.contains(id) <==> old_ssts.contains(id)
        || speaks_of_table(m@, id) by {
        assert(m@.levels == levels);
        if exists|k: int| 0 <= k < l && level_has(#[trigger] levels[k], id) {
            let k = choose|k: int| 0 <= k < l && level_has(#[trigger] levels[k], id);
            assert(level_has(m@.levels[k], id));
        }
        if speaks_of_table(m@, id) {
            let k = choose|k: int|
                0 <= k < m@.levels.len() && level_has(#[trigger] m@.levels[k], id);
            assert(level_has(levels[k], id));
        }
    }
}

/// What the manifest in memory speaks of: logs and tables. No manifest is named: those on disk
/// are found by a scan.
pub fn prepare_gc_snapshot(manifest: &Manifest) -> (r: Result<
    (HashSet<u32>, HashSet<u32>, Vec<String>),
    DbError,
>)
    ensures
        r is Ok,
        forall|id: u32| #[trigger] r->Ok_0.0@.contains(id) <==> speaks_of_wal(manifest@, id),
        forall|id: u32| #[trigger] r->Ok_0.1@.contains(id) <==> speaks_of_table(manifest@, id),
        forall|i: int|
            0 <= i < manifest@.wals.len() ==> r->Ok_0.0@.contains(#[trigger] manifest@.wals[i]),
        forall|id: u32| #[trigger]
            r->Ok_0.0@.contains(id) ==> exists|i: int|
                0 <= i < manifest@.wals.len() && #[trigger] manifest@.wals[i] == id,
        forall|l: int, i: int|
            0 <= l < manifest@.levels.len() && 0 <= i < manifest@.levels[l].len()
                ==> r->Ok_0.1@.contains((#[trigger] manifest@.levels[l][i]).file_id),
        forall|id: u32| #[trigger]
            r->Ok_0.1@.contains(id) ==> exists|l: int, i: int|
                0 <= l < manifest@.levels.len() && 0 <= i < manifest@.levels[l].len() && (
                #[trigger] manifest@.levels[l][i]).file_id == id,
        r->Ok_0.2@.len() == 0,
{
    let mut wals: HashSet<u32> = HashSet::new();
    let mut ssts: HashSet<u32> = HashSet::new();
    add_references(manifest, &mut wals, &mut ssts);
    proof {
        assert forall|id: u32| #[trigger] ssts@.contains(id) implies exists|l: int, i: int|
            0 <= l < manifest@.levels.len() && 0 <= i < manifest@.levels[l].len() && (
            #[trigger] manifest@.levels[l][i]).file_id == id by {
            lemma_speaks_of(manifest@, id);
        }
        assert forall|l: int, i: int|
            0 <= l < manifest@.levels.len() && 0 <= i < manifest@.levels[l].len() implies
            ssts@.contains((#[trigger] manifest@.levels[l][i]).file_id) by {
            lemma_speaks_of(manifest@, manifest@.levels[l][i].file_id);
        }
        assert forall|i: int| 0 <= i < manifest@.wals.len() implies wals@.contains(
            #[trigger] manifest@.wals[i],
        ) by {
            assert(speaks_of_wal(manifest@, manifest@.wals[i]));
        }
    }
    Ok((wals, ssts, Vec::new()))
}

// --- Names ---

pub open spec fn ends_with(s: Seq<u8>, suffix: Seq<u8>) -> bool {
    s.len() >= suffix.len() && s.skip(s.len() - suffix.len()) == suffix
}

/// A name without a suffix at its end, however often it stands there.
pub open spec fn trimmed(s: Seq<u8>, suffix: Seq<u8>) -> Seq<u8>
    decreases s.len(),
{
    if suffix.len() > 0 && ends_with(s, suffix) {
        trimmed(s.take(s.len() - suffix.len()), suffix)
    } else {
        s
    }
}

fn has_suffix(s: &[u8], suffix: &Vec<u8>) -> (r: bool)
    ensures
        r == ends_with(s@, suffix@),
{
    let n: usize = suffix.len();
    if s.len() < n {
        return false;
    }
    let start: usize = s.len() - n;
    let ghost end = s@.skip(start as int);
    let mut i: usize = 0;
    while i < n
        invariant
            i <= n,
            n == suffix@.len(),
            start + n == s.len(),
            end == s@.skip(start as int),
            forall|j: int| 0 <= j < i ==> end[j] == suffix@[j],
        decreases n - i,
    {
        if s[start + i] != suffix[i] {
            assert(end[i as int] != suffix@[i as int]);
            return false;
        }
        i = i + 1;
    }
    assert(end =~= suffix@);
    true
}

fn trim<'a>(s: &'a [u8], suffix: &Vec<u8>) -> (r: &'a [u8])
    requires
        suffix@.len() > 0,
    ensures
        r@ == trimmed(s@, suffix@),
{
    let mut r: &'a [u8] = s;
    while has_suffix(r, suffix)
        invariant
            suffix@.len() > 0,
            trimmed(r@, suffix@) == trimmed(s@, suffix@),
        decreases r@.len(),
    {
        let shorter = slice_subrange(r, 0, r.len() - suffix.len());
        assert(shorter@ =~= r@.take(r@.len() - suffix@.len()));
        r = shorter;
    }
    r
}

// --- Manifests ---

/// The version in the name of a manifest.
pub open spec fn version_of(name: Seq<u8>) -> Option<nat> {
    if ends_with(name, suffix_mf()) {
        number_of(trimmed(name, suffix_mf()), u64::MAX as nat)
    } else {
        None
    }
}

/// Whether the manifest under one name is newer than that under another; of equals, the
/// one that was listed first counts as newer.
pub open spec fn newer(names: Seq<Seq<u8>>, a: int, b: int) -> bool {
    let v = version_of(names[a])->0;
    let w = version_of(names[b])->0;
    v > w || (v == w && a < b)
}

/// Whether `order` lists the manifests among some names, newest first.
pub open spec fn is_version_order(names: Seq<Seq<u8>>, order: Seq<usize>) -> bool {
    &&& forall|a: int|
        0 <= a < order.len() ==> (#[trigger] order[a]) < names.len() && version_of(
            names[order[a] as int],
        ) is Some
    &&& forall|a: int, b: int|
        0 <= a < b < order.len() ==> newer(
            names,
            (#[trigger] order[a]) as int,
            (#[trigger] order[b]) as int,
        )
    &&& forall|j: int|
        0 <= j < names.len() && version_of(#[trigger] names[j]) is Some ==> exists|a: int|
            0 <= a < order.len() && (#[trigger] order[a]) == j
}

/// The manifests of a directory, by their places in the listing.
pub struct ManifestScan {
    /// The newest ones, newest first.
    pub kept: Vec<usize>,
    pub obsolete: Vec<usize>,
}

/// Finds the manifests to keep and those to delete.
pub fn scan_manifests(names: &Vec<Vec<u8>>) -> (scan: ManifestScan)
    ensures
        is_version_order(names.deep_view(), scan.kept@ + scan.obsolete@),
        scan.kept@.len() <= MANIFESTS_KEPT,
        scan.obsolete@.len() > 0 ==> scan.kept@.len() == MANIFESTS_KEPT,
        scan.kept@.len() <= 2,
        scan.obsolete@.len() > 0 ==> scan.kept@.len() == 2,
{
    let ghost all = names.deep_view();
    let mut order: Vec<usize> = Vec::new();
    let mut versions: Vec<u64> = Vec::new();
    let mut i: usize = 0;
    let suffix = FileKind::Manifest.suffix_bytes();
    while i < names.len()
        invariant
            i <= names@.len(),
            all == names.deep_view(),
            suffix@ == suffix_mf(),
            order@.len() == versions@.len(),
            is_version_order(all.take(i as int), order@),
            forall|a: int|
                0 <= a < order@.len() ==> version_of(all[(#[trigger] order@[a]) as int]) == Some(
                    versions@[a] as nat,
                ),
        decreases names@.len() - i,
    {
        let ghost shorter = all.take(i as int);
        let ghost longer = all.take(i + 1);
        assert(all[i as int] =~= names@[i as int]@);
        let name = names[i].as_slice();
        let version: Option<u64> = if has_suffix(name, &suffix) {
            parse_u64(trim(name, &suffix))
        } else {
            None
        };
        match version {
            Some(v) => {
                let mut p: usize = order.len();
                while p > 0 && versions[p - 1] < v
                    invariant
                        p <= order@.len(),
                        order@.len() == versions@.len(),
                        forall|a: int| p <= a < order@.len() ==> versions@[a] < v,
                    decreases p,
                {
                    p = p - 1;
                }
                let ghost before = order@;
                let ghost vs = versions@;
                order.insert(p, i);
                versions.insert(p, v);
                proof {
                    lemma_insert_version(all, i as int, before, vs, p as int, v);
                }
            },
            None => {
                proof {
                    lemma_no_version(all, i as int, order@);
                }
            },
        }
        i = i + 1;
    }
    assert(all.take(i as int) =~= all);
    let mut kept: Vec<usize> = Vec::new();
    let mut obsolete: Vec<usize> = Vec::new();
    let mut k: usize = 0;
    while k < order.len()
        invariant
            k <= order@.len(),
            kept@ + obsolete@ == order@.take(k as int),
            kept@.len() <= MANIFESTS_KEPT,
            k <= MANIFESTS_KEPT ==> obsolete@.len() == 0,
            k > MANIFESTS_KEPT ==> kept@.len() == MANIFESTS_KEPT,
        decreases order@.len() - k,
    {
        let ghost before = kept@ + obsolete@;
        if k < MANIFESTS_KEPT {
            kept.push(order[k]);
        } else {
            obsolete.push(order[k]);
        }
        assert(kept@ + obsolete@ =~= before.push(order@[k as int]));
        assert(order@.take(k + 1) =~= order@.take(k as int).push(order@[k as int]));
        k = k + 1;
    }
    assert(order@.take(k as int) =~= order@);
    ManifestScan { kept, obsolete }
}

proof fn lemma_no_version(all: Seq<Seq<u8>>, i: int, order: Seq<usize>)
    requires
        0 <= i < all.len(),
        is_version_order(all.take(i), order),
        version_of(all[i]) is None,
    ensures
        is_version_order(all.take(i + 1), order),
{
    let shorter = all.take(i);
    let longer = all.take(i + 1);
    assert forall|a: int| 0 <= a < order.len() implies (#[trigger] order[a]) < longer.len()
        && version_of(longer[order[a] as int]) is Some by {
        assert(longer[order[a] as int] == shorter[order[a] as int]);
    }
    assert forall|a: int, b: int| 0 <= a < b < order.len() implies newer(
        longer,
        (#[trigger] order[a]) as int,
        (#[trigger] order[b]) as int,
    ) by {
        assert(newer(shorter, order[a] as int, order[b] as int));
        assert(longer[order[a] as int] == shorter[order[a] as int]);
        assert(longer[order[b] as int] == shorter[order[b] as int]);
    }
    assert forall|j: int|
        0 <= j < longer.len() && version_of(#[trigger] longer[j]) is Some implies exists|a: int|
        0 <= a < order.len() && (#[trigger] order[a]) == j by {
        assert(j < i);
        assert(longer[j] == shorter[j]);
    }
}

proof fn lemma_insert_version(
    all: Seq<Seq<u8>>,
    i: int,
    order: Seq<usize>,
    versions: Seq<u64>,
    p: int,
    v: u64,
)
    requires
        0 <= i < all.len(),
        i <= usize::MAX,
        is_version_order(all.take(i), order),
        version_of(all[i]) == Some(v as nat),
        order.len() == versions.len(),
        forall|a: int|
            0 <= a < order.len() ==> version_of(all[(#[trigger] order[a]) as int]) == Some(
                versions[a] as nat,
            ),
        0 <= p <= order.len(),
        forall|a: int| p <= a < order.len() ==> versions[a] < v,
        p > 0 ==> versions[p - 1] >= v,
    ensures
        is_version_order(all.take(i + 1), order.insert(p, i as usize)),
        forall|a: int|
            0 <= a < order.len() + 1 ==> version_of(
                all[(#[trigger] order.insert(p, i as usize)[a]) as int],
            ) == Some(versions.insert(p, v)[a] as nat),
{
    let shorter = all.take(i);
    let longer = all.take(i + 1);
    let more = order.insert(p, i as usize);
    assert forall|a: int| 0 <= a < order.len() implies (#[trigger] order[a]) < i && longer[order[a] as int]
        == all[order[a] as int] && shorter[order[a] as int] == all[order[a] as int] by {}
    assert forall|a: int| 0 <= a < more.len() implies version_of(
        all[(#[trigger] more[a]) as int],
    ) == Some(versions.insert(p, v)[a] as nat) && more[a] < longer.len() && longer[more[a] as int]
        == all[more[a] as int] by {
        if a < p {
            assert(more[a] == order[a]);
        } else if a > p {
            assert(more[a] == order[a - 1]);
        }
    }
    // The versions before place `p` are not smaller than the one there.
    assert forall|a: int| 0 <= a < p implies versions[a] >= v by {
        if a < p - 1 {
            assert(newer(shorter, order[a] as int, order[p - 1] as int));
        }
    }
    assert forall|a: int, b: int| 0 <= a < b < more.len() implies newer(
        longer,
        (#[trigger] more[a]) as int,
        (#[trigger] more[b]) as int,
    ) by {
        if a < p && b < p {
            assert(more[a] == order[a] && more[b] == order[b]);
            assert(newer(shorter, order[a] as int, order[b] as int));
        } else if a < p && b == p {
            assert(more[a] == order[a]);
        } else if a < p {
            assert(more[a] == order[a] && more[b] == order[b - 1]);
            assert(newer(shorter, order[a] as int, order[b - 1] as int));
        } else if a == p {
            assert(more[b] == order[b - 1]);
        } else {
            assert(more[a] == order[a - 1] && more[b] == order[b - 1]);
            assert(newer(shorter, order[a - 1] as int, order[b - 1] as int));
        }
    }
    assert forall|j: int|
        0 <= j < longer.len() && version_of(#[trigger] longer[j]) is Some implies exists|a: int|
        0 <= a < more.len() && (#[trigger] more[a]) == j by {
        if j == i {
            assert(more[p] == j);
        } else {
            assert(longer[j] == shorter[j]);
            let a = choose|a: int| 0 <= a < order.len() && (#[trigger] order[a]) == j;
            if a < p {
                assert(more[a] == j);
            } else {
                assert(more[a + 1] == j);
            }
        }
    }
}

// --- Logs and tables ---

/// The logs that stay: those of a snapshot, and those that a manifest on disk speaks of.
pub open spec fn stays(
    snapshot: Set<u32>,
    manifests: Seq<Seq<u8>>,
    speaks: spec_fn(ManifestView, u32) -> bool,
    id: u32,
) -> bool {
    snapshot.contains(id) || exists|i: int|
        0 <= i < manifests.len() && (#[trigger] Manifest::spec_decode(manifests[i]).0 matches Ok(m)
            && speaks(m, id))
}

pub open spec fn wal_stays(snapshot: Set<u32>, manifests: Seq<Seq<u8>>, id: u32) -> bool {
    stays(snapshot, manifests, |m: ManifestView, i: u32| speaks_of_wal(m, i), id)
}

pub open spec fn table_stays(snapshot: Set<u32>, manifests: Seq<Seq<u8>>, id: u32) -> bool {
    stays(snapshot, manifests, |m: ManifestView, i: u32| speaks_of_table(m, i), id)
}

/// Whether the file of a name is a log or a table that is not among those that stay.
pub open spec fn is_obsolete(
    name: Seq<u8>,
    wals: spec_fn(u32) -> bool,
    ssts: spec_fn(u32) -> bool,
) -> bool {
    if ends_with(name, suffix_mf()) {
        false
    } else if ends_with(name, suffix_wal()) {
        number_of(trimmed(name, suffix_wal()), u32::MAX as nat) matches Some(id) && !wals(
            id as u32,
        )
    } else if ends_with(name, suffix_sst()) {
        number_of(trimmed(name, suffix_sst()), u32::MAX as nat) matches Some(id) && !ssts(
            id as u32,
        )
    } else {
        false
    }
}

/// The places of the logs and tables to delete in a listing.
pub open spec fn is_garbage(
    names: Seq<Seq<u8>>,
    garbage: Seq<usize>,
    wals: spec_fn(u32) -> bool,
    ssts: spec_fn(u32) -> bool,
) -> bool {
    &&& forall|a: int|
        0 <= a < garbage.len() ==> (#[trigger] garbage[a]) < names.len() && is_obsolete(
            names[garbage[a] as int],
            wals,
            ssts,
        )
    &&& forall|a: int, b: int|
        0 <= a < b < garbage.len() ==> (#[trigger] garbage[a]) < (#[trigger] garbage[b])
    &&& forall|j: int|
        0 <= j < names.len() && is_obsolete(#[trigger] names[j], wals, ssts) ==> exists|a: int|
            0 <= a < garbage.len() && (#[trigger] garbage[a]) == j
}

/// Whether a log or a table is to go.
fn check_obsolete(name: &[u8], wals: &HashSet<u32>, ssts: &HashSet<u32>) -> (r: bool)
    ensures
        r == is_obsolete(name@, |id: u32| wals@.contains(id), |id: u32| ssts@.contains(id)),
{
    let mf = FileKind::Manifest.suffix_bytes();
    let wal = FileKind::Wal.suffix_bytes();
    let sst = FileKind::Sstable.suffix_bytes();
    if has_suffix(name, &mf) {
        false
    } else if has_suffix(name, &wal) {
        match parse_u32(trim(name, &wal)) {
            Some(id) => !wals.contains(&id),
            None => false,
        }
    } else if has_suffix(name, &sst) {
        match parse_u32(trim(name, &sst)) {
            Some(id) => !ssts.contains(&id),
            None => false,
        }
    } else {
        false
    }
}

/// Finds the logs and tables to delete, given what the manifest in memory speaks of and the
/// contents of the manifests kept, as far as they could be read. A manifest that cannot be
/// decoded speaks of nothing.
pub fn find_garbage(
    names: &Vec<Vec<u8>>,
    manifests: &Vec<Vec<u8>>,
    live_wals: HashSet<u32>,
    live_ssts: HashSet<u32>,
) -> (r: Vec<usize>)
    ensures
        is_garbage(
            names.deep_view(),
            r@,
            |id: u32| wal_stays(live_wals@, manifests.deep_view(), id),
            |id: u32| table_stays(live_ssts@, manifests.deep_view(), id),
        ),
        forall|a: int, id: u32|
            0 <= a < r@.len() && #[trigger] live_wals@.contains(id) ==> names.deep_view()[(
            #[trigger] r@[a]) as int] != name_of(id, FileKind::Wal),
        forall|a: int, id: u32|
            0 <= a < r@.len() && #[trigger] live_ssts@.contains(id) ==> names.deep_view()[(
            #[trigger] r@[a]) as int] != name_of(id, FileKind::Sstable),
        forall|a: int, v: u32|
            0 <= a < r@.len() ==> names.deep_view()[(#[trigger] r@[a]) as int]
                != #[trigger] name_of(v, FileKind::Manifest),
{
    let ghost all = names.deep_view();
    let ghost texts = manifests.deep_view();
    let mut wals = live_wals;
    let mut ssts = live_ssts;
    let mut m: usize = 0;
    while m < manifests.len()
        invariant
            m <= manifests@.len(),
            texts == manifests.deep_view(),
            forall|id: u32| #[trigger]
                wals@.contains(id) <==> wal_stays(live_wals@, texts.take(m as int), id),
            forall|id: u32| #[trigger]
                ssts@.contains(id) <==> table_stays(live_ssts@, texts.take(m as int), id),
        decreases manifests@.len() - m,
    {
        let ghost before_wals = wals@;
        let ghost before_ssts = ssts@;
        assert(texts[m as int] =~= manifests@[m as int]@);
        let mut reader: &[u8] = manifests[m].as_slice();
        match Manifest::decode(&mut reader) {
            Ok(manifest) => {
                add_references(&manifest, &mut wals, &mut ssts);
            },
            Err(_) => {},
        }
        proof {
            assert forall|id: u32| #[trigger]
                wals@.contains(id) <==> wal_stays(live_wals@, texts.take(m + 1), id) by {
                lemma_stays_push(
                    live_wals@,
                    texts,
                    m as int,
                    |v: ManifestView, i: u32| speaks_of_wal(v, i),
                    id,
                );
            }
            assert forall|id: u32| #[trigger]
                ssts@.contains(id) <==> table_stays(live_ssts@, texts.take(m + 1), id) by {
                lemma_stays_push(
                    live_ssts@,
                    texts,
                    m as int,
                    |v: ManifestView, i: u32| speaks_of_table(v, i),
                    id,
                );
            }
        }
        m = m + 1;
    }
    assert(texts.take(m as int) =~= texts);
    let ghost wal_in = |id: u32| wal_stays(live_wals@, texts, id);
    let ghost table_in = |id: u32| table_stays(live_ssts@, texts, id);
    assert(wal_in =~= |id: u32| wals@.contains(id));
    assert(table_in =~= |id: u32| ssts@.contains(id));
    let mut r: Vec<usize> = Vec::new();
    let mut i: usize = 0;
    while i < names.len()
        invariant
            i <= names@.len(),
            all == names.deep_view(),
            wal_in == (|id: u32| wals@.contains(id)),
            table_in == (|id: u32| ssts@.contains(id)),
            forall|a: int|
                0 <= a < r@.len() ==> (#[trigger] r@[a]) < i && is_obsolete(
                    all[r@[a] as int],
                    wal_in,
                    table_in,
                ),
            forall|a: int, b: int|
                0 <= a < b < r@.len() ==> (#[trigger] r@[a]) < (#[trigger] r@[b]),
            forall|j: int|
                0 <= j < i && is_obsolete(#[trigger] all[j], wal_in, table_in) ==> exists|a: int|
                    0 <= a < r@.len() && (#[trigger] r@[a]) == j,
        decreases names@.len() - i,
    {
        assert(all[i as int] =~= names@[i as int]@);
        let ghost before = r@;
        if check_obsolete(names[i].as_slice(), &wals, &ssts) {
            r.push(i);
        }
        proof {
            assert forall|j: int|
                0 <= j < i + 1 && is_obsolete(
                    #[trigger] all[j],
                    wal_in,
                    table_in,
                ) implies exists|a: int| 0 <= a < r@.len() && (#[trigger] r@[a]) == j by {
                if j < i {
                    let a = choose|a: int| 0 <= a < before.len() && (#[trigger] before[a]) == j;
                    assert(r@[a] == j);
                } else {
                    assert(r@[before.len() as int] == j);
                }
            }
        }
        i = i + 1;
    }
    proof {
        assert forall|a: int, id: u32|
            0 <= a < r@.len() && #[trigger] live_wals@.contains(id) implies all[(
        #[trigger] r@[a]) as int] != name_of(id, FileKind::Wal) by {
            lemma_gc_keeps(id, wal_in, table_in);
            assert(wal_in(id));
        }
        assert forall|a: int, id: u32|
            0 <= a < r@.len() && #[trigger] live_ssts@.contains(id) implies all[(
        #[trigger] r@[a]) as int] != name_of(id, FileKind::Sstable) by {
            lemma_gc_keeps(id, wal_in, table_in);
            assert(table_in(id));
        }
        assert forall|a: int, v: u32| 0 <= a < r@.len() implies all[(#[trigger] r@[a]) as int]
            != #[trigger] name_of(v, FileKind::Manifest) by {
            lemma_version_of_name(v);
        }
    }
    r
}

proof fn lemma_stays_push(
    snapshot: Set<u32>,
    texts: Seq<Seq<u8>>,
    m: int,
    speaks: spec_fn(ManifestView, u32) -> bool,
    id: u32,
)
    requires
        0 <= m < texts.len(),
    ensures
        stays(snapshot, texts.take(m + 1), speaks, id) <==> stays(
            snapshot,
            texts.take(m),
            speaks,
            id,
        ) || (Manifest::spec_decode(texts[m]).0 matches Ok(v) && speaks(v, id)),
{
    let shorter = texts.take(m);
    let longer = texts.take(m + 1);
    if stays(snapshot, longer, speaks, id) && !snapshot.contains(id) {
        let i = choose|i: int|
            0 <= i < longer.len() && (#[trigger] Manifest::spec_decode(longer[i]).0 matches Ok(v)
                && speaks(v, id));
        if i < m {
            assert(shorter[i] == longer[i]);
            assert(Manifest::spec_decode(shorter[i]).0 is Ok);
        }
    }
    if stays(snapshot, shorter, speaks, id) && !snapshot.contains(id) {
        let i = choose|i: int|
            0 <= i < shorter.len() && (#[trigger] Manifest::spec_decode(shorter[i]).0 matches Ok(v)
                && speaks(v, id));
        assert(longer[i] == shorter[i]);
        assert(Manifest::spec_decode(longer[i]).0 is Ok);
    }
    if Manifest::spec_decode(texts[m]).0 matches Ok(v) && speaks(v, id) {
        assert(longer[m] == texts[m]);
        assert(Manifest::spec_decode(longer[m]).0 is Ok);
    }
}

// --- What collection keeps ---

/// The file of a log or a table that stays is not garbage.
pub proof fn lemma_gc_keeps(
    id: u32,
    wals: spec_fn(u32) -> bool,
    ssts: spec_fn(u32) -> bool,
)
    ensures
        wals(id) ==> !is_obsolete(name_of(id, FileKind::Wal), wals, ssts),
        ssts(id) ==> !is_obsolete(name_of(id, FileKind::Sstable), wals, ssts),
        !wals(id) ==> is_obsolete(name_of(id, FileKind::Wal), wals, ssts),
        !ssts(id) ==> is_obsolete(name_of(id, FileKind::Sstable), wals, ssts),
{
    lemma_wal_name(id);
    lemma_table_name(id);
}

proof fn lemma_wal_name(id: u32)
    ensures
        ({
            let w = name_of(id, FileKind::Wal);
            &&& ends_with(w, suffix_wal())
            &&& !ends_with(w, suffix_mf())
            &&& number_of(trimmed(w, suffix_wal()), u32::MAX as nat) == Some(id as nat)
        }),
{
    let p = padded(id as nat);
    let w = name_of(id, FileKind::Wal);
    lemma_padded_round_trip(id as nat, u32::MAX as nat);
    lemma_padded_digits(id as nat);
    assert(is_digit(p[p.len() - 1]));
    assert(suffix_wal().last() == 108 && suffix_mf().last() == 102);
    assert(w.last() == 108);
    lemma_trim_name(p, suffix_wal());
    lemma_last_of_suffix(w, suffix_mf());
}

proof fn lemma_table_name(id: u32)
    ensures
        ({
            let s = name_of(id, FileKind::Sstable);
            &&& ends_with(s, suffix_sst())
            &&& !ends_with(s, suffix_mf())
            &&& !ends_with(s, suffix_wal())
            &&& number_of(trimmed(s, suffix_sst()), u32::MAX as nat) == Some(id as nat)
        }),
{
    let p = padded(id as nat);
    let s = name_of(id, FileKind::Sstable);
    lemma_padded_round_trip(id as nat, u32::MAX as nat);
    lemma_padded_digits(id as nat);
    assert(is_digit(p[p.len() - 1]));
    assert(suffix_sst().last() == 116 && suffix_mf().last() == 102 && suffix_wal().last() == 108);
    assert(s.last() == 116);
    lemma_trim_name(p, suffix_sst());
    lemma_last_of_suffix(s, suffix_mf());
    lemma_last_of_suffix(s, suffix_wal());
}

/// A manifest is scanned under the version that it was named by.
pub proof fn lemma_version_of_name(version: u32)
    ensures
        ends_with(name_of(version, FileKind::Manifest), suffix_mf()),
        version_of(name_of(version, FileKind::Manifest)) == Some(version as nat),
{
    let p = padded(version as nat);
    lemma_padded_round_trip(version as nat, u64::MAX as nat);
    lemma_padded_digits(version as nat);
    assert(is_digit(p[p.len() - 1]));
    lemma_trim_name(p, suffix_mf());
}

proof fn lemma_last_of_suffix(s: Seq<u8>, suffix: Seq<u8>)
    requires
        suffix.len() > 0,
    ensures
        ends_with(s, suffix) ==> s.len() > 0 && s.last() == suffix.last(),
{
    if ends_with(s, suffix) {
        assert(s.skip(s.len() - suffix.len()).last() == s.last());
    }
}

/// Digits with a suffix that ends in no digit are trimmed to the digits.
proof fn lemma_trim_name(p: Seq<u8>, suffix: Seq<u8>)
    requires
        p.len() > 0,
        suffix.len() > 0,
        is_digit(p.last()),
        !is_digit(suffix.last()),
    ensures
        ends_with(p + suffix, suffix),
        trimmed(p + suffix, suffix) == p,
{
    let s = p + suffix;
    assert(s.skip(s.len() - suffix.len()) =~= suffix);
    assert(s.take(s.len() - suffix.len()) =~= p);
    if ends_with(p, suffix) {
        assert(p.skip(p.len() - suffix.len()).last() == p.last());
    }
    reveal_with_fuel(trimmed, 2);
}

/// Every manifest that goes is older than every manifest that stays.
pub proof fn lemma_gc_keeps_newest(
    names: Seq<Seq<u8>>,
    kept: Seq<usize>,
    obsolete: Seq<usize>,
    a: int,
    b: int,
)
    requires
        is_version_order(names, kept + obsolete),
        0 <= a < kept.len(),
        0 <= b < obsolete.len(),
    ensures
        newer(names, kept[a] as int, obsolete[b] as int),
{
    let order = kept + obsolete;
    assert(order[a] == kept[a]);
    assert(order[kept.len() + b] == obsolete[b]);
}

/// Of manifests with the same version, one that was listed first is not deleted before one that
/// was listed later.
pub proof fn lemma_scan_equals(
    names: Seq<Seq<u8>>,
    kept: Seq<usize>,
    obsolete: Seq<usize>,
    i: int,
    j: int,
)
    requires
        is_version_order(names, kept + obsolete),
        0 <= i < j < names.len() <= usize::MAX,
        version_of(names[i]) is Some,
        version_of(names[i]) == version_of(names[j]),
    ensures
        kept.contains(j as usize) ==> kept.contains(i as usize),
        kept.contains(i as usize) || obsolete.contains(i as usize),
{
    let order = kept + obsolete;
    let a = choose|a: int| 0 <= a < order.len() && (#[trigger] order[a]) == i;
    if a < kept.len() {
        assert(kept[a] == i as usize);
    } else {
        assert(obsolete[a - kept.len()] == i as usize);
        if kept.contains(j as usize) {
            let b = choose|b: int| 0 <= b < kept.len() && kept[b] == j as usize;
            assert(order[b] == j);
            assert(newer(names, order[b] as int, order[a] as int));
        }
    }
}

/// Nothing is garbage but what is named as a log or as a table: a number and the extension.
pub proof fn lemma_garbage_names(
    name: Seq<u8>,
    wals: spec_fn(u32) -> bool,
    ssts: spec_fn(u32) -> bool,
)
    requires
        is_obsolete(name, wals, ssts),
    ensures
        name.len() >= 4,
        name.skip(name.len() - 4) == seq![46u8, 119u8, 97u8, 108u8] || name.skip(name.len() - 4)
            == seq![46u8, 115u8, 115u8, 116u8],
        number_of(trimmed(name, seq![46u8, 119u8, 97u8, 108u8]), u32::MAX as nat) is Some
            || number_of(trimmed(name, seq![46u8, 115u8, 115u8, 116u8]), u32::MAX as nat) is Some,
{
}

/// Nothing is scanned as a manifest but what is named as one.
pub proof fn lemma_scanned_names(name: Seq<u8>)
    requires
        version_of(name) is Some,
    ensures
        name.len() >= 3,
        name.skip(name.len() - 3) == seq![46u8, 109u8, 102u8],
        number_of(trimmed(name, seq![46u8, 109u8, 102u8]), u64::MAX as nat) == version_of(name),
{
}

/// A suffix is taken off the end of a name as often as it stands there, and nothing else is.
pub proof fn lemma_trimmed(s: Seq<u8>, suffix: Seq<u8>)
    requires
        suffix.len() > 0,
    ensures
        trimmed(s + suffix, suffix) == trimmed(s, suffix),
        !(s.len() >= suffix.len() && s.skip(s.len() - suffix.len()) == suffix) ==> trimmed(
            s,
            suffix,
        ) == s,
{
    let t = s + suffix;
    assert(t.skip(t.len() - suffix.len()) =~= suffix);
    assert(t.take(t.len() - suffix.len()) =~= s);
}

/// Garbage is no log and no table that the manifest in memory lists, on any level.
pub proof fn lemma_gc_keeps_listed(
    m: ManifestView,
    names: Seq<Seq<u8>>,
    wals: Set<u32>,
    ssts: Set<u32>,
    manifests: Seq<Seq<u8>>,
    garbage: Seq<usize>,
    a: int,
)
    requires
        forall|id: u32| #[trigger] wals.contains(id) <==> speaks_of_wal(m, id),
        forall|id: u32| #[trigger] ssts.contains(id) <==> speaks_of_table(m, id),
        is_garbage(
            names,
            garbage,
            |id: u32| wal_stays(wals, manifests, id),
            |id: u32| table_stays(ssts, manifests, id),
        ),
        0 <= a < garbage.len(),
    ensures
        forall|i: int|
            0 <= i < m.wals.len() ==> names[garbage[a] as int] != name_of(
                #[trigger] m.wals[i],
                FileKind::Wal,
            ),
        forall|l: int, i: int|
            0 <= l < m.levels.len() && 0 <= i < m.levels[l].len() ==> names[garbage[a] as int]
                != name_of((#[trigger] m.levels[l][i]).file_id, FileKind::Sstable),
{
    let wal_in = |id: u32| wal_stays(wals, manifests, id);
    let table_in = |id: u32| table_stays(ssts, manifests, id);
    assert forall|i: int| 0 <= i < m.wals.len() implies names[garbage[a] as int] != name_of(
        #[trigger] m.wals[i],
        FileKind::Wal,
    ) by {
        lemma_speaks_of(m, m.wals[i]);
        lemma_gc_keeps(m.wals[i], wal_in, table_in);
        assert(wals.contains(m.wals[i]));
        assert(wal_in(m.wals[i]));
    }
    assert forall|l: int, i: int|
        0 <= l < m.levels.len() && 0 <= i < m.levels[l].len() implies names[garbage[a] as int]
        != name_of((#[trigger] m.levels[l][i]).file_id, FileKind::Sstable) by {
        let id = m.levels[l][i].file_id;
        lemma_speaks_of(m, id);
        lemma_gc_keeps(id, wal_in, table_in);
        assert(ssts.contains(id));
        assert(table_in(id));
    }
}

/// Garbage is no log and no table that a manifest on disk lists, on any level.
pub proof fn lemma_gc_keeps_on_disk(
    m: ManifestView,
    names: Seq<Seq<u8>>,
    wals: Set<u32>,
    ssts: Set<u32>,
    manifests: Seq<Seq<u8>>,
    k: int,
    garbage: Seq<usize>,
    a: int,
)
    requires
        0 <= k < manifests.len(),
        Manifest::spec_decode(manifests[k]).0 == Ok::<ManifestView, DbError>(m),
        is_garbage(
            names,
            garbage,
            |id: u32| wal_stays(wals, manifests, id),
            |id: u32| table_stays(ssts, manifests, id),
        ),
        0 <= a < garbage.len(),
    ensures
        forall|i: int|
            0 <= i < m.wals.len() ==> names[garbage[a] as int] != name_of(
                #[trigger] m.wals[i],
                FileKind::Wal,
            ),
        forall|l: int, i: int|
            0 <= l < m.levels.len() && 0 <= i < m.levels[l].len() ==> names[garbage[a] as int]
                != name_of((#[trigger] m.levels[l][i]).file_id, FileKind::Sstable),
{
    let wal_in = |id: u32| wal_stays(wals, manifests, id);
    let table_in = |id: u32| table_stays(ssts, manifests, id);
    assert(Manifest::spec_decode(manifests[k]).0 is Ok);
    assert forall|i: int| 0 <= i < m.wals.len() implies names[garbage[a] as int] != name_of(
        #[trigger] m.wals[i],
        FileKind::Wal,
    ) by {
        lemma_speaks_of(m, m.wals[i]);
        lemma_gc_keeps(m.wals[i], wal_in, table_in);
        assert(wal_in(m.wals[i]));
    }
    assert forall|l: int, i: int|
        0 <= l < m.levels.len() && 0 <= i < m.levels[l].len() implies names[garbage[a] as int]
        != name_of((#[trigger] m.levels[l][i]).file_id, FileKind::Sstable) by {
        let id = m.levels[l][i].file_id;
        lemma_speaks_of(m, id);
        lemma_gc_keeps(id, wal_in, table_in);
        assert(table_in(id));
    }
}

/// A table that neither the manifest in memory nor one on disk lists is garbage, and so is
/// such a log.
pub proof fn lemma_gc_takes_unlisted(
    m: ManifestView,
    names: Seq<Seq<u8>>,
    wals: Set<u32>,
    ssts: Set<u32>,
    manifests: Seq<Seq<u8>>,
    garbage: Seq<usize>,
    j: int,
    id: u32,
)
    requires
        forall|i: u32| #[trigger] wals.contains(i) <==> speaks_of_wal(m, i),
        forall|i: u32| #[trigger] ssts.contains(i) <==> speaks_of_table(m, i),
        is_garbage(
            names,
            garbage,
            |i: u32| wal_stays(wals, manifests, i),
            |i: u32| table_stays(ssts, manifests, i),
        ),
        0 <= j < names.len() <= usize::MAX,
    ensures
        names[j] == name_of(id, FileKind::Sstable) && !lists_table(m, id) && (forall|k: int|
            0 <= k < manifests.len() ==> !(#[trigger] Manifest::spec_decode(manifests[k]).0
                matches Ok(d) && lists_table(d, id))) ==> garbage.contains(j as usize),
        names[j] == name_of(id, FileKind::Wal) && !m.wals.contains(id) && (forall|k: int|
            0 <= k < manifests.len() ==> !(#[trigger] Manifest::spec_decode(manifests[k]).0
                matches Ok(d) && d.wals.contains(id))) ==> garbage.contains(j as usize),
{
    let wal_in = |i: u32| wal_stays(wals, manifests, i);
    let table_in = |i: u32| table_stays(ssts, manifests, i);
    lemma_gc_keeps(id, wal_in, table_in);
    lemma_speaks_of(m, id);
    if names[j] == name_of(id, FileKind::Sstable) && !lists_table(m, id) && (forall|k: int|
        0 <= k < manifests.len() ==> !(#[trigger] Manifest::spec_decode(manifests[k]).0
            matches Ok(d) && lists_table(d, id))) {
        if table_in(id) {
            let k = choose|k: int|
                0 <= k < manifests.len() && (#[trigger] Manifest::spec_decode(manifests[k]).0
                    matches Ok(d) && speaks_of_table(d, id));
            lemma_speaks_of(Manifest::spec_decode(manifests[k]).0->Ok_0, id);
        }
        assert(is_obsolete(names[j], wal_in, table_in));
        let a = choose|a: int| 0 <= a < garbage.len() && (#[trigger] garbage[a]) == j;
        assert(garbage[a] == j as usize);
    }
    if names[j] == name_of(id, FileKind::Wal) && !m.wals.contains(id) && (forall|k: int|
        0 <= k < manifests.len() ==> !(#[trigger] Manifest::spec_decode(manifests[k]).0
            matches Ok(d) && d.wals.contains(id))) {
        if wal_in(id) {
            let k = choose|k: int|
                0 <= k < manifests.len() && (#[trigger] Manifest::spec_decode(manifests[k]).0
                    matches Ok(d) && speaks_of_wal(d, id));
            lemma_speaks_of(Manifest::spec_decode(manifests[k]).0->Ok_0, id);
            assert(Manifest::spec_decode(manifests[k]).0->Ok_0.wals.contains(id));
        }
        assert(is_obsolete(names[j], wal_in, table_in));
        let a = choose|a: int| 0 <= a < garbage.len() && (#[trigger] garbage[a]) == j;
        assert(garbage[a] == j as usize);
    }
}

/// Whether a table stands in some level of a manifest.
pub open spec fn lists_table(m: ManifestView, id: u32) -> bool {
    exists|l: int, i: int|
        0 <= l < m.levels.len() && 0 <= i < m.levels[l].len() && (
        #[trigger] m.levels[l][i]).file_id == id
}

/// Of the manifests in a directory, listed by their places, each is either kept or not, two
/// are kept where there are as many, and none that is kept has a lower version than one that
/// is not.
pub proof fn lemma_scan(
    names: Seq<Seq<u8>>,
    kept: Seq<usize>,
    obsolete: Seq<usize>,
    i: int,
    v: u32,
    j: int,
    w: u32,
)
    requires
        is_version_order(names, kept + obsolete),
        0 <= i < names.len() <= usize::MAX,
        names[i] == name_of(v, FileKind::Manifest),
        0 <= j < names.len(),
        names[j] == name_of(w, FileKind::Manifest),
        v > w,
    ensures
        kept.contains(i as usize) <==> !obsolete.contains(i as usize),
        kept.contains(j as usize) ==> kept.contains(i as usize),
        kept.len() > 0 ==> kept[0] != j,
{
    lemma_version_of_name(v);
    lemma_version_of_name(w);
    let order = kept + obsolete;
    assert(version_of(names[i]) is Some);
    assert(version_of(names[j]) is Some);
    let a = choose|a: int| 0 <= a < order.len() && (#[trigger] order[a]) == i;
    let b = choose|b: int| 0 <= b < order.len() && (#[trigger] order[b]) == j;
    if a > b {
        assert(newer(names, order[b] as int, order[a] as int));
    }
    if a < kept.len() {
        assert(kept[a] == i as usize);
    } else {
        assert(obsolete[a - kept.len()] == i as usize);
    }
    if kept.contains(i as usize) && obsolete.contains(i as usize) {
        let x = choose|x: int| 0 <= x < kept.len() && kept[x] == i as usize;
        let y = choose|y: int| 0 <= y < obsolete.len() && obsolete[y] == i as usize;
        assert(order[x] == i && order[kept.len() + y] == i);
        assert(newer(names, order[x] as int, order[kept.len() + y] as int));
    }
    if kept.contains(j as usize) {
        let x = choose|x: int| 0 <= x < kept.len() && kept[x] == j as usize;
        assert(order[x] == j);
        if a > x {
            assert(newer(names, order[x] as int, order[a] as int));
        }
    }
    if kept.len() > 0 {
        assert(order[0] == kept[0]);
        if a > 0 {
            assert(newer(names, order[0] as int, order[a] as int));
        }
    }
}

} // verus!
