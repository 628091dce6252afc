//! File fingerprints and the incremental-update diff.
//!
//! A fingerprint is the (modification time, size) pair of a file; equality of
//! all fields is the sole staleness test — no content hashing. The diff of
//! the previous snapshot against the current one yields the changed and
//! deleted paths that an incremental index update must touch.
use vstd::prelude::*;
use crate::text::str_eq;

verus! {

/// A file's identity proxy: its path with the modification time and size
/// observed for it.
pub struct FileFingerprint {
    pub path: String,
    pub mtime_secs: u64,
    pub size: u64,
}

/// The fingerprint recorded for `p` in `s`: the (mtime, size) of the first
/// entry whose path is `p`, if any.
pub open spec fn find_fp(s: Seq<FileFingerprint>, p: Seq<char>) -> Option<(u64, u64)>
    decreases s.len(),
{
    if s.len() == 0 {
        None
    } else if s.first().path@ == p {
        Some((s.first().mtime_secs, s.first().size))
    } else {
        find_fp(s.drop_first(), p)
    }
}

/// Looks up the fingerprint recorded for `p`.
pub fn lookup_fp(entries: &Vec<FileFingerprint>, p: &str) -> (r: Option<(u64, u64)>)
    ensures
        r == find_fp(entries@, p@),
{
    let n: usize = entries.len();
    let mut i: usize = 0;
    proof {
        assert(entries@.skip(0) =~= entries@);
    }
    while i < n
        invariant
            0 <= i <= n == entries@.len(),
            find_fp(entries@, p@) == find_fp(entries@.skip(i as int), p@),
        decreases n - i,
    {
        proof {
            assert(entries@.skip(i as int).first() == entries@[i as int]);
            assert(entries@.skip(i as int).drop_first() =~= entries@.skip(i + 1));
        }
        if str_eq(entries[i].path.as_str(), p) {
            return Some((entries[i].mtime_secs, entries[i].size));
        }
        i = i + 1;
    }
    proof {
        assert(entries@.skip(n as int) =~= Seq::<FileFingerprint>::empty());
    }
    None
}

/// Records `fp` in the snapshot: replaces the first entry with the same path,
/// or appends when the path is new.
pub fn snapshot_upsert(entries: &mut Vec<FileFingerprint>, fp: FileFingerprint)
    ensures
        final(entries)@.len() <= old(entries)@.len() + 1,
        find_fp(final(entries)@, fp.path@) == Some((fp.mtime_secs, fp.size)),
        forall|p: Seq<char>|
            p != fp.path@ ==> #[trigger] find_fp(final(entries)@, p) == find_fp(old(entries)@, p),
{
    let n: usize = entries.len();
    let mut i: usize = 0;
    proof {
        assert(entries@.skip(0) =~= entries@);
    }
    while i < n
        invariant
            0 <= i <= n == entries@.len(),
            entries@ == old(entries)@,
            forall|j: int| 0 <= j < i ==> entries@[j].path@ != fp.path@,
        decreases n - i,
    {
        if str_eq(entries[i].path.as_str(), fp.path.as_str()) {
            let ghost before = entries@;
            entries.set(i, fp);
            proof {
                lemma_find_fp_update(before, entries@, i as int, fp);
            }
            return ;
        }
        i = i + 1;
    }
    let ghost before = entries@;
    entries.push(fp);
    proof {
        lemma_find_fp_append(before, fp);
        assert(entries@ =~= before.push(fp));
    }
}

proof fn lemma_find_fp_update(
    before: Seq<FileFingerprint>,
    after: Seq<FileFingerprint>,
    i: int,
    fp: FileFingerprint,
)
    requires
        0 <= i < before.len(),
        after == before.update(i, fp),
        before[i].path@ == fp.path@,
        forall|j: int| 0 <= j < i ==> before[j].path@ != fp.path@,
    ensures
        find_fp(after, fp.path@) == Some((fp.mtime_secs, fp.size)),
        forall|p: Seq<char>| p != fp.path@ ==> #[trigger] find_fp(after, p) == find_fp(before, p),
    decreases i,
{
    if i == 0 {
        assert(after.first() == fp);
        assert(after.drop_first() =~= before.drop_first());
        assert forall|p: Seq<char>| p != fp.path@ implies #[trigger] find_fp(after, p) == find_fp(
            before,
            p,
        ) by {
            assert(find_fp(after, p) == find_fp(after.drop_first(), p));
            assert(find_fp(before, p) == find_fp(before.drop_first(), p));
        }
    } else {
        assert(after.first() == before.first());
        assert(after.drop_first() =~= before.drop_first().update(i - 1, fp));
        lemma_find_fp_update(before.drop_first(), after.drop_first(), i - 1, fp);
        assert forall|p: Seq<char>| p != fp.path@ implies #[trigger] find_fp(after, p) == find_fp(
            before,
            p,
        ) by {
            if after.first().path@ == p {
            } else {
                assert(find_fp(after, p) == find_fp(after.drop_first(), p));
                assert(find_fp(before, p) == find_fp(before.drop_first(), p));
            }
        }
    }
}

proof fn lemma_find_fp_append(before: Seq<FileFingerprint>, fp: FileFingerprint)
    requires
        forall|j: int| 0 <= j < before.len() ==> before[j].path@ != fp.path@,
    ensures
        find_fp(before.push(fp), fp.path@) == Some((fp.mtime_secs, fp.size)),
        forall|p: Seq<char>|
            p != fp.path@ ==> #[trigger] find_fp(before.push(fp), p) == find_fp(before, p),
    decreases before.len(),
{
    if before.len() == 0 {
        assert(before.push(fp).first() == fp);
        assert(before.push(fp).drop_first() =~= Seq::<FileFingerprint>::empty());
        assert forall|p: Seq<char>| p != fp.path@ implies #[trigger] find_fp(before.push(fp), p)
            == find_fp(before, p) by {
            assert(find_fp(before.push(fp), p) == find_fp(before.push(fp).drop_first(), p));
        }
    } else {
        assert(before.push(fp).first() == before.first());
        assert(before.push(fp).drop_first() =~= before.drop_first().push(fp));
        lemma_find_fp_append(before.drop_first(), fp);
        assert forall|p: Seq<char>| p != fp.path@ implies #[trigger] find_fp(before.push(fp), p)
            == find_fp(before, p) by {
            if before.first().path@ == p {
            } else {
                assert(find_fp(before.push(fp), p) == find_fp(before.drop_first().push(fp), p));
                assert(find_fp(before, p) == find_fp(before.drop_first(), p));
            }
        }
    }
}

/// The paths of current entries whose fingerprint is absent from, or differs
/// from, the previous snapshot — the files an incremental update must
/// re-extract and re-index.
pub open spec fn changed_paths(prev: Seq<FileFingerprint>, cur: Seq<FileFingerprint>) -> Seq<
    Seq<char>,
>
    decreases cur.len(),
{
    if cur.len() == 0 {
        Seq::empty()
    } else {
        (if find_fp(prev, cur.first().path@) == Some(
            (cur.first().mtime_secs, cur.first().size),
        ) {
            Seq::<Seq<char>>::empty()
        } else {
            seq![cur.first().path@]
        }) + changed_paths(prev, cur.drop_first())
    }
}

/// The paths present in the previous snapshot but absent now — the files an
/// incremental update must drop from the index.
pub open spec fn deleted_paths(prev: Seq<FileFingerprint>, cur: Seq<FileFingerprint>) -> Seq<
    Seq<char>,
>
    decreases prev.len(),
{
    if prev.len() == 0 {
        Seq::empty()
    } else {
        (if find_fp(cur, prev.first().path@) is None {
            seq![prev.first().path@]
        } else {
            Seq::<Seq<char>>::empty()
        }) + deleted_paths(prev.drop_first(), cur)
    }
}

/// The incremental-update work list: which paths changed and which are gone.
pub struct IncrementalPlan {
    pub changed: Vec<String>,
    pub deleted: Vec<String>,
}

/// Diffs the current snapshot against the previous one. A file is changed
/// when its fingerprint differs from (or is absent in) the snapshot; a file
/// is deleted when the snapshot lists it but the current enumeration does
/// not.
pub fn plan_incremental(prev: &Vec<FileFingerprint>, cur: &Vec<FileFingerprint>) -> (r:
    IncrementalPlan)
    ensures
        r.changed.deep_view() == changed_paths(prev@, cur@),
        r.deleted.deep_view() == deleted_paths(prev@, cur@),
{
    let mut changed: Vec<String> = Vec::new();
    let n: usize = cur.len();
    let mut i: usize = 0;
    proof {
        assert(cur@.skip(0) =~= cur@);
        assert(changed.deep_view() + changed_paths(prev@, cur@.skip(0)) =~= changed_paths(
            prev@,
            cur@,
        ));
    }
    while i < n
        invariant
            0 <= i <= n == cur@.len(),
            changed_paths(prev@, cur@) == changed.deep_view() + changed_paths(
                prev@,
                cur@.skip(i as int),
            ),
        decreases n - i,
    {
        proof {
            assert(cur@.skip(i as int).first() == cur@[i as int]);
            assert(cur@.skip(i as int).drop_first() =~= cur@.skip(i + 1));
        }
        let ghost c0 = changed.deep_view();
        let old_fp = lookup_fp(prev, cur[i].path.as_str());
        let is_same = match old_fp {
            Some((mt, sz)) => mt == cur[i].mtime_secs && sz == cur[i].size,
            None => false,
        };
        if !is_same {
            changed.push(cur[i].path.clone());
            proof {
                assert(changed.deep_view() =~= c0 + seq![cur@[i as int].path@]);
            }
        }
        proof {
            assert(changed_paths(prev@, cur@) =~= changed.deep_view() + changed_paths(
                prev@,
                cur@.skip(i + 1),
            ));
        }
        i = i + 1;
    }
    proof {
        assert(cur@.skip(n as int) =~= Seq::<FileFingerprint>::empty());
        assert(changed.deep_view() =~= changed_paths(prev@, cur@));
    }
    let mut deleted: Vec<String> = Vec::new();
    let m: usize = prev.len();
    let mut k: usize = 0;
    proof {
        assert(prev@.skip(0) =~= prev@);
        assert(deleted.deep_view() + deleted_paths(prev@.skip(0), cur@) =~= deleted_paths(
            prev@,
            cur@,
        ));
    }
    while k < m
        invariant
            0 <= k <= m == prev@.len(),
            deleted_paths(prev@, cur@) == deleted.deep_view() + deleted_paths(
                prev@.skip(k as int),
                cur@,
            ),
        decreases m - k,
    {
        proof {
            assert(prev@.skip(k as int).first() == prev@[k as int]);
            assert(prev@.skip(k as int).drop_first() =~= prev@.skip(k + 1));
        }
        let ghost d0 = deleted.deep_view();
        let cur_fp = lookup_fp(cur, prev[k].path.as_str());
        if cur_fp.is_none() {
            deleted.push(prev[k].path.clone());
            proof {
                assert(deleted.deep_view() =~= d0 + seq![prev@[k as int].path@]);
            }
        }
        proof {
            assert(deleted_paths(prev@, cur@) =~= deleted.deep_view() + deleted_paths(
                prev@.skip(k + 1),
                cur@,
            ));
        }
        k = k + 1;
    }
    proof {
        assert(prev@.skip(m as int) =~= Seq::<FileFingerprint>::empty());
        assert(deleted.deep_view() =~= deleted_paths(prev@, cur@));
    }
    IncrementalPlan { changed, deleted }
}

/// Membership in the changed list holds exactly for current paths carrying a
/// fingerprint that the previous snapshot does not record for them.
pub proof fn lemma_changed_contains(
    prev: Seq<FileFingerprint>,
    cur: Seq<FileFingerprint>,
    p: Seq<char>,
)
    ensures
        changed_paths(prev, cur).contains(p) <==> exists|j: int|
            0 <= j < cur.len() && cur[j].path@ == p && find_fp(prev, p) != Some(
                (cur[j].mtime_secs, cur[j].size),
            ),
    decreases cur.len(),
{
    if cur.len() == 0 {
    } else {
        lemma_changed_contains(prev, cur.drop_first(), p);
        let head_changed = find_fp(prev, cur.first().path@) != Some(
            (cur.first().mtime_secs, cur.first().size),
        );
        let tail = changed_paths(prev, cur.drop_first());
        if changed_paths(prev, cur).contains(p) {
            if head_changed && p == cur.first().path@ {
                assert(0 <= 0 < cur.len() && cur[0].path@ == p && find_fp(prev, p) != Some(
                    (cur[0].mtime_secs, cur[0].size),
                ));
            } else {
                assert(tail.contains(p));
                let j = choose|j: int|
                    0 <= j < cur.drop_first().len() && cur.drop_first()[j].path@ == p && find_fp(
                        prev,
                        p,
                    ) != Some((cur.drop_first()[j].mtime_secs, cur.drop_first()[j].size));
                assert(cur[j + 1].path@ == p && find_fp(prev, p) != Some(
                    (cur[j + 1].mtime_secs, cur[j + 1].size),
                ));
            }
        }
        if exists|j: int|
            0 <= j < cur.len() && cur[j].path@ == p && find_fp(prev, p) != Some(
                (cur[j].mtime_secs, cur[j].size),
            ) {
            let j = choose|j: int|
                0 <= j < cur.len() && cur[j].path@ == p && find_fp(prev, p) != Some(
                    (cur[j].mtime_secs, cur[j].size),
                );
            if j == 0 {
                assert(changed_paths(prev, cur)[0] == p);
                assert(changed_paths(prev, cur).contains(p));
            } else {
                assert(cur.drop_first()[j - 1].path@ == p && find_fp(prev, p) != Some(
                    (cur.drop_first()[j - 1].mtime_secs, cur.drop_first()[j - 1].size),
                ));
                assert(tail.contains(p));
                let k = choose|k: int| 0 <= k < tail.len() && tail[k] == p;
                if head_changed {
                    assert(changed_paths(prev, cur)[k + 1] == p);
                } else {
                    assert(changed_paths(prev, cur)[k] == p);
                }
                assert(changed_paths(prev, cur).contains(p));
            }
        }
    }
}

/// Membership in the deleted list holds exactly for paths the previous
/// snapshot records and the current enumeration lacks.
pub proof fn lemma_deleted_contains(
    prev: Seq<FileFingerprint>,
    cur: Seq<FileFingerprint>,
    p: Seq<char>,
)
    ensures
        deleted_paths(prev, cur).contains(p) <==> (exists|j: int|
            0 <= j < prev.len() && prev[j].path@ == p) && find_fp(cur, p) is None,
    decreases prev.len(),
{
    lemma_find_fp_none(cur, p);
    if prev.len() == 0 {
    } else {
        lemma_deleted_contains(prev.drop_first(), cur, p);
        let head_deleted = find_fp(cur, prev.first().path@) is None;
        let tail = deleted_paths(prev.drop_first(), cur);
        if deleted_paths(prev, cur).contains(p) {
            if head_deleted && p == prev.first().path@ {
                assert(0 <= 0 < prev.len() && prev[0].path@ == p);
            } else {
                assert(tail.contains(p));
                let j = choose|j: int|
                    0 <= j < prev.drop_first().len() && prev.drop_first()[j].path@ == p;
                assert(prev[j + 1].path@ == p);
            }
        }
        if (exists|j: int| 0 <= j < prev.len() && prev[j].path@ == p) && find_fp(cur, p) is None {
            let j = choose|j: int| 0 <= j < prev.len() && prev[j].path@ == p;
            if j == 0 {
                assert(deleted_paths(prev, cur)[0] == p);
                assert(deleted_paths(prev, cur).contains(p));
            } else {
                assert(prev.drop_first()[j - 1].path@ == p);
                assert(tail.contains(p));
                let k = choose|k: int| 0 <= k < tail.len() && tail[k] == p;
                if head_deleted {
                    assert(deleted_paths(prev, cur)[k + 1] == p);
                } else {
                    assert(deleted_paths(prev, cur)[k] == p);
                }
                assert(deleted_paths(prev, cur).contains(p));
            }
        }
    }
}

/// `find_fp` misses exactly when no entry carries the path.
pub proof fn lemma_find_fp_none(s: Seq<FileFingerprint>, p: Seq<char>)
    ensures
        find_fp(s, p) is None <==> forall|j: int| 0 <= j < s.len() ==> s[j].path@ != p,
    decreases s.len(),
{
    if s.len() > 0 {
        lemma_find_fp_none(s.drop_first(), p);
        if find_fp(s, p) is None {
            assert(forall|j: int|
                0 <= j < s.len() ==> s[j].path@ != p) by {
                assert(forall|j: int|
                    1 <= j < s.len() ==> s[j].path@ == s.drop_first()[j - 1].path@);
            }
        } else {
            if s.first().path@ != p {
                let j = choose|j: int| 0 <= j < s.drop_first().len() && s.drop_first()[j].path@ == p;
                assert(s[j + 1].path@ == p);
            }
        }
    }
}

} // verus!
