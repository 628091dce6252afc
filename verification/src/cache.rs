//! The extraction cache's policies: hit/upgrade/re-extract decisions, the
//! page cap, the size/age-bounded eviction plan, and the content-addressed
//! cache key.
//!
//! The cache itself is a directory of one file per document, keyed by a
//! fixed-width hex hash of (path, mtime, size). The policies here decide;
//! the caller performs the reads, writes and deletions.
use vstd::prelude::*;

verus! {

/// Which extractor produced a result: the high-fidelity primary path or the
/// best-effort structural fallback.
#[derive(Clone, Copy, PartialEq, Eq, Structural, Debug)]
pub enum ExtractorKind {
    Primary,
    Fallback,
}

/// What the cache tells the caller to do for a lookup.
#[derive(Clone, Copy, PartialEq, Eq, Structural, Debug)]
pub enum CacheDecision {
    /// The entry matches the fingerprint and cannot be improved: return it
    /// without a second extraction pass.
    UseCached,
    /// The entry matches the fingerprint but came from the fallback
    /// extractor: attempt a fresh primary pass, and keep the cached result
    /// only if that attempt fails.
    TryUpgrade,
    /// No entry, or the fingerprint differs: the file changed, extract anew.
    Reextract,
}

/// An upgrade is worth attempting only when the cached result came from the
/// weaker extractor.
pub fn should_upgrade(cached: ExtractorKind) -> (r: bool)
    ensures
        r == (cached is Fallback),
{
    match cached {
        ExtractorKind::Primary => false,
        ExtractorKind::Fallback => true,
    }
}

/// What the cache does with a lookup, as a function of the stored entry's
/// fingerprint and extractor and of the file's current fingerprint.
pub open spec fn cache_decision_spec(
    cached: Option<(u64, u64, ExtractorKind)>,
    mtime: u64,
    size: u64,
) -> CacheDecision {
    match cached {
        None => CacheDecision::Reextract,
        Some((m, s, k)) => {
            if m != mtime || s != size {
                CacheDecision::Reextract
            } else if k is Fallback {
                CacheDecision::TryUpgrade
            } else {
                CacheDecision::UseCached
            }
        },
    }
}

/// Decides what to do with a cache lookup: `cached` is the (mtime, size,
/// extractor) triple of the stored entry, if one exists under the key;
/// `mtime` and `size` are the file's current fingerprint.
pub fn cache_decision(cached: Option<(u64, u64, ExtractorKind)>, mtime: u64, size: u64) -> (r:
    CacheDecision)
    ensures
        r == cache_decision_spec(cached, mtime, size),
        (r is Reextract) <==> match cached {
            None => true,
            Some((m, s, _)) => m != mtime || s != size,
        },
        (r is UseCached) <==> (cached matches Some((m, s, k)) && m == mtime && s == size
            && k is Primary),
        (r is TryUpgrade) <==> (cached matches Some((m, s, k)) && m == mtime && s == size
            && k is Fallback),
{
    match cached {
        None => CacheDecision::Reextract,
        Some((m, s, k)) => {
            if m != mtime || s != size {
                CacheDecision::Reextract
            } else if should_upgrade(k) {
                CacheDecision::TryUpgrade
            } else {
                CacheDecision::UseCached
            }
        },
    }
}

/// Re-extraction idempotence: while a file's fingerprint is unchanged, a
/// primary-produced entry is returned as-is, so repeated lookups perform no
/// second extraction pass and yield identical content.
pub proof fn lemma_unchanged_fingerprint_reuses_cache(
    m: u64,
    s: u64,
    k: ExtractorKind,
    mtime: u64,
    size: u64,
)
    requires
        m == mtime,
        s == size,
    ensures
        k is Primary ==> cache_decision_spec(Some((m, s, k)), mtime, size)
            == CacheDecision::UseCached,
        k is Fallback ==> cache_decision_spec(Some((m, s, k)), mtime, size)
            == CacheDecision::TryUpgrade,
        !(cache_decision_spec(Some((m, s, k)), mtime, size) is Reextract),
{
}

/// Fingerprint sensitivity: a change in modification time or in size forces
/// re-extraction, whatever the cached entry holds.
pub proof fn lemma_fingerprint_change_forces_reextract(
    m: u64,
    s: u64,
    k: ExtractorKind,
    mtime: u64,
    size: u64,
)
    requires
        m != mtime || s != size,
    ensures
        cache_decision_spec(Some((m, s, k)), mtime, size) is Reextract,
{
}

/// Caps a page list at `max_pages` entries, as applied to indexed PDFs.
pub fn truncate_pages<T>(pages: &mut Vec<T>, max_pages: u32)
    ensures
        final(pages)@ == if old(pages)@.len() <= max_pages {
            old(pages)@
        } else {
            old(pages)@.take(max_pages as int)
        },
{
    let cap = max_pages as usize;
    if pages.len() > cap {
        pages.truncate(cap);
    }
    proof {
        if old(pages)@.len() <= max_pages {
            assert(final(pages)@ == old(pages)@);
        }
    }
}

/// An on-disk cache entry as the eviction sweep sees it: its file name, its
/// size in bytes and its modification time.
pub struct CacheEntryMeta {
    pub name: String,
    pub size: u64,
    pub mtime: u64,
}

/// Total size in bytes of the listed entries.
pub open spec fn total_size(s: Seq<CacheEntryMeta>) -> int
    decreases s.len(),
{
    if s.len() == 0 {
        0
    } else {
        s.first().size + total_size(s.drop_first())
    }
}

proof fn lemma_total_size_push(s: Seq<CacheEntryMeta>, e: CacheEntryMeta)
    ensures
        total_size(s.push(e)) == total_size(s) + e.size,
    decreases s.len(),
{
    if s.len() == 0 {
        assert(s.push(e).drop_first() =~= Seq::<CacheEntryMeta>::empty());
        assert(s.push(e).first() == e);
        assert(total_size(Seq::<CacheEntryMeta>::empty()) == 0);
    } else {
        assert(s.push(e).drop_first() =~= s.drop_first().push(e));
        assert(s.push(e).first() == s.first());
        lemma_total_size_push(s.drop_first(), e);
    }
}

proof fn lemma_total_size_remove(s: Seq<CacheEntryMeta>, i: int)
    requires
        0 <= i < s.len(),
    ensures
        total_size(s.remove(i)) == total_size(s) - s[i].size,
    decreases s.len(),
{
    if i == 0 {
        assert(s.remove(0) =~= s.drop_first());
    } else {
        assert(s.remove(i).drop_first() =~= s.drop_first().remove(i - 1));
        assert(s.remove(i).first() == s.first());
        lemma_total_size_remove(s.drop_first(), i - 1);
    }
}

proof fn lemma_total_size_nonneg(s: Seq<CacheEntryMeta>)
    ensures
        total_size(s) >= 0,
    decreases s.len(),
{
    if s.len() > 0 {
        lemma_total_size_nonneg(s.drop_first());
    }
}

/// The eviction plan: which entries to delete and which to keep.
pub struct PrunePlan {
    pub delete: Vec<CacheEntryMeta>,
    pub keep: Vec<CacheEntryMeta>,
}

/// Sums the sizes of the listed entries; the flag reports that the true sum
/// exceeds `u64::MAX`.
fn sum_sizes(v: &Vec<CacheEntryMeta>) -> (r: (u64, bool))
    ensures
        !r.1 ==> r.0 == total_size(v@),
        r.1 ==> total_size(v@) > u64::MAX,
{
    let mut total: u64 = 0;
    let mut sat: bool = false;
    let n: usize = v.len();
    let mut k: usize = 0;
    proof {
        assert(v@.take(0) =~= Seq::<CacheEntryMeta>::empty());
    }
    while k < n
        invariant
            0 <= k <= n == v@.len(),
            !sat ==> total == total_size(v@.take(k as int)),
            sat ==> total_size(v@.take(k as int)) > u64::MAX,
        decreases n - k,
    {
        proof {
            lemma_total_size_push(v@.take(k as int), v@[k as int]);
            assert(v@.take(k + 1) =~= v@.take(k as int).push(v@[k as int]));
        }
        let s = v[k].size;
        if !sat {
            if total <= u64::MAX - s {
                total = total + s;
            } else {
                sat = true;
            }
        }
        k = k + 1;
    }
    proof {
        assert(v@.take(n as int) =~= v@);
    }
    (total, sat)
}

/// Plans the eviction sweep over the listed cache entries. Entries whose
/// modification time lies more than `max_age_secs` before `now` are deleted
/// first; if the survivors still occupy more than `max_bytes`, the
/// oldest-modified survivors are deleted until the rest fit. Every entry
/// lands in exactly one of the two lists, the kept entries always fit the
/// byte budget, none of them is over-age, no deleted entry is newer than a
/// kept one unless age alone condemned it, and a young entry is deleted
/// only while the entries still held at that moment exceed the budget.
pub fn plan_prune(entries: Vec<CacheEntryMeta>, now: u64, max_bytes: u64, max_age_secs: u64) -> (r:
    PrunePlan)
    ensures
        total_size(r.keep@) <= max_bytes,
        r.keep@.len() + r.delete@.len() == entries@.len(),
        r.keep@.to_multiset().add(r.delete@.to_multiset()) == entries@.to_multiset(),
        forall|i: int|
            0 <= i < r.keep@.len() ==> (#[trigger] r.keep@[i].mtime) >= now - max_age_secs,
        forall|i: int, j: int|
            0 <= i < r.delete@.len() && 0 <= j < r.keep@.len() && (#[trigger] r.delete@[i].mtime)
                >= now - max_age_secs ==> r.delete@[i].mtime <= (#[trigger] r.keep@[j].mtime),
        forall|i: int|
            0 <= i < r.delete@.len() && (#[trigger] r.delete@[i].mtime) >= now - max_age_secs
                ==> total_size(r.keep@) + total_size(r.delete@.skip(i)) > max_bytes,
{
    broadcast use vstd::seq_lib::group_to_multiset_ensures, vstd::multiset::group_multiset_axioms;

    let cutoff: u64 = if now >= max_age_secs {
        now - max_age_secs
    } else {
        0
    };
    let ghost all = entries@;
    let mut rest = entries;
    let mut delete: Vec<CacheEntryMeta> = Vec::new();
    let mut fresh: Vec<CacheEntryMeta> = Vec::new();
    proof {
        assert(all.take(0) =~= Seq::<CacheEntryMeta>::empty());
        assert(all.skip(0) =~= all);
        assert(fresh@.to_multiset().add(delete@.to_multiset()) =~= all.take(0).to_multiset());
    }
    while rest.len() > 0
        invariant
            cutoff == if now >= max_age_secs {
                (now - max_age_secs) as u64
            } else {
                0u64
            },
            rest@.len() <= all.len(),
            rest@ == all.skip(all.len() - rest@.len()),
            fresh@.to_multiset().add(delete@.to_multiset()) =~= all.take(
                all.len() - rest@.len(),
            ).to_multiset(),
            fresh@.len() + delete@.len() == all.len() - rest@.len(),
            forall|k: int|
                0 <= k < fresh@.len() ==> (#[trigger] fresh@[k].mtime) >= now - max_age_secs,
            forall|k: int| 0 <= k < delete@.len() ==> (#[trigger] delete@[k].mtime) < cutoff,
        decreases rest@.len(),
    {
        let ghost c = all.len() - rest@.len();
        let ghost f0 = fresh@;
        let ghost d0 = delete@;
        let e = rest.remove(0);
        proof {
            assert(e == all.skip(c)[0]);
            assert(e == all[c]);
            assert(rest@ =~= all.skip(c + 1));
            assert(all.take(c + 1) =~= all.take(c).push(all[c]));
        }
        if e.mtime < cutoff {
            delete.push(e);
            proof {
                all.take(c).to_multiset_ensures();
                d0.to_multiset_ensures();
                assert(all.take(c + 1).to_multiset() =~= all.take(c).to_multiset().insert(all[c]));
                assert(delete@ =~= d0.push(e));
                assert(delete@.to_multiset() =~= d0.to_multiset().insert(e));
                assert(fresh@.to_multiset().add(delete@.to_multiset()) =~= all.take(
                    c + 1,
                ).to_multiset());
            }
        } else {
            fresh.push(e);
            proof {
                all.take(c).to_multiset_ensures();
                f0.to_multiset_ensures();
                assert(all.take(c + 1).to_multiset() =~= all.take(c).to_multiset().insert(all[c]));
                assert(fresh@ =~= f0.push(e));
                assert(fresh@.to_multiset() =~= f0.to_multiset().insert(e));
                assert(e.mtime >= now - max_age_secs);
                assert(forall|k: int|
                    0 <= k < fresh@.len() ==> (#[trigger] fresh@[k].mtime) >= now - max_age_secs);
                assert(fresh@.to_multiset().add(delete@.to_multiset()) =~= all.take(
                    c + 1,
                ).to_multiset());
            }
        }
    }
    proof {
        assert(all.take(all.len() as int) =~= all);
    }
    // Budget pass: while the surviving entries exceed the byte budget, move
    // the oldest-modified one over to the delete list.
    let mut over: bool = true;
    while over && fresh.len() > 0
        invariant
            cutoff == if now >= max_age_secs {
                (now - max_age_secs) as u64
            } else {
                0u64
            },
            fresh@.to_multiset().add(delete@.to_multiset()) =~= all.to_multiset(),
            fresh@.len() + delete@.len() == all.len(),
            !over ==> total_size(fresh@) <= max_bytes,
            forall|k2: int|
                0 <= k2 < fresh@.len() ==> (#[trigger] fresh@[k2].mtime) >= now - max_age_secs,
            forall|i2: int, j2: int|
                0 <= i2 < delete@.len() && 0 <= j2 < fresh@.len() && (#[trigger] delete@[i2].mtime)
                    >= now - max_age_secs ==> delete@[i2].mtime <= (#[trigger] fresh@[j2].mtime),
            forall|i2: int|
                0 <= i2 < delete@.len() && (#[trigger] delete@[i2].mtime) >= now - max_age_secs
                    ==> total_size(fresh@) + total_size(delete@.skip(i2)) > max_bytes,
        decreases fresh@.len(), (if over { 1int } else { 0int }),
    {
        let (total, sat) = sum_sizes(&fresh);
        if !sat && total <= max_bytes {
            over = false;
        } else {
            // index of the oldest-modified survivor
            let mut oldest: usize = 0;
            let mut j: usize = 1;
            while j < fresh.len()
                invariant
                    0 <= oldest < j <= fresh@.len(),
                    forall|k2: int|
                        0 <= k2 < j ==> fresh@[oldest as int].mtime <= (
                        #[trigger] fresh@[k2].mtime),
                decreases fresh@.len() - j,
            {
                if fresh[j].mtime < fresh[oldest].mtime {
                    oldest = j;
                }
                j = j + 1;
            }
            let ghost f0 = fresh@;
            let ghost d0 = delete@;
            let victim = fresh.remove(oldest);
            delete.push(victim);
            proof {
                assert(victim == f0[oldest as int]);
                assert(f0.contains(victim));
                f0.to_multiset_ensures();
                d0.to_multiset_ensures();
                assert(f0.to_multiset().count(victim) > 0);
                assert(fresh@.to_multiset() =~= f0.to_multiset().remove(victim));
                assert(delete@.to_multiset() =~= d0.to_multiset().insert(victim));
                assert(fresh@.to_multiset().add(delete@.to_multiset()) =~= f0.to_multiset().add(
                    d0.to_multiset(),
                ));
                assert(forall|j2: int|
                    0 <= j2 < fresh@.len() ==> #[trigger] fresh@[j2] == (if j2 < oldest {
                        f0[j2]
                    } else {
                        f0[j2 + 1]
                    }));
                // The survivors plus each young victim's suffix still carry
                // the weight that forced its removal.
                lemma_total_size_remove(f0, oldest as int);
                assert(total_size(fresh@) == total_size(f0) - victim.size);
                assert(total_size(f0) > max_bytes);
                assert forall|i2: int|
                    0 <= i2 < delete@.len() && (#[trigger] delete@[i2].mtime) >= now
                        - max_age_secs implies total_size(fresh@) + total_size(delete@.skip(i2))
                    > max_bytes by {
                    assert(delete@.skip(i2) =~= (if i2 < d0.len() {
                        d0.skip(i2).push(victim)
                    } else {
                        Seq::<CacheEntryMeta>::empty().push(victim)
                    }));
                    if i2 < d0.len() {
                        lemma_total_size_push(d0.skip(i2), victim);
                        assert(delete@[i2] == d0[i2]);
                    } else {
                        lemma_total_size_push(Seq::<CacheEntryMeta>::empty(), victim);
                        assert(total_size(Seq::<CacheEntryMeta>::empty()) == 0);
                    }
                }
            }
        }
    }
    proof {
        lemma_total_size_nonneg(fresh@);
        if fresh@.len() == 0 {
            assert(total_size(fresh@) == 0);
        }
    }
    PrunePlan { delete, keep: fresh }
}

/// Whether enough time has passed since the last sweep for another one: the
/// sweep is rate-limited to one per `interval_secs`.
pub fn should_prune(now: u64, last: u64, interval_secs: u64) -> (r: bool)
    ensures
        r == (now < last || now - last >= interval_secs),
{
    let elapsed: u64 = if now >= last {
        now - last
    } else {
        0
    };
    now < last || elapsed >= interval_secs
}

/// One mixing step of the 64-bit FNV-1a hash.
pub open spec fn fnv_step(h: u64, b: u8) -> u64 {
    vstd::wrapping::u64_specs::wrapping_mul(h ^ (b as u64), 0x100000001b3)
}

/// The 64-bit FNV-1a hash of `bytes`, folded onto the running state `h`.
pub open spec fn fnv_bytes(h: u64, bytes: Seq<u8>) -> u64
    decreases bytes.len(),
{
    if bytes.len() == 0 {
        h
    } else {
        fnv_bytes(fnv_step(h, bytes.first()), bytes.drop_first())
    }
}

/// Folds a byte slice into the running FNV-1a state.
fn fnv_fold(h0: u64, bytes: &[u8]) -> (r: u64)
    ensures
        r == fnv_bytes(h0, bytes@),
{
    let mut h = h0;
    let n: usize = bytes.len();
    let mut i: usize = 0;
    proof {
        assert(bytes@.skip(0) =~= bytes@);
    }
    while i < n
        invariant
            0 <= i <= n == bytes@.len(),
            fnv_bytes(h0, bytes@) == fnv_bytes(h, bytes@.skip(i as int)),
        decreases n - i,
    {
        proof {
            assert(bytes@.skip(i as int).first() == bytes@[i as int]);
            assert(bytes@.skip(i as int).drop_first() =~= bytes@.skip(i + 1));
        }
        h = (h ^ (bytes[i] as u64)).wrapping_mul(0x100000001b3);
        i = i + 1;
    }
    proof {
        assert(bytes@.skip(n as int) =~= Seq::<u8>::empty());
    }
    h
}

/// The eight bytes of `x`, least significant first.
pub open spec fn le_bytes(x: u64) -> Seq<u8> {
    Seq::new(8, |i: int| ((x >> (8 * i) as u64) & 0xff) as u8)
}

/// Writes the eight little-endian bytes of `x`.
fn le_bytes_of(x: u64) -> (r: Vec<u8>)
    ensures
        r@ == le_bytes(x),
{
    let mut r: Vec<u8> = Vec::new();
    let mut i: usize = 0;
    while i < 8
        invariant
            0 <= i <= 8,
            r@.len() == i,
            forall|j: int| 0 <= j < i ==> r@[j] == ((x >> (8 * j) as u64) & 0xff) as u8,
        decreases 8 - i,
    {
        let shift: u64 = 8 * (i as u64);
        r.push(#[verifier::truncate] (((x >> shift) & 0xff) as u8));
        i = i + 1;
    }
    proof {
        assert(r@ =~= le_bytes(x));
    }
    r
}

/// The lower-case hex digit for `v`.
pub open spec fn hex_digit_spec(v: u64) -> char {
    if v == 0 {
        '0'
    } else if v == 1 {
        '1'
    } else if v == 2 {
        '2'
    } else if v == 3 {
        '3'
    } else if v == 4 {
        '4'
    } else if v == 5 {
        '5'
    } else if v == 6 {
        '6'
    } else if v == 7 {
        '7'
    } else if v == 8 {
        '8'
    } else if v == 9 {
        '9'
    } else if v == 10 {
        'a'
    } else if v == 11 {
        'b'
    } else if v == 12 {
        'c'
    } else if v == 13 {
        'd'
    } else if v == 14 {
        'e'
    } else {
        'f'
    }
}

fn hex_digit(v: u64) -> (r: char)
    requires
        v < 16,
    ensures
        r == hex_digit_spec(v),
{
    if v == 0 {
        '0'
    } else if v == 1 {
        '1'
    } else if v == 2 {
        '2'
    } else if v == 3 {
        '3'
    } else if v == 4 {
        '4'
    } else if v == 5 {
        '5'
    } else if v == 6 {
        '6'
    } else if v == 7 {
        '7'
    } else if v == 8 {
        '8'
    } else if v == 9 {
        '9'
    } else if v == 10 {
        'a'
    } else if v == 11 {
        'b'
    } else if v == 12 {
        'c'
    } else if v == 13 {
        'd'
    } else if v == 14 {
        'e'
    } else {
        'f'
    }
}

/// The last `n` hex digits of `h`, most significant of them first.
pub open spec fn hex_of(h: u64, n: nat) -> Seq<char>
    decreases n,
{
    if n == 0 {
        Seq::empty()
    } else {
        hex_of(h >> 4, (n - 1) as nat) + seq![hex_digit_spec(h & 0xf)]
    }
}

fn hex_append(h: u64, n: usize, out: &mut Vec<char>)
    ensures
        final(out)@ == old(out)@ + hex_of(h, n as nat),
    decreases n,
{
    if n == 0 {
        proof {
            assert(final(out)@ =~= old(out)@ + hex_of(h, 0));
        }
    } else {
        hex_append(h >> 4, n - 1, out);
        proof {
            assert(h & 0xf < 16) by (bit_vector);
        }
        let d = hex_digit(h & 0xf);
        out.push(d);
        proof {
            assert(final(out)@ =~= old(out)@ + hex_of(h, n as nat));
        }
    }
}

/// The FNV-1a offset basis.
pub open spec fn fnv_offset() -> u64 {
    0xcbf29ce484222325
}

/// The cache key for a file: the fixed-width hex rendering of a 64-bit
/// FNV-1a hash over the path's UTF-8 bytes followed by the little-endian
/// bytes of the modification time and of the size. Equal (path, mtime, size)
/// triples give equal keys, and any fingerprint change changes the hashed
/// input.
pub open spec fn cache_key_spec(p: Seq<char>, mtime: u64, size: u64) -> Seq<char> {
    hex_of(
        fnv_bytes(
            fnv_bytes(fnv_bytes(fnv_offset(), vstd::utf8::encode_utf8(p)), le_bytes(mtime)),
            le_bytes(size),
        ),
        16,
    )
}

/// Renders the content-addressed cache key of (path, mtime, size): sixteen
/// lower-case hex digits.
pub fn cache_key(path: &str, mtime: u64, size: u64) -> (r: String)
    ensures
        r@ == cache_key_spec(path@, mtime, size),
        r@.len() == 16,
{
    let h1 = fnv_fold(0xcbf29ce484222325u64, path.as_bytes());
    let mb = le_bytes_of(mtime);
    let h2 = fnv_fold(h1, mb.as_slice());
    let sb = le_bytes_of(size);
    let h3 = fnv_fold(h2, sb.as_slice());
    let mut out: Vec<char> = Vec::new();
    hex_append(h3, 16, &mut out);
    proof {
        lemma_hex_len(h3, 16);
    }
    crate::text::string_from_chars(out.as_slice())
}

proof fn lemma_hex_len(h: u64, n: nat)
    ensures
        hex_of(h, n).len() == n,
    decreases n,
{
    if n > 0 {
        lemma_hex_len(h >> 4, (n - 1) as nat);
    }
}

} // verus!
