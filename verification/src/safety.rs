//! Quarantine ledger: the journal of reversible moves and its retention
//! rules. The physical moves, deletions and the persisted index file are
//! the surrounding application's work; every decision about the journal —
//! what the latest record is, which records retention purges, what a
//! rollback removes — is made here on plain values.
//!
//! The journal is appended in creation order (ids are derived from a
//! monotonic timestamp), so the retention rules may assume records sorted
//! by creation time, oldest first. A record leaves the journal only
//! through a rollback or through retention cleanup (whose entry bound is
//! the `max_entries` rule below): anything else would strand a quarantined
//! directory with no index entry.

use vstd::prelude::*;
use sha2::Digest;
use crate::types::{QuarantineConfig, QuarantineRecord};

verus! {

/// Bytes in one gibibyte.
pub const GIB: u64 = 1073741824;

/// Records ordered by creation time, oldest first.
pub open spec fn sorted_by_created(s: Seq<QuarantineRecord>) -> bool {
    forall|i: int, j: int| 0 <= i < j < s.len()
        ==> (#[trigger] s[i]).created_at <= (#[trigger] s[j]).created_at
}

/// Sum of the recorded sizes.
pub open spec fn sum_rec_sizes(s: Seq<QuarantineRecord>) -> int
    decreases s.len(),
{
    if s.len() == 0 {
        0
    } else {
        sum_rec_sizes(s.drop_last()) + s.last().size_bytes
    }
}

/// The position of the newest record; among records of equal creation time
/// the later one wins.
pub open spec fn latest_pos(s: Seq<QuarantineRecord>) -> int
    recommends
        s.len() > 0,
    decreases s.len(),
{
    if s.len() <= 1 {
        0
    } else {
        let q = latest_pos(s.drop_last());
        if s.last().created_at >= s[q].created_at {
            s.len() - 1
        } else {
            q
        }
    }
}

/// `s` without the records whose id is `id`.
pub open spec fn without_id(s: Seq<QuarantineRecord>, id: Seq<char>) -> Seq<QuarantineRecord>
    decreases s.len(),
{
    if s.len() == 0 {
        s
    } else if s.last().id@ == id {
        without_id(s.drop_last(), id)
    } else {
        without_id(s.drop_last(), id).push(s.last())
    }
}

/// How many leading (oldest) records were created before `cutoff`.
pub open spec fn age_count(s: Seq<QuarantineRecord>, cutoff: int) -> int
    decreases s.len(),
{
    if s.len() > 0 && s.first().created_at < cutoff {
        1 + age_count(s.drop_first(), cutoff)
    } else {
        0
    }
}

/// The smallest number of leading (oldest) records whose removal brings
/// the total size within `budget`.
pub open spec fn size_excess_count(s: Seq<QuarantineRecord>, budget: int) -> int
    decreases s.len(),
{
    if sum_rec_sizes(s) <= budget || s.len() == 0 {
        0
    } else {
        1 + size_excess_count(s.drop_first(), budget)
    }
}

/// How many records exceed the configured entry bound.
pub open spec fn count_excess(len: int, max_entries: nat) -> int {
    if max_entries > 0 && len > max_entries {
        len - max_entries
    } else {
        0
    }
}

/// The record-age cutoff that the retention period implies.
pub open spec fn retention_cutoff(cfg: QuarantineConfig, now: i64) -> int {
    now - cfg.retention_days * 86400
}

/// The byte budget that the size limit implies.
pub open spec fn quota_bytes(cfg: QuarantineConfig) -> int {
    cfg.max_size_gb * GIB
}

/// How many of the oldest records a retention pass purges: the union of
/// what the age, count and size rules each demand. Since each rule selects
/// oldest records first, the union is the longest of the three prefixes.
pub open spec fn spec_cleanup_count(s: Seq<QuarantineRecord>, cfg: QuarantineConfig, now: i64)
    -> int
{
    let n_age = if cfg.retention_days > 0 {
        age_count(s, retention_cutoff(cfg, now))
    } else {
        0
    };
    let n_count = count_excess(s.len() as int, cfg.max_entries as nat);
    let n_size = if cfg.max_size_gb > 0 {
        size_excess_count(s, quota_bytes(cfg))
    } else {
        0
    };
    let m = if n_age >= n_count { n_age } else { n_count };
    if m >= n_size { m } else { n_size }
}

/// Sizes are not negative, so a sum bounds its parts.
proof fn lemma_sum_rec_nonneg(s: Seq<QuarantineRecord>)
    ensures
        sum_rec_sizes(s) >= 0,
    decreases s.len(),
{
    if s.len() > 0 {
        lemma_sum_rec_nonneg(s.drop_last());
    }
}

/// The sum splits at any point.
proof fn lemma_sum_rec_split(s: Seq<QuarantineRecord>, m: int)
    requires
        0 <= m <= s.len(),
    ensures
        sum_rec_sizes(s) == sum_rec_sizes(s.take(m)) + sum_rec_sizes(s.skip(m)),
    decreases s.len() - m,
{
    if m == s.len() {
        assert(s.take(m) =~= s);
        assert(sum_rec_sizes(s.skip(m)) == 0);
    } else {
        lemma_sum_rec_split(s, m + 1);
        assert(s.take(m + 1).drop_last() =~= s.take(m));
        assert(s.take(m + 1).last() == s[m]);
        assert(s.skip(m).drop_first() =~= s.skip(m + 1));
        assert(sum_rec_sizes(s.skip(m)) == s[m].size_bytes + sum_rec_sizes(s.skip(m + 1)))
            by {
            lemma_sum_first(s.skip(m));
        }
    }
}

/// Peeling the first record off the sum.
proof fn lemma_sum_first(s: Seq<QuarantineRecord>)
    requires
        s.len() > 0,
    ensures
        sum_rec_sizes(s) == s.first().size_bytes + sum_rec_sizes(s.drop_first()),
    decreases s.len(),
{
    if s.len() == 1 {
        assert(s.drop_last() =~= s.drop_first());
    } else {
        lemma_sum_first(s.drop_last());
        assert(s.drop_last().drop_first() =~= s.drop_first().drop_last());
        assert(s.drop_last().first() == s.first());
        assert(s.drop_first().last() == s.last());
    }
}

/// After purging the computed count, the remaining records fit the budget
/// (or nothing remains).
proof fn lemma_size_excess(s: Seq<QuarantineRecord>, budget: int)
    requires
        budget >= 0,
    ensures
        0 <= size_excess_count(s, budget) <= s.len(),
        sum_rec_sizes(s.skip(size_excess_count(s, budget))) <= budget
            || size_excess_count(s, budget) == s.len(),
    decreases s.len(),
{
    if sum_rec_sizes(s) <= budget || s.len() == 0 {
        assert(s.skip(0) =~= s);
        lemma_sum_rec_nonneg(s);
    } else {
        lemma_size_excess(s.drop_first(), budget);
        let n = size_excess_count(s.drop_first(), budget);
        assert(s.skip(1) =~= s.drop_first());
        assert(s.skip(1 + n) =~= s.drop_first().skip(n));
    }
}

/// Skipping more records never increases the remaining sum.
proof fn lemma_sum_skip_mono(s: Seq<QuarantineRecord>, a: int, b: int)
    requires
        0 <= a <= b <= s.len(),
    ensures
        sum_rec_sizes(s.skip(b)) <= sum_rec_sizes(s.skip(a)),
    decreases b - a,
{
    if a < b {
        lemma_sum_skip_mono(s, a + 1, b);
        lemma_sum_first(s.skip(a));
        assert(s.skip(a).drop_first() =~= s.skip(a + 1));
    }
}

/// The age rule's bound: `age_count` never exceeds the length.
proof fn lemma_age_count_bound(s: Seq<QuarantineRecord>, cutoff: int)
    ensures
        0 <= age_count(s, cutoff) <= s.len(),
    decreases s.len(),
{
    if s.len() > 0 && s.first().created_at < cutoff {
        lemma_age_count_bound(s.drop_first(), cutoff);
    }
}

/// The newest record of the journal, by creation time; among equal times
/// the most recently appended one.
pub fn latest_quarantine(records: &Vec<QuarantineRecord>) -> (r: Option<QuarantineRecord>)
    ensures
        match r {
            None => records@.len() == 0,
            Some(rec) => records@.len() > 0 && rec == records@[latest_pos(records@)],
        },
{
    let n = records.len();
    if n == 0 {
        return None;
    }
    let mut best: usize = 0;
    let mut i: usize = 1;
    while i < n
        invariant
            n == records@.len(),
            1 <= i <= n,
            best < i,
            best == latest_pos(records@.take(i as int)),
        decreases n - i,
    {
        proof {
            assert(records@.take(i + 1).drop_last() =~= records@.take(i as int));
            assert(records@.take(i + 1).last() == records@[i as int]);
        }
        if records[i].created_at >= records[best].created_at {
            best = i;
        }
        i += 1;
    }
    proof {
        assert(records@.take(n as int) =~= records@);
    }
    Some(records[best].clone())
}

/// The record with the given id, if any; the earliest appended one wins.
pub fn find_quarantine_by_id(records: &Vec<QuarantineRecord>, id: &str) -> (r: Option<
    QuarantineRecord,
>)
    ensures
        match r {
            None => forall|i: int| 0 <= i < records@.len()
                ==> (#[trigger] records@[i]).id@ != id@,
            Some(rec) => exists|i: int| 0 <= i < records@.len()
                && (#[trigger] records@[i]) == rec && rec.id@ == id@,
        },
{
    let idk = id.to_owned();
    let n = records.len();
    let mut i: usize = 0;
    while i < n
        invariant
            n == records@.len(),
            i <= n,
            idk@ == id@,
            forall|j: int| 0 <= j < i ==> (#[trigger] records@[j]).id@ != id@,
        decreases n - i,
    {
        if records[i].id == idk {
            let found = records[i].clone();
            proof {
                assert(records@[i as int] == found);
                assert(found.id@ == id@);
            }
            return Some(found);
        }
        i += 1;
    }
    None
}

/// Remove every record with the given id from the journal (the bookkeeping
/// half of a rollback: the physical move back happens outside).
pub fn remove_record_by_id(records: &mut Vec<QuarantineRecord>, id: &str)
    ensures
        final(records)@ == without_id(old(records)@, id@),
{
    let ghost s = records@;
    let n = records.len();
    let mut out: Vec<QuarantineRecord> = Vec::new();
    let mut i: usize = 0;
    while i < n
        invariant
            n == s.len(),
            records@ == s,
            i <= n,
            out@ == without_id(s.take(i as int), id@),
        decreases n - i,
    {
        proof {
            assert(s.take(i + 1).drop_last() =~= s.take(i as int));
            assert(s.take(i + 1).last() == s[i as int]);
        }
        if !(records[i].id == id.to_owned()) {
            out.push(records[i].clone());
        }
        i += 1;
    }
    proof {
        assert(s.take(n as int) =~= s);
    }
    *records = out;
}

/// How many of the oldest records a retention pass must purge, and how
/// many bytes that frees: the union of the age rule (records older than
/// the retention period), the count rule (the excess over the entry
/// bound), and the size rule (oldest first until the total fits the
/// quota). A zero in the configuration disables the matching rule.
pub fn cleanup_selection(records: &Vec<QuarantineRecord>, cfg: &QuarantineConfig, now: i64)
    -> (r: (usize, u64))
    requires
        sorted_by_created(records@),
        sum_rec_sizes(records@) <= u64::MAX,
    ensures
        r.0 == spec_cleanup_count(records@, *cfg, now),
        r.0 <= records@.len(),
        r.1 == sum_rec_sizes(records@.take(r.0 as int)),
        cfg.max_size_gb > 0 ==> sum_rec_sizes(records@.skip(r.0 as int))
            <= quota_bytes(*cfg) || r.0 == records@.len(),
{
    let ghost s = records@;
    let n = records.len();

    // age rule: the oldest records, created before the cutoff
    let mut n_age: usize = 0;
    if cfg.retention_days > 0 {
        let cutoff: i128 = (now as i128) - (cfg.retention_days as i128) * 86400;
        let ghost co = retention_cutoff(*cfg, now);
        proof {
            assert(cutoff == co);
        }
        proof {
            assert(s.skip(0) =~= s);
        }
        let mut stop = false;
        while !stop && n_age < n
            invariant
                n == s.len(),
                records@ == s,
                n_age <= n,
                cutoff == co,
                age_count(s, co) == n_age + (if stop {
                    0int
                } else {
                    age_count(s.skip(n_age as int), co)
                }),
                stop ==> age_count(s, co) == n_age,
            decreases n - n_age + (if stop { 0int } else { 1int }),
        {
            proof {
                assert(s.skip(n_age as int).len() > 0);
                assert(s.skip(n_age as int).first() == s[n_age as int]);
                assert(s.skip(n_age as int).drop_first() =~= s.skip(n_age + 1));
            }
            if (records[n_age].created_at as i128) < cutoff {
                n_age += 1;
            } else {
                stop = true;
            }
        }
        proof {
            if !stop {
                assert(s.skip(n_age as int).len() == 0);
            }
            assert(age_count(s, co) == n_age);
        }
    }

    // count rule: the excess over the entry bound
    let n_count: usize = if cfg.max_entries > 0 && n > cfg.max_entries {
        n - cfg.max_entries
    } else {
        0
    };

    // size rule: oldest first until the total fits the quota
    let mut n_size: usize = 0;
    if cfg.max_size_gb > 0 {
        let quota: u128 = (cfg.max_size_gb as u128) * (GIB as u128);
        proof {
            assert(quota == quota_bytes(*cfg));
        }
        // total size of what is still kept
        let mut total: u64 = 0;
        let mut i: usize = 0;
        while i < n
            invariant
                n == s.len(),
                records@ == s,
                i <= n,
                total == sum_rec_sizes(s.take(i as int)),
                sum_rec_sizes(s) <= u64::MAX,
            decreases n - i,
        {
            proof {
                assert(s.take(i + 1).drop_last() =~= s.take(i as int));
                assert(s.take(i + 1).last() == s[i as int]);
                lemma_sum_rec_split(s, i + 1);
                lemma_sum_rec_nonneg(s.skip(i + 1));
            }
            total = total + records[i].size_bytes;
            i += 1;
        }
        proof {
            assert(s.take(n as int) =~= s);
            assert(s.skip(0) =~= s);
        }
        while (total as u128) > quota && n_size < n
            invariant
                n == s.len(),
                records@ == s,
                n_size <= n,
                quota == quota_bytes(*cfg),
                total == sum_rec_sizes(s.skip(n_size as int)),
                size_excess_count(s, quota as int)
                    == n_size + size_excess_count(s.skip(n_size as int), quota as int),
            decreases n - n_size,
        {
            proof {
                lemma_sum_first(s.skip(n_size as int));
                assert(s.skip(n_size as int).first() == s[n_size as int]);
                assert(s.skip(n_size as int).drop_first() =~= s.skip(n_size + 1));
                lemma_sum_rec_nonneg(s.skip(n_size + 1));
            }
            total = total - records[n_size].size_bytes;
            n_size += 1;
        }
        proof {
            if n_size < n {
                assert(size_excess_count(s.skip(n_size as int), quota as int) == 0);
            } else {
                assert(s.skip(n_size as int).len() == 0);
            }
            assert(size_excess_count(s, quota as int) == n_size);
            lemma_size_excess(s, quota as int);
        }
    }

    let m1 = if n_age >= n_count { n_age } else { n_count };
    let m = if m1 >= n_size { m1 } else { n_size };
    proof {
        lemma_age_count_bound(s, retention_cutoff(*cfg, now));
        if cfg.max_size_gb > 0 {
            lemma_size_excess(s, quota_bytes(*cfg));
            lemma_sum_skip_mono(s, n_size as int, m as int);
        }
    }

    // bytes freed: the sizes of the purged records
    let mut bytes: u64 = 0;
    let mut i: usize = 0;
    while i < m
        invariant
            n == s.len(),
            records@ == s,
            m <= n,
            i <= m,
            bytes == sum_rec_sizes(s.take(i as int)),
            sum_rec_sizes(s) <= u64::MAX,
        decreases m - i,
    {
        proof {
            assert(s.take(i + 1).drop_last() =~= s.take(i as int));
            assert(s.take(i + 1).last() == s[i as int]);
            lemma_sum_rec_split(s, i + 1);
            lemma_sum_rec_nonneg(s.skip(i + 1));
        }
        bytes = bytes + records[i].size_bytes;
        i += 1;
    }
    (m, bytes)
}


/// A journal that never held the id is unchanged by removing it.
proof fn lemma_without_id_absent(s: Seq<QuarantineRecord>, id: Seq<char>)
    requires
        forall|i: int| 0 <= i < s.len() ==> (#[trigger] s[i]).id@ != id,
    ensures
        without_id(s, id) == s,
    decreases s.len(),
{
    if s.len() > 0 {
        lemma_without_id_absent(s.drop_last(), id);
        assert(without_id(s, id) =~= s);
    }
}

/// Law: quarantining appends a fresh record, and rolling it back removes
/// exactly that record, restoring the journal.
pub proof fn lemma_rollback_restores_index(s: Seq<QuarantineRecord>, r: QuarantineRecord)
    requires
        forall|i: int| 0 <= i < s.len() ==> (#[trigger] s[i]).id@ != r.id@,
    ensures
        without_id(s.push(r), r.id@) == s,
{
    assert(s.push(r).last() == r);
    assert(s.push(r).drop_last() =~= s);
    lemma_without_id_absent(s, r.id@);
}


// ---------------------------------------------------------------------------
// The move into quarantine: its decisions, and the content digest.
// ---------------------------------------------------------------------------

/// What the filesystem reported during a move into quarantine.
#[derive(Debug, Clone, Copy, PartialEq, Eq, Structural)]
pub enum MoveEvent {
    RenameOk,
    RenameFailed,
    CopyOk,
    CopyFailed,
    RemoveOriginalOk,
    RemoveOriginalFailed,
}

/// What to do next during a move into quarantine.
#[derive(Debug, Clone, Copy, PartialEq, Eq, Structural)]
pub enum MoveAction {
    /// The move succeeded: append the record.
    Done,
    /// The atomic rename failed (e.g. across devices): copy instead.
    TryCopy,
    /// The copy failed: remove the partial destination and fail, leaving
    /// the original untouched.
    RemovePartialAndFail,
    /// The copy succeeded: remove the original.
    RemoveOriginal,
    /// The original could not be removed: remove the quarantine copy and
    /// fail, so that original and copy never both stand as a success.
    RemoveCopyAndFail,
}

/// The next action after `e`, per the fallback rule of the move: rename,
/// else copy then remove the original, undoing on failure so that no
/// partial or duplicated state survives.
pub open spec fn spec_move_step(e: MoveEvent) -> MoveAction {
    match e {
        MoveEvent::RenameOk => MoveAction::Done,
        MoveEvent::RenameFailed => MoveAction::TryCopy,
        MoveEvent::CopyOk => MoveAction::RemoveOriginal,
        MoveEvent::CopyFailed => MoveAction::RemovePartialAndFail,
        MoveEvent::RemoveOriginalOk => MoveAction::Done,
        MoveEvent::RemoveOriginalFailed => MoveAction::RemoveCopyAndFail,
    }
}

/// Decide the next step of a move into quarantine. The surrounding
/// application performs the filesystem work and feeds back what happened.
pub fn move_fallback_step(e: MoveEvent) -> (r: MoveAction)
    ensures
        r == spec_move_step(e),
{
    match e {
        MoveEvent::RenameOk => MoveAction::Done,
        MoveEvent::RenameFailed => MoveAction::TryCopy,
        MoveEvent::CopyOk => MoveAction::RemoveOriginal,
        MoveEvent::CopyFailed => MoveAction::RemovePartialAndFail,
        MoveEvent::RemoveOriginalOk => MoveAction::Done,
        MoveEvent::RemoveOriginalFailed => MoveAction::RemoveCopyAndFail,
    }
}

/// Whether a move must run retention cleanup first: the journal has
/// reached its configured entry bound.
pub fn needs_pre_cleanup(records: &Vec<QuarantineRecord>, cfg: &QuarantineConfig) -> (r: bool)
    ensures
        r == (cfg.max_entries > 0 && records@.len() >= cfg.max_entries),
{
    cfg.max_entries > 0 && records.len() >= cfg.max_entries
}

/// The SHA-256 digest of `data`, in hex. A function of the bytes alone.
pub uninterp spec fn sha256_hex_of(data: Seq<u8>) -> Seq<char>;

/// Relies on sha2's `Sha256` (the SHA-256 digest of exactly the bytes fed
/// to it) and hex's `encode` (two lowercase hex digits per byte of the
/// 32-byte digest): the hex digest of `data`, 64 characters.
#[verifier::external_body]
fn sha256_hex(data: &Vec<u8>) -> (r: String)
    ensures
        r@ == sha256_hex_of(data@),
        r@.len() == 64,
{
    let mut hasher = sha2::Sha256::new();
    hasher.update(data.as_slice());
    hex::encode(hasher.finalize())
}

/// Check a record's stored content hash against the quarantined content,
/// serialized by the caller in the deterministic traversal order the hash
/// was first computed over.
pub fn verify_record_hash(rec: &QuarantineRecord, data: &Vec<u8>) -> (r: bool)
    ensures
        r == (rec.sha256@ == sha256_hex_of(data@)),
{
    let digest = sha256_hex(data);
    rec.sha256 == digest
}

} // verus!
