use packagepurge::safety::{
    cleanup_selection, find_quarantine_by_id, latest_quarantine, move_fallback_step,
    needs_pre_cleanup, remove_record_by_id, verify_record_hash, MoveAction, MoveEvent,
};
use packagepurge::types::{QuarantineConfig, QuarantineRecord};

fn rec(id: &str, created_at: i64, size_bytes: u64) -> QuarantineRecord {
    QuarantineRecord {
        id: id.to_string(),
        original_path: format!("/home/user/project/node_modules/{}", id),
        quarantine_path: format!("/home/user/.packagepurge/quarantine/{}", id),
        sha256: "deferred".to_string(),
        size_bytes,
        created_at,
    }
}

#[test]
fn quarantine_index_round_trip() {
    let mut index = vec![rec("100", 10, 5)];
    index.push(rec("200", 20, 7));
    let found = find_quarantine_by_id(&index, "200").unwrap();
    assert_eq!(found.size_bytes, 7);
    assert_eq!(found.original_path, "/home/user/project/node_modules/200");
    // the bookkeeping half of a rollback: the record leaves the journal
    remove_record_by_id(&mut index, "200");
    assert_eq!(index.len(), 1);
    assert_eq!(index[0].id, "100");
    assert!(find_quarantine_by_id(&index, "200").is_none());
}

#[test]
fn quarantine_latest_is_newest() {
    let index = vec![rec("1", 10, 5), rec("2", 30, 6), rec("3", 20, 7)];
    assert_eq!(latest_quarantine(&index).unwrap().id, "2");
    let empty: Vec<QuarantineRecord> = Vec::new();
    assert!(latest_quarantine(&empty).is_none());
}

#[test]
fn quarantine_quota_cleanup() {
    // three records of one gibibyte each against a two-gibibyte quota
    let g: u64 = 1073741824;
    let index = vec![rec("1", 10, g), rec("2", 20, g), rec("3", 30, g)];
    let cfg = QuarantineConfig { max_size_gb: 2, retention_days: 0, max_entries: 0 };
    let (n, bytes_freed) = cleanup_selection(&index, &cfg, 100);
    assert_eq!(n, 1);
    assert_eq!(bytes_freed, g);
}

#[test]
fn quarantine_retention_cleanup() {
    let day = 86400;
    let index = vec![rec("1", 0, 10), rec("2", 5 * day, 10), rec("3", 9 * day, 10)];
    let cfg = QuarantineConfig { max_size_gb: 0, retention_days: 7, max_entries: 0 };
    // at day 10 the cutoff is day 3: only the record from day 0 is stale
    let (n, bytes_freed) = cleanup_selection(&index, &cfg, 10 * day);
    assert_eq!(n, 1);
    assert_eq!(bytes_freed, 10);
}

#[test]
fn quarantine_entry_bound_cleanup() {
    let index = vec![rec("1", 1, 4), rec("2", 2, 5), rec("3", 3, 6)];
    let cfg = QuarantineConfig { max_size_gb: 0, retention_days: 0, max_entries: 2 };
    let (n, bytes_freed) = cleanup_selection(&index, &cfg, 100);
    assert_eq!(n, 1);
    assert_eq!(bytes_freed, 4);
}

#[test]
fn quarantine_zero_limits_disable_rules() {
    let index = vec![rec("1", 1, 1000), rec("2", 2, 1000)];
    let cfg = QuarantineConfig { max_size_gb: 0, retention_days: 0, max_entries: 0 };
    let (n, bytes_freed) = cleanup_selection(&index, &cfg, 1000000);
    assert_eq!(n, 0);
    assert_eq!(bytes_freed, 0);
}

#[test]
fn quarantine_move_fallback_steps() {
    assert_eq!(move_fallback_step(MoveEvent::RenameOk), MoveAction::Done);
    assert_eq!(move_fallback_step(MoveEvent::RenameFailed), MoveAction::TryCopy);
    assert_eq!(move_fallback_step(MoveEvent::CopyOk), MoveAction::RemoveOriginal);
    assert_eq!(move_fallback_step(MoveEvent::CopyFailed), MoveAction::RemovePartialAndFail);
    assert_eq!(move_fallback_step(MoveEvent::RemoveOriginalOk), MoveAction::Done);
    assert_eq!(
        move_fallback_step(MoveEvent::RemoveOriginalFailed),
        MoveAction::RemoveCopyAndFail
    );
}

#[test]
fn quarantine_pre_cleanup_at_entry_bound() {
    let index = vec![rec("1", 1, 4), rec("2", 2, 5)];
    let bounded = QuarantineConfig { max_size_gb: 0, retention_days: 0, max_entries: 2 };
    let unbounded = QuarantineConfig { max_size_gb: 0, retention_days: 0, max_entries: 0 };
    assert!(needs_pre_cleanup(&index, &bounded));
    assert!(!needs_pre_cleanup(&index, &unbounded));
}

#[test]
fn quarantine_hash_verification() {
    // SHA-256 of the empty input
    let empty_digest = "e3b0c44298fc1c149afbf4c8996fb92427ae41e4649b934ca495991b7852b855";
    let mut r = rec("1", 1, 0);
    r.sha256 = empty_digest.to_string();
    assert!(verify_record_hash(&r, &Vec::new()));
    // different content, different digest
    assert!(!verify_record_hash(&r, &vec![0u8]));
    // a sentinel never matches a real digest
    let s = rec("2", 2, 0);
    assert!(!verify_record_hash(&s, &Vec::new()));
}
