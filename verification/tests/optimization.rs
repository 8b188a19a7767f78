use packagepurge::cache::PackageLruCache;
use packagepurge::optimization::{plan_basic_cleanup_at, plan_optimized_cleanup_at, RulesConfig};
use packagepurge::types::{PackageRecord, ProjectRecord, ScanOutput};

const DAY: i64 = 86400;

fn pkg(name: &str, version: &str, path: &str, size: u64, mtime: i64) -> PackageRecord {
    PackageRecord {
        name: name.to_string(),
        version: version.to_string(),
        path: path.to_string(),
        size_bytes: size,
        atime: mtime,
        mtime,
        manager: None,
        project_paths: Vec::new(),
    }
}

fn proj(path: &str, deps: &[(&str, &str)]) -> ProjectRecord {
    ProjectRecord {
        path: path.to_string(),
        manager: None,
        dependencies: deps.iter().map(|(n, v)| (n.to_string(), v.to_string())).collect(),
        mtime: 0,
    }
}

fn cfg(preserve_days: i64, enable_symlinking: bool) -> RulesConfig {
    RulesConfig {
        preserve_days,
        enable_symlinking,
        enable_ml_prediction: false,
        lru_max_packages: 100,
        lru_max_size_bytes: 1_000_000,
    }
}

#[test]
fn basic_plan_orphan_old_and_duplicate() {
    let now = 200 * DAY;
    let scan = ScanOutput {
        packages: vec![
            // fresh and depended on: kept
            pkg("react", "18.2.0", "/p/a/node_modules/react", 500, 199 * DAY),
            // depended on but old: removed as "old"
            pkg("lodash", "4.17.21", "/p/a/node_modules/lodash", 300, 10 * DAY),
            // fresh but no project depends on it: removed as "orphaned"
            pkg("leftpad", "1.0.0", "/p/a/node_modules/leftpad", 40, 199 * DAY),
            // second copy of react elsewhere: "duplicate" (and orphan rules
            // still judge it by (name, version), so it is kept in the main
            // pass)
            pkg("react", "18.2.0", "/p/b/node_modules/react", 500, 199 * DAY),
        ],
        projects: vec![proj("/p/a", &[("react", "18.2.0"), ("lodash", "4.17.21")])],
        edges: Vec::new(),
    };
    let report = plan_basic_cleanup_at(&scan, &cfg(90, false), now);
    let got: Vec<(&str, u64, &str)> = report
        .items
        .iter()
        .map(|it| (it.target_path.as_str(), it.estimated_size_bytes, it.reason.as_str()))
        .collect();
    assert_eq!(
        got,
        vec![
            ("/p/a/node_modules/lodash", 300, "old"),
            ("/p/a/node_modules/leftpad", 40, "orphaned"),
            ("/p/b/node_modules/react", 0, "duplicate"),
        ]
    );
    assert_eq!(report.total_estimated_bytes, 340);
}

#[test]
fn basic_plan_orphan_wins_over_old() {
    let now = 200 * DAY;
    let scan = ScanOutput {
        packages: vec![pkg("unused", "1.0.0", "/p/node_modules/unused", 7, 1 * DAY)],
        projects: Vec::new(),
        edges: Vec::new(),
    };
    let report = plan_basic_cleanup_at(&scan, &cfg(90, false), now);
    assert_eq!(report.items.len(), 1);
    assert_eq!(report.items[0].reason, "orphaned");
    assert_eq!(report.total_estimated_bytes, 7);
}

#[test]
fn optimized_plan_consults_predictor_and_recency() {
    let now = 200 * DAY;
    let scan = ScanOutput {
        packages: vec![
            // old, depended on, predictor says evict, never seen before by
            // the cache (so the recency rule keeps it: first access is now)
            pkg("lodash", "4.17.21", "/p/node_modules/lodash", 300, 10 * DAY),
            // orphan: removed whatever anything says
            pkg("leftpad", "1.0.0", "/p/node_modules/leftpad", 40, 199 * DAY),
        ],
        projects: vec![proj("/p", &[("lodash", "4.17.21")])],
        edges: Vec::new(),
    };
    let mut cache = PackageLruCache::new(100, 1_000_000);
    let ml_keep = vec![false, false];
    let report =
        plan_optimized_cleanup_at(&scan, &cfg(90, false), &mut cache, &ml_keep, now);
    let got: Vec<(&str, &str)> = report
        .items
        .iter()
        .map(|it| (it.target_path.as_str(), it.reason.as_str()))
        .collect();
    // lodash was just recorded as accessed, so the recency rule keeps it;
    // leftpad is an orphan
    assert_eq!(got, vec![("/p/node_modules/leftpad", "orphaned")]);
    assert_eq!(report.total_estimated_bytes, 40);
    // both packages were recorded in the usage cache
    assert_eq!(cache.iter().len(), 2);
    assert_eq!(cache.current_size(), 340);
}

#[test]
fn optimized_plan_removes_old_when_nothing_keeps_it() {
    let now = 200 * DAY;
    let scan = ScanOutput {
        packages: vec![pkg("lodash", "4.17.21", "/p/node_modules/lodash", 300, 10 * DAY)],
        projects: vec![proj("/p", &[("lodash", "4.17.21")])],
        edges: Vec::new(),
    };
    // the package is already tracked with a stale last access, so the
    // recency rule (threshold 0: everything is stale) argues to evict
    let mut cache = PackageLruCache::new(100, 1_000_000);
    cache.record_access_at("lodash@4.17.21", 300, 10 * DAY);
    let ml_keep = vec![false];
    let report = plan_optimized_cleanup_at(&scan, &cfg(0, false), &mut cache, &ml_keep, now);
    assert_eq!(report.items.len(), 1);
    assert_eq!(report.items[0].reason, "ml_predicted_unused");
    assert_eq!(report.total_estimated_bytes, 300);
}

#[test]
fn optimized_plan_marks_symlink_candidates() {
    let now = 200 * DAY;
    let scan = ScanOutput {
        packages: vec![
            pkg("react", "18.2.0", "/p/a/node_modules/react", 500, 199 * DAY),
            pkg("react", "18.2.0", "/p/b/node_modules/react", 500, 199 * DAY),
        ],
        projects: vec![proj("/p/a", &[("react", "18.2.0")])],
        edges: Vec::new(),
    };
    let mut cache = PackageLruCache::new(100, 1_000_000);
    let ml_keep = vec![true, true];
    let report =
        plan_optimized_cleanup_at(&scan, &cfg(90, true), &mut cache, &ml_keep, now);
    assert_eq!(report.items.len(), 1);
    assert_eq!(report.items[0].target_path, "/p/b/node_modules/react");
    assert_eq!(report.items[0].estimated_size_bytes, 0);
    assert_eq!(report.items[0].reason, "duplicate_symlink_candidate");
    assert_eq!(report.total_estimated_bytes, 0);
}
