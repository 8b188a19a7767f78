//! Plain data types shared by the scanner, the eviction engine, the
//! optimization planner and the quarantine ledger.
//!
//! Timestamps are carried as seconds since the Unix epoch (`i64`), so that
//! every rule about recency and retention is ordinary integer arithmetic.

use vstd::prelude::*;

verus! {

/// Package manager that owns a project or package directory.
#[derive(Debug, Clone, PartialEq, Eq)]
pub enum PackageManager {
    Npm,
    Yarn,
    Pnpm,
}

/// One package directory discovered by a scan.
#[derive(Debug, Clone)]
pub struct PackageRecord {
    pub name: String,
    pub version: String,
    pub path: String,
    pub size_bytes: u64,
    /// Last access time, seconds since the Unix epoch.
    pub atime: i64,
    /// Last modification time, seconds since the Unix epoch.
    pub mtime: i64,
    pub manager: Option<PackageManager>,
    pub project_paths: Vec<String>,
}

/// One project (a directory with a manifest) discovered by a scan.
#[derive(Debug, Clone)]
pub struct ProjectRecord {
    pub path: String,
    pub manager: Option<PackageManager>,
    /// Direct dependencies as (name, version) pairs.
    pub dependencies: Vec<(String, String)>,
    /// Modification time of the manifest, seconds since the Unix epoch.
    pub mtime: i64,
}

/// Everything a scan produces: packages, projects, and dependency edges.
#[derive(Debug, Clone)]
pub struct ScanOutput {
    pub packages: Vec<PackageRecord>,
    pub projects: Vec<ProjectRecord>,
    /// parent -> dependency edges from lockfiles.
    pub edges: Vec<(String, String)>,
}

/// One entry of a removal plan. The plan is pure data: nothing is touched
/// until the caller hands a target to the quarantine ledger.
#[derive(Debug, Clone, PartialEq, Eq)]
pub struct PlanItem {
    pub target_path: String,
    pub estimated_size_bytes: u64,
    pub reason: String,
}

/// A removal plan together with the total size of its targets.
#[derive(Debug, Clone)]
pub struct DryRunReport {
    pub items: Vec<PlanItem>,
    pub total_estimated_bytes: u64,
}

/// One entry of the quarantine journal: a reversible move of a directory
/// into the quarantine area.
#[derive(Debug)]
pub struct QuarantineRecord {
    /// Unique, monotonically increasing id derived from a timestamp.
    pub id: String,
    pub original_path: String,
    pub quarantine_path: String,
    /// Content hash, or a sentinel meaning "unavailable" / "deferred".
    pub sha256: String,
    pub size_bytes: u64,
    /// Creation time, seconds since the Unix epoch.
    pub created_at: i64,
}

impl Clone for QuarantineRecord {
    fn clone(&self) -> (r: Self)
        ensures
            r == *self,
    {
        QuarantineRecord {
            id: self.id.clone(),
            original_path: self.original_path.clone(),
            quarantine_path: self.quarantine_path.clone(),
            sha256: self.sha256.clone(),
            size_bytes: self.size_bytes,
            created_at: self.created_at,
        }
    }
}

/// Retention limits for the quarantine area. A zero means "unlimited".
#[derive(Debug, Clone)]
pub struct QuarantineConfig {
    /// Maximum total size of the quarantine area, in gibibytes.
    pub max_size_gb: u64,
    /// Records older than this many days are purged.
    pub retention_days: i64,
    /// Maximum number of records kept in the journal.
    pub max_entries: usize,
}

/// Usage metrics for one package, keyed by `"name@version"`.
#[derive(Debug)]
pub struct PackageUsageMetrics {
    pub package_key: String,
    /// Seconds since the Unix epoch.
    pub last_access_time: i64,
    pub last_script_execution: Option<i64>,
    pub access_count: u64,
    pub script_execution_count: u64,
    pub last_successful_build: Option<i64>,
}

/// Spec-level image of `PackageUsageMetrics`: the same facts with the key
/// as a character sequence, so that contracts can build and compare usage
/// states directly.
pub ghost struct UsageModel {
    pub key: Seq<char>,
    pub last_access_time: i64,
    pub last_script_execution: Option<i64>,
    pub access_count: u64,
    pub script_execution_count: u64,
    pub last_successful_build: Option<i64>,
}

impl View for PackageUsageMetrics {
    type V = UsageModel;

    open spec fn view(&self) -> UsageModel {
        UsageModel {
            key: self.package_key@,
            last_access_time: self.last_access_time,
            last_script_execution: self.last_script_execution,
            access_count: self.access_count,
            script_execution_count: self.script_execution_count,
            last_successful_build: self.last_successful_build,
        }
    }
}

impl Clone for PackageUsageMetrics {
    fn clone(&self) -> (r: Self)
        ensures
            r == *self,
    {
        PackageUsageMetrics {
            package_key: self.package_key.clone(),
            last_access_time: self.last_access_time,
            last_script_execution: self.last_script_execution,
            access_count: self.access_count,
            script_execution_count: self.script_execution_count,
            last_successful_build: self.last_successful_build,
        }
    }
}

/// Project metadata consumed by the predictive optimizer.
#[derive(Debug, Clone)]
pub struct ProjectMetadata {
    pub path: String,
    /// e.g. "react", "node", "typescript".
    pub project_type: String,
    pub last_commit_date: Option<i64>,
    pub dependency_count: usize,
    pub last_modified: i64,
}

/// Observed developer behavior consumed by the predictive optimizer.
#[derive(Debug, Clone)]
pub struct DeveloperBehavior {
    /// (command, timestamp) pairs.
    pub npm_commands_executed: Vec<(String, i64)>,
    pub file_access_frequency: u64,
    pub days_since_last_build: Option<i64>,
}

/// Row counts of the persistent feature store.
#[derive(Debug, Clone, PartialEq, Eq)]
pub struct FeatureStoreStats {
    pub package_count: usize,
    pub project_count: usize,
    pub event_count: usize,
    pub feature_count: usize,
}

} // verus!
