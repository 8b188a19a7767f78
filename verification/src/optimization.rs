//! The optimization engine: turns a scan result into a removal plan. The
//! plan is pure data — nothing is touched until the caller hands a target
//! to the quarantine ledger.

use vstd::prelude::*;
use crate::cache::{
    assoc_has, assoc_pos, spec_drop_size, spec_record_access, spec_shrink, spec_should_keep,
    usage_has, usage_pos, PackageLruCache,
};
use crate::types::{DryRunReport, PackageRecord, PlanItem, ProjectRecord, ScanOutput, UsageModel};

verus! {

use vstd::string::StringExecFns;

/// Which strategies a cleanup plan consults.
#[derive(Debug, Clone, PartialEq, Eq)]
pub enum EvictionPolicy {
    MlThenArcThenLru,
    LruOnly,
}

/// Tunables for a cleanup plan.
#[derive(Debug, Clone)]
pub struct RulesConfig {
    /// Packages touched within this many days are preserved.
    pub preserve_days: i64,
    pub enable_symlinking: bool,
    pub enable_ml_prediction: bool,
    pub lru_max_packages: usize,
    pub lru_max_size_bytes: u64,
}

/// Some project lists (name, version) among its dependencies.
pub open spec fn dep_used(projects: Seq<ProjectRecord>, name: Seq<char>, version: Seq<char>)
    -> bool
{
    exists|i: int, j: int| 0 <= i < projects.len()
        && 0 <= j < projects[i].dependencies@.len()
        && (#[trigger] projects[i].dependencies@[j]).0@ == name
        && projects[i].dependencies@[j].1@ == version
}

/// A package no discovered project depends on.
pub open spec fn pkg_is_orphan(projects: Seq<ProjectRecord>, pkg: PackageRecord) -> bool {
    !dep_used(projects, pkg.name@, pkg.version@)
}

/// A package last modified before the preservation window.
pub open spec fn pkg_is_old(pkg: PackageRecord, preserve_days: i64, now: i64) -> bool {
    pkg.mtime < now - preserve_days * 86400
}

/// An earlier package carries the same name and version.
pub open spec fn dup_earlier(pkgs: Seq<PackageRecord>, i: int) -> bool {
    exists|j: int| 0 <= j < i && (#[trigger] pkgs[j]).name@ == pkgs[i].name@
        && pkgs[j].version@ == pkgs[i].version@
}

/// The basic rule: removed iff orphaned or old.
pub open spec fn basic_selected(
    pkgs: Seq<PackageRecord>,
    projects: Seq<ProjectRecord>,
    preserve_days: i64,
    now: i64,
    i: int,
) -> bool {
    pkg_is_orphan(projects, pkgs[i]) || pkg_is_old(pkgs[i], preserve_days, now)
}

/// The indices below `n` that the basic rule selects, in order.
pub open spec fn basic_sel_idx(
    pkgs: Seq<PackageRecord>,
    projects: Seq<ProjectRecord>,
    preserve_days: i64,
    now: i64,
    n: int,
) -> Seq<int>
    decreases n,
{
    if n <= 0 {
        Seq::empty()
    } else if basic_selected(pkgs, projects, preserve_days, now, n - 1) {
        basic_sel_idx(pkgs, projects, preserve_days, now, n - 1).push(n - 1)
    } else {
        basic_sel_idx(pkgs, projects, preserve_days, now, n - 1)
    }
}

/// The indices below `n` that repeat an earlier (name, version), in order.
pub open spec fn dup_idx(pkgs: Seq<PackageRecord>, n: int) -> Seq<int>
    decreases n,
{
    if n <= 0 {
        Seq::empty()
    } else if dup_earlier(pkgs, n - 1) {
        dup_idx(pkgs, n - 1).push(n - 1)
    } else {
        dup_idx(pkgs, n - 1)
    }
}

/// Sum of the sizes of the packages at `idxs`.
pub open spec fn sum_at(pkgs: Seq<PackageRecord>, idxs: Seq<int>) -> int
    decreases idxs.len(),
{
    if idxs.len() == 0 {
        0
    } else {
        sum_at(pkgs, idxs.drop_last()) + pkgs[idxs.last()].size_bytes
    }
}

/// Sum of the sizes of the first `n` packages.
pub open spec fn sum_pkg_sizes(pkgs: Seq<PackageRecord>, n: int) -> int
    decreases n,
{
    if n <= 0 {
        0
    } else {
        sum_pkg_sizes(pkgs, n - 1) + pkgs[n - 1].size_bytes
    }
}

/// Selected sizes never exceed the sizes of all packages seen so far.
proof fn lemma_basic_sum_bound(
    pkgs: Seq<PackageRecord>,
    projects: Seq<ProjectRecord>,
    preserve_days: i64,
    now: i64,
    n: int,
)
    requires
        0 <= n,
    ensures
        0 <= sum_at(pkgs, basic_sel_idx(pkgs, projects, preserve_days, now, n))
            <= sum_pkg_sizes(pkgs, n),
    decreases n,
{
    if n > 0 {
        lemma_basic_sum_bound(pkgs, projects, preserve_days, now, n - 1);
        if basic_selected(pkgs, projects, preserve_days, now, n - 1) {
            let prev = basic_sel_idx(pkgs, projects, preserve_days, now, n - 1);
            assert(prev.push(n - 1).drop_last() =~= prev);
        }
    }
}

/// The whole-scan sum bounds every prefix sum.
proof fn lemma_sum_pkg_mono(pkgs: Seq<PackageRecord>, a: int, b: int)
    requires
        0 <= a <= b,
    ensures
        sum_pkg_sizes(pkgs, a) <= sum_pkg_sizes(pkgs, b),
    decreases b - a,
{
    if a < b {
        lemma_sum_pkg_mono(pkgs, a, b - 1);
    }
}

/// Does some project depend on (name, version)?
fn is_used(projects: &Vec<ProjectRecord>, name: &String, version: &String) -> (r: bool)
    ensures
        r == dep_used(projects@, name@, version@),
{
    let np = projects.len();
    let mut i: usize = 0;
    while i < np
        invariant
            np == projects@.len(),
            i <= np,
            forall|a: int, b: int| 0 <= a < i && 0 <= b < projects@[a].dependencies@.len()
                ==> !((#[trigger] projects@[a].dependencies@[b]).0@ == name@
                    && projects@[a].dependencies@[b].1@ == version@),
        decreases np - i,
    {
        let nd = projects[i].dependencies.len();
        let mut j: usize = 0;
        while j < nd
            invariant
                np == projects@.len(),
                i < np,
                nd == projects@[i as int].dependencies@.len(),
                j <= nd,
                forall|b: int| 0 <= b < j
                    ==> !((#[trigger] projects@[i as int].dependencies@[b]).0@ == name@
                        && projects@[i as int].dependencies@[b].1@ == version@),
            decreases nd - j,
        {
            if projects[i].dependencies[j].0 == *name
                && projects[i].dependencies[j].1 == *version {
                proof {
                    assert(projects@[i as int].dependencies@[j as int].0@ == name@
                        && projects@[i as int].dependencies@[j as int].1@ == version@);
                }
                return true;
            }
            j += 1;
        }
        i += 1;
    }
    proof {
        if dep_used(projects@, name@, version@) {
            let (a, b) = choose|a: int, b: int| 0 <= a < projects@.len()
                && 0 <= b < projects@[a].dependencies@.len()
                && (#[trigger] projects@[a].dependencies@[b]).0@ == name@
                && projects@[a].dependencies@[b].1@ == version@;
        }
    }
    false
}

/// Does an earlier package carry the same name and version as package `i`?
fn has_earlier_same(pkgs: &Vec<PackageRecord>, i: usize) -> (r: bool)
    requires
        i < pkgs@.len(),
    ensures
        r == dup_earlier(pkgs@, i as int),
{
    let mut j: usize = 0;
    while j < i
        invariant
            i < pkgs@.len(),
            j <= i,
            forall|b: int| 0 <= b < j ==> !((#[trigger] pkgs@[b]).name@ == pkgs@[i as int].name@
                && pkgs@[b].version@ == pkgs@[i as int].version@),
        decreases i - j,
    {
        if pkgs[j].name == pkgs[i].name && pkgs[j].version == pkgs[i].version {
            proof {
                assert(pkgs@[j as int].name@ == pkgs@[i as int].name@
                    && pkgs@[j as int].version@ == pkgs@[i as int].version@);
            }
            return true;
        }
        j += 1;
    }
    proof {
        if dup_earlier(pkgs@, i as int) {
            let b = choose|b: int| 0 <= b < i && (#[trigger] pkgs@[b]).name@
                == pkgs@[i as int].name@ && pkgs@[b].version@ == pkgs@[i as int].version@;
        }
    }
    false
}

/// Was package `i` last modified before the preservation window?
fn is_old_exec(pkgs: &Vec<PackageRecord>, i: usize, preserve_days: i64, now: i64) -> (r: bool)
    requires
        i < pkgs@.len(),
    ensures
        r == pkg_is_old(pkgs@[i as int], preserve_days, now),
{
    (pkgs[i].mtime as i128) < (now as i128) - (preserve_days as i128) * 86400
}

/// What a basic plan as of time `now` must hold: one item per orphaned or
/// old package (reason `"orphaned"` wins over `"old"`), then one
/// zero-sized `"duplicate"` item per repeated (name, version) beyond its
/// first occurrence; the total is the sum of the selected packages'
/// sizes.
pub open spec fn spec_basic_plan(
    pkgs: Seq<PackageRecord>,
    projects: Seq<ProjectRecord>,
    preserve_days: i64,
    now: i64,
    r: DryRunReport,
) -> bool {
    let sel = basic_sel_idx(pkgs, projects, preserve_days, now, pkgs.len() as int);
    let dups = dup_idx(pkgs, pkgs.len() as int);
    &&& r.items@.len() == sel.len() + dups.len()
    &&& forall|q: int| 0 <= q < sel.len() ==> {
        let it = #[trigger] r.items@[q];
        &&& it.target_path@ == pkgs[sel[q]].path@
        &&& it.estimated_size_bytes == pkgs[sel[q]].size_bytes
        &&& it.reason@ == (if pkg_is_orphan(projects, pkgs[sel[q]]) {
            "orphaned"@
        } else {
            "old"@
        })
    }
    &&& forall|q: int| 0 <= q < dups.len() ==> {
        let it = #[trigger] r.items@[sel.len() + q];
        &&& it.target_path@ == pkgs[dups[q]].path@
        &&& it.estimated_size_bytes == 0
        &&& it.reason@ == "duplicate"@
    }
    &&& r.total_estimated_bytes == sum_at(pkgs, sel)
}

/// Plan a basic cleanup as of time `now`.
#[verifier::rlimit(100)]
pub fn plan_basic_cleanup_at(scan: &ScanOutput, cfg: &RulesConfig, now: i64)
    -> (r: DryRunReport)
    requires
        sum_pkg_sizes(scan.packages@, scan.packages@.len() as int) <= u64::MAX,
    ensures
        spec_basic_plan(scan.packages@, scan.projects@, cfg.preserve_days, now, r),
{
    let ghost pkgs = scan.packages@;
    let ghost projects = scan.projects@;
    let n = scan.packages.len();
    let mut items: Vec<PlanItem> = Vec::new();
    let mut total: u64 = 0;
    let mut i: usize = 0;
    while i < n
        invariant
            pkgs == scan.packages@,
            projects == scan.projects@,
            n == pkgs.len(),
            i <= n,
            sum_pkg_sizes(pkgs, n as int) <= u64::MAX,
            items@.len() == basic_sel_idx(pkgs, projects, cfg.preserve_days, now, i as int)
                .len(),
            forall|q: int| 0 <= q
                < basic_sel_idx(pkgs, projects, cfg.preserve_days, now, i as int).len()
                ==> {
                let sel = basic_sel_idx(pkgs, projects, cfg.preserve_days, now, i as int);
                let it = #[trigger] items@[q];
                &&& it.target_path@ == pkgs[sel[q]].path@
                &&& it.estimated_size_bytes == pkgs[sel[q]].size_bytes
                &&& it.reason@ == (if pkg_is_orphan(projects, pkgs[sel[q]]) {
                    "orphaned"@
                } else {
                    "old"@
                })
            },
            total == sum_at(pkgs, basic_sel_idx(pkgs, projects, cfg.preserve_days, now,
                i as int)),
        decreases n - i,
    {
        let orphan = !is_used(&scan.projects, &scan.packages[i].name,
            &scan.packages[i].version);
        let old_pkg = is_old_exec(&scan.packages, i, cfg.preserve_days, now);
        let ghost sel_pre = basic_sel_idx(pkgs, projects, cfg.preserve_days, now, i as int);
        if orphan || old_pkg {
            proof {
                lemma_basic_sum_bound(pkgs, projects, cfg.preserve_days, now, i as int);
                lemma_sum_pkg_mono(pkgs, i + 1, n as int);
            }
            let reason: &str = if orphan {
                "orphaned"
            } else {
                "old"
            };
            items.push(PlanItem {
                target_path: scan.packages[i].path.clone(),
                estimated_size_bytes: scan.packages[i].size_bytes,
                reason: reason.to_owned(),
            });
            total = total + scan.packages[i].size_bytes;
            proof {
                let sel = basic_sel_idx(pkgs, projects, cfg.preserve_days, now, i + 1);
                assert(sel == sel_pre.push(i as int));
                assert(sel.drop_last() =~= sel_pre);
            }
        }
        i += 1;
    }
    proof {
        assert(i == n);
    }
    let ghost sel_all = basic_sel_idx(pkgs, projects, cfg.preserve_days, now, n as int);
    let mut d: usize = 0;
    while d < n
        invariant
            pkgs == scan.packages@,
            projects == scan.projects@,
            n == pkgs.len(),
            d <= n,
            sel_all == basic_sel_idx(pkgs, projects, cfg.preserve_days, now, n as int),
            items@.len() == sel_all.len() + dup_idx(pkgs, d as int).len(),
            forall|q: int| 0 <= q < sel_all.len() ==> {
                let it = #[trigger] items@[q];
                &&& it.target_path@ == pkgs[sel_all[q]].path@
                &&& it.estimated_size_bytes == pkgs[sel_all[q]].size_bytes
                &&& it.reason@ == (if pkg_is_orphan(projects, pkgs[sel_all[q]]) {
                    "orphaned"@
                } else {
                    "old"@
                })
            },
            forall|q: int| 0 <= q < dup_idx(pkgs, d as int).len() ==> {
                let dups = dup_idx(pkgs, d as int);
                let it = #[trigger] items@[sel_all.len() + q];
                &&& it.target_path@ == pkgs[dups[q]].path@
                &&& it.estimated_size_bytes == 0
                &&& it.reason@ == "duplicate"@
            },
            total == sum_at(pkgs, sel_all),
        decreases n - d,
    {
        let ghost dups_pre = dup_idx(pkgs, d as int);
        if has_earlier_same(&scan.packages, d) {
            items.push(PlanItem {
                target_path: scan.packages[d].path.clone(),
                estimated_size_bytes: 0,
                reason: "duplicate".to_owned(),
            });
            proof {
                assert(dup_idx(pkgs, d + 1) == dups_pre.push(d as int));
            }
        }
        d += 1;
    }
    DryRunReport { items, total_estimated_bytes: total }
}

/// Plan a basic cleanup as of now: for the clock's time, exactly what
/// `plan_basic_cleanup_at` produces.
pub fn plan_basic_cleanup(scan: &ScanOutput, cfg: &RulesConfig) -> (r: DryRunReport)
    requires
        sum_pkg_sizes(scan.packages@, scan.packages@.len() as int) <= u64::MAX,
    ensures
        exists|now: i64| spec_basic_plan(scan.packages@, scan.projects@, cfg.preserve_days,
            now, r),
{
    let now = crate::clock::now_seconds();
    let r = plan_basic_cleanup_at(scan, cfg, now);
    proof {
        assert(spec_basic_plan(scan.packages@, scan.projects@, cfg.preserve_days, now, r));
    }
    r
}

// ---------------------------------------------------------------------------
// The optimized plan: the usage cache and the predictor verdicts join in.
// ---------------------------------------------------------------------------

/// The usage-cache key of a package: `"name@version"`.
pub open spec fn pkg_key(p: PackageRecord) -> Seq<char> {
    p.name@ + seq!['@'] + p.version@
}

/// A keep-or-evict consultation touches the consulted package's LRU
/// position; an untracked key moves nothing.
pub open spec fn spec_consult_touch(s: Seq<UsageModel>, k: Seq<char>) -> Seq<UsageModel> {
    if usage_has(s, k) {
        seq![s[usage_pos(s, k)]] + s.remove(usage_pos(s, k))
    } else {
        s
    }
}

/// The usage-cache state (tracked packages, size ledger, running total)
/// after the first `n` packages of the scan were recorded and consulted.
pub open spec fn engine_state(
    pkgs: Seq<PackageRecord>,
    init: (Seq<UsageModel>, Seq<(Seq<char>, u64)>, int),
    cap: nat,
    budget: u64,
    now: i64,
    n: int,
) -> (Seq<UsageModel>, Seq<(Seq<char>, u64)>, int)
    decreases n,
{
    if n <= 0 {
        init
    } else {
        let prev = engine_state(pkgs, init, cap, budget, now, n - 1);
        let k = pkg_key(pkgs[n - 1]);
        let after = spec_record_access(prev.0, prev.1, prev.2, cap, budget, k,
            pkgs[n - 1].size_bytes, now);
        (spec_consult_touch(after.0, k), after.1, after.2)
    }
}

/// The state right after package `i`'s access was recorded, before the
/// keep-or-evict consultation.
pub open spec fn engine_after_access(
    pkgs: Seq<PackageRecord>,
    init: (Seq<UsageModel>, Seq<(Seq<char>, u64)>, int),
    cap: nat,
    budget: u64,
    now: i64,
    i: int,
) -> (Seq<UsageModel>, Seq<(Seq<char>, u64)>, int) {
    let prev = engine_state(pkgs, init, cap, budget, now, i);
    spec_record_access(prev.0, prev.1, prev.2, cap, budget, pkg_key(pkgs[i]),
        pkgs[i].size_bytes, now)
}

/// Whether the recency rule argues to keep package `i`, consulted right
/// after its access was recorded.
pub open spec fn engine_keep_verdict(
    pkgs: Seq<PackageRecord>,
    init: (Seq<UsageModel>, Seq<(Seq<char>, u64)>, int),
    cap: nat,
    budget: u64,
    now: i64,
    preserve_days: i64,
    i: int,
) -> bool {
    let after = engine_after_access(pkgs, init, cap, budget, now, i);
    let k = pkg_key(pkgs[i]);
    if usage_has(after.0, k) {
        let p = usage_pos(after.0, k);
        let own = if assoc_has(after.1, k) {
            Some(after.1[assoc_pos(after.1, k)].1)
        } else {
            None::<u64>
        };
        spec_should_keep(after.0[p], own, after.2 as u64, budget, after.1.len(),
            preserve_days, now)
    } else {
        false
    }
}

/// Whether the usage cache had reached its byte budget when package `i`
/// was judged.
pub open spec fn engine_size_limited(
    pkgs: Seq<PackageRecord>,
    init: (Seq<UsageModel>, Seq<(Seq<char>, u64)>, int),
    cap: nat,
    budget: u64,
    now: i64,
    i: int,
) -> bool {
    engine_after_access(pkgs, init, cap, budget, now, i).2 as u64 >= budget
}

/// The optimized rule: removed iff orphaned, or old while neither the
/// predictor nor the recency rule argues to keep.
pub open spec fn opt_selected(
    pkgs: Seq<PackageRecord>,
    projects: Seq<ProjectRecord>,
    init: (Seq<UsageModel>, Seq<(Seq<char>, u64)>, int),
    cap: nat,
    budget: u64,
    now: i64,
    preserve_days: i64,
    ml: Seq<bool>,
    i: int,
) -> bool {
    pkg_is_orphan(projects, pkgs[i])
        || (pkg_is_old(pkgs[i], preserve_days, now) && !ml[i]
            && !engine_keep_verdict(pkgs, init, cap, budget, now, preserve_days, i))
}

/// The tag a removal item carries. (On a non-orphan removal the predictor
/// necessarily argued against keeping, so the later tags mirror the
/// original decision tree rather than adding reachable cases.)
pub open spec fn opt_reason(
    pkgs: Seq<PackageRecord>,
    projects: Seq<ProjectRecord>,
    init: (Seq<UsageModel>, Seq<(Seq<char>, u64)>, int),
    cap: nat,
    budget: u64,
    now: i64,
    ml: Seq<bool>,
    i: int,
) -> Seq<char> {
    if pkg_is_orphan(projects, pkgs[i]) {
        "orphaned"@
    } else if !ml[i] {
        "ml_predicted_unused"@
    } else if engine_size_limited(pkgs, init, cap, budget, now, i) {
        "size_pressure"@
    } else {
        "old"@
    }
}

/// The indices below `n` that the optimized rule selects, in order.
pub open spec fn opt_sel_idx(
    pkgs: Seq<PackageRecord>,
    projects: Seq<ProjectRecord>,
    init: (Seq<UsageModel>, Seq<(Seq<char>, u64)>, int),
    cap: nat,
    budget: u64,
    now: i64,
    preserve_days: i64,
    ml: Seq<bool>,
    n: int,
) -> Seq<int>
    decreases n,
{
    if n <= 0 {
        Seq::empty()
    } else if opt_selected(pkgs, projects, init, cap, budget, now, preserve_days, ml, n - 1) {
        opt_sel_idx(pkgs, projects, init, cap, budget, now, preserve_days, ml, n - 1)
            .push(n - 1)
    } else {
        opt_sel_idx(pkgs, projects, init, cap, budget, now, preserve_days, ml, n - 1)
    }
}

/// Evicting to the byte budget never raises the running total.
proof fn lemma_shrink_total_le(
    mv: Seq<UsageModel>,
    sv: Seq<(Seq<char>, u64)>,
    total: int,
    budget: u64,
)
    ensures
        spec_shrink(mv, sv, total, budget).2 <= total,
    decreases mv.len(),
{
    if !(total <= budget || mv.len() == 0) {
        let k = mv.last().key;
        let dropped = spec_drop_size(sv, total, k);
        lemma_shrink_total_le(mv.drop_last(), dropped.0, dropped.1, budget);
    }
}

/// Recording an access raises the running total by at most the package's
/// size.
proof fn lemma_record_access_total_le(
    mv: Seq<UsageModel>,
    sv: Seq<(Seq<char>, u64)>,
    total: int,
    cap: nat,
    budget: u64,
    k: Seq<char>,
    size: u64,
    now: i64,
)
    ensures
        spec_record_access(mv, sv, total, cap, budget, k, size, now).2 <= total + size,
{
    if usage_has(mv, k) {
    } else {
        let fresh = crate::cache::fresh_usage(k, now);
        let inserted = if mv.len() < cap {
            (seq![fresh] + mv, None::<Seq<char>>)
        } else if cap == 0 {
            (mv, Some(k))
        } else {
            (seq![fresh] + mv.drop_last(), Some(mv.last().key))
        };
        let after_evict = match inserted.1 {
            Some(ek) => spec_drop_size(sv, total, ek),
            None => (sv, total),
        };
        let replaced = spec_drop_size(after_evict.0, after_evict.1, k);
        lemma_shrink_total_le(inserted.0, replaced.0.push((k, size)), replaced.1 + size,
            budget);
    }
}

/// Selected sizes never exceed the sizes of all packages seen so far.
proof fn lemma_opt_sum_bound(
    pkgs: Seq<PackageRecord>,
    projects: Seq<ProjectRecord>,
    init: (Seq<UsageModel>, Seq<(Seq<char>, u64)>, int),
    cap: nat,
    budget: u64,
    now: i64,
    preserve_days: i64,
    ml: Seq<bool>,
    n: int,
)
    requires
        0 <= n,
    ensures
        0 <= sum_at(pkgs, opt_sel_idx(pkgs, projects, init, cap, budget, now, preserve_days,
            ml, n)) <= sum_pkg_sizes(pkgs, n),
    decreases n,
{
    if n > 0 {
        lemma_opt_sum_bound(pkgs, projects, init, cap, budget, now, preserve_days, ml, n - 1);
        if opt_selected(pkgs, projects, init, cap, budget, now, preserve_days, ml, n - 1) {
            let prev = opt_sel_idx(pkgs, projects, init, cap, budget, now, preserve_days, ml,
                n - 1);
            assert(prev.push(n - 1).drop_last() =~= prev);
        }
    }
}

/// Build the `"name@version"` key of package `i`.
fn make_key(pkgs: &Vec<PackageRecord>, i: usize) -> (k: String)
    requires
        i < pkgs@.len(),
    ensures
        k@ == pkg_key(pkgs@[i as int]),
{
    let mut k = pkgs[i].name.clone();
    k.append("@");
    k.append(pkgs[i].version.as_str());
    proof {
        reveal_strlit("@");
        assert(k@ =~= pkg_key(pkgs@[i as int]));
    }
    k
}

/// What an optimized plan as of time `now` must hold, given the usage
/// cache's incoming state `init` and its final state `post`: the cache ran
/// through every package, and the items select exactly the packages the
/// optimized rule removes, tagged, followed by the symlink candidates when
/// enabled.
pub open spec fn spec_opt_plan(
    pkgs: Seq<PackageRecord>,
    projects: Seq<ProjectRecord>,
    init: (Seq<UsageModel>, Seq<(Seq<char>, u64)>, int),
    cap: nat,
    budget: u64,
    enable_symlinking: bool,
    preserve_days: i64,
    ml: Seq<bool>,
    now: i64,
    r: DryRunReport,
    post: (Seq<UsageModel>, Seq<(Seq<char>, u64)>, int),
) -> bool {
    let sel = opt_sel_idx(pkgs, projects, init, cap, budget, now, preserve_days, ml,
        pkgs.len() as int);
    let dups = if enable_symlinking {
        dup_idx(pkgs, pkgs.len() as int)
    } else {
        Seq::<int>::empty()
    };
    &&& post == engine_state(pkgs, init, cap, budget, now, pkgs.len() as int)
    &&& r.items@.len() == sel.len() + dups.len()
    &&& forall|q: int| 0 <= q < sel.len() ==> {
        let it = #[trigger] r.items@[q];
        &&& it.target_path@ == pkgs[sel[q]].path@
        &&& it.estimated_size_bytes == pkgs[sel[q]].size_bytes
        &&& it.reason@ == opt_reason(pkgs, projects, init, cap, budget, now, ml, sel[q])
    }
    &&& forall|q: int| 0 <= q < dups.len() ==> {
        let it = #[trigger] r.items@[sel.len() + q];
        &&& it.target_path@ == pkgs[dups[q]].path@
        &&& it.estimated_size_bytes == 0
        &&& it.reason@ == "duplicate_symlink_candidate"@
    }
    &&& r.total_estimated_bytes == sum_at(pkgs, sel)
}

/// Plan an optimized cleanup as of time `now`. Every discovered package is
/// recorded in the usage cache and the recency rule consulted; the
/// predictor's verdicts arrive as plain booleans, one per package. A
/// package is marked for removal iff it is orphaned, or old while neither
/// the predictor nor the recency rule argues to keep it; with symlinking
/// enabled, repeated (name, version) paths are marked as candidates.
#[verifier::rlimit(100)]
#[verifier::spinoff_prover]
pub fn plan_optimized_cleanup_at(
    scan: &ScanOutput,
    cfg: &RulesConfig,
    cache: &mut PackageLruCache,
    ml_keep: &Vec<bool>,
    now: i64,
) -> (r: DryRunReport)
    requires
        old(cache).wf(),
        ml_keep@.len() == scan.packages@.len(),
        old(cache).total_bytes()
            + sum_pkg_sizes(scan.packages@, scan.packages@.len() as int) <= u64::MAX,
    ensures
        final(cache).wf(),
        final(cache).budget() == old(cache).budget(),
        final(cache).count_capacity() == old(cache).count_capacity(),
        spec_opt_plan(scan.packages@, scan.projects@,
            (old(cache).metrics_view(), old(cache).sizes_view(),
                old(cache).total_bytes() as int),
            old(cache).count_capacity(), old(cache).budget(), cfg.enable_symlinking,
            cfg.preserve_days, ml_keep@, now, r,
            (final(cache).metrics_view(), final(cache).sizes_view(),
                final(cache).total_bytes() as int)),
{
    let ghost pkgs = scan.packages@;
    let ghost projects = scan.projects@;
    let ghost init = (cache.metrics_view(), cache.sizes_view(), cache.total_bytes() as int);
    let ghost cap = cache.count_capacity();
    let ghost budget = cache.budget();
    let ghost ml = ml_keep@;
    let n = scan.packages.len();
    let mut items: Vec<PlanItem> = Vec::new();
    let mut total: u64 = 0;
    let mut i: usize = 0;
    while i < n
        invariant
            pkgs == scan.packages@,
            projects == scan.projects@,
            ml == ml_keep@,
            n == pkgs.len(),
            ml.len() == n,
            i <= n,
            cache.wf(),
            cache.budget() == budget,
            cache.count_capacity() == cap,
            init.2 >= 0,
            init.2 + sum_pkg_sizes(pkgs, n as int) <= u64::MAX,
            (cache.metrics_view(), cache.sizes_view(), cache.total_bytes() as int)
                == engine_state(pkgs, init, cap, budget, now, i as int),
            cache.total_bytes() as int <= init.2 + sum_pkg_sizes(pkgs, i as int),
            items@.len() == opt_sel_idx(pkgs, projects, init, cap, budget, now,
                cfg.preserve_days, ml, i as int).len(),
            forall|q: int| 0 <= q < opt_sel_idx(pkgs, projects, init, cap, budget, now,
                cfg.preserve_days, ml, i as int).len() ==> {
                let sel = opt_sel_idx(pkgs, projects, init, cap, budget, now,
                    cfg.preserve_days, ml, i as int);
                let it = #[trigger] items@[q];
                &&& it.target_path@ == pkgs[sel[q]].path@
                &&& it.estimated_size_bytes == pkgs[sel[q]].size_bytes
                &&& it.reason@ == opt_reason(pkgs, projects, init, cap, budget, now, ml,
                    sel[q])
            },
            total == sum_at(pkgs, opt_sel_idx(pkgs, projects, init, cap, budget, now,
                cfg.preserve_days, ml, i as int)),
        decreases n - i,
    {
        let key = make_key(&scan.packages, i);
        let size = scan.packages[i].size_bytes;
        proof {
            lemma_sum_pkg_mono(pkgs, i + 1, n as int);
            assert(cache.total_bytes() + size <= u64::MAX);
        }
        let ghost prev = engine_state(pkgs, init, cap, budget, now, i as int);
        cache.record_access_at(key.as_str(), size, now);
        let ghost after = engine_after_access(pkgs, init, cap, budget, now, i as int);
        proof {
            assert((cache.metrics_view(), cache.sizes_view(), cache.total_bytes() as int)
                == after);
            lemma_record_access_total_le(prev.0, prev.1, prev.2, cap, budget,
                pkg_key(pkgs[i as int]), size, now);
        }
        let keep_ml = ml_keep[i];
        let keep_lru = cache.should_keep_lru_at(key.as_str(), cfg.preserve_days, now);
        proof {
            assert(after.2 as u64 == cache.total_bytes());
            assert(keep_lru == engine_keep_verdict(pkgs, init, cap, budget, now,
                cfg.preserve_days, i as int));
            assert(cache.metrics_view() == spec_consult_touch(after.0,
                pkg_key(pkgs[i as int])));
            assert((cache.metrics_view(), cache.sizes_view(), cache.total_bytes() as int)
                == engine_state(pkgs, init, cap, budget, now, i + 1));
        }
        let limited = cache.is_size_limited();
        proof {
            assert(limited == engine_size_limited(pkgs, init, cap, budget, now, i as int));
        }
        let orphan = !is_used(&scan.projects, &scan.packages[i].name,
            &scan.packages[i].version);
        let old_pkg = is_old_exec(&scan.packages, i, cfg.preserve_days, now);
        let ghost sel_pre = opt_sel_idx(pkgs, projects, init, cap, budget, now,
            cfg.preserve_days, ml, i as int);
        if orphan || (old_pkg && !keep_ml && !keep_lru) {
            proof {
                lemma_opt_sum_bound(pkgs, projects, init, cap, budget, now,
                    cfg.preserve_days, ml, i as int);
            }
            let reason: &str = if orphan {
                "orphaned"
            } else if !keep_ml {
                "ml_predicted_unused"
            } else if limited {
                "size_pressure"
            } else {
                "old"
            };
            items.push(PlanItem {
                target_path: scan.packages[i].path.clone(),
                estimated_size_bytes: size,
                reason: reason.to_owned(),
            });
            total = total + size;
            proof {
                let sel = opt_sel_idx(pkgs, projects, init, cap, budget, now,
                    cfg.preserve_days, ml, i + 1);
                assert(sel == sel_pre.push(i as int));
                assert(sel.drop_last() =~= sel_pre);
            }
        }
        i += 1;
    }
    let ghost sel_all = opt_sel_idx(pkgs, projects, init, cap, budget, now,
        cfg.preserve_days, ml, n as int);
    if cfg.enable_symlinking {
        let mut d: usize = 0;
        while d < n
            invariant
                pkgs == scan.packages@,
                n == pkgs.len(),
                d <= n,
                sel_all.len() <= items@.len(),
                items@.len() == sel_all.len() + dup_idx(pkgs, d as int).len(),
                forall|q: int| 0 <= q < sel_all.len() ==> {
                    let it = #[trigger] items@[q];
                    &&& it.target_path@ == pkgs[sel_all[q]].path@
                    &&& it.estimated_size_bytes == pkgs[sel_all[q]].size_bytes
                    &&& it.reason@ == opt_reason(pkgs, projects, init, cap, budget, now,
                        ml, sel_all[q])
                },
                forall|q: int| 0 <= q < dup_idx(pkgs, d as int).len() ==> {
                    let dups = dup_idx(pkgs, d as int);
                    let it = #[trigger] items@[sel_all.len() + q];
                    &&& it.target_path@ == pkgs[dups[q]].path@
                    &&& it.estimated_size_bytes == 0
                    &&& it.reason@ == "duplicate_symlink_candidate"@
                },
            decreases n - d,
        {
            let ghost dups_pre = dup_idx(pkgs, d as int);
            if has_earlier_same(&scan.packages, d) {
                items.push(PlanItem {
                    target_path: scan.packages[d].path.clone(),
                    estimated_size_bytes: 0,
                    reason: "duplicate_symlink_candidate".to_owned(),
                });
                proof {
                    assert(dup_idx(pkgs, d + 1) == dups_pre.push(d as int));
                }
            }
            d += 1;
        }
    }
    DryRunReport { items, total_estimated_bytes: total }
}

/// Plan an optimized cleanup as of now: for the clock's time, exactly what
/// `plan_optimized_cleanup_at` produces.
pub fn plan_optimized_cleanup(
    scan: &ScanOutput,
    cfg: &RulesConfig,
    cache: &mut PackageLruCache,
    ml_keep: &Vec<bool>,
) -> (r: DryRunReport)
    requires
        old(cache).wf(),
        ml_keep@.len() == scan.packages@.len(),
        old(cache).total_bytes()
            + sum_pkg_sizes(scan.packages@, scan.packages@.len() as int) <= u64::MAX,
    ensures
        final(cache).wf(),
        final(cache).budget() == old(cache).budget(),
        final(cache).count_capacity() == old(cache).count_capacity(),
        exists|now: i64| spec_opt_plan(scan.packages@, scan.projects@,
            (old(cache).metrics_view(), old(cache).sizes_view(),
                old(cache).total_bytes() as int),
            old(cache).count_capacity(), old(cache).budget(), cfg.enable_symlinking,
            cfg.preserve_days, ml_keep@, now, r,
            (final(cache).metrics_view(), final(cache).sizes_view(),
                final(cache).total_bytes() as int)),
{
    let now = crate::clock::now_seconds();
    let r = plan_optimized_cleanup_at(scan, cfg, cache, ml_keep, now);
    proof {
        assert(spec_opt_plan(scan.packages@, scan.projects@,
            (old(cache).metrics_view(), old(cache).sizes_view(),
                old(cache).total_bytes() as int),
            old(cache).count_capacity(), old(cache).budget(), cfg.enable_symlinking,
            cfg.preserve_days, ml_keep@, now, r,
            (final(cache).metrics_view(), final(cache).sizes_view(),
                final(cache).total_bytes() as int)));
    }
    r
}

} // verus!
