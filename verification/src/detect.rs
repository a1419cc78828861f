//! Scan orchestration: merging the two detection engines' hits and building
//! the per-process results.
//!
//! Engine 1 (Restart Manager) is authoritative and carries an application
//! display name; engine 2 (the handle-table scan) fills the gaps.  Hits are
//! merged by PID: a PID seen by both engines is marked `both`.
use vstd::prelude::*;

use crate::text::{chars_of, decimal_string, push_str, spec_decimal, string_of};

verus! {

/// Path separator characters recognised in executable paths.
pub open spec fn is_path_sep(c: char) -> bool {
    c == '\\' || c == '/'
}

/// The text after the last `\` or `/` of `s` (all of `s` when there is none).
pub open spec fn last_segment(s: Seq<char>) -> Seq<char>
    decreases s.len(),
{
    if s.len() == 0 {
        s
    } else if is_path_sep(s.last()) {
        Seq::empty()
    } else {
        last_segment(s.drop_last()).push(s.last())
    }
}

proof fn lemma_last_segment(s: Seq<char>, k: int)
    requires
        0 <= k <= s.len(),
        k == 0 || is_path_sep(s[k - 1]),
        forall|j: int| k <= j < s.len() ==> !is_path_sep(s[j]),
    ensures
        last_segment(s) == s.subrange(k, s.len() as int),
    decreases s.len(),
{
    if s.len() > k {
        lemma_last_segment(s.drop_last(), k);
        assert(s.drop_last().subrange(k, s.len() - 1).push(s.last()) =~= s.subrange(
            k,
            s.len() as int,
        ));
    } else if s.len() > 0 {
        assert(is_path_sep(s.last()));
        assert(s.subrange(k, s.len() as int) =~= Seq::<char>::empty());
    } else {
        assert(s.subrange(k, s.len() as int) =~= s);
    }
}

/// Process name as shown to the user: the file name of `exe_path`, or
/// `fallback` when that file name is empty.
pub open spec fn spec_process_name(exe_path: Seq<char>, fallback: Seq<char>) -> Seq<char> {
    if last_segment(exe_path).len() > 0 {
        last_segment(exe_path)
    } else {
        fallback
    }
}

/// The file name of `exe_path` (after its last `\` or `/`).
pub fn last_segment_chars(exe_path: &Vec<char>) -> (res: Vec<char>)
    ensures
        res@ == last_segment(exe_path@),
{
    let mut k = exe_path.len();
    while k > 0 && !(exe_path[k - 1] == '\\' || exe_path[k - 1] == '/')
        invariant
            k <= exe_path.len(),
            forall|j: int| k <= j < exe_path.len() ==> !is_path_sep(exe_path@[j]),
        decreases k,
    {
        k = k - 1;
    }
    proof {
        lemma_last_segment(exe_path@, k as int);
    }
    crate::text::skip_chars(exe_path, k)
}

/// Extracts the process name from a full executable path, falling back to
/// `fallback` (such as the Restart Manager application name) when the path
/// yields no file name.
pub fn process_name_of(exe_path: &str, fallback: &str) -> (res: String)
    ensures
        res@ == spec_process_name(exe_path@, fallback@),
{
    let chars = chars_of(exe_path);
    let seg = last_segment_chars(&chars);
    if seg.len() > 0 {
        string_of(&seg)
    } else {
        let f = chars_of(fallback);
        string_of(&f)
    }
}

// ---------------------------------------------------------------------------
// Merging the two engines
// ---------------------------------------------------------------------------
/// One raw hit of an engine: a PID and the application display name the
/// engine reported for it (possibly empty).
#[derive(Debug, Clone)]
pub struct EngineHit {
    pub pid: u32,
    pub app_name: String,
}

/// Which engine found a process; matches `ProcessInfo::source`.
#[derive(Debug, Clone, Copy, PartialEq, Eq, Structural)]
pub enum HitSource {
    RestartManager,
    HandleScan,
}

impl HitSource {
    pub open spec fn spec_str(self) -> Seq<char> {
        match self {
            HitSource::RestartManager => "restart_manager"@,
            HitSource::HandleScan => "handle_scan"@,
        }
    }

    pub fn as_str(self) -> (res: &'static str)
        ensures
            res@ == self.spec_str(),
    {
        match self {
            HitSource::RestartManager => "restart_manager",
            HitSource::HandleScan => "handle_scan",
        }
    }
}

/// Whether the Restart Manager hits include `pid`.
pub open spec fn rm_has(rm: Seq<EngineHit>, pid: u32) -> bool {
    exists|k: int| 0 <= k < rm.len() && rm[k].pid == pid
}

/// The application name of the first Restart Manager hit for `pid` (empty
/// when there is none).
pub open spec fn first_rm_name(rm: Seq<EngineHit>, pid: u32) -> Seq<char>
    decreases rm.len(),
{
    if rm.len() == 0 {
        Seq::empty()
    } else if rm_has(rm.drop_last(), pid) {
        first_rm_name(rm.drop_last(), pid)
    } else if rm.last().pid == pid {
        rm.last().app_name@
    } else {
        Seq::empty()
    }
}

/// Source label of a merged process: `both` when both engines found it.
pub open spec fn merge_source(in_rm: bool, in_handles: bool) -> Seq<char> {
    if in_rm && in_handles {
        "both"@
    } else if in_rm {
        "restart_manager"@
    } else {
        "handle_scan"@
    }
}

/// Whether the PIDs of `plan` strictly increase.
pub open spec fn plan_sorted(plan: Seq<(u32, String, &'static str)>) -> bool {
    forall|i: int, j: int| 0 <= i < j < plan.len() ==> plan[i].0 < plan[j].0
}

pub open spec fn plan_has(plan: Seq<(u32, String, &'static str)>, pid: u32) -> bool {
    exists|i: int| 0 <= i < plan.len() && plan[i].0 == pid
}

/// The merge result for the given hits: one entry per PID found by either
/// engine, sorted by PID, carrying the first Restart Manager application
/// name and the source label.
pub open spec fn is_merge_of(
    plan: Seq<(u32, String, &'static str)>,
    rm: Seq<EngineHit>,
    handles: Seq<u32>,
) -> bool {
    &&& plan_sorted(plan)
    &&& forall|p: u32| #[trigger] plan_has(plan, p) <==> (rm_has(rm, p) || handles.contains(p))
    &&& forall|i: int|
        0 <= i < plan.len() ==> (#[trigger] plan[i]).1@ == first_rm_name(rm, plan[i].0)
            && plan[i].2@ == merge_source(rm_has(rm, plan[i].0), handles.contains(plan[i].0))
}

/// Whether some Restart Manager hit is for `pid`.
fn rm_contains(rm: &[EngineHit], pid: u32) -> (res: bool)
    ensures
        res == rm_has(rm@, pid),
{
    let mut i: usize = 0;
    while i < rm.len()
        invariant
            i <= rm@.len(),
            forall|k: int| 0 <= k < i ==> rm@[k].pid != pid,
        decreases rm.len() - i,
    {
        if rm[i].pid == pid {
            return true;
        }
        i = i + 1;
    }
    false
}

/// Position at which `pid` is, or would be inserted, in a sorted plan.
fn plan_position(plan: &Vec<(u32, String, &'static str)>, pid: u32) -> (pos: usize)
    requires
        plan_sorted(plan@),
    ensures
        pos <= plan@.len(),
        forall|j: int| 0 <= j < pos ==> plan@[j].0 < pid,
        pos < plan@.len() ==> plan@[pos as int].0 >= pid,
{
    let mut i: usize = 0;
    while i < plan.len() && plan[i].0 < pid
        invariant
            i <= plan@.len(),
            plan_sorted(plan@),
            forall|j: int| 0 <= j < i ==> plan@[j].0 < pid,
        decreases plan.len() - i,
    {
        i = i + 1;
    }
    i
}

proof fn lemma_rm_has_push(rm: Seq<EngineHit>, x: EngineHit, p: u32)
    ensures
        rm_has(rm.push(x), p) == (rm_has(rm, p) || x.pid == p),
{
    if rm_has(rm, p) {
        let k = choose|k: int| 0 <= k < rm.len() && rm[k].pid == p;
        assert(rm.push(x)[k].pid == p);
    }
    if x.pid == p {
        assert(rm.push(x)[rm.len() as int].pid == p);
    }
    if rm_has(rm.push(x), p) {
        let k = choose|k: int| 0 <= k < rm.len() + 1 && rm.push(x)[k].pid == p;
        if k < rm.len() {
            assert(rm[k].pid == p);
        }
    }
}

proof fn lemma_first_rm_name_push(rm: Seq<EngineHit>, x: EngineHit, p: u32)
    ensures
        first_rm_name(rm.push(x), p) == if rm_has(rm, p) {
            first_rm_name(rm, p)
        } else if x.pid == p {
            x.app_name@
        } else {
            Seq::empty()
        },
{
    assert(rm.push(x).drop_last() =~= rm);
}

/// Merges the two engines' hits by PID.  Restart Manager hits come first and
/// keep the first application name reported for a PID; a PID also found by
/// the handle scan is marked `both` (a PID the handle scan reports again
/// keeps its label); one found only by the handle scan gets
/// an empty name and `handle_scan`.  The result is sorted by PID.
pub fn merge_engine_hits(rm_hits: &[EngineHit], handle_pids: &[u32]) -> (plan: Vec<
    (u32, String, &'static str),
>)
    ensures
        is_merge_of(plan@, rm_hits@, handle_pids@),
{
    let mut plan: Vec<(u32, String, &'static str)> = Vec::new();
    let mut i: usize = 0;
    while i < rm_hits.len()
        invariant
            i <= rm_hits@.len(),
            plan_sorted(plan@),
            forall|p: u32| #[trigger] plan_has(plan@, p) <==> rm_has(rm_hits@.take(i as int), p),
            forall|j: int|
                0 <= j < plan@.len() ==> (#[trigger] plan@[j]).1@ == first_rm_name(
                    rm_hits@.take(i as int),
                    plan@[j].0,
                ) && plan@[j].2@ == "restart_manager"@,
        decreases rm_hits.len() - i,
    {
        let hit = &rm_hits[i];
        let ghost pre = rm_hits@.take(i as int);
        let ghost old_plan = plan@;
        assert(rm_hits@.take(i + 1) == pre.push(*hit));
        let pos = plan_position(&plan, hit.pid);
        proof {
            assert forall|p: u32| rm_has(rm_hits@.take(i + 1), p) == (rm_has(pre, p) || hit.pid == p) by {
                lemma_rm_has_push(pre, *hit, p);
            }
            assert forall|p: u32| first_rm_name(rm_hits@.take(i + 1), p) == if rm_has(pre, p) {
                first_rm_name(pre, p)
            } else if hit.pid == p {
                hit.app_name@
            } else {
                Seq::empty()
            } by {
                lemma_first_rm_name_push(pre, *hit, p);
            }
        }
        if pos < plan.len() && plan[pos].0 == hit.pid {
            // Already present: the first application name is kept.
            assert(plan_has(old_plan, hit.pid));
        } else {
            let name = crate::text::owned(hit.app_name.as_str());
            plan.insert(pos, (hit.pid, name, HitSource::RestartManager.as_str()));
            proof {
                assert(!plan_has(old_plan, hit.pid)) by {
                    if plan_has(old_plan, hit.pid) {
                        let j = choose|j: int| 0 <= j < old_plan.len() && old_plan[j].0 == hit.pid;
                        if j < pos {
                        } else {
                            assert(old_plan[pos as int].0 <= old_plan[j].0);
                        }
                    }
                }
                assert forall|a: int, b: int| 0 <= a < b < plan@.len() implies plan@[a].0 < plan@[b].0 by {
                    if b < pos {
                    } else if b == pos {
                    } else if a < pos {
                        assert(plan@[b] == old_plan[b - 1]);
                    } else if a == pos {
                        assert(plan@[b] == old_plan[b - 1]);
                        assert(old_plan[pos as int].0 <= old_plan[b - 1].0);
                    } else {
                        assert(plan@[a] == old_plan[a - 1]);
                        assert(plan@[b] == old_plan[b - 1]);
                    }
                }
                assert forall|p: u32| #[trigger] plan_has(plan@, p) <==> (plan_has(old_plan, p) || hit.pid == p) by {
                    if plan_has(plan@, p) {
                        let j = choose|j: int| 0 <= j < plan@.len() && plan@[j].0 == p;
                        if j < pos {
                            assert(old_plan[j].0 == p);
                        } else if j > pos {
                            assert(old_plan[j - 1].0 == p);
                        }
                    }
                    if plan_has(old_plan, p) {
                        let j = choose|j: int| 0 <= j < old_plan.len() && old_plan[j].0 == p;
                        if j < pos {
                            assert(plan@[j].0 == p);
                        } else {
                            assert(plan@[j + 1].0 == p);
                        }
                    }
                    if hit.pid == p {
                        assert(plan@[pos as int].0 == p);
                    }
                }
            }
        }
        proof {
            assert forall|j: int|
                0 <= j < plan@.len() implies (#[trigger] plan@[j]).1@ == first_rm_name(
                    rm_hits@.take(i + 1),
                    plan@[j].0,
                ) && plan@[j].2@ == "restart_manager"@ by {
                let p = plan@[j].0;
                assert(plan_has(plan@, p));
                if plan_has(old_plan, p) {
                    let k = choose|k: int| 0 <= k < old_plan.len() && old_plan[k].0 == p;
                    assert(rm_has(pre, p));
                    if plan@.len() == old_plan.len() {
                        assert(plan@[j] == old_plan[j]);
                    } else if j < pos {
                        assert(plan@[j] == old_plan[j]);
                    } else if j > pos {
                        assert(plan@[j] == old_plan[j - 1]);
                    } else {
                        assert(plan@[j].0 == hit.pid);
                        assert(false);
                    }
                } else {
                    assert(!rm_has(pre, p));
                    assert(p == hit.pid);
                    if j != pos {
                        if j < pos {
                            assert(plan@[j] == old_plan[j]);
                        } else {
                            assert(plan@[j] == old_plan[j - 1]);
                        }
                    }
                }
            }
        }
        i = i + 1;
    }
    assert(rm_hits@.take(rm_hits@.len() as int) == rm_hits@);
    proof {
        let none = handle_pids@.take(0);
        assert(none =~= Seq::<u32>::empty());
        assert forall|j: int|
            0 <= j < plan@.len() implies (#[trigger] plan@[j]).1@ == first_rm_name(rm_hits@, plan@[j].0)
                && plan@[j].2@ == merge_source(rm_has(rm_hits@, plan@[j].0), none.contains(plan@[j].0)) by {
            assert(plan_has(plan@, plan@[j].0));
            assert(!none.contains(plan@[j].0));
        }
        assert forall|p: u32| #[trigger] plan_has(plan@, p) <==> (rm_has(rm_hits@, p) || none.contains(p)) by {
            assert(!none.contains(p));
        }
    }
    let mut k: usize = 0;
    while k < handle_pids.len()
        invariant
            k <= handle_pids@.len(),
            plan_sorted(plan@),
            forall|p: u32| #[trigger] plan_has(plan@, p) <==> (rm_has(rm_hits@, p) || handle_pids@.take(k as int).contains(p)),
            forall|j: int|
                0 <= j < plan@.len() ==> (#[trigger] plan@[j]).1@ == first_rm_name(rm_hits@, plan@[j].0)
                    && plan@[j].2@ == merge_source(rm_has(rm_hits@, plan@[j].0), handle_pids@.take(k as int).contains(plan@[j].0)),
        decreases handle_pids.len() - k,
    {
        let pid = handle_pids[k];
        let ghost pre = handle_pids@.take(k as int);
        let ghost old_plan = plan@;
        assert(handle_pids@.take(k + 1) == pre.push(pid));
        assert forall|p: u32| handle_pids@.take(k + 1).contains(p) == (pre.contains(p) || pid == p) by {
            if pre.contains(p) {
                let t = choose|t: int| 0 <= t < pre.len() && pre[t] == p;
                assert(handle_pids@.take(k + 1)[t] == p);
            }
            if pid == p {
                assert(handle_pids@.take(k + 1)[k as int] == p);
            }
            if handle_pids@.take(k + 1).contains(p) {
                let t = choose|t: int| 0 <= t < k + 1 && #[trigger] handle_pids@.take(k + 1)[t] == p;
                if t < k {
                    assert(pre[t] == p);
                }
            }
        }
        let pos = plan_position(&plan, pid);
        if pos < plan.len() && plan[pos].0 == pid {
            if rm_contains(rm_hits, pid) {
                let entry = plan.remove(pos);
                let ghost removed = plan@;
                plan.insert(pos, (entry.0, entry.1, "both"));
                proof {
                    assert(plan@.len() == old_plan.len());
                    assert forall|j: int| 0 <= j < plan@.len() && j != pos implies plan@[j] == old_plan[j] by {
                        if j < pos {
                            assert(removed[j] == old_plan[j]);
                        } else {
                            assert(removed[j - 1] == old_plan[j]);
                        }
                    }
                    assert(plan@[pos as int].0 == pid);
                    assert(plan@[pos as int].1 == old_plan[pos as int].1);
                    assert forall|a: int, b: int| 0 <= a < b < plan@.len() implies plan@[a].0 < plan@[b].0 by {
                        assert(old_plan[a].0 < old_plan[b].0);
                    }
                    assert forall|p: u32| #[trigger] plan_has(plan@, p) <==> plan_has(old_plan, p) by {
                        if plan_has(plan@, p) {
                            let j = choose|j: int| 0 <= j < plan@.len() && plan@[j].0 == p;
                            assert(old_plan[j].0 == p);
                        }
                        if plan_has(old_plan, p) {
                            let j = choose|j: int| 0 <= j < old_plan.len() && old_plan[j].0 == p;
                            assert(plan@[j].0 == p);
                        }
                    }
                    assert(plan_has(old_plan, pid));
                }
            }
        } else {
            plan.insert(pos, (pid, String::new(), HitSource::HandleScan.as_str()));
            proof {
                assert(!plan_has(old_plan, pid)) by {
                    if plan_has(old_plan, pid) {
                        let j = choose|j: int| 0 <= j < old_plan.len() && old_plan[j].0 == pid;
                        if j >= pos {
                            assert(old_plan[pos as int].0 <= old_plan[j].0);
                        }
                    }
                }
                assert forall|a: int, b: int| 0 <= a < b < plan@.len() implies plan@[a].0 < plan@[b].0 by {
                    if b < pos {
                    } else if b == pos {
                    } else if a < pos {
                        assert(plan@[b] == old_plan[b - 1]);
                    } else if a == pos {
                        assert(plan@[b] == old_plan[b - 1]);
                        assert(old_plan[pos as int].0 <= old_plan[b - 1].0);
                    } else {
                        assert(plan@[a] == old_plan[a - 1]);
                        assert(plan@[b] == old_plan[b - 1]);
                    }
                }
                assert forall|p: u32| #[trigger] plan_has(plan@, p) <==> (plan_has(old_plan, p) || pid == p) by {
                    if plan_has(plan@, p) {
                        let j = choose|j: int| 0 <= j < plan@.len() && plan@[j].0 == p;
                        if j < pos {
                            assert(old_plan[j].0 == p);
                        } else if j > pos {
                            assert(old_plan[j - 1].0 == p);
                        }
                    }
                    if plan_has(old_plan, p) {
                        let j = choose|j: int| 0 <= j < old_plan.len() && old_plan[j].0 == p;
                        if j < pos {
                            assert(plan@[j].0 == p);
                        } else {
                            assert(plan@[j + 1].0 == p);
                        }
                    }
                    if pid == p {
                        assert(plan@[pos as int].0 == p);
                    }
                }
            }
        }
        proof {
            assert forall|j: int|
                0 <= j < plan@.len() implies (#[trigger] plan@[j]).1@ == first_rm_name(rm_hits@, plan@[j].0)
                    && plan@[j].2@ == merge_source(rm_has(rm_hits@, plan@[j].0), handle_pids@.take(k + 1).contains(plan@[j].0)) by {
                let p = plan@[j].0;
                assert(plan_has(plan@, p));
                if plan@.len() == old_plan.len() {
                    // updated in place
                    if j == pos {
                        assert(p == pid);
                        assert(plan_has(old_plan, pid));
                        assert(old_plan[pos as int].0 == pid);
                        if !rm_has(rm_hits@, pid) {
                            assert(pre.contains(pid));
                        }
                    } else {
                        assert(plan@[j] == old_plan[j]);
                        assert(old_plan[j].0 != pid) by {
                            assert(old_plan[pos as int].0 == pid);
                            if j < pos {
                                assert(old_plan[j].0 < old_plan[pos as int].0);
                            } else {
                                assert(old_plan[pos as int].0 < old_plan[j].0);
                            }
                        }
                    }
                } else {
                    if j == pos {
                        assert(p == pid);
                        assert(!plan_has(old_plan, pid));
                        assert(!rm_has(rm_hits@, pid));
                        reveal_strlit("handle_scan");
                    } else if j < pos {
                        assert(plan@[j] == old_plan[j]);
                    } else {
                        assert(plan@[j] == old_plan[j - 1]);
                    }
                    if j != pos {
                        assert(p != pid);
                    }
                }
            }
        }
        k = k + 1;
    }
    assert(handle_pids@.take(handle_pids@.len() as int) == handle_pids@);
    plan
}


// ---------------------------------------------------------------------------
// Per-process results
// ---------------------------------------------------------------------------
/// A process that holds the scanned file (or something under the scanned
/// folder).
#[derive(Debug, Clone)]
pub struct ProcessInfo {
    pub pid: u32,
    /// Creation time in FILETIME ticks, as decimal text.
    pub creation_time: String,
    /// File name of the executable (such as `WINWORD.EXE`).
    pub process_name: String,
    /// Full executable path (empty when it could not be queried).
    pub exe_path: String,
    /// File description from the executable's version resource (may be empty).
    pub description: String,
    /// Application display name reported by the Restart Manager (may be empty).
    pub app_name: String,
    /// `restart_manager`, `handle_scan` or `both`.
    pub source: String,
    /// Number of locked files under the folder (always 1 for a single file).
    pub locked_files: u32,
}

/// Result of a scan: the locking processes, sorted by PID, with the folder
/// mode's metadata.
#[derive(Debug, Clone)]
pub struct ScanOutcome {
    pub processes: Vec<ProcessInfo>,
    pub truncated: bool,
    /// Number of files enumerated under the folder (1 for a single file).
    pub file_count: usize,
}

/// What the operating system reported about one process: its image path,
/// the file description of that image and its creation time.  A query that
/// failed leaves an empty string or zero.
#[derive(Debug, Clone)]
pub struct ProcessFacts {
    pub pid: u32,
    pub exe_path: String,
    pub description: String,
    pub creation_time: u64,
}

/// The facts reported for `pid`: those of its first entry in `facts`, or
/// empty ones (and creation time 0) when there is none.
pub open spec fn facts_for(facts: Seq<ProcessFacts>, pid: u32) -> (Seq<char>, Seq<char>, u64)
    decreases facts.len(),
{
    if facts.len() == 0 {
        (Seq::empty(), Seq::empty(), 0)
    } else if facts[0].pid == pid {
        (facts[0].exe_path@, facts[0].description@, facts[0].creation_time)
    } else {
        facts_for(facts.drop_first(), pid)
    }
}

fn lookup_facts(facts: &[ProcessFacts], pid: u32) -> (res: (String, String, u64))
    ensures
        res.0@ == facts_for(facts@, pid).0,
        res.1@ == facts_for(facts@, pid).1,
        res.2 == facts_for(facts@, pid).2,
{
    let mut i: usize = 0;
    assert(facts@.skip(0) =~= facts@);
    while i < facts.len()
        invariant
            i <= facts@.len(),
            facts_for(facts@, pid) == facts_for(facts@.skip(i as int), pid),
        decreases facts.len() - i,
    {
        assert(facts@.skip(i as int)[0] == facts@[i as int]);
        if facts[i].pid == pid {
            return (facts[i].exe_path.clone(), facts[i].description.clone(), facts[i].creation_time);
        }
        assert(facts@.skip(i as int).drop_first() =~= facts@.skip(i + 1));
        i = i + 1;
    }
    (String::new(), String::new(), 0)
}

/// `info` is the record built for `pid` with the given name, source label
/// and locked-file count, from the facts reported for `pid`.
pub open spec fn describes(
    info: ProcessInfo,
    pid: u32,
    app_name: Seq<char>,
    source: Seq<char>,
    locked_files: u32,
    facts: Seq<ProcessFacts>,
) -> bool {
    let f = facts_for(facts, pid);
    &&& info.pid == pid
    &&& info.creation_time@ == spec_decimal(f.2 as nat)
    &&& info.process_name@ == spec_process_name(f.0, app_name)
    &&& info.exe_path@ == f.0
    &&& info.description@ == f.1
    &&& info.app_name@ == app_name
    &&& info.source@ == source
    &&& info.locked_files == locked_files
}

/// Builds the record of one locking process from the facts reported for it
/// (a process without facts gets empty strings and creation time 0).
pub fn make_process_info(
    pid: u32,
    app_name: String,
    source: &str,
    locked_files: u32,
    facts: &[ProcessFacts],
) -> (info: ProcessInfo)
    ensures
        describes(info, pid, app_name@, source@, locked_files, facts@),
{
    let (exe_path, description, created) = lookup_facts(facts, pid);
    let process_name = process_name_of(exe_path.as_str(), app_name.as_str());
    ProcessInfo {
        pid,
        creation_time: decimal_string(created),
        process_name,
        exe_path,
        description,
        app_name,
        source: source.to_owned(),
        locked_files,
    }
}


// ---------------------------------------------------------------------------
// Assembling the scan results
// ---------------------------------------------------------------------------
/// Restart Manager hits built from its `(pid, app_name)` list.
pub open spec fn hits_of(pairs: Seq<(u32, String)>) -> Seq<EngineHit> {
    pairs.map_values(|t: (u32, String)| EngineHit { pid: t.0, app_name: t.1 })
}

/// The list an engine returned, or nothing when it failed.
pub open spec fn ok_list<T>(r: Result<Vec<T>, String>) -> Seq<T> {
    match r {
        Ok(v) => v@,
        Err(_) => Seq::empty(),
    }
}

/// The error text of a failed engine, or nothing when it succeeded.
pub open spec fn err_text<T>(r: Result<T, String>) -> Seq<char> {
    match r {
        Ok(_) => Seq::empty(),
        Err(e) => e@,
    }
}

fn engine_hits(pairs: &Vec<(u32, String)>) -> (hits: Vec<EngineHit>)
    ensures
        hits@ == hits_of(pairs@),
{
    let mut hits: Vec<EngineHit> = Vec::new();
    let mut i: usize = 0;
    while i < pairs.len()
        invariant
            i <= pairs@.len(),
            hits@ == hits_of(pairs@.take(i as int)),
        decreases pairs.len() - i,
    {
        hits.push(EngineHit { pid: pairs[i].0, app_name: pairs[i].1.clone() });
        assert(pairs@.take(i + 1) == pairs@.take(i as int).push(pairs@[i as int]));
        i = i + 1;
    }
    assert(pairs@.take(pairs@.len() as int) == pairs@);
    hits
}

/// Whether some record of `list` is for `pid`.
pub open spec fn lists_pid(list: Seq<ProcessInfo>, pid: u32) -> bool {
    exists|i: int| 0 <= i < list.len() && list[i].pid == pid
}

/// `list` reports, sorted by PID, exactly the processes that either engine
/// found, each with its merged name and source label, `locked(pid)` locked
/// files and the facts reported for it.
pub open spec fn reports_hits(
    list: Seq<ProcessInfo>,
    rm: Seq<EngineHit>,
    handles: Seq<u32>,
    locked: spec_fn(u32) -> u32,
    facts: Seq<ProcessFacts>,
) -> bool {
    &&& forall|i: int, j: int| 0 <= i < j < list.len() ==> list[i].pid < list[j].pid
    &&& forall|p: u32| #[trigger] lists_pid(list, p) <==> (rm_has(rm, p) || handles.contains(p))
    &&& forall|i: int|
        0 <= i < list.len() ==> describes(
            #[trigger] list[i],
            list[i].pid,
            first_rm_name(rm, list[i].pid),
            merge_source(
                rm_has(rm, list[i].pid),
                handles.contains(list[i].pid),
            ),
            locked(list[i].pid),
            facts,
        )
}

/// The records of a merge plan, in plan order; entry `i` gets `locked[i]`
/// locked files.
fn describe_plan(
    plan: &Vec<(u32, String, &'static str)>,
    locked: &Vec<u32>,
    facts: &[ProcessFacts],
) -> (list: Vec<ProcessInfo>)
    requires
        plan@.len() == locked@.len(),
    ensures
        list@.len() == plan@.len(),
        forall|i: int|
            0 <= i < plan@.len() ==> describes(
                #[trigger] list@[i],
                plan@[i].0,
                plan@[i].1@,
                plan@[i].2@,
                locked@[i],
                facts@,
            ),
{
    let mut list: Vec<ProcessInfo> = Vec::new();
    let mut i: usize = 0;
    while i < plan.len()
        invariant
            i <= plan@.len(),
            plan@.len() == locked@.len(),
            list@.len() == i,
            forall|k: int|
                0 <= k < i ==> describes(
                    #[trigger] list@[k],
                    plan@[k].0,
                    plan@[k].1@,
                    plan@[k].2@,
                    locked@[k],
                    facts@,
                ),
        decreases plan.len() - i,
    {
        let info = make_process_info(plan[i].0, plan[i].1.clone(), plan[i].2, locked[i], facts);
        list.push(info);
        i = i + 1;
    }
    list
}

/// From a merge plan to the records it describes: the reported list is
/// exact for the engines' hits.
proof fn lemma_plan_reports(
    plan: Seq<(u32, String, &'static str)>,
    list: Seq<ProcessInfo>,
    locked: Seq<u32>,
    rm: Seq<EngineHit>,
    handles: Seq<u32>,
    locked_of: spec_fn(u32) -> u32,
    facts: Seq<ProcessFacts>,
)
    requires
        is_merge_of(plan, rm, handles),
        list.len() == plan.len(),
        locked.len() == plan.len(),
        forall|i: int| 0 <= i < plan.len() ==> locked[i] == locked_of(#[trigger] plan[i].0),
        forall|i: int|
            0 <= i < plan.len() ==> describes(
                #[trigger] list[i],
                plan[i].0,
                plan[i].1@,
                plan[i].2@,
                locked[i],
                facts,
            ),
    ensures
        reports_hits(list, rm, handles, locked_of, facts),
{
    assert forall|i: int| 0 <= i < list.len() implies #[trigger] list[i].pid == plan[i].0 by {
        assert(describes(list[i], plan[i].0, plan[i].1@, plan[i].2@, locked[i], facts));
    }
    assert forall|p: u32| #[trigger] lists_pid(list, p) <==> (rm_has(rm, p) || handles.contains(p)) by {
        if lists_pid(list, p) {
            let i = choose|i: int| 0 <= i < list.len() && list[i].pid == p;
            assert(plan[i].0 == p);
            assert(plan_has(plan, p));
        }
        if rm_has(rm, p) || handles.contains(p) {
            assert(plan_has(plan, p));
            let i = choose|i: int| 0 <= i < plan.len() && plan[i].0 == p;
            assert(list[i].pid == p);
        }
    }
    assert forall|i: int| 0 <= i < list.len() implies describes(
        #[trigger] list[i],
        list[i].pid,
        first_rm_name(rm, list[i].pid),
        merge_source(
            rm_has(rm, list[i].pid),
            handles.contains(list[i].pid),
        ),
        locked_of(list[i].pid),
        facts,
    ) by {
        assert(describes(list[i], plan[i].0, plan[i].1@, plan[i].2@, locked[i], facts));
        assert(plan[i] == plan[i]);
        assert(locked[i] == locked_of(plan[i].0));
    }
    assert forall|i: int, j: int| 0 <= i < j < list.len() implies list[i].pid < list[j].pid by {
        assert(list[i].pid == plan[i].0);
        assert(list[j].pid == plan[j].0);
    }
}

/// A vector of `n` ones.
fn ones(n: usize) -> (v: Vec<u32>)
    ensures
        v@.len() == n,
        forall|i: int| 0 <= i < n ==> v@[i] == 1,
{
    let mut v: Vec<u32> = Vec::new();
    let mut i: usize = 0;
    while i < n
        invariant
            i <= n,
            v@.len() == i,
            forall|k: int| 0 <= k < i ==> v@[k] == 1,
        decreases n - i,
    {
        v.push(1);
        i = i + 1;
    }
    v
}

/// Message of a single-file scan in which the handle scan failed and
/// neither engine found a process.
pub open spec fn engine_failure_message(handle_err: Seq<char>, rm_err: Seq<char>) -> Seq<char> {
    "检测引擎异常（句柄扫描："@ + handle_err + "；Restart Manager："@ + rm_err
        + "）。请运行自检并导出日志反馈"@
}

/// What a single-file scan returns for the two engines' results: an error
/// exactly when the handle scan failed and no engine found a process,
/// otherwise the merged records (one locked file each).
pub open spec fn single_file_result(
    res: Result<Vec<ProcessInfo>, String>,
    rm: Result<Vec<(u32, String)>, String>,
    handles: Result<Vec<u32>, String>,
    facts: Seq<ProcessFacts>,
) -> bool {
    match res {
        Ok(list) => !(ok_list(rm).len() == 0 && handles is Err) && reports_hits(
            list@,
            hits_of(ok_list(rm)),
            ok_list(handles),
            |p: u32| 1u32,
            facts,
        ),
        Err(msg) => ok_list(rm).len() == 0 && handles is Err && msg@ == engine_failure_message(
            err_text(handles),
            err_text(rm),
        ),
    }
}

/// Single-file mode: merges the Restart Manager's and the handle scan's
/// results.  A failed Restart Manager is not fatal; a failed handle scan is
/// reported as an error only when nothing was found, so that an engine
/// failure never passes for "not locked".
pub fn scan_single_file(
    rm: &Result<Vec<(u32, String)>, String>,
    handles: &Result<Vec<u32>, String>,
    facts: &[ProcessFacts],
) -> (res: Result<Vec<ProcessInfo>, String>)
    ensures
        single_file_result(res, *rm, *handles, facts@),
{
    let empty_pairs: Vec<(u32, String)> = Vec::new();
    let empty_pids: Vec<u32> = Vec::new();
    let rm_list = match rm {
        Ok(v) => v,
        Err(_) => &empty_pairs,
    };
    let hm_pids = match handles {
        Ok(v) => v,
        Err(_) => &empty_pids,
    };
    let rm_hits = engine_hits(rm_list);
    let plan = merge_engine_hits(rm_hits.as_slice(), hm_pids.as_slice());
    if plan.len() == 0 {
        proof {
            if rm_list@.len() > 0 {
                assert(rm_has(rm_hits@, rm_hits@[0].pid));
                assert(plan_has(plan@, rm_hits@[0].pid));
            }
            if hm_pids@.len() > 0 {
                assert(hm_pids@.contains(hm_pids@[0]));
                assert(plan_has(plan@, hm_pids@[0]));
            }
        }
        if let Err(e) = handles {
            let mut msg: Vec<char> = Vec::new();
            push_str(&mut msg, "检测引擎异常（句柄扫描：");
            push_str(&mut msg, e.as_str());
            push_str(&mut msg, "；Restart Manager：");
            match rm {
                Ok(_) => {},
                Err(r) => push_str(&mut msg, r.as_str()),
            }
            push_str(&mut msg, "）。请运行自检并导出日志反馈");
            proof {
                reveal_strlit("检测引擎异常（句柄扫描：");
                reveal_strlit("；Restart Manager：");
                reveal_strlit("）。请运行自检并导出日志反馈");
            }
            return Err(string_of(&msg));
        }
    }
    let locked = ones(plan.len());
    let list = describe_plan(&plan, &locked, facts);
    proof {
        lemma_plan_reports(plan@, list@, locked@, rm_hits@, hm_pids@, |p: u32| 1u32, facts@);
        assert(ok_list(*rm) == rm_list@);
        assert(ok_list(*handles) == hm_pids@);
        if plan@.len() > 0 {
            assert(plan_has(plan@, plan@[0].0));
            if rm_list@.len() == 0 {
                assert(!rm_has(rm_hits@, plan@[0].0));
            }
        }
    }
    Ok(list)
}


// ---------------------------------------------------------------------------
// Folder mode
// ---------------------------------------------------------------------------
/// The PIDs of the handle scan's per-process groups.
pub open spec fn group_pids(groups: Seq<(u32, Vec<String>)>) -> Seq<u32> {
    groups.map_values(|g: (u32, Vec<String>)| g.0)
}

/// Whether the groups name each PID at most once.
pub open spec fn groups_distinct(groups: Seq<(u32, Vec<String>)>) -> bool {
    forall|i: int, j: int| 0 <= i < j < groups.len() ==> groups[i].0 != groups[j].0
}

/// Every group names a process other than PID 0 and holds at least one
/// path.
pub open spec fn groups_nonempty(groups: Seq<(u32, Vec<String>)>) -> bool {
    forall|i: int|
        0 <= i < groups.len() ==> (#[trigger] groups[i]).0 != 0 && groups[i].1@.len() > 0
}

/// What folder mode needs of the handle scan's groups: each PID once, each
/// group non-empty, and each path count within the `u32` file counter.
pub open spec fn groups_usable(groups: Seq<(u32, Vec<String>)>) -> bool {
    &&& groups_distinct(groups)
    &&& groups_nonempty(groups)
    &&& forall|i: int| 0 <= i < groups.len() ==> (#[trigger] groups[i]).1@.len() <= u32::MAX
}

/// The texts of a list of paths.
pub open spec fn paths_view(paths: Seq<String>) -> Seq<Seq<char>> {
    paths.map_values(|s: String| s@)
}

/// Number of different values in `s`.
pub open spec fn distinct_count(s: Seq<Seq<char>>) -> nat
    decreases s.len(),
{
    if s.len() == 0 {
        0
    } else {
        distinct_count(s.drop_last()) + if s.drop_last().contains(s.last()) {
            0nat
        } else {
            1nat
        }
    }
}

proof fn lemma_distinct_count_bounds(s: Seq<Seq<char>>)
    ensures
        distinct_count(s) <= s.len(),
        s.len() > 0 ==> distinct_count(s) >= 1,
    decreases s.len(),
{
    if s.len() > 0 {
        lemma_distinct_count_bounds(s.drop_last());
        if s.len() == 1 {
            assert(!s.drop_last().contains(s.last()));
        }
    }
}

/// Locked-file count of `pid` in folder mode: the number of different paths
/// the handle scan found it holding, or 1 when the handle scan did not
/// report it (a Restart Manager hit counts as at least one file).
pub open spec fn group_locked(groups: Seq<(u32, Vec<String>)>, pid: u32) -> u32
    decreases groups.len(),
{
    if groups.len() == 0 {
        1
    } else if groups[0].0 == pid {
        distinct_count(paths_view(groups[0].1@)) as u32
    } else {
        group_locked(groups.drop_first(), pid)
    }
}

/// With usable groups every process gets at least one locked file.
proof fn lemma_group_locked_positive(groups: Seq<(u32, Vec<String>)>, pid: u32)
    requires
        groups_usable(groups),
    ensures
        group_locked(groups, pid) >= 1,
    decreases groups.len(),
{
    if groups.len() > 0 {
        if groups[0].0 == pid {
            let v = paths_view(groups[0].1@);
            lemma_distinct_count_bounds(v);
            assert(v.len() == groups[0].1@.len());
        } else {
            let rest = groups.drop_first();
            assert forall|i: int, j: int| 0 <= i < j < rest.len() implies rest[i].0 != rest[j].0 by {
                assert(groups[i + 1].0 != groups[j + 1].0);
            }
            assert forall|i: int| 0 <= i < rest.len() implies (#[trigger] rest[i]).0 != 0 && rest[i].1@.len() > 0 && rest[i].1@.len() <= u32::MAX by {
                assert(rest[i] == groups[i + 1]);
            }
            lemma_group_locked_positive(rest, pid);
        }
    }
}

/// Whether `paths[i]` equals one of the paths before it.
fn seen_before(paths: &Vec<String>, i: usize) -> (res: bool)
    requires
        i < paths@.len(),
    ensures
        res == paths_view(paths@.take(i as int)).contains(paths@[i as int]@),
{
    let mut k: usize = 0;
    while k < i
        invariant
            k <= i < paths@.len(),
            forall|j: int| 0 <= j < k ==> paths@[j]@ != paths@[i as int]@,
        decreases i - k,
    {
        if paths[k] == paths[i] {
            assert(paths_view(paths@.take(i as int))[k as int] == paths@[i as int]@);
            return true;
        }
        k = k + 1;
    }
    proof {
        if paths_view(paths@.take(i as int)).contains(paths@[i as int]@) {
            let j = choose|j: int|
                0 <= j < i && #[trigger] paths_view(paths@.take(i as int))[j] == paths@[i as int]@;
            assert(paths@[j]@ == paths@[i as int]@);
        }
    }
    false
}

/// Number of different paths in `paths` (several handles on one file count
/// once).
fn count_distinct(paths: &Vec<String>) -> (n: usize)
    ensures
        n == distinct_count(paths_view(paths@)),
{
    let mut n: usize = 0;
    let mut i: usize = 0;
    assert(paths_view(paths@.take(0)) =~= Seq::<Seq<char>>::empty());
    while i < paths.len()
        invariant
            i <= paths@.len(),
            n == distinct_count(paths_view(paths@.take(i as int))),
            n <= i,
        decreases paths.len() - i,
    {
        let seen = seen_before(paths, i);
        assert(paths_view(paths@.take(i + 1)).drop_last() =~= paths_view(paths@.take(i as int)));
        assert(paths_view(paths@.take(i + 1)).last() == paths@[i as int]@);
        if !seen {
            n = n + 1;
        }
        i = i + 1;
    }
    assert(paths@.take(paths@.len() as int) == paths@);
    n
}

/// Locked-file count of `pid` in folder mode.
fn locked_count(groups: &Vec<(u32, Vec<String>)>, pid: u32) -> (n: u32)
    ensures
        n == group_locked(groups@, pid),
{
    let mut i: usize = 0;
    assert(groups@.skip(0) =~= groups@);
    while i < groups.len()
        invariant
            i <= groups@.len(),
            group_locked(groups@, pid) == group_locked(groups@.skip(i as int), pid),
        decreases groups.len() - i,
    {
        assert(groups@.skip(i as int)[0] == groups@[i as int]);
        if groups[i].0 == pid {
            let c = count_distinct(&groups[i].1);
            return c as u32;
        }
        assert(groups@.skip(i as int).drop_first() =~= groups@.skip(i + 1));
        i = i + 1;
    }
    1
}

fn pids_of_groups(groups: &Vec<(u32, Vec<String>)>) -> (pids: Vec<u32>)
    ensures
        pids@ == group_pids(groups@),
{
    let mut pids: Vec<u32> = Vec::new();
    let mut i: usize = 0;
    while i < groups.len()
        invariant
            i <= groups@.len(),
            pids@ == group_pids(groups@.take(i as int)),
        decreases groups.len() - i,
    {
        pids.push(groups[i].0);
        assert(groups@.take(i + 1) == groups@.take(i as int).push(groups@[i as int]));
        i = i + 1;
    }
    assert(groups@.take(groups@.len() as int) == groups@);
    pids
}

/// What folder mode returns for the engines' results.  With the handle scan
/// working, every process found by either engine is reported, with the
/// handle scan's count of different locked paths (at least 1 for a Restart
/// Manager hit).  With the handle scan failed, the Restart Manager's hits
/// are reported alone, or an error when there are none.
pub open spec fn directory_result(
    res: Result<ScanOutcome, String>,
    file_count: usize,
    rm: Result<Vec<(u32, String)>, String>,
    handles: Result<Vec<(u32, Vec<String>)>, String>,
    facts: Seq<ProcessFacts>,
) -> bool {
    match handles {
        Ok(groups) => match res {
            Ok(o) => !o.truncated && o.file_count == file_count && reports_hits(
                o.processes@,
                hits_of(ok_list(rm)),
                group_pids(groups@),
                |p: u32| group_locked(groups@, p),
                facts,
            ),
            Err(_) => false,
        },
        Err(e) => if ok_list(rm).len() == 0 {
            match res {
                Ok(_) => false,
                Err(msg) => msg@ == "检测引擎异常："@ + e@,
            }
        } else {
            match res {
                Ok(o) => !o.truncated && o.file_count == file_count && reports_hits(
                    o.processes@,
                    hits_of(ok_list(rm)),
                    Seq::empty(),
                    |p: u32| 1u32,
                    facts,
                ),
                Err(_) => false,
            }
        },
    }
}

/// Folder mode: combines the Restart Manager's batch result for the files
/// under the folder with the handle scan's per-process paths under it.
/// `file_count` is the number of files enumerated under the folder.
pub fn scan_directory(
    file_count: usize,
    rm: &Result<Vec<(u32, String)>, String>,
    handles: &Result<Vec<(u32, Vec<String>)>, String>,
    facts: &[ProcessFacts],
) -> (res: Result<ScanOutcome, String>)
    requires
        handles matches Ok(groups) ==> groups_usable(groups@),
    ensures
        directory_result(res, file_count, *rm, *handles, facts@),
        res matches Ok(o) ==> o.file_count == file_count && forall|i: int|
            0 <= i < o.processes@.len() ==> (#[trigger] o.processes@[i]).locked_files >= 1,
{
    let empty_pairs: Vec<(u32, String)> = Vec::new();
    let rm_list = match rm {
        Ok(v) => v,
        Err(_) => &empty_pairs,
    };
    let rm_hits = engine_hits(rm_list);
    assert(ok_list(*rm) == rm_list@);
    match handles {
        Err(e) => {
            if rm_list.len() == 0 {
                let mut msg: Vec<char> = Vec::new();
                push_str(&mut msg, "检测引擎异常：");
                push_str(&mut msg, e.as_str());
                proof {
                    reveal_strlit("检测引擎异常：");
                }
                return Err(string_of(&msg));
            }
            let none: Vec<u32> = Vec::new();
            let plan = merge_engine_hits(rm_hits.as_slice(), none.as_slice());
            let locked = ones(plan.len());
            let list = describe_plan(&plan, &locked, facts);
            proof {
                lemma_plan_reports(plan@, list@, locked@, rm_hits@, none@, |p: u32| 1u32, facts@);
                assert(none@ =~= Seq::<u32>::empty());
                assert forall|i: int| 0 <= i < list@.len() implies (#[trigger] list@[i]).locked_files >= 1 by {
                    assert(describes(list@[i], plan@[i].0, plan@[i].1@, plan@[i].2@, locked@[i], facts@));
                }
            }
            Ok(ScanOutcome { processes: list, truncated: false, file_count })
        },
        Ok(groups) => {
            let pids = pids_of_groups(groups);
            let plan = merge_engine_hits(rm_hits.as_slice(), pids.as_slice());
            let mut locked: Vec<u32> = Vec::new();
            let mut i: usize = 0;
            while i < plan.len()
                invariant
                    i <= plan@.len(),
                    locked@.len() == i,
                    forall|k: int|
                        0 <= k < i ==> locked@[k] == group_locked(groups@, #[trigger] plan@[k].0),
                decreases plan.len() - i,
            {
                let n = locked_count(groups, plan[i].0);
                locked.push(n);
                i = i + 1;
            }
            let list = describe_plan(&plan, &locked, facts);
            proof {
                lemma_plan_reports(
                    plan@,
                    list@,
                    locked@,
                    rm_hits@,
                    pids@,
                    |p: u32| group_locked(groups@, p),
                    facts@,
                );
                assert forall|i: int| 0 <= i < list@.len() implies (#[trigger] list@[i]).locked_files >= 1 by {
                    assert(describes(list@[i], plan@[i].0, plan@[i].1@, plan@[i].2@, locked@[i], facts@));
                    lemma_group_locked_positive(groups@, plan@[i].0);
                }
            }
            Ok(ScanOutcome { processes: list, truncated: false, file_count })
        },
    }
}


/// An engine failure never passes for "not locked": a scan that reports no
/// locking process at all had a working handle scan behind it, in
/// single-file and in folder mode.
pub proof fn lemma_empty_result_means_scanned(
    list: Vec<ProcessInfo>,
    outcome: ScanOutcome,
    file_count: usize,
    rm: Result<Vec<(u32, String)>, String>,
    handles: Result<Vec<u32>, String>,
    groups: Result<Vec<(u32, Vec<String>)>, String>,
    facts: Seq<ProcessFacts>,
)
    ensures
        single_file_result(Ok(list), rm, handles, facts) && list@.len() == 0 ==> handles is Ok,
        directory_result(Ok(outcome), file_count, rm, groups, facts) && outcome.processes@.len()
            == 0 ==> groups is Ok,
{
    if directory_result(Ok(outcome), file_count, rm, groups, facts) && outcome.processes@.len() == 0
        && groups is Err {
        let hits = hits_of(ok_list(rm));
        assert(ok_list(rm).len() > 0);
        assert(rm_has(hits, hits[0].pid));
        assert(lists_pid(outcome.processes@, hits[0].pid));
    }
    if single_file_result(Ok(list), rm, handles, facts) && list@.len() == 0 && handles is Err {
        let hits = hits_of(ok_list(rm));
        assert(ok_list(rm).len() > 0);
        assert(rm_has(hits, hits[0].pid));
        assert(lists_pid(list@, hits[0].pid));
    }
}

// ---------------------------------------------------------------------------
// Enumerating a folder
// ---------------------------------------------------------------------------
/// At most this many files are enumerated under a folder.
pub const MAX_FILES: usize = 2000;

/// What a directory listing says an entry is.  Links (symbolic links and
/// junctions) are neither followed nor counted, which keeps a link cycle
/// from looping; an entry whose type cannot be read is skipped.
#[derive(Debug, Clone, Copy, PartialEq, Eq, Structural)]
pub enum EntryKind {
    File,
    Dir,
    Link,
    Unreadable,
}

/// Depth-first enumeration of the files under a folder, driven by the
/// caller: `next_dir` names the next folder to list, `add_entry` takes each
/// entry of its listing.  Enumeration stops once `MAX_FILES` files are
/// found.
pub struct DirWalk<P> {
    stack: Vec<P>,
    files: Vec<P>,
}

impl<P> DirWalk<P> {
    /// Well-formed: never more than `MAX_FILES` files found.
    pub closed spec fn wf(&self) -> bool {
        self.files@.len() <= MAX_FILES
    }

    /// Folders still to be listed (the last one is listed next).
    pub closed spec fn pending(&self) -> Seq<P> {
        self.stack@
    }

    /// Files found so far, in the order found.
    pub closed spec fn found(&self) -> Seq<P> {
        self.files@
    }

    /// Starts at `root`.
    pub fn new(root: P) -> (w: Self)
        ensures
            w.wf(),
            w.pending() == seq![root],
            w.found() == Seq::<P>::empty(),
    {
        let mut stack: Vec<P> = Vec::new();
        stack.push(root);
        DirWalk { stack, files: Vec::new() }
    }

    /// The next folder to list: the most recently found one still pending,
    /// or `None` when none is left or the file limit is reached.
    pub fn next_dir(&mut self) -> (d: Option<P>)
        requires
            old(self).wf(),
        ensures
            final(self).wf(),
            if old(self).found().len() >= MAX_FILES || old(self).pending().len() == 0 {
                d is None && final(self).pending() == old(self).pending()
            } else {
                d == Some(old(self).pending().last()) && final(self).pending()
                    == old(self).pending().drop_last()
            },
            final(self).found() == old(self).found(),
    {
        if self.files.len() >= MAX_FILES {
            return None;
        }
        self.stack.pop()
    }

    /// Takes one entry of the folder being listed: a folder is queued, a
    /// file is counted while there is room, anything else is skipped.
    pub fn add_entry(&mut self, path: P, kind: EntryKind)
        requires
            old(self).wf(),
        ensures
            final(self).wf(),
            final(self).pending() == if kind == EntryKind::Dir {
                old(self).pending().push(path)
            } else {
                old(self).pending()
            },
            final(self).found() == if kind == EntryKind::File && old(self).found().len()
                < MAX_FILES {
                old(self).found().push(path)
            } else {
                old(self).found()
            },
            final(self).found().len() <= MAX_FILES,
    {
        match kind {
            EntryKind::Dir => {
                self.stack.push(path);
            },
            EntryKind::File => {
                if self.files.len() < MAX_FILES {
                    self.files.push(path);
                }
            },
            EntryKind::Link => {},
            EntryKind::Unreadable => {},
        }
    }

    /// The files found.
    pub fn into_files(self) -> (files: Vec<P>)
        ensures
            files@ == self.found(),
    {
        self.files
    }
}

// ---------------------------------------------------------------------------
// Entry point
// ---------------------------------------------------------------------------
/// What was found about the scan target: that it does not exist, or the
/// two engines' results for a file or for a folder.
#[allow(inconsistent_fields)]
pub enum ScanTarget {
    Missing,
    File { rm: Result<Vec<(u32, String)>, String>, handles: Result<Vec<u32>, String> },
    Directory {
        file_count: usize,
        rm: Result<Vec<(u32, String)>, String>,
        handles: Result<Vec<(u32, Vec<String>)>, String>,
    },
}

/// The check made before scanning: the path must be non-empty and exist.
pub open spec fn target_error(file_path: Seq<char>, exists: bool) -> Option<Seq<char>> {
    if file_path.len() == 0 {
        Some("文件路径为空"@)
    } else if !exists {
        Some("文件不存在："@ + file_path)
    } else {
        None
    }
}

/// Checks the scan target before any engine runs.
pub fn check_scan_target(file_path: &str, exists: bool) -> (res: Result<(), String>)
    ensures
        match target_error(file_path@, exists) {
            Some(msg) => res matches Err(e) && e@ == msg,
            None => res is Ok,
        },
{
    let chars = chars_of(file_path);
    if chars.len() == 0 {
        proof {
            reveal_strlit("文件路径为空");
        }
        return Err("文件路径为空".to_owned());
    }
    if !exists {
        let mut msg: Vec<char> = Vec::new();
        push_str(&mut msg, "文件不存在：");
        push_str(&mut msg, file_path);
        proof {
            reveal_strlit("文件不存在：");
        }
        return Err(string_of(&msg));
    }
    Ok(())
}

/// What a scan returns for the target: the check's error, or the outcome of
/// single-file mode (one file) or folder mode.
pub open spec fn scan_result(
    res: Result<ScanOutcome, String>,
    file_path: Seq<char>,
    target: ScanTarget,
    facts: Seq<ProcessFacts>,
) -> bool {
    match target_error(file_path, !(target is Missing)) {
        Some(msg) => res matches Err(e) && e@ == msg,
        None => match target {
            ScanTarget::Missing => false,
            ScanTarget::File { rm, handles } => match res {
                Ok(o) => !o.truncated && o.file_count == 1 && single_file_result(
                    Ok(o.processes),
                    rm,
                    handles,
                    facts,
                ),
                Err(e) => single_file_result(Err(e), rm, handles, facts),
            },
            ScanTarget::Directory { file_count, rm, handles } => directory_result(
                res,
                file_count,
                rm,
                handles,
                facts,
            ),
        },
    }
}

/// Finds the processes that lock `file_path` from the engines' results: for
/// a folder, the processes holding files under it, with the number of files
/// each holds.
pub fn get_locking_processes(file_path: &str, target: &ScanTarget, facts: &[ProcessFacts]) -> (res:
    Result<ScanOutcome, String>)
    requires
        target matches ScanTarget::Directory { file_count, handles, .. } ==> file_count <= MAX_FILES
            && (handles matches Ok(groups) ==> groups_usable(groups@)),
    ensures
        scan_result(res, file_path@, *target, facts@),
        res matches Ok(o) ==> !o.truncated && o.file_count <= MAX_FILES && forall|i: int|
            0 <= i < o.processes@.len() ==> (#[trigger] o.processes@[i]).locked_files >= 1,
{
    let exists = match target {
        ScanTarget::Missing => false,
        _ => true,
    };
    match check_scan_target(file_path, exists) {
        Err(e) => {
            return Err(e);
        },
        Ok(()) => {},
    }
    match target {
        ScanTarget::Missing => Err("文件不存在：".to_owned()),
        ScanTarget::File { rm, handles } => match scan_single_file(rm, handles, facts) {
            Ok(processes) => Ok(ScanOutcome { processes, truncated: false, file_count: 1 }),
            Err(e) => Err(e),
        },
        ScanTarget::Directory { file_count, rm, handles } => scan_directory(
            *file_count,
            rm,
            handles,
            facts,
        ),
    }
}

} // verus!
