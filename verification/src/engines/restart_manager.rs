//! Restart Manager queries: the same source as Explorer's "file in use"
//! dialog.  A session registers the files, then `RmGetList` lists the
//! processes using them.  The list can change between the size probe and
//! the read, so the read is retried with the newly reported size.
use vstd::prelude::*;

use crate::detect::target_error;
use crate::text::{push_decimal, push_str, spec_decimal, string_of};
use crate::winutil::{nul_end, spec_utf16_lossy, utf16_string};

verus! {

/// `ERROR_SUCCESS`.
pub const ERROR_SUCCESS: u32 = 0;

/// `ERROR_MORE_DATA`: the buffer was too small.
pub const ERROR_MORE_DATA: u32 = 234;

/// Number of `RmGetList` attempts before giving up.
pub const RM_LIST_ATTEMPTS: u32 = 5;

/// At most this many files are registered in one session.
pub const RM_BATCH: usize = 500;

/// `"<call> 失败 (错误码 <code>)"`.
pub open spec fn call_failed(call: Seq<char>, code: u32) -> Seq<char> {
    call + " 失败 (错误码 "@ + spec_decimal(code as nat) + ")"@
}

fn call_failed_message(call: &str, code: u32) -> (res: String)
    ensures
        res@ == call_failed(call@, code),
{
    let mut v: Vec<char> = Vec::new();
    push_str(&mut v, call);
    push_str(&mut v, " 失败 (错误码 ");
    push_decimal(&mut v, code as u64);
    push_str(&mut v, ")");
    proof {
        reveal_strlit(" 失败 (错误码 ");
        reveal_strlit(")");
    }
    string_of(&v)
}

/// Message when the process list keeps changing through every attempt.
pub open spec fn list_unstable_message() -> Seq<char> {
    "进程表持续变化，RmGetList 重试 5 次仍未成功"@
}

/// What to do after one `RmGetList` attempt.
#[derive(Debug, Clone)]
pub enum RmListStep {
    /// The first `count` entries of the buffer are the list.
    Done(u32),
    /// Call again with a buffer of this many entries.
    Retry(u32),
    Failed(String),
}

/// Decides the next step after attempt number `attempt` (from 0) returned
/// `err`, with `needed` entries reported and `count` entries written.
pub fn rm_list_step(attempt: u32, err: u32, needed: u32, count: u32) -> (step: RmListStep)
    ensures
        err == ERROR_SUCCESS ==> (step matches RmListStep::Done(n) && n == count),
        err != ERROR_SUCCESS && (err != ERROR_MORE_DATA || needed == 0) ==> (
        step matches RmListStep::Failed(m) && m@ == call_failed("RmGetList"@, err)),
        err == ERROR_MORE_DATA && needed != 0 && attempt + 1 < RM_LIST_ATTEMPTS ==> (
        step matches RmListStep::Retry(n) && n == needed),
        err == ERROR_MORE_DATA && needed != 0 && attempt + 1 >= RM_LIST_ATTEMPTS ==> (
        step matches RmListStep::Failed(m) && m@ == list_unstable_message()),
{
    if err == ERROR_SUCCESS {
        return RmListStep::Done(count);
    }
    if err != ERROR_MORE_DATA || needed == 0 {
        return RmListStep::Failed(call_failed_message("RmGetList", err));
    }
    if attempt >= RM_LIST_ATTEMPTS - 1 {
        proof {
            reveal_strlit("进程表持续变化，RmGetList 重试 5 次仍未成功");
        }
        return RmListStep::Failed("进程表持续变化，RmGetList 重试 5 次仍未成功".to_owned());
    }
    RmListStep::Retry(needed)
}

/// The `(pid, application name)` of the entries that `RmGetList` wrote:
/// the first `count` entries of the buffer (all of it when `count` exceeds
/// it), each name read up to its NUL.
pub open spec fn listed_processes(raw: Seq<(u32, Vec<u16>)>, count: u32) -> Seq<(u32, Seq<char>)> {
    let n = if count <= raw.len() {
        count as int
    } else {
        raw.len() as int
    };
    Seq::new(
        n as nat,
        |i: int| (raw[i].0, spec_utf16_lossy(raw[i].1@.take(nul_end(raw[i].1@)))),
    )
}

/// The process list from the raw `RM_PROCESS_INFO` entries, given as
/// `(pid, strAppName buffer)`.
pub fn rm_process_list(raw: &Vec<(u32, Vec<u16>)>, count: u32) -> (list: Vec<(u32, String)>)
    ensures
        list@.len() == listed_processes(raw@, count).len(),
        forall|i: int|
            0 <= i < list@.len() ==> (#[trigger] list@[i]).0 == listed_processes(raw@, count)[i].0
                && list@[i].1@ == listed_processes(raw@, count)[i].1,
{
    let n: usize = if (count as u64) <= (raw.len() as u64) {
        count as usize
    } else {
        raw.len()
    };
    let mut list: Vec<(u32, String)> = Vec::new();
    let mut i: usize = 0;
    while i < n
        invariant
            i <= n,
            n == listed_processes(raw@, count).len(),
            n <= raw@.len(),
            list@.len() == i,
            forall|k: int|
                0 <= k < i ==> (#[trigger] list@[k]).0 == listed_processes(raw@, count)[k].0
                    && list@[k].1@ == listed_processes(raw@, count)[k].1,
        decreases n - i,
    {
        let name = utf16_string(raw[i].1.as_slice());
        list.push((raw[i].0, name));
        i = i + 1;
    }
    list
}

/// How far one Restart Manager query got: the session or the registration
/// failed with a Win32 code, or `RmGetList` produced a list or an error.
#[derive(Debug)]
pub enum RmQuery {
    SessionFailed(u32),
    RegisterFailed(u32),
    Listed(Result<Vec<(u32, String)>, String>),
}

/// A copy of a `(pid, name)` list.
fn copy_pairs(v: &Vec<(u32, String)>) -> (res: Vec<(u32, String)>)
    ensures
        res@ == v@,
{
    let mut res: Vec<(u32, String)> = Vec::new();
    let mut i: usize = 0;
    while i < v.len()
        invariant
            i <= v@.len(),
            res@ == v@.take(i as int),
        decreases v.len() - i,
    {
        res.push((v[i].0, v[i].1.clone()));
        assert(v@.take(i + 1) == v@.take(i as int).push(v@[i as int]));
        i = i + 1;
    }
    assert(v@.take(v@.len() as int) == v@);
    res
}

/// What a query reports for its stages.
pub open spec fn query_result(res: Result<Vec<(u32, String)>, String>, query: RmQuery) -> bool {
    match query {
        RmQuery::SessionFailed(code) => res matches Err(m) && m@ == call_failed(
            "RmStartSession"@,
            code,
        ),
        RmQuery::RegisterFailed(code) => res matches Err(m) && m@ == call_failed(
            "RmRegisterResources"@,
            code,
        ),
        RmQuery::Listed(r) => match (r, res) {
            (Ok(a), Ok(b)) => a@ == b@,
            (Err(a), Err(b)) => a@ == b@,
            _ => false,
        },
    }
}

fn query_outcome(query: &RmQuery) -> (res: Result<Vec<(u32, String)>, String>)
    ensures
        query_result(res, *query),
{
    match query {
        RmQuery::SessionFailed(code) => {
            proof {
                reveal_strlit("RmStartSession");
            }
            Err(call_failed_message("RmStartSession", *code))
        },
        RmQuery::RegisterFailed(code) => {
            proof {
                reveal_strlit("RmRegisterResources");
            }
            Err(call_failed_message("RmRegisterResources", *code))
        },
        RmQuery::Listed(Ok(list)) => Ok(copy_pairs(list)),
        RmQuery::Listed(Err(e)) => Err(e.clone()),
    }
}

/// The processes locking `file_path` as `(pid, application name)`: the
/// path must be non-empty and exist; a failed stage is reported with its
/// Win32 code.
pub fn query_restart_manager(file_path: &str, exists: bool, query: &RmQuery) -> (res: Result<
    Vec<(u32, String)>,
    String,
>)
    ensures
        match target_error(file_path@, exists) {
            Some(msg) => res matches Err(e) && e@ == msg,
            None => query_result(res, *query),
        },
{
    match crate::detect::check_scan_target(file_path, exists) {
        Err(e) => Err(e),
        Ok(()) => query_outcome(query),
    }
}

/// Benchmark entry: a plain single-file query.
pub fn bench_rm_query(file_path: &str, exists: bool, query: &RmQuery) -> (res: Result<
    Vec<(u32, String)>,
    String,
>)
    ensures
        match target_error(file_path@, exists) {
            Some(msg) => res matches Err(e) && e@ == msg,
            None => query_result(res, *query),
        },
{
    query_restart_manager(file_path, exists, query)
}

/// A batch of files registered in one session: an empty batch needs no
/// session and lists nothing.
pub fn query_restart_manager_batch(file_count: usize, query: &RmQuery) -> (res: Result<
    Vec<(u32, String)>,
    String,
>)
    ensures
        file_count == 0 ==> (res matches Ok(v) && v@.len() == 0),
        file_count > 0 ==> query_result(res, *query),
{
    if file_count == 0 {
        return Ok(Vec::new());
    }
    query_outcome(query)
}

/// The batches of `n` files: consecutive ranges `[start, end)` of at most
/// `RM_BATCH` files covering `0..n` in order.
pub open spec fn batch_ranges_of(n: nat) -> Seq<(usize, usize)> {
    Seq::new(
        ((n + RM_BATCH - 1) / RM_BATCH as int) as nat,
        |k: int|
            (
                (k * RM_BATCH) as usize,
                if (k + 1) * RM_BATCH <= n {
                    ((k + 1) * RM_BATCH) as usize
                } else {
                    n as usize
                },
            ),
    )
}

/// Splits `n` files into Restart Manager batches.
pub fn batch_ranges(n: usize) -> (ranges: Vec<(usize, usize)>)
    ensures
        ranges@ == batch_ranges_of(n as nat),
{
    let mut ranges: Vec<(usize, usize)> = Vec::new();
    let mut start: usize = 0;
    let mut k: usize = 0;
    while start < n
        invariant_except_break
            start == k * RM_BATCH,
            start <= n,
            start < n ==> k < (n + RM_BATCH - 1) / RM_BATCH as int,
            start >= n ==> n == 0,
            ranges@.len() == k,
            forall|j: int| 0 <= j < k ==> #[trigger] ranges@[j] == batch_ranges_of(n as nat)[j],
        ensures
            ranges@.len() == (n + RM_BATCH - 1) / RM_BATCH as int,
            forall|j: int|
                0 <= j < ranges@.len() ==> #[trigger] ranges@[j] == batch_ranges_of(n as nat)[j],
        decreases n - start,
    {
        if n - start > RM_BATCH {
            proof {
                let kk = k as int;
                let nn = n as int;
                assert(kk + 1 < (nn + 499) / 500) by (nonlinear_arith)
                    requires
                        (kk + 1) * 500 < nn,
                ;
            }
            ranges.push((start, start + RM_BATCH));
            start = start + RM_BATCH;
            k = k + 1;
        } else {
            proof {
                let kk = k as int;
                let nn = n as int;
                assert(kk + 1 == (nn + 499) / 500) by (nonlinear_arith)
                    requires
                        kk * 500 < nn,
                        nn - kk * 500 <= 500,
                ;
            }
            ranges.push((start, n));
            k = k + 1;
            break;
        }
    }
    assert(ranges@ =~= batch_ranges_of(n as nat));
    ranges
}

/// The concatenation of the lists of the batches that succeeded.
pub open spec fn batch_union(results: Seq<Result<Vec<(u32, String)>, String>>) -> Seq<(u32, String)>
    decreases results.len(),
{
    if results.len() == 0 {
        Seq::empty()
    } else {
        batch_union(results.drop_last()) + match results.last() {
            Ok(v) => v@,
            Err(_) => Seq::empty(),
        }
    }
}

/// Folder-mode Restart Manager query: the lists of all batches, one after
/// the other.  A failed batch is skipped (on some systems the Restart
/// Manager is unavailable; the handle scan covers for it), so the result is
/// always `Ok`.
pub fn batch_query_restart_manager(results: &Vec<Result<Vec<(u32, String)>, String>>) -> (res:
    Result<Vec<(u32, String)>, String>)
    ensures
        res matches Ok(v) && v@ == batch_union(results@),
{
    let mut all: Vec<(u32, String)> = Vec::new();
    let mut i: usize = 0;
    while i < results.len()
        invariant
            i <= results@.len(),
            all@ == batch_union(results@.take(i as int)),
        decreases results.len() - i,
    {
        assert(results@.take(i + 1).drop_last() == results@.take(i as int));
        match &results[i] {
            Ok(list) => {
                let mut part = copy_pairs(list);
                all.append(&mut part);
            },
            Err(_) => {},
        }
        i = i + 1;
    }
    assert(results@.take(results@.len() as int) == results@);
    Ok(all)
}

} // verus!
