//! Handle-table scan: finds the processes holding a file by walking the
//! system-wide handle table, which also catches holders that the Restart
//! Manager misses (SYSTEM processes, unusual sharing modes).
//!
//! One scan takes a single snapshot of the handle table.  The object type
//! index of File handles is not stable between snapshots, so it is measured
//! on the same snapshot: among this process's own handles, the type index
//! that most often resolves to a disk path is the File type.  Every File
//! handle of the snapshot is then resolved to its DOS path and compared,
//! case-insensitively and without the `\\?\` device prefix, with the target.
//!
//! A scan engine that fails (snapshot query, malformed table) reports an
//! error, never an empty result: "not locked" must not stand in for "could
//! not look".
use vstd::prelude::*;

use crate::bytes::{le_u16, le_u32, le_u64, read_le_u16, read_le_u32, read_le_u64};
use crate::detect::{group_pids, groups_distinct, groups_nonempty, paths_view};
use crate::text::{chars_of, seq_starts_with, spec_to_lowercase, starts_with_chars, string_of, to_lowercase};
use crate::winutil::{normalize_path_string, spec_normalize_path_string};

verus! {

// ---------------------------------------------------------------------------
// The snapshot query
// ---------------------------------------------------------------------------
/// Information class of the extended handle table.
pub const SYSTEM_EXTENDED_HANDLE_INFORMATION: u32 = 64;

/// NTSTATUS `STATUS_INFO_LENGTH_MISMATCH` (0xC0000004): the buffer was too
/// small.
pub const STATUS_INFO_LENGTH_MISMATCH: i32 = -1073741820;

/// Size of the first query buffer.
pub const QUERY_INITIAL_LEN: u32 = 0x1_0000;

/// Number of query attempts before giving up.
pub const QUERY_MAX_ATTEMPTS: u32 = 12;

/// Largest buffer ever allocated for the handle table.
pub const HANDLE_TABLE_MAX_LEN: u32 = 0x2000_0000;

/// Buffer length to try after a length mismatch: the size the system asked
/// for when it is larger than the current one, otherwise four times the
/// current size (some systems report no usable size).
pub open spec fn spec_next_query_len(len: u32, needed: u32) -> int {
    if needed > len {
        needed as int
    } else {
        len * 4
    }
}

/// What to do after one query attempt.
#[derive(Debug, Clone, Copy, PartialEq, Eq, Structural)]
pub enum QueryStep {
    /// Query again with a buffer of this many bytes.
    Retry(u32),
    /// The buffer holds the table; its first `needed` bytes are the data.
    Done,
    /// Give up: the query failed, the table outgrew the limit or the
    /// attempts ran out.
    Failed,
}

/// Decides the next step of the snapshot query after attempt number
/// `attempt` (from 0), made with a `len`-byte buffer, returned `status` and
/// reported `needed` bytes.
pub fn query_step(attempt: u32, len: u32, needed: u32, status: i32, max_len: u32) -> (step:
    QueryStep)
    ensures
        step == if status == STATUS_INFO_LENGTH_MISMATCH {
            if spec_next_query_len(len, needed) > max_len || attempt + 1 >= QUERY_MAX_ATTEMPTS {
                QueryStep::Failed
            } else {
                QueryStep::Retry(spec_next_query_len(len, needed) as u32)
            }
        } else if status != 0 {
            QueryStep::Failed
        } else {
            QueryStep::Done
        },
{
    if status == STATUS_INFO_LENGTH_MISMATCH {
        let next: u64 = if needed > len {
            needed as u64
        } else {
            len as u64 * 4
        };
        if next > max_len as u64 || attempt >= QUERY_MAX_ATTEMPTS - 1 {
            QueryStep::Failed
        } else {
            QueryStep::Retry(next as u32)
        }
    } else if status != 0 {
        QueryStep::Failed
    } else {
        QueryStep::Done
    }
}

// ---------------------------------------------------------------------------
// The handle table
// ---------------------------------------------------------------------------
/// Size of the table header (handle count and a reserved word, x64).
pub const HANDLE_INFO_HEADER_SIZE: usize = 16;

/// Size of one table entry (SYSTEM_HANDLE_TABLE_ENTRY_INFO_EX, x64).
pub const HANDLE_ENTRY_SIZE: usize = 40;

/// The fields of a handle-table entry that the scan reads.
#[derive(Debug, Clone, Copy, PartialEq, Eq, Structural)]
pub struct HandleEntry {
    pub process_id: u64,
    pub handle: u64,
    pub granted_access: u32,
    pub object_type_index: u16,
}

/// The entry at byte offset `o`: process id at +8, handle value at +16,
/// granted access at +24 and object type index at +30.
pub open spec fn entry_at(b: Seq<u8>, o: int) -> HandleEntry {
    HandleEntry {
        process_id: le_u64(b, o + 8) as u64,
        handle: le_u64(b, o + 16) as u64,
        granted_access: le_u32(b, o + 24) as u32,
        object_type_index: le_u16(b, o + 30) as u16,
    }
}

/// The number of entries announced by the table header.
pub open spec fn table_count(b: Seq<u8>) -> nat {
    le_u64(b, 0)
}

/// What reading the snapshot gives: the entries announced by the header,
/// or the reason the snapshot cannot be used.
pub open spec fn table_result(res: Result<Vec<HandleEntry>, String>, snapshot: Option<Vec<u8>>) -> bool {
    match snapshot {
        None => res matches Err(e) && e@ == "系统句柄表快照查询失败（重试耗尽）"@,
        Some(buf) => if buf@.len() < HANDLE_INFO_HEADER_SIZE {
            res matches Err(e) && e@ == "句柄表快照数据异常（过短）"@
        } else if HANDLE_INFO_HEADER_SIZE + table_count(buf@) * HANDLE_ENTRY_SIZE > buf@.len() {
            res matches Err(e) && e@ == "句柄表在两次调用间变化，快照不一致"@
        } else {
            res matches Ok(v) && v@.len() == table_count(buf@) && forall|i: int|
                0 <= i < v@.len() ==> #[trigger] v@[i] == entry_at(
                    buf@,
                    HANDLE_INFO_HEADER_SIZE + i * HANDLE_ENTRY_SIZE,
                )
        },
    }
}

/// Reads the entries of a handle-table snapshot (`None` when the snapshot
/// query gave up).  A table whose announced entries do not fit in the
/// buffer changed between the size probe and the read, and is refused.
pub fn parse_handle_table(snapshot: &Option<Vec<u8>>) -> (res: Result<Vec<HandleEntry>, String>)
    ensures
        table_result(res, *snapshot),
{
    let buf = match snapshot {
        None => {
            proof {
                reveal_strlit("系统句柄表快照查询失败（重试耗尽）");
            }
            return Err("系统句柄表快照查询失败（重试耗尽）".to_owned());
        },
        Some(b) => b,
    };
    if buf.len() < HANDLE_INFO_HEADER_SIZE {
        proof {
            reveal_strlit("句柄表快照数据异常（过短）");
        }
        return Err("句柄表快照数据异常（过短）".to_owned());
    }
    let count = read_le_u64(buf.as_slice(), 0);
    let room: usize = (buf.len() - HANDLE_INFO_HEADER_SIZE) / HANDLE_ENTRY_SIZE;
    proof {
        let len = buf@.len() as int;
        assert(room * 40 <= len - 16 < (room + 1) * 40);
    }
    if count > room as u64 {
        proof {
            reveal_strlit("句柄表在两次调用间变化，快照不一致");
            assert(16 + count * 40 > buf@.len()) by (nonlinear_arith)
                requires
                    count >= room + 1,
                    buf@.len() - 16 < (room + 1) * 40,
            ;
        }
        return Err("句柄表在两次调用间变化，快照不一致".to_owned());
    }
    let n = count as usize;
    proof {
        assert(16 + n * 40 <= buf@.len()) by (nonlinear_arith)
            requires
                n <= room,
                room * 40 <= buf@.len() - 16,
        ;
    }
    let blen = buf.len();
    let mut entries: Vec<HandleEntry> = Vec::new();
    let mut i: usize = 0;
    while i < n
        invariant
            i <= n,
            blen == buf@.len(),
            n == table_count(buf@),
            HANDLE_INFO_HEADER_SIZE + n * HANDLE_ENTRY_SIZE <= buf@.len(),
            entries@.len() == i,
            forall|k: int|
                0 <= k < i ==> #[trigger] entries@[k] == entry_at(
                    buf@,
                    HANDLE_INFO_HEADER_SIZE + k * HANDLE_ENTRY_SIZE,
                ),
        decreases n - i,
    {
        proof {
            assert(16 + i * 40 + 40 <= blen) by (nonlinear_arith)
                requires
                    i < n,
                    16 + n * 40 <= blen,
            ;
        }
        let o = HANDLE_INFO_HEADER_SIZE + i * HANDLE_ENTRY_SIZE;
        let e = HandleEntry {
            process_id: read_le_u64(buf.as_slice(), o + 8),
            handle: read_le_u64(buf.as_slice(), o + 16),
            granted_access: read_le_u32(buf.as_slice(), o + 24),
            object_type_index: read_le_u16(buf.as_slice(), o + 30),
        };
        entries.push(e);
        i = i + 1;
    }
    Ok(entries)
}

// ---------------------------------------------------------------------------
// The File type index
// ---------------------------------------------------------------------------
/// This process's own handles worth probing for the File type: typed, with
/// some access granted.  Each is `(handle value, object type index)`.
pub open spec fn own_probes(entries: Seq<HandleEntry>, my_pid: u64) -> Seq<(u64, u16)>
    decreases entries.len(),
{
    if entries.len() == 0 {
        Seq::empty()
    } else {
        let rest = own_probes(entries.drop_last(), my_pid);
        let e = entries.last();
        if e.process_id == my_pid && e.object_type_index != 0 && e.granted_access != 0 {
            rest.push((e.handle, e.object_type_index))
        } else {
            rest
        }
    }
}

/// The handles of process `my_pid` to probe for the File type index.
pub fn own_probe_candidates(entries: &Vec<HandleEntry>, my_pid: u64) -> (probes: Vec<(u64, u16)>)
    ensures
        probes@ == own_probes(entries@, my_pid),
{
    let mut probes: Vec<(u64, u16)> = Vec::new();
    let mut i: usize = 0;
    while i < entries.len()
        invariant
            i <= entries@.len(),
            probes@ == own_probes(entries@.take(i as int), my_pid),
        decreases entries.len() - i,
    {
        let e = entries[i];
        assert(entries@.take(i + 1).drop_last() == entries@.take(i as int));
        if e.process_id == my_pid && e.object_type_index != 0 && e.granted_access != 0 {
            probes.push((e.handle, e.object_type_index));
        }
        i = i + 1;
    }
    assert(entries@.take(entries@.len() as int) == entries@);
    probes
}

/// How often `x` occurs in `s`.
pub open spec fn occurrences(s: Seq<u16>, x: u16) -> nat
    decreases s.len(),
{
    if s.len() == 0 {
        0
    } else {
        occurrences(s.drop_last(), x) + if s.last() == x {
            1nat
        } else {
            0nat
        }
    }
}

proof fn lemma_occurrences_bound(s: Seq<u16>, x: u16)
    ensures
        occurrences(s, x) <= s.len(),
        occurrences(s, x) > 0 <==> s.contains(x),
    decreases s.len(),
{
    if s.len() > 0 {
        lemma_occurrences_bound(s.drop_last(), x);
        if s.drop_last().contains(x) {
            let k = choose|k: int| 0 <= k < s.len() - 1 && s.drop_last()[k] == x;
            assert(s[k] == x);
        }
        if s.contains(x) && s.last() != x {
            let k = choose|k: int| 0 <= k < s.len() && s[k] == x;
            assert(s.drop_last()[k] == x);
        }
    }
}

/// Number of occurrences of `x` in `s`.
fn count_occurrences(s: &Vec<u16>, x: u16) -> (n: usize)
    ensures
        n == occurrences(s@, x),
{
    let mut n: usize = 0;
    let mut i: usize = 0;
    while i < s.len()
        invariant
            i <= s@.len(),
            n == occurrences(s@.take(i as int), x),
            n <= i,
        decreases s.len() - i,
    {
        assert(s@.take(i + 1).drop_last() == s@.take(i as int));
        if s[i] == x {
            n = n + 1;
        }
        i = i + 1;
    }
    assert(s@.take(s@.len() as int) == s@);
    n
}

/// Position of the first most frequent value among the first `n` values of
/// `s` (0 when `n <= 1`): a later value replaces the best so far only when it
/// occurs strictly more often.
pub open spec fn best_index(s: Seq<u16>, n: int) -> int
    decreases n,
{
    if n <= 1 {
        0
    } else {
        let b = best_index(s, n - 1);
        if occurrences(s, s[n - 1]) > occurrences(s, s[b]) {
            n - 1
        } else {
            b
        }
    }
}

/// The first of the most frequent values of `s`, or `None` when `s` is
/// empty.
pub open spec fn first_most_frequent(s: Seq<u16>) -> Option<u16> {
    if s.len() == 0 {
        None
    } else {
        Some(s[best_index(s, s.len() as int)])
    }
}

/// The first of the most frequent values of `s` (which occurs at least as
/// often as any other), or `None` when `s` is empty.
pub fn most_frequent(s: &Vec<u16>) -> (res: Option<u16>)
    ensures
        res == first_most_frequent(s@),
        match res {
            None => s@.len() == 0,
            Some(x) => s@.contains(x) && forall|y: u16| occurrences(s@, y) <= occurrences(s@, x),
        },
{
    if s.len() == 0 {
        return None;
    }
    let mut best = s[0];
    let mut best_n = count_occurrences(s, best);
    let mut i: usize = 1;
    while i < s.len()
        invariant
            1 <= i <= s@.len(),
            0 <= best_index(s@, i as int) < i,
            best == s@[best_index(s@, i as int)],
            s@.contains(best),
            best_n == occurrences(s@, best),
            forall|k: int| 0 <= k < i ==> occurrences(s@, #[trigger] s@[k]) <= best_n,
        decreases s.len() - i,
    {
        let n = count_occurrences(s, s[i]);
        if n > best_n {
            best = s[i];
            best_n = n;
        }
        i = i + 1;
    }
    proof {
        assert forall|y: u16| occurrences(s@, y) <= occurrences(s@, best) by {
            lemma_occurrences_bound(s@, y);
            if occurrences(s@, y) > 0 {
                let k = choose|k: int| 0 <= k < s@.len() && s@[k] == y;
                assert(occurrences(s@, s@[k]) <= best_n);
            }
        }
    }
    Some(best)
}

/// The type indices of the probed handles that resolved to a disk path.
pub open spec fn resolved_types(probes: Seq<(u64, u16)>, is_file: Seq<bool>) -> Seq<u16>
    decreases probes.len(),
{
    if probes.len() == 0 || is_file.len() == 0 {
        Seq::empty()
    } else {
        let rest = resolved_types(probes.drop_last(), is_file.drop_last());
        if is_file.last() {
            rest.push(probes.last().1)
        } else {
            rest
        }
    }
}

/// The File type index measured on the probes: the first of the most
/// frequent type indices among those that resolved to a disk path.
pub open spec fn spec_file_index(probes: Seq<(u64, u16)>, is_file: Seq<bool>) -> Option<u16> {
    first_most_frequent(resolved_types(probes, is_file))
}

/// The File type index of the snapshot: the type index that occurs most
/// often among this process's probed handles that resolved to a disk path
/// (`is_file[i]` for `probes[i]`).  Only File objects resolve to a disk
/// path, so no other index can outnumber it.
pub fn file_type_index(probes: &Vec<(u64, u16)>, is_file: &Vec<bool>) -> (res: Result<u16, String>)
    requires
        probes@.len() == is_file@.len(),
    ensures
        match spec_file_index(probes@, is_file@) {
            Some(x) => res == Ok::<u16, String>(x),
            None => res is Err,
        },
        match res {
            Ok(x) => resolved_types(probes@, is_file@).contains(x) && forall|y: u16|
                occurrences(resolved_types(probes@, is_file@), y) <= occurrences(
                    resolved_types(probes@, is_file@),
                    x,
                ),
            Err(e) => resolved_types(probes@, is_file@).len() == 0 && e@
                == "无法测定文件句柄类型索引（句柄表快照不完整）"@,
        },
{
    let mut types: Vec<u16> = Vec::new();
    let mut i: usize = 0;
    while i < probes.len()
        invariant
            i <= probes@.len(),
            probes@.len() == is_file@.len(),
            types@ == resolved_types(probes@.take(i as int), is_file@.take(i as int)),
        decreases probes.len() - i,
    {
        assert(probes@.take(i + 1).drop_last() == probes@.take(i as int));
        assert(is_file@.take(i + 1).drop_last() == is_file@.take(i as int));
        if is_file[i] {
            types.push(probes[i].1);
        }
        i = i + 1;
    }
    assert(probes@.take(probes@.len() as int) == probes@);
    assert(is_file@.take(is_file@.len() as int) == is_file@);
    match most_frequent(&types) {
        Some(x) => Ok(x),
        None => {
            proof {
                reveal_strlit("无法测定文件句柄类型索引（句柄表快照不完整）");
            }
            Err("无法测定文件句柄类型索引（句柄表快照不完整）".to_owned())
        },
    }
}

// ---------------------------------------------------------------------------
// Candidates
// ---------------------------------------------------------------------------
/// The File handles of the snapshot that may be resolved: `(pid, handle,
/// granted access)` of every entry of the File type with a non-zero PID
/// (the process id as a 32-bit PID) and some access granted.
pub open spec fn file_candidates(entries: Seq<HandleEntry>, file_index: u16) -> Seq<(u32, u64, u32)>
    decreases entries.len(),
{
    if entries.len() == 0 {
        Seq::empty()
    } else {
        let rest = file_candidates(entries.drop_last(), file_index);
        let e = entries.last();
        let pid = e.process_id as u32;
        if pid != 0 && e.object_type_index == file_index && e.granted_access != 0 {
            rest.push((pid, e.handle, e.granted_access))
        } else {
            rest
        }
    }
}

/// The File handles of the snapshot to resolve, in table order.
pub fn file_handle_candidates(entries: &Vec<HandleEntry>, file_index: u16) -> (cands: Vec<
    (u32, u64, u32),
>)
    ensures
        cands@ == file_candidates(entries@, file_index),
{
    let mut cands: Vec<(u32, u64, u32)> = Vec::new();
    let mut i: usize = 0;
    while i < entries.len()
        invariant
            i <= entries@.len(),
            cands@ == file_candidates(entries@.take(i as int), file_index),
        decreases entries.len() - i,
    {
        let e = entries[i];
        assert(entries@.take(i + 1).drop_last() == entries@.take(i as int));
        let pid = e.process_id as u32;
        if pid != 0 && e.object_type_index == file_index && e.granted_access != 0 {
            cands.push((pid, e.handle, e.granted_access));
        }
        i = i + 1;
    }
    assert(entries@.take(entries@.len() as int) == entries@);
    cands
}

// ---------------------------------------------------------------------------
// What one scan observed
// ---------------------------------------------------------------------------
/// What one scan observed of the system, for the library to decide on:
/// the handle-table snapshot (`None` when the query gave up), this
/// process's PID, for each of its own probed handles (`own_probe_candidates`
/// on the snapshot) whether it resolved to a disk path, and for each File
/// candidate (`file_handle_candidates` with the measured File type index)
/// its resolved DOS path, or `None` when its process could not be opened,
/// the handle could not be duplicated or resolved, or the resolution hung.
pub struct HandleObservations {
    pub snapshot: Option<Vec<u8>>,
    pub own_pid: u64,
    pub probe_is_file: Vec<bool>,
    pub resolved: Vec<Option<String>>,
}

/// Whether the entries announced by the header fit in the buffer.
pub open spec fn table_fits(b: Seq<u8>) -> bool {
    b.len() >= HANDLE_INFO_HEADER_SIZE && HANDLE_INFO_HEADER_SIZE + table_count(b)
        * HANDLE_ENTRY_SIZE <= b.len()
}

/// The entries announced by the header.
pub open spec fn table_entries(b: Seq<u8>) -> Seq<HandleEntry> {
    Seq::new(
        table_count(b),
        |i: int| entry_at(b, HANDLE_INFO_HEADER_SIZE + i * HANDLE_ENTRY_SIZE),
    )
}

impl HandleObservations {
    /// The probe and candidate outcomes line up with the handles that the
    /// snapshot gives to probe and to resolve.
    pub open spec fn aligned(&self) -> bool {
        match self.snapshot {
            Some(b) => table_fits(b@) ==> {
                let probes = own_probes(table_entries(b@), self.own_pid);
                &&& self.probe_is_file@.len() == probes.len()
                &&& match spec_file_index(probes, self.probe_is_file@) {
                    Some(x) => self.resolved@.len() == file_candidates(table_entries(b@), x).len(),
                    None => true,
                }
            },
            None => true,
        }
    }
}

/// The `(pid, path)` of each candidate that resolved, in candidate order.
pub open spec fn resolved_pairs(cands: Seq<(u32, u64, u32)>, res: Seq<Option<String>>) -> Seq<
    (u32, String),
>
    decreases res.len(),
{
    if res.len() == 0 || cands.len() == 0 {
        Seq::empty()
    } else {
        let rest = resolved_pairs(cands.drop_last(), res.drop_last());
        match res.last() {
            Some(p) => rest.push((cands.last().0, p)),
            None => rest,
        }
    }
}

/// What the observations give: the resolved File handles as `(pid, path)`,
/// or why the snapshot cannot be used (the query gave up, the table is too
/// short or changed between the calls, or no File type index could be
/// measured).
pub open spec fn observed_pairs(o: HandleObservations) -> Result<Seq<(u32, String)>, Seq<char>> {
    match o.snapshot {
        None => Err("系统句柄表快照查询失败（重试耗尽）"@),
        Some(b) => if b@.len() < HANDLE_INFO_HEADER_SIZE {
            Err("句柄表快照数据异常（过短）"@)
        } else if HANDLE_INFO_HEADER_SIZE + table_count(b@) * HANDLE_ENTRY_SIZE > b@.len() {
            Err("句柄表在两次调用间变化，快照不一致"@)
        } else {
            let e = table_entries(b@);
            match spec_file_index(own_probes(e, o.own_pid), o.probe_is_file@) {
                None => Err("无法测定文件句柄类型索引（句柄表快照不完整）"@),
                Some(x) => Ok(resolved_pairs(file_candidates(e, x), o.resolved@)),
            }
        },
    }
}

proof fn lemma_candidates_nonzero(e: Seq<HandleEntry>, x: u16)
    ensures
        forall|i: int| 0 <= i < file_candidates(e, x).len() ==> #[trigger] file_candidates(e, x)[i].0 != 0,
    decreases e.len(),
{
    if e.len() > 0 {
        lemma_candidates_nonzero(e.drop_last(), x);
        let rest = file_candidates(e.drop_last(), x);
        let all = file_candidates(e, x);
        assert forall|i: int| 0 <= i < all.len() implies #[trigger] all[i].0 != 0 by {
            if i < rest.len() {
                assert(all[i] == rest[i]);
            }
        }
    }
}

proof fn lemma_pairs_from_candidates(cands: Seq<(u32, u64, u32)>, res: Seq<Option<String>>)
    requires
        forall|i: int| 0 <= i < cands.len() ==> #[trigger] cands[i].0 != 0,
    ensures
        forall|i: int| 0 <= i < resolved_pairs(cands, res).len() ==> #[trigger] resolved_pairs(cands, res)[i].0 != 0,
    decreases res.len(),
{
    if res.len() > 0 && cands.len() > 0 {
        let c = cands.drop_last();
        assert forall|i: int| 0 <= i < c.len() implies #[trigger] c[i].0 != 0 by {
            assert(c[i] == cands[i]);
        }
        lemma_pairs_from_candidates(c, res.drop_last());
        assert(cands.last() == cands[cands.len() - 1]);
        let rest = resolved_pairs(c, res.drop_last());
        let all = resolved_pairs(cands, res);
        assert forall|i: int| 0 <= i < all.len() implies #[trigger] all[i].0 != 0 by {
            if i < rest.len() {
                assert(all[i] == rest[i]);
            }
        }
    }
}

/// A PID that no resolved pair carries holds no hit.
proof fn lemma_hit_paths_absent(resolved: Seq<(u32, String)>, exact: bool, key: Seq<char>, p: u32)
    requires
        forall|i: int| 0 <= i < resolved.len() ==> #[trigger] resolved[i].0 != p,
    ensures
        hit_paths(resolved, exact, key, p).len() == 0,
    decreases resolved.len(),
{
    if resolved.len() > 0 {
        let r = resolved.drop_last();
        assert forall|i: int| 0 <= i < r.len() implies #[trigger] r[i].0 != p by {
            assert(r[i] == resolved[i]);
        }
        lemma_hit_paths_absent(r, exact, key, p);
        assert(resolved.last() == resolved[resolved.len() - 1]);
    }
}

/// The resolved File handles of the observed snapshot, as `(pid, path)`.
fn observed_file_handles(o: &HandleObservations) -> (res: Result<Vec<(u32, String)>, String>)
    requires
        o.aligned(),
    ensures
        match observed_pairs(*o) {
            Ok(p) => res matches Ok(v) && v@ == p,
            Err(m) => res matches Err(e) && e@ == m,
        },
        res matches Ok(v) ==> forall|i: int| 0 <= i < v@.len() ==> #[trigger] v@[i].0 != 0,
{
    let entries = match parse_handle_table(&o.snapshot) {
        Ok(e) => e,
        Err(m) => {
            return Err(m);
        },
    };
    let ghost b = o.snapshot->Some_0@;
    assert(entries@ =~= table_entries(b));
    let probes = own_probe_candidates(&entries, o.own_pid);
    let index = match file_type_index(&probes, &o.probe_is_file) {
        Ok(x) => x,
        Err(m) => {
            return Err(m);
        },
    };
    let cands = file_handle_candidates(&entries, index);
    let mut pairs: Vec<(u32, String)> = Vec::new();
    let mut k: usize = 0;
    while k < cands.len()
        invariant
            k <= cands@.len(),
            cands@.len() == o.resolved@.len(),
            pairs@ == resolved_pairs(cands@.take(k as int), o.resolved@.take(k as int)),
        decreases cands.len() - k,
    {
        assert(cands@.take(k + 1).drop_last() == cands@.take(k as int));
        assert(o.resolved@.take(k + 1).drop_last() == o.resolved@.take(k as int));
        match &o.resolved[k] {
            Some(p) => {
                pairs.push((cands[k].0, p.clone()));
            },
            None => {},
        }
        k = k + 1;
    }
    assert(cands@.take(cands@.len() as int) == cands@);
    assert(o.resolved@.take(cands@.len() as int) == o.resolved@);
    proof {
        lemma_candidates_nonzero(entries@, index);
        lemma_pairs_from_candidates(cands@, o.resolved@);
    }
    Ok(pairs)
}

// ---------------------------------------------------------------------------
// Matching resolved paths
// ---------------------------------------------------------------------------
/// Comparable form of a path (see `spec_normalize_path_string`): `/` as
/// `\`, the device prefix removed (UNC restored to `\\server\share`), `.`
/// and `..` resolved, lowercased.
pub open spec fn spec_normalize_path(path: Seq<char>) -> Seq<char> {
    spec_normalize_path_string(path)
}

/// Normalises a path for comparison with resolved handle paths.
pub fn normalize_path(path: &str) -> (res: String)
    ensures
        res@ == spec_normalize_path(path@),
{
    normalize_path_string(path)
}

/// What a resolved path is compared with.
#[derive(Debug, Clone)]
pub enum HitTarget {
    /// The normalised path of a file: the lowercased path must equal it.
    Exact(String),
    /// The normalised path of a folder ending in `\`: the lowercased path
    /// must start with it.
    Under(String),
}

impl HitTarget {
    /// Whether the whole path must match (rather than a prefix).
    pub open spec fn exact(self) -> bool {
        self is Exact
    }

    /// The text compared with.
    pub open spec fn key(self) -> Seq<char> {
        match self {
            HitTarget::Exact(t) => t@,
            HitTarget::Under(p) => p@,
        }
    }
}

/// Whether a resolved path hits: its lowercased form equals `key` (`exact`)
/// or starts with it.
pub open spec fn is_hit(exact: bool, key: Seq<char>, path: Seq<char>) -> bool {
    if exact {
        spec_to_lowercase(path) == key
    } else {
        seq_starts_with(spec_to_lowercase(path), key)
    }
}

fn hits(target: &HitTarget, path: &String) -> (res: bool)
    ensures
        res == is_hit(target.exact(), target.key(), path@),
{
    let lower = to_lowercase(path.as_str());
    match target {
        HitTarget::Exact(t) => lower == *t,
        HitTarget::Under(p) => {
            let l = chars_of(lower.as_str());
            let q = chars_of(p.as_str());
            starts_with_chars(&l, &q)
        },
    }
}

/// The target of a single-file scan.
pub fn file_target(path: &str) -> (t: HitTarget)
    ensures
        t.exact(),
        t.key() == spec_normalize_path(path@),
{
    HitTarget::Exact(normalize_path(path))
}

/// The folder prefix: the normalised folder path ending in `\`.
pub open spec fn spec_dir_prefix(dir: Seq<char>) -> Seq<char> {
    let n = spec_normalize_path(dir);
    if n.len() > 0 && n.last() == '\\' {
        n
    } else {
        n.push('\\')
    }
}

/// The target of a folder scan.
pub fn dir_target(dir: &str) -> (t: HitTarget)
    ensures
        !t.exact(),
        t.key() == spec_dir_prefix(dir@),
{
    let n = normalize_path(dir);
    let mut chars = chars_of(n.as_str());
    if chars.len() == 0 || chars[chars.len() - 1] != '\\' {
        chars.push('\\');
    }
    HitTarget::Under(string_of(&chars))
}

/// The paths resolved for `pid` that hit the target, in resolution order.
pub open spec fn hit_paths(
    resolved: Seq<(u32, String)>,
    exact: bool,
    key: Seq<char>,
    pid: u32,
) -> Seq<Seq<char>>
    decreases resolved.len(),
{
    if resolved.len() == 0 {
        Seq::empty()
    } else {
        let rest = hit_paths(resolved.drop_last(), exact, key, pid);
        let r = resolved.last();
        if r.0 == pid && is_hit(exact, key, r.1@) {
            rest.push(r.1@)
        } else {
            rest
        }
    }
}

/// `groups` gathers, once per process, every resolved path that hits the
/// target: a process is listed exactly when it holds a hit, with its hits
/// in resolution order.
pub open spec fn groups_hits(
    groups: Seq<(u32, Vec<String>)>,
    resolved: Seq<(u32, String)>,
    exact: bool,
    key: Seq<char>,
) -> bool {
    &&& groups_distinct(groups)
    &&& forall|p: u32| #[trigger]
        group_pids(groups).contains(p) <==> hit_paths(resolved, exact, key, p).len() > 0
    &&& forall|i: int|
        0 <= i < groups.len() ==> paths_view((#[trigger] groups[i]).1@) == hit_paths(
            resolved,
            exact,
            key,
            groups[i].0,
        )
}

fn find_group(groups: &Vec<(u32, Vec<String>)>, pid: u32) -> (res: Option<usize>)
    ensures
        match res {
            Some(i) => i < groups@.len() && groups@[i as int].0 == pid,
            None => !group_pids(groups@).contains(pid),
        },
{
    let mut i: usize = 0;
    while i < groups.len()
        invariant
            i <= groups@.len(),
            forall|k: int| 0 <= k < i ==> groups@[k].0 != pid,
        decreases groups.len() - i,
    {
        if groups[i].0 == pid {
            return Some(i);
        }
        i = i + 1;
    }
    proof {
        if group_pids(groups@).contains(pid) {
            let k = choose|k: int| 0 <= k < groups@.len() && group_pids(groups@)[k] == pid;
            assert(groups@[k].0 == pid);
        }
    }
    None
}

/// Gathers the resolved handle paths that hit the target, per process.
fn group_hits(target: &HitTarget, resolved: &Vec<(u32, String)>) -> (groups: Vec<
    (u32, Vec<String>),
>)
    ensures
        groups_hits(groups@, resolved@, target.exact(), target.key()),
{
    let mut groups: Vec<(u32, Vec<String>)> = Vec::new();
    let mut i: usize = 0;
    while i < resolved.len()
        invariant
            i <= resolved@.len(),
            groups_hits(groups@, resolved@.take(i as int), target.exact(), target.key()),
        decreases resolved.len() - i,
    {
        let ghost pre = resolved@.take(i as int);
        let ghost old_groups = groups@;
        assert(resolved@.take(i + 1).drop_last() == pre);
        assert(resolved@.take(i + 1).last() == resolved@[i as int]);
        let pid = resolved[i].0;
        if hits(target, &resolved[i].1) {
            let path = resolved[i].1.clone();
            match find_group(&groups, pid) {
                Some(g) => {
                    let mut entry = groups.remove(g);
                    entry.1.push(path);
                    groups.insert(g, entry);
                    proof {
                        assert forall|a: int, b: int|
                            0 <= a < b < groups@.len() implies groups@[a].0 != groups@[b].0 by {
                            assert(old_groups[a].0 != old_groups[b].0);
                        }
                        assert(group_pids(groups@) =~= group_pids(old_groups));
                        assert forall|k: int| 0 <= k < groups@.len() implies paths_view(
                            (#[trigger] groups@[k]).1@,
                        ) == hit_paths(resolved@.take(i + 1), target.exact(), target.key(), groups@[k].0) by {
                            if k == g {
                                assert(paths_view(groups@[k].1@) =~= paths_view(
                                    old_groups[k].1@,
                                ).push(resolved@[i as int].1@));
                            } else {
                                assert(groups@[k] == old_groups[k]);
                                assert(old_groups[k].0 != pid) by {
                                    if k < g {
                                        assert(old_groups[k].0 != old_groups[g as int].0);
                                    } else {
                                        assert(old_groups[g as int].0 != old_groups[k].0);
                                    }
                                }
                            }
                        }
                        assert forall|p: u32| #[trigger] group_pids(groups@).contains(p)
                            <==> hit_paths(resolved@.take(i + 1), target.exact(), target.key(), p).len() > 0 by {
                            if p == pid {
                                assert(group_pids(groups@)[g as int] == pid);
                                assert(hit_paths(resolved@.take(i + 1), target.exact(), target.key(), p)
                                    == hit_paths(pre, target.exact(), target.key(), p).push(resolved@[i as int].1@));
                            } else {
                                assert(hit_paths(resolved@.take(i + 1), target.exact(), target.key(), p)
                                    == hit_paths(pre, target.exact(), target.key(), p));
                            }
                        }
                    }
                },
                None => {
                    let mut paths: Vec<String> = Vec::new();
                    paths.push(path);
                    groups.push((pid, paths));
                    proof {
                        assert(group_pids(groups@) =~= group_pids(old_groups).push(pid));
                        assert forall|a: int, b: int|
                            0 <= a < b < groups@.len() implies groups@[a].0 != groups@[b].0 by {
                            if b == old_groups.len() {
                                assert(group_pids(old_groups)[a] == old_groups[a].0);
                            } else {
                                assert(old_groups[a].0 != old_groups[b].0);
                            }
                        }
                        assert(hit_paths(pre, target.exact(), target.key(), pid).len() == 0);
                        assert forall|k: int| 0 <= k < groups@.len() implies paths_view(
                            (#[trigger] groups@[k]).1@,
                        ) == hit_paths(resolved@.take(i + 1), target.exact(), target.key(), groups@[k].0) by {
                            if k == old_groups.len() {
                                assert(paths_view(groups@[k].1@) =~= seq![resolved@[i as int].1@]);
                                assert(hit_paths(pre, target.exact(), target.key(), pid) =~= Seq::<Seq<char>>::empty());
                            } else {
                                assert(groups@[k] == old_groups[k]);
                                assert(group_pids(old_groups)[k] == old_groups[k].0);
                                assert(old_groups[k].0 != pid);
                            }
                        }
                        assert forall|p: u32| #[trigger] group_pids(groups@).contains(p)
                            <==> hit_paths(resolved@.take(i + 1), target.exact(), target.key(), p).len() > 0 by {
                            if p == pid {
                                assert(group_pids(groups@)[old_groups.len() as int] == pid);
                                assert(hit_paths(resolved@.take(i + 1), target.exact(), target.key(), p)
                                    == hit_paths(pre, target.exact(), target.key(), p).push(resolved@[i as int].1@));
                            } else {
                                assert(hit_paths(resolved@.take(i + 1), target.exact(), target.key(), p)
                                    == hit_paths(pre, target.exact(), target.key(), p));
                                if group_pids(groups@).contains(p) {
                                    let k = choose|k: int|
                                        0 <= k < groups@.len() && group_pids(groups@)[k] == p;
                                    assert(group_pids(old_groups)[k] == p);
                                }
                                if group_pids(old_groups).contains(p) {
                                    let k = choose|k: int|
                                        0 <= k < old_groups.len() && group_pids(old_groups)[k] == p;
                                    assert(group_pids(groups@)[k] == p);
                                }
                            }
                        }
                    }
                },
            }
        } else {
            proof {
                assert forall|p: u32|
                    hit_paths(resolved@.take(i + 1), target.exact(), target.key(), p) == hit_paths(pre, target.exact(), target.key(), p) by {}
            }
        }
        i = i + 1;
    }
    assert(resolved@.take(resolved@.len() as int) == resolved@);
    groups
}

// ---------------------------------------------------------------------------
// Scans
// ---------------------------------------------------------------------------
/// Gathers, per process, the resolved paths of one observed snapshot that
/// hit the target.  An engine failure (the snapshot query, a malformed or
/// changing table, no measurable File type) is an error, never an empty
/// result; a handle whose process or resolution failed is skipped.
pub fn collect_handle_paths_if(target: &HitTarget, obs: &HandleObservations) -> (res: Result<
    Vec<(u32, Vec<String>)>,
    String,
>)
    requires
        obs.aligned(),
    ensures
        match observed_pairs(*obs) {
            Err(m) => res matches Err(e) && e@ == m,
            Ok(pairs) => res matches Ok(groups) && groups_hits(
                groups@,
                pairs,
                target.exact(),
                target.key(),
            ) && groups_nonempty(groups@),
        },
{
    let resolved = match observed_file_handles(obs) {
        Ok(r) => r,
        Err(e) => {
            return Err(e);
        },
    };
    let groups = group_hits(target, &resolved);
    proof {
        assert forall|i: int| 0 <= i < groups@.len() implies (#[trigger] groups@[i]).0 != 0
            && groups@[i].1@.len() > 0 by {
            let p = groups@[i].0;
            assert(group_pids(groups@)[i] == p);
            assert(group_pids(groups@).contains(p));
            if p == 0 {
                lemma_hit_paths_absent(resolved@, target.exact(), target.key(), 0);
            }
            assert(paths_view(groups@[i].1@).len() == groups@[i].1@.len());
        }
    }
    Ok(groups)
}

/// The processes holding `path` in one observed snapshot, each listed once
/// (never PID 0); an engine failure is an error.
pub fn scan(path: &str, obs: &HandleObservations) -> (res: Result<Vec<u32>, String>)
    requires
        obs.aligned(),
    ensures
        match observed_pairs(*obs) {
            Err(m) => res matches Err(e) && e@ == m,
            Ok(pairs) => res matches Ok(pids) && pids@.no_duplicates() && !pids@.contains(0u32)
                && forall|p: u32|
                #[trigger] pids@.contains(p) <==> hit_paths(
                    pairs,
                    true,
                    spec_normalize_path(path@),
                    p,
                ).len() > 0,
        },
{
    let target = file_target(path);
    let groups = match collect_handle_paths_if(&target, obs) {
        Ok(g) => g,
        Err(e) => {
            return Err(e);
        },
    };
    let mut pids: Vec<u32> = Vec::new();
    let mut i: usize = 0;
    while i < groups.len()
        invariant
            i <= groups@.len(),
            pids@ == group_pids(groups@.take(i as int)),
        decreases groups.len() - i,
    {
        pids.push(groups[i].0);
        assert(groups@.take(i + 1) == groups@.take(i as int).push(groups@[i as int]));
        i = i + 1;
    }
    proof {
        assert(groups@.take(groups@.len() as int) == groups@);
        assert forall|a: int, b: int|
            0 <= a < pids@.len() && 0 <= b < pids@.len() && a != b implies pids@[a]
            != pids@[b] by {
            if a < b {
                assert(groups@[a].0 != groups@[b].0);
            } else {
                assert(groups@[b].0 != groups@[a].0);
            }
        }
        if pids@.contains(0u32) {
            let k = choose|k: int| 0 <= k < pids@.len() && pids@[k] == 0u32;
            assert(groups@[k].0 != 0);
        }
    }
    Ok(pids)
}

/// Folder-mode scan: the processes holding any path under `dir` in one
/// observed snapshot, each with the paths it holds (never PID 0, never an
/// empty list); an engine failure is an error.
pub fn scan_directory(dir: &str, obs: &HandleObservations) -> (res: Result<
    Vec<(u32, Vec<String>)>,
    String,
>)
    requires
        obs.aligned(),
    ensures
        match observed_pairs(*obs) {
            Err(m) => res matches Err(e) && e@ == m,
            Ok(pairs) => res matches Ok(groups) && groups_hits(
                groups@,
                pairs,
                false,
                spec_dir_prefix(dir@),
            ) && groups_nonempty(groups@),
        },
{
    let target = dir_target(dir);
    collect_handle_paths_if(&target, obs)
}

/// Benchmark entry: the processes holding `path`, or none when the engine
/// failed.
pub fn bench_scan(path: &str, obs: &HandleObservations) -> (pids: Vec<u32>)
    requires
        obs.aligned(),
    ensures
        match observed_pairs(*obs) {
            Err(_) => pids@.len() == 0,
            Ok(pairs) => pids@.no_duplicates() && !pids@.contains(0u32) && forall|p: u32|
                #[trigger] pids@.contains(p) <==> hit_paths(
                    pairs,
                    true,
                    spec_normalize_path(path@),
                    p,
                ).len() > 0,
        },
{
    match scan(path, obs) {
        Ok(pids) => pids,
        Err(_) => Vec::new(),
    }
}

/// Every path gathered for a process hits the target.
pub proof fn lemma_hit_paths_hit(resolved: Seq<(u32, String)>, exact: bool, key: Seq<char>, pid: u32)
    ensures
        forall|i: int|
            0 <= i < hit_paths(resolved, exact, key, pid).len() ==> is_hit(
                exact,
                key,
                #[trigger] hit_paths(resolved, exact, key, pid)[i],
            ),
    decreases resolved.len(),
{
    if resolved.len() > 0 {
        lemma_hit_paths_hit(resolved.drop_last(), exact, key, pid);
        let rest = hit_paths(resolved.drop_last(), exact, key, pid);
        let all = hit_paths(resolved, exact, key, pid);
        assert forall|i: int| 0 <= i < all.len() implies is_hit(exact, key, #[trigger] all[i]) by {
            if i < rest.len() {
                assert(all[i] == rest[i]);
            }
        }
    }
}

/// On one snapshot, a file scan and a folder scan of a folder holding the
/// file agree: a process holds the file exactly when one of the paths the
/// folder scan gathers for it is the file (after lowercasing).
pub proof fn lemma_file_scan_within_folder_scan(
    resolved: Seq<(u32, String)>,
    file: Seq<char>,
    dir: Seq<char>,
    pid: u32,
)
    requires
        seq_starts_with(spec_normalize_path(file), spec_dir_prefix(dir)),
    ensures
        hit_paths(resolved, true, spec_normalize_path(file), pid).len() > 0 <==> exists|i: int|
            0 <= i < hit_paths(resolved, false, spec_dir_prefix(dir), pid).len()
                && spec_to_lowercase(
                #[trigger] hit_paths(resolved, false, spec_dir_prefix(dir), pid)[i],
            ) == spec_normalize_path(file),
    decreases resolved.len(),
{
    let key = spec_normalize_path(file);
    let pre = spec_dir_prefix(dir);
    if resolved.len() > 0 {
        let r = resolved.last();
        let rs = resolved.drop_last();
        lemma_file_scan_within_folder_scan(rs, file, dir, pid);
        let rest = hit_paths(rs, false, pre, pid);
        let all = hit_paths(resolved, false, pre, pid);
        let ex_rest = hit_paths(rs, true, key, pid);
        let ex_all = hit_paths(resolved, true, key, pid);
        let last_hits = r.0 == pid && is_hit(false, pre, r.1@);
        if last_hits {
            assert(all == rest.push(r.1@));
        } else {
            assert(all == rest);
        }
        if r.0 == pid && is_hit(true, key, r.1@) {
            assert(ex_all == ex_rest.push(r.1@));
            assert(is_hit(false, pre, r.1@));
            assert(spec_to_lowercase(all[rest.len() as int]) == key);
        } else {
            assert(ex_all == ex_rest);
        }
        if ex_all.len() > 0 && ex_rest.len() > 0 {
            let i = choose|i: int| 0 <= i < rest.len() && spec_to_lowercase(#[trigger] rest[i]) == key;
            assert(all[i] == rest[i]);
        }
        if exists|i: int| 0 <= i < all.len() && spec_to_lowercase(#[trigger] all[i]) == key {
            let i = choose|i: int| 0 <= i < all.len() && spec_to_lowercase(#[trigger] all[i]) == key;
            if i < rest.len() {
                assert(all[i] == rest[i]);
                assert(spec_to_lowercase(rest[i]) == key);
            } else {
                assert(all[i] == r.1@);
                assert(is_hit(true, key, r.1@));
            }
        }
    }
}

} // verus!
