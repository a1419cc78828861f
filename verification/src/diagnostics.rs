//! Self-test: turns what was observed about the machine into the checklist
//! shown to the user (`ok`, `warn` or `fail` per item).
use vstd::prelude::*;

use crate::text::{
    chars_of, matches_at, occurs_at, push_decimal, push_hex, push_str, push_zero_padded,
    seq_contains, spec_decimal, spec_hex_u64, spec_trim, string_of, trim_chars, zero_padded,
};

verus! {

/// One line of the self-test.
#[derive(Debug)]
pub struct DiagItem {
    pub name: String,
    /// `ok`, `warn` or `fail`.
    pub status: String,
    pub detail: String,
}

/// `item` has the given name, status and detail.
pub open spec fn is_item(item: DiagItem, name: Seq<char>, status: Seq<char>, detail: Seq<char>) -> bool {
    item.name@ == name && item.status@ == status && item.detail@ == detail
}

pub fn ok(name: &str, detail: String) -> (item: DiagItem)
    ensures
        is_item(item, name@, "ok"@, detail@),
{
    DiagItem { name: name.to_owned(), status: "ok".to_owned(), detail }
}

pub fn warn(name: &str, detail: String) -> (item: DiagItem)
    ensures
        is_item(item, name@, "warn"@, detail@),
{
    DiagItem { name: name.to_owned(), status: "warn".to_owned(), detail }
}

pub fn fail(name: &str, detail: String) -> (item: DiagItem)
    ensures
        is_item(item, name@, "fail"@, detail@),
{
    DiagItem { name: name.to_owned(), status: "fail".to_owned(), detail }
}

fn text(s: &str) -> (res: String)
    ensures
        res@ == s@,
{
    s.to_owned()
}

fn prefixed(prefix: &str, s: &str) -> (res: String)
    ensures
        res@ == prefix@ + s@,
{
    let mut v = chars_of(prefix);
    push_str(&mut v, s);
    string_of(&v)
}

/// 1. Administrator rights, needed to end system processes and to scan
/// every handle.
pub fn check_admin(is_admin: bool) -> (item: DiagItem)
    ensures
        if is_admin {
            is_item(item, "管理员权限"@, "ok"@, "已以管理员身份运行"@)
        } else {
            is_item(item, "管理员权限"@, "fail"@, "未提权：结束系统进程与完整句柄扫描将受限"@)
        },
{
    if is_admin {
        ok("管理员权限", text("已以管理员身份运行"))
    } else {
        fail("管理员权限", text("未提权：结束系统进程与完整句柄扫描将受限"))
    }
}

/// How the check of the debug privilege went.
#[derive(Debug)]
pub enum PrivilegeProbe {
    /// The process token could not be opened.
    TokenUnavailable,
    /// The privilege name could not be looked up.
    LookupFailed,
    /// The check ran; whether the privilege is enabled.
    Checked(bool),
    /// The check itself failed, with the system's message.
    CheckFailed(String),
}

/// The self-test line for the debug privilege.
pub open spec fn debug_privilege_item(item: DiagItem, probe: PrivilegeProbe) -> bool {
    let name = "调试特权 (SeDebug)"@;
    match probe {
        PrivilegeProbe::TokenUnavailable => is_item(item, name, "warn"@, "无法打开进程令牌，跳过检查"@),
        PrivilegeProbe::LookupFailed => is_item(item, name, "warn"@, "无法解析特权名"@),
        PrivilegeProbe::Checked(true) => is_item(item, name, "ok"@, "已启用"@),
        PrivilegeProbe::Checked(false) => is_item(
            item,
            name,
            "warn"@,
            "未启用（管理员账户默认禁用，扫描时会自动尝试开启）"@,
        ),
        PrivilegeProbe::CheckFailed(e) => is_item(item, name, "warn"@, "检查失败："@ + e@),
    }
}

/// 2. The debug privilege (SeDebugPrivilege), needed to read the handles of
/// SYSTEM processes.
pub fn check_debug_privilege(probe: &PrivilegeProbe) -> (item: DiagItem)
    ensures
        debug_privilege_item(item, *probe),
{
    let name = "调试特权 (SeDebug)";
    match probe {
        PrivilegeProbe::TokenUnavailable => warn(name, text("无法打开进程令牌，跳过检查")),
        PrivilegeProbe::LookupFailed => warn(name, text("无法解析特权名")),
        PrivilegeProbe::Checked(enabled) => {
            if *enabled {
                ok(name, text("已启用"))
            } else {
                warn(name, text("未启用（管理员账户默认禁用，扫描时会自动尝试开启）"))
            }
        },
        PrivilegeProbe::CheckFailed(e) => warn(name, prefixed("检查失败：", e.as_str())),
    }
}

/// How the Restart Manager probe went (a file opened exclusively by this
/// process, then queried).
#[derive(Debug)]
pub enum RmProbe {
    /// The probe file could not be created, with the system's message.
    ProbeFileFailed(String),
    SessionFailed,
    RegisterFailed,
    /// `RmGetList` returned `code`, having listed `count` processes.
    Listed(u32, u32),
}

/// The self-test line for the Restart Manager.
pub open spec fn restart_manager_item(item: DiagItem, probe: RmProbe) -> bool {
    let name = "Restart Manager"@;
    match probe {
        RmProbe::ProbeFileFailed(e) => is_item(item, name, "warn"@, "探针文件创建失败："@ + e@),
        RmProbe::SessionFailed => is_item(item, name, "fail"@, "RmStartSession 失败：服务不可用"@),
        RmProbe::RegisterFailed => is_item(item, name, "fail"@, "RmRegisterResources 失败"@),
        RmProbe::Listed(code, count) => if code == 0 {
            is_item(item, name, "ok"@, "正常（检出 "@ + spec_decimal(count as nat) + " 个占用进程）"@)
        } else if code == 234 {
            is_item(item, name, "ok"@, "正常（占用数超过探测缓冲）"@)
        } else {
            is_item(
                item,
                name,
                "warn"@,
                "查询异常（错误码 "@ + spec_decimal(code as nat)
                    + "），本机 RM 服务受限；句柄扫描引擎独立兜底，不影响使用"@,
            )
        },
    }
}

/// 3. The Restart Manager.  It may be unavailable on some machines; that
/// only degrades detection.
pub fn check_restart_manager(probe: &RmProbe) -> (item: DiagItem)
    ensures
        restart_manager_item(item, *probe),
{
    let name = "Restart Manager";
    match probe {
        RmProbe::ProbeFileFailed(e) => warn(name, prefixed("探针文件创建失败：", e.as_str())),
        RmProbe::SessionFailed => fail(name, text("RmStartSession 失败：服务不可用")),
        RmProbe::RegisterFailed => fail(name, text("RmRegisterResources 失败")),
        RmProbe::Listed(code, count) => {
            if *code == 0 {
                let mut v = chars_of("正常（检出 ");
                push_decimal(&mut v, *count as u64);
                push_str(&mut v, " 个占用进程）");
                proof {
                    reveal_strlit("正常（检出 ");
                    reveal_strlit(" 个占用进程）");
                }
                ok(name, string_of(&v))
            } else if *code == 234 {
                ok(name, text("正常（占用数超过探测缓冲）"))
            } else {
                let mut v = chars_of("查询异常（错误码 ");
                push_decimal(&mut v, *code as u64);
                push_str(&mut v, "），本机 RM 服务受限；句柄扫描引擎独立兜底，不影响使用");
                proof {
                    reveal_strlit("查询异常（错误码 ");
                    reveal_strlit("），本机 RM 服务受限；句柄扫描引擎独立兜底，不影响使用");
                }
                warn(name, string_of(&v))
            }
        },
    }
}

/// How the handle-scan probe went: a file opened exclusively by this
/// process (`my_pid`), then scanned for.
#[derive(Debug)]
pub enum ScanProbe {
    ProbeFileFailed(String),
    Scanned(Result<Vec<u32>, String>, u32),
}

/// The self-test line for the handle scan: it works when it finds this
/// process holding the probe file.
pub open spec fn handle_scan_item(item: DiagItem, probe: ScanProbe) -> bool {
    let name = "句柄扫描引擎"@;
    match probe {
        ScanProbe::ProbeFileFailed(e) => is_item(item, name, "fail"@, "探针文件创建失败："@ + e@),
        ScanProbe::Scanned(pids, my_pid) => if pids matches Ok(p) && p@.contains(my_pid) {
            is_item(item, name, "ok"@, "正常（成功检出本进程占用的探针文件）"@)
        } else {
            is_item(item, name, "fail"@, "未能检出本进程的句柄——检测功能可能失效（可尝试以管理员运行）"@)
        },
    }
}

/// The handle-scan self-test passes only when the scan found the probing
/// process itself holding the probe file: a failed scan, or one whose list
/// lacks the probing process's PID, fails, and so does a probe file that
/// could not be created.
pub proof fn lemma_handle_scan_ok_only_when_found(probe: ScanProbe)
    ensures
        forall|item: DiagItem|
            #[trigger] handle_scan_item(item, probe) ==> {
                &&& probe is Scanned ==> (item.status@ == "ok"@ <==> (probe->Scanned_0 is Ok
                    && probe->Scanned_0->Ok_0@.contains(probe->Scanned_1)))
                &&& probe is ProbeFileFailed ==> item.status@ == "fail"@
                &&& item.status@ == "ok"@ || item.status@ == "fail"@
            },
{
    reveal_strlit("ok");
    reveal_strlit("fail");
    assert("ok"@ != "fail"@) by {
        assert("ok"@[0] != "fail"@[0]);
    }
}

fn contains_pid(pids: &Vec<u32>, pid: u32) -> (res: bool)
    ensures
        res == pids@.contains(pid),
{
    let mut i: usize = 0;
    while i < pids.len()
        invariant
            i <= pids@.len(),
            forall|k: int| 0 <= k < i ==> pids@[k] != pid,
        decreases pids.len() - i,
    {
        if pids[i] == pid {
            return true;
        }
        i = i + 1;
    }
    false
}

/// 4. The handle scan, the detection engine that must work.
pub fn check_handle_scan(probe: &ScanProbe) -> (item: DiagItem)
    ensures
        handle_scan_item(item, *probe),
        (*probe) is Scanned ==> (item.status@ == "ok"@ <==> ((*probe)->Scanned_0 is Ok
            && (*probe)->Scanned_0->Ok_0@.contains((*probe)->Scanned_1))),
        (*probe) is ProbeFileFailed ==> item.status@ == "fail"@,
{
    let name = "句柄扫描引擎";
    let item = match probe {
        ScanProbe::ProbeFileFailed(e) => fail(name, prefixed("探针文件创建失败：", e.as_str())),
        ScanProbe::Scanned(pids, my_pid) => {
            let found = match pids {
                Ok(p) => contains_pid(p, *my_pid),
                Err(_) => false,
            };
            if found {
                ok(name, text("正常（成功检出本进程占用的探针文件）"))
            } else {
                fail(name, text("未能检出本进程的句柄——检测功能可能失效（可尝试以管理员运行）"))
            }
        },
    };
    proof {
        assert(handle_scan_item(item, *probe));
        lemma_handle_scan_ok_only_when_found(*probe);
    }
    item
}

/// The self-test line for the context menu, from the registry query:
/// whether the key exists, or why it could not be queried.
pub open spec fn context_menu_item(item: DiagItem, query: Result<bool, String>) -> bool {
    let name = "右键菜单"@;
    match query {
        Ok(true) => is_item(item, name, "ok"@, "已注册"@),
        Ok(false) => is_item(item, name, "warn"@, "未注册（运行 scripts\\register-context-menu.bat 可注册）"@),
        Err(e) => is_item(item, name, "warn"@, "无法查询注册表："@ + e@),
    }
}

/// 5. The Explorer context-menu entry.
pub fn check_context_menu(query: &Result<bool, String>) -> (item: DiagItem)
    ensures
        context_menu_item(item, *query),
{
    let name = "右键菜单";
    match query {
        Ok(registered) => {
            if *registered {
                ok(name, text("已注册"))
            } else {
                warn(name, text("未注册（运行 scripts\\register-context-menu.bat 可注册）"))
            }
        },
        Err(e) => warn(name, prefixed("无法查询注册表：", e.as_str())),
    }
}

/// The self-test line for the log folder: its path when a test file could
/// be written there, or the write error.
pub open spec fn log_item(item: DiagItem, result: Result<String, String>) -> bool {
    let name = "日志写入"@;
    match result {
        Ok(dir) => is_item(item, name, "ok"@, "可写（日志目录："@ + dir@ + "）"@),
        Err(e) => is_item(item, name, "warn"@, "临时目录写入失败："@ + e@),
    }
}

/// 6. The log folder is writable.
pub fn check_log_writable(result: &Result<String, String>) -> (item: DiagItem)
    ensures
        log_item(item, *result),
{
    let name = "日志写入";
    match result {
        Ok(dir) => {
            let mut v = chars_of("可写（日志目录：");
            push_str(&mut v, dir.as_str());
            push_str(&mut v, "）");
            proof {
                reveal_strlit("可写（日志目录：");
                reveal_strlit("）");
            }
            ok(name, string_of(&v))
        },
        Err(e) => warn(name, prefixed("临时目录写入失败：", e.as_str())),
    }
}

// ---------------------------------------------------------------------------
// Registry query output
// ---------------------------------------------------------------------------
/// Index of the first `\n` of `s` (its length when there is none).
pub open spec fn nl_index(s: Seq<char>) -> int
    decreases s.len(),
{
    if s.len() == 0 || s[0] == '\n' {
        0
    } else {
        1 + nl_index(s.drop_first())
    }
}

pub proof fn lemma_nl_index_bounds(s: Seq<char>)
    ensures
        0 <= nl_index(s) <= s.len(),
    decreases s.len(),
{
    if s.len() > 0 && s[0] != '\n' {
        lemma_nl_index_bounds(s.drop_first());
    }
}

/// A line without the `\r` of a `\r\n` ending.
pub open spec fn strip_cr(line: Seq<char>) -> Seq<char> {
    if line.len() > 0 && line.last() == '\r' {
        line.drop_last()
    } else {
        line
    }
}

/// The first line of `s` (as `str::lines` splits it) that contains `key`.
pub open spec fn first_line_with(s: Seq<char>, key: Seq<char>) -> Option<Seq<char>>
    decreases s.len(),
{
    if s.len() == 0 {
        None
    } else {
        let i = nl_index(s);
        let line = if i < s.len() {
            strip_cr(s.take(i))
        } else {
            s
        };
        if seq_contains(line, key) {
            Some(line)
        } else if i < s.len() {
            proof {
                lemma_nl_index_bounds(s);
            }
            first_line_with(s.skip(i + 1), key)
        } else {
            None
        }
    }
}

/// The text after the last `REG_SZ` of a line (the whole line when there is
/// none), trimmed.
pub open spec fn reg_value_of(line: Seq<char>) -> Seq<char> {
    if exists|i: int| occurs_at(line, "REG_SZ"@, i) {
        let i = choose|i: int|
            occurs_at(line, "REG_SZ"@, i) && forall|j: int| occurs_at(line, "REG_SZ"@, j) ==> j <= i;
        spec_trim(line.skip(i + 6))
    } else {
        spec_trim(line)
    }
}

proof fn lemma_nl_index(s: Seq<char>, i: int)
    requires
        0 <= i <= s.len(),
        forall|j: int| 0 <= j < i ==> s[j] != '\n',
        i == s.len() || s[i] == '\n',
    ensures
        nl_index(s) == i,
    decreases i,
{
    if i > 0 {
        let t = s.drop_first();
        assert forall|j: int| 0 <= j < i - 1 implies t[j] != '\n' by {
            assert(t[j] == s[j + 1]);
        }
        if i - 1 < t.len() {
            assert(t[i - 1] == s[i]);
        }
        lemma_nl_index(t, i - 1);
    }
}

/// The value of `key` in the output of `reg query ... /v key`: the first
/// line that mentions the key, after its `REG_SZ` type tag, trimmed.
pub fn parse_reg_value(output: &str, key: &str) -> (res: Option<String>)
    ensures
        match first_line_with(output@, key@) {
            Some(line) => res matches Some(v) && v@ == reg_value_of(line),
            None => res is None,
        },
{
    let s = chars_of(output);
    let k = chars_of(key);
    let mut pos: usize = 0;
    assert(s@.skip(0) == s@);
    while pos < s.len()
        invariant
            pos <= s@.len(),
            s@ == output@,
            k@ == key@,
            first_line_with(output@, key@) == first_line_with(s@.skip(pos as int), key@),
        decreases s.len() - pos,
    {
        let ghost rest = s@.skip(pos as int);
        let mut end = pos;
        while end < s.len() && s[end] != '\n'
            invariant
                pos <= end <= s@.len(),
                forall|j: int| pos <= j < end ==> s@[j] != '\n',
            decreases s.len() - end,
        {
            end = end + 1;
        }
        proof {
            lemma_nl_index(rest, end - pos);
        }
        let mut line = crate::text::take_chars(&crate::text::skip_chars(&s, pos), end - pos);
        assert(line@ == rest.take(end - pos));
        if end < s.len() && line.len() > 0 && line[line.len() - 1] == '\r' {
            line.pop();
        }
        let ghost expected = if end - pos < rest.len() {
            strip_cr(rest.take(end - pos))
        } else {
            rest
        };
        proof {
            if end - pos >= rest.len() {
                assert(rest.take(end - pos) == rest);
            }
        }
        assert(line@ == expected);
        if crate::text::contains_chars(&line, &k) {
            return Some(reg_value(&line));
        }
        if end == s.len() {
            return None;
        }
        assert(rest.skip(end - pos + 1) == s@.skip(end + 1));
        pos = end + 1;
    }
    None
}

/// The trimmed text after the last `REG_SZ` of `line`.
fn reg_value(line: &Vec<char>) -> (res: String)
    ensures
        res@ == reg_value_of(line@),
{
    let tag = chars_of("REG_SZ");
    proof {
        reveal_strlit("REG_SZ");
    }
    let n = line.len();
    if n >= 6 {
        let mut i: usize = n - 6 + 1;
        while i > 0
            invariant
                n == line@.len(),
                line@.len() >= 6,
                i <= line@.len() - 6 + 1,
                tag@ == "REG_SZ"@,
                forall|j: int| i <= j ==> !occurs_at(line@, tag@, j),
            decreases i,
        {
            if matches_at(line, &tag, i - 1) {
                let start = i + 5;
                let after = crate::text::skip_chars(line, start);
                let t = trim_chars(&after);
                proof {
                    assert(occurs_at(line@, "REG_SZ"@, i - 1));
                    let c = choose|c: int|
                        occurs_at(line@, "REG_SZ"@, c) && forall|j: int|
                            occurs_at(line@, "REG_SZ"@, j) ==> j <= c;
                    assert(c == i - 1) by {
                        if c > i - 1 {
                            assert(!occurs_at(line@, tag@, c));
                        } else if c < i - 1 {
                        }
                    }
                }
                return string_of(&t);
            }
            i = i - 1;
        }
    }
    proof {
        assert forall|j: int| !occurs_at(line@, "REG_SZ"@, j) by {
            if line@.len() >= 6 && j < 0 {
            }
        }
    }
    let t = trim_chars(line);
    string_of(&t)
}

/// The self-test line for the Windows version, from the raw output of the
/// two registry queries (`None` when a query failed).
pub open spec fn os_version_item(item: DiagItem, product: Option<String>, build: Option<String>) -> bool {
    let name = "系统版本"@;
    let p = match product {
        Some(out) => first_line_with(out@, "ProductName"@),
        None => None,
    };
    let b = match build {
        Some(out) => first_line_with(out@, "CurrentBuildNumber"@),
        None => None,
    };
    match (p, b) {
        (Some(pl), Some(bl)) => is_item(
            item,
            name,
            "ok"@,
            reg_value_of(pl) + " (Build "@ + reg_value_of(bl) + ")"@,
        ),
        _ => is_item(item, name, "warn"@, "无法读取注册表版本信息"@),
    }
}

/// 7. The Windows version, read from the registry.
pub fn check_os_version(product: &Option<String>, build: &Option<String>) -> (item: DiagItem)
    ensures
        os_version_item(item, *product, *build),
{
    let name = "系统版本";
    let p = match product {
        Some(out) => parse_reg_value(out.as_str(), "ProductName"),
        None => None,
    };
    let b = match build {
        Some(out) => parse_reg_value(out.as_str(), "CurrentBuildNumber"),
        None => None,
    };
    match (p, b) {
        (Some(pv), Some(bv)) => {
            let mut v = chars_of(pv.as_str());
            push_str(&mut v, " (Build ");
            push_str(&mut v, bv.as_str());
            push_str(&mut v, ")");
            proof {
                reveal_strlit(" (Build ");
                reveal_strlit(")");
            }
            ok(name, string_of(&v))
        },
        _ => warn(name, text("无法读取注册表版本信息")),
    }
}

/// Everything the self-test observed about the machine.
#[derive(Debug)]
pub struct DiagFacts {
    pub is_admin: bool,
    pub debug_privilege: PrivilegeProbe,
    pub restart_manager: RmProbe,
    pub handle_scan: ScanProbe,
    pub context_menu: Result<bool, String>,
    pub log_dir: Result<String, String>,
    pub product_name: Option<String>,
    pub build_number: Option<String>,
}

/// The self-test checklist, in order: administrator rights, debug
/// privilege, Restart Manager, handle scan, context menu, log folder,
/// Windows version.
pub fn run_diagnostics(facts: &DiagFacts) -> (items: Vec<DiagItem>)
    ensures
        items@.len() == 7,
        if facts.is_admin {
            is_item(items@[0], "管理员权限"@, "ok"@, "已以管理员身份运行"@)
        } else {
            is_item(items@[0], "管理员权限"@, "fail"@, "未提权：结束系统进程与完整句柄扫描将受限"@)
        },
        debug_privilege_item(items@[1], facts.debug_privilege),
        restart_manager_item(items@[2], facts.restart_manager),
        handle_scan_item(items@[3], facts.handle_scan),
        context_menu_item(items@[4], facts.context_menu),
        log_item(items@[5], facts.log_dir),
        os_version_item(items@[6], facts.product_name, facts.build_number),
        facts.handle_scan is Scanned ==> (items@[3].status@ == "ok"@ <==> (
        facts.handle_scan->Scanned_0 is Ok && facts.handle_scan->Scanned_0->Ok_0@.contains(
            facts.handle_scan->Scanned_1,
        ))),
{
    proof {
        lemma_handle_scan_ok_only_when_found(facts.handle_scan);
    }
    let mut items: Vec<DiagItem> = Vec::new();
    items.push(check_admin(facts.is_admin));
    items.push(check_debug_privilege(&facts.debug_privilege));
    items.push(check_restart_manager(&facts.restart_manager));
    items.push(check_handle_scan(&facts.handle_scan));
    items.push(check_context_menu(&facts.context_menu));
    items.push(check_log_writable(&facts.log_dir));
    items.push(check_os_version(&facts.product_name, &facts.build_number));
    items
}


/// The file name of a self-test probe: prefix, process id, a time value, a
/// sequence number and the attempt, so that every probe gets a new name.
pub open spec fn spec_probe_file_name(prefix: Seq<char>, pid: u32, elapsed: u64, seq: u64, attempt: u8) -> Seq<char> {
    prefix + "_"@ + spec_decimal(pid as nat) + "_"@ + zero_padded(spec_hex_u64(elapsed as nat), 16)
        + "_"@ + zero_padded(spec_hex_u64(seq as nat), 16) + "_"@ + zero_padded(
        spec_hex_u64(attempt as nat),
        2,
    ) + ".tmp"@
}

/// Names a self-test probe file (`<prefix>_<pid>_<time>_<seq>_<attempt>.tmp`,
/// the last three in zero-padded hexadecimal).
pub fn probe_file_name(prefix: &str, pid: u32, elapsed: u64, seq: u64, attempt: u8) -> (res: String)
    ensures
        res@ == spec_probe_file_name(prefix@, pid, elapsed, seq, attempt),
{
    let mut v = chars_of(prefix);
    v.push('_');
    push_decimal(&mut v, pid as u64);
    v.push('_');
    let mut h: Vec<char> = Vec::new();
    push_hex(&mut h, elapsed);
    push_zero_padded(&mut v, &h, 16);
    v.push('_');
    let mut h2: Vec<char> = Vec::new();
    push_hex(&mut h2, seq);
    push_zero_padded(&mut v, &h2, 16);
    v.push('_');
    let mut h3: Vec<char> = Vec::new();
    push_hex(&mut h3, attempt as u64);
    push_zero_padded(&mut v, &h3, 2);
    push_str(&mut v, ".tmp");
    proof {
        reveal_strlit("_");
        reveal_strlit(".tmp");
    }
    string_of(&v)
}

} // verus!
