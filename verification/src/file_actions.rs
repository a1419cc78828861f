//! Rules for deleting a file now or at the next reboot: the path must be
//! usable, and the operating system's own folders are never touched.
//!
//! The protection check compares the path's resolved form (junctions
//! followed, 8.3 short names expanded) after normalisation, so that
//! `C:/Windows/...`, `\\?\C:\Windows\...`, `C:\Progra~1\...` or a junction
//! into a system folder cannot slip past a plain text comparison.
use vstd::prelude::*;

use crate::text::{
    owned,
    chars_of, push_chars, push_str, replace_char, seq_contains, seq_replace_char, seq_starts_with,
    spec_to_lowercase, spec_trim, starts_with_chars, string_of, to_lowercase, trim_chars,
};

use crate::error::{AppError, ErrorCode};

verus! {

/// What the file system says about a path.
#[derive(Debug, Clone, Copy)]
pub struct PathFacts {
    pub is_absolute: bool,
    pub exists: bool,
}

/// What the path check says: a blank path, a relative path and (when it
/// must exist) a missing path are refused, in that order.
pub open spec fn path_check(path: Seq<char>, facts: PathFacts, must_exist: bool) -> Option<Seq<char>> {
    if spec_trim(path).len() == 0 {
        Some("文件路径为空"@)
    } else if !facts.is_absolute {
        Some("需要绝对路径，收到："@ + path)
    } else if must_exist && !facts.exists {
        Some("文件不存在："@ + path)
    } else {
        None
    }
}

/// Checks that `path` is non-blank, absolute and (when `must_exist`)
/// present.  Deleting at reboot accepts a missing path: it may name a file
/// that will be moved there.
pub fn validate_path(path: &str, facts: &PathFacts, must_exist: bool) -> (res: Result<(), String>)
    ensures
        match path_check(path@, *facts, must_exist) {
            Some(msg) => res matches Err(e) && e@ == msg,
            None => res is Ok,
        },
{
    let chars = chars_of(path);
    let trimmed = trim_chars(&chars);
    if trimmed.len() == 0 {
        proof {
            reveal_strlit("文件路径为空");
        }
        return Err("文件路径为空".to_owned());
    }
    if !facts.is_absolute {
        let mut msg = chars_of("需要绝对路径，收到：");
        push_str(&mut msg, path);
        proof {
            reveal_strlit("需要绝对路径，收到：");
        }
        return Err(string_of(&msg));
    }
    if must_exist && !facts.exists {
        let mut msg = chars_of("文件不存在：");
        push_str(&mut msg, path);
        proof {
            reveal_strlit("文件不存在：");
        }
        return Err(string_of(&msg));
    }
    Ok(())
}

/// `s` without its trailing backslashes.
pub open spec fn trim_end_backslashes(s: Seq<char>) -> Seq<char>
    decreases s.len(),
{
    if s.len() > 0 && s.last() == '\\' {
        trim_end_backslashes(s.drop_last())
    } else {
        s
    }
}

fn trim_end_backslashes_of(s: &Vec<char>) -> (res: Vec<char>)
    ensures
        res@ == trim_end_backslashes(s@),
{
    let mut n = s.len();
    assert(s@.take(n as int) == s@);
    while n > 0 && s[n - 1] == '\\'
        invariant
            n <= s@.len(),
            trim_end_backslashes(s@) == trim_end_backslashes(s@.take(n as int)),
        decreases n,
    {
        assert(s@.take(n as int).drop_last() == s@.take(n - 1));
        n = n - 1;
    }
    crate::text::take_chars(s, n)
}

/// Comparable form of a folder path: trimmed, lowercased, `/` turned into
/// `\`, without trailing backslashes.
pub open spec fn folder_key(s: Seq<char>) -> Seq<char> {
    trim_end_backslashes(seq_replace_char(spec_to_lowercase(spec_trim(s)), '/', '\\'))
}

/// The key of a trimmed, lowercased path with `/` turned into `\`: a
/// leading `\\?\` and then a leading `\\.\` removed, without trailing
/// backslashes.
pub open spec fn key_from_lowered(lower: Seq<char>) -> Seq<char> {
    let a = if seq_starts_with(lower, "\\\\?\\"@) {
        lower.skip(4)
    } else {
        lower
    };
    let b = if seq_starts_with(a, "\\\\.\\"@) {
        a.skip(4)
    } else {
        a
    };
    trim_end_backslashes(b)
}

/// Comparable form of a resolved path: trimmed, lowercased, `/` turned
/// into `\`, device prefixes removed, without trailing backslashes.
pub open spec fn location_key(s: Seq<char>) -> Seq<char> {
    key_from_lowered(seq_replace_char(spec_to_lowercase(spec_trim(s)), '/', '\\'))
}

/// A device prefix does not hide a path from the protection check: with
/// `\\?\` or `\\.\` in front, a path has the same key as without.
pub proof fn lemma_device_prefix_keeps_key(l: Seq<char>)
    requires
        !seq_starts_with(l, "\\\\?\\"@),
        !seq_starts_with(l, "\\\\.\\"@),
    ensures
        key_from_lowered("\\\\?\\"@ + l) == key_from_lowered(l),
        key_from_lowered("\\\\.\\"@ + l) == key_from_lowered(l),
{
    reveal_strlit("\\\\?\\");
    reveal_strlit("\\\\.\\");
    let p = "\\\\?\\"@;
    let q = "\\\\.\\"@;
    assert((p + l).subrange(0, 4) =~= p);
    assert((p + l).skip(4) =~= l);
    assert((q + l).subrange(0, 4) =~= q);
    assert((q + l).skip(4) =~= l);
    assert(!seq_starts_with(q + l, p)) by {
        assert((q + l)[2] != p[2]);
    }
}

/// The protected folders: the usual system folders, then the non-empty
/// folders that the environment reports (`SystemRoot`, `ProgramFiles`,
/// `ProgramFiles(x86)`), since Windows need not live on drive C.
pub open spec fn protected_dirs(env_dirs: Seq<String>) -> Seq<Seq<char>> {
    seq!["c:\\windows"@, "c:\\program files"@, "c:\\program files (x86)"@] + env_keys(env_dirs)
}

/// The non-empty comparable forms of the environment's folders, in order.
pub open spec fn env_keys(env_dirs: Seq<String>) -> Seq<Seq<char>>
    decreases env_dirs.len(),
{
    if env_dirs.len() == 0 {
        Seq::empty()
    } else {
        let rest = env_keys(env_dirs.drop_last());
        let k = folder_key(env_dirs.last()@);
        if k.len() > 0 {
            rest.push(k)
        } else {
            rest
        }
    }
}

/// Whether `key` is folder `dir` or lies under it.
pub open spec fn within(key: Seq<char>, dir: Seq<char>) -> bool {
    key == dir || seq_starts_with(key, dir.push('\\'))
}

/// Whether a resolved path lies in a protected folder.
pub open spec fn spec_is_protected(resolved: Seq<char>, env_dirs: Seq<String>) -> bool {
    exists|i: int|
        0 <= i < protected_dirs(env_dirs).len() && within(
            location_key(resolved),
            #[trigger] protected_dirs(env_dirs)[i],
        )
}

fn comparable(s: &str) -> (res: Vec<char>)
    ensures
        res@ == seq_replace_char(spec_to_lowercase(spec_trim(s@)), '/', '\\'),
{
    let chars = chars_of(s);
    let trimmed = trim_chars(&chars);
    let t = string_of(&trimmed);
    let lower = to_lowercase(t.as_str());
    let l = chars_of(lower.as_str());
    replace_char(&l, '/', '\\')
}

fn strip_lead(s: Vec<char>, prefix: &str) -> (res: Vec<char>)
    ensures
        res@ == if seq_starts_with(s@, prefix@) {
            s@.skip(prefix@.len() as int)
        } else {
            s@
        },
{
    let p = chars_of(prefix);
    if starts_with_chars(&s, &p) {
        crate::text::skip_chars(&s, p.len())
    } else {
        s
    }
}

fn within_dir(key: &Vec<char>, dir: &Vec<char>) -> (res: bool)
    ensures
        res == within(key@, dir@),
{
    if crate::text::chars_eq(key, dir) {
        return true;
    }
    let mut d: Vec<char> = Vec::new();
    push_chars(&mut d, dir);
    d.push('\\');
    assert(d@ =~= dir@.push('\\'));
    starts_with_chars(key, &d)
}

/// Whether the resolved form of a path lies in a system folder.
/// `env_dirs` holds the values of `SystemRoot`, `ProgramFiles` and
/// `ProgramFiles(x86)` that are set.
pub fn is_protected_location(resolved: &str, env_dirs: &Vec<String>) -> (res: bool)
    ensures
        res == spec_is_protected(resolved@, env_dirs@),
{
    let lower = comparable(resolved);
    proof {
        reveal_strlit("\\\\?\\");
        reveal_strlit("\\\\.\\");
    }
    let a = strip_lead(lower, "\\\\?\\");
    let b = strip_lead(a, "\\\\.\\");
    let key = trim_end_backslashes_of(&b);
    let mut dirs: Vec<Vec<char>> = Vec::new();
    dirs.push(chars_of("c:\\windows"));
    dirs.push(chars_of("c:\\program files"));
    dirs.push(chars_of("c:\\program files (x86)"));
    let ghost base: Seq<Seq<char>> = seq!["c:\\windows"@, "c:\\program files"@, "c:\\program files (x86)"@];
    let mut i: usize = 0;
    assert(env_dirs@.take(0) =~= Seq::<String>::empty());
    while i < env_dirs.len()
        invariant
            i <= env_dirs@.len(),
            base == seq!["c:\\windows"@, "c:\\program files"@, "c:\\program files (x86)"@],
            dirs@.len() == 3 + env_keys(env_dirs@.take(i as int)).len(),
            forall|k: int|
                0 <= k < dirs@.len() ==> (#[trigger] dirs@[k])@ == (base + env_keys(
                    env_dirs@.take(i as int),
                ))[k],
        decreases env_dirs.len() - i,
    {
        let c = comparable(env_dirs[i].as_str());
        let k = trim_end_backslashes_of(&c);
        let ghost prev = env_keys(env_dirs@.take(i as int));
        let ghost before = dirs@;
        assert(env_dirs@.take(i + 1).drop_last() == env_dirs@.take(i as int));
        assert(env_dirs@.take(i + 1).last() == env_dirs@[i as int]);
        assert(k@ == folder_key(env_dirs@[i as int]@));
        if k.len() > 0 {
            dirs.push(k);
            proof {
                assert(env_keys(env_dirs@.take(i + 1)) == prev.push(k@));
                assert(base + env_keys(env_dirs@.take(i + 1)) =~= (base + prev).push(k@));
                assert forall|q: int| 0 <= q < dirs@.len() implies (#[trigger] dirs@[q])@ == (base
                    + env_keys(env_dirs@.take(i + 1)))[q] by {
                    assert(base.len() == 3);
                    assert((base + prev).len() == before.len());
                    if q < before.len() {
                        assert(dirs@[q] == before[q]);
                        assert((base + prev).push(k@)[q] == (base + prev)[q]);
                    } else {
                        assert(dirs@[q] == k);
                        assert((base + prev).push(k@)[q] == k@);
                    }
                }
            }
        } else {
            proof {
                assert(env_keys(env_dirs@.take(i + 1)) == prev);
            }
        }
        i = i + 1;
    }
    assert(env_dirs@.take(env_dirs@.len() as int) == env_dirs@);
    assert(base + env_keys(env_dirs@) == protected_dirs(env_dirs@));
    let mut j: usize = 0;
    while j < dirs.len()
        invariant
            j <= dirs@.len(),
            dirs@.len() == protected_dirs(env_dirs@).len(),
            forall|k: int| 0 <= k < dirs@.len() ==> (#[trigger] dirs@[k])@ == protected_dirs(env_dirs@)[k],
            key@ == location_key(resolved@),
            forall|k: int| 0 <= k < j ==> !within(key@, #[trigger] protected_dirs(env_dirs@)[k]),
        decreases dirs.len() - j,
    {
        if within_dir(&key, &dirs[j]) {
            assert(within(location_key(resolved@), protected_dirs(env_dirs@)[j as int]));
            return true;
        }
        j = j + 1;
    }
    false
}

/// Deleting now, or scheduling the deletion for the next reboot.
#[derive(Debug, Clone, Copy, PartialEq, Eq, Structural)]
pub enum DeleteMode {
    Now,
    OnReboot,
}

/// What the checks before a deletion say: the path check (the file must
/// exist only for an immediate deletion), then the protection check.
pub open spec fn delete_check(
    mode: DeleteMode,
    path: Seq<char>,
    facts: PathFacts,
    resolved: Seq<char>,
    env_dirs: Seq<String>,
) -> Option<Seq<char>> {
    match path_check(path, facts, mode == DeleteMode::Now) {
        Some(msg) => Some(msg),
        None => if spec_is_protected(resolved, env_dirs) {
            Some(
                if mode == DeleteMode::Now {
                    "拒绝删除："@
                } else {
                    "拒绝计划删除："@
                } + path + " 位于系统受保护目录"@,
            )
        } else {
            None
        },
    }
}

/// A deletion is judged on the resolved form of the path: whatever was
/// typed (an 8.3 short name, a junction), a path whose resolved form lies
/// in a protected folder is refused, and two valid paths with the same
/// resolved form are both refused or both allowed.  The built-in protected
/// folders are `C:\Windows`, `C:\Program Files` and
/// `C:\Program Files (x86)`, with everything below them.
pub proof fn lemma_delete_judged_on_resolved_path(
    mode: DeleteMode,
    path: Seq<char>,
    facts: PathFacts,
    resolved: Seq<char>,
    env_dirs: Seq<String>,
    other_path: Seq<char>,
    other_facts: PathFacts,
)
    ensures
        spec_is_protected(resolved, env_dirs) ==> delete_check(mode, path, facts, resolved, env_dirs)
            is Some,
        path_check(path, facts, mode == DeleteMode::Now) is None ==> (delete_check(
            mode,
            path,
            facts,
            resolved,
            env_dirs,
        ) is None <==> !spec_is_protected(resolved, env_dirs)),
        path_check(path, facts, mode == DeleteMode::Now) is None && path_check(
            other_path,
            other_facts,
            mode == DeleteMode::Now,
        ) is None ==> (delete_check(mode, path, facts, resolved, env_dirs) is None <==> delete_check(
            mode,
            other_path,
            other_facts,
            resolved,
            env_dirs,
        ) is None),
        within(location_key(resolved), "c:\\windows"@) ==> spec_is_protected(resolved, env_dirs),
        within(location_key(resolved), "c:\\program files"@) ==> spec_is_protected(resolved, env_dirs),
        within(location_key(resolved), "c:\\program files (x86)"@) ==> spec_is_protected(
            resolved,
            env_dirs,
        ),
{
    let d = protected_dirs(env_dirs);
    assert(d[0] == "c:\\windows"@);
    assert(d[1] == "c:\\program files"@);
    assert(d[2] == "c:\\program files (x86)"@);
}

/// Runs the checks before deleting `path` (whose resolved form is
/// `resolved`).
pub fn check_delete(
    mode: DeleteMode,
    path: &str,
    facts: &PathFacts,
    resolved: &str,
    env_dirs: &Vec<String>,
) -> (res: Result<(), String>)
    ensures
        match delete_check(mode, path@, *facts, resolved@, env_dirs@) {
            Some(msg) => res matches Err(e) && e@ == msg,
            None => res is Ok,
        },
        spec_is_protected(resolved@, env_dirs@) ==> res is Err,
        path_check(path@, *facts, mode == DeleteMode::Now) is None ==> (res is Ok <==> !spec_is_protected(
            resolved@,
            env_dirs@,
        )),
{
    proof {
        lemma_delete_judged_on_resolved_path(mode, path@, *facts, resolved@, env_dirs@, path@, *facts);
    }
    match validate_path(path, facts, mode == DeleteMode::Now) {
        Err(e) => {
            return Err(e);
        },
        Ok(()) => {},
    }
    if is_protected_location(resolved, env_dirs) {
        let mut msg = match mode {
            DeleteMode::Now => chars_of("拒绝删除："),
            DeleteMode::OnReboot => chars_of("拒绝计划删除："),
        };
        push_str(&mut msg, path);
        push_str(&mut msg, " 位于系统受保护目录");
        proof {
            reveal_strlit("拒绝删除：");
            reveal_strlit("拒绝计划删除：");
            reveal_strlit(" 位于系统受保护目录");
        }
        return Err(string_of(&msg));
    }
    Ok(())
}

/// The message for a deletion the system refused, from the system's
/// message: a file still in use gets advice instead.
pub open spec fn delete_error_message(mode: DeleteMode, system_msg: Seq<char>) -> Seq<char> {
    if mode == DeleteMode::Now {
        if seq_contains(system_msg, "被另一进程使用"@) {
            "删除失败：文件仍被占用；可先结束全部占用进程，或改用\"重启后删除\""@
        } else {
            "删除失败："@ + system_msg
        }
    } else {
        "计划重启删除失败："@ + system_msg
    }
}

/// Explains a failed deletion.
pub fn delete_error(mode: DeleteMode, system_msg: &str) -> (res: String)
    ensures
        res@ == delete_error_message(mode, system_msg@),
{
    proof {
        reveal_strlit("被另一进程使用");
        reveal_strlit("删除失败：文件仍被占用；可先结束全部占用进程，或改用\"重启后删除\"");
        reveal_strlit("删除失败：");
        reveal_strlit("计划重启删除失败：");
    }
    match mode {
        DeleteMode::Now => {
            let m = chars_of(system_msg);
            if crate::text::contains_chars(&m, &chars_of("被另一进程使用")) {
                "删除失败：文件仍被占用；可先结束全部占用进程，或改用\"重启后删除\"".to_owned()
            } else {
                let mut v = chars_of("删除失败：");
                push_str(&mut v, system_msg);
                string_of(&v)
            }
        },
        DeleteMode::OnReboot => {
            let mut v = chars_of("计划重启删除失败：");
            push_str(&mut v, system_msg);
            string_of(&v)
        },
    }
}

/// The resolved form of a path whose nearest resolvable ancestor resolved
/// to `base`: `base`, then the rest of the path (`rel`, with `/` turned
/// into `\`) after a `\` when there is a rest.
pub open spec fn spec_rejoin(base: Seq<char>, rel: Seq<char>) -> Seq<char> {
    let r = seq_replace_char(rel, '/', '\\');
    if r.len() == 0 {
        base
    } else {
        base + seq!['\\'] + r
    }
}

/// Joins the resolved ancestor and the remaining path.
pub fn rejoin(base: &str, rel: &str) -> (res: String)
    ensures
        res@ == spec_rejoin(base@, rel@),
{
    let r = replace_char(&chars_of(rel), '/', '\\');
    if r.len() == 0 {
        return base.to_owned();
    }
    let mut v = chars_of(base);
    v.push('\\');
    push_chars(&mut v, &r);
    string_of(&v)
}


/// A deletion must be confirmed explicitly by the caller.
pub fn confirm_delete(delete: bool) -> (res: Result<(), AppError>)
    ensures
        delete ==> res is Ok,
        !delete ==> (res matches Err(e) && e.code@ == ErrorCode::EPathInvalid.spec_str() && e.message@
            == "缺少确认参数"@),
{
    if delete {
        Ok(())
    } else {
        proof {
            reveal_strlit("缺少确认参数");
        }
        Err(AppError::new(ErrorCode::EPathInvalid, "缺少确认参数"))
    }
}


/// The resolved form from the first ancestor whose final path is known:
/// each entry of `ancestors` is, nearest first, an ancestor's final path
/// (`None` when it could not be resolved) and the rest of the path below
/// it; `long_name` when no ancestor resolves.
pub open spec fn first_resolved_ancestor(
    ancestors: Seq<(Option<String>, String)>,
    long_name: Seq<char>,
) -> Seq<char>
    decreases ancestors.len(),
{
    if ancestors.len() == 0 {
        long_name
    } else {
        match ancestors[0].0 {
            Some(base) => spec_rejoin(base@, ancestors[0].1@),
            None => first_resolved_ancestor(ancestors.drop_first(), long_name),
        }
    }
}

/// The form of a path that the protection check resolves: the path's own
/// final path when it has one, else the final path of its nearest ancestor
/// that has one with the rest of the path joined back, else its long name
/// (short 8.3 names expanded).
pub open spec fn spec_resolved_for_check(
    own_final: Option<String>,
    ancestors: Seq<(Option<String>, String)>,
    long_name: Seq<char>,
) -> Seq<char> {
    match own_final {
        Some(f) => f@,
        None => first_resolved_ancestor(ancestors, long_name),
    }
}

/// Chooses the form of a path that the protection check resolves, from
/// what the system reported (see `spec_resolved_for_check`).
pub fn resolved_for_check(
    own_final: &Option<String>,
    ancestors: &Vec<(Option<String>, String)>,
    long_name: &str,
) -> (res: String)
    ensures
        res@ == spec_resolved_for_check(*own_final, ancestors@, long_name@),
{
    match own_final {
        Some(f) => {
            return owned(f.as_str());
        },
        None => {},
    }
    let mut i: usize = 0;
    assert(ancestors@.skip(0) =~= ancestors@);
    while i < ancestors.len()
        invariant
            i <= ancestors@.len(),
            own_final is None,
            first_resolved_ancestor(ancestors@, long_name@) == first_resolved_ancestor(
                ancestors@.skip(i as int),
                long_name@,
            ),
        decreases ancestors.len() - i,
    {
        assert(ancestors@.skip(i as int)[0] == ancestors@[i as int]);
        match &ancestors[i].0 {
            Some(base) => {
                assert(ancestors@.skip(i as int)[0].0 == Some(*base));
                return rejoin(base.as_str(), ancestors[i].1.as_str());
            },
            None => {},
        }
        assert(ancestors@.skip(i as int).drop_first() =~= ancestors@.skip(i + 1));
        i = i + 1;
    }
    owned(long_name)
}

} // verus!
