//! Small shared helpers around Windows text conventions: UTF-16 buffers,
//! Win32 error codes and the `\\?\` device-path prefixes.
use vstd::prelude::*;

use crate::text::{
    chars_of, hex_char, hex_digit, push_decimal, push_str, replace_char, seq_replace_char, seq_starts_with,
    spec_decimal, spec_to_lowercase, starts_with_chars, string_of, to_lowercase,
};

verus! {

pub open spec fn is_high_surrogate(u: u16) -> bool {
    0xD800 <= u && u <= 0xDBFF
}

pub open spec fn is_low_surrogate(u: u16) -> bool {
    0xDC00 <= u && u <= 0xDFFF
}

/// UTF-16 decoding in which every unpaired surrogate becomes U+FFFD
/// (`String::from_utf16_lossy`).
pub open spec fn spec_utf16_lossy(v: Seq<u16>) -> Seq<char>
    decreases v.len(),
{
    if v.len() == 0 {
        Seq::empty()
    } else if v.len() >= 2 && is_high_surrogate(v[0]) && is_low_surrogate(v[1]) {
        seq![
            (0x10000 + (v[0] - 0xD800) * 0x400 + (v[1] - 0xDC00)) as char,
        ] + spec_utf16_lossy(v.subrange(2, v.len() as int))
    } else if is_high_surrogate(v[0]) || is_low_surrogate(v[0]) {
        seq!['\u{FFFD}'] + spec_utf16_lossy(v.drop_first())
    } else {
        seq![v[0] as char] + spec_utf16_lossy(v.drop_first())
    }
}

/// `String::from_utf16_lossy`: decodes UTF-16, replacing each unpaired
/// surrogate with U+FFFD, as its documentation states.
#[verifier::external_body]
fn from_utf16_lossy(v: &[u16]) -> (res: String)
    ensures
        res@ == spec_utf16_lossy(v@),
{
    String::from_utf16_lossy(v)
}

/// Index of the first NUL unit of `buf`, or its length when there is none.
pub open spec fn nul_end(buf: Seq<u16>) -> int
    decreases buf.len(),
{
    if buf.len() == 0 {
        0
    } else if buf[0] == 0 {
        0
    } else {
        1 + nul_end(buf.drop_first())
    }
}

proof fn lemma_nul_end(buf: Seq<u16>, i: int)
    requires
        0 <= i <= buf.len(),
        forall|j: int| 0 <= j < i ==> buf[j] != 0,
        i == buf.len() || buf[i] == 0,
    ensures
        nul_end(buf) == i,
    decreases i,
{
    if i > 0 {
        let t = buf.drop_first();
        assert forall|j: int| 0 <= j < i - 1 implies t[j] != 0 by {
            assert(t[j] == buf[j + 1]);
        }
        if i - 1 < t.len() {
            assert(t[i - 1] == buf[i]);
        }
        lemma_nul_end(t, i - 1);
    }
}

/// Truncates a fixed-size UTF-16 buffer at its first NUL and decodes it.
pub fn utf16_string(buf: &[u16]) -> (res: String)
    ensures
        res@ == spec_utf16_lossy(buf@.take(nul_end(buf@))),
{
    let mut end: usize = 0;
    while end < buf.len() && buf[end] != 0
        invariant
            end <= buf.len(),
            forall|j: int| 0 <= j < end ==> buf@[j] != 0,
        decreases buf.len() - end,
    {
        end = end + 1;
    }
    proof {
        lemma_nul_end(buf@, end as int);
    }
    let (head, _tail) = buf.split_at(end);
    from_utf16_lossy(head)
}

/// UTF-16 encoding of one character.
pub open spec fn utf16_of(c: char) -> Seq<u16> {
    let u = c as u32;
    if u < 0x10000 {
        seq![u as u16]
    } else {
        seq![
            (0xD800 + (u - 0x10000) / 0x400) as u16,
            (0xDC00 + (u - 0x10000) % 0x400) as u16,
        ]
    }
}

/// UTF-16 encoding of a character sequence.
pub open spec fn spec_utf16(s: Seq<char>) -> Seq<u16>
    decreases s.len(),
{
    if s.len() == 0 {
        Seq::empty()
    } else {
        spec_utf16(s.drop_last()) + utf16_of(s.last())
    }
}

/// UTF-8 string to NUL-terminated UTF-16.
pub fn to_wide(s: &str) -> (res: Vec<u16>)
    ensures
        res@ == spec_utf16(s@).push(0),
{
    let chars = chars_of(s);
    let mut out: Vec<u16> = Vec::new();
    let mut i: usize = 0;
    while i < chars.len()
        invariant
            i <= chars.len(),
            out@ == spec_utf16(chars@.take(i as int)),
        decreases chars.len() - i,
    {
        let u = chars[i] as u32;
        if u < 0x10000 {
            out.push(u as u16);
        } else {
            let v = u - 0x10000;
            out.push((0xD800 + v / 0x400) as u16);
            out.push((0xDC00 + v % 0x400) as u16);
        }
        i = i + 1;
        assert(chars@.take(i as int).drop_last() == chars@.take(i - 1));
        assert(out@ =~= spec_utf16(chars@.take(i - 1)) + utf16_of(chars@[i - 1]));
    }
    assert(chars@.take(chars.len() as int) == chars@);
    out.push(0);
    out
}

/// The Win32 error code carried in an HRESULT (its low 16 bits).
pub open spec fn spec_win32_code(hresult: i32) -> u32 {
    (hresult as u32) % 0x10000
}

/// Extracts the Win32 error code from an HRESULT (`0x8007xxxx` → `xxxx`).
pub fn win32_code(hresult: i32) -> (res: u32)
    ensures
        res == spec_win32_code(hresult),
{
    let r = (hresult & 0xFFFF) as u32;
    assert((hresult & 0xFFFF) as u32 == (hresult as u32) % 0x10000) by (bit_vector);
    r
}

/// The readable message for a Win32 error code; `detail` is the system's own
/// text for the error, used for codes without a dedicated message.
pub open spec fn spec_win32_err(code: u32, detail: Seq<char>) -> Seq<char> {
    if code == 5 {
        "拒绝访问（可能需要管理员权限）"@
    } else if code == 87 {
        "参数无效（进程可能已退出）"@
    } else if code == 1168 {
        "找不到对应进程（可能已退出）"@
    } else if code == 2 {
        "系统找不到指定的文件"@
    } else if code == 3 {
        "系统找不到指定的路径"@
    } else if code == 32 {
        "文件正被另一进程使用"@
    } else {
        detail + " (错误码 "@ + spec_decimal(code as nat) + ")"@
    }
}

/// Translates a Win32 error into a readable message, with targeted hints for
/// the common codes.
pub fn win32_err(code: u32, detail: &str) -> (res: String)
    ensures
        res@ == spec_win32_err(code, detail@),
{
    if code == 5 {
        crate::text::owned("拒绝访问（可能需要管理员权限）")
    } else if code == 87 {
        crate::text::owned("参数无效（进程可能已退出）")
    } else if code == 1168 {
        crate::text::owned("找不到对应进程（可能已退出）")
    } else if code == 2 {
        crate::text::owned("系统找不到指定的文件")
    } else if code == 3 {
        crate::text::owned("系统找不到指定的路径")
    } else if code == 32 {
        crate::text::owned("文件正被另一进程使用")
    } else {
        let mut v = chars_of(detail);
        push_str(&mut v, " (错误码 ");
        push_decimal(&mut v, code as u64);
        push_str(&mut v, ")");
        string_of(&v)
    }
}

/// Removes a `\\?\` device prefix; `\\?\UNC\server\share` becomes
/// `\\server\share`.
pub open spec fn spec_strip_device_prefix(s: Seq<char>) -> Seq<char> {
    if seq_starts_with(s, "\\\\?\\UNC\\"@) {
        "\\\\"@ + s.skip(8)
    } else if seq_starts_with(s, "\\\\?\\"@) {
        s.skip(4)
    } else {
        s
    }
}

/// Removes the `\\?\` device prefix, restoring UNC paths to `\\server\share`.
pub fn strip_device_prefix(s: &Vec<char>) -> (res: Vec<char>)
    ensures
        res@ == spec_strip_device_prefix(s@),
{
    let unc = chars_of("\\\\?\\UNC\\");
    let dev = chars_of("\\\\?\\");
    proof {
        reveal_strlit("\\\\?\\UNC\\");
        reveal_strlit("\\\\?\\");
    }
    if starts_with_chars(s, &unc) {
        let mut out = chars_of("\\\\");
        let rest = crate::text::skip_chars(s, 8);
        crate::text::push_chars(&mut out, &rest);
        out
    } else if starts_with_chars(s, &dev) {
        crate::text::skip_chars(s, 4)
    } else {
        let mut out: Vec<char> = Vec::new();
        crate::text::push_chars(&mut out, s);
        assert(out@ =~= s@);
        out
    }
}

/// The `\`-separated components of a path (at least one, possibly empty).
pub open spec fn path_components(s: Seq<char>) -> Seq<Seq<char>>
    decreases s.len(),
{
    if s.len() == 0 {
        seq![Seq::empty()]
    } else {
        let r = path_components(s.drop_last());
        if s.last() == '\\' {
            r.push(Seq::empty())
        } else {
            r.update(r.len() - 1, r.last().push(s.last()))
        }
    }
}

/// The components with `.` dropped and each `..` taking away the component
/// before it (never the first one; a `..` with nothing to take away is
/// dropped).
pub open spec fn resolve_dots(comps: Seq<Seq<char>>) -> Seq<Seq<char>>
    decreases comps.len(),
{
    if comps.len() == 0 {
        Seq::empty()
    } else {
        let r = resolve_dots(comps.drop_last());
        let c = comps.last();
        if c == seq!['.'] {
            r
        } else if c == seq!['.', '.'] {
            if r.len() > 1 {
                r.drop_last()
            } else {
                r
            }
        } else {
            r.push(c)
        }
    }
}

/// The components joined with `\`.
pub open spec fn join_components(comps: Seq<Seq<char>>) -> Seq<char>
    decreases comps.len(),
{
    if comps.len() == 0 {
        Seq::empty()
    } else if comps.len() == 1 {
        comps[0]
    } else {
        join_components(comps.drop_last()) + seq!['\\'] + comps.last()
    }
}

/// A path without `.` components and with each `..` applied.
pub open spec fn spec_resolve_path_dots(s: Seq<char>) -> Seq<char> {
    join_components(resolve_dots(path_components(s)))
}

fn split_components(s: &Vec<char>) -> (comps: Vec<Vec<char>>)
    ensures
        comps@.len() == path_components(s@).len(),
        forall|k: int| 0 <= k < comps@.len() ==> (#[trigger] comps@[k])@ == path_components(s@)[k],
{
    let mut comps: Vec<Vec<char>> = Vec::new();
    comps.push(Vec::new());
    let mut i: usize = 0;
    assert(s@.take(0) =~= Seq::<char>::empty());
    assert(comps@[0]@ =~= Seq::<char>::empty());
    while i < s.len()
        invariant
            i <= s@.len(),
            comps@.len() == path_components(s@.take(i as int)).len(),
            comps@.len() >= 1,
            forall|k: int|
                0 <= k < comps@.len() ==> (#[trigger] comps@[k])@ == path_components(
                    s@.take(i as int),
                )[k],
        decreases s.len() - i,
    {
        let c = s[i];
        let ghost pre = s@.take(i as int);
        let ghost cur = s@.take(i + 1);
        assert(cur.drop_last() == pre);
        assert(cur.last() == c);
        let ghost before = comps@;
        if c == '\\' {
            comps.push(Vec::new());
            proof {
                assert forall|k: int| 0 <= k < comps@.len() implies (#[trigger] comps@[k])@
                    == path_components(cur)[k] by {
                    if k < before.len() {
                        assert(comps@[k] == before[k]);
                    } else {
                        assert(comps@[k]@ =~= Seq::<char>::empty());
                    }
                }
            }
        } else {
            let mut last = comps.pop().unwrap();
            last.push(c);
            comps.push(last);
            proof {
                assert forall|k: int| 0 <= k < comps@.len() implies (#[trigger] comps@[k])@
                    == path_components(cur)[k] by {
                    if k < before.len() - 1 {
                        assert(comps@[k] == before[k]);
                    }
                }
            }
        }
        i = i + 1;
    }
    assert(s@.take(s@.len() as int) == s@);
    comps
}

fn is_dot(c: &Vec<char>) -> (res: bool)
    ensures
        res == (c@ == seq!['.']),
{
    if c.len() == 1 && c[0] == '.' {
        assert(c@ =~= seq!['.']);
        true
    } else {
        false
    }
}

fn is_dot_dot(c: &Vec<char>) -> (res: bool)
    ensures
        res == (c@ == seq!['.', '.']),
{
    if c.len() == 2 && c[0] == '.' && c[1] == '.' {
        assert(c@ =~= seq!['.', '.']);
        true
    } else {
        false
    }
}

/// Resolves the `.` and `..` components of a path.
pub fn resolve_path_dots(s: &Vec<char>) -> (res: Vec<char>)
    ensures
        res@ == spec_resolve_path_dots(s@),
{
    let comps = split_components(s);
    let ghost all = path_components(s@);
    let mut kept: Vec<Vec<char>> = Vec::new();
    let mut i: usize = 0;
    while i < comps.len()
        invariant
            i <= comps@.len(),
            comps@.len() == all.len(),
            forall|k: int| 0 <= k < comps@.len() ==> (#[trigger] comps@[k])@ == all[k],
            kept@.len() == resolve_dots(all.take(i as int)).len(),
            forall|k: int|
                0 <= k < kept@.len() ==> (#[trigger] kept@[k])@ == resolve_dots(all.take(i as int))[k],
        decreases comps.len() - i,
    {
        let ghost pre = all.take(i as int);
        let ghost cur = all.take(i + 1);
        assert(cur.drop_last() == pre);
        assert(cur.last() == all[i as int]);
        assert(comps@[i as int]@ == all[i as int]);
        let ghost before = kept@;
        if is_dot(&comps[i]) {
        } else if is_dot_dot(&comps[i]) {
            if kept.len() > 1 {
                kept.pop();
                proof {
                    assert forall|k: int| 0 <= k < kept@.len() implies (#[trigger] kept@[k])@
                        == resolve_dots(cur)[k] by {
                        assert(kept@[k] == before[k]);
                    }
                }
            }
        } else {
            let mut c: Vec<char> = Vec::new();
            crate::text::push_chars(&mut c, &comps[i]);
            kept.push(c);
            proof {
                assert forall|k: int| 0 <= k < kept@.len() implies (#[trigger] kept@[k])@
                    == resolve_dots(cur)[k] by {
                    if k < before.len() {
                        assert(kept@[k] == before[k]);
                    }
                }
            }
        }
        i = i + 1;
    }
    assert(all.take(all.len() as int) == all);
    let ghost r = resolve_dots(all);
    let mut out: Vec<char> = Vec::new();
    if kept.len() == 0 {
        assert(r =~= Seq::<Seq<char>>::empty());
        return out;
    }
    crate::text::push_chars(&mut out, &kept[0]);
    let mut j: usize = 1;
    assert(r.take(1) =~= seq![r[0]]);
    assert(join_components(r.take(1)) == r[0]);
    while j < kept.len()
        invariant
            1 <= j <= kept@.len(),
            kept@.len() == r.len(),
            forall|k: int| 0 <= k < kept@.len() ==> (#[trigger] kept@[k])@ == r[k],
            out@ == join_components(r.take(j as int)),
        decreases kept.len() - j,
    {
        out.push('\\');
        crate::text::push_chars(&mut out, &kept[j]);
        proof {
            let t = r.take(j + 1);
            assert(t.drop_last() == r.take(j as int));
            assert(t.last() == r[j as int]);
            assert(out@ =~= join_components(r.take(j as int)) + seq!['\\'] + r[j as int]);
        }
        j = j + 1;
    }
    assert(r.take(r.len() as int) == r);
    out
}

/// Comparable form of a path: forward slashes become backslashes, the
/// device prefix is removed, `.` and `..` components are resolved and the
/// result is lowercased.
pub open spec fn spec_normalize_path_string(s: Seq<char>) -> Seq<char> {
    spec_to_lowercase(
        spec_resolve_path_dots(spec_strip_device_prefix(seq_replace_char(s, '/', '\\'))),
    )
}

/// Normalises a path for identity comparison.
pub fn normalize_path_string(s: &str) -> (res: String)
    ensures
        res@ == spec_normalize_path_string(s@),
{
    let chars = chars_of(s);
    let slashed = replace_char(&chars, '/', '\\');
    let stripped = strip_device_prefix(&slashed);
    let resolved = resolve_path_dots(&stripped);
    let joined = string_of(&resolved);
    to_lowercase(joined.as_str())
}

// ---------------------------------------------------------------------------
// Version resources
// ---------------------------------------------------------------------------
/// The four lowercase hexadecimal digits of `n` (`{:04x}`).
pub open spec fn hex4(n: u16) -> Seq<char> {
    seq![
        hex_digit(((n / 4096) % 16) as nat),
        hex_digit(((n / 256) % 16) as nat),
        hex_digit(((n / 16) % 16) as nat),
        hex_digit((n % 16) as nat),
    ]
}

/// The version-resource key of the file description for a translation
/// (language, code page): `\StringFileInfo\<lang><codepage>\FileDescription`.
pub open spec fn spec_description_key(lang: u16, codepage: u16) -> Seq<char> {
    "\\StringFileInfo\\"@ + hex4(lang) + hex4(codepage) + "\\FileDescription"@
}

fn push_hex4(out: &mut Vec<char>, n: u16)
    ensures
        final(out)@ == old(out)@ + hex4(n),
{
    out.push(hex_char(((n / 4096) % 16) as u8));
    out.push(hex_char(((n / 256) % 16) as u8));
    out.push(hex_char(((n / 16) % 16) as u8));
    out.push(hex_char((n % 16) as u8));
}

/// The key under which a file's description is looked up, from the first
/// entry of its translation table.
pub fn description_key(lang: u16, codepage: u16) -> (res: String)
    ensures
        res@ == spec_description_key(lang, codepage),
{
    let mut v = chars_of("\\StringFileInfo\\");
    push_hex4(&mut v, lang);
    push_hex4(&mut v, codepage);
    push_str(&mut v, "\\FileDescription");
    string_of(&v)
}

/// The description read from a version resource: the UTF-16 value up to its
/// NUL, or nothing when the value is missing or empty.
pub fn description_from_value(value: &[u16]) -> (res: Option<String>)
    ensures
        match res {
            Some(d) => d@ == spec_utf16_lossy(value@.take(nul_end(value@))) && d@.len() > 0,
            None => spec_utf16_lossy(value@.take(nul_end(value@))).len() == 0,
        },
{
    let d = utf16_string(value);
    if d.as_str().is_empty() {
        None
    } else {
        Some(d)
    }
}

} // verus!
