//! Exporting the log files: the folder name stamped with the local time
//! and the messages of an export.
use vstd::prelude::*;

use crate::text::{
    chars_of, push_decimal, push_str, push_zero_padded, spec_decimal, string_of, zero_padded,
};

verus! {

/// The decimal digits of `n`, padded with leading zeros to `width`.
pub open spec fn padded(n: nat, width: nat) -> Seq<char> {
    zero_padded(spec_decimal(n), width)
}

fn push_padded(out: &mut Vec<char>, n: u16, width: usize)
    ensures
        final(out)@ == old(out)@ + padded(n as nat, width as nat),
{
    let mut digits: Vec<char> = Vec::new();
    push_decimal(&mut digits, n as u64);
    push_zero_padded(out, &digits, width);
}

/// The local-time stamp `YYYYMMDD-HHMMSS` of an export folder.
pub open spec fn spec_log_stamp(
    year: u16,
    month: u16,
    day: u16,
    hour: u16,
    minute: u16,
    second: u16,
) -> Seq<char> {
    padded(year as nat, 4) + padded(month as nat, 2) + padded(day as nat, 2) + "-"@ + padded(
        hour as nat,
        2,
    ) + padded(minute as nat, 2) + padded(second as nat, 2)
}

/// Formats the local time of an export as `YYYYMMDD-HHMMSS`.
pub fn log_stamp(year: u16, month: u16, day: u16, hour: u16, minute: u16, second: u16) -> (res:
    String)
    ensures
        res@ == spec_log_stamp(year, month, day, hour, minute, second),
{
    let mut v: Vec<char> = Vec::new();
    push_padded(&mut v, year, 4);
    push_padded(&mut v, month, 2);
    push_padded(&mut v, day, 2);
    v.push('-');
    push_padded(&mut v, hour, 2);
    push_padded(&mut v, minute, 2);
    push_padded(&mut v, second, 2);
    proof {
        reveal_strlit("-");
    }
    string_of(&v)
}

/// The name of the export folder for a stamp.
pub fn export_dir_name(stamp: &str) -> (res: String)
    ensures
        res@ == "FileUnlocker-logs-"@ + stamp@,
{
    let mut v = chars_of("FileUnlocker-logs-");
    push_str(&mut v, stamp);
    string_of(&v)
}

/// The export target must be an existing folder.
pub fn check_export_target(dest_is_dir: bool) -> (res: Result<(), String>)
    ensures
        dest_is_dir ==> res is Ok,
        !dest_is_dir ==> (res matches Err(e) && e@ == "导出目标不是目录"@),
{
    if dest_is_dir {
        Ok(())
    } else {
        proof {
            reveal_strlit("导出目标不是目录");
        }
        Err("导出目标不是目录".to_owned())
    }
}

/// The outcome of an export that copied `copied` files into `out_dir`: an
/// export that copied nothing is an error (the program may have just
/// started and written no log yet).
pub fn export_result(copied: usize, out_dir: &str) -> (res: Result<String, String>)
    ensures
        copied == 0 ==> (res matches Err(e) && e@
            == "日志目录中没有可导出的文件（程序可能刚启动尚无日志）"@),
        copied > 0 ==> (res matches Ok(m) && m@ == "已导出 "@ + spec_decimal(copied as nat)
            + " 个日志文件到："@ + out_dir@),
{
    if copied == 0 {
        proof {
            reveal_strlit("日志目录中没有可导出的文件（程序可能刚启动尚无日志）");
        }
        return Err("日志目录中没有可导出的文件（程序可能刚启动尚无日志）".to_owned());
    }
    let mut v = chars_of("已导出 ");
    push_decimal(&mut v, copied as u64);
    push_str(&mut v, " 个日志文件到：");
    push_str(&mut v, out_dir);
    proof {
        reveal_strlit("已导出 ");
        reveal_strlit(" 个日志文件到：");
    }
    Ok(string_of(&v))
}

} // verus!
