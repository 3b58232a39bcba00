//! Reporting what the metadata of an entry says.
use vstd::prelude::*;
use super::{Entry, ErrorReason, Verdict};
use crate::strings::{decimal, decimal_reads_back, u64_to_decimal};
use crate::utils_lib::{
    create_options, options_text, option_line, entry_views, FileType, file_type_bits,
};

verus! {

/// The path prefix of the stat report.
pub const BASE: &'static str = "/api/stat";

/// The method of the stat report.
pub const METHOD: &'static str = "GET";

/// The stat report's verdict on what the metadata says: any entry with
/// metadata is reported; without it, a general failure.
pub open spec fn stat_decision(entry: Entry) -> Verdict {
    match entry {
        Entry::Missing => Verdict::Reject(ErrorReason::GeneralFailure),
        _ => Verdict::CheckContainment,
    }
}

/// The stat report's verdict, as `stat_decision` gives it.
pub fn stat_verdict(entry: Entry) -> (r: Verdict)
    ensures
        r == stat_decision(entry),
{
    match entry {
        Entry::Missing => Verdict::Reject(ErrorReason::GeneralFailure),
        _ => Verdict::CheckContainment,
    }
}

/// The entries of a stat report: kind, size, mode and the three times in
/// seconds, each time taken as an unsigned number.
pub open spec fn stat_entries(
    kind: FileType,
    size: u64,
    mode: u32,
    ctime: i64,
    mtime: i64,
    atime: i64,
) -> Seq<(Seq<char>, Seq<char>)> {
    seq![
        ("itemType"@, decimal(file_type_bits(kind) as nat)),
        ("size"@, decimal(size as nat)),
        ("mode"@, decimal(mode as nat)),
        ("ctime"@, decimal((ctime as u64) as nat)),
        ("mtime"@, decimal((mtime as u64) as nat)),
        ("atime"@, decimal((atime as u64) as nat)),
    ]
}

/// The stat report of an entry: one `key="value"` line for its kind, size,
/// mode and its change, modification and access times.
pub fn stat_report(kind: FileType, size: u64, mode: u32, ctime: i64, mtime: i64, atime: i64) -> (r:
    String)
    ensures
        r@ == options_text(stat_entries(kind, size, mode, ctime, mtime, atime)),
{
    let mut out_raw: Vec<(&str, String)> = Vec::new();
    out_raw.push(("itemType", u64_to_decimal(kind.bits() as u64)));
    out_raw.push(("size", u64_to_decimal(size)));
    out_raw.push(("mode", u64_to_decimal(mode as u64)));
    out_raw.push(("ctime", u64_to_decimal(ctime as u64)));
    out_raw.push(("mtime", u64_to_decimal(mtime as u64)));
    out_raw.push(("atime", u64_to_decimal(atime as u64)));
    proof {
        assert(entry_views(out_raw@) =~= stat_entries(kind, size, mode, ctime, mtime, atime));
    }
    create_options(out_raw)
}

/// The stat report names the kind it is given by that kind's mode bits:
/// its first line is `itemType` with 32768 for a file, 16384 for a directory
/// and 40960 for a symbolic link, and the size, mode and three times follow
/// in that order; two different kinds give different reports.
pub proof fn stat_report_names_the_kind(
    kind: FileType,
    other: FileType,
    size: u64,
    mode: u32,
    ctime: i64,
    mtime: i64,
    atime: i64,
)
    ensures
        options_text(stat_entries(kind, size, mode, ctime, mtime, atime)) == option_line(
            "itemType"@,
            decimal(
                match kind {
                    FileType::File => 32768nat,
                    FileType::Directory => 16384nat,
                    FileType::Symlink => 40960nat,
                },
            ),
        ) + option_line("size"@, decimal(size as nat)) + option_line("mode"@, decimal(mode as nat))
            + option_line("ctime"@, decimal((ctime as u64) as nat)) + option_line(
            "mtime"@,
            decimal((mtime as u64) as nat),
        ) + option_line("atime"@, decimal((atime as u64) as nat)),
        kind != other ==> options_text(stat_entries(kind, size, mode, ctime, mtime, atime))
            != options_text(stat_entries(other, size, mode, ctime, mtime, atime)),
{
    let e = stat_entries(kind, size, mode, ctime, mtime, atime);
    reveal_with_fuel(options_text, 7);
    assert(e.take(0) =~= Seq::<(Seq<char>, Seq<char>)>::empty());
    assert(options_text(e) =~= option_line(e[0].0, e[0].1) + option_line(e[1].0, e[1].1)
        + option_line(e[2].0, e[2].1) + option_line(e[3].0, e[3].1) + option_line(e[4].0, e[4].1)
        + option_line(e[5].0, e[5].1));
    if kind != other {
        let f = stat_entries(other, size, mode, ctime, mtime, atime);
        assert(options_text(f) =~= option_line(f[0].0, f[0].1) + option_line(f[1].0, f[1].1)
            + option_line(f[2].0, f[2].1) + option_line(f[3].0, f[3].1) + option_line(f[4].0, f[4].1)
            + option_line(f[5].0, f[5].1));
        let v1 = decimal(file_type_bits(kind) as nat);
        let v2 = decimal(file_type_bits(other) as nat);
        decimal_reads_back(file_type_bits(kind) as nat);
        decimal_reads_back(file_type_bits(other) as nat);
        let r1 = options_text(e);
        let r2 = options_text(f);
        if r1 == r2 {
            reveal_strlit("itemType");
            assert(e.subrange(1, 6) =~= f.subrange(1, 6));
            let t = option_line(e[1].0, e[1].1) + option_line(e[2].0, e[2].1) + option_line(
                e[3].0,
                e[3].1,
            ) + option_line(e[4].0, e[4].1) + option_line(e[5].0, e[5].1);
            assert(r1 =~= option_line("itemType"@, v1) + t);
            assert(r2 =~= option_line("itemType"@, v2) + t);
            assert(v1.len() == v2.len());
            assert(v1 =~= r1.subrange(10, 10 + v1.len() as int));
            assert(v2 =~= r2.subrange(10, 10 + v2.len() as int));
        }
    }
}

} // verus!
