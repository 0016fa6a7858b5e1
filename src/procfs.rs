//! What the sampler reads from kernel status files, parsed from their text.
//! Reading the files is left to the caller; a file that could not be read
//! is passed as no lines.

use vstd::prelude::*;
use crate::cpu::CpuTimes;
use crate::rates::NetTotals;
use crate::text::{
    parse_u64, parse_u64_spec, seq_starts_with, seq_contains, split_words, starts_with, contains,
    to_chars, words, len_before, trim_spec, second_field, second_field_trimmed, strip_repeated,
    trim_char_spec, strip_repeated_start, trim_char_bounds, owned_range, hundredths_spec,
    whole_part_spec, parse_hundredths, parse_whole_part,
};

verus! {

/// The views of a list of lines.
pub open spec fn line_views(lines: Seq<String>) -> Seq<Seq<char>> {
    lines.map_values(|l: String| l@)
}

/// The numbers among `ws`, in order, skipping words that are not numbers.
pub open spec fn parsed_numbers(ws: Seq<Seq<char>>) -> Seq<u64>
    decreases ws.len(),
{
    if ws.len() == 0 {
        Seq::empty()
    } else {
        let rest = parsed_numbers(ws.drop_last());
        match parse_u64_spec(ws.last()) {
            Some(v) => rest.push(v),
            None => rest,
        }
    }
}

/// The aggregate CPU counters of the first line of `/proc/stat`: the word
/// `cpu`, then at least eight numbers (user, nice, system, idle, iowait,
/// irq, softirq, steal); words that are not numbers are skipped.
pub open spec fn cpu_stat_spec(line: Seq<char>) -> Option<CpuTimes> {
    let w = words(line);
    if w.len() == 0 || w[0] != "cpu"@ {
        None
    } else {
        let n = parsed_numbers(w.drop_first());
        if n.len() < 8 {
            None
        } else {
            Some(
                CpuTimes {
                    user: n[0],
                    nice: n[1],
                    system: n[2],
                    idle: n[3],
                    iowait: n[4],
                    irq: n[5],
                    softirq: n[6],
                    steal: n[7],
                },
            )
        }
    }
}

/// The numbers among `ws[from..]`.
fn numbers_from(ws: &Vec<String>, from: usize) -> (r: Vec<u64>)
    requires
        from <= ws@.len(),
    ensures
        r@ == parsed_numbers(line_views(ws@).subrange(from as int, ws@.len() as int)),
{
    let ghost wv = line_views(ws@);
    let mut out: Vec<u64> = Vec::new();
    let mut i: usize = from;
    assert(wv.subrange(from as int, from as int) =~= Seq::<Seq<char>>::empty());
    while i < ws.len()
        invariant
            from <= i <= ws@.len(),
            wv == line_views(ws@),
            out@ == parsed_numbers(wv.subrange(from as int, i as int)),
        decreases ws@.len() - i,
    {
        let ghost next = wv.subrange(from as int, i + 1);
        assert(next.drop_last() =~= wv.subrange(from as int, i as int));
        assert(next.last() == ws@[i as int]@);
        match parse_u64(ws[i].as_str()) {
            Some(v) => out.push(v),
            None => {},
        }
        i += 1;
    }
    out
}

/// Parses the first line of `/proc/stat`.
pub fn parse_cpu_stat(line: &str) -> (r: Option<CpuTimes>)
    ensures
        r == cpu_stat_spec(line@),
{
    let w = split_words(line);
    if w.len() == 0 {
        return None;
    }
    let cpu = String::from_str("cpu");
    if w[0] != cpu {
        return None;
    }
    let n = numbers_from(&w, 1);
    assert(line_views(w@).subrange(1, w@.len() as int) =~= words(line@).drop_first());
    if n.len() < 8 {
        return None;
    }
    Some(
        CpuTimes {
            user: n[0],
            nice: n[1],
            system: n[2],
            idle: n[3],
            iowait: n[4],
            irq: n[5],
            softirq: n[6],
            steal: n[7],
        },
    )
}

/// `a + b`, or the largest `u64` where the sum would not fit.
pub open spec fn sat_add(a: u64, b: u64) -> u64 {
    if a as int + b as int > u64::MAX as int {
        u64::MAX
    } else {
        (a + b) as u64
    }
}

/// `a * 1024`, or the largest `u64` where the product would not fit.
pub open spec fn kib_to_bytes(a: u64) -> u64 {
    if a as int * 1024 > u64::MAX as int {
        u64::MAX
    } else {
        (a * 1024) as u64
    }
}

/// The counters of one interface row of `/proc/net/dev`, as (received,
/// sent): the row needs a `:` after a non-blank interface name and at least
/// nine fields after it; the first is bytes received, the ninth bytes sent,
/// and a field that is not a number counts as 0.
pub open spec fn net_row_spec(line: Seq<char>) -> Option<(u64, u64)> {
    let k = len_before(line, ':') as int;
    if k >= line.len() || trim_spec(line.subrange(0, k)).len() == 0 {
        None
    } else {
        let f = words(line.subrange(k + 1, line.len() as int));
        if f.len() < 9 {
            None
        } else {
            Some((number_or_zero(f[0]), number_or_zero(f[8])))
        }
    }
}

/// A word read as a number, 0 when it is not one.
pub open spec fn number_or_zero(s: Seq<char>) -> u64 {
    match parse_u64_spec(s) {
        Some(v) => v,
        None => 0,
    }
}

/// Byte totals over the interface rows of `rows`.
pub open spec fn net_rows_total(rows: Seq<Seq<char>>) -> NetTotals
    decreases rows.len(),
{
    if rows.len() == 0 {
        NetTotals { sent: 0, recv: 0 }
    } else {
        let t = net_rows_total(rows.drop_last());
        match net_row_spec(rows.last()) {
            Some((r, s)) => NetTotals { sent: sat_add(t.sent, s), recv: sat_add(t.recv, r) },
            None => t,
        }
    }
}

/// Byte totals of `/proc/net/dev`: its two header lines skipped, the
/// counters of every interface row summed, saturating.
pub open spec fn net_dev_spec(lines: Seq<Seq<char>>) -> NetTotals {
    if lines.len() <= 2 {
        NetTotals { sent: 0, recv: 0 }
    } else {
        net_rows_total(lines.subrange(2, lines.len() as int))
    }
}

fn number_or_zero_of(s: &String) -> (r: u64)
    ensures
        r == number_or_zero(s@),
{
    match parse_u64(s.as_str()) {
        Some(v) => v,
        None => 0,
    }
}

/// Parses one row of `/proc/net/dev`.
pub fn parse_net_row(line: &str) -> (r: Option<(u64, u64)>)
    ensures
        r == net_row_spec(line@),
{
    let v = to_chars(line);
    let n = v.len();
    assert(v@.subrange(0, n as int) =~= v@);
    let k = crate::text::find_char(&v, 0, ':');
    if k == n {
        return None;
    }
    let (a, b) = crate::text::trim_bounds(&v, 0, k);
    if a == b {
        return None;
    }
    let data = crate::text::owned_range(line, k + 1, n);
    let f = split_words(data.as_str());
    if f.len() < 9 {
        return None;
    }
    assert(line_views(f@)[0] == f@[0]@ && line_views(f@)[8] == f@[8]@);
    Some((number_or_zero_of(&f[0]), number_or_zero_of(&f[8])))
}

/// Byte totals of the lines of `/proc/net/dev`.
pub fn parse_net_dev(lines: &Vec<String>) -> (r: NetTotals)
    ensures
        r == net_dev_spec(line_views(lines@)),
{
    let ghost lv = line_views(lines@);
    let mut t = NetTotals { sent: 0, recv: 0 };
    if lines.len() <= 2 {
        return t;
    }
    let mut i: usize = 2;
    assert(lv.subrange(2, 2) =~= Seq::<Seq<char>>::empty());
    while i < lines.len()
        invariant
            2 <= i <= lines@.len(),
            lv == line_views(lines@),
            t == net_rows_total(lv.subrange(2, i as int)),
        decreases lines@.len() - i,
    {
        let ghost next = lv.subrange(2, i + 1);
        assert(next.drop_last() =~= lv.subrange(2, i as int));
        assert(next.last() == lines@[i as int]@);
        match parse_net_row(lines[i].as_str()) {
            Some((r, s)) => {
                let sent = if t.sent > u64::MAX - s {
                    u64::MAX
                } else {
                    t.sent + s
                };
                let recv = if t.recv > u64::MAX - r {
                    u64::MAX
                } else {
                    t.recv + r
                };
                t = NetTotals { sent, recv };
            },
            None => {},
        }
        i += 1;
    }
    assert(lv.subrange(2, lines@.len() as int) == lv.subrange(2, lv.len() as int));
    t
}

/// Progress through `/proc/meminfo`: the total and available memory seen
/// so far, in KiB, 0 while not seen.
pub open spec fn meminfo_result(total: u64, available: u64) -> Option<(u64, u64)> {
    if total == 0 {
        None
    } else {
        Some((kib_to_bytes(total), kib_to_bytes(available)))
    }
}

/// The second word of a line, read as a number.
pub open spec fn second_number(line: Seq<char>) -> Option<u64> {
    let w = words(line);
    if w.len() < 2 {
        None
    } else {
        parse_u64_spec(w[1])
    }
}

/// Reading `/proc/meminfo` from line `i` on, with `total` and `available`
/// found so far: a `MemTotal:` or `MemAvailable:` line whose value cannot
/// be read makes the whole reading fail; reading stops once both are
/// non-zero. The result is (total, available) in bytes; `None` without a
/// total.
pub open spec fn meminfo_from(lines: Seq<Seq<char>>, i: int, total: u64, available: u64) -> Option<
    (u64, u64),
>
    decreases lines.len() - i,
{
    if i < 0 || i >= lines.len() {
        meminfo_result(total, available)
    } else {
        let line = lines[i];
        let read = if seq_starts_with(line, "MemTotal:"@) {
            match second_number(line) {
                Some(v) => Some((v, available)),
                None => None,
            }
        } else if seq_starts_with(line, "MemAvailable:"@) {
            match second_number(line) {
                Some(v) => Some((total, v)),
                None => None,
            }
        } else {
            Some((total, available))
        };
        match read {
            None => None,
            Some((t, a)) => if t > 0 && a > 0 {
                meminfo_result(t, a)
            } else {
                meminfo_from(lines, i + 1, t, a)
            },
        }
    }
}

fn second_number_of(line: &String) -> (r: Option<u64>)
    ensures
        r == second_number(line@),
{
    let w = split_words(line.as_str());
    if w.len() < 2 {
        return None;
    }
    assert(line_views(w@)[1] == w@[1]@);
    parse_u64(w[1].as_str())
}

fn meminfo_finish(total: u64, available: u64) -> (r: Option<(u64, u64)>)
    ensures
        r == meminfo_result(total, available),
{
    if total == 0 {
        return None;
    }
    let t = if total > u64::MAX / 1024 {
        u64::MAX
    } else {
        total * 1024
    };
    let a = if available > u64::MAX / 1024 {
        u64::MAX
    } else {
        available * 1024
    };
    Some((t, a))
}

/// Total and available memory, in bytes, from the lines of `/proc/meminfo`.
pub fn parse_meminfo(lines: &Vec<String>) -> (r: Option<(u64, u64)>)
    ensures
        r == meminfo_from(line_views(lines@), 0, 0, 0),
{
    let ghost lv = line_views(lines@);
    let mem_total = to_chars("MemTotal:");
    let mem_available = to_chars("MemAvailable:");
    let mut total: u64 = 0;
    let mut available: u64 = 0;
    let mut i: usize = 0;
    while i < lines.len()
        invariant
            i <= lines@.len(),
            lv == line_views(lines@),
            mem_total@ == "MemTotal:"@,
            mem_available@ == "MemAvailable:"@,
            meminfo_from(lv, 0, 0, 0) == meminfo_from(lv, i as int, total, available),
        decreases lines@.len() - i,
    {
        let line = to_chars(lines[i].as_str());
        assert(lv[i as int] == lines@[i as int]@);
        if starts_with(&line, &mem_total) {
            match second_number_of(&lines[i]) {
                Some(v) => total = v,
                None => return None,
            }
        } else if starts_with(&line, &mem_available) {
            match second_number_of(&lines[i]) {
                Some(v) => available = v,
                None => return None,
            }
        }
        if total > 0 && available > 0 {
            return meminfo_finish(total, available);
        }
        i += 1;
    }
    meminfo_finish(total, available)
}

/// What a scan of `/proc/cpuinfo` has found: the CPU model, the number of
/// processors, whether the CPU flags name a hypervisor, and its vendor.
pub struct CpuInfoSeen {
    pub model: Seq<char>,
    pub cores: int,
    pub hypervisor: bool,
    pub vendor: Seq<char>,
}

/// One line of `/proc/cpuinfo`: the first `model name` sets the model, a
/// `flags` line naming `hypervisor` marks a virtual CPU, each `processor`
/// line counts one processor, and `Hypervisor vendor` sets the vendor.
pub open spec fn cpuinfo_step(st: CpuInfoSeen, line: Seq<char>) -> CpuInfoSeen {
    if seq_starts_with(line, "model name"@) && st.model == "Unknown CPU"@ {
        match second_field(line) {
            Some(f) => CpuInfoSeen { model: trim_spec(f), ..st },
            None => st,
        }
    } else if seq_starts_with(line, "flags"@) && seq_contains(line, "hypervisor"@) {
        CpuInfoSeen { hypervisor: true, ..st }
    } else if seq_starts_with(line, "processor"@) {
        CpuInfoSeen { cores: st.cores + 1, ..st }
    } else if seq_starts_with(line, "Hypervisor vendor"@) {
        match second_field(line) {
            Some(f) => CpuInfoSeen { vendor: trim_spec(f), ..st },
            None => st,
        }
    } else {
        st
    }
}

/// The scan of all of `lines`, in order.
pub open spec fn cpuinfo_scan(lines: Seq<Seq<char>>) -> CpuInfoSeen
    decreases lines.len(),
{
    if lines.len() == 0 {
        CpuInfoSeen { model: "Unknown CPU"@, cores: 0, hypervisor: false, vendor: Seq::empty() }
    } else {
        cpuinfo_step(cpuinfo_scan(lines.drop_last()), lines.last())
    }
}

/// The CPU model label: a virtual CPU is labelled as such, with the
/// hypervisor vendor when known, else with the model.
pub open spec fn cpu_label_spec(st: CpuInfoSeen) -> Seq<char> {
    if st.hypervisor {
        if st.vendor.len() > 0 {
            "虚拟 CPU ("@ + st.vendor + ")"@
        } else {
            "虚拟 CPU / "@ + st.model
        }
    } else {
        st.model
    }
}

/// CPU model label and processor count (at least 1) from the lines of
/// `/proc/cpuinfo`.
pub open spec fn cpu_info_spec(lines: Seq<Seq<char>>) -> (Seq<char>, int) {
    let st = cpuinfo_scan(lines);
    (cpu_label_spec(st), if st.cores == 0 {
        1
    } else {
        st.cores
    })
}

/// Reads the CPU model label and processor count from `/proc/cpuinfo`.
pub fn parse_cpu_info(lines: &Vec<String>) -> (r: (String, u64))
    ensures
        (r.0@, r.1 as int) == cpu_info_spec(line_views(lines@)),
{
    let ghost lv = line_views(lines@);
    let unknown = String::from_str("Unknown CPU");
    let model_name = to_chars("model name");
    let flags = to_chars("flags");
    let hypervisor_word = to_chars("hypervisor");
    let processor = to_chars("processor");
    let vendor_key = to_chars("Hypervisor vendor");
    let mut model = String::from_str("Unknown CPU");
    let mut cores: u64 = 0;
    let mut hypervisor = false;
    let mut vendor = String::new();
    let mut i: usize = 0;
    assert(lv.subrange(0, 0) =~= Seq::<Seq<char>>::empty());
    while i < lines.len()
        invariant
            i <= lines@.len(),
            cores <= i,
            lv == line_views(lines@),
            unknown@ == "Unknown CPU"@,
            model_name@ == "model name"@,
            flags@ == "flags"@,
            hypervisor_word@ == "hypervisor"@,
            processor@ == "processor"@,
            vendor_key@ == "Hypervisor vendor"@,
            (CpuInfoSeen { model: model@, cores: cores as int, hypervisor, vendor: vendor@ })
                == cpuinfo_scan(lv.subrange(0, i as int)),
        decreases lines@.len() - i,
    {
        let ghost next = lv.subrange(0, i + 1);
        assert(next.drop_last() =~= lv.subrange(0, i as int));
        assert(next.last() == lines@[i as int]@);
        let line = to_chars(lines[i].as_str());
        if starts_with(&line, &model_name) && model == unknown {
            match second_field_trimmed(lines[i].as_str()) {
                Some(f) => model = f,
                None => {},
            }
        } else if starts_with(&line, &flags) && contains(&line, &hypervisor_word) {
            hypervisor = true;
        } else if starts_with(&line, &processor) {
            cores = cores + 1;
        } else if starts_with(&line, &vendor_key) {
            match second_field_trimmed(lines[i].as_str()) {
                Some(f) => vendor = f,
                None => {},
            }
        }
        i += 1;
    }
    assert(lv.subrange(0, lines@.len() as int) =~= lv);
    if cores == 0 {
        cores = 1;
    }
    if hypervisor {
        let label = if vendor.as_str().unicode_len() > 0 {
            let mut l = String::from_str("虚拟 CPU (");
            l.append(vendor.as_str());
            l.append(")");
            l
        } else {
            let mut l = String::from_str("虚拟 CPU / ");
            l.append(model.as_str());
            l
        };
        (label, cores)
    } else {
        (model, cores)
    }
}

/// What a scan of `/etc/os-release` has found.
pub struct OsReleaseSeen {
    pub pretty: Seq<char>,
    pub name: Seq<char>,
    pub version: Seq<char>,
}

/// The value of a `KEY=value` line: the key (and its repetitions) removed,
/// then surrounding double quotes.
pub open spec fn os_value(line: Seq<char>, key: Seq<char>) -> Seq<char> {
    trim_char_spec(strip_repeated(line, key), '"')
}

/// One line of `/etc/os-release`: the last `PRETTY_NAME=` wins; the first
/// `NAME=` and the first `VERSION=` are kept.
pub open spec fn os_step(st: OsReleaseSeen, line: Seq<char>) -> OsReleaseSeen {
    if seq_starts_with(line, "PRETTY_NAME="@) {
        OsReleaseSeen { pretty: os_value(line, "PRETTY_NAME="@), ..st }
    } else if seq_starts_with(line, "NAME="@) && st.name.len() == 0 {
        OsReleaseSeen { name: os_value(line, "NAME="@), ..st }
    } else if seq_starts_with(line, "VERSION="@) && st.version.len() == 0 {
        OsReleaseSeen { version: os_value(line, "VERSION="@), ..st }
    } else {
        st
    }
}

/// The scan of all of `lines`, in order.
pub open spec fn os_scan(lines: Seq<Seq<char>>) -> OsReleaseSeen
    decreases lines.len(),
{
    if lines.len() == 0 {
        OsReleaseSeen { pretty: Seq::empty(), name: Seq::empty(), version: Seq::empty() }
    } else {
        os_step(os_scan(lines.drop_last()), lines.last())
    }
}

/// Short and full OS names: the pretty name when there is one; else the
/// name, with the version when there is one; else `Linux`.
pub open spec fn os_info_spec(lines: Seq<Seq<char>>) -> (Seq<char>, Seq<char>) {
    let st = os_scan(lines);
    let short = if st.pretty.len() > 0 {
        st.pretty
    } else if st.name.len() > 0 {
        if st.version.len() > 0 {
            st.name + " "@ + st.version
        } else {
            st.name
        }
    } else {
        "Linux"@
    };
    (short, if st.pretty.len() > 0 {
        st.pretty
    } else {
        short
    })
}

fn os_value_of(line: &str, key: &Vec<char>) -> (r: String)
    ensures
        r@ == os_value(line@, key@),
{
    let v = to_chars(line);
    let start = strip_repeated_start(&v, key);
    let (a, b) = trim_char_bounds(&v, start, v.len(), '"');
    owned_range(line, a, b)
}

/// Reads the short and full OS names from `/etc/os-release`.
pub fn parse_os_release(lines: &Vec<String>) -> (r: (String, String))
    ensures
        (r.0@, r.1@) == os_info_spec(line_views(lines@)),
{
    let ghost lv = line_views(lines@);
    let pretty_key = to_chars("PRETTY_NAME=");
    let name_key = to_chars("NAME=");
    let version_key = to_chars("VERSION=");
    let mut pretty = String::new();
    let mut name = String::new();
    let mut version = String::new();
    let mut i: usize = 0;
    assert(lv.subrange(0, 0) =~= Seq::<Seq<char>>::empty());
    while i < lines.len()
        invariant
            i <= lines@.len(),
            lv == line_views(lines@),
            pretty_key@ == "PRETTY_NAME="@,
            name_key@ == "NAME="@,
            version_key@ == "VERSION="@,
            (OsReleaseSeen { pretty: pretty@, name: name@, version: version@ }) == os_scan(
                lv.subrange(0, i as int),
            ),
        decreases lines@.len() - i,
    {
        let ghost next = lv.subrange(0, i + 1);
        assert(next.drop_last() =~= lv.subrange(0, i as int));
        assert(next.last() == lines@[i as int]@);
        let line = to_chars(lines[i].as_str());
        if starts_with(&line, &pretty_key) {
            pretty = os_value_of(lines[i].as_str(), &pretty_key);
        } else if starts_with(&line, &name_key) && name.as_str().unicode_len() == 0 {
            name = os_value_of(lines[i].as_str(), &name_key);
        } else if starts_with(&line, &version_key) && version.as_str().unicode_len() == 0 {
            version = os_value_of(lines[i].as_str(), &version_key);
        }
        i += 1;
    }
    assert(lv.subrange(0, lines@.len() as int) =~= lv);
    let has_pretty = pretty.as_str().unicode_len() > 0;
    let short = if has_pretty {
        pretty.clone()
    } else if name.as_str().unicode_len() > 0 {
        if version.as_str().unicode_len() > 0 {
            let mut s = name.clone();
            s.append(" ");
            s.append(version.as_str());
            s
        } else {
            name
        }
    } else {
        String::from_str("Linux")
    };
    let full = if has_pretty {
        pretty
    } else {
        short.clone()
    };
    (short, full)
}

/// The 1-, 5- and 15-minute load averages of `/proc/loadavg`, in
/// hundredths: its first three words, each a plain decimal number.
pub open spec fn loadavg_spec(text: Seq<char>) -> Option<(u64, u64, u64)> {
    let w = words(text);
    if w.len() < 3 {
        None
    } else {
        match (hundredths_spec(w[0]), hundredths_spec(w[1]), hundredths_spec(w[2])) {
            (Some(a), Some(b), Some(c)) => Some((a, b, c)),
            _ => None,
        }
    }
}

/// Reads `/proc/loadavg`.
pub fn parse_loadavg(text: &str) -> (r: Option<(u64, u64, u64)>)
    ensures
        r == loadavg_spec(text@),
{
    let w = split_words(text);
    if w.len() < 3 {
        return None;
    }
    assert(line_views(w@)[0] == w@[0]@ && line_views(w@)[1] == w@[1]@ && line_views(w@)[2]
        == w@[2]@);
    let a = parse_hundredths(w[0].as_str());
    let b = parse_hundredths(w[1].as_str());
    let c = parse_hundredths(w[2].as_str());
    match (a, b, c) {
        (Some(a), Some(b), Some(c)) => Some((a, b, c)),
        _ => None,
    }
}

/// Whole seconds since boot from `/proc/uptime`: the whole part of its
/// first word.
pub open spec fn uptime_spec(text: Seq<char>) -> Option<u64> {
    let w = words(text);
    if w.len() == 0 {
        None
    } else {
        whole_part_spec(w[0])
    }
}

/// Reads `/proc/uptime`.
pub fn parse_uptime(text: &str) -> (r: Option<u64>)
    ensures
        r == uptime_spec(text@),
{
    let w = split_words(text);
    if w.len() == 0 {
        return None;
    }
    assert(line_views(w@)[0] == w@[0]@);
    parse_whole_part(w[0].as_str())
}

} // verus!
