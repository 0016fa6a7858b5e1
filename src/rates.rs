//! Point-in-time measurements and throughput, in fixed-point units:
//! percentages in hundredths of a percent, throughput in thousandths of a
//! MiB per second, byte totals in thousandths of a GiB.

use vstd::prelude::*;
use crate::cpu::{CpuTimes, cpu_usage_spec, clamped_delta, round_div, usage_since};

verus! {

pub const MIB: u64 = 1048576;

pub const GIB: u64 = 1073741824;

/// Cumulative bytes sent and received over all non-loopback interfaces.
#[derive(Clone, Copy, Debug, PartialEq, Eq, Structural)]
pub struct NetTotals {
    pub sent: u64,
    pub recv: u64,
}

/// Bytes per second over an interval, in thousandths of a MiB per second,
/// rounded to the nearest; an interval of zero seconds gives 0.
pub open spec fn throughput_spec(bytes: int, interval_sec: int) -> int {
    if interval_sec == 0 {
        0
    } else {
        round_div(bytes * 1000, interval_sec * MIB)
    }
}

/// A byte count in thousandths of a GiB, rounded to the nearest.
pub open spec fn gib_spec(bytes: int) -> int {
    round_div(bytes * 1000, GIB as int)
}

/// `part / whole` in hundredths of a percent, rounded; 0 when `whole` is 0.
pub open spec fn percent_spec(part: int, whole: int) -> int {
    if whole == 0 {
        0
    } else {
        round_div(part * 10000, whole)
    }
}

/// Memory in use as a share of the total: `total - available`, where
/// available beyond the total counts as all of it.
pub open spec fn memory_percent_spec(total: int, available: int) -> int {
    percent_spec(clamped_delta(available, total), total)
}

/// Disk in use as a share of the filesystem's blocks.
pub open spec fn disk_percent_spec(blocks: int, free: int) -> int {
    percent_spec(clamped_delta(free, blocks), blocks)
}

proof fn lemma_round_div_bounds(n: int, d: int)
    requires
        n >= 0,
        d > 0,
    ensures
        0 <= round_div(n, d) <= n + 1,
{
    assert(0 <= (2 * n + d) / (2 * d) <= n + 1) by (nonlinear_arith)
        requires
            n >= 0,
            d > 0,
    ;
}

proof fn lemma_percent_bounded(part: int, whole: int)
    requires
        0 <= part <= whole,
    ensures
        0 <= percent_spec(part, whole) <= 10000,
{
    if whole != 0 {
        assert(2 * (part * 10000) + whole <= 2 * whole * 10000 + whole) by (nonlinear_arith)
            requires
                0 <= part <= whole,
        ;
        assert((2 * whole * 10000 + whole) / (2 * whole) == 10000) by (nonlinear_arith)
            requires
                whole > 0,
        ;
        vstd::arithmetic::div_mod::lemma_div_is_ordered(
            2 * (part * 10000) + whole,
            2 * whole * 10000 + whole,
            2 * whole,
        );
        lemma_round_div_bounds(part * 10000, whole);
    }
}

/// Throughput of `bytes` transferred over `interval_sec` seconds.
pub fn bytes_per_sec_to_mb(bytes: u64, interval_sec: u64) -> (r: u64)
    ensures
        r == throughput_spec(bytes as int, interval_sec as int),
{
    if interval_sec == 0 {
        return 0;
    }
    assert(interval_sec as int * MIB as int <= u64::MAX as int * MIB as int) by (nonlinear_arith)
        requires
            interval_sec <= u64::MAX,
    ;
    let d: u128 = interval_sec as u128 * MIB as u128;
    assert(d >= 1) by (nonlinear_arith)
        requires
            d == interval_sec as int * MIB as int,
            interval_sec >= 1,
    ;
    let n: u128 = 2 * (bytes as u128 * 1000) + d;
    let r: u128 = n / (2 * d);
    proof {
        let ni = 2 * (bytes as int * 1000) + d as int;
        let di = 2 * (d as int);
        assert(ni / di <= u64::MAX as int) by (nonlinear_arith)
            requires
                ni == 2 * (bytes as int * 1000) + d as int,
                di == 2 * (d as int),
                d as int >= MIB as int,
                0 <= bytes as int <= u64::MAX as int,
        {
            assert(ni <= di * (u64::MAX as int));
            vstd::arithmetic::div_mod::lemma_div_is_ordered(ni, di * (u64::MAX as int), di);
            vstd::arithmetic::div_mod::lemma_div_multiples_vanish(u64::MAX as int, di);
        }
    }
    r as u64
}

/// A byte count in thousandths of a GiB.
pub fn bytes_to_gb(bytes: u64) -> (r: u64)
    ensures
        r == gib_spec(bytes as int),
{
    let n: u128 = 2 * (bytes as u128 * 1000) + GIB as u128;
    let r: u128 = n / (2 * GIB as u128);
    r as u64
}

fn percent_of(part: u64, whole: u64) -> (r: u64)
    requires
        part <= whole,
    ensures
        r == percent_spec(part as int, whole as int),
        r <= 10000,
{
    proof {
        lemma_percent_bounded(part as int, whole as int);
    }
    if whole == 0 {
        0
    } else {
        assert(part * 10000 <= whole * 10000) by (nonlinear_arith)
            requires
                part <= whole,
        ;
        let n: u128 = 2 * (part as u128 * 10000) + whole as u128;
        let r: u128 = n / (2 * whole as u128);
        r as u64
    }
}

/// Memory in use, in hundredths of a percent; 0 when the total is unknown (0).
pub fn memory_percent(total: u64, available: u64) -> (r: u64)
    ensures
        r == memory_percent_spec(total as int, available as int),
        r <= 10000,
{
    let used: u64 = if total > available {
        total - available
    } else {
        0
    };
    percent_of(used, total)
}

/// Disk in use, in hundredths of a percent, from the filesystem's block
/// count and its blocks available; `None` for a filesystem without blocks.
pub fn disk_percent(blocks: u64, free: u64) -> (r: Option<u64>)
    ensures
        blocks == 0 ==> r is None,
        blocks > 0 ==> r == Some(disk_percent_spec(blocks as int, free as int) as u64),
        r matches Some(p) ==> p <= 10000,
{
    if blocks == 0 {
        return None;
    }
    let used: u64 = if blocks > free {
        blocks - free
    } else {
        0
    };
    Some(percent_of(used, blocks))
}

/// What the sampler carries from one tick to the next: the last readings
/// that succeeded.
#[derive(Clone, Copy, Debug, PartialEq, Eq, Structural)]
pub struct SamplerState {
    pub prev_cpu: Option<CpuTimes>,
    pub prev_net: Option<NetTotals>,
}

/// The rates of one tick.
#[derive(Clone, Copy, Debug, PartialEq, Eq, Structural)]
pub struct Rates {
    /// CPU usage, hundredths of a percent.
    pub cpu: u64,
    /// Upload throughput, thousandths of a MiB per second.
    pub sent_speed: u64,
    /// Download throughput, thousandths of a MiB per second.
    pub recv_speed: u64,
}

/// CPU usage for a tick, given the baseline and the new reading.
pub open spec fn tick_cpu_spec(prev: Option<CpuTimes>, curr: Option<CpuTimes>) -> int {
    match (prev, curr) {
        (Some(p), Some(c)) => cpu_usage_spec(p, c),
        _ => 0,
    }
}

/// Throughput for a tick in one direction, given the baseline and the new
/// reading of the counter.
pub open spec fn tick_speed_spec(prev: Option<int>, curr: Option<int>, interval_sec: int) -> int {
    match (prev, curr) {
        (Some(p), Some(c)) => throughput_spec(clamped_delta(p, c), interval_sec),
        _ => 0,
    }
}

/// The bytes-sent counter of a reading, if there is one.
pub open spec fn sent_counter(n: Option<NetTotals>) -> Option<int> {
    match n {
        Some(t) => Some(t.sent as int),
        None => None,
    }
}

/// The bytes-received counter of a reading, if there is one.
pub open spec fn recv_counter(n: Option<NetTotals>) -> Option<int> {
    match n {
        Some(t) => Some(t.recv as int),
        None => None,
    }
}

impl SamplerState {
    /// The state at process start: no baseline yet.
    pub fn new() -> (r: SamplerState)
        ensures
            r.prev_cpu is None,
            r.prev_net is None,
    {
        SamplerState { prev_cpu: None, prev_net: None }
    }

    /// Advances by one tick with this tick's readings (`None` where a source
    /// could not be read). A reading that failed leaves the baseline as it
    /// was, so the next tick compares against the last reading that succeeded.
    pub fn tick(&mut self, cpu: Option<CpuTimes>, net: Option<NetTotals>, interval_sec: u64) -> (r:
        Rates)
        ensures
            r.cpu == tick_cpu_spec(old(self).prev_cpu, cpu),
            r.sent_speed == tick_speed_spec(
                sent_counter(old(self).prev_net),
                sent_counter(net),
                interval_sec as int,
            ),
            r.recv_speed == tick_speed_spec(
                recv_counter(old(self).prev_net),
                recv_counter(net),
                interval_sec as int,
            ),
            r.cpu <= 10000,
            final(self).prev_cpu == (if cpu is Some {
                cpu
            } else {
                old(self).prev_cpu
            }),
            final(self).prev_net == (if net is Some {
                net
            } else {
                old(self).prev_net
            }),
    {
        let cpu_usage: u64 = match cpu {
            Some(c) => {
                let u = usage_since(self.prev_cpu, c);
                self.prev_cpu = Some(c);
                u
            },
            None => 0,
        };
        let (sent_speed, recv_speed) = match net {
            Some(n) => {
                let speeds = match self.prev_net {
                    Some(p) => {
                        let ds: u64 = if n.sent > p.sent {
                            n.sent - p.sent
                        } else {
                            0
                        };
                        let dr: u64 = if n.recv > p.recv {
                            n.recv - p.recv
                        } else {
                            0
                        };
                        (bytes_per_sec_to_mb(ds, interval_sec), bytes_per_sec_to_mb(dr, interval_sec))
                    },
                    None => (0, 0),
                };
                self.prev_net = Some(n);
                speeds
            },
            None => (0, 0),
        };
        Rates { cpu: cpu_usage, sent_speed, recv_speed }
    }
}

/// Milliseconds to sleep after a tick that took `elapsed_ms`, so that ticks
/// start `interval_sec` apart: `max(0, interval - elapsed)`.
pub fn sleep_after_tick(interval_sec: u64, elapsed_ms: u64) -> (r: u128)
    ensures
        r as int == if interval_sec as int * 1000 > elapsed_ms as int {
            interval_sec as int * 1000 - elapsed_ms as int
        } else {
            0
        },
{
    let period: u128 = interval_sec as u128 * 1000;
    if period > elapsed_ms as u128 {
        period - elapsed_ms as u128
    } else {
        0
    }
}

/// Every rate of the first tick after process start is 0, whatever was read.
pub proof fn lemma_first_tick_is_zero(
    cpu: Option<CpuTimes>,
    net: Option<NetTotals>,
    interval_sec: int,
)
    ensures
        tick_cpu_spec(None, cpu) == 0,
        tick_speed_spec(None, sent_counter(net), interval_sec) == 0,
        tick_speed_spec(None, recv_counter(net), interval_sec) == 0,
{
}

/// Throughput over an interval of zero seconds is 0, for any byte count.
pub proof fn lemma_zero_interval_throughput(bytes: int)
    ensures
        throughput_spec(bytes, 0) == 0,
{
}

} // verus!
