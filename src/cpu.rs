//! CPU usage derived from two consecutive readings of the kernel's
//! cumulative CPU time counters.

use vstd::prelude::*;

verus! {

/// One reading of the aggregate CPU time breakdown, in clock ticks since boot.
#[derive(Clone, Copy, Debug, PartialEq, Eq, Structural)]
pub struct CpuTimes {
    pub user: u64,
    pub nice: u64,
    pub system: u64,
    pub idle: u64,
    pub iowait: u64,
    pub irq: u64,
    pub softirq: u64,
    pub steal: u64,
}

/// Ticks spent idle, counting time waiting on I/O as idle.
pub open spec fn idle_ticks(t: CpuTimes) -> int {
    t.idle + t.iowait
}

/// All ticks of the breakdown.
pub open spec fn total_ticks(t: CpuTimes) -> int {
    idle_ticks(t) + t.user + t.nice + t.system + t.irq + t.softirq + t.steal
}

/// `curr - prev`, or 0 where the counter went backwards.
pub open spec fn clamped_delta(prev: int, curr: int) -> int {
    if curr > prev {
        curr - prev
    } else {
        0
    }
}

/// `n / d` rounded to the nearest integer, halves rounded up.
pub open spec fn round_div(n: int, d: int) -> int {
    (2 * n + d) / (2 * d)
}

/// CPU usage between two readings, in hundredths of a percent (0 to 10000):
/// the share of non-idle ticks among all ticks elapsed, rounded to the
/// nearest hundredth. No elapsed ticks, or more idle ticks than ticks in all,
/// give 0.
pub open spec fn cpu_usage_spec(prev: CpuTimes, curr: CpuTimes) -> int {
    let dt = clamped_delta(total_ticks(prev), total_ticks(curr));
    let di = clamped_delta(idle_ticks(prev), idle_ticks(curr));
    if dt == 0 || di >= dt {
        0
    } else {
        round_div((dt - di) * 10000, dt)
    }
}

/// The usage between any two readings lies between 0% and 100%, whatever
/// the counters did in between, including going backwards.
pub proof fn lemma_cpu_usage_bounded(prev: CpuTimes, curr: CpuTimes)
    ensures
        0 <= cpu_usage_spec(prev, curr) <= 10000,
{
    let dt = clamped_delta(total_ticks(prev), total_ticks(curr));
    let di = clamped_delta(idle_ticks(prev), idle_ticks(curr));
    if dt != 0 && di < dt {
        lemma_round_div_share(dt - di, dt);
    }
}

proof fn lemma_round_div_share(busy: int, total: int)
    requires
        0 < busy <= total,
    ensures
        0 <= round_div(busy * 10000, total) <= 10000,
{
    assert(2 * (busy * 10000) + total <= 2 * total * 10000 + total) by (nonlinear_arith)
        requires
            0 < busy <= total,
    ;
    assert((2 * total * 10000 + total) / (2 * total) == 10000) by (nonlinear_arith)
        requires
            total > 0,
    ;
    assert(0 <= 2 * (busy * 10000) + total) by (nonlinear_arith)
        requires
            0 < busy <= total,
    ;
    vstd::arithmetic::div_mod::lemma_div_is_ordered(
        2 * (busy * 10000) + total,
        2 * total * 10000 + total,
        2 * total,
    );
    vstd::arithmetic::div_mod::lemma_div_pos_is_pos(2 * (busy * 10000) + total, 2 * total);
}

fn idle_sum(t: &CpuTimes) -> (r: u128)
    ensures
        r == idle_ticks(*t),
{
    t.idle as u128 + t.iowait as u128
}

fn total_sum(t: &CpuTimes) -> (r: u128)
    ensures
        r == total_ticks(*t),
{
    idle_sum(t) + t.user as u128 + t.nice as u128 + t.system as u128 + t.irq as u128
        + t.softirq as u128 + t.steal as u128
}

/// CPU usage between two readings, in hundredths of a percent.
pub fn compute_cpu_usage(prev: CpuTimes, curr: CpuTimes) -> (r: u64)
    ensures
        r == cpu_usage_spec(prev, curr),
        r <= 10000,
{
    proof {
        lemma_cpu_usage_bounded(prev, curr);
    }
    let prev_idle = idle_sum(&prev);
    let curr_idle = idle_sum(&curr);
    let prev_total = total_sum(&prev);
    let curr_total = total_sum(&curr);
    let dt: u128 = if curr_total > prev_total {
        curr_total - prev_total
    } else {
        0
    };
    let di: u128 = if curr_idle > prev_idle {
        curr_idle - prev_idle
    } else {
        0
    };
    if dt == 0 || di >= dt {
        0
    } else {
        let busy: u128 = dt - di;
        assert(busy * 10000 <= dt * 10000) by (nonlinear_arith)
            requires
                busy <= dt,
        ;
        let n: u128 = 2 * (busy * 10000) + dt;
        let r: u128 = n / (2 * dt);
        r as u64
    }
}

/// Usage for the tick that reads `curr`, given the reading before it, if any:
/// the first tick has no baseline and reports 0.
pub fn usage_since(prev: Option<CpuTimes>, curr: CpuTimes) -> (r: u64)
    ensures
        r == match prev {
            Some(p) => cpu_usage_spec(p, curr),
            None => 0,
        },
        r <= 10000,
{
    match prev {
        Some(p) => compute_cpu_usage(p, curr),
        None => 0,
    }
}

} // verus!
