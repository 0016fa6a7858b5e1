use imonitor::cpu::{compute_cpu_usage, usage_since, CpuTimes};
use imonitor::rates::{
    bytes_per_sec_to_mb, bytes_to_gb, disk_percent, memory_percent, sleep_after_tick, NetTotals,
    SamplerState, GIB, MIB,
};

fn times(user: u64, idle: u64) -> CpuTimes {
    CpuTimes { user, nice: 0, system: 0, idle, iowait: 0, irq: 0, softirq: 0, steal: 0 }
}

#[test]
fn cpu_usage_share_of_busy_ticks() {
    // 100 busy ticks out of 1000 elapsed: 10%.
    assert_eq!(compute_cpu_usage(times(100, 800), times(200, 1700)), 1000);
}

#[test]
fn cpu_usage_counts_iowait_as_idle() {
    let prev = CpuTimes { user: 0, nice: 0, system: 0, idle: 0, iowait: 0, irq: 0, softirq: 0, steal: 0 };
    let curr = CpuTimes { user: 10, nice: 10, system: 10, idle: 40, iowait: 10, irq: 10, softirq: 5, steal: 5 };
    // 100 ticks elapsed, 50 idle or waiting: 50%.
    assert_eq!(compute_cpu_usage(prev, curr), 5000);
}

#[test]
fn cpu_usage_rounds_to_hundredths() {
    assert_eq!(compute_cpu_usage(times(0, 0), times(1, 2)), 3333);
    assert_eq!(compute_cpu_usage(times(0, 0), times(2, 1)), 6667);
}

#[test]
fn cpu_usage_bounds_on_ordinary_counters() {
    assert_eq!(compute_cpu_usage(times(0, 0), times(500, 0)), 10000);
    assert_eq!(compute_cpu_usage(times(0, 0), times(0, 500)), 0);
    assert_eq!(compute_cpu_usage(times(7, 7), times(7, 7)), 0);
}

#[test]
fn cpu_usage_wraparound_is_clamped() {
    // Counters went backwards: no ticks elapsed.
    assert_eq!(compute_cpu_usage(times(1000, 5000), times(10, 20)), 0);
    // Idle grew by more than the total did.
    assert_eq!(compute_cpu_usage(times(100, 0), times(0, 150)), 0);
    // Largest counters do not overflow.
    let big = CpuTimes { user: u64::MAX, nice: u64::MAX, system: u64::MAX, idle: u64::MAX, iowait: u64::MAX, irq: u64::MAX, softirq: u64::MAX, steal: u64::MAX };
    let u = compute_cpu_usage(times(0, 0), big);
    assert!(u <= 10000);
    assert_eq!(u, 7500);
}

#[test]
fn cpu_usage_first_sample_is_zero() {
    assert_eq!(usage_since(None, times(500, 500)), 0);
    assert_eq!(usage_since(Some(times(0, 0)), times(500, 500)), 5000);
}

#[test]
fn throughput_in_thousandths_of_mib() {
    assert_eq!(bytes_per_sec_to_mb(5 * MIB, 5), 1000);
    assert_eq!(bytes_per_sec_to_mb(MIB / 2, 1), 500);
    assert_eq!(bytes_per_sec_to_mb(1, 1), 0);
    assert_eq!(bytes_per_sec_to_mb(0, 5), 0);
    assert_eq!(bytes_per_sec_to_mb(u64::MAX, 1), 17592186044416000);
}

#[test]
fn throughput_zero_interval_is_zero() {
    assert_eq!(bytes_per_sec_to_mb(123456789, 0), 0);
    assert_eq!(bytes_per_sec_to_mb(u64::MAX, 0), 0);
}

#[test]
fn totals_in_thousandths_of_gib() {
    assert_eq!(bytes_to_gb(GIB), 1000);
    assert_eq!(bytes_to_gb(GIB / 2), 500);
    assert_eq!(bytes_to_gb(0), 0);
}

#[test]
fn memory_percent_values() {
    assert_eq!(memory_percent(1000, 250), 7500);
    assert_eq!(memory_percent(0, 100), 0);
    assert_eq!(memory_percent(100, 200), 0);
    assert_eq!(memory_percent(3, 0), 10000);
}

#[test]
fn disk_percent_values() {
    assert_eq!(disk_percent(0, 0), None);
    assert_eq!(disk_percent(1000, 1000), Some(0));
    assert_eq!(disk_percent(3, 1), Some(6667));
    assert_eq!(disk_percent(10, 20), Some(0));
}

#[test]
fn sampler_first_tick_rates_are_zero() {
    let mut st = SamplerState::new();
    let r = st.tick(Some(times(100, 100)), Some(NetTotals { sent: 5000, recv: 9000 }), 5);
    assert_eq!(r.cpu, 0);
    assert_eq!(r.sent_speed, 0);
    assert_eq!(r.recv_speed, 0);
    assert_eq!(st.prev_cpu, Some(times(100, 100)));
    assert_eq!(st.prev_net, Some(NetTotals { sent: 5000, recv: 9000 }));
}

#[test]
fn sampler_second_tick_uses_deltas() {
    let mut st = SamplerState::new();
    st.tick(Some(times(0, 0)), Some(NetTotals { sent: 0, recv: 0 }), 5);
    let r = st.tick(Some(times(25, 75)), Some(NetTotals { sent: 5 * MIB, recv: 10 * MIB }), 5);
    assert_eq!(r.cpu, 2500);
    assert_eq!(r.sent_speed, 1000);
    assert_eq!(r.recv_speed, 2000);
}

#[test]
fn sampler_failed_read_keeps_baseline() {
    let mut st = SamplerState::new();
    st.tick(Some(times(0, 0)), Some(NetTotals { sent: 0, recv: 0 }), 1);
    let r = st.tick(None, None, 1);
    assert_eq!(r, imonitor::rates::Rates { cpu: 0, sent_speed: 0, recv_speed: 0 });
    assert_eq!(st.prev_cpu, Some(times(0, 0)));
    let r = st.tick(Some(times(50, 50)), Some(NetTotals { sent: MIB, recv: 0 }), 1);
    assert_eq!(r.cpu, 5000);
    assert_eq!(r.sent_speed, 1000);
}

#[test]
fn sampler_counter_reset_gives_zero_speed() {
    let mut st = SamplerState::new();
    st.tick(None, Some(NetTotals { sent: 10 * MIB, recv: 10 * MIB }), 1);
    let r = st.tick(None, Some(NetTotals { sent: MIB, recv: 0 }), 1);
    assert_eq!(r.sent_speed, 0);
    assert_eq!(r.recv_speed, 0);
}

#[test]
fn sleep_fills_the_rest_of_the_interval() {
    assert_eq!(sleep_after_tick(5, 1200), 3800);
    assert_eq!(sleep_after_tick(5, 5000), 0);
    assert_eq!(sleep_after_tick(5, 9000), 0);
    assert_eq!(sleep_after_tick(1, 0), 1000);
    assert_eq!(sleep_after_tick(u64::MAX, 0), u64::MAX as u128 * 1000);
}
