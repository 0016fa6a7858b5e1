use imonitor::cpu::CpuTimes;
use imonitor::procfs::{
    parse_cpu_info, parse_cpu_stat, parse_loadavg, parse_meminfo, parse_net_dev, parse_net_row,
    parse_os_release, parse_uptime,
};
use imonitor::rates::NetTotals;
use imonitor::text::{parse_hundredths, parse_u64, parse_whole_part, second_field_trimmed, split_words};

fn lines(text: &str) -> Vec<String> {
    text.lines().map(|l| l.to_string()).collect()
}

#[test]
fn words_split_on_whitespace() {
    assert_eq!(split_words("  cpu  1\t2 \u{3000}x "), vec!["cpu", "1", "2", "x"]);
    assert!(split_words("   ").is_empty());
    assert!(split_words("").is_empty());
}

#[test]
fn parse_u64_like_std() {
    assert_eq!(parse_u64("0"), Some(0));
    assert_eq!(parse_u64("+42"), Some(42));
    assert_eq!(parse_u64("18446744073709551615"), Some(u64::MAX));
    assert_eq!(parse_u64("18446744073709551616"), None);
    assert_eq!(parse_u64(""), None);
    assert_eq!(parse_u64("+"), None);
    assert_eq!(parse_u64("-1"), None);
    assert_eq!(parse_u64("12a"), None);
    assert_eq!(parse_u64(" 1"), None);
}

#[test]
fn trim_and_second_field() {
    assert_eq!(second_field_trimmed("k:  a b \n"), Some("a b".to_string()));
    assert_eq!(second_field_trimmed("model name\t: Intel(R) Xeon(R)  "), Some("Intel(R) Xeon(R)".to_string()));
    assert_eq!(second_field_trimmed("a: b : c"), Some("b".to_string()));
    assert_eq!(second_field_trimmed("no colon"), None);
    assert_eq!(second_field_trimmed("key:"), Some(String::new()));
}

#[test]
fn cpu_stat_first_line() {
    let t = parse_cpu_stat("cpu  4705 356 584 3699176 23 23 0 0 0 0").unwrap();
    assert_eq!(t, CpuTimes { user: 4705, nice: 356, system: 584, idle: 3699176, iowait: 23, irq: 23, softirq: 0, steal: 0 });
    assert_eq!(parse_cpu_stat("cpu0 1 2 3 4 5 6 7 8"), None);
    assert_eq!(parse_cpu_stat("cpu 1 2 3 4 5 6 7"), None);
    assert_eq!(parse_cpu_stat(""), None);
    let skipped = parse_cpu_stat("cpu 1 x 2 3 4 5 6 7 8").unwrap();
    assert_eq!(skipped.nice, 2);
    assert_eq!(skipped.steal, 8);
}

const NET_DEV: &str = "Inter-|   Receive                                                |  Transmit
 face |bytes    packets errs drop fifo frame compressed multicast|bytes    packets errs drop fifo colls carrier compressed
    lo:  1000      10    0    0    0     0          0         0     1000      10    0    0    0     0       0          0
  eth0: 2000      20    0    0    0     0          0         0     3000      30    0    0    0     0       0          0
";

#[test]
fn net_dev_totals() {
    assert_eq!(parse_net_dev(&lines(NET_DEV)), NetTotals { sent: 4000, recv: 3000 });
    assert_eq!(parse_net_dev(&Vec::new()), NetTotals { sent: 0, recv: 0 });
}

#[test]
fn net_dev_rows() {
    assert_eq!(parse_net_row("eth0: 5 0 0 0 0 0 0 0 7 0"), Some((5, 7)));
    assert_eq!(parse_net_row("eth0: 5 0 0 0 0 0 0 0"), None);
    assert_eq!(parse_net_row("   : 5 0 0 0 0 0 0 0 7"), None);
    assert_eq!(parse_net_row("eth0 5 0 0 0 0 0 0 0 7"), None);
    assert_eq!(parse_net_row("eth0: x 0 0 0 0 0 0 0 7"), Some((0, 7)));
}

#[test]
fn net_dev_saturates() {
    let text = format!("h1\nh2\na: {m} 0 0 0 0 0 0 0 {m}\nb: 5 0 0 0 0 0 0 0 5\n", m = u64::MAX);
    assert_eq!(parse_net_dev(&lines(&text)), NetTotals { sent: u64::MAX, recv: u64::MAX });
}

#[test]
fn meminfo_values() {
    let text = "MemTotal:       16000 kB\nMemFree:         1000 kB\nMemAvailable:    4000 kB\n";
    assert_eq!(parse_meminfo(&lines(text)), Some((16000 * 1024, 4000 * 1024)));
    assert_eq!(parse_meminfo(&lines("MemFree: 10 kB\n")), None);
    assert_eq!(parse_meminfo(&lines("MemTotal: 10 kB\n")), Some((10240, 0)));
    assert_eq!(parse_meminfo(&lines("MemTotal: bad kB\nMemAvailable: 5 kB\n")), None);
    assert_eq!(parse_meminfo(&lines("MemTotal: 10 kB\nMemAvailable: 5 kB\nMemTotal: bad\n")), Some((10240, 5120)));
}

#[test]
fn cpu_info_physical() {
    let text = "processor\t: 0\nmodel name\t: AMD EPYC 7B13\nflags\t\t: fpu sse\nprocessor\t: 1\nmodel name\t: other\n";
    assert_eq!(parse_cpu_info(&lines(text)), ("AMD EPYC 7B13".to_string(), 2));
}

#[test]
fn cpu_info_virtual() {
    let text = "processor\t: 0\nmodel name\t: Xeon\nflags\t\t: fpu hypervisor sse\n";
    assert_eq!(parse_cpu_info(&lines(text)), ("虚拟 CPU / Xeon".to_string(), 1));
    let text = "processor\t: 0\nmodel name\t: Xeon\nflags\t\t: hypervisor\nHypervisor vendor: KVM\n";
    assert_eq!(parse_cpu_info(&lines(text)), ("虚拟 CPU (KVM)".to_string(), 1));
}

#[test]
fn cpu_info_missing() {
    assert_eq!(parse_cpu_info(&Vec::new()), ("Unknown CPU".to_string(), 1));
}

#[test]
fn os_release_names() {
    let text = "NAME=\"Ubuntu\"\nVERSION=\"22.04 LTS\"\nPRETTY_NAME=\"Ubuntu 22.04.3 LTS\"\n";
    assert_eq!(parse_os_release(&lines(text)), ("Ubuntu 22.04.3 LTS".to_string(), "Ubuntu 22.04.3 LTS".to_string()));
    let text = "NAME=\"Alpine\"\nVERSION=3.19\nNAME=Other\n";
    assert_eq!(parse_os_release(&lines(text)), ("Alpine 3.19".to_string(), "Alpine 3.19".to_string()));
    assert_eq!(parse_os_release(&lines("NAME=Arch\n")), ("Arch".to_string(), "Arch".to_string()));
    assert_eq!(parse_os_release(&Vec::new()), ("Linux".to_string(), "Linux".to_string()));
}

#[test]
fn decimal_hundredths() {
    assert_eq!(parse_hundredths("0.52"), Some(52));
    assert_eq!(parse_hundredths("1.525"), Some(153));
    assert_eq!(parse_hundredths("1.524"), Some(152));
    assert_eq!(parse_hundredths("3"), Some(300));
    assert_eq!(parse_hundredths("3."), Some(300));
    assert_eq!(parse_hundredths("0.5"), Some(50));
    assert_eq!(parse_hundredths(".5"), None);
    assert_eq!(parse_hundredths("1.2.3"), None);
    assert_eq!(parse_hundredths("-1"), None);
    assert_eq!(parse_hundredths("184467440737095515"), Some(18446744073709551500));
    assert_eq!(parse_hundredths("184467440737095516"), None);
    assert_eq!(parse_whole_part("12345.67"), Some(12345));
    assert_eq!(parse_whole_part("12345"), Some(12345));
    assert_eq!(parse_whole_part("x1"), None);
}

#[test]
fn loadavg_and_uptime() {
    assert_eq!(parse_loadavg("0.52 0.58 0.59 1/189 12345\n"), Some((52, 58, 59)));
    assert_eq!(parse_loadavg("0.52 0.58"), None);
    assert_eq!(parse_loadavg("0.52 x 0.59"), None);
    assert_eq!(parse_uptime("350735.47 234388.90\n"), Some(350735));
    assert_eq!(parse_uptime(""), None);
}
