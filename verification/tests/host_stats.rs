use rs_top::format::format_uptime;
use rs_top::stats::{stats_command, HostStats};

fn uptime_text(stats: &HostStats) -> String {
    match &stats.uptime_secs {
        Some(field) => format_uptime(field.parse::<f64>().unwrap_or(0.0) as u64),
        None => String::new(),
    }
}

fn load_avg_values(stats: &HostStats) -> (f64, f64, f64) {
    match &stats.load_avg {
        Some((a, b, c)) => (
            a.parse().unwrap_or(0.0),
            b.parse().unwrap_or(0.0),
            c.parse().unwrap_or(0.0),
        ),
        None => (0.0, 0.0, 0.0),
    }
}

#[test]
fn parse_mem_extracts_total_and_available_memory() {
    let mut stats = HostStats::default();
    stats.parse_mem(
        "MemTotal:       32768000 kB\n\
         MemFree:         1024000 kB\n\
         MemAvailable:   24576000 kB\n",
    );

    assert_eq!(stats.mem_total, 32_768_000);
    assert_eq!(stats.mem_available, 24_576_000);
}

#[test]
fn parse_mem_defaults_missing_or_invalid_values_to_zero() {
    let mut stats = HostStats {
        mem_total: 1,
        mem_available: 1,
        ..Default::default()
    };
    stats.parse_mem("MemTotal:\nMemAvailable: not-a-number\n");

    assert_eq!(stats.mem_total, 0);
    assert_eq!(stats.mem_available, 0);
}

#[test]
fn parse_cpu_sums_fields_and_tracks_idle_column() {
    let mut stats = HostStats::default();
    stats.parse_cpu("cpu  10 20 30 40 50 60 70 80 90 100");

    assert_eq!(stats.cpu_total, 550);
    assert_eq!(stats.cpu_idle, 40);
}

#[test]
fn parse_cpu_treats_invalid_numbers_as_zero() {
    let mut stats = HostStats::default();
    stats.parse_cpu("cpu  10 20 nope 40");

    assert_eq!(stats.cpu_total, 70);
    assert_eq!(stats.cpu_idle, 40);
}

#[test]
fn parse_uptime_formats_multiple_ranges() {
    let mut stats = HostStats::default();
    stats.parse_uptime("59.9 0.0");
    assert_eq!(uptime_text(&stats), "59s");

    stats.parse_uptime("121.0 0.0");
    assert_eq!(uptime_text(&stats), "2m 1s");

    stats.parse_uptime("3661.0 0.0");
    assert_eq!(uptime_text(&stats), "1h 1m 1s");

    stats.parse_uptime("90061.0 0.0");
    assert_eq!(uptime_text(&stats), "1d 1h 1m 1s");
}

#[test]
fn parse_disk_extracts_total_and_used_bytes() {
    let mut stats = HostStats::default();
    stats.parse_disk("/dev/sda1 1000000000 250000000 750000000 25% /\n");

    assert_eq!(stats.disk_total, 1_000_000_000);
    assert_eq!(stats.disk_used, 250_000_000);
}

#[test]
fn parse_disk_ignores_short_lines() {
    let mut stats = HostStats {
        disk_total: 1,
        disk_used: 1,
        ..Default::default()
    };
    stats.parse_disk("filesystem only\n");

    assert_eq!(stats.disk_total, 1);
    assert_eq!(stats.disk_used, 1);
}

#[test]
fn parse_ip_uses_remote_address_from_ssh_connection() {
    let mut stats = HostStats::default();
    stats.parse_ip("192.168.1.10 53124 10.0.0.5 22");

    assert_eq!(stats.ip_address, "10.0.0.5");
}

#[test]
fn parse_ip_defaults_to_unknown_when_missing() {
    let mut stats = HostStats::default();
    stats.parse_ip("127.0.0.1");

    assert_eq!(stats.ip_address, "Unknown");
}

#[test]
fn parse_load_avg_reads_first_three_values() {
    let mut stats = HostStats::default();
    stats.parse_load_avg("0.55 1.23 4.56 2/123 4567");

    assert_eq!(load_avg_values(&stats), (0.55, 1.23, 4.56));
}

#[test]
fn parse_load_avg_defaults_invalid_values_to_zero() {
    let mut stats = HostStats::default();
    stats.parse_load_avg("0.55 nope 4.56");

    assert_eq!(load_avg_values(&stats), (0.55, 0.0, 4.56));
}

#[test]
fn parse_net_ignores_loopback_and_sums_other_interfaces() {
    let mut stats = HostStats::default();
    stats.parse_net(
        "Inter-|   Receive                                                |  Transmit\n\
         face |bytes    packets errs drop fifo frame compressed multicast|bytes    packets errs drop fifo colls carrier compressed\n\
         lo: 100 0 0 0 0 0 0 0 200 0 0 0 0 0 0 0\n\
         eth0: 300 0 0 0 0 0 0 0 400 0 0 0 0 0 0 0\n\
         wlan0: 500 0 0 0 0 0 0 0 600 0 0 0 0 0 0 0",
    );

    assert_eq!(stats.net_rx, 800);
    assert_eq!(stats.net_tx, 1_000);
}

#[test]
fn parse_processes_and_failed_units_drop_empty_lines() {
    let mut stats = HostStats::default();
    stats.parse_processes("PID USER\n123 root top\n\n456 admin sshd");
    stats.parse_failed_units("foo.service\n\n bar.service \n");

    assert_eq!(
        stats.processes,
        vec![
            "PID USER".to_string(),
            "123 root top".to_string(),
            "456 admin sshd".to_string()
        ]
    );
    assert_eq!(
        stats.failed_units,
        vec!["foo.service".to_string(), "bar.service".to_string()]
    );
}

// ---------------------------------------------------------------- more cases

#[test]
fn parse_mem_keeps_values_when_lines_are_missing() {
    let mut stats = HostStats {
        mem_total: 7,
        mem_available: 9,
        ..Default::default()
    };
    stats.parse_mem("MemFree: 5 kB\n");
    assert_eq!(stats.mem_total, 7);
    assert_eq!(stats.mem_available, 9);
}

#[test]
fn parse_mem_last_line_wins_and_plus_sign_is_a_number() {
    let mut stats = HostStats::default();
    stats.parse_mem("MemTotal: 10 kB\r\nMemTotal: +20 kB\nMemAvailable: -3 kB\n");
    assert_eq!(stats.mem_total, 20);
    assert_eq!(stats.mem_available, 0);
}

#[test]
fn parse_cpu_reports_counter_overflow() {
    let mut stats = HostStats {
        cpu_total: 5,
        cpu_idle: 2,
        ..Default::default()
    };
    let fits = stats.parse_cpu("cpu 18446744073709551615 1");
    assert!(!fits);
    assert_eq!(stats.cpu_total, 5);
    assert_eq!(stats.cpu_idle, 2);
    assert!(stats.parse_cpu("cpu 18446744073709551615 0"));
    assert_eq!(stats.cpu_total, u64::MAX);
}

#[test]
fn parse_cpu_without_fields_gives_zero() {
    let mut stats = HostStats {
        cpu_total: 5,
        cpu_idle: 2,
        ..Default::default()
    };
    assert!(stats.parse_cpu(""));
    assert_eq!(stats.cpu_total, 0);
    assert_eq!(stats.cpu_idle, 0);
}

#[test]
fn parse_number_too_large_counts_zero() {
    let mut stats = HostStats::default();
    stats.parse_disk("/dev/sda1 18446744073709551616 12");
    assert_eq!(stats.disk_total, 0);
    assert_eq!(stats.disk_used, 12);
}

#[test]
fn parse_uptime_of_empty_section_is_zero_seconds() {
    let mut stats = HostStats::default();
    assert_eq!(uptime_text(&stats), "");
    stats.parse_uptime("");
    assert_eq!(stats.uptime_secs.as_deref(), Some("0"));
    assert_eq!(uptime_text(&stats), "0s");
}

#[test]
fn parse_net_skips_short_lines_and_lo_prefixed_names() {
    let mut stats = HostStats::default();
    let fits = stats.parse_net(
        "h1\nh2\nlowpan0: 1 0 0 0 0 0 0 0 2 0\neth1: 3 0 0\neth2:\t4 0 0 0 0 0 0 0 5 0",
    );
    assert!(fits);
    assert_eq!(stats.net_rx, 4);
    assert_eq!(stats.net_tx, 5);
}

#[test]
fn parse_net_reports_overflow() {
    let mut stats = HostStats::default();
    let fits = stats.parse_net(
        "h1\nh2\na: 18446744073709551615 0 0 0 0 0 0 0 1 0\nb: 1 0 0 0 0 0 0 0 1 0",
    );
    assert!(!fits);
    assert_eq!(stats.net_rx, 0);
}

#[test]
fn failed_units_are_trimmed_of_unicode_whitespace() {
    let mut stats = HostStats::default();
    stats.parse_failed_units("\u{a0}a.service\u{3000}\r\n\t\n");
    assert_eq!(stats.failed_units, vec!["a.service".to_string()]);
}

#[test]
fn stats_command_joins_sections_with_marker() {
    let cmd = stats_command();
    assert!(cmd.starts_with("cat /proc/meminfo | head -n 3; echo '---SECTION---'; cat /proc/stat"));
    assert!(cmd.ends_with("awk '{print $1}'"));
    assert_eq!(cmd.matches("; echo '---SECTION---'; ").count(), 8);
}

#[test]
fn from_output_reads_every_section() {
    let out = "MemTotal: 4000 kB\nMemFree: 1 kB\nMemAvailable: 1000 kB\n---SECTION---\n\
cpu 1 2 3 4\n---SECTION---\n3661.5 10.0\n---SECTION---\n\
/dev/root 100 40 60 40% /\n---SECTION---\n1.2.3.4 5555 5.6.7.8 22\n---SECTION---\n\
0.10 0.20 0.30 1/100 99\n---SECTION---\nh1\nh2\n  eth0: 10 0 0 0 0 0 0 0 20 0\n---SECTION---\n\
PID USER\n1 root init\n---SECTION---\nx.service\n";
    let stats = HostStats::from_output(out).expect("counters fit");
    assert_eq!(stats.mem_total, 4000);
    assert_eq!(stats.mem_available, 1000);
    assert_eq!(stats.cpu_total, 10);
    assert_eq!(stats.cpu_idle, 4);
    assert_eq!(uptime_text(&stats), "1h 1m 1s");
    assert_eq!(stats.disk_total, 100);
    assert_eq!(stats.disk_used, 40);
    assert_eq!(stats.ip_address, "5.6.7.8");
    assert_eq!(load_avg_values(&stats), (0.10, 0.20, 0.30));
    assert_eq!(stats.net_rx, 10);
    assert_eq!(stats.net_tx, 20);
    assert_eq!(stats.processes, vec!["PID USER".to_string(), "1 root init".to_string()]);
    assert_eq!(stats.failed_units, vec!["x.service".to_string()]);
}

#[test]
fn from_output_with_few_sections_leaves_the_rest_empty() {
    let stats = HostStats::from_output("MemTotal: 5 kB\n---SECTION---\ncpu 1 1").unwrap();
    assert_eq!(stats.mem_total, 5);
    assert_eq!(stats.cpu_total, 2);
    assert!(stats.uptime_secs.is_none());
    assert!(stats.load_avg.is_none());
    assert_eq!(stats.ip_address, "");
    assert!(stats.processes.is_empty());
}

#[test]
fn from_output_refuses_counter_overflow() {
    assert!(HostStats::from_output("x---SECTION---cpu 18446744073709551615 1").is_none());
}
