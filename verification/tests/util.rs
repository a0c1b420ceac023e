use rs_top::config::HostConfig;
use rs_top::format::{format_mem_title, format_uptime};

#[test]
fn formatting_helpers_are_stable() {
    assert_eq!(format_mem_title(2_500_000, 8_000_000), "RAM 2.5G/8.0G");
}

#[test]
fn mem_title_rounds_to_one_decimal() {
    assert_eq!(format_mem_title(0, 0), "RAM 0.0G/0.0G");
    assert_eq!(format_mem_title(0, 999_999), "RAM 0.0G/1.0G");
    assert_eq!(format_mem_title(1_149_999, 12_345_678), "RAM 1.1G/12.3G");
    assert_eq!(format_mem_title(1_150_001, 99_960_000), "RAM 1.2G/100.0G");
    assert_eq!(format_mem_title(250_000, 750_000), "RAM 0.2G/0.8G");
}

#[test]
fn mem_title_halfway_values_follow_the_double() {
    assert_eq!(format_mem_title(350_000, 0), "RAM 0.3G/0.0G");
    assert_eq!(format_mem_title(150_000, 450_000), "RAM 0.1G/0.5G");
    assert_eq!(format_mem_title(123_456_789_012_345_678, 50_000), "RAM 123456789012.3G/0.1G");
    assert_eq!(
        format_mem_title(u64::MAX, 9_007_199_254_740_993),
        "RAM 18446744073709.6G/9007199254.7G"
    );
}

#[test]
fn mem_title_matches_float_formatting() {
    let mut v: u64 = 1;
    for i in 0..2000u64 {
        v = v.wrapping_mul(6364136223846793005).wrapping_add(1442695040888963407);
        let samples = [v, v >> 20, (v >> 30) / 100_000 * 100_000 + 50_000, i * 50_000];
        for &u in &samples {
            let expected = format!(
                "RAM {:.1}G/{:.1}G",
                u as f64 / 1_000_000.0,
                (u >> 3) as f64 / 1_000_000.0
            );
            assert_eq!(format_mem_title(u, u >> 3), expected);
        }
    }
}

#[test]
fn uptime_text_for_each_range() {
    assert_eq!(format_uptime(0), "0s");
    assert_eq!(format_uptime(60), "1m 0s");
    assert_eq!(format_uptime(3600), "1h 0m 0s");
    assert_eq!(format_uptime(86400), "1d 0h 0m 0s");
    assert_eq!(format_uptime(90061), "1d 1h 1m 1s");
    assert_eq!(format_uptime(u64::MAX), "213503982334601d 7h 0m 15s");
}

fn config(user: Option<&str>, port: Option<u16>, key: Option<&str>) -> HostConfig {
    HostConfig {
        user: user.map(|s| s.to_string()),
        port,
        identity_file: key.map(|s| s.to_string()),
        address: "host.example".to_string(),
    }
}

#[test]
fn ssh_arguments() {
    assert_eq!(
        config(Some("ann"), Some(2200), Some("/k")).ssh_args(),
        vec!["-p", "2200", "-i", "/k", "ann@host.example"]
    );
    assert_eq!(config(Some(""), None, Some("")).ssh_args(), vec!["host.example"]);
    assert_eq!(config(None, Some(22), None).ssh_args(), vec!["-p", "22", "host.example"]);
}

#[test]
fn session_settings_and_display_name() {
    let s = config(None, None, Some("")).session_settings("root");
    assert_eq!(s.user, "root");
    assert_eq!(s.port, 22);
    assert!(s.keyfile.is_none());
    let c = config(Some(""), Some(7), Some("/id"));
    let s = c.session_settings("root");
    assert_eq!(s.user, "");
    assert_eq!(s.port, 7);
    assert_eq!(s.keyfile.as_deref(), Some("/id"));
    assert_eq!(c.display_name("root"), "@host.example:7");
    assert_eq!(config(None, None, None).display_name("root"), "root@host.example:22");
    let d = c.duplicate();
    assert_eq!(d.user, c.user);
    assert_eq!(d.identity_file, c.identity_file);
    assert_eq!(d.address, c.address);
}

#[test]
fn mem_figure_never_decreases() {
    let figure = |v: u64| {
        let t = format_mem_title(v, 0);
        t["RAM ".len()..t.find("G/").unwrap()].parse::<f64>().unwrap()
    };
    let mut prev = figure(0);
    for v in (0..3_000_000u64).step_by(49_999) {
        let f = figure(v);
        assert!(f >= prev);
        prev = f;
    }
    assert!(figure(349_999) <= figure(350_000));
    assert!(figure(350_000) <= figure(350_001));
}
