use rs_top::app::{
    push_history, App, AppAction, ConnectionStatus, CpuSample, DisplayMode, HostState,
    InputEvent, KeyCode, MAX_HISTORY, STATS_INTERVAL_SECS,
};
use rs_top::config::HostConfig;
use rs_top::stats::HostStats;

fn make_host(address: &str) -> HostState {
    HostState {
        name: address.to_string(),
        config: Some(HostConfig {
            user: Some("alice".to_string()),
            port: Some(22),
            identity_file: Some("/tmp/id_ed25519".to_string()),
            address: address.to_string(),
        }),
        ..Default::default()
    }
}

fn key_event(code: KeyCode) -> AppAction {
    AppAction::Input(InputEvent::Key {
        code,
        pressed: true,
    })
}

fn cpu_usage(host: &HostState) -> Vec<f64> {
    host.cpu_usage
        .iter()
        .map(|s: &CpuSample| 100.0 * (1.0 - (s.idle as f64 / s.total as f64)))
        .collect()
}

fn rates(bytes: &[u64]) -> Vec<f64> {
    bytes
        .iter()
        .map(|&b| b as f64 / STATS_INTERVAL_SECS as f64)
        .collect()
}

#[test]
fn tab_and_backtab_wrap_focused_host() {
    let mut app = App {
        running: true,
        hosts: vec![
            make_host("host-a"),
            make_host("host-b"),
            make_host("host-c"),
        ],
        ..Default::default()
    };

    app.update(key_event(KeyCode::Tab));
    assert_eq!(app.focused_host, 1);

    app.update(key_event(KeyCode::Tab));
    assert_eq!(app.focused_host, 2);

    app.update(key_event(KeyCode::Tab));
    assert_eq!(app.focused_host, 0);

    app.update(key_event(KeyCode::BackTab));
    assert_eq!(app.focused_host, 2);
}

#[test]
fn enter_sets_pending_ssh_host_and_stops_app() {
    let mut app = App {
        running: true,
        hosts: vec![make_host("host-a"), make_host("host-b")],
        focused_host: 1,
        ..Default::default()
    };

    app.update(key_event(KeyCode::Enter));

    assert!(!app.running);
    assert_eq!(
        app.pending_ssh_host
            .as_ref()
            .map(|host| host.address.as_str()),
        Some("host-b")
    );
}

#[test]
fn key_release_events_are_ignored() {
    let mut app = App {
        running: true,
        hosts: vec![make_host("host-a"), make_host("host-b")],
        ..Default::default()
    };
    let release = AppAction::Input(InputEvent::Key {
        code: KeyCode::Enter,
        pressed: false,
    });

    app.update(release);

    assert!(app.running);
    assert!(app.pending_ssh_host.is_none());
}

#[test]
fn display_mode_toggles_with_m_key() {
    let mut app = App {
        display_mode: DisplayMode::Standard,
        ..Default::default()
    };

    app.update(key_event(KeyCode::Char('m')));
    assert_eq!(app.display_mode, DisplayMode::Compact);

    app.update(key_event(KeyCode::Char('m')));
    assert_eq!(app.display_mode, DisplayMode::Standard);
}

#[test]
fn stats_fetched_updates_history_and_latest_stats() {
    let mut app = App {
        hosts: vec![HostState {
            name: "host-a".to_string(),
            prev_cpu_total: 100,
            prev_cpu_idle: 40,
            prev_net_rx: 1_000,
            prev_net_tx: 2_000,
            ..make_host("host-a")
        }],
        ..Default::default()
    };
    let stats = HostStats {
        mem_total: 4_000,
        mem_available: 1_000,
        cpu_total: 220,
        cpu_idle: 70,
        disk_total: 10_000,
        disk_used: 2_500,
        net_rx: 1_600,
        net_tx: 2_800,
        processes: vec!["header".to_string(), "proc".to_string()],
        ..Default::default()
    };

    app.update(AppAction::StatsFetched("host-a".to_string(), stats.clone()));

    let host = &app.hosts[0];
    assert_eq!(host.mem_total, 4_000);
    assert_eq!(host.mem_used, vec![3_000]);
    assert_eq!(host.disk_total, 10_000);
    assert_eq!(host.disk_used, 2_500);
    assert_eq!(rates(&host.net_rx_bytes), vec![300.0]);
    assert_eq!(rates(&host.net_tx_bytes), vec![400.0]);
    assert_eq!(host.prev_cpu_total, 220);
    assert_eq!(host.prev_cpu_idle, 70);
    assert_eq!(host.prev_net_rx, 1_600);
    assert_eq!(host.prev_net_tx, 2_800);
    assert_eq!(host.stats.as_ref().unwrap().processes, stats.processes);
    assert_eq!(host.cpu_usage.len(), 1);
    assert!((cpu_usage(host)[0] - 75.0).abs() < f64::EPSILON);
}

#[test]
fn process_scrolling_respects_process_list_bounds() {
    let mut app = App {
        hosts: vec![HostState {
            name: "host-a".to_string(),
            stats: Some(HostStats {
                processes: vec![
                    "header".to_string(),
                    "proc-1".to_string(),
                    "proc-2".to_string(),
                ],
                ..Default::default()
            }),
            ..make_host("host-a")
        }],
        ..Default::default()
    };

    app.update(key_event(KeyCode::Down));
    app.update(key_event(KeyCode::Char('j')));
    app.update(key_event(KeyCode::Down));
    assert_eq!(app.hosts[0].process_scroll, 2);

    app.update(key_event(KeyCode::Up));
    app.update(key_event(KeyCode::Char('k')));
    app.update(key_event(KeyCode::Up));
    assert_eq!(app.hosts[0].process_scroll, 0);
}

// ---------------------------------------------------------------- more cases

#[test]
fn new_names_hosts_and_starts_connecting() {
    let configs = vec![
        HostConfig {
            user: None,
            port: None,
            identity_file: None,
            address: "10.0.0.1".to_string(),
        },
        HostConfig {
            user: Some("bob".to_string()),
            port: Some(2222),
            identity_file: None,
            address: "web".to_string(),
        },
    ];
    let app = App::new(configs, "carol");
    assert!(app.running);
    assert_eq!(app.hosts.len(), 2);
    assert_eq!(app.hosts[0].name, "carol@10.0.0.1:22");
    assert_eq!(app.hosts[1].name, "bob@web:2222");
    assert_eq!(app.hosts[1].connection_status, ConnectionStatus::Connecting);
    assert!(!app.hosts[0].has_session);
    assert_eq!(app.focused_host, 0);
    assert!(app.pending_ssh_host.is_none());
}

#[test]
fn tab_then_backtab_returns_to_the_same_host() {
    let mut app = App {
        hosts: vec![make_host("a"), make_host("b"), make_host("c"), make_host("d")],
        focused_host: 2,
        ..Default::default()
    };
    app.update(key_event(KeyCode::Tab));
    assert_eq!(app.focused_host, 3);
    app.update(key_event(KeyCode::BackTab));
    assert_eq!(app.focused_host, 2);
    app.focused_host = 0;
    app.update(key_event(KeyCode::BackTab));
    assert_eq!(app.focused_host, 3);
    app.update(key_event(KeyCode::Tab));
    assert_eq!(app.focused_host, 0);
}

#[test]
fn tab_without_hosts_does_nothing() {
    let mut app = App::default();
    app.update(key_event(KeyCode::Tab));
    app.update(key_event(KeyCode::BackTab));
    assert_eq!(app.focused_host, 0);
}

#[test]
fn q_stops_without_pending_host() {
    let mut app = App {
        running: true,
        hosts: vec![make_host("a")],
        ..Default::default()
    };
    app.update(key_event(KeyCode::Char('q')));
    assert!(!app.running);
    assert!(app.pending_ssh_host.is_none());
}

#[test]
fn other_events_and_keys_change_nothing() {
    let mut app = App {
        running: true,
        hosts: vec![make_host("a")],
        ..Default::default()
    };
    assert_eq!(app.update(AppAction::Input(InputEvent::Other)), None);
    app.update(key_event(KeyCode::Char('x')));
    app.update(key_event(KeyCode::Other));
    assert!(app.running);
    assert_eq!(app.focused_host, 0);
    assert_eq!(app.display_mode, DisplayMode::Standard);
}

#[test]
fn scrolling_without_stats_stays_at_top() {
    let mut app = App {
        hosts: vec![make_host("a")],
        ..Default::default()
    };
    app.update(key_event(KeyCode::Down));
    assert_eq!(app.hosts[0].process_scroll, 0);
    app.update(key_event(KeyCode::Up));
    assert_eq!(app.hosts[0].process_scroll, 0);
}

#[test]
fn connection_reports_set_status_of_first_matching_host() {
    let mut app = App {
        hosts: vec![make_host("a"), make_host("b"), make_host("b")],
        ..Default::default()
    };
    assert_eq!(app.update(AppAction::Connected("b".to_string())), Some(1));
    assert_eq!(app.hosts[1].connection_status, ConnectionStatus::Connected);
    assert!(app.hosts[1].has_session);
    assert_eq!(app.hosts[2].connection_status, ConnectionStatus::Connecting);
    assert_eq!(
        app.update(AppAction::ConnectionFailed("a".to_string(), "refused".to_string())),
        Some(0)
    );
    assert_eq!(app.hosts[0].connection_status, ConnectionStatus::Failed);
    assert!(!app.hosts[0].has_session);
    assert_eq!(app.update(AppAction::Connected("zzz".to_string())), None);
}

#[test]
fn hosts_to_poll_are_those_with_sessions() {
    let mut app = App {
        hosts: vec![make_host("a"), make_host("b"), make_host("c")],
        ..Default::default()
    };
    app.update(AppAction::Connected("c".to_string()));
    app.update(AppAction::Connected("a".to_string()));
    assert_eq!(app.hosts_to_poll(), vec![0, 2]);
}

#[test]
fn first_stats_record_no_rates_and_later_ones_do() {
    let mut app = App {
        hosts: vec![make_host("a")],
        ..Default::default()
    };
    let first = HostStats {
        cpu_total: 100,
        cpu_idle: 50,
        net_rx: 10,
        net_tx: 20,
        mem_total: 5,
        mem_available: 9,
        ..Default::default()
    };
    app.update(AppAction::StatsFetched("a".to_string(), first));
    assert!(app.hosts[0].cpu_usage.is_empty());
    assert!(app.hosts[0].net_rx_bytes.is_empty());
    assert_eq!(app.hosts[0].mem_used, vec![0]);
    let second = HostStats {
        cpu_total: 100,
        cpu_idle: 60,
        net_rx: 15,
        net_tx: 18,
        ..Default::default()
    };
    app.update(AppAction::StatsFetched("a".to_string(), second));
    assert!(app.hosts[0].cpu_usage.is_empty());
    assert_eq!(app.hosts[0].net_rx_bytes, vec![5]);
    assert_eq!(app.hosts[0].net_tx_bytes, vec![0]);
}

#[test]
fn history_keeps_at_most_the_limit() {
    let mut v: Vec<u64> = Vec::new();
    for i in 0..(MAX_HISTORY as u64 + 5) {
        push_history(&mut v, i, MAX_HISTORY);
    }
    assert_eq!(v.len(), MAX_HISTORY);
    assert_eq!(v[0], 5);
    assert_eq!(*v.last().unwrap(), MAX_HISTORY as u64 + 4);
    let mut w = vec![1, 2];
    push_history(&mut w, 3, 2);
    assert_eq!(w, vec![2, 3]);
    let mut z: Vec<u8> = vec![];
    push_history(&mut z, 1, 0);
    assert!(z.is_empty());
}

#[test]
fn stopped_app_stays_stopped() {
    let mut app = App {
        running: true,
        hosts: vec![make_host("a"), make_host("b")],
        ..Default::default()
    };
    app.update(key_event(KeyCode::Char('q')));
    for code in [
        KeyCode::Tab,
        KeyCode::Enter,
        KeyCode::Char('m'),
        KeyCode::Down,
        KeyCode::Char('q'),
    ] {
        app.update(key_event(code));
        assert!(!app.running);
    }
    app.update(AppAction::Connected("a".to_string()));
    assert!(!app.running);
    assert_eq!(app.hosts[0].name, "a");
    assert!(app.focused_host < app.hosts.len());
}

#[test]
fn k_tab_presses_move_focus_k_hosts_round() {
    let mut app = App {
        hosts: vec![make_host("a"), make_host("b"), make_host("c")],
        focused_host: 1,
        ..Default::default()
    };
    for _ in 0..7 {
        app.update(key_event(KeyCode::Tab));
    }
    assert_eq!(app.focused_host, (1 + 7) % 3);
}
