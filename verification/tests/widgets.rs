use rs_top::app::{ConnectionStatus, DisplayMode, HostState};
use rs_top::widgets::{
    failed_units_line, is_braille_symbol, FailedUnits, HostOverview, HostOverviewList,
    TopProcesses,
};

#[test]
fn item_height_matches_display_mode() {
    let hosts = vec![HostState::default()];

    let standard = HostOverviewList::new(&hosts, 0, 0, DisplayMode::Standard);
    let compact = HostOverviewList::new(&hosts, 0, 0, DisplayMode::Compact);

    assert_eq!(standard.item_height(), 8);
    assert_eq!(compact.item_height(), 3);
}

fn hosts(n: usize) -> Vec<HostState> {
    (0..n).map(|_| HostState::default()).collect()
}

#[test]
fn window_scrolls_to_keep_focus_visible() {
    let hs = hosts(10);
    let w = HostOverviewList::new(&hs, 7, 0, DisplayMode::Standard).window(24);
    assert_eq!(w.visible_count, 3);
    assert_eq!(w.scroll, 5);
    assert!(w.has_scrollbar);

    let w = HostOverviewList::new(&hs, 1, 4, DisplayMode::Standard).window(24);
    assert_eq!(w.scroll, 1);

    let w = HostOverviewList::new(&hs, 5, 4, DisplayMode::Compact).window(30);
    assert_eq!(w.visible_count, 10);
    assert_eq!(w.scroll, 4);
    assert!(!w.has_scrollbar);
}

#[test]
fn window_shows_at_least_one_host() {
    let hs = hosts(2);
    let w = HostOverviewList::new(&hs, 1, 0, DisplayMode::Standard).window(3);
    assert_eq!(w.visible_count, 1);
    assert_eq!(w.scroll, 1);
    assert!(w.has_scrollbar);
}

#[test]
fn overview_titles() {
    let host = HostState {
        name: "me@box:22".to_string(),
        connection_status: ConnectionStatus::Failed,
        ..Default::default()
    };
    assert_eq!(
        HostOverview::new(&host, true, DisplayMode::Standard).title(),
        " me@box:22 (Failed) | Tab: ▼ | Shift+Tab: ▲ | Enter: Launch SSH "
    );
    assert_eq!(
        HostOverview::new(&host, false, DisplayMode::Standard).title(),
        " me@box:22 (Failed) "
    );
    assert_eq!(
        HostOverview::new(&host, true, DisplayMode::Compact).title(),
        " me@box:22 "
    );
    assert_eq!(ConnectionStatus::Connected.label(), "Connected");
}

#[test]
fn failed_units_line_is_cut_with_ellipsis() {
    let units = vec!["a.service".to_string(), "b.service".to_string()];
    assert_eq!(
        failed_units_line(&units, 80),
        "Failed Units (2): a.service, b.service"
    );
    assert_eq!(failed_units_line(&units, 20), "Failed Units (2):...");
    assert_eq!(failed_units_line(&units, 3), "Failed Units (2): a.service, b.service");
    assert_eq!(failed_units_line(&[], 80), "Failed Units (0): ");
}

#[test]
fn top_processes_header_and_length() {
    let procs = vec!["PID USER".to_string(), "1 root".to_string(), "2 me".to_string()];
    let t = TopProcesses::new(&procs, 1);
    assert_eq!(t.header_line(), "    PID USER");
    assert_eq!(t.scroll_length(), 2);
    let empty: Vec<String> = vec![];
    let t = TopProcesses::new(&empty, 0);
    assert_eq!(t.header_line(), "    ");
    assert_eq!(t.scroll_length(), 0);
}

#[test]
fn failed_units_bar_scroll_is_clamped() {
    let units = vec!["ü.service".to_string(), "x".to_string()];
    let bar = FailedUnits::new(&units, 100);
    assert_eq!(bar.text(), "ü.service, x");
    assert_eq!(bar.content_width(), "ü.service, x".len());
    assert_eq!(bar.visible_scroll(5), 13 - 5);
    assert_eq!(bar.visible_scroll(40), 0);
    let bar = FailedUnits::new(&units, 2);
    assert_eq!(bar.visible_scroll(5), 2);
}

#[test]
fn braille_detection() {
    assert!(is_braille_symbol("⣿"));
    assert!(is_braille_symbol("⠁"));
    assert!(!is_braille_symbol("⠀"));
    assert!(!is_braille_symbol(" "));
    assert!(!is_braille_symbol(""));
    assert!(!is_braille_symbol("a⣿"));
}
