//! The dashboard's state and how each event changes it: key presses move
//! the focus and scroll, connection reports set a host's status, and each
//! set of statistics extends the host's history.
//!
//! The SSH sessions themselves live with the caller, which runs the event
//! loop; `App::update` tells it which host an event was about.
use vstd::prelude::*;

use crate::config::HostConfig;
use crate::stats::HostStats;

verus! {

/// Seconds between two rounds of statistics.
pub const STATS_INTERVAL_SECS: u64 = 2;

/// How many samples each history keeps.
pub const MAX_HISTORY: usize = 200;

/// Where the SSH connection to a host stands.
#[derive(Debug, Clone, Copy, PartialEq, Eq, Structural)]
pub enum ConnectionStatus {
    Connecting,
    Connected,
    Failed,
}

impl Default for ConnectionStatus {
    fn default() -> (r: ConnectionStatus)
        ensures
            r == ConnectionStatus::Connecting,
    {
        ConnectionStatus::Connecting
    }
}

/// How the host list is drawn.
#[derive(Debug, Clone, Copy, PartialEq, Eq, Structural)]
pub enum DisplayMode {
    Standard,
    Compact,
}

impl Default for DisplayMode {
    fn default() -> (r: DisplayMode)
        ensures
            r == DisplayMode::Standard,
    {
        DisplayMode::Standard
    }
}

/// The keys the dashboard tells apart.
#[derive(Debug, Clone, Copy, PartialEq, Eq, Structural)]
pub enum KeyCode {
    Char(char),
    Enter,
    Tab,
    BackTab,
    Up,
    Down,
    Other,
}

/// A terminal event: a key (pressed, or released or repeated) or anything else.
#[derive(Debug, Clone, Copy, PartialEq, Eq, Structural)]
pub enum InputEvent {
    Key { code: KeyCode, pressed: bool },
    Other,
}

/// What the event loop hands to `App::update`.
pub enum AppAction {
    Input(InputEvent),
    /// The SSH session to the named host is open.
    Connected(String),
    /// The SSH session to the named host could not be opened.
    ConnectionFailed(String, String),
    StatsFetched(String, HostStats),
}

/// One cpu sample: idle and total jiffies over one interval. The busy
/// share is `1 - idle / total`.
#[derive(Debug, Clone, Copy, PartialEq, Eq, Structural)]
pub struct CpuSample {
    pub idle: u64,
    pub total: u64,
}

/// One watched host.
pub struct HostState {
    pub name: String,
    pub config: Option<HostConfig>,
    pub connection_status: ConnectionStatus,
    /// Whether the caller holds an open session to this host.
    pub has_session: bool,
    pub stats: Option<HostStats>,
    pub prev_cpu_total: u64,
    pub prev_cpu_idle: u64,
    pub cpu_usage: Vec<CpuSample>,
    pub mem_total: u64,
    pub mem_used: Vec<u64>,
    pub disk_total: u64,
    pub disk_used: u64,
    pub prev_net_rx: u64,
    pub prev_net_tx: u64,
    /// Bytes received per interval; the rate is this over `STATS_INTERVAL_SECS`.
    pub net_rx_bytes: Vec<u64>,
    /// Bytes sent per interval; the rate is this over `STATS_INTERVAL_SECS`.
    pub net_tx_bytes: Vec<u64>,
    pub process_scroll: usize,
    pub failed_units_scroll: usize,
}

/// A host with only a name and a configuration: nothing read yet.
pub open spec fn is_fresh(h: HostState) -> bool {
    &&& h.connection_status == ConnectionStatus::Connecting
    &&& !h.has_session
    &&& h.stats is None
    &&& h.prev_cpu_total == 0
    &&& h.prev_cpu_idle == 0
    &&& h.cpu_usage@.len() == 0
    &&& h.mem_total == 0
    &&& h.mem_used@.len() == 0
    &&& h.disk_total == 0
    &&& h.disk_used == 0
    &&& h.prev_net_rx == 0
    &&& h.prev_net_tx == 0
    &&& h.net_rx_bytes@.len() == 0
    &&& h.net_tx_bytes@.len() == 0
    &&& h.process_scroll == 0
    &&& h.failed_units_scroll == 0
}

impl Default for HostState {
    fn default() -> (h: HostState)
        ensures
            h.name@.len() == 0,
            h.config is None,
            is_fresh(h),
    {
        HostState {
            name: String::new(),
            config: None,
            connection_status: ConnectionStatus::Connecting,
            has_session: false,
            stats: None,
            prev_cpu_total: 0,
            prev_cpu_idle: 0,
            cpu_usage: Vec::new(),
            mem_total: 0,
            mem_used: Vec::new(),
            disk_total: 0,
            disk_used: 0,
            prev_net_rx: 0,
            prev_net_tx: 0,
            net_rx_bytes: Vec::new(),
            net_tx_bytes: Vec::new(),
            process_scroll: 0,
            failed_units_scroll: 0,
        }
    }
}

/// The dashboard.
pub struct App {
    pub running: bool,
    pub hosts: Vec<HostState>,
    pub focused_host: usize,
    pub host_scroll: usize,
    pub display_mode: DisplayMode,
    /// The host to open an interactive SSH session to once the dashboard closes.
    pub pending_ssh_host: Option<HostConfig>,
}

impl Default for App {
    fn default() -> (a: App)
        ensures
            !a.running,
            a.hosts@.len() == 0,
            a.focused_host == 0,
            a.host_scroll == 0,
            a.display_mode == DisplayMode::Standard,
            a.pending_ssh_host is None,
    {
        App {
            running: false,
            hosts: Vec::new(),
            focused_host: 0,
            host_scroll: 0,
            display_mode: DisplayMode::Standard,
            pending_ssh_host: None,
        }
    }
}

// ---------------------------------------------------------------- history

/// `values` with `value` appended and, where that makes it longer than
/// `max_len`, its oldest element dropped.
pub open spec fn history_push<T>(values: Seq<T>, value: T, max_len: nat) -> Seq<T> {
    let pushed = values.push(value);
    if pushed.len() > max_len {
        pushed.drop_first()
    } else {
        pushed
    }
}

/// Appends `value`, dropping the oldest element where the history would
/// grow past `max_len`.
pub fn push_history<T>(values: &mut Vec<T>, value: T, max_len: usize)
    ensures
        final(values)@ == history_push(old(values)@, value, max_len as nat),
{
    values.push(value);
    if values.len() > max_len {
        values.remove(0);
        assert(final(values)@ =~= history_push(old(values)@, value, max_len as nat)) by {}
    }
}

/// A history never grows past its limit, and its newest element is the
/// value just pushed.
pub proof fn history_stays_bounded<T>(values: Seq<T>, value: T, max_len: nat)
    requires
        values.len() <= max_len,
        max_len > 0,
    ensures
        history_push(values, value, max_len).len() <= max_len,
        history_push(values, value, max_len).last() == value,
        history_push(values, value, max_len).len() == if values.len() < max_len {
            values.len() + 1
        } else {
            max_len
        },
{
}

// ---------------------------------------------------------------- events

/// `a - b`, or 0 where `b` is larger.
pub open spec fn sat_sub(a: u64, b: u64) -> u64 {
    if a > b {
        (a - b) as u64
    } else {
        0
    }
}

/// The index of the first host named `name`, searching from `i` on.
pub open spec fn host_index_from(hosts: Seq<HostState>, name: Seq<char>, i: int) -> Option<int>
    decreases hosts.len() - i,
{
    if i < 0 || i >= hosts.len() {
        None
    } else if hosts[i].name@ == name {
        Some(i)
    } else {
        host_index_from(hosts, name, i + 1)
    }
}

proof fn lemma_host_index_from(hosts: Seq<HostState>, name: Seq<char>, i: int)
    ensures
        host_index_from(hosts, name, i) matches Some(k) ==> 0 <= i <= k < hosts.len()
            && hosts[k].name@ == name,
    decreases hosts.len() - i,
{
    if 0 <= i < hosts.len() && hosts[i].name@ != name {
        lemma_host_index_from(hosts, name, i + 1);
    }
}

/// The index of the first host named `name`.
pub open spec fn host_index(hosts: Seq<HostState>, name: Seq<char>) -> Option<int> {
    host_index_from(hosts, name, 0)
}

proof fn lemma_host_index_from_first(hosts: Seq<HostState>, name: Seq<char>, i: int)
    requires
        0 <= i,
    ensures
        host_index_from(hosts, name, i) matches Some(k) ==> forall|j: int|
            i <= j < k ==> #[trigger] hosts[j].name@ != name,
        host_index_from(hosts, name, i) is None ==> forall|j: int|
            i <= j < hosts.len() ==> #[trigger] hosts[j].name@ != name,
    decreases hosts.len() - i,
{
    if i < hosts.len() && hosts[i].name@ != name {
        lemma_host_index_from_first(hosts, name, i + 1);
    }
}

/// A host is found by name where one has that name, and what is found is
/// the first host with it.
pub proof fn host_found_is_the_first_of_that_name(hosts: Seq<HostState>, name: Seq<char>)
    ensures
        host_index(hosts, name) is None <==> forall|j: int|
            0 <= j < hosts.len() ==> #[trigger] hosts[j].name@ != name,
        host_index(hosts, name) matches Some(k) ==> 0 <= k < hosts.len() && hosts[k].name@
            == name && forall|j: int| 0 <= j < k ==> #[trigger] hosts[j].name@ != name,
{
    lemma_host_index_from(hosts, name, 0);
    lemma_host_index_from_first(hosts, name, 0);
}

/// The key of a press event; releases, repeats and other events give none.
pub open spec fn pressed_key(ev: InputEvent) -> Option<KeyCode> {
    match ev {
        InputEvent::Key { code, pressed } => if pressed {
            Some(code)
        } else {
            None
        },
        InputEvent::Other => None,
    }
}

/// The other display mode.
pub open spec fn toggled(m: DisplayMode) -> DisplayMode {
    match m {
        DisplayMode::Standard => DisplayMode::Compact,
        DisplayMode::Compact => DisplayMode::Standard,
    }
}

/// Everything but the host list is the same in `a0` and `a1`.
pub open spec fn same_but_hosts(a0: App, a1: App) -> bool {
    &&& a1.running == a0.running
    &&& a1.focused_host == a0.focused_host
    &&& a1.host_scroll == a0.host_scroll
    &&& a1.display_mode == a0.display_mode
    &&& a1.pending_ssh_host == a0.pending_ssh_host
}

/// `a1` is `a0` with host `i` replaced by `h`.
pub open spec fn host_replaced(a0: App, a1: App, i: int, h: HostState) -> bool {
    &&& same_but_hosts(a0, a1)
    &&& 0 <= i < a0.hosts@.len()
    &&& a1.hosts@ == a0.hosts@.update(i, h)
}

/// The focus after `Tab`: the next host, wrapping round.
pub open spec fn next_focus(f: usize, n: nat) -> usize {
    ((f + 1) % (n as int)) as usize
}

/// The focus after `BackTab`: the previous host, wrapping round.
pub open spec fn prev_focus(f: usize, n: nat) -> usize {
    if f == 0 {
        (n - 1) as usize
    } else {
        (f - 1) as usize
    }
}

/// The highest scroll position the process list moves down to: the number
/// of processes less one (0 for none).
pub open spec fn scroll_limit(h: HostState) -> int {
    match h.stats {
        Some(st) => if st.processes@.len() > 0 {
            st.processes@.len() - 1
        } else {
            0
        },
        None => 0,
    }
}

/// The configuration of the focused host, where there is one.
pub open spec fn focused_config(a: App) -> Option<HostConfig> {
    if a.focused_host < a.hosts@.len() {
        a.hosts@[a.focused_host as int].config
    } else {
        None
    }
}

/// What a terminal event does: only key presses count. `q` stops the
/// dashboard; `Enter` stops it and keeps the focused host's configuration for
/// an SSH session; `Tab` and `BackTab` move the focus round the hosts; `j`
/// or Down scrolls the focused host's processes down while there is more
/// below, `k` or Up scrolls them up to the top; `m` switches the display
/// mode. Any other event changes nothing.
pub open spec fn input_post(a0: App, a1: App, ev: InputEvent) -> bool {
    let f = a0.focused_host;
    let n = a0.hosts@.len();
    match pressed_key(ev) {
        None => a1 == a0,
        Some(code) => {
            if code == KeyCode::Char('q') {
                a1 == App { running: false, ..a0 }
            } else if code == KeyCode::Enter {
                a1 == App { running: false, pending_ssh_host: focused_config(a0), ..a0 }
            } else if code == KeyCode::Tab {
                a1 == if n > 0 {
                    App { focused_host: next_focus(f, n), ..a0 }
                } else {
                    a0
                }
            } else if code == KeyCode::BackTab {
                a1 == if n > 0 {
                    App { focused_host: prev_focus(f, n), ..a0 }
                } else {
                    a0
                }
            } else if code == KeyCode::Char('j') || code == KeyCode::Down {
                if f < n && a0.hosts@[f as int].process_scroll < scroll_limit(a0.hosts@[f as int]) {
                    host_replaced(
                        a0,
                        a1,
                        f as int,
                        HostState {
                            process_scroll: (a0.hosts@[f as int].process_scroll + 1) as usize,
                            ..a0.hosts@[f as int]
                        },
                    )
                } else {
                    a1 == a0
                }
            } else if code == KeyCode::Char('k') || code == KeyCode::Up {
                if f < n {
                    host_replaced(
                        a0,
                        a1,
                        f as int,
                        HostState {
                            process_scroll: if a0.hosts@[f as int].process_scroll > 0 {
                                (a0.hosts@[f as int].process_scroll - 1) as usize
                            } else {
                                0
                            },
                            ..a0.hosts@[f as int]
                        },
                    )
                } else {
                    a1 == a0
                }
            } else if code == KeyCode::Char('m') {
                a1 == App { display_mode: toggled(a0.display_mode), ..a0 }
            } else {
                a1 == a0
            }
        },
    }
}

/// The cpu sample that new counters give against the previous ones: idle
/// and total jiffies since then.
pub open spec fn cpu_sample(h: HostState, st: HostStats) -> CpuSample {
    CpuSample {
        idle: sat_sub(st.cpu_idle, h.prev_cpu_idle),
        total: sat_sub(st.cpu_total, h.prev_cpu_total),
    }
}

/// `h1` is `h0` after reading `st`. A cpu sample is recorded once earlier
/// counters are known and some time has passed; memory in use (total less
/// available) always; received and sent bytes once earlier counters are
/// known. Every history keeps at most `MAX_HISTORY` samples. The counters
/// are kept for the next round, and `st` becomes the latest statistics.
pub open spec fn stats_applied(h0: HostState, h1: HostState, st: HostStats) -> bool {
    &&& h1.name == h0.name
    &&& h1.config == h0.config
    &&& h1.connection_status == h0.connection_status
    &&& h1.has_session == h0.has_session
    &&& h1.process_scroll == h0.process_scroll
    &&& h1.failed_units_scroll == h0.failed_units_scroll
    &&& h1.cpu_usage@ == if h0.prev_cpu_total > 0 && cpu_sample(h0, st).total > 0 {
        history_push(h0.cpu_usage@, cpu_sample(h0, st), MAX_HISTORY as nat)
    } else {
        h0.cpu_usage@
    }
    &&& h1.prev_cpu_total == st.cpu_total
    &&& h1.prev_cpu_idle == st.cpu_idle
    &&& h1.mem_total == st.mem_total
    &&& h1.mem_used@ == history_push(
        h0.mem_used@,
        sat_sub(st.mem_total, st.mem_available),
        MAX_HISTORY as nat,
    )
    &&& h1.disk_total == st.disk_total
    &&& h1.disk_used == st.disk_used
    &&& h1.net_rx_bytes@ == if h0.prev_net_rx > 0 {
        history_push(h0.net_rx_bytes@, sat_sub(st.net_rx, h0.prev_net_rx), MAX_HISTORY as nat)
    } else {
        h0.net_rx_bytes@
    }
    &&& h1.net_tx_bytes@ == if h0.prev_net_rx > 0 {
        history_push(h0.net_tx_bytes@, sat_sub(st.net_tx, h0.prev_net_tx), MAX_HISTORY as nat)
    } else {
        h0.net_tx_bytes@
    }
    &&& h1.prev_net_rx == st.net_rx
    &&& h1.prev_net_tx == st.net_tx
    &&& h1.stats == Some(st)
}

/// What `App::update` does with `action`, and the host it reports.
pub open spec fn update_post(a0: App, a1: App, action: AppAction, touched: Option<usize>) -> bool {
    match action {
        AppAction::Input(ev) => touched is None && input_post(a0, a1, ev),
        AppAction::Connected(name) => match host_index(a0.hosts@, name@) {
            Some(i) => touched == Some(i as usize) && host_replaced(
                a0,
                a1,
                i,
                HostState {
                    connection_status: ConnectionStatus::Connected,
                    has_session: true,
                    ..a0.hosts@[i]
                },
            ),
            None => touched is None && a1 == a0,
        },
        AppAction::ConnectionFailed(name, _err) => match host_index(a0.hosts@, name@) {
            Some(i) => touched == Some(i as usize) && host_replaced(
                a0,
                a1,
                i,
                HostState { connection_status: ConnectionStatus::Failed, ..a0.hosts@[i] },
            ),
            None => touched is None && a1 == a0,
        },
        AppAction::StatsFetched(name, st) => match host_index(a0.hosts@, name@) {
            Some(i) => {
                &&& touched == Some(i as usize)
                &&& same_but_hosts(a0, a1)
                &&& a1.hosts@.len() == a0.hosts@.len()
                &&& forall|j: int| 0 <= j < a0.hosts@.len() && j != i ==> a1.hosts@[j] == a0.hosts@[j]
                &&& stats_applied(a0.hosts@[i], a1.hosts@[i], st)
            },
            None => touched is None && a1 == a0,
        },
    }
}

fn apply_stats(host: &mut HostState, stats: HostStats)
    ensures
        stats_applied(*old(host), *final(host), stats),
{
    if host.prev_cpu_total > 0 {
        let total_diff = stats.cpu_total.saturating_sub(host.prev_cpu_total);
        let idle_diff = stats.cpu_idle.saturating_sub(host.prev_cpu_idle);
        if total_diff > 0 {
            push_history(
                &mut host.cpu_usage,
                CpuSample { idle: idle_diff, total: total_diff },
                MAX_HISTORY,
            );
        }
    }
    host.prev_cpu_total = stats.cpu_total;
    host.prev_cpu_idle = stats.cpu_idle;

    host.mem_total = stats.mem_total;
    let used = stats.mem_total.saturating_sub(stats.mem_available);
    push_history(&mut host.mem_used, used, MAX_HISTORY);

    host.disk_total = stats.disk_total;
    host.disk_used = stats.disk_used;

    if host.prev_net_rx > 0 {
        let rx = stats.net_rx.saturating_sub(host.prev_net_rx);
        let tx = stats.net_tx.saturating_sub(host.prev_net_tx);
        push_history(&mut host.net_rx_bytes, rx, MAX_HISTORY);
        push_history(&mut host.net_tx_bytes, tx, MAX_HISTORY);
    }
    host.prev_net_rx = stats.net_rx;
    host.prev_net_tx = stats.net_tx;

    host.stats = Some(stats);
}

impl App {
    /// The dashboard for `configs`, running, focused on the first host. Each
    /// host is named `user@address:port` (with `current_user` where no user
    /// is configured) and starts out connecting, with nothing read.
    pub fn new(configs: Vec<HostConfig>, current_user: &str) -> (a: App)
        ensures
            a.running,
            a.hosts@.len() == configs@.len(),
            forall|i: int|
                0 <= i < configs@.len() ==> {
                    &&& #[trigger] a.hosts@[i].name@ == configs@[i].display_name_spec(
                        current_user@,
                    )
                    &&& a.hosts@[i].config == Some(configs@[i])
                    &&& is_fresh(a.hosts@[i])
                },
            a.focused_host == 0,
            a.host_scroll == 0,
            a.display_mode == DisplayMode::Standard,
            a.pending_ssh_host is None,
    {
        let mut hosts: Vec<HostState> = Vec::new();
        let mut i: usize = 0;
        while i < configs.len()
            invariant
                i <= configs@.len(),
                hosts@.len() == i,
                forall|k: int|
                    0 <= k < i ==> {
                        &&& #[trigger] hosts@[k].name@ == configs@[k].display_name_spec(
                            current_user@,
                        )
                        &&& hosts@[k].config == Some(configs@[k])
                        &&& is_fresh(hosts@[k])
                    },
            decreases configs@.len() - i,
        {
            let config = configs[i].duplicate();
            let name = config.display_name(current_user);
            let mut host = HostState::default();
            host.name = name;
            host.config = Some(config);
            assert(host.name@ == configs@[i as int].display_name_spec(current_user@));
            assert(is_fresh(host));
            hosts.push(host);
            assert(hosts@[i as int].name@ == configs@[i as int].display_name_spec(current_user@));
            i = i + 1;
        }
        App {
            running: true,
            hosts,
            focused_host: 0,
            host_scroll: 0,
            display_mode: DisplayMode::Standard,
            pending_ssh_host: None,
        }
    }

    /// The index of the first host named `name`.
    pub fn find_host(&self, name: &String) -> (r: Option<usize>)
        ensures
            match r {
                Some(i) => i < self.hosts@.len() && host_index(self.hosts@, name@) == Some(i as int),
                None => host_index(self.hosts@, name@) is None,
            },
    {
        let mut i: usize = 0;
        while i < self.hosts.len()
            invariant
                i <= self.hosts@.len(),
                host_index(self.hosts@, name@) == host_index_from(self.hosts@, name@, i as int),
            decreases self.hosts@.len() - i,
        {
            if self.hosts[i].name == *name {
                return Some(i);
            }
            i = i + 1;
        }
        None
    }

    fn handle_input(&mut self, event: InputEvent)
        ensures
            input_post(*old(self), *final(self), event),
    {
        let code = match event {
            InputEvent::Key { code, pressed } => {
                if !pressed {
                    return;
                }
                code
            },
            InputEvent::Other => {
                return;
            },
        };
        let n = self.hosts.len();
        let f = self.focused_host;
        match code {
            KeyCode::Enter => {
                self.pending_ssh_host = if f < n {
                    match &self.hosts[f].config {
                        Some(c) => Some(c.duplicate()),
                        None => None,
                    }
                } else {
                    None
                };
                self.running = false;
            },
            KeyCode::Tab => {
                if n > 0 {
                    let nf = (f % n + 1) % n;
                    proof {
                        vstd::arithmetic::div_mod::lemma_add_mod_noop(f as int, 1, n as int);
                        vstd::arithmetic::div_mod::lemma_add_mod_noop((f % n) as int, 1, n as int);
                        vstd::arithmetic::div_mod::lemma_mod_twice(f as int, n as int);
                    }
                    assert(nf == next_focus(f, n as nat));
                    self.focused_host = nf;
                }
            },
            KeyCode::BackTab => {
                if n > 0 {
                    if f == 0 {
                        self.focused_host = n - 1;
                    } else {
                        self.focused_host = f - 1;
                    }
                }
            },
            KeyCode::Down => {
                self.scroll_down();
            },
            KeyCode::Up => {
                self.scroll_up();
            },
            KeyCode::Char(c) => {
                if c == 'q' {
                    self.running = false;
                } else if c == 'j' {
                    self.scroll_down();
                } else if c == 'k' {
                    self.scroll_up();
                } else if c == 'm' {
                    self.display_mode =
                        match self.display_mode {
                            DisplayMode::Standard => DisplayMode::Compact,
                            DisplayMode::Compact => DisplayMode::Standard,
                        };
                }
            },
            KeyCode::Other => {},
        }
    }

    fn scroll_down(&mut self)
        ensures
            ({
                let a0 = *old(self);
                let f = a0.focused_host;
                if f < a0.hosts@.len() && a0.hosts@[f as int].process_scroll < scroll_limit(
                    a0.hosts@[f as int],
                ) {
                    host_replaced(
                        a0,
                        *final(self),
                        f as int,
                        HostState {
                            process_scroll: (a0.hosts@[f as int].process_scroll + 1) as usize,
                            ..a0.hosts@[f as int]
                        },
                    )
                } else {
                    *final(self) == a0
                }
            }),
    {
        let f = self.focused_host;
        if f < self.hosts.len() {
            let limit: usize = match &self.hosts[f].stats {
                Some(st) => st.processes.len().saturating_sub(1),
                None => 0,
            };
            if self.hosts[f].process_scroll < limit {
                let s = self.hosts[f].process_scroll;
                self.hosts[f].process_scroll = s + 1;
            }
        }
    }

    fn scroll_up(&mut self)
        ensures
            ({
                let a0 = *old(self);
                let f = a0.focused_host;
                if f < a0.hosts@.len() {
                    host_replaced(
                        a0,
                        *final(self),
                        f as int,
                        HostState {
                            process_scroll: if a0.hosts@[f as int].process_scroll > 0 {
                                (a0.hosts@[f as int].process_scroll - 1) as usize
                            } else {
                                0
                            },
                            ..a0.hosts@[f as int]
                        },
                    )
                } else {
                    *final(self) == a0
                }
            }),
    {
        let f = self.focused_host;
        if f < self.hosts.len() {
            let s = self.hosts[f].process_scroll;
            self.hosts[f].process_scroll = s.saturating_sub(1);
        }
    }

    /// Applies one event. Returns the index of the host that a connection
    /// report or statistics were about, where a host of that name exists.
    pub fn update(&mut self, action: AppAction) -> (touched: Option<usize>)
        ensures
            update_post(*old(self), *final(self), action, touched),
    {
        match action {
            AppAction::Input(event) => {
                self.handle_input(event);
                None
            },
            AppAction::Connected(name) => {
                match self.find_host(&name) {
                    Some(i) => {
                        let ghost before = self.hosts@;
                        self.hosts[i].connection_status = ConnectionStatus::Connected;
                        self.hosts[i].has_session = true;
                        assert(self.hosts@ =~= before.update(
                            i as int,
                            HostState {
                                connection_status: ConnectionStatus::Connected,
                                has_session: true,
                                ..before[i as int]
                            },
                        ));
                        Some(i)
                    },
                    None => None,
                }
            },
            AppAction::ConnectionFailed(name, _err) => {
                match self.find_host(&name) {
                    Some(i) => {
                        self.hosts[i].connection_status = ConnectionStatus::Failed;
                        Some(i)
                    },
                    None => None,
                }
            },
            AppAction::StatsFetched(name, stats) => {
                match self.find_host(&name) {
                    Some(i) => {
                        apply_stats(&mut self.hosts[i], stats);
                        Some(i)
                    },
                    None => None,
                }
            },
        }
    }
}

impl App {
    /// The hosts to ask for statistics this round: those with an open
    /// session, in list order.
    pub fn hosts_to_poll(&self) -> (idx: Vec<usize>)
        ensures
            forall|k: int| 0 <= k < idx@.len() ==> #[trigger] idx@[k] < self.hosts@.len(),
            forall|k: int| 0 <= k < idx@.len() ==> self.hosts@[#[trigger] idx@[k] as int].has_session,
            forall|k: int, l: int| 0 <= k < l < idx@.len() ==> #[trigger] idx@[k] < #[trigger] idx@[l],
            forall|j: int|
                0 <= j < self.hosts@.len() && #[trigger] self.hosts@[j].has_session ==> idx@.contains(
                    j as usize,
                ),
    {
        let mut idx: Vec<usize> = Vec::new();
        let mut i: usize = 0;
        while i < self.hosts.len()
            invariant
                i <= self.hosts@.len(),
                forall|k: int| 0 <= k < idx@.len() ==> #[trigger] idx@[k] < i,
                forall|k: int|
                    0 <= k < idx@.len() ==> self.hosts@[#[trigger] idx@[k] as int].has_session,
                forall|k: int, l: int|
                    0 <= k < l < idx@.len() ==> #[trigger] idx@[k] < #[trigger] idx@[l],
                forall|j: int|
                    0 <= j < i && #[trigger] self.hosts@[j].has_session ==> idx@.contains(
                        j as usize,
                    ),
            decreases self.hosts@.len() - i,
        {
            if self.hosts[i].has_session {
                let ghost before = idx@;
                idx.push(i);
                assert forall|j: int|
                    0 <= j < i + 1 && #[trigger] self.hosts@[j].has_session implies idx@.contains(
                    j as usize,
                ) by {
                    if j < i {
                        let k = choose|k: int| 0 <= k < before.len() && before[k] == j as usize;
                        assert(idx@[k] == j as usize);
                    } else {
                        assert(idx@[before.len() as int] == j as usize);
                    }
                }
            }
            i = i + 1;
        }
        idx
    }
}

// ---------------------------------------------------------------- laws

/// `Tab` then `BackTab` brings the focus back to the host it was on, and so
/// does `BackTab` then `Tab`.
pub proof fn tab_and_backtab_undo_each_other(a0: App, a1: App, a2: App)
    requires
        a0.focused_host < a0.hosts@.len(),
        (input_post(
            a0,
            a1,
            InputEvent::Key { code: KeyCode::Tab, pressed: true },
        ) && input_post(a1, a2, InputEvent::Key { code: KeyCode::BackTab, pressed: true }))
            || (input_post(
            a0,
            a1,
            InputEvent::Key { code: KeyCode::BackTab, pressed: true },
        ) && input_post(a1, a2, InputEvent::Key { code: KeyCode::Tab, pressed: true })),
    ensures
        a2 == a0,
{
    let n = a0.hosts@.len();
    let f = a0.focused_host;
    assert(a0.hosts.len() == n);
    if f + 1 < n {
        assert((f + 1) % (n as int) == f + 1) by {
            vstd::arithmetic::div_mod::lemma_small_mod((f + 1) as nat, n);
        }
    } else {
        assert((f + 1) % (n as int) == 0) by {
            vstd::arithmetic::div_mod::lemma_mod_self_0(n as int);
        }
    }
    assert(prev_focus(next_focus(f, n), n) == f);
    if f > 0 {
        assert((f as int) % (n as int) == f as int) by {
            vstd::arithmetic::div_mod::lemma_small_mod(f as nat, n);
        }
    } else {
        assert((n as int) % (n as int) == 0) by {
            vstd::arithmetic::div_mod::lemma_mod_self_0(n as int);
        }
    }
    assert(next_focus(prev_focus(f, n), n) == f);
    if input_post(a0, a1, InputEvent::Key { code: KeyCode::Tab, pressed: true })
        && input_post(a1, a2, InputEvent::Key { code: KeyCode::BackTab, pressed: true }) {
        assert(a1 == App { focused_host: next_focus(f, n), ..a0 });
        assert(a2 == App { focused_host: prev_focus(next_focus(f, n), n), ..a1 });
    } else {
        assert(a1 == App { focused_host: prev_focus(f, n), ..a0 });
        assert(a2 == App { focused_host: next_focus(prev_focus(f, n), n), ..a1 });
    }
}

/// No key moves the focus off the host list: a focus on a host stays on one.
pub proof fn focus_stays_on_a_host(a0: App, a1: App, ev: InputEvent)
    requires
        a0.focused_host < a0.hosts@.len(),
        input_post(a0, a1, ev),
    ensures
        a1.focused_host < a1.hosts@.len(),
        a1.hosts@.len() == a0.hosts@.len(),
{
    let n = a0.hosts@.len();
    if a1.focused_host != a0.focused_host {
        vstd::arithmetic::div_mod::lemma_mod_bound((a0.focused_host + 1) as int, n as int);
    }
}

/// Pressing `m` twice gives back the display mode it started from.
pub proof fn display_mode_toggle_twice(a0: App, a1: App, a2: App)
    requires
        input_post(a0, a1, InputEvent::Key { code: KeyCode::Char('m'), pressed: true }),
        input_post(a1, a2, InputEvent::Key { code: KeyCode::Char('m'), pressed: true }),
    ensures
        a2 == a0,
{
}

/// Scrolling keeps the process list within its bounds: a scroll position
/// no further than the last process stays so.
pub proof fn process_scroll_stays_in_bounds(a0: App, a1: App, ev: InputEvent)
    requires
        input_post(a0, a1, ev),
        forall|j: int|
            0 <= j < a0.hosts@.len() ==> #[trigger] a0.hosts@[j].process_scroll <= scroll_limit(
                a0.hosts@[j],
            ),
    ensures
        forall|j: int|
            0 <= j < a1.hosts@.len() ==> #[trigger] a1.hosts@[j].process_scroll <= scroll_limit(
                a1.hosts@[j],
            ),
{
}

/// No event adds, drops, renames or reconfigures a host.
pub proof fn update_keeps_the_host_list(
    a0: App,
    a1: App,
    action: AppAction,
    touched: Option<usize>,
)
    requires
        update_post(a0, a1, action, touched),
    ensures
        a1.hosts@.len() == a0.hosts@.len(),
        forall|j: int|
            0 <= j < a0.hosts@.len() ==> #[trigger] a1.hosts@[j].name == a0.hosts@[j].name
                && a1.hosts@[j].config == a0.hosts@[j].config,
        touched matches Some(i) ==> i < a0.hosts@.len(),
{
    lemma_host_index_from(a0.hosts@, action_host_name(action), 0);
}

/// The host name an action is about (empty for input).
pub open spec fn action_host_name(action: AppAction) -> Seq<char> {
    match action {
        AppAction::Input(_) => seq![],
        AppAction::Connected(name) => name@,
        AppAction::ConnectionFailed(name, _) => name@,
        AppAction::StatsFetched(name, _) => name@,
    }
}

/// Statistics keep every history within `MAX_HISTORY` samples, and the
/// memory in use that they record never exceeds the memory total.
pub proof fn stats_keep_histories_bounded(h0: HostState, h1: HostState, st: HostStats)
    requires
        stats_applied(h0, h1, st),
        h0.cpu_usage@.len() <= MAX_HISTORY,
        h0.mem_used@.len() <= MAX_HISTORY,
        h0.net_rx_bytes@.len() <= MAX_HISTORY,
        h0.net_tx_bytes@.len() <= MAX_HISTORY,
    ensures
        h1.cpu_usage@.len() <= MAX_HISTORY,
        h1.mem_used@.len() <= MAX_HISTORY,
        h1.net_rx_bytes@.len() <= MAX_HISTORY,
        h1.net_tx_bytes@.len() <= MAX_HISTORY,
        h1.mem_used@.last() <= h1.mem_total,
        h1.mem_used@.last() == sat_sub(st.mem_total, st.mem_available),
{
}

/// Once the dashboard has stopped, no event starts it again; and a host
/// for an SSH session is only ever kept by stopping.
pub proof fn stopping_is_final(a0: App, a1: App, action: AppAction, touched: Option<usize>)
    requires
        update_post(a0, a1, action, touched),
    ensures
        !a0.running ==> !a1.running,
        (a0.pending_ssh_host is Some ==> !a0.running) ==> (a1.pending_ssh_host is Some
            ==> !a1.running),
{
}

/// Pressing `Tab` `k` times moves the focus `k` hosts on, wrapping round:
/// from host `f` of `n` it lands on host `(f + k) % n`. `states[i + 1]` is
/// the dashboard after the `(i + 1)`-th press.
pub proof fn tabs_move_focus_round(states: Seq<App>)
    requires
        states.len() >= 1,
        states[0].focused_host < states[0].hosts@.len(),
        forall|i: int|
            0 <= i < states.len() - 1 ==> input_post(
                #[trigger] states[i],
                states[i + 1],
                InputEvent::Key { code: KeyCode::Tab, pressed: true },
            ),
    ensures
        states.last().hosts@.len() == states[0].hosts@.len(),
        states.last().focused_host == (states[0].focused_host + (states.len() - 1)) % (
        states[0].hosts@.len() as int),
    decreases states.len(),
{
    let n = states[0].hosts@.len() as int;
    let f0 = states[0].focused_host as int;
    if states.len() == 1 {
        vstd::arithmetic::div_mod::lemma_small_mod(f0 as nat, n as nat);
    } else {
        let prev = states.drop_last();
        assert forall|i: int| 0 <= i < prev.len() - 1 implies input_post(
            #[trigger] prev[i],
            prev[i + 1],
            InputEvent::Key { code: KeyCode::Tab, pressed: true },
        ) by {
            assert(prev[i] == states[i]);
            assert(prev[i + 1] == states[i + 1]);
        }
        tabs_move_focus_round(prev);
        let k = states.len() - 1;
        let a = states[k - 1];
        let b = states[k];
        assert(input_post(a, b, InputEvent::Key { code: KeyCode::Tab, pressed: true }));
        assert(a.focused_host == (f0 + (k - 1)) % n);
        assert(a.hosts.len() == n);
        vstd::arithmetic::div_mod::lemma_add_mod_noop(f0 + (k - 1), 1, n);
        vstd::arithmetic::div_mod::lemma_mod_twice(f0 + (k - 1), n);
        vstd::arithmetic::div_mod::lemma_add_mod_noop((f0 + (k - 1)) % n, 1, n);
        vstd::arithmetic::div_mod::lemma_mod_bound(f0 + k, n);
        assert(b == App { focused_host: next_focus(a.focused_host, n as nat), ..a });
    }
}

/// No event at all, key or report, moves the focus off the host list or
/// changes its length; with no hosts the focus stays where it was.
pub proof fn update_keeps_focus_on_a_host(
    a0: App,
    a1: App,
    action: AppAction,
    touched: Option<usize>,
)
    requires
        update_post(a0, a1, action, touched),
        a0.focused_host < a0.hosts@.len() || a0.hosts@.len() == 0,
    ensures
        a1.hosts@.len() == a0.hosts@.len(),
        a1.focused_host < a1.hosts@.len() || a1.hosts@.len() == 0,
        a0.hosts@.len() == 0 ==> a1.focused_host == a0.focused_host,
{
    update_keeps_the_host_list(a0, a1, action, touched);
    if let AppAction::Input(ev) = action {
        if a0.hosts@.len() > 0 {
            focus_stays_on_a_host(a0, a1, ev);
        }
    }
}

/// A history push keeps every earlier sample but, once full, the oldest,
/// and puts the new one last.
pub proof fn history_keeps_older_samples<T>(values: Seq<T>, value: T, max_len: nat)
    requires
        max_len >= 1,
    ensures
        history_push(values, value, max_len).len() > 0,
        history_push(values, value, max_len).last() == value,
        history_push(values, value, max_len).drop_last() == if values.len() < max_len {
            values
        } else {
            values.drop_first()
        },
{
    let r = history_push(values, value, max_len);
    if values.len() < max_len {
        assert(r.drop_last() =~= values);
    } else {
        assert(r.drop_last() =~= values.drop_first());
    }
}

/// Statistics extend each history by one sample, keeping all earlier
/// samples but the oldest once the history is full: the cpu history by the
/// idle and total jiffies since the previous counters (once those are known
/// and the total grew), the memory history by total less available memory,
/// and the network histories by the bytes received and sent since the
/// previous counters (once those are known). A history that gets no sample
/// is left as it was.
pub proof fn stats_extend_histories(h0: HostState, h1: HostState, st: HostStats)
    requires
        stats_applied(h0, h1, st),
    ensures
        ({
            let recorded = h0.prev_cpu_total > 0 && st.cpu_total > h0.prev_cpu_total;
            &&& recorded ==> {
                &&& h1.cpu_usage@.len() > 0
                &&& h1.cpu_usage@.last() == CpuSample {
                    idle: if st.cpu_idle > h0.prev_cpu_idle {
                        (st.cpu_idle - h0.prev_cpu_idle) as u64
                    } else {
                        0
                    },
                    total: (st.cpu_total - h0.prev_cpu_total) as u64,
                }
                &&& h1.cpu_usage@.drop_last() == if h0.cpu_usage@.len() < MAX_HISTORY {
                    h0.cpu_usage@
                } else {
                    h0.cpu_usage@.drop_first()
                }
            }
            &&& !recorded ==> h1.cpu_usage@ == h0.cpu_usage@
        }),
        h1.mem_used@.len() > 0,
        h1.mem_used@.last() == if st.mem_total > st.mem_available {
            (st.mem_total - st.mem_available) as u64
        } else {
            0
        },
        h1.mem_used@.drop_last() == if h0.mem_used@.len() < MAX_HISTORY {
            h0.mem_used@
        } else {
            h0.mem_used@.drop_first()
        },
        h0.prev_net_rx > 0 ==> {
            &&& h1.net_rx_bytes@.len() > 0
            &&& h1.net_rx_bytes@.last() == if st.net_rx > h0.prev_net_rx {
                (st.net_rx - h0.prev_net_rx) as u64
            } else {
                0
            }
            &&& h1.net_rx_bytes@.drop_last() == if h0.net_rx_bytes@.len() < MAX_HISTORY {
                h0.net_rx_bytes@
            } else {
                h0.net_rx_bytes@.drop_first()
            }
            &&& h1.net_tx_bytes@.len() > 0
            &&& h1.net_tx_bytes@.last() == if st.net_tx > h0.prev_net_tx {
                (st.net_tx - h0.prev_net_tx) as u64
            } else {
                0
            }
            &&& h1.net_tx_bytes@.drop_last() == if h0.net_tx_bytes@.len() < MAX_HISTORY {
                h0.net_tx_bytes@
            } else {
                h0.net_tx_bytes@.drop_first()
            }
        },
        h0.prev_net_rx == 0 ==> h1.net_rx_bytes@ == h0.net_rx_bytes@ && h1.net_tx_bytes@
            == h0.net_tx_bytes@,
        h1.prev_cpu_total == st.cpu_total,
        h1.prev_cpu_idle == st.cpu_idle,
        h1.prev_net_rx == st.net_rx,
        h1.prev_net_tx == st.net_tx,
        h1.mem_total == st.mem_total,
        h1.disk_total == st.disk_total,
        h1.disk_used == st.disk_used,
        h1.stats == Some(st),
{
    history_keeps_older_samples(h0.cpu_usage@, cpu_sample(h0, st), MAX_HISTORY as nat);
    history_keeps_older_samples(
        h0.mem_used@,
        sat_sub(st.mem_total, st.mem_available),
        MAX_HISTORY as nat,
    );
    history_keeps_older_samples(
        h0.net_rx_bytes@,
        sat_sub(st.net_rx, h0.prev_net_rx),
        MAX_HISTORY as nat,
    );
    history_keeps_older_samples(
        h0.net_tx_bytes@,
        sat_sub(st.net_tx, h0.prev_net_tx),
        MAX_HISTORY as nat,
    );
}

/// Each key does what the controls say, on the focused host: `j` or Down
/// scrolls its processes one line down unless at the last one, `k` or Up
/// one line up unless at the top; `q` stops without choosing a host;
/// `Enter` stops and keeps the focused host's configuration; `m` switches
/// the display mode. The other hosts are left alone.
pub proof fn keys_do_what_the_controls_say(a0: App, a1: App, code: KeyCode)
    requires
        input_post(a0, a1, InputEvent::Key { code, pressed: true }),
        a0.focused_host < a0.hosts@.len(),
    ensures
        ({
            let f = a0.focused_host as int;
            let h0 = a0.hosts@[f];
            let last = match h0.stats {
                Some(st) => if st.processes@.len() > 0 {
                    st.processes@.len() - 1
                } else {
                    0
                },
                None => 0,
            };
            &&& a1.hosts@.len() == a0.hosts@.len()
            &&& forall|j: int| 0 <= j < a0.hosts@.len() && j != f ==> a1.hosts@[j] == a0.hosts@[j]
            &&& (code == KeyCode::Down || code == KeyCode::Char('j')) ==> a1.hosts@[f].process_scroll
                == if h0.process_scroll < last {
                h0.process_scroll + 1
            } else {
                h0.process_scroll as int
            }
            &&& (code == KeyCode::Up || code == KeyCode::Char('k')) ==> a1.hosts@[f].process_scroll
                == if h0.process_scroll > 0 {
                h0.process_scroll - 1
            } else {
                0
            }
            &&& code == KeyCode::Char('q') ==> !a1.running && a1.pending_ssh_host
                == a0.pending_ssh_host
            &&& code == KeyCode::Enter ==> !a1.running && a1.pending_ssh_host == h0.config
            &&& code == KeyCode::Char('m') ==> a1.display_mode != a0.display_mode
            &&& (code == KeyCode::Down || code == KeyCode::Char('j') || code == KeyCode::Up
                || code == KeyCode::Char('k')) ==> a1.hosts@[f].stats == h0.stats
                && a1.hosts@[f].name == h0.name && a1.running == a0.running
        }),
{
    let h0 = a0.hosts@[a0.focused_host as int];
    if h0.stats is Some {
        assert(h0.stats.unwrap().processes@.len() == h0.stats.unwrap().processes.len());
    }
}

} // verus!
