//! Host statistics: the shell command that gathers them in one round trip,
//! and the parsers that turn each section of its output into numbers and text.
use vstd::prelude::*;

use crate::text::{
    append_str, join, lemma_split_nonempty, marker_free, split_undoes_join, chars_of, has_prefix, is_ws, lemma_string_views_push, lines, parse_u64_or_zero,
    split_at_marker, split_lines, split_on, split_words, starts_with, string_of, string_views,
    trim, trim_end, trim_start, trimmed, u64_or_zero, views, words,
};

verus! {

/// Marks the end of one section of the gathered output.
pub const DELIMITER: &'static str = "---SECTION---";

// The section commands, in the order their outputs are read.
pub const MEM_CMD: &'static str = "cat /proc/meminfo | head -n 3";

pub const CPU_CMD: &'static str = "cat /proc/stat | head -n 1";

pub const UPTIME_CMD: &'static str = "cat /proc/uptime";

pub const DISK_CMD: &'static str = "df -B1 / | tail -n 1";

pub const IP_CMD: &'static str = "echo $SSH_CONNECTION";

pub const LOAD_AVG_CMD: &'static str = "cat /proc/loadavg";

pub const NET_CMD: &'static str = "cat /proc/net/dev";

pub const TOP_CMD: &'static str = "top -bn1 -w 512 | head -n 57 | tail -n 51";

pub const FAILED_UNITS_CMD: &'static str =
    "systemctl list-units --state=failed --no-legend --plain | awk '{print $1}'";

/// What a host reported, as last read.
#[derive(Debug, Clone)]
pub struct HostStats {
    pub mem_total: u64,
    pub mem_available: u64,
    pub cpu_total: u64,
    pub cpu_idle: u64,
    pub disk_total: u64,
    pub disk_used: u64,
    /// The three load averages exactly as the host wrote them (decimal
    /// fractions), once a load line with three fields was read.
    pub load_avg: Option<(String, String, String)>,
    pub net_rx: u64,
    pub net_tx: u64,
    /// The first field of the uptime line (seconds as a decimal fraction),
    /// once the uptime section was read.
    pub uptime_secs: Option<String>,
    pub ip_address: String,
    pub processes: Vec<String>,
    pub failed_units: Vec<String>,
}

/// The mathematical content of `HostStats`.
pub ghost struct StatsModel {
    pub mem_total: u64,
    pub mem_available: u64,
    pub cpu_total: u64,
    pub cpu_idle: u64,
    pub disk_total: u64,
    pub disk_used: u64,
    pub load_avg: Option<(Seq<char>, Seq<char>, Seq<char>)>,
    pub net_rx: u64,
    pub net_tx: u64,
    pub uptime_secs: Option<Seq<char>>,
    pub ip_address: Seq<char>,
    pub processes: Seq<Seq<char>>,
    pub failed_units: Seq<Seq<char>>,
}

impl View for HostStats {
    type V = StatsModel;

    open spec fn view(&self) -> StatsModel {
        StatsModel {
            mem_total: self.mem_total,
            mem_available: self.mem_available,
            cpu_total: self.cpu_total,
            cpu_idle: self.cpu_idle,
            disk_total: self.disk_total,
            disk_used: self.disk_used,
            load_avg: match self.load_avg {
                Some(t) => Some((t.0@, t.1@, t.2@)),
                None => None,
            },
            net_rx: self.net_rx,
            net_tx: self.net_tx,
            uptime_secs: match self.uptime_secs {
                Some(u) => Some(u@),
                None => None,
            },
            ip_address: self.ip_address@,
            processes: string_views(self.processes@),
            failed_units: string_views(self.failed_units@),
        }
    }
}

/// Nothing read yet: all counters zero, all text empty.
pub open spec fn empty_model() -> StatsModel {
    StatsModel {
        mem_total: 0,
        mem_available: 0,
        cpu_total: 0,
        cpu_idle: 0,
        disk_total: 0,
        disk_used: 0,
        load_avg: None,
        net_rx: 0,
        net_tx: 0,
        uptime_secs: None,
        ip_address: seq![],
        processes: seq![],
        failed_units: seq![],
    }
}

impl Default for HostStats {
    fn default() -> (r: HostStats)
        ensures
            r@ == empty_model(),
    {
        let r = HostStats {
            mem_total: 0,
            mem_available: 0,
            cpu_total: 0,
            cpu_idle: 0,
            disk_total: 0,
            disk_used: 0,
            load_avg: None,
            net_rx: 0,
            net_tx: 0,
            uptime_secs: None,
            ip_address: String::new(),
            processes: Vec::new(),
            failed_units: Vec::new(),
        };
        assert(r@.processes =~= seq![]);
        assert(r@.failed_units =~= seq![]);
        r
    }
}

// ---------------------------------------------------------------- memory

/// The number in the second field of a line (0 where it is missing or no number).
pub open spec fn second_field_value(line: Seq<char>) -> u64 {
    let w = words(line);
    if w.len() > 1 {
        u64_or_zero(w[1])
    } else {
        0
    }
}

/// The second-field number of the last of `ls` that starts with `tag`.
pub open spec fn last_tagged(ls: Seq<Seq<char>>, tag: Seq<char>) -> Option<u64>
    decreases ls.len(),
{
    if ls.len() == 0 {
        None
    } else if has_prefix(ls.last(), tag) {
        Some(second_field_value(ls.last()))
    } else {
        last_tagged(ls.drop_last(), tag)
    }
}

/// `found`, or `otherwise` where nothing was found.
pub open spec fn or_keep(found: Option<u64>, otherwise: u64) -> u64 {
    match found {
        Some(v) => v,
        None => otherwise,
    }
}

/// The memory section read into `m`: the totals come from the last
/// `MemTotal:` and `MemAvailable:` lines; a missing line keeps the old value.
pub open spec fn mem_step(m: StatsModel, s: Seq<char>) -> StatsModel {
    StatsModel {
        mem_total: or_keep(last_tagged(lines(s), "MemTotal:"@), m.mem_total),
        mem_available: or_keep(last_tagged(lines(s), "MemAvailable:"@), m.mem_available),
        ..m
    }
}

fn second_field_value_exec(line: &[char]) -> (v: u64)
    ensures
        v == second_field_value(line@),
{
    let ws = split_words(line);
    if ws.len() > 1 {
        parse_u64_or_zero(&ws[1])
    } else {
        0
    }
}

// ---------------------------------------------------------------- cpu

/// The counter fields of the `/proc/stat` cpu line: its words after the first.
pub open spec fn cpu_fields(s: Seq<char>) -> Seq<Seq<char>> {
    let w = words(s);
    if w.len() > 0 {
        w.skip(1)
    } else {
        w
    }
}

/// The sum of the numbers in `fs`, each field that is no number counting 0.
pub open spec fn field_sum(fs: Seq<Seq<char>>) -> nat
    decreases fs.len(),
{
    if fs.len() == 0 {
        0
    } else {
        field_sum(fs.drop_last()) + u64_or_zero(fs.last()) as nat
    }
}

/// The idle counter: the fourth counter field (0 where there is none).
pub open spec fn idle_field(fs: Seq<Seq<char>>) -> u64 {
    if fs.len() > 3 {
        u64_or_zero(fs[3])
    } else {
        0
    }
}

/// Whether the cpu counters of `s` add up to no more than `u64::MAX`.
pub open spec fn cpu_fits(s: Seq<char>) -> bool {
    field_sum(cpu_fields(s)) <= u64::MAX
}

/// The cpu section read into `m`.
pub open spec fn cpu_step(m: StatsModel, s: Seq<char>) -> StatsModel {
    if cpu_fits(s) {
        StatsModel {
            cpu_total: field_sum(cpu_fields(s)) as u64,
            cpu_idle: idle_field(cpu_fields(s)),
            ..m
        }
    } else {
        m
    }
}

proof fn lemma_field_sum_grows(fs: Seq<Seq<char>>, j: int)
    requires
        0 <= j <= fs.len(),
    ensures
        field_sum(fs.take(j)) <= field_sum(fs),
    decreases fs.len() - j,
{
    if j < fs.len() {
        lemma_field_sum_grows(fs, j + 1);
        assert(fs.take(j + 1).drop_last() =~= fs.take(j));
    } else {
        assert(fs.take(j) =~= fs);
    }
}

// ---------------------------------------------------------------- single-line sections

/// The first word of `s`, or `0` where there is none.
pub open spec fn first_word_or_zero(s: Seq<char>) -> Seq<char> {
    if words(s).len() > 0 {
        words(s)[0]
    } else {
        "0"@
    }
}

/// The uptime section read into `m`.
pub open spec fn uptime_step(m: StatsModel, s: Seq<char>) -> StatsModel {
    StatsModel { uptime_secs: Some(first_word_or_zero(s)), ..m }
}

/// The disk line read into `m`: size and used bytes are its second and third
/// fields; a line of fewer than three fields changes nothing.
pub open spec fn disk_step(m: StatsModel, s: Seq<char>) -> StatsModel {
    let w = words(s);
    if w.len() >= 3 {
        StatsModel { disk_total: u64_or_zero(w[1]), disk_used: u64_or_zero(w[2]), ..m }
    } else {
        m
    }
}

/// The address that `$SSH_CONNECTION` names for the host: its third field,
/// or `Unknown`.
pub open spec fn ip_of(s: Seq<char>) -> Seq<char> {
    if words(s).len() > 2 {
        words(s)[2]
    } else {
        "Unknown"@
    }
}

/// The connection section read into `m`.
pub open spec fn ip_step(m: StatsModel, s: Seq<char>) -> StatsModel {
    StatsModel { ip_address: ip_of(s), ..m }
}

/// The load line read into `m`: its first three fields; a line of fewer
/// than three fields changes nothing.
pub open spec fn load_step(m: StatsModel, s: Seq<char>) -> StatsModel {
    let w = words(s);
    if w.len() >= 3 {
        StatsModel { load_avg: Some((w[0], w[1], w[2])), ..m }
    } else {
        m
    }
}

// ---------------------------------------------------------------- network

/// The interface lines of `/proc/net/dev`: all but the two header lines.
pub open spec fn net_lines(s: Seq<char>) -> Seq<Seq<char>> {
    let ls = lines(s);
    if ls.len() >= 2 {
        ls.skip(2)
    } else {
        seq![]
    }
}

/// Whether an interface line counts: it has at least ten fields and its
/// interface name does not start with `lo`.
pub open spec fn counts_interface(line: Seq<char>) -> bool {
    let w = words(line);
    w.len() >= 10 && !has_prefix(w[0], "lo"@)
}

/// The sum of field `col` over the lines of `ls` that count.
pub open spec fn column_sum(ls: Seq<Seq<char>>, col: int) -> nat
    decreases ls.len(),
{
    if ls.len() == 0 {
        0
    } else {
        column_sum(ls.drop_last(), col) + if counts_interface(ls.last()) {
            u64_or_zero(words(ls.last())[col]) as nat
        } else {
            0
        }
    }
}

/// Whether the received and the sent byte totals of `s` both fit in a `u64`.
pub open spec fn net_fits(s: Seq<char>) -> bool {
    column_sum(net_lines(s), 1) <= u64::MAX && column_sum(net_lines(s), 9) <= u64::MAX
}

/// The network section read into `m`: received bytes are field 1 and sent
/// bytes field 9 of each counted interface line.
pub open spec fn net_step(m: StatsModel, s: Seq<char>) -> StatsModel {
    if net_fits(s) {
        StatsModel {
            net_rx: column_sum(net_lines(s), 1) as u64,
            net_tx: column_sum(net_lines(s), 9) as u64,
            ..m
        }
    } else {
        m
    }
}

proof fn lemma_column_sum_grows(ls: Seq<Seq<char>>, col: int, j: int)
    requires
        0 <= j <= ls.len(),
    ensures
        column_sum(ls.take(j), col) <= column_sum(ls, col),
    decreases ls.len() - j,
{
    if j < ls.len() {
        lemma_column_sum_grows(ls, col, j + 1);
        assert(ls.take(j + 1).drop_last() =~= ls.take(j));
    } else {
        assert(ls.take(j) =~= ls);
    }
}

// ---------------------------------------------------------------- lists

/// The lines of `ls` that are not empty, in order.
pub open spec fn nonempty_lines(ls: Seq<Seq<char>>) -> Seq<Seq<char>>
    decreases ls.len(),
{
    if ls.len() == 0 {
        seq![]
    } else if ls.last().len() > 0 {
        nonempty_lines(ls.drop_last()).push(ls.last())
    } else {
        nonempty_lines(ls.drop_last())
    }
}

/// The lines of `ls`, each trimmed, without those left empty.
pub open spec fn trimmed_nonempty(ls: Seq<Seq<char>>) -> Seq<Seq<char>>
    decreases ls.len(),
{
    if ls.len() == 0 {
        seq![]
    } else if trim(ls.last()).len() > 0 {
        trimmed_nonempty(ls.drop_last()).push(trim(ls.last()))
    } else {
        trimmed_nonempty(ls.drop_last())
    }
}

/// The process section read into `m`: its non-empty lines.
pub open spec fn processes_step(m: StatsModel, s: Seq<char>) -> StatsModel {
    StatsModel { processes: nonempty_lines(lines(s)), ..m }
}

/// The failed-units section read into `m`: its lines trimmed, empty ones dropped.
pub open spec fn failed_units_step(m: StatsModel, s: Seq<char>) -> StatsModel {
    StatsModel { failed_units: trimmed_nonempty(lines(s)), ..m }
}

impl HostStats {
    /// Reads the `/proc/meminfo` head.
    pub fn parse_mem(&mut self, meminfo_out: &str)
        ensures
            final(self)@ == mem_step(old(self)@, meminfo_out@),
    {
        let chars = chars_of(meminfo_out);
        let ls = split_lines(&chars);
        let tag_total = chars_of("MemTotal:");
        let tag_avail = chars_of("MemAvailable:");
        let ghost m0 = self@;
        let ghost all = views(ls@);
        let mut i: usize = 0;
        while i < ls.len()
            invariant
                i <= ls.len(),
                all == views(ls@),
                all == lines(meminfo_out@),
                tag_total@ == "MemTotal:"@,
                tag_avail@ == "MemAvailable:"@,
                self@ == (StatsModel {
                    mem_total: or_keep(last_tagged(all.take(i as int), tag_total@), m0.mem_total),
                    mem_available: or_keep(
                        last_tagged(all.take(i as int), tag_avail@),
                        m0.mem_available,
                    ),
                    ..m0
                }),
            decreases ls.len() - i,
        {
            let line = &ls[i];
            assert(all.take(i as int + 1).drop_last() =~= all.take(i as int));
            assert(all.take(i as int + 1).last() == line@);
            if starts_with(line, &tag_total) {
                self.mem_total = second_field_value_exec(line);
            }
            if starts_with(line, &tag_avail) {
                self.mem_available = second_field_value_exec(line);
            }
            i = i + 1;
        }
        assert(all.take(ls.len() as int) =~= all);
    }

    /// Reads the `/proc/stat` cpu line. Returns whether its counters add up
    /// to no more than `u64::MAX`; only then are the cpu totals set.
    pub fn parse_cpu(&mut self, stat_out: &str) -> (fits: bool)
        ensures
            fits == cpu_fits(stat_out@),
            final(self)@ == cpu_step(old(self)@, stat_out@),
    {
        let chars = chars_of(stat_out);
        let ws = split_words(&chars);
        let ghost fs = cpu_fields(stat_out@);
        let ghost w = views(ws@);
        if ws.len() == 0 {
            assert(fs.len() == 0);
            self.cpu_total = 0;
            self.cpu_idle = 0;
            return true;
        }
        assert(fs =~= w.skip(1));
        let mut total: u64 = 0;
        let mut idle: u64 = 0;
        let mut j: usize = 1;
        let ghost m0 = self@;
        while j < ws.len()
            invariant
                1 <= j <= ws.len(),
                self@ == m0,
                m0 == old(self)@,
                w == views(ws@),
                w == words(stat_out@),
                fs == w.skip(1),
                fs == cpu_fields(stat_out@),
                total as nat == field_sum(fs.take(j - 1)),
                idle == idle_field(fs.take(j - 1)),
            decreases ws.len() - j,
        {
            let val = parse_u64_or_zero(&ws[j]);
            assert(fs.take(j as int).drop_last() =~= fs.take(j - 1));
            assert(fs.take(j as int).last() == ws@[j as int]@);
            assert(field_sum(fs.take(j as int)) == field_sum(fs.take(j - 1)) + val);
            match total.checked_add(val) {
                None => {
                    proof {
                        lemma_field_sum_grows(fs, j as int);
                    }
                    return false;
                },
                Some(t) => {
                    total = t;
                },
            }
            if j == 4 {
                idle = val;
            }
            assert(idle == idle_field(fs.take(j as int)));
            j = j + 1;
        }
        assert(fs.take(j - 1) =~= fs);
        self.cpu_total = total;
        self.cpu_idle = idle;
        true
    }

    /// Reads the uptime line; the float in its first field is kept as text.
    pub fn parse_uptime(&mut self, uptime_out: &str)
        ensures
            final(self)@ == uptime_step(old(self)@, uptime_out@),
    {
        let chars = chars_of(uptime_out);
        let ws = split_words(&chars);
        let first = if ws.len() > 0 {
            string_of(&ws[0])
        } else {
            "0".to_owned()
        };
        self.uptime_secs = Some(first);
    }

    /// Reads the `df` line of the root file system.
    pub fn parse_disk(&mut self, df_out: &str)
        ensures
            final(self)@ == disk_step(old(self)@, df_out@),
    {
        let chars = chars_of(df_out);
        let ws = split_words(&chars);
        if ws.len() >= 3 {
            self.disk_total = parse_u64_or_zero(&ws[1]);
            self.disk_used = parse_u64_or_zero(&ws[2]);
        }
    }

    /// Reads `$SSH_CONNECTION`: the host's own address is its third field.
    pub fn parse_ip(&mut self, connection_out: &str)
        ensures
            final(self)@ == ip_step(old(self)@, connection_out@),
    {
        let chars = chars_of(connection_out);
        let ws = split_words(&chars);
        self.ip_address = if ws.len() > 2 {
            string_of(&ws[2])
        } else {
            "Unknown".to_owned()
        };
    }

    /// Reads `/proc/loadavg`; the three averages are kept as text.
    pub fn parse_load_avg(&mut self, loadavg_out: &str)
        ensures
            final(self)@ == load_step(old(self)@, loadavg_out@),
    {
        let chars = chars_of(loadavg_out);
        let ws = split_words(&chars);
        if ws.len() >= 3 {
            self.load_avg = Some((string_of(&ws[0]), string_of(&ws[1]), string_of(&ws[2])));
        }
    }

    /// Reads `/proc/net/dev`. Returns whether the received and the sent byte
    /// totals both fit in a `u64`; only then are they set.
    pub fn parse_net(&mut self, net_out: &str) -> (fits: bool)
        ensures
            fits == net_fits(net_out@),
            final(self)@ == net_step(old(self)@, net_out@),
    {
        let chars = chars_of(net_out);
        let ls = split_lines(&chars);
        let ghost all = views(ls@);
        let ghost nl = net_lines(net_out@);
        let lo = chars_of("lo");
        let mut rx: u64 = 0;
        let mut tx: u64 = 0;
        if ls.len() < 2 {
            assert(nl =~= seq![]);
            self.net_rx = 0;
            self.net_tx = 0;
            return true;
        }
        assert(nl =~= all.skip(2));
        let mut j: usize = 2;
        let ghost m0 = self@;
        while j < ls.len()
            invariant
                2 <= j <= ls.len(),
                all == views(ls@),
                all == lines(net_out@),
                nl == all.skip(2),
                nl == net_lines(net_out@),
                lo@ == "lo"@,
                self@ == m0,
                m0 == old(self)@,
                rx as nat == column_sum(nl.take(j - 2), 1),
                tx as nat == column_sum(nl.take(j - 2), 9),
            decreases ls.len() - j,
        {
            let line = &ls[j];
            let ws = split_words(line);
            assert(nl.take(j - 1).drop_last() =~= nl.take(j - 2));
            assert(nl.take(j - 1).last() == line@);
            if ws.len() >= 10 && !starts_with(&ws[0], &lo) {
                let r = parse_u64_or_zero(&ws[1]);
                let t = parse_u64_or_zero(&ws[9]);
                assert(column_sum(nl.take(j - 1), 1) == rx + r);
                assert(column_sum(nl.take(j - 1), 9) == tx + t);
                match rx.checked_add(r) {
                    None => {
                        proof {
                            lemma_column_sum_grows(nl, 1, j - 1);
                        }
                        return false;
                    },
                    Some(v) => {
                        rx = v;
                    },
                }
                match tx.checked_add(t) {
                    None => {
                        proof {
                            lemma_column_sum_grows(nl, 9, j - 1);
                        }
                        return false;
                    },
                    Some(v) => {
                        tx = v;
                    },
                }
            } else {
                assert(column_sum(nl.take(j - 1), 1) == rx);
                assert(column_sum(nl.take(j - 1), 9) == tx);
            }
            j = j + 1;
        }
        assert(nl.take(j - 2) =~= nl);
        self.net_rx = rx;
        self.net_tx = tx;
        true
    }

    /// Reads the `top` listing: every non-empty line, in order.
    pub fn parse_processes(&mut self, top_out: &str)
        ensures
            final(self)@ == processes_step(old(self)@, top_out@),
    {
        let chars = chars_of(top_out);
        let ls = split_lines(&chars);
        let ghost all = views(ls@);
        let mut out: Vec<String> = Vec::new();
        let mut i: usize = 0;
        while i < ls.len()
            invariant
                i <= ls.len(),
                all == views(ls@),
                all == lines(top_out@),
                string_views(out@) == nonempty_lines(all.take(i as int)),
            decreases ls.len() - i,
        {
            assert(all.take(i as int + 1).drop_last() =~= all.take(i as int));
            assert(all.take(i as int + 1).last() == ls@[i as int]@);
            if ls[i].len() > 0 {
                let line = string_of(&ls[i]);
                proof {
                    lemma_string_views_push(out@, line);
                }
                out.push(line);
            }
            i = i + 1;
        }
        assert(all.take(ls.len() as int) =~= all);
        self.processes = out;
    }

    /// Reads the failed-unit names: every line trimmed, empty ones dropped.
    pub fn parse_failed_units(&mut self, failed_units_out: &str)
        ensures
            final(self)@ == failed_units_step(old(self)@, failed_units_out@),
    {
        let chars = chars_of(failed_units_out);
        let ls = split_lines(&chars);
        let ghost all = views(ls@);
        let mut out: Vec<String> = Vec::new();
        let mut i: usize = 0;
        while i < ls.len()
            invariant
                i <= ls.len(),
                all == views(ls@),
                all == lines(failed_units_out@),
                string_views(out@) == trimmed_nonempty(all.take(i as int)),
            decreases ls.len() - i,
        {
            assert(all.take(i as int + 1).drop_last() =~= all.take(i as int));
            assert(all.take(i as int + 1).last() == ls@[i as int]@);
            let t = trimmed(&ls[i]);
            if t.len() > 0 {
                let name = string_of(&t);
                proof {
                    lemma_string_views_push(out@, name);
                }
                out.push(name);
            }
            i = i + 1;
        }
        assert(all.take(ls.len() as int) =~= all);
        self.failed_units = out;
    }
}

// ---------------------------------------------------------------- the whole output

/// What joins two commands: print the section marker between their outputs.
pub open spec fn separator() -> Seq<char> {
    "; echo '"@ + DELIMITER@ + "'; "@
}

/// The shell command that gathers all sections: the section commands in
/// order, joined by `separator()`.
pub open spec fn command_spec() -> Seq<char> {
    MEM_CMD@ + separator() + CPU_CMD@ + separator() + UPTIME_CMD@ + separator() + DISK_CMD@
        + separator() + IP_CMD@ + separator() + LOAD_AVG_CMD@ + separator() + NET_CMD@
        + separator() + TOP_CMD@ + separator() + FAILED_UNITS_CMD@
}

fn push_separator(out: &mut String)
    ensures
        final(out)@ == old(out)@ + separator(),
{
    let ghost start = out@;
    append_str(out, "; echo '");
    append_str(out, DELIMITER);
    append_str(out, "'; ");
    assert(out@ =~= start + separator());
}

/// The shell command whose output `HostStats::from_output` reads.
pub fn stats_command() -> (cmd: String)
    ensures
        cmd@ == command_spec(),
{
    let mut cmd = String::new();
    append_str(&mut cmd, MEM_CMD);
    push_separator(&mut cmd);
    append_str(&mut cmd, CPU_CMD);
    push_separator(&mut cmd);
    append_str(&mut cmd, UPTIME_CMD);
    push_separator(&mut cmd);
    append_str(&mut cmd, DISK_CMD);
    push_separator(&mut cmd);
    append_str(&mut cmd, IP_CMD);
    push_separator(&mut cmd);
    append_str(&mut cmd, LOAD_AVG_CMD);
    push_separator(&mut cmd);
    append_str(&mut cmd, NET_CMD);
    push_separator(&mut cmd);
    append_str(&mut cmd, TOP_CMD);
    push_separator(&mut cmd);
    append_str(&mut cmd, FAILED_UNITS_CMD);
    assert(cmd@ =~= command_spec());
    cmd
}

/// The sections of the gathered output, split at the markers.
pub open spec fn sections(stdout: Seq<char>) -> Seq<Seq<char>> {
    split_on(stdout, DELIMITER@)
}

/// Whether the counters of the output fit in a `u64`: the cpu counters of
/// the second section and the network totals of the seventh.
pub open spec fn output_fits(stdout: Seq<char>) -> bool {
    let s = sections(stdout);
    &&& (s.len() > 1 ==> cpu_fits(s[1]))
    &&& (s.len() > 6 ==> net_fits(trim(s[6])))
}

/// The statistics that the output gives: starting from nothing, the
/// sections present are read in order (memory, cpu, uptime, disk, address,
/// load, network, processes, failed units); all but the first two are
/// trimmed first.
pub open spec fn stats_model_of(stdout: Seq<char>) -> StatsModel {
    let s = sections(stdout);
    let m1 = if s.len() > 0 {
        mem_step(empty_model(), s[0])
    } else {
        empty_model()
    };
    let m2 = if s.len() > 1 {
        cpu_step(m1, s[1])
    } else {
        m1
    };
    let m3 = if s.len() > 2 {
        uptime_step(m2, trim(s[2]))
    } else {
        m2
    };
    let m4 = if s.len() > 3 {
        disk_step(m3, trim(s[3]))
    } else {
        m3
    };
    let m5 = if s.len() > 4 {
        ip_step(m4, trim(s[4]))
    } else {
        m4
    };
    let m6 = if s.len() > 5 {
        load_step(m5, trim(s[5]))
    } else {
        m5
    };
    let m7 = if s.len() > 6 {
        net_step(m6, trim(s[6]))
    } else {
        m6
    };
    let m8 = if s.len() > 7 {
        processes_step(m7, trim(s[7]))
    } else {
        m7
    };
    if s.len() > 8 {
        failed_units_step(m8, trim(s[8]))
    } else {
        m8
    }
}

impl HostStats {
    /// The statistics in the output of `stats_command()`, or `None` where a
    /// counter total does not fit in a `u64`.
    pub fn from_output(stdout: &str) -> (r: Option<HostStats>)
        ensures
            r is Some <==> output_fits(stdout@),
            r matches Some(st) ==> st@ == stats_model_of(stdout@),
    {
        proof {
            reveal_strlit("---SECTION---");
        }
        let chars = chars_of(stdout);
        let marker = chars_of(DELIMITER);
        let secs = split_at_marker(&chars, &marker);
        let ghost s = views(secs@);
        assert(s == sections(stdout@));
        let mut stats = HostStats::default();
        if secs.len() > 0 {
            stats.parse_mem(string_of(&secs[0]).as_str());
        }
        if secs.len() > 1 {
            if !stats.parse_cpu(string_of(&secs[1]).as_str()) {
                return None;
            }
        }
        if secs.len() > 2 {
            stats.parse_uptime(string_of(&trimmed(&secs[2])).as_str());
        }
        if secs.len() > 3 {
            stats.parse_disk(string_of(&trimmed(&secs[3])).as_str());
        }
        if secs.len() > 4 {
            stats.parse_ip(string_of(&trimmed(&secs[4])).as_str());
        }
        if secs.len() > 5 {
            stats.parse_load_avg(string_of(&trimmed(&secs[5])).as_str());
        }
        if secs.len() > 6 {
            if !stats.parse_net(string_of(&trimmed(&secs[6])).as_str()) {
                return None;
            }
        }
        if secs.len() > 7 {
            stats.parse_processes(string_of(&trimmed(&secs[7])).as_str());
        }
        if secs.len() > 8 {
            stats.parse_failed_units(string_of(&trimmed(&secs[8])).as_str());
        }
        Some(stats)
    }
}

// ---------------------------------------------------------------- laws

/// The idle counter read from a cpu line never exceeds the total.
pub proof fn cpu_idle_within_total(s: Seq<char>)
    ensures
        idle_field(cpu_fields(s)) <= field_sum(cpu_fields(s)),
        cpu_fits(s) ==> cpu_step(empty_model(), s).cpu_idle <= cpu_step(empty_model(), s).cpu_total,
{
    let fs = cpu_fields(s);
    if fs.len() > 3 {
        lemma_field_sum_grows(fs, 4);
        assert(fs.take(4).drop_last() =~= fs.take(3));
        assert(fs.take(4).last() == fs[3]);
    }
}

/// The process list holds no empty line.
pub proof fn process_lines_not_empty(ls: Seq<Seq<char>>)
    ensures
        forall|i: int| 0 <= i < nonempty_lines(ls).len() ==> #[trigger] nonempty_lines(ls)[i].len() > 0,
    decreases ls.len(),
{
    if ls.len() > 0 {
        let prev = nonempty_lines(ls.drop_last());
        process_lines_not_empty(ls.drop_last());
        assert forall|i: int| 0 <= i < nonempty_lines(ls).len() implies #[trigger] nonempty_lines(
            ls,
        )[i].len() > 0 by {
            if i < prev.len() {
                assert(nonempty_lines(ls)[i] == prev[i]);
            }
        }
    }
}

proof fn lemma_trim_start_first(s: Seq<char>)
    ensures
        trim_start(s).len() > 0 ==> !is_ws(trim_start(s)[0]),
        trim_start(s).len() <= s.len(),
        trim_start(s) == s.skip(s.len() - trim_start(s).len()),
        forall|k: int| 0 <= k < s.len() - trim_start(s).len() ==> is_ws(#[trigger] s[k]),
    decreases s.len(),
{
    if s.len() > 0 && is_ws(s[0]) {
        lemma_trim_start_first(s.drop_first());
        assert forall|k: int| 0 <= k < s.len() - trim_start(s).len() implies is_ws(
            #[trigger] s[k],
        ) by {
            if k > 0 {
                assert(s[k] == s.drop_first()[k - 1]);
            }
        }
        assert(s.drop_first().skip(s.drop_first().len() - trim_start(s).len()) =~= s.skip(
            s.len() - trim_start(s).len(),
        ));
    } else {
        assert(s.skip(0) =~= s);
    }
}

proof fn lemma_trim_end_last(s: Seq<char>)
    ensures
        trim_end(s).len() > 0 ==> !is_ws(trim_end(s).last()),
        trim_end(s).len() <= s.len(),
        trim_end(s) == s.take(trim_end(s).len() as int),
        forall|k: int| trim_end(s).len() <= k < s.len() ==> is_ws(#[trigger] s[k]),
    decreases s.len(),
{
    if s.len() > 0 && is_ws(s.last()) {
        lemma_trim_end_last(s.drop_last());
        assert forall|k: int| trim_end(s).len() <= k < s.len() implies is_ws(#[trigger] s[k]) by {
            if k < s.len() - 1 {
                assert(s[k] == s.drop_last()[k]);
            }
        }
        assert(s.drop_last().take(trim_end(s).len() as int) =~= s.take(trim_end(s).len() as int));
    } else {
        assert(s.take(s.len() as int) =~= s);
    }
}

/// A trimmed text that is not empty starts and ends with something other
/// than whitespace, and it is the text less some whitespace at its start and
/// some at its end.
pub proof fn trimmed_has_no_outer_whitespace(s: Seq<char>)
    ensures
        trim(s).len() > 0 ==> !is_ws(trim(s)[0]) && !is_ws(trim(s).last()),
        exists|a: int|
            0 <= a && a + trim(s).len() <= s.len() && trim(s) == #[trigger] s.subrange(
                a,
                a + trim(s).len(),
            ) && (forall|k: int| 0 <= k < a ==> is_ws(#[trigger] s[k])) && (forall|k: int|
                a + trim(s).len() <= k < s.len() ==> is_ws(#[trigger] s[k])),
{
    lemma_trim_start_first(s);
    let t = trim_start(s);
    lemma_trim_end_last(t);
    if trim(s).len() > 0 {
        assert(trim(s)[0] == trim_start(s)[0]);
    }
    let a = s.len() - t.len();
    let b = a + trim(s).len();
    assert(trim(s) =~= s.subrange(a, b));
    assert forall|k: int| b <= k < s.len() implies is_ws(#[trigger] s[k]) by {
        assert(s[k] == t[k - a]);
    }
    assert(forall|k: int| 0 <= k < a ==> is_ws(#[trigger] s[k]));
}

/// Every failed-unit name is non-empty and has no whitespace around it.
pub proof fn failed_unit_names_are_trimmed(ls: Seq<Seq<char>>)
    ensures
        forall|i: int|
            0 <= i < trimmed_nonempty(ls).len() ==> {
                let u = #[trigger] trimmed_nonempty(ls)[i];
                u.len() > 0 && !is_ws(u[0]) && !is_ws(u.last())
            },
    decreases ls.len(),
{
    if ls.len() > 0 {
        let prev = trimmed_nonempty(ls.drop_last());
        failed_unit_names_are_trimmed(ls.drop_last());
        trimmed_has_no_outer_whitespace(ls.last());
        assert forall|i: int| 0 <= i < trimmed_nonempty(ls).len() implies {
            let u = #[trigger] trimmed_nonempty(ls)[i];
            u.len() > 0 && !is_ws(u[0]) && !is_ws(u.last())
        } by {
            if i < prev.len() {
                assert(trimmed_nonempty(ls)[i] == prev[i]);
            }
        }
    }
}

/// The gathering command is the nine section commands, in the order the
/// parser reads their outputs (memory, cpu, uptime, disk, address, load,
/// network, processes, failed units), each followed by a command that
/// prints the section marker.
pub proof fn command_lists_sections_in_reading_order()
    ensures
        command_spec() == join(
            seq![
                MEM_CMD@,
                CPU_CMD@,
                UPTIME_CMD@,
                DISK_CMD@,
                IP_CMD@,
                LOAD_AVG_CMD@,
                NET_CMD@,
                TOP_CMD@,
                FAILED_UNITS_CMD@,
            ],
            "; echo '"@ + DELIMITER@ + "'; "@,
        ),
{
    let sep = "; echo '"@ + DELIMITER@ + "'; "@;
    let cmds = seq![
        MEM_CMD@,
        CPU_CMD@,
        UPTIME_CMD@,
        DISK_CMD@,
        IP_CMD@,
        LOAD_AVG_CMD@,
        NET_CMD@,
        TOP_CMD@,
        FAILED_UNITS_CMD@,
    ];
    assert(cmds.take(1).drop_last() =~= cmds.take(0));
    assert(join(cmds.take(1), sep) == MEM_CMD@);
    assert(cmds.take(2).drop_last() =~= cmds.take(1));
    assert(join(cmds.take(2), sep) == MEM_CMD@ + sep + CPU_CMD@);
    assert(cmds.take(3).drop_last() =~= cmds.take(2));
    assert(cmds.take(4).drop_last() =~= cmds.take(3));
    assert(cmds.take(5).drop_last() =~= cmds.take(4));
    assert(cmds.take(6).drop_last() =~= cmds.take(5));
    assert(cmds.take(7).drop_last() =~= cmds.take(6));
    assert(cmds.take(8).drop_last() =~= cmds.take(7));
    assert(cmds.take(9).drop_last() =~= cmds.take(8));
    assert(cmds.take(9) =~= cmds);
    assert(join(cmds.take(3), sep) == join(cmds.take(2), sep) + sep + UPTIME_CMD@);
    assert(join(cmds.take(4), sep) == join(cmds.take(3), sep) + sep + DISK_CMD@);
    assert(join(cmds.take(5), sep) == join(cmds.take(4), sep) + sep + IP_CMD@);
    assert(join(cmds.take(6), sep) == join(cmds.take(5), sep) + sep + LOAD_AVG_CMD@);
    assert(join(cmds.take(7), sep) == join(cmds.take(6), sep) + sep + NET_CMD@);
    assert(join(cmds.take(8), sep) == join(cmds.take(7), sep) + sep + TOP_CMD@);
    assert(join(cmds.take(9), sep) == join(cmds.take(8), sep) + sep + FAILED_UNITS_CMD@);
    assert(command_spec() =~= join(cmds, sep));
}

/// Where the gathering command runs, the section commands print their
/// texts in turn with the marker printed between them. Read back, the
/// sections are exactly those texts, in the order the commands were given:
/// the fourth is read as the disk line and the fifth as the connection,
/// so long as no text holds the marker.
pub proof fn sections_are_the_command_outputs(outs: Seq<Seq<char>>)
    requires
        outs.len() == 9,
        forall|j: int| 0 <= j < outs.len() ==> marker_free(#[trigger] outs[j], DELIMITER@),
    ensures
        sections(join(outs, DELIMITER@)) == outs,
        stats_model_of(join(outs, DELIMITER@)).disk_total == disk_step(
            empty_model(),
            trim(outs[3]),
        ).disk_total,
        stats_model_of(join(outs, DELIMITER@)).disk_used == disk_step(
            empty_model(),
            trim(outs[3]),
        ).disk_used,
        stats_model_of(join(outs, DELIMITER@)).ip_address == ip_of(trim(outs[4])),
{
    reveal_strlit("---SECTION---");
    split_undoes_join(outs, DELIMITER@);
}

/// The process list is every line of the section that is not empty, in
/// order: nothing else is dropped, nothing added.
pub proof fn processes_are_the_nonempty_lines(m: StatsModel, s: Seq<char>)
    ensures
        processes_step(m, s).processes == lines(s).filter(|l: Seq<char>| l.len() > 0),
        forall|i: int|
            0 <= i < lines(s).len() && lines(s)[i].len() > 0 ==> processes_step(
                m,
                s,
            ).processes.contains(#[trigger] lines(s)[i]),
{
    lemma_nonempty_lines_filter(lines(s));
    assert forall|i: int|
        0 <= i < lines(s).len() && lines(s)[i].len() > 0 implies processes_step(
        m,
        s,
    ).processes.contains(#[trigger] lines(s)[i]) by {
        lines(s).lemma_filter_contains(|l: Seq<char>| l.len() > 0, i);
    }
}

proof fn lemma_nonempty_lines_filter(ls: Seq<Seq<char>>)
    ensures
        nonempty_lines(ls) == ls.filter(|l: Seq<char>| l.len() > 0),
    decreases ls.len(),
{
    reveal_with_fuel(Seq::filter, 1);
    if ls.len() > 0 {
        lemma_nonempty_lines_filter(ls.drop_last());
    }
}

/// The failed units are the section's lines, each trimmed, keeping those
/// that are not empty, in order.
pub proof fn failed_units_are_the_trimmed_nonempty_lines(m: StatsModel, s: Seq<char>)
    ensures
        failed_units_step(m, s).failed_units == lines(s).map_values(|l: Seq<char>| trim(l)).filter(
            |t: Seq<char>| t.len() > 0,
        ),
{
    lemma_trimmed_nonempty_filter(lines(s));
}

proof fn lemma_trimmed_nonempty_filter(ls: Seq<Seq<char>>)
    ensures
        trimmed_nonempty(ls) == ls.map_values(|l: Seq<char>| trim(l)).filter(
            |t: Seq<char>| t.len() > 0,
        ),
    decreases ls.len(),
{
    reveal_with_fuel(Seq::filter, 1);
    let f = |l: Seq<char>| trim(l);
    if ls.len() > 0 {
        lemma_trimmed_nonempty_filter(ls.drop_last());
        assert(ls.map_values(f).drop_last() =~= ls.drop_last().map_values(f));
        assert(ls.map_values(f).last() == trim(ls.last()));
    } else {
        assert(ls.map_values(f) =~= Seq::<Seq<char>>::empty());
    }
}

proof fn lemma_last_tagged(ls: Seq<Seq<char>>, tag: Seq<char>)
    ensures
        (forall|i: int| 0 <= i < ls.len() ==> !has_prefix(#[trigger] ls[i], tag)) ==> last_tagged(
            ls,
            tag,
        ) is None,
        forall|i: int|
            0 <= i < ls.len() && has_prefix(#[trigger] ls[i], tag) && (forall|j: int|
                i < j < ls.len() ==> !has_prefix(#[trigger] ls[j], tag)) ==> last_tagged(ls, tag)
                == Some(second_field_value(ls[i])),
    decreases ls.len(),
{
    if ls.len() > 0 {
        let prev = ls.drop_last();
        lemma_last_tagged(prev, tag);
        if forall|i: int| 0 <= i < ls.len() ==> !has_prefix(#[trigger] ls[i], tag) {
            assert forall|i: int| 0 <= i < prev.len() implies !has_prefix(#[trigger] prev[i], tag) by {
                assert(prev[i] == ls[i]);
            }
            assert(!has_prefix(ls[ls.len() - 1], tag));
        }
        assert forall|i: int|
            0 <= i < ls.len() && has_prefix(#[trigger] ls[i], tag) && (forall|j: int|
                i < j < ls.len() ==> !has_prefix(#[trigger] ls[j], tag)) implies last_tagged(
            ls,
            tag,
        ) == Some(second_field_value(ls[i])) by {
            if i < ls.len() - 1 {
                assert(!has_prefix(ls[ls.len() - 1], tag));
                assert(prev[i] == ls[i]);
                assert forall|j: int| i < j < prev.len() implies !has_prefix(#[trigger] prev[j], tag) by {
                    assert(prev[j] == ls[j]);
                }
            }
        }
    }
}

/// The cpu counter total as a plain left fold: each field's number, 0 for
/// a field that is no number.
pub open spec fn counter_total(fs: Seq<Seq<char>>) -> nat {
    fs.fold_left(0nat, |acc: nat, f: Seq<char>| (acc + u64_or_zero(f)) as nat)
}

proof fn lemma_field_sum_fold(fs: Seq<Seq<char>>)
    ensures
        field_sum(fs) == counter_total(fs),
    decreases fs.len(),
{
    if fs.len() > 0 {
        lemma_field_sum_fold(fs.drop_last());
    }
}

/// The byte total of column `col` as a plain left fold over interface
/// lines: a line counts where it has at least ten fields and its first does
/// not start with `lo`.
pub open spec fn interface_total(ls: Seq<Seq<char>>, col: int) -> nat {
    ls.fold_left(
        0nat,
        |acc: nat, l: Seq<char>|
            (acc + if words(l).len() >= 10 && !has_prefix(words(l)[0], "lo"@) {
                u64_or_zero(words(l)[col]) as nat
            } else {
                0nat
            }) as nat,
    )
}

proof fn lemma_column_sum_fold(ls: Seq<Seq<char>>, col: int)
    ensures
        column_sum(ls, col) == interface_total(ls, col),
    decreases ls.len(),
{
    if ls.len() > 0 {
        lemma_column_sum_fold(ls.drop_last(), col);
    }
}

/// What each field of the statistics holds after reading the gathered
/// output, section by section (sections counted from 0; all but the first
/// two trimmed): the memory figures are the second field of the last
/// `MemTotal:` and `MemAvailable:` lines of section 0 (0 without one); the
/// cpu total is the sum of the numbers after the first word of section 1
/// and the idle counter the fourth of them; the uptime field is the first
/// word of section 2 (`0` without one); disk size and use are the second
/// and third field of section 3; the address is the third field of section
/// 4 (`Unknown` without one); the load averages are the first three fields
/// of section 5; the network totals sum fields 1 and 9 over the lines of
/// section 6 after two header lines, skipping loopback and short lines; the
/// processes are the non-empty lines of section 7; the failed units the
/// trimmed non-empty lines of section 8. A section that is missing leaves
/// its fields empty.
pub proof fn output_read_field_by_field(stdout: Seq<char>)
    requires
        output_fits(stdout),
    ensures
        ({
            let s = sections(stdout);
            let m = stats_model_of(stdout);
            &&& s.len() > 0
            &&& (forall|i: int|
                0 <= i < lines(s[0]).len() ==> !has_prefix(#[trigger] lines(s[0])[i], "MemTotal:"@))
                ==> m.mem_total == 0
            &&& forall|i: int|
                0 <= i < lines(s[0]).len() && has_prefix(#[trigger] lines(s[0])[i], "MemTotal:"@)
                    && (forall|j: int|
                    i < j < lines(s[0]).len() ==> !has_prefix(
                        #[trigger] lines(s[0])[j],
                        "MemTotal:"@,
                    )) ==> m.mem_total == if words(lines(s[0])[i]).len() > 1 {
                    u64_or_zero(words(lines(s[0])[i])[1])
                } else {
                    0
                }
            &&& (forall|i: int|
                0 <= i < lines(s[0]).len() ==> !has_prefix(
                    #[trigger] lines(s[0])[i],
                    "MemAvailable:"@,
                )) ==> m.mem_available == 0
            &&& forall|i: int|
                0 <= i < lines(s[0]).len() && has_prefix(
                    #[trigger] lines(s[0])[i],
                    "MemAvailable:"@,
                ) && (forall|j: int|
                    i < j < lines(s[0]).len() ==> !has_prefix(
                        #[trigger] lines(s[0])[j],
                        "MemAvailable:"@,
                    )) ==> m.mem_available == if words(lines(s[0])[i]).len() > 1 {
                    u64_or_zero(words(lines(s[0])[i])[1])
                } else {
                    0
                }
            &&& s.len() > 1 && words(s[1]).len() > 0 ==> m.cpu_total == counter_total(
                words(s[1]).skip(1),
            ) && m.cpu_idle == if words(s[1]).len() > 4 {
                u64_or_zero(words(s[1])[4])
            } else {
                0
            }
            &&& (s.len() <= 1 || words(s[1]).len() == 0) ==> m.cpu_total == 0 && m.cpu_idle == 0
            &&& s.len() > 2 ==> m.uptime_secs == Some(
                if words(trim(s[2])).len() > 0 {
                    words(trim(s[2]))[0]
                } else {
                    "0"@
                },
            )
            &&& s.len() <= 2 ==> m.uptime_secs is None
            &&& s.len() > 3 && words(trim(s[3])).len() >= 3 ==> m.disk_total == u64_or_zero(
                words(trim(s[3]))[1],
            ) && m.disk_used == u64_or_zero(words(trim(s[3]))[2])
            &&& !(s.len() > 3 && words(trim(s[3])).len() >= 3) ==> m.disk_total == 0
                && m.disk_used == 0
            &&& s.len() > 4 ==> m.ip_address == if words(trim(s[4])).len() > 2 {
                words(trim(s[4]))[2]
            } else {
                "Unknown"@
            }
            &&& s.len() <= 4 ==> m.ip_address.len() == 0
            &&& s.len() > 5 && words(trim(s[5])).len() >= 3 ==> m.load_avg == Some(
                (words(trim(s[5]))[0], words(trim(s[5]))[1], words(trim(s[5]))[2]),
            )
            &&& !(s.len() > 5 && words(trim(s[5])).len() >= 3) ==> m.load_avg is None
            &&& s.len() > 6 && lines(trim(s[6])).len() >= 2 ==> m.net_rx == interface_total(
                lines(trim(s[6])).skip(2),
                1,
            ) && m.net_tx == interface_total(lines(trim(s[6])).skip(2), 9)
            &&& !(s.len() > 6 && lines(trim(s[6])).len() >= 2) ==> m.net_rx == 0 && m.net_tx == 0
            &&& s.len() > 7 ==> m.processes == lines(trim(s[7])).filter(
                |l: Seq<char>| l.len() > 0,
            )
            &&& s.len() <= 7 ==> m.processes.len() == 0
            &&& s.len() > 8 ==> m.failed_units == lines(trim(s[8])).map_values(
                |l: Seq<char>| trim(l),
            ).filter(|t: Seq<char>| t.len() > 0)
            &&& s.len() <= 8 ==> m.failed_units.len() == 0
        }),
{
    reveal_strlit("---SECTION---");
    let s = sections(stdout);
    lemma_split_nonempty(stdout, DELIMITER@);
    lemma_last_tagged(lines(s[0]), "MemTotal:"@);
    lemma_last_tagged(lines(s[0]), "MemAvailable:"@);
    if s.len() > 1 {
        let w = words(s[1]);
        if w.len() > 0 {
            lemma_field_sum_fold(w.skip(1));
            assert(cpu_fields(s[1]) == w.skip(1));
            if w.len() > 4 {
                assert(w.skip(1)[3] == w[4]);
            }
        } else {
            assert(cpu_fields(s[1]) =~= Seq::<Seq<char>>::empty());
        }
    }
    if s.len() > 6 {
        let t = trim(s[6]);
        if lines(t).len() >= 2 {
            lemma_column_sum_fold(lines(t).skip(2), 1);
            lemma_column_sum_fold(lines(t).skip(2), 9);
        } else {
            assert(net_lines(t) =~= Seq::<Seq<char>>::empty());
        }
    }
    if s.len() > 7 {
        lemma_nonempty_lines_filter(lines(trim(s[7])));
    }
    if s.len() > 8 {
        lemma_trimmed_nonempty_filter(lines(trim(s[8])));
    }
}

} // verus!
