//! What the dashboard's panels compute before drawing: which hosts the
//! overview list shows, the titles and the failed-units line of a host
//! panel, the process list header, and the scrolling of the failed-units bar.
//! The drawing itself is done by the terminal front end.
use vstd::prelude::*;

use crate::app::{ConnectionStatus, DisplayMode, HostState};
use crate::text::{
    append_str, join, chars_of, copy_range, decimal, push_decimal, string_of, string_views,
};

verus! {

impl ConnectionStatus {
    /// The word shown for the status.
    pub open spec fn label_spec(self) -> Seq<char> {
        match self {
            ConnectionStatus::Connecting => "Connecting"@,
            ConnectionStatus::Connected => "Connected"@,
            ConnectionStatus::Failed => "Failed"@,
        }
    }

    /// The word shown for the status.
    pub fn label(&self) -> (s: &'static str)
        ensures
            s@ == self.label_spec(),
    {
        match self {
            ConnectionStatus::Connecting => "Connecting",
            ConnectionStatus::Connected => "Connected",
            ConnectionStatus::Failed => "Failed",
        }
    }
}

/// Each status reads as its own word, and different statuses read
/// differently.
pub proof fn status_labels_name_the_status()
    ensures
        ConnectionStatus::Connecting.label_spec() == "Connecting"@,
        ConnectionStatus::Connected.label_spec() == "Connected"@,
        ConnectionStatus::Failed.label_spec() == "Failed"@,
        forall|a: ConnectionStatus, b: ConnectionStatus|
            a != b ==> #[trigger] a.label_spec() != #[trigger] b.label_spec(),
{
    reveal_strlit("Connecting");
    reveal_strlit("Connected");
    reveal_strlit("Failed");
    assert("Connecting"@.len() != "Connected"@.len());
    assert("Connecting"@.len() != "Failed"@.len());
    assert("Connected"@.len() != "Failed"@.len());
}

// ---------------------------------------------------------------- host list

/// Rows one host takes in the list: 8 in the standard mode, 3 in the compact one.
pub open spec fn item_height_spec(mode: DisplayMode) -> u16 {
    match mode {
        DisplayMode::Standard => 8,
        DisplayMode::Compact => 3,
    }
}

/// The list of hosts down the left of the screen.
pub struct HostOverviewList<'a> {
    pub hosts: &'a [HostState],
    pub focused_host: usize,
    pub host_scroll: usize,
    pub display_mode: DisplayMode,
}

/// Which part of the host list is on screen.
#[derive(Debug, Clone, Copy, PartialEq, Eq, Structural)]
pub struct ListWindow {
    /// The index of the first host shown.
    pub scroll: usize,
    /// How many hosts fit (at least one).
    pub visible_count: usize,
    /// Whether there are more hosts than fit.
    pub has_scrollbar: bool,
}

impl<'a> HostOverviewList<'a> {
    pub fn new(
        hosts: &'a [HostState],
        focused_host: usize,
        host_scroll: usize,
        display_mode: DisplayMode,
    ) -> (l: Self)
        ensures
            l.hosts@ == hosts@,
            l.focused_host == focused_host,
            l.host_scroll == host_scroll,
            l.display_mode == display_mode,
    {
        HostOverviewList { hosts, focused_host, host_scroll, display_mode }
    }

    /// Rows one host takes in the list.
    pub fn item_height(&self) -> (h: u16)
        ensures
            h == item_height_spec(self.display_mode),
    {
        match self.display_mode {
            DisplayMode::Standard => 8,
            DisplayMode::Compact => 3,
        }
    }

    /// How many hosts fit in `area_height` rows: at least one.
    pub open spec fn visible_count_spec(&self, area_height: u16) -> usize {
        let c = area_height / item_height_spec(self.display_mode);
        if c >= 1 {
            c as usize
        } else {
            1
        }
    }

    /// The first host shown: the remembered scroll position, moved just
    /// enough to bring the focused host on screen.
    pub open spec fn scroll_spec(&self, visible: usize) -> usize {
        if self.focused_host < self.host_scroll {
            self.focused_host
        } else if self.focused_host >= self.host_scroll + visible {
            (self.focused_host - visible + 1) as usize
        } else {
            self.host_scroll
        }
    }

    /// Which hosts are on screen in `area_height` rows.
    pub fn window(&self, area_height: u16) -> (w: ListWindow)
        ensures
            w.visible_count == self.visible_count_spec(area_height),
            w.scroll == self.scroll_spec(w.visible_count),
            w.has_scrollbar == (self.hosts@.len() > w.visible_count),
            w.scroll <= self.focused_host < w.scroll + w.visible_count,
            area_height >= item_height_spec(self.display_mode) ==> w.visible_count
                * item_height_spec(self.display_mode) <= area_height < (w.visible_count + 1)
                * item_height_spec(self.display_mode),
            area_height < item_height_spec(self.display_mode) ==> w.visible_count == 1,
    {
        proof {
            hosts_shown_fit_the_area(self.display_mode, area_height);
        }
        let h = self.item_height();
        let c = area_height / h;
        let visible: usize = if c >= 1 {
            c as usize
        } else {
            1
        };
        let scroll = if self.focused_host < self.host_scroll {
            self.focused_host
        } else if self.focused_host - self.host_scroll >= visible {
            self.focused_host - visible + 1
        } else {
            self.host_scroll
        };
        ListWindow { scroll, visible_count: visible, has_scrollbar: self.hosts.len() > visible }
    }
}

/// A host takes 8 rows in the standard mode and 3 in the compact one, and
/// only whole hosts count as shown: as many as fit in the area's rows, and
/// one where not even one fits.
pub proof fn hosts_shown_fit_the_area(mode: DisplayMode, area_height: u16)
    ensures
        item_height_spec(DisplayMode::Standard) == 8,
        item_height_spec(DisplayMode::Compact) == 3,
        ({
            let h = item_height_spec(mode);
            let l = HostOverviewList { hosts: &[], focused_host: 0, host_scroll: 0, display_mode: mode };
            let v = l.visible_count_spec(area_height);
            &&& area_height >= h ==> v * h <= area_height < (v + 1) * h
            &&& area_height < h ==> v == 1
        }),
{
    let h = item_height_spec(mode);
    let c = area_height / h;
    vstd::arithmetic::div_mod::lemma_fundamental_div_mod(area_height as int, h as int);
    vstd::arithmetic::div_mod::lemma_mod_pos_bound(area_height as int, h as int);
    if area_height >= h {
        assert(c >= 1) by (nonlinear_arith)
            requires
                area_height == h * c + area_height % h,
                area_height % h < h,
                area_height >= h,
                h > 0,
        ;
    } else {
        assert(c == 0) by (nonlinear_arith)
            requires
                area_height == h * c + area_height % h,
                area_height % h >= 0,
                area_height < h,
                h > 0,
        ;
    }
    assert(c * h <= area_height < (c + 1) * h) by (nonlinear_arith)
        requires
            area_height == h * c + area_height % h,
            0 <= area_height % h < h,
    ;
}

// ---------------------------------------------------------------- one host

/// One host in the list.
pub struct HostOverview<'a> {
    pub host: &'a HostState,
    pub focused: bool,
    pub display_mode: DisplayMode,
}

/// The title of a host's panel: in the standard mode its name and status,
/// with the key help where it is focused; in the compact mode its name.
pub open spec fn overview_title_spec(
    name: Seq<char>,
    status: ConnectionStatus,
    focused: bool,
    mode: DisplayMode,
) -> Seq<char> {
    match mode {
        DisplayMode::Standard => if focused {
            " "@ + name + " ("@ + status.label_spec()
                + ") | Tab: ▼ | Shift+Tab: ▲ | Enter: Launch SSH "@
        } else {
            " "@ + name + " ("@ + status.label_spec() + ") "@
        },
        DisplayMode::Compact => " "@ + name + " "@,
    }
}

impl<'a> HostOverview<'a> {
    pub fn new(host: &'a HostState, focused: bool, display_mode: DisplayMode) -> (o: Self)
        ensures
            *o.host == *host,
            o.focused == focused,
            o.display_mode == display_mode,
    {
        HostOverview { host, focused, display_mode }
    }

    /// The title of the host's panel.
    pub fn title(&self) -> (t: String)
        ensures
            t@ == overview_title_spec(
                self.host.name@,
                self.host.connection_status,
                self.focused,
                self.display_mode,
            ),
    {
        let mut out = String::new();
        append_str(&mut out, " ");
        append_str(&mut out, self.host.name.as_str());
        match self.display_mode {
            DisplayMode::Standard => {
                append_str(&mut out, " (");
                append_str(&mut out, self.host.connection_status.label());
                if self.focused {
                    append_str(&mut out, ") | Tab: ▼ | Shift+Tab: ▲ | Enter: Launch SSH ");
                } else {
                    append_str(&mut out, ") ");
                }
            },
            DisplayMode::Compact => {
                append_str(&mut out, " ");
            },
        }
        out
    }
}

/// `Failed Units (<count>): <names joined by ", ">`.
pub open spec fn failed_units_full(units: Seq<Seq<char>>) -> Seq<char> {
    "Failed Units ("@ + decimal(units.len()) + "): "@ + join(units, ", "@)
}

/// The failed-units line cut to `width` characters: a line that is too
/// long keeps its first `width - 3` characters and ends in `...`, unless
/// `width` is 3 or less.
pub open spec fn failed_units_line_spec(units: Seq<Seq<char>>, width: nat) -> Seq<char> {
    let full = failed_units_full(units);
    if full.len() > width && width > 3 {
        full.take(width - 3) + "..."@
    } else {
        full
    }
}

fn join_strings(units: &[String], sep: &str) -> (s: String)
    ensures
        s@ == join(string_views(units@), sep@),
{
    let mut out = String::new();
    let ghost v = string_views(units@);
    let mut i: usize = 0;
    while i < units.len()
        invariant
            i <= units@.len(),
            v == string_views(units@),
            out@ == join(v.take(i as int), sep@),
        decreases units@.len() - i,
    {
        assert(v.take(i as int + 1).drop_last() =~= v.take(i as int));
        if i > 0 {
            append_str(&mut out, sep);
        }
        append_str(&mut out, units[i].as_str());
        i = i + 1;
        assert(out@ =~= join(v.take(i as int), sep@));
    }
    assert(v.take(units@.len() as int) =~= v);
    out
}

/// The failed-units line of a host panel, cut to `width` characters.
pub fn failed_units_line(units: &[String], width: usize) -> (line: String)
    ensures
        line@ == failed_units_line_spec(string_views(units@), width as nat),
{
    let mut full = String::new();
    append_str(&mut full, "Failed Units (");
    push_decimal(&mut full, units.len() as u64);
    append_str(&mut full, "): ");
    let joined = join_strings(units, ", ");
    append_str(&mut full, joined.as_str());
    assert(string_views(units@).len() == units@.len());
    assert(full@ =~= failed_units_full(string_views(units@)));
    let cs = chars_of(full.as_str());
    if cs.len() > width && width > 3 {
        let mut cut = string_of(copy_range(&cs, 0, width - 3).as_slice());
        assert(cs@.subrange(0, width - 3) =~= full@.take(width - 3));
        append_str(&mut cut, "...");
        cut
    } else {
        full
    }
}

/// The failed-units line never runs past a width of more than three
/// columns, and a cut line ends in `...`.
pub proof fn failed_units_line_fits(units: Seq<Seq<char>>, width: nat)
    requires
        width > 3,
    ensures
        failed_units_line_spec(units, width).len() <= width,
        failed_units_full(units).len() > width ==> failed_units_line_spec(units, width).len()
            == width && failed_units_line_spec(units, width).subrange(width - 3, width as int)
            == "..."@,
{
    reveal_strlit("...");
    let full = failed_units_full(units);
    if full.len() > width {
        let r = full.take(width - 3) + "..."@;
        assert(r.subrange(width - 3, width as int) =~= "..."@);
    }
}

// ---------------------------------------------------------------- processes

/// The process panel: the first line of the listing is its header.
pub struct TopProcesses<'a> {
    pub processes: &'a [String],
    pub scroll: usize,
}

impl<'a> TopProcesses<'a> {
    pub fn new(processes: &'a [String], scroll: usize) -> (t: Self)
        ensures
            t.processes@ == processes@,
            t.scroll == scroll,
    {
        TopProcesses { processes, scroll }
    }

    /// The header row: the first line indented by four spaces (empty
    /// without a listing).
    pub fn header_line(&self) -> (h: String)
        ensures
            h@ == "    "@ + if self.processes@.len() > 0 {
                self.processes@[0]@
            } else {
                seq![]
            },
    {
        let mut out = String::new();
        append_str(&mut out, "    ");
        if self.processes.len() > 0 {
            append_str(&mut out, self.processes[0].as_str());
        }
        out
    }

    /// How far the listing below the header scrolls: its length.
    pub fn scroll_length(&self) -> (n: usize)
        ensures
            n == if self.processes@.len() > 0 {
                self.processes@.len() - 1
            } else {
                0
            },
    {
        self.processes.len().saturating_sub(1)
    }
}

// ---------------------------------------------------------------- failed units bar

/// A one-line bar of failed units that scrolls sideways.
pub struct FailedUnits<'a> {
    pub failed_units: &'a [String],
    pub scroll: usize,
}

/// Bytes that `c` takes in UTF-8.
pub open spec fn utf8_width(c: char) -> nat {
    let u = c as u32;
    if u < 0x80 {
        1
    } else if u < 0x800 {
        2
    } else if u < 0x10000 {
        3
    } else {
        4
    }
}

/// Bytes that `s` takes in UTF-8.
pub open spec fn utf8_len(s: Seq<char>) -> nat
    decreases s.len(),
{
    if s.len() == 0 {
        0
    } else {
        utf8_len(s.drop_last()) + utf8_width(s.last())
    }
}

/// The bar's width: bytes of the names joined by `, ` (at most `usize::MAX`).
pub open spec fn content_width_spec(units: Seq<Seq<char>>) -> usize {
    let n = utf8_len(join(units, ", "@));
    if n <= usize::MAX {
        n as usize
    } else {
        usize::MAX
    }
}

impl<'a> FailedUnits<'a> {
    pub fn new(failed_units: &'a [String], scroll: usize) -> (f: Self)
        ensures
            f.failed_units@ == failed_units@,
            f.scroll == scroll,
    {
        FailedUnits { failed_units, scroll }
    }

    /// The text of the bar: the names joined by `, `.
    pub fn text(&self) -> (t: String)
        ensures
            t@ == join(string_views(self.failed_units@), ", "@),
    {
        join_strings(self.failed_units, ", ")
    }

    /// The bar's width in bytes.
    pub fn content_width(&self) -> (w: usize)
        ensures
            w == content_width_spec(string_views(self.failed_units@)),
    {
        let t = self.text();
        let cs = chars_of(t.as_str());
        let mut total: usize = 0;
        let mut i: usize = 0;
        let ghost full = cs@;
        while i < cs.len()
            invariant
                i <= cs@.len(),
                full == cs@,
                total == (if utf8_len(full.take(i as int)) <= usize::MAX {
                    utf8_len(full.take(i as int)) as usize
                } else {
                    usize::MAX
                }),
            decreases cs@.len() - i,
        {
            let u = cs[i] as u32;
            let w: usize = if u < 0x80 {
                1
            } else if u < 0x800 {
                2
            } else if u < 0x10000 {
                3
            } else {
                4
            };
            assert(full.take(i as int + 1).drop_last() =~= full.take(i as int));
            total = total.saturating_add(w);
            i = i + 1;
        }
        assert(full.take(cs@.len() as int) =~= full);
        total
    }

    /// How far the bar is scrolled: the requested offset, at most as far as
    /// shows the end of the text in `inner_width` columns.
    pub fn visible_scroll(&self, inner_width: usize) -> (s: usize)
        ensures
            ({
                let w = content_width_spec(string_views(self.failed_units@));
                let max_scroll = if w > inner_width {
                    w - inner_width
                } else {
                    0
                };
                s == if self.scroll < max_scroll {
                    self.scroll as int
                } else {
                    max_scroll
                }
            }),
    {
        let w = self.content_width();
        let max_scroll = w.saturating_sub(inner_width);
        if self.scroll < max_scroll {
            self.scroll
        } else {
            max_scroll
        }
    }
}

/// Whether a drawn cell holds a Braille dot pattern other than the blank
/// one: its first character lies in U+2801 to U+28FF.
pub open spec fn is_braille_spec(sym: Seq<char>) -> bool {
    sym.len() > 0 && 0x2801 <= (sym[0] as u32) <= 0x28ff
}

/// Whether a drawn cell holds a Braille dot pattern other than the blank one.
pub fn is_braille_symbol(sym: &str) -> (b: bool)
    ensures
        b == is_braille_spec(sym@),
{
    let cs = chars_of(sym);
    if cs.len() == 0 {
        return false;
    }
    let u = cs[0] as u32;
    0x2801 <= u && u <= 0x28ff
}

} // verus!
