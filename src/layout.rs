use vstd::prelude::*;

use crate::model::ProxyType;
use crate::tree::{clamp_index, ProxyGroup, ProxyItem, ProxyTree};

verus! {

/// Columns taken by the focus indicator at the start of a summary row; whoever draws the
/// rows gives each indicator this width, and each latency glyph two columns.
pub const INDICATOR_WIDTH: usize = 2;

/// How a group is drawn: the group under the tree cursor is focused (collapsed mode)
/// or expanded (expanded mode); every other group is drawn plainly.
#[derive(Clone, Copy, Debug, PartialEq, Eq, Structural)]
pub enum ProxyGroupFocusStatus {
    Unfocused,
    Focused,
    Expanded,
}

/// Latency buckets, each drawn in its own style.
#[derive(Clone, Copy, Debug, PartialEq, Eq, Structural)]
pub enum Latency {
    NoLatency,
    Low,
    Mid,
    High,
}

/// The glyph that opens a row.
#[derive(Clone, Copy, Debug, PartialEq, Eq, Structural)]
pub enum Indicator {
    Focused,
    Unfocused,
    ExpandedPointed,
    Expanded,
}

/// How a name is emphasised.
#[derive(Clone, Copy, Debug, PartialEq, Eq, Structural)]
pub enum NameStyle {
    Group,
    Current,
    Pointed,
    Plain,
}

/// One styled piece of a row; colours and glyphs are left to whoever draws it.
#[derive(Clone, Debug, PartialEq, Eq)]
pub enum Cell {
    Indicator(Indicator),
    Space,
    Name(String, NameStyle),
    Type(ProxyType),
    /// The member count of a group.
    Count(usize),
    /// One-based cursor position and member count of the expanded group.
    Position(usize, usize),
    /// A member's latency glyph in a summary row.
    Glyph(Latency),
    /// The glyph of a member that is itself a group.
    NotProxy,
    /// A measured delay in milliseconds, in the style of its bucket.
    Delay(u64, Latency),
    /// The sign shown where no latency could be measured.
    NoLatencySign,
    Blank,
}

pub open spec fn delay_bucket(delay: u64) -> Latency {
    if delay == 0 {
        Latency::NoLatency
    } else if delay <= 200 {
        Latency::Low
    } else if delay <= 400 {
        Latency::Mid
    } else {
        Latency::High
    }
}

/// The bucket of a delay: 0, 1 to 200, 201 to 400, above 400.
pub fn get_delay_style(delay: u64) -> (r: Latency)
    ensures
        r == delay_bucket(delay),
{
    if delay == 0 {
        Latency::NoLatency
    } else if delay <= 200 {
        Latency::Low
    } else if delay <= 400 {
        Latency::Mid
    } else {
        Latency::High
    }
}

/// The glyph of a member in a summary row.
pub open spec fn summary_cell(m: ProxyItem) -> Cell {
    if m.proxy_type.is_normal_spec() {
        match m.history {
            Some(h) => Cell::Glyph(delay_bucket(h.delay)),
            None => Cell::Glyph(Latency::NoLatency),
        }
    } else {
        Cell::NotProxy
    }
}

/// The latency cell of a member in an expanded row.
pub open spec fn latency_cell(m: ProxyItem) -> Cell {
    match m.history {
        Some(h) => if h.delay > 0 {
            Cell::Delay(h.delay, delay_bucket(h.delay))
        } else {
            Cell::NoLatencySign
        },
        None => if m.proxy_type.is_normal_spec() {
            Cell::NoLatencySign
        } else {
            Cell::Blank
        },
    }
}

pub open spec fn summary_cells(g: ProxyGroup) -> Seq<Cell> {
    Seq::new(g.members@.len(), |i: int| summary_cell(g.members@[i]))
}

/// Summary glyphs per row for a viewport `width` columns wide; never less than one.
pub open spec fn glyphs_per_row(width: usize) -> nat {
    let w = if width < INDICATOR_WIDTH + 2 { 0 } else { ((width - INDICATOR_WIDTH - 2) / 2) as nat };
    if w == 0 { 1 } else { w }
}

/// The summary rows from glyph `start` on: each holds `prefix` and then up to `per_row` glyphs.
pub open spec fn chunk_rows(glyphs: Seq<Cell>, prefix: Cell, per_row: nat, start: int) -> Seq<Seq<Cell>>
    decreases glyphs.len() - start,
    when per_row > 0
{
    if start >= glyphs.len() || start < 0 {
        Seq::empty()
    } else {
        let end = if start + per_row < glyphs.len() { start + per_row } else { glyphs.len() as int };
        seq![seq![prefix] + glyphs.subrange(start, end)] + chunk_rows(glyphs, prefix, per_row, end)
    }
}

pub open spec fn prefix_cell(status: ProxyGroupFocusStatus) -> Cell {
    if status == ProxyGroupFocusStatus::Focused {
        Cell::Indicator(Indicator::Focused)
    } else {
        Cell::Indicator(Indicator::Unfocused)
    }
}

/// The group's cursor as drawn: a stale cursor past the last member stands on the last.
pub open spec fn group_cursor(g: ProxyGroup) -> usize {
    clamp_index(g.cursor, g.members@.len())
}

pub open spec fn header_row(g: ProxyGroup, status: ProxyGroupFocusStatus) -> Seq<Cell> {
    seq![
        prefix_cell(status),
        Cell::Name(g.name, NameStyle::Group),
        Cell::Space,
        Cell::Type(g.proxy_type),
        Cell::Space,
        if status == ProxyGroupFocusStatus::Expanded {
            Cell::Position((group_cursor(g) + 1) as usize, g.members@.len() as usize)
        } else {
            Cell::Count(g.members@.len() as usize)
        },
    ]
}

pub open spec fn name_style(g: ProxyGroup, i: int) -> NameStyle {
    if g.current == Some(i as usize) {
        NameStyle::Current
    } else if group_cursor(g) == i {
        NameStyle::Pointed
    } else {
        NameStyle::Plain
    }
}

/// The row of member `i` in an expanded group.
pub open spec fn member_row(g: ProxyGroup, i: int) -> Seq<Cell> {
    let m = g.members@[i];
    seq![
        if group_cursor(g) == i {
            Cell::Indicator(Indicator::ExpandedPointed)
        } else {
            Cell::Indicator(Indicator::Expanded)
        },
        Cell::Space,
        Cell::Name(m.name, name_style(g, i)),
        Cell::Space,
        Cell::Type(m.proxy_type),
        Cell::Space,
        latency_cell(m),
    ]
}

/// First member shown when a group is expanded: four members of context before the cursor.
pub open spec fn member_window_start(cursor: usize) -> int {
    if cursor < 4 { 0 } else { cursor - 4 }
}

pub open spec fn member_rows(g: ProxyGroup) -> Seq<Seq<Cell>> {
    let s = member_window_start(group_cursor(g));
    if s >= g.members@.len() {
        Seq::empty()
    } else {
        Seq::new((g.members@.len() - s) as nat, |k: int| member_row(g, s + k))
    }
}

/// All rows of a group: the header, then its members (expanded) or its glyphs (otherwise).
pub open spec fn group_rows(g: ProxyGroup, width: usize, status: ProxyGroupFocusStatus) -> Seq<Seq<Cell>> {
    seq![header_row(g, status)] + if status == ProxyGroupFocusStatus::Expanded {
        member_rows(g)
    } else {
        chunk_rows(summary_cells(g), prefix_cell(status), glyphs_per_row(width), 0)
    }
}

pub open spec fn rows_view(rows: Seq<Vec<Cell>>) -> Seq<Seq<Cell>> {
    rows.map_values(|r: Vec<Cell>| r@)
}

fn prefix_for(status: ProxyGroupFocusStatus) -> (r: Cell)
    ensures
        r == prefix_cell(status),
{
    if status == ProxyGroupFocusStatus::Focused {
        Cell::Indicator(Indicator::Focused)
    } else {
        Cell::Indicator(Indicator::Unfocused)
    }
}

fn latency_of(m: &ProxyItem) -> (r: Cell)
    ensures
        r == latency_cell(*m),
{
    match m.history {
        Some(h) => if h.delay > 0 {
            Cell::Delay(h.delay, get_delay_style(h.delay))
        } else {
            Cell::NoLatencySign
        },
        None => if m.proxy_type.is_normal() {
            Cell::NoLatencySign
        } else {
            Cell::Blank
        },
    }
}

fn glyph_of(m: &ProxyItem) -> (r: Cell)
    ensures
        r == summary_cell(*m),
{
    if m.proxy_type.is_normal() {
        match m.history {
            Some(h) => Cell::Glyph(get_delay_style(h.delay)),
            None => Cell::Glyph(Latency::NoLatency),
        }
    } else {
        Cell::NotProxy
    }
}

impl ProxyGroup {
    /// One glyph per member, in member order.
    pub fn get_summary_widget(&self) -> (r: Vec<Cell>)
        ensures
            r@ == summary_cells(*self),
    {
        let mut r: Vec<Cell> = Vec::new();
        let mut i: usize = 0;
        while i < self.members.len()
            invariant
                0 <= i <= self.members.len(),
                r@ == summary_cells(*self).take(i as int),
            decreases self.members.len() - i,
        {
            r.push(glyph_of(&self.members[i]));
            i = i + 1;
            assert(r@ =~= summary_cells(*self).take(i as int));
        }
        assert(r@ =~= summary_cells(*self));
        r
    }

    /// The rows of this group for a viewport `width` columns wide.
    pub fn get_widget(&self, width: usize, status: ProxyGroupFocusStatus) -> (r: Vec<Vec<Cell>>)
        ensures
            rows_view(r@) == group_rows(*self, width, status),
    {
        let count = self.members.len();
        let c = if self.cursor < count {
            self.cursor
        } else if count == 0 {
            0
        } else {
            count - 1
        };
        let header = vec![
            prefix_for(status),
            Cell::Name(self.name.clone(), NameStyle::Group),
            Cell::Space,
            Cell::Type(self.proxy_type),
            Cell::Space,
            if status == ProxyGroupFocusStatus::Expanded {
                Cell::Position(c + 1, count)
            } else {
                Cell::Count(count)
            },
        ];
        let mut ret: Vec<Vec<Cell>> = Vec::new();
        ret.push(header);
        assert(rows_view(ret@) =~= seq![header_row(*self, status)]);
        if status == ProxyGroupFocusStatus::Expanded {
            let skipped = c.saturating_sub(4);
            let first = if skipped < count { skipped } else { count };
            let mut i: usize = first;
            assert(rows_view(ret@) =~= seq![header_row(*self, status)]
                + Seq::new((i - first) as nat, |k: int| member_row(*self, first + k)));
            while i < count
                invariant
                    count == self.members.len(),
                    c == group_cursor(*self),
                    skipped == member_window_start(c),
                    first == if skipped < count { skipped } else { count },
                    first <= i <= count,
                    status == ProxyGroupFocusStatus::Expanded,
                    rows_view(ret@) == seq![header_row(*self, status)]
                        + Seq::new((i - first) as nat, |k: int| member_row(*self, first + k)),
                decreases count - i,
            {
                let m = &self.members[i];
                let style = if self.current == Some(i) {
                    NameStyle::Current
                } else if c == i {
                    NameStyle::Pointed
                } else {
                    NameStyle::Plain
                };
                let row = vec![
                    if c == i {
                        Cell::Indicator(Indicator::ExpandedPointed)
                    } else {
                        Cell::Indicator(Indicator::Expanded)
                    },
                    Cell::Space,
                    Cell::Name(m.name.clone(), style),
                    Cell::Space,
                    Cell::Type(m.proxy_type),
                    Cell::Space,
                    latency_of(m),
                ];
                let ghost before = rows_view(ret@);
                assert(row@ =~= member_row(*self, i as int));
                ret.push(row);
                i = i + 1;
                assert(rows_view(ret@) =~= before.push(member_row(*self, (i - 1) as int)));
                assert(rows_view(ret@) =~= seq![header_row(*self, status)]
                    + Seq::new((i - first) as nat, |k: int| member_row(*self, first + k)));
            }
            assert(rows_view(ret@) =~= group_rows(*self, width, status));
        } else {
            let ghost glyphs = summary_cells(*self);
            let ghost prefix = prefix_cell(status);
            let room = width.saturating_sub(INDICATOR_WIDTH + 2) / 2;
            let per_row = if room == 0 { 1 } else { room };
            assert(per_row == glyphs_per_row(width));
            let ghost target = chunk_rows(glyphs, prefix, per_row as nat, 0);
            let mut start: usize = 0;
            while start < count
                invariant
                    count == self.members.len(),
                    glyphs.len() == count,
                    glyphs == summary_cells(*self),
                    target == chunk_rows(glyphs, prefix, per_row as nat, 0),
                    prefix == prefix_cell(status),
                    status != ProxyGroupFocusStatus::Expanded,
                    per_row == glyphs_per_row(width),
                    per_row > 0,
                    start <= count,
                    rows_view(ret@) + chunk_rows(glyphs, prefix, per_row as nat, start as int)
                        == seq![header_row(*self, status)] + target,
                decreases count - start,
            {
                let end = if per_row < count - start { start + per_row } else { count };
                let mut row: Vec<Cell> = Vec::new();
                row.push(prefix_for(status));
                assert(row@ =~= seq![prefix] + glyphs.subrange(start as int, start as int));
                let mut k: usize = start;
                while k < end
                    invariant
                        start <= k <= end,
                        end <= count,
                        glyphs.len() == count,
                        count == self.members.len(),
                        glyphs == summary_cells(*self),
                        row@ == seq![prefix] + glyphs.subrange(start as int, k as int),
                    decreases end - k,
                {
                    row.push(glyph_of(&self.members[k]));
                    k = k + 1;
                    assert(row@ =~= seq![prefix] + glyphs.subrange(start as int, k as int));
                }
                let ghost before = rows_view(ret@);
                ret.push(row);
                assert(rows_view(ret@) =~= before.push(row@));
                assert(chunk_rows(glyphs, prefix, per_row as nat, start as int) =~= seq![row@]
                    + chunk_rows(glyphs, prefix, per_row as nat, end as int));
                assert(rows_view(ret@) + chunk_rows(glyphs, prefix, per_row as nat, end as int)
                    =~= before + chunk_rows(glyphs, prefix, per_row as nat, start as int));
                start = end;
            }
            assert(chunk_rows(glyphs, prefix, per_row as nat, start as int) =~= Seq::empty());
            assert(rows_view(ret@) =~= group_rows(*self, width, status));
        }
        ret
    }
}

/// The tree's cursor as drawn: a stale cursor past the last group stands on the last.
pub open spec fn tree_cursor(t: ProxyTree) -> usize {
    clamp_index(t.cursor, t.groups@.len())
}

/// First group shown: the tree cursor itself when expanded, two groups of context before
/// it when collapsed.
pub open spec fn window_start(t: ProxyTree) -> int {
    let c = tree_cursor(t);
    if t.expanded {
        c as int
    } else if c < 2 {
        0
    } else {
        c - 2
    }
}

/// How group `i` is drawn in the tree.
pub open spec fn status_of(t: ProxyTree, i: int) -> ProxyGroupFocusStatus {
    if tree_cursor(t) == i {
        if t.expanded {
            ProxyGroupFocusStatus::Expanded
        } else {
            ProxyGroupFocusStatus::Focused
        }
    } else {
        ProxyGroupFocusStatus::Unfocused
    }
}

/// The rows of groups `i` onward, one group after the other.
pub open spec fn rows_from(t: ProxyTree, width: usize, i: int) -> Seq<Seq<Cell>>
    decreases t.groups@.len() - i,
{
    if i < 0 || i >= t.groups@.len() {
        Seq::empty()
    } else {
        group_rows(t.groups@[i], width, status_of(t, i)) + rows_from(t, width, i + 1)
    }
}

/// The rows of the tree in a viewport of `width` columns and `height` rows.
pub open spec fn tree_rows(t: ProxyTree, width: usize, height: usize) -> Seq<Seq<Cell>> {
    let all = rows_from(t, width, window_start(t));
    if height < all.len() {
        all.take(height as int)
    } else {
        all
    }
}

/// A view of a proxy tree that lays it out in a bounded viewport.
pub struct ProxyTreeWidget<'a> {
    pub state: &'a ProxyTree,
}

impl<'a> ProxyTreeWidget<'a> {
    pub fn new(state: &'a ProxyTree) -> (r: ProxyTreeWidget<'a>)
        ensures
            *r.state == *state,
    {
        ProxyTreeWidget { state }
    }

    /// Whether the frame is drawn with the focused border: in expanded mode.
    pub fn focused_border(&self) -> (r: bool)
        ensures
            r == self.state.expanded,
    {
        self.state.expanded
    }

    /// The rows shown in a viewport of `width` columns and `height` rows.
    pub fn rows(&self, width: usize, height: usize) -> (r: Vec<Vec<Cell>>)
        ensures
            rows_view(r@) == tree_rows(*self.state, width, height),
    {
        let t = self.state;
        let n = t.groups.len();
        let c = if t.cursor < n {
            t.cursor
        } else if n == 0 {
            0
        } else {
            n - 1
        };
        let skip = if t.expanded { c } else { c.saturating_sub(2) };
        let mut acc: Vec<Vec<Cell>> = Vec::new();
        let mut i: usize = skip;
        proof {
            if i >= n {
                assert(rows_from(*t, width, i as int) =~= Seq::empty());
            }
            assert(rows_view(acc@) + rows_from(*t, width, i as int) =~= rows_from(*t, width, i as int));
        }
        while i < n
            invariant
                n == t.groups.len(),
                c == tree_cursor(*t),
                skip == window_start(*t),
                skip <= i,
                rows_view(acc@) + rows_from(*t, width, i as int) == rows_from(*t, width, skip as int),
            decreases n - i,
        {
            let status = if c == i {
                if t.expanded {
                    ProxyGroupFocusStatus::Expanded
                } else {
                    ProxyGroupFocusStatus::Focused
                }
            } else {
                ProxyGroupFocusStatus::Unfocused
            };
            let mut rows = t.groups[i].get_widget(width, status);
            let ghost before = rows_view(acc@);
            let ghost added = rows_view(rows@);
            acc.append(&mut rows);
            assert(rows_view(acc@) =~= before + added);
            i = i + 1;
            assert(rows_view(acc@) + rows_from(*t, width, i as int) =~= before + rows_from(
                *t,
                width,
                (i - 1) as int,
            ));
        }
        proof {
            assert(rows_from(*t, width, i as int) =~= Seq::empty());
            assert(rows_view(acc@) =~= rows_from(*t, width, skip as int));
        }
        acc.truncate(height);
        assert(rows_view(acc@) =~= tree_rows(*t, width, height));
        acc
    }
}

} // verus!
