//! The interactive picker of updates: its lines, cursor, selection and
//! scrolling, what a key does to it, and the frame it shows. The terminal
//! itself is driven from outside: it reports keys and draws the frame.

use vstd::prelude::*;
use crate::text::{chars_of, extend_chars, nat_text, push_decimal, string_of};
use crate::version::{paint, styled, TermStyle};
use vstd::arithmetic::div_mod::{lemma_add_mod_noop, lemma_add_mod_noop_right, lemma_sub_mod_noop, lemma_mod_multiples_vanish, lemma_small_mod, lemma_mod_bound, lemma_mod_twice};

verus! {

/// A line of the picker.
#[derive(Debug)]
pub enum PickerLine {
    /// The name of a unit, above its updates.
    Group(String),
    /// A blank line between units.
    Separator,
    /// An update, with its place in the order of updates and its text.
    Update { cursor_idx: usize, label: String },
}

/// A line of the picker, as plain values.
pub enum LineView {
    Group(Seq<char>),
    Separator,
    Update(int, Seq<char>),
}

pub open spec fn line_view(l: PickerLine) -> LineView {
    match l {
        PickerLine::Group(name) => LineView::Group(name@),
        PickerLine::Separator => LineView::Separator,
        PickerLine::Update { cursor_idx, label } => LineView::Update(cursor_idx as int, label@),
    }
}

pub open spec fn line_views(ls: Seq<PickerLine>) -> Seq<LineView> {
    ls.map_values(|l: PickerLine| line_view(l))
}

/// The picker's state.
pub struct Picker {
    lines: Vec<PickerLine>,
    selected: Vec<bool>,
    update_line_for_cursor: Vec<usize>,
    group_line_for_cursor: Vec<usize>,
    cursor: usize,
    scroll_offset: usize,
    header_lines: usize,
    window_lines: usize,
    compact: bool,
}

/// The first line from `start` on that is not a separator, or the end.
pub open spec fn skip_seps(lines: Seq<LineView>, start: int) -> int
    decreases lines.len() - start,
{
    if 0 <= start < lines.len() && lines[start] is Separator {
        skip_seps(lines, start + 1)
    } else {
        start
    }
}

impl Picker {
    pub closed spec fn lines_view(&self) -> Seq<LineView> {
        line_views(self.lines@)
    }

    pub closed spec fn selected_view(&self) -> Seq<bool> {
        self.selected@
    }

    pub closed spec fn cursor_view(&self) -> int {
        self.cursor as int
    }

    pub closed spec fn scroll_view(&self) -> int {
        self.scroll_offset as int
    }

    pub closed spec fn window_view(&self) -> int {
        self.window_lines as int
    }

    pub closed spec fn header_view(&self) -> int {
        self.header_lines as int
    }

    pub closed spec fn compact_view(&self) -> bool {
        self.compact
    }

    /// The line of each update.
    pub closed spec fn update_lines(&self) -> Seq<int> {
        self.update_line_for_cursor@.map_values(|x: usize| x as int)
    }

    /// The line of the unit of each update.
    pub closed spec fn group_lines(&self) -> Seq<int> {
        self.group_line_for_cursor@.map_values(|x: usize| x as int)
    }

    /// The number of updates.
    pub open spec fn count(&self) -> int {
        self.update_lines().len() as int
    }

    /// The line of the update under the cursor.
    pub open spec fn cursor_line(&self) -> int {
        self.update_lines()[self.cursor_view()]
    }

    /// The line of the unit of the update under the cursor.
    pub open spec fn cursor_group_line(&self) -> int {
        self.group_lines()[self.cursor_view()]
    }

    /// Whether there are more lines than the window shows.
    pub open spec fn scrolls(&self) -> bool {
        self.lines_view().len() > self.window_view()
    }

    /// Whether the unit of the current update is shown pinned above the
    /// window: its line lies above the first line shown.
    pub open spec fn sticky_at(&self, start: int) -> bool {
        self.cursor_group_line() < start
    }

    /// The shape of the lines: every update has its line, below the line of
    /// its unit with no other unit between, and every update line is some
    /// update's; the window has room for a unit and an update.
    #[verifier::type_invariant]
    pub open spec fn well_formed(&self) -> bool {
        let lines = self.lines_view();
        let ul = self.update_lines();
        let gl = self.group_lines();
        &&& ul.len() >= 1
        &&& ul.len() <= lines.len()
        &&& self.selected_view().len() == ul.len()
        &&& gl.len() == ul.len()
        &&& 0 <= self.cursor_view() < ul.len()
        &&& self.window_view() >= 2
        &&& self.header_view() == if self.compact_view() { 1int } else { 3int }
        &&& lines.len() + 3 <= usize::MAX
        &&& 0 <= self.scroll_view() <= lines.len()
        &&& self.header_view() + self.window_view() <= usize::MAX
        &&& forall|c: int|
            #![trigger ul[c]]
            0 <= c < ul.len() ==> 0 <= gl[c] < ul[c] < lines.len() && lines[ul[c]] == LineView::Update(
                c,
                lines[ul[c]]->Update_1,
            ) && lines[gl[c]] is Group && (forall|g: int| gl[c] < g < ul[c] ==> !(#[trigger] lines[g] is Group))
        &&& forall|i: int|
            #![trigger lines[i]]
            0 <= i < lines.len() && lines[i] is Update ==> 0 <= lines[i]->Update_0 < ul.len() && ul[lines[i]->Update_0]
                == i
    }

    /// Whether the update under the cursor is shown: with the window starting
    /// at the scroll offset, its line is below the start and, counting the
    /// pinned unit line where there is one, within the window.
    pub open spec fn cursor_shown(&self) -> bool {
        self.scrolls() ==> {
            &&& self.scroll_view() <= self.cursor_line()
            &&& self.cursor_line() + (if self.sticky_at(self.scroll_view()) { 1int } else { 0int }) < self.scroll_view()
                + self.window_view()
        }
    }
}

/// Skipping separators from `start` gets past `start` but not past a line
/// that is no separator.
pub proof fn lemma_skip_seps(lines: Seq<LineView>, start: int, stop: int)
    requires
        0 <= start <= stop < lines.len(),
        !(lines[stop] is Separator),
    ensures
        start <= skip_seps(lines, start) <= stop,
    decreases stop - start,
{
    if lines[start] is Separator {
        lemma_skip_seps(lines, start + 1, stop);
    }
}

/// Where the window starts after the cursor moved to the update on line
/// `cl` of the unit on line `gl`, from the start `off`: as little a move as
/// shows the update; the unit's line where the update is its first and the
/// unit's line is out of view; never on a separator; and one line less
/// where the unit is pinned above the window.
pub open spec fn adjusted_scroll(lines: Seq<LineView>, cl: int, gl: int, off: int, w: int) -> int {
    if lines.len() <= w {
        0
    } else {
        let o1 = if cl < off {
            cl
        } else if cl >= off + w {
            cl - w + 1
        } else {
            off
        };
        let first_in_group = cl > 0 && lines[cl - 1] is Group;
        let o2 = if first_in_group && (gl < o1 || gl >= o1 + w) {
            gl
        } else {
            o1
        };
        let o3 = skip_seps(lines, o2);
        if gl < o3 {
            let visible = if w - 1 >= 1 {
                w - 1
            } else {
                1
            };
            let o4 = if cl >= o3 + visible {
                cl - visible + 1
            } else {
                o3
            };
            skip_seps(lines, o4)
        } else {
            o3
        }
    }
}

impl Picker {
    /// Whether there are more lines than the window shows.
    pub fn needs_scroll(&self) -> (r: bool)
        ensures
            r == self.scrolls(),
    {
        self.lines.len() > self.window_lines
    }

    /// The number of terminal lines the picker takes.
    pub fn total_lines(&self) -> (r: usize)
        ensures
            r == self.header_view() + if self.scrolls() {
                self.window_view()
            } else {
                self.lines_view().len() as int
            },
    {
        proof {
            use_type_invariant(self);
        }
        self.header_lines + if self.needs_scroll() {
            self.window_lines
        } else {
            self.lines.len()
        }
    }

    /// The first line from `start` on that is not a separator.
    fn skip_separators(&self, start: usize) -> (r: usize)
        requires
            start <= self.lines_view().len(),
        ensures
            r == skip_seps(self.lines_view(), start as int),
            r <= self.lines_view().len(),
    {
        let ghost lines = self.lines_view();
        let mut i = start;
        while i < self.lines.len() && self.is_separator(i)
            invariant
                start <= i <= lines.len(),
                lines == self.lines_view(),
                skip_seps(lines, start as int) == skip_seps(lines, i as int),
            decreases lines.len() - i,
        {
            i = i + 1;
        }
        i
    }

    /// Whether line `i` is a separator.
    fn is_separator(&self, i: usize) -> (r: bool)
        requires
            i < self.lines_view().len(),
        ensures
            r == self.lines_view()[i as int] is Separator,
    {
        proof {
            assert(self.lines_view()[i as int] == line_view(self.lines@[i as int]));
        }
        match self.lines[i] {
            PickerLine::Separator => true,
            _ => false,
        }
    }

    /// Whether the update under the cursor is the first of its unit.
    fn cursor_is_first_in_group(&self) -> (r: bool)
        ensures
            r == (self.cursor_line() > 0 && self.lines_view()[self.cursor_line() - 1] is Group),
    {
        proof {
            use_type_invariant(self);
        }
        let update_line = self.update_line_for_cursor[self.cursor];
        if update_line == 0 {
            return false;
        }
        proof {
            assert(self.lines_view()[update_line - 1] == line_view(self.lines@[update_line - 1]));
        }
        match self.lines[update_line - 1] {
            PickerLine::Group(_) => true,
            _ => false,
        }
    }

    /// Whether the unit of the current update is pinned above a window that
    /// starts at `start`.
    fn group_is_sticky(&self, start: usize) -> (r: bool)
        ensures
            r == self.sticky_at(start as int),
    {
        proof {
            use_type_invariant(self);
        }
        self.group_line_for_cursor[self.cursor] < start
    }
}

/// The adjusted window shows the update under the cursor: it starts at or
/// above the update's line, and the update's line, below the pinned unit
/// line where there is one, is within the window.
pub proof fn lemma_adjusted_scroll_shows(lines: Seq<LineView>, cl: int, gl: int, off: int, w: int)
    requires
        0 <= gl < cl < lines.len(),
        0 <= off,
        w >= 2,
        lines.len() > w,
        lines[cl] is Update,
        lines[gl] is Group,
        forall|g: int| gl < g < cl ==> !(#[trigger] lines[g] is Group),
    ensures
        0 <= adjusted_scroll(lines, cl, gl, off, w) <= cl,
        cl + (if gl < adjusted_scroll(lines, cl, gl, off, w) { 1int } else { 0int }) < adjusted_scroll(
            lines,
            cl,
            gl,
            off,
            w,
        ) + w,
{
    let o1 = if cl < off {
        cl
    } else if cl >= off + w {
        cl - w + 1
    } else {
        off
    };
    let first_in_group = cl > 0 && lines[cl - 1] is Group;
    if first_in_group {
        assert(gl == cl - 1);
    }
    let o2 = if first_in_group && (gl < o1 || gl >= o1 + w) {
        gl
    } else {
        o1
    };
    lemma_skip_seps(lines, o2, cl);
    let o3 = skip_seps(lines, o2);
    if gl < o3 {
        let visible = w - 1;
        let o4 = if cl >= o3 + visible {
            cl - visible + 1
        } else {
            o3
        };
        lemma_skip_seps(lines, o4, cl);
    }
}

impl Picker {
    /// Moves the window so that the update under the cursor shows.
    fn adjust_scroll(&mut self)
        ensures
            final(self).lines_view() == old(self).lines_view(),
            final(self).selected_view() == old(self).selected_view(),
            final(self).cursor_view() == old(self).cursor_view(),
            final(self).update_lines() == old(self).update_lines(),
            final(self).group_lines() == old(self).group_lines(),
            final(self).window_view() == old(self).window_view(),
            final(self).header_view() == old(self).header_view(),
            final(self).compact_view() == old(self).compact_view(),
            final(self).scroll_view() == adjusted_scroll(
                old(self).lines_view(),
                old(self).cursor_line(),
                old(self).cursor_group_line(),
                old(self).scroll_view(),
                old(self).window_view(),
            ),
            final(self).cursor_shown(),
    {
        proof {
            use_type_invariant(&*self);
        }
        if !self.needs_scroll() {
            self.scroll_offset = 0;
            return;
        }
        let ghost lines = self.lines_view();
        let cl = self.update_line_for_cursor[self.cursor];
        let gl = self.group_line_for_cursor[self.cursor];
        assert(cl == self.cursor_line() && gl == self.cursor_group_line());
        let w = self.window_lines;
        let mut off = self.scroll_offset;
        if cl < off {
            off = cl;
        } else if cl - off >= w {
            off = cl - w + 1;
        }
        if self.cursor_is_first_in_group() && (gl < off || gl - off >= w) {
            off = gl;
        }
        proof {
            assert(lines[cl as int] is Update);
            lemma_skip_seps(lines, off as int, cl as int);
        }
        off = self.skip_separators(off);
        if gl < off {
            let visible = w - 1;
            if cl >= off && cl - off >= visible {
                off = cl - visible + 1;
            }
            proof {
                lemma_skip_seps(lines, off as int, cl as int);
            }
            off = self.skip_separators(off);
        }
        proof {
            lemma_adjusted_scroll_shows(lines, cl as int, gl as int, old(self).scroll_view(), w as int);
        }
        self.scroll_offset = off;
    }

    /// Moves the cursor by `delta` updates, round the ends, and the window
    /// with it.
    pub fn move_cursor(&mut self, delta: isize)
        ensures
            final(self).cursor_view() == (old(self).cursor_view() + delta) % old(self).count(),
            final(self).lines_view() == old(self).lines_view(),
            final(self).header_view() == old(self).header_view(),
            final(self).compact_view() == old(self).compact_view(),
            final(self).selected_view() == old(self).selected_view(),
            final(self).update_lines() == old(self).update_lines(),
            final(self).group_lines() == old(self).group_lines(),
            final(self).window_view() == old(self).window_view(),
            final(self).scroll_view() == adjusted_scroll(
                final(self).lines_view(),
                final(self).cursor_line(),
                final(self).cursor_group_line(),
                old(self).scroll_view(),
                final(self).window_view(),
            ),
            final(self).cursor_shown(),
    {
        proof {
            use_type_invariant(&*self);
        }
        let count = self.update_line_for_cursor.len();
        let c = self.cursor;
        let next: usize = if delta >= 0 {
            let r = (delta as usize) % count;
            proof {
                lemma_add_mod_noop_right(c as int, delta as int, count as int);
            }
            if c >= count - r {
                proof {
                    lemma_mod_multiples_vanish(1, c + r - count, count as int);
                    lemma_small_mod((c + r - count) as nat, count as nat);
                }
                c - (count - r)
            } else {
                proof {
                    lemma_small_mod((c + r) as nat, count as nat);
                }
                c + r
            }
        } else {
            let a: usize = (-(delta as i128)) as usize;
            let r = a % count;
            proof {
                lemma_small_mod(c as nat, count as nat);
                lemma_sub_mod_noop(c as int, a as int, count as int);
            }
            if c >= r {
                proof {
                    lemma_small_mod((c - r) as nat, count as nat);
                }
                c - r
            } else {
                proof {
                    lemma_mod_multiples_vanish(1, c - r, count as int);
                    lemma_small_mod((c + count - r) as nat, count as nat);
                }
                count - (r - c)
            }
        };
        self.cursor = next;
        self.adjust_scroll();
    }

    /// Flips the selection of the update under the cursor, moves the cursor
    /// to the next update (round the end), and the window with it.
    pub fn toggle_and_advance(&mut self)
        ensures
            final(self).selected_view() == old(self).selected_view().update(
                old(self).cursor_view(),
                !old(self).selected_view()[old(self).cursor_view()],
            ),
            final(self).cursor_view() == if old(self).count() > 1 {
                (old(self).cursor_view() + 1) % old(self).count()
            } else {
                old(self).cursor_view()
            },
            final(self).lines_view() == old(self).lines_view(),
            final(self).header_view() == old(self).header_view(),
            final(self).compact_view() == old(self).compact_view(),
            final(self).update_lines() == old(self).update_lines(),
            final(self).group_lines() == old(self).group_lines(),
            final(self).window_view() == old(self).window_view(),
            final(self).scroll_view() == adjusted_scroll(
                final(self).lines_view(),
                final(self).cursor_line(),
                final(self).cursor_group_line(),
                old(self).scroll_view(),
                final(self).window_view(),
            ),
            final(self).cursor_shown(),
    {
        proof {
            use_type_invariant(&*self);
        }
        let c = self.cursor;
        let flipped = !self.selected[c];
        let mut sel = self.selected.clone();
        proof {
            assert(sel@ =~= self.selected@);
        }
        sel.set(c, flipped);
        self.selected = sel;
        if self.update_line_for_cursor.len() > 1 {
            self.cursor = (c + 1) % self.update_line_for_cursor.len();
        }
        self.adjust_scroll();
    }

    /// The updates that are selected, in order.
    pub fn selected_indices(&self) -> (r: Vec<usize>)
        ensures
            r@.map_values(|i: usize| i as int) == selected_positions(self.selected_view(), self.selected_view().len() as int),
    {
        let mut r: Vec<usize> = Vec::new();
        let mut i: usize = 0;
        while i < self.selected.len()
            invariant
                i <= self.selected@.len(),
                r@.map_values(|x: usize| x as int) == selected_positions(self.selected@, i as int),
            decreases self.selected@.len() - i,
        {
            if self.selected[i] {
                r.push(i);
                proof {
                    assert(r@.map_values(|x: usize| x as int) =~= selected_positions(self.selected@, i as int).push(i as int));
                }
            }
            i = i + 1;
        }
        r
    }
}

/// The positions of the selected updates among the first `n`, in order.
pub open spec fn selected_positions(sel: Seq<bool>, n: int) -> Seq<int>
    decreases n,
{
    if n <= 0 {
        seq![]
    } else if sel[n - 1] {
        selected_positions(sel, n - 1).push(n - 1)
    } else {
        selected_positions(sel, n - 1)
    }
}

/// The number of updates in some units.
pub open spec fn label_total(groups: Seq<(String, Vec<String>)>) -> int
    decreases groups.len(),
{
    if groups.len() == 0 {
        0
    } else {
        label_total(groups.drop_last()) + groups.last().1@.len()
    }
}

/// The update lines of a unit whose first update comes `base`-th.
pub open spec fn update_line_views(base: int, labels: Seq<String>) -> Seq<LineView> {
    Seq::new(labels.len(), |j: int| LineView::Update(base + j, labels[j]@))
}

/// The lines of the picker for units with their updates' texts: per unit,
/// a separator before every unit but the first unless compact, the unit's
/// name, and its updates.
pub open spec fn picker_lines_spec(groups: Seq<(String, Vec<String>)>, compact: bool) -> Seq<LineView>
    decreases groups.len(),
{
    if groups.len() == 0 {
        seq![]
    } else {
        let prev = picker_lines_spec(groups.drop_last(), compact);
        let sep = if !compact && groups.len() > 1 {
            seq![LineView::Separator]
        } else {
            seq![]
        };
        prev + sep + seq![LineView::Group(groups.last().0@)] + update_line_views(
            label_total(groups.drop_last()),
            groups.last().1@,
        )
    }
}

/// The window of a picker on a terminal of `height` lines.
pub open spec fn window_for(compact: bool, height: int) -> int {
    let header = if compact { 1int } else { 3int };
    if height - header >= 1 { height - header } else { 1 }
}

impl Picker {
    /// A picker over units with their updates' texts, every update selected,
    /// the cursor on the first, on a terminal of `term_height` lines.
    pub fn new(groups: Vec<(String, Vec<String>)>, compact: bool, term_height: usize) -> (r: Picker)
        requires
            label_total(groups@) >= 1,
            term_height >= (if compact { 3int } else { 5int }),
            picker_lines_spec(groups@, compact).len() + 3 <= usize::MAX,
        ensures
            r.lines_view() == picker_lines_spec(groups@, compact),
            r.selected_view() == Seq::new(label_total(groups@) as nat, |i: int| true),
            r.cursor_view() == 0,
            r.scroll_view() == 0,
            r.compact_view() == compact,
            r.header_view() == if compact { 1int } else { 3int },
            r.window_view() == window_for(compact, term_height as int),
            groups@.len() > 0 && groups@[0].1@.len() > 0 ==> r.cursor_shown(),
    {
        let mut lines: Vec<PickerLine> = Vec::new();
        let mut selected: Vec<bool> = Vec::new();
        let mut ul: Vec<usize> = Vec::new();
        let mut gl: Vec<usize> = Vec::new();
        let mut cursor_idx: usize = 0;
        let ghost gs = groups@;
        let mut g: usize = 0;
        while g < groups.len()
            invariant
                g <= gs.len(),
                gs == groups@,
                line_views(lines@) == picker_lines_spec(gs.take(g as int), compact),
                picker_lines_spec(gs, compact).len() + 3 <= usize::MAX,
                cursor_idx == label_total(gs.take(g as int)),
                cursor_idx <= lines@.len(),
                ul@.len() == cursor_idx && gl@.len() == cursor_idx && selected@.len() == cursor_idx,
                forall|c: int| 0 <= c < cursor_idx ==> #[trigger] selected@[c],
                forall|c: int|
                    #![trigger ul@[c]]
                    0 <= c < cursor_idx ==> gl@[c] < ul@[c] < lines@.len() && line_views(lines@)[ul@[c] as int]
                        is Update && line_views(lines@)[ul@[c] as int]->Update_0 == c && line_views(lines@)[gl@[c] as int]
                        is Group && (forall|x: int| gl@[c] < x < ul@[c] ==> !(#[trigger] line_views(lines@)[x] is Group)),
                forall|i: int|
                    #![trigger line_views(lines@)[i]]
                    0 <= i < lines@.len() && line_views(lines@)[i] is Update ==> 0 <= line_views(lines@)[i]->Update_0
                        < cursor_idx && ul@[line_views(lines@)[i]->Update_0] == i,
                g > 0 && gs[0].1@.len() > 0 ==> ul@.len() > 0 && ul@[0] == 1,
            decreases gs.len() - g,
        {
            proof {
                lemma_lines_prefix(gs, compact, g + 1);
                assert(gs.take(g + 1).drop_last() =~= gs.take(g as int));
                assert(gs.take(g + 1).last() == gs[g as int]);
            }
            let ghost pre = line_views(lines@);
            if !compact && g > 0 {
                lines.push(PickerLine::Separator);
            }
            let group_line = lines.len();
            lines.push(PickerLine::Group(groups[g].0.clone()));
            let labels = &groups[g].1;
            let ghost start_lines = line_views(lines@);
            proof {
                assert forall|i: int| 0 <= i < pre.len() implies #[trigger] start_lines[i] == pre[i] by {}
                assert forall|i: int| pre.len() <= i < start_lines.len() implies !(#[trigger] start_lines[i] is Update) by {}
                assert(start_lines =~= picker_lines_spec(gs.take(g + 1), compact).take(start_lines.len() as int));
            }
            let mut k: usize = 0;
            while k < labels.len()
                invariant
                    g < gs.len(),
                    gs == groups@,
                    *labels == gs[g as int].1,
                    k <= labels@.len(),
                    group_line < lines@.len(),
                    start_lines.len() == group_line + 1,
                    line_views(lines@) == start_lines + update_line_views(label_total(gs.take(g as int)), labels@.take(k as int)),
                    start_lines + update_line_views(label_total(gs.take(g as int)), labels@) == picker_lines_spec(gs.take(g + 1), compact),
                    picker_lines_spec(gs, compact).len() + 3 <= usize::MAX,
                    picker_lines_spec(gs.take(g + 1), compact).len() <= picker_lines_spec(gs, compact).len(),
                    start_lines[group_line as int] is Group,
                    cursor_idx == label_total(gs.take(g as int)) + k,
                    cursor_idx <= lines@.len(),
                    ul@.len() == cursor_idx && gl@.len() == cursor_idx && selected@.len() == cursor_idx,
                    forall|c: int| 0 <= c < cursor_idx ==> #[trigger] selected@[c],
                    forall|c: int|
                        #![trigger ul@[c]]
                        0 <= c < cursor_idx ==> gl@[c] < ul@[c] < lines@.len() && line_views(lines@)[ul@[c] as int]
                            is Update && line_views(lines@)[ul@[c] as int]->Update_0 == c && line_views(lines@)[gl@[c] as int]
                            is Group && (forall|x: int| gl@[c] < x < ul@[c] ==> !(#[trigger] line_views(lines@)[x] is Group)),
                    forall|i: int|
                        #![trigger line_views(lines@)[i]]
                        0 <= i < lines@.len() && line_views(lines@)[i] is Update ==> 0 <= line_views(lines@)[i]->Update_0
                            < cursor_idx && ul@[line_views(lines@)[i]->Update_0] == i,
                    g == 0 ==> group_line == 0 && cursor_idx == k,
                    (g > 0 && gs[0].1@.len() > 0) || (g == 0 && k > 0) ==> ul@.len() > 0 && ul@[0] == 1,
                decreases labels@.len() - k,
            {
                let ghost before = line_views(lines@);
                let line = lines.len();
                ul.push(line);
                gl.push(group_line);
                selected.push(true);
                lines.push(PickerLine::Update { cursor_idx, label: labels[k].clone() });
                proof {
                    assert(line_views(lines@) =~= before.push(LineView::Update(cursor_idx as int, labels@[k as int]@)));
                    assert(update_line_views(label_total(gs.take(g as int)), labels@.take(k + 1)) =~= update_line_views(
                        label_total(gs.take(g as int)),
                        labels@.take(k as int),
                    ).push(LineView::Update(cursor_idx as int, labels@[k as int]@)));
                    assert forall|x: int| group_line < x < line implies !(#[trigger] line_views(lines@)[x] is Group) by {
                        assert(line_views(lines@)[x] == before[x]);
                        assert(before[x] == update_line_views(label_total(gs.take(g as int)), labels@.take(k as int))[x - start_lines.len()]);
                    }
                    assert forall|c: int|
                        #![trigger ul@[c]]
                        0 <= c < cursor_idx + 1 implies gl@[c] < ul@[c] < lines@.len() && line_views(lines@)[ul@[c] as int]
                            is Update && line_views(lines@)[ul@[c] as int]->Update_0 == c && line_views(lines@)[gl@[c] as int]
                            is Group && (forall|x: int| gl@[c] < x < ul@[c] ==> !(#[trigger] line_views(lines@)[x] is Group)) by {
                        if c < cursor_idx {
                            assert forall|x: int| gl@[c] < x < ul@[c] implies !(#[trigger] line_views(lines@)[x] is Group) by {
                                assert(line_views(lines@)[x] == before[x]);
                            }
                        }
                    }
                }
                cursor_idx = cursor_idx + 1;
                k = k + 1;
            }
            proof {
                assert(labels@.take(labels@.len() as int) =~= labels@);
                assert(label_total(gs.take(g + 1)) == label_total(gs.take(g as int)) + labels@.len());
            }
            g = g + 1;
        }
        proof {
            assert(gs.take(gs.len() as int) =~= gs);
            assert(selected@ =~= Seq::new(label_total(gs) as nat, |i: int| true));
        }
        let header_lines: usize = if compact { 1 } else { 3 };
        let window_lines: usize = if term_height - header_lines >= 1 { term_height - header_lines } else { 1 };
        proof {
            if gs.len() > 0 && gs[0].1@.len() > 0 {
                assert(ul@.map_values(|x: usize| x as int)[0] == 1);
            }
        }
        Picker {
            lines,
            selected,
            update_line_for_cursor: ul,
            group_line_for_cursor: gl,
            cursor: 0,
            scroll_offset: 0,
            header_lines,
            window_lines,
            compact,
        }
    }
}

/// The lines for the first `k` units begin the lines for all of them.
proof fn lemma_lines_prefix(groups: Seq<(String, Vec<String>)>, compact: bool, k: int)
    requires
        0 <= k <= groups.len(),
    ensures
        picker_lines_spec(groups.take(k), compact).len() <= picker_lines_spec(groups, compact).len(),
    decreases groups.len() - k,
{
    if k < groups.len() {
        lemma_lines_prefix(groups, compact, k + 1);
        assert(groups.take(k + 1).drop_last() =~= groups.take(k));
    } else {
        assert(groups.take(k) =~= groups);
    }
}

/// A line of the picker's frame.
#[derive(Debug)]
pub enum FrameLine {
    Blank,
    /// `Choose which packages to update`
    Title,
    /// How to use the keys, with the position of the cursor among the
    /// updates where the picker scrolls.
    Help(Option<(usize, usize)>),
    /// A unit's name.
    Group(String),
    /// An update: whether it is under the cursor, whether it is selected,
    /// and its text.
    Item { current: bool, selected: bool, label: String },
}

/// A line of the frame, as plain values.
pub enum FrameView {
    Blank,
    Title,
    Help(Option<(int, int)>),
    Group(Seq<char>),
    Item(bool, bool, Seq<char>),
}

pub open spec fn frame_view(f: FrameLine) -> FrameView {
    match f {
        FrameLine::Blank => FrameView::Blank,
        FrameLine::Title => FrameView::Title,
        FrameLine::Help(p) => FrameView::Help(
            match p {
                Some(x) => Some((x.0 as int, x.1 as int)),
                None => None,
            },
        ),
        FrameLine::Group(name) => FrameView::Group(name@),
        FrameLine::Item { current, selected, label } => FrameView::Item(current, selected, label@),
    }
}

pub open spec fn frame_views(fs: Seq<FrameLine>) -> Seq<FrameView> {
    fs.map_values(|f: FrameLine| frame_view(f))
}

/// The rows that line `idx` takes: none for a separator when compact or for
/// the unit line that is pinned, one otherwise.
pub open spec fn line_rows(
    lines: Seq<LineView>,
    sel: Seq<bool>,
    cursor: int,
    pinned_line: Option<int>,
    compact: bool,
    idx: int,
) -> Seq<FrameView> {
    match lines[idx] {
        LineView::Separator => if compact {
            seq![]
        } else {
            seq![FrameView::Blank]
        },
        LineView::Group(name) => if pinned_line == Some(idx) {
            seq![]
        } else {
            seq![FrameView::Group(name)]
        },
        LineView::Update(c, label) => seq![FrameView::Item(c == cursor, sel[c], label)],
    }
}

/// The rows of the lines from `from` up to `to`.
pub open spec fn rows_between(
    lines: Seq<LineView>,
    sel: Seq<bool>,
    cursor: int,
    pinned_line: Option<int>,
    compact: bool,
    from: int,
    to: int,
) -> Seq<FrameView>
    decreases to - from,
{
    if to <= from {
        seq![]
    } else {
        rows_between(lines, sel, cursor, pinned_line, compact, from, to - 1) + line_rows(
            lines,
            sel,
            cursor,
            pinned_line,
            compact,
            to - 1,
        )
    }
}

pub open spec fn blanks(n: int) -> Seq<FrameView> {
    Seq::new(if n > 0 { n as nat } else { 0 }, |i: int| FrameView::Blank)
}

impl Picker {
    /// The first line of the window.
    pub open spec fn window_start(&self) -> int {
        if self.scrolls() {
            self.scroll_view()
        } else {
            0
        }
    }

    /// The number of rows below the header.
    pub open spec fn window_rows(&self) -> int {
        if self.scrolls() {
            self.window_view()
        } else {
            self.lines_view().len() as int
        }
    }

    /// The unit line pinned above the window, where there is one.
    pub open spec fn pinned_line(&self) -> Option<int> {
        if self.sticky_at(self.window_start()) {
            Some(self.cursor_group_line())
        } else {
            None
        }
    }

    /// The rows above the window's lines.
    pub open spec fn header_rows(&self) -> Seq<FrameView> {
        if self.compact_view() {
            seq![FrameView::Title]
        } else {
            seq![
                FrameView::Blank,
                FrameView::Title,
                FrameView::Help(if self.scrolls() { Some((self.cursor_view() + 1, self.count())) } else { None }),
            ]
        }
    }

    /// The rows of the window: the pinned unit, then the rows of the lines
    /// from the window's start, as many as the window holds, then blank rows
    /// up to its height.
    pub open spec fn window_rows_spec(&self) -> Seq<FrameView> {
        let start = self.window_start();
        let target = self.window_rows();
        let len = self.lines_view().len() as int;
        let end = if start + target < len {
            start + target
        } else {
            len
        };
        let pinned = match self.pinned_line() {
            Some(g) => seq![FrameView::Group(self.lines_view()[g]->Group_0)],
            None => seq![],
        };
        let all = pinned + rows_between(
            self.lines_view(),
            self.selected_view(),
            self.cursor_view(),
            self.pinned_line(),
            self.compact_view(),
            start,
            end,
        );
        let shown = if all.len() > target {
            all.take(target)
        } else {
            all
        };
        shown + blanks(target - shown.len())
    }

    /// The frame: the header rows, then the window's rows.
    pub open spec fn frame_spec(&self) -> Seq<FrameView> {
        self.header_rows() + self.window_rows_spec()
    }

    /// The rows of one line.
    fn rows_of_line(&self, idx: usize, pinned: Option<usize>) -> (r: Vec<FrameLine>)
        requires
            idx < self.lines_view().len(),
        ensures
            frame_views(r@) == line_rows(
                self.lines_view(),
                self.selected_view(),
                self.cursor_view(),
                match pinned {
                    Some(g) => Some(g as int),
                    None => None,
                },
                self.compact_view(),
                idx as int,
            ),
            r@.len() <= 1,
    {
        proof {
            use_type_invariant(self);
            assert(self.lines_view()[idx as int] == line_view(self.lines@[idx as int]));
        }
        let mut r: Vec<FrameLine> = Vec::new();
        match &self.lines[idx] {
            PickerLine::Separator => {
                if !self.compact {
                    r.push(FrameLine::Blank);
                }
            },
            PickerLine::Group(name) => {
                let is_pinned = match pinned {
                    Some(g) => g == idx,
                    None => false,
                };
                if !is_pinned {
                    r.push(FrameLine::Group(name.clone()));
                }
            },
            PickerLine::Update { cursor_idx, label } => {
                assert(0 <= *cursor_idx < self.count());
                r.push(FrameLine::Item {
                    current: *cursor_idx == self.cursor,
                    selected: self.selected[*cursor_idx],
                    label: label.clone(),
                });
            },
        }
        proof {
            assert(frame_views(r@) =~= line_rows(
                self.lines_view(),
                self.selected_view(),
                self.cursor_view(),
                match pinned {
                    Some(g) => Some(g as int),
                    None => None,
                },
                self.compact_view(),
                idx as int,
            ));
        }
        r
    }

    /// The frame that shows the picker.
    #[verifier::rlimit(40)]
    pub fn frame(&self) -> (r: Vec<FrameLine>)
        ensures
            frame_views(r@) == self.frame_spec(),
    {
        proof {
            use_type_invariant(self);
        }
        let mut frame: Vec<FrameLine> = Vec::new();
        let scrolls = self.needs_scroll();
        if !self.compact {
            frame.push(FrameLine::Blank);
        }
        frame.push(FrameLine::Title);
        if !self.compact {
            let position = if scrolls {
                Some((self.cursor + 1, self.update_line_for_cursor.len()))
            } else {
                None
            };
            frame.push(FrameLine::Help(position));
        }
        proof {
            assert(frame_views(frame@) =~= self.header_rows());
        }
        let ghost head = frame_views(frame@);
        let start: usize = if scrolls {
            self.scroll_offset
        } else {
            0
        };
        let target: usize = if scrolls {
            self.window_lines
        } else {
            self.lines.len()
        };
        let sticky = self.group_is_sticky(start);
        let pinned: Option<usize> = if sticky {
            Some(self.group_line_for_cursor[self.cursor])
        } else {
            None
        };
        let mut written: usize = 0;
        if sticky {
            let g = self.group_line_for_cursor[self.cursor];
            proof {
                assert(self.lines_view()[g as int] == line_view(self.lines@[g as int]));
                assert(self.update_lines()[self.cursor_view()] == self.cursor_line());
                assert(self.lines_view()[g as int] is Group);
            }
            match &self.lines[g] {
                PickerLine::Group(name) => {
                    frame.push(FrameLine::Group(name.clone()));
                    written = written + 1;
                    proof {
                        assert(frame_views(frame@) =~= head.push(FrameView::Group(name@)));
                        assert(frame_views(frame@).skip(head.len() as int) =~= seq![FrameView::Group(name@)]);
                    }
                },
                _ => {},
            }
        } else {
            proof {
                assert(frame_views(frame@).skip(head.len() as int) =~= Seq::<FrameView>::empty());
            }
        }
        let len = self.lines.len();
        let end: usize = if start < len && target < len - start {
            start + target
        } else {
            len
        };
        let ghost pinned_rows = frame_views(frame@).skip(head.len() as int);
        let ghost pv = match pinned {
            Some(g) => Some(g as int),
            None => None,
        };
        proof {
            assert(pv == self.pinned_line());
            assert(pinned_rows =~= match self.pinned_line() {
                Some(g) => seq![FrameView::Group(self.lines_view()[g]->Group_0)],
                None => seq![],
            });
        }
        let mut idx = start;
        while idx < end && written < target
            invariant
                start <= idx <= end <= len,
                len == self.lines_view().len(),
                pv == (match pinned {
                    Some(g) => Some(g as int),
                    None => None::<int>,
                }),
                head.len() <= frame@.len(),
                frame_views(frame@).take(head.len() as int) == head,
                written == frame@.len() - head.len(),
                written <= target,
                frame_views(frame@).skip(head.len() as int) == pinned_rows + rows_between(
                    self.lines_view(),
                    self.selected_view(),
                    self.cursor_view(),
                    pv,
                    self.compact_view(),
                    start as int,
                    idx as int,
                ),
            decreases end - idx,
        {
            let rows = self.rows_of_line(idx, pinned);
            let ghost before = frame_views(frame@);
            let mut k: usize = 0;
            while k < rows.len()
                invariant
                    k <= rows@.len() <= 1,
                    frame_views(frame@) == before + frame_views(rows@).take(k as int),
                decreases rows@.len() - k,
            {
                frame.push(rows[k].clone_line());
                proof {
                    assert(frame_views(frame@) =~= before + frame_views(rows@).take(k + 1));
                }
                k = k + 1;
            }
            written = written + rows.len();
            proof {
                assert(frame_views(rows@).take(rows@.len() as int) =~= frame_views(rows@));
                lemma_skip_concat(before, frame_views(rows@), head.len() as int);
                let rb = rows_between(self.lines_view(), self.selected_view(), self.cursor_view(), pv, self.compact_view(), start as int, idx as int);
                let lr = line_rows(self.lines_view(), self.selected_view(), self.cursor_view(), pv, self.compact_view(), idx as int);
                assert(frame_views(rows@) == lr);
                assert(frame_views(frame@) == before + lr);
                assert(before.skip(head.len() as int) == pinned_rows + rb);
                assert(rows_between(self.lines_view(), self.selected_view(), self.cursor_view(), pv, self.compact_view(), start as int, idx + 1) == rb + lr);
                assert(frame_views(frame@).skip(head.len() as int) == (pinned_rows + rb) + lr);
                assert(frame_views(frame@).take(head.len() as int) =~= head);
                assert(frame_views(frame@).skip(head.len() as int) =~= pinned_rows + rows_between(
                    self.lines_view(),
                    self.selected_view(),
                    self.cursor_view(),
                    pv,
                    self.compact_view(),
                    start as int,
                    idx + 1,
                ));
            }
            idx = idx + 1;
        }
        let ghost shown = frame_views(frame@).skip(head.len() as int);
        while written < target
            invariant
                written <= target,
                head.len() <= frame@.len(),
                written == frame@.len() - head.len(),
                frame_views(frame@).take(head.len() as int) == head,
                frame_views(frame@).skip(head.len() as int) == shown + blanks(written - shown.len()),
                shown.len() <= written,
            decreases target - written,
        {
            let ghost before = frame_views(frame@);
            frame.push(FrameLine::Blank);
            written = written + 1;
            proof {
                assert(frame_views(frame@) =~= before + seq![FrameView::Blank]);
                lemma_skip_concat(before, seq![FrameView::Blank], head.len() as int);
                assert(blanks(written - 1 - shown.len()) + seq![FrameView::Blank] =~= blanks(written - shown.len()));
                assert(frame_views(frame@).take(head.len() as int) =~= head);
                assert(frame_views(frame@).skip(head.len() as int) =~= shown + blanks(written - shown.len()));
            }
        }
        proof {
            lemma_rows_between_len(self.lines_view(), self.selected_view(), self.cursor_view(), pv, self.compact_view(), start as int, end as int);
            let all = pinned_rows + rows_between(
                self.lines_view(),
                self.selected_view(),
                self.cursor_view(),
                pv,
                self.compact_view(),
                start as int,
                end as int,
            );
            assert(frame_views(frame@) =~= head + frame_views(frame@).skip(head.len() as int));
            assert(shown == if all.len() > target { all.take(target as int) } else { all }) by {
                lemma_rows_between_prefix(self.lines_view(), self.selected_view(), self.cursor_view(), pv, self.compact_view(), start as int, idx as int, end as int);
            }
        }
        frame
    }
}

impl FrameLine {
    /// A copy of this line.
    pub fn clone_line(&self) -> (r: FrameLine)
        ensures
            frame_view(r) == frame_view(*self),
    {
        match self {
            FrameLine::Blank => FrameLine::Blank,
            FrameLine::Title => FrameLine::Title,
            FrameLine::Help(p) => FrameLine::Help(*p),
            FrameLine::Group(name) => FrameLine::Group(name.clone()),
            FrameLine::Item { current, selected, label } => FrameLine::Item {
                current: *current,
                selected: *selected,
                label: label.clone(),
            },
        }
    }
}

/// Dropping the beginning of a sequence and appending commute.
pub proof fn lemma_skip_concat(a: Seq<FrameView>, b: Seq<FrameView>, n: int)
    requires
        0 <= n <= a.len(),
    ensures
        (a + b).skip(n) == a.skip(n) + b,
        (a + b).take(n) == a.take(n),
{
    assert((a + b).skip(n) =~= a.skip(n) + b);
    assert((a + b).take(n) =~= a.take(n));
}

/// Each line takes at most one row.
pub proof fn lemma_rows_between_len(
    lines: Seq<LineView>,
    sel: Seq<bool>,
    cursor: int,
    pinned: Option<int>,
    compact: bool,
    from: int,
    to: int,
)
    ensures
        rows_between(lines, sel, cursor, pinned, compact, from, to).len() <= if to > from { to - from } else { 0 },
    decreases to - from,
{
    if to > from {
        lemma_rows_between_len(lines, sel, cursor, pinned, compact, from, to - 1);
    }
}

/// The rows up to `mid` begin the rows up to `to`.
pub proof fn lemma_rows_between_prefix(
    lines: Seq<LineView>,
    sel: Seq<bool>,
    cursor: int,
    pinned: Option<int>,
    compact: bool,
    from: int,
    mid: int,
    to: int,
)
    requires
        from <= mid <= to,
    ensures
        rows_between(lines, sel, cursor, pinned, compact, from, to).take(
            rows_between(lines, sel, cursor, pinned, compact, from, mid).len() as int,
        ) == rows_between(lines, sel, cursor, pinned, compact, from, mid),
        rows_between(lines, sel, cursor, pinned, compact, from, mid).len() <= rows_between(
            lines,
            sel,
            cursor,
            pinned,
            compact,
            from,
            to,
        ).len(),
    decreases to - mid,
{
    if mid < to {
        lemma_rows_between_prefix(lines, sel, cursor, pinned, compact, from, mid, to - 1);
        let a = rows_between(lines, sel, cursor, pinned, compact, from, to - 1);
        let b = rows_between(lines, sel, cursor, pinned, compact, from, mid);
        assert((a + line_rows(lines, sel, cursor, pinned, compact, to - 1)).take(b.len() as int) =~= a.take(b.len() as int));
    } else {
        let b = rows_between(lines, sel, cursor, pinned, compact, from, mid);
        assert(b.take(b.len() as int) =~= b);
    }
}

/// A key the terminal reported.
#[derive(Debug, Clone, Copy, PartialEq, Eq, Structural)]
pub enum KeyInput {
    ArrowUp,
    ArrowDown,
    Enter,
    Escape,
    Char(char),
    Other,
}

/// What the picker does after a key.
#[derive(Debug, Clone, Copy, PartialEq, Eq, Structural)]
pub enum PickerOutcome {
    /// Keep asking.
    Continue,
    /// Apply the selected updates.
    Confirm,
    /// Leave without applying anything.
    Quit,
}

/// What moving the cursor by `delta` updates does: the cursor moves round
/// the ends, the selection and the lines stay, and the window follows the
/// cursor.
pub open spec fn moved_by(before: Picker, after: Picker, delta: int) -> bool {
    &&& after.cursor_view() == (before.cursor_view() + delta) % before.count()
    &&& after.selected_view() == before.selected_view()
    &&& after.lines_view() == before.lines_view()
    &&& after.update_lines() == before.update_lines()
    &&& after.group_lines() == before.group_lines()
    &&& after.window_view() == before.window_view()
    &&& after.header_view() == before.header_view()
    &&& after.compact_view() == before.compact_view()
    &&& after.scroll_view() == adjusted_scroll(
        after.lines_view(),
        after.cursor_line(),
        after.cursor_group_line(),
        before.scroll_view(),
        after.window_view(),
    )
    &&& after.cursor_shown()
}

/// What toggling does: the update under the cursor flips, the cursor moves
/// on to the next update (round the end) where there are several, the lines
/// stay, and the window follows the cursor.
pub open spec fn toggled(before: Picker, after: Picker) -> bool {
    &&& after.selected_view() == before.selected_view().update(
        before.cursor_view(),
        !before.selected_view()[before.cursor_view()],
    )
    &&& after.cursor_view() == if before.count() > 1 {
        (before.cursor_view() + 1) % before.count()
    } else {
        before.cursor_view()
    }
    &&& after.lines_view() == before.lines_view()
    &&& after.update_lines() == before.update_lines()
    &&& after.group_lines() == before.group_lines()
    &&& after.window_view() == before.window_view()
    &&& after.header_view() == before.header_view()
    &&& after.compact_view() == before.compact_view()
    &&& after.scroll_view() == adjusted_scroll(
        after.lines_view(),
        after.cursor_line(),
        after.cursor_group_line(),
        before.scroll_view(),
        after.window_view(),
    )
    &&& after.cursor_shown()
}

impl Picker {
    /// What a key does: arrows or `k`/`j` move the cursor up or down, space
    /// flips the current update and moves on, enter confirms, escape or `q`
    /// quits; other keys do nothing.
    pub fn handle_key(&mut self, key: KeyInput) -> (r: PickerOutcome)
        ensures
            match key {
                KeyInput::ArrowUp | KeyInput::Char('k') => r == PickerOutcome::Continue && moved_by(*old(self), *final(self), -1),
                KeyInput::ArrowDown | KeyInput::Char('j') => r == PickerOutcome::Continue && moved_by(*old(self), *final(self), 1),
                KeyInput::Char(' ') => r == PickerOutcome::Continue && toggled(*old(self), *final(self)),
                KeyInput::Enter => r == PickerOutcome::Confirm && *final(self) == *old(self),
                KeyInput::Escape | KeyInput::Char('q') => r == PickerOutcome::Quit && *final(self) == *old(self),
                _ => r == PickerOutcome::Continue && *final(self) == *old(self),
            },
            final(self).lines_view() == old(self).lines_view(),
    {
        match key {
            KeyInput::ArrowUp | KeyInput::Char('k') => {
                self.move_cursor(-1);
                PickerOutcome::Continue
            },
            KeyInput::ArrowDown | KeyInput::Char('j') => {
                self.move_cursor(1);
                PickerOutcome::Continue
            },
            KeyInput::Char(' ') => {
                self.toggle_and_advance();
                PickerOutcome::Continue
            },
            KeyInput::Enter => PickerOutcome::Confirm,
            KeyInput::Escape | KeyInput::Char('q') => PickerOutcome::Quit,
            _ => PickerOutcome::Continue,
        }
    }
}

/// How the picker starts on a terminal.
#[derive(Debug)]
pub enum PromptStart {
    /// There is nothing to pick from.
    Empty,
    /// The terminal is too small; the message says why.
    TooSmall(String),
    /// Start, compact or not.
    Start(bool),
}

pub open spec fn height_message(min: int) -> Seq<char> {
    if min == 5 {
        "Terminal height too small (need at least 5 lines)"@
    } else {
        "Terminal height too small (need at least 7 lines)"@
    }
}

pub open spec fn width_message() -> Seq<char> {
    "Terminal width too small (need at least 20 columns)"@
}

/// Whether and how the picker starts: with no update there is nothing to
/// pick; a terminal of fewer than 15 lines makes it compact; it needs 5
/// lines compact, 7 otherwise, and 20 columns.
pub fn prompt_start(update_count: usize, compact: bool, height: usize, width: usize) -> (r: PromptStart)
    ensures
        update_count == 0 ==> r is Empty,
        update_count > 0 ==> {
            let c = compact || height < 15;
            let min = if c { 5int } else { 7int };
            if height < min {
                r matches PromptStart::TooSmall(m) && m@ == height_message(min)
            } else if width < 20 {
                r matches PromptStart::TooSmall(m) && m@ == width_message()
            } else {
                r == PromptStart::Start(c)
            }
        },
{
    if update_count == 0 {
        return PromptStart::Empty;
    }
    let c = compact || height < 15;
    let min_height: usize = if c { 5 } else { 7 };
    if height < min_height {
        let m = if c {
            "Terminal height too small (need at least 5 lines)".to_owned()
        } else {
            "Terminal height too small (need at least 7 lines)".to_owned()
        };
        return PromptStart::TooSmall(m);
    }
    if width < 20 {
        return PromptStart::TooSmall("Terminal width too small (need at least 20 columns)".to_owned());
    }
    PromptStart::Start(c)
}

/// The frame fills exactly the lines the picker takes on the terminal: the
/// header, then the window (or all lines where they fit).
pub proof fn law_frame_fills_picker(p: Picker)
    requires
        p.well_formed(),
    ensures
        p.frame_spec().len() == p.header_view() + p.window_rows(),
{
    let start = p.window_start();
    let target = p.window_rows();
    let len = p.lines_view().len() as int;
    let end = if start + target < len {
        start + target
    } else {
        len
    };
    let pinned = match p.pinned_line() {
        Some(g) => seq![FrameView::Group(p.lines_view()[g]->Group_0)],
        None => seq![],
    };
    let all = pinned + rows_between(p.lines_view(), p.selected_view(), p.cursor_view(), p.pinned_line(), p.compact_view(), start, end);
    let shown = if all.len() > target {
        all.take(target)
    } else {
        all
    };
    assert(shown.len() <= target);
}

/// The update under the cursor shows in the frame, marked as current, when
/// the window shows its line: as it does after every move and toggle.
pub proof fn law_current_update_shown(p: Picker)
    requires
        p.well_formed(),
        p.cursor_shown(),
    ensures
        exists|i: int|
            0 <= i < p.frame_spec().len() && #[trigger] p.frame_spec()[i] == FrameView::Item(
                true,
                p.selected_view()[p.cursor_view()],
                p.lines_view()[p.cursor_line()]->Update_1,
            ),
{
    let lines = p.lines_view();
    let sel = p.selected_view();
    let cur = p.cursor_view();
    let cl = p.cursor_line();
    assert(p.update_lines()[cur] == cl);
    let start = p.window_start();
    let target = p.window_rows();
    let len = lines.len() as int;
    let end = if start + target < len {
        start + target
    } else {
        len
    };
    let pv = p.pinned_line();
    let pinned = match pv {
        Some(g) => seq![FrameView::Group(lines[g]->Group_0)],
        None => seq![],
    };
    let item = FrameView::Item(true, sel[cur], lines[cl]->Update_1);
    assert(start <= cl < end);
    let before = rows_between(lines, sel, cur, pv, p.compact_view(), start, cl);
    lemma_rows_between_len(lines, sel, cur, pv, p.compact_view(), start, cl);
    let upto = rows_between(lines, sel, cur, pv, p.compact_view(), start, cl + 1);
    assert(line_rows(lines, sel, cur, pv, p.compact_view(), cl) == seq![item]);
    assert(upto == before + seq![item]);
    lemma_rows_between_prefix(lines, sel, cur, pv, p.compact_view(), start, cl + 1, end);
    let rows = rows_between(lines, sel, cur, pv, p.compact_view(), start, end);
    let at = before.len() as int;
    assert(rows[at] == upto[at]);
    let all = pinned + rows;
    let k = pinned.len() + at;
    assert(all[k] == item);
    assert(k < target);
    let shown = if all.len() > target {
        all.take(target)
    } else {
        all
    };
    assert(shown[k] == item);
    let frame = p.frame_spec();
    let i = p.header_rows().len() + k;
    assert(frame[i] == item);
}

/// Moving the cursor by `d` updates and back by `d` puts it back on the same
/// update.
pub proof fn law_move_round_trip(c: int, d: int, n: int)
    requires
        0 <= c < n,
    ensures
        ((c + d) % n + (0 - d)) % n == c,
{
    lemma_add_mod_noop(c + d, 0 - d, n);
    lemma_mod_bound(c + d, n);
    lemma_add_mod_noop_right(c + d, 0 - d, n);
    lemma_small_mod(c as nat, n as nat);
    assert((c + d) + (0 - d) == c);
    lemma_mod_twice_noop(c + d, 0 - d, n);
}

/// Taking the remainder of the first summand first changes nothing.
proof fn lemma_mod_twice_noop(x: int, y: int, n: int)
    requires
        n > 0,
    ensures
        ((x % n) + y) % n == (x + y) % n,
{
    lemma_add_mod_noop(x, y, n);
    lemma_add_mod_noop(x % n, y, n);
    lemma_mod_twice(x, n);
}

/// The mark of an update's box: filled or empty circles where the terminal
/// shows colors, `[x]` or `[ ]` where it does not.
pub open spec fn checkbox_text(selected: bool, colors: bool) -> Seq<char> {
    if colors {
        if selected {
            "\u{25c9}"@
        } else {
            "\u{25ef}"@
        }
    } else if selected {
        "[x]"@
    } else {
        "[ ]"@
    }
}

/// The mark of an update's box.
pub fn checkbox_symbol(selected: bool, colors: bool) -> (r: &'static str)
    ensures
        r@ == checkbox_text(selected, colors),
{
    if colors {
        if selected {
            "\u{25c9}"
        } else {
            "\u{25ef}"
        }
    } else if selected {
        "[x]"
    } else {
        "[ ]"
    }
}


/// The mark of an update's box as drawn: green where it is checked and the
/// terminal shows colors.
pub open spec fn checkbox_mark(mark: Seq<char>, selected: bool, colors: bool) -> bool {
    if selected && colors {
        styled(mark, checkbox_text(selected, colors), TermStyle::Green)
    } else {
        mark == checkbox_text(selected, colors)
    }
}

/// The style of the box under the cursor: cyan and bold where the terminal
/// shows colors, bold otherwise.
pub open spec fn current_box_style(colors: bool) -> TermStyle {
    if colors {
        TermStyle::CyanBold
    } else {
        TermStyle::Bold
    }
}

/// An update's box as drawn: its mark, in bold (and cyan where the terminal
/// shows colors) for the update under the cursor.
pub open spec fn checkbox_cell(out: Seq<char>, selected: bool, current: bool, colors: bool) -> bool {
    exists|mark: Seq<char>|
        #[trigger] checkbox_mark(mark, selected, colors) && if current {
            styled(out, mark, current_box_style(colors))
        } else {
            out == mark
        }
}

/// The text of an update's box.
pub fn format_checkbox(selected: bool, current: bool, colors: bool) -> (r: String)
    ensures
        checkbox_cell(r@, selected, current, colors),
{
    let sym = checkbox_symbol(selected, colors);
    let mark = if selected && colors {
        paint(TermStyle::Green, sym)
    } else {
        sym.to_owned()
    };
    proof {
        assert(checkbox_mark(mark@, selected, colors));
    }
    if current {
        let style = if colors {
            TermStyle::CyanBold
        } else {
            TermStyle::Bold
        };
        paint(style, mark.as_str())
    } else {
        mark
    }
}

/// `"Choose which packages to update"`
pub open spec fn title_text() -> Seq<char> {
    "Choose which packages to update"@
}

/// `"(↑↓ jk navigate, space toggle, enter confirm)"`
pub open spec fn keys_text() -> Seq<char> {
    "(\u{2191}\u{2193} jk navigate, space toggle, enter confirm)"@
}

/// The help line: two spaces, the cursor's position among the updates where
/// the picker scrolls, and how to use the keys.
pub open spec fn help_text(position: Option<(int, int)>) -> Seq<char> {
    match position {
        Some((p, c)) => seq![' ', ' '] + nat_text(p as nat) + seq![' ', '/', ' '] + nat_text(c as nat) + seq![' ', ' ']
            + keys_text(),
        None => seq![' ', ' '] + keys_text(),
    }
}

/// The parts of an update's row: the cursor mark (styled `>` or a space),
/// the box, and the text (dimmed where the update is not under the cursor).
pub open spec fn item_parts(
    current: bool,
    selected: bool,
    label: Seq<char>,
    colors: bool,
    prefix: Seq<char>,
    cell: Seq<char>,
    text: Seq<char>,
) -> bool {
    &&& checkbox_cell(cell, selected, current, colors)
    &&& if current {
        styled(prefix, seq!['>'], TermStyle::CyanBold) && text == label
    } else {
        prefix == seq![' '] && styled(text, label, TermStyle::Dim)
    }
}

/// The text of a row of the frame: a blank row is empty; the title (in
/// bold) and a unit's name (in blue and bold) are indented by two spaces;
/// the help line is dimmed; an update's row is its cursor mark, a space, its
/// box, a space and its text.
pub open spec fn row_text(out: Seq<char>, row: FrameView, colors: bool) -> bool {
    match row {
        FrameView::Blank => out.len() == 0,
        FrameView::Title => out.len() >= 2 && out.take(2) == seq![' ', ' '] && styled(out.skip(2), title_text(), TermStyle::Bold),
        FrameView::Help(position) => styled(out, help_text(position), TermStyle::Dim),
        FrameView::Group(name) => out.len() >= 2 && out.take(2) == seq![' ', ' '] && styled(out.skip(2), name, TermStyle::BlueBold),
        FrameView::Item(current, selected, label) => item_row(out, current, selected, label, colors),
    }
}

/// An update's row: its cursor mark, a space, its box, a space and its text.
pub open spec fn item_row(out: Seq<char>, current: bool, selected: bool, label: Seq<char>, colors: bool) -> bool {
    exists|prefix: Seq<char>, cell: Seq<char>, text: Seq<char>|
        #[trigger] item_parts(current, selected, label, colors, prefix, cell, text) && out == prefix + seq![' '] + cell
            + seq![' '] + text
}

/// Two spaces, then `text` styled.
fn indented(style: TermStyle, text: &str) -> (r: String)
    ensures
        r@.len() >= 2,
        r@.take(2) == seq![' ', ' '],
        styled(r@.skip(2), text@, style),
{
    let mut out: Vec<char> = vec![' ', ' '];
    let painted = chars_of(paint(style, text).as_str());
    extend_chars(&mut out, &painted);
    assert(out@.take(2) =~= seq![' ', ' ']);
    assert(out@.skip(2) =~= painted@);
    string_of(out.as_slice())
}

/// The help line's plain text.
fn help_line(position: Option<(usize, usize)>) -> (r: String)
    ensures
        r@ == help_text(
            match position {
                Some(x) => Some((x.0 as int, x.1 as int)),
                None => None,
            },
        ),
{
    let mut out: Vec<char> = vec![' ', ' '];
    match position {
        Some((p, c)) => {
            push_decimal(p as u64, &mut out);
            out.push(' ');
            out.push('/');
            out.push(' ');
            push_decimal(c as u64, &mut out);
            out.push(' ');
            out.push(' ');
        },
        None => {},
    }
    let keys = chars_of("(\u{2191}\u{2193} jk navigate, space toggle, enter confirm)");
    extend_chars(&mut out, &keys);
    proof {
        reveal_strlit("(\u{2191}\u{2193} jk navigate, space toggle, enter confirm)");
        match position {
            Some(x) => {
                assert(out@ =~= seq![' ', ' '] + nat_text(x.0 as nat) + seq![' ', '/', ' '] + nat_text(x.1 as nat) + seq![' ', ' '] + keys_text());
            },
            None => {
                assert(out@ =~= seq![' ', ' '] + keys_text());
            },
        }
    }
    string_of(out.as_slice())
}

/// The text of a row of the frame, styled for a terminal that shows colors
/// or not.
pub fn row_string(row: &FrameLine, colors: bool) -> (r: String)
    ensures
        row_text(r@, frame_view(*row), colors),
{
    match row {
        FrameLine::Blank => String::new(),
        FrameLine::Title => {
            let r = indented(TermStyle::Bold, "Choose which packages to update");
            proof {
                reveal_strlit("Choose which packages to update");
            }
            r
        },
        FrameLine::Help(position) => {
            let text = help_line(*position);
            paint(TermStyle::Dim, text.as_str())
        },
        FrameLine::Group(name) => indented(TermStyle::BlueBold, name.as_str()),
        FrameLine::Item { current, selected, label } => {
            let cell = chars_of(format_checkbox(*selected, *current, colors).as_str());
            let mut out: Vec<char>;
            let text: Vec<char>;
            if *current {
                out = chars_of(paint(TermStyle::CyanBold, ">").as_str());
                text = chars_of(label.as_str());
                proof {
                    reveal_strlit(">");
                    assert(">"@ =~= seq!['>']);
                }
            } else {
                out = vec![' '];
                text = chars_of(paint(TermStyle::Dim, label.as_str()).as_str());
                assert(out@ =~= seq![' ']);
            }
            let ghost prefix = out@;
            assert(item_parts(*current, *selected, label@, colors, prefix, cell@, text@));
            out.push(' ');
            extend_chars(&mut out, &cell);
            out.push(' ');
            extend_chars(&mut out, &text);
            assert(out@ =~= prefix + seq![' '] + cell@ + seq![' '] + text@);
            let r = string_of(out.as_slice());
            assert(item_row(r@, *current, *selected, label@, colors));
            r
        },
    }
}

} // verus!
