//! The undo tree view: the selection in it, what is drawn of it, and what the keys do.

use crate::line_laws::tells_of;
use crate::tree_lines::{
    build_tree_lines, is_history, lemma_listing_below, listing, shows, RevisionInfo, TreeLine,
};
use vstd::prelude::*;
use vstd::string::StrSliceExecFns;

verus! {

/// The undo tree of a document, with a selected line.
pub struct UndoTreeView {
    revisions: Vec<RevisionInfo>,
    lines: Vec<TreeLine>,
    selected: usize,
    scroll: usize,
}

/// The state of an undo tree view.
#[verifier::ext_equal]
pub struct UndoTreeState {
    pub revisions: Seq<RevisionInfo>,
    pub lines: Seq<TreeLine>,
    /// The selected line.
    pub selected: int,
    /// The line that is drawn at the top.
    pub scroll: int,
}

impl UndoTreeState {
    /// Each line shows a revision that exists, and selection and scroll position are on lines,
    /// unless there are none.
    pub open spec fn wf(self) -> bool {
        &&& forall|j: int|
            0 <= j < self.lines.len() ==> (#[trigger] self.lines[j]).revision_index
                < self.revisions.len()
        &&& if self.lines.len() == 0 {
            self.selected == 0 && self.scroll == 0
        } else {
            0 <= self.selected < self.lines.len() && 0 <= self.scroll < self.lines.len()
        }
    }
}

impl View for UndoTreeView {
    type V = UndoTreeState;

    closed spec fn view(&self) -> UndoTreeState {
        UndoTreeState {
            revisions: self.revisions@,
            lines: self.lines@,
            selected: self.selected as int,
            scroll: self.scroll as int,
        }
    }
}

/// Line `j` is the first that shows `revision`.
pub open spec fn first_line_of(lines: Seq<TreeLine>, revision: usize, j: int) -> bool {
    &&& 0 <= j < lines.len()
    &&& lines[j].revision_index == revision
    &&& forall|i: int| 0 <= i < j ==> (#[trigger] lines[i]).revision_index != revision
}

/// Some line shows `revision`.
pub open spec fn listed(lines: Seq<TreeLine>, revision: usize) -> bool {
    exists|j: int| 0 <= j < lines.len() && (#[trigger] lines[j]).revision_index == revision
}

/// A key, as far as the undo tree tells keys apart.
#[derive(Clone, Copy, PartialEq, Eq, Debug)]
pub enum KeyCode {
    Char(char),
    Up,
    Down,
    Enter,
    Esc,
    /// Any other key.
    Other,
}

/// A key press.
#[derive(Clone, Copy, PartialEq, Eq, Debug)]
pub struct KeyEvent {
    pub code: KeyCode,
}

/// What can happen to a component.
#[derive(Clone, Copy, PartialEq, Eq, Debug)]
pub enum Event {
    Key(KeyEvent),
    /// Anything but a key press.
    Other,
}

/// What the surroundings are to do after an event.
#[derive(Clone, Copy, PartialEq, Eq, Debug)]
pub enum Callback {
    /// Bring the current document to a revision, then remove the undo tree.
    JumpToRevision { revision: usize },
    /// Remove the undo tree.
    Close,
}

/// What a component made of an event.
#[derive(Clone, Copy, PartialEq, Eq, Debug)]
pub enum EventResult {
    Ignored(Option<Callback>),
    Consumed(Option<Callback>),
}

/// A rectangle of the screen.
#[derive(Clone, Copy, PartialEq, Eq, Debug)]
pub struct Rect {
    pub x: u16,
    pub y: u16,
    pub width: u16,
    pub height: u16,
}

/// How a line is drawn.
#[derive(Clone, Copy, PartialEq, Eq, Debug)]
pub enum LineStyle {
    /// The line of the current revision.
    Cursor,
    /// The selected line, of a revision that is not the current one.
    Selection,
    /// Any other line.
    Text,
}

/// A line as it is drawn: `text` at (`x`, `y`), in at most `width` columns.
pub struct Row {
    pub x: u16,
    pub y: u16,
    pub width: u16,
    pub text: String,
    pub style: LineStyle,
}

/// The selected line after a key press.
pub open spec fn selection_after(s: UndoTreeState, code: KeyCode) -> int {
    match code {
        KeyCode::Char('j') | KeyCode::Down => if s.selected + 1 < s.lines.len() {
            s.selected + 1
        } else {
            s.selected
        },
        KeyCode::Char('k') | KeyCode::Up => if s.selected > 0 {
            s.selected - 1
        } else {
            0
        },
        KeyCode::Char('g') => 0,
        KeyCode::Char('G') => if s.lines.len() > 0 {
            s.lines.len() - 1
        } else {
            s.selected
        },
        _ => s.selected,
    }
}

/// What the undo tree makes of a key press.
pub open spec fn reaction_to(s: UndoTreeState, code: KeyCode) -> EventResult {
    match code {
        KeyCode::Char('j') | KeyCode::Down | KeyCode::Char('k') | KeyCode::Up | KeyCode::Char('g')
        | KeyCode::Char('G') => EventResult::Consumed(None),
        KeyCode::Enter => EventResult::Consumed(
            Some(Callback::JumpToRevision { revision: s.lines[s.selected].revision_index }),
        ),
        KeyCode::Esc | KeyCode::Char('q') => EventResult::Consumed(Some(Callback::Close)),
        _ => EventResult::Ignored(None),
    }
}

/// Whether anything is drawn in an area of this height.
pub open spec fn draws(s: UndoTreeState, height: int) -> bool {
    s.lines.len() > 0 && height > 0
}

/// The scroll position that is closest to the present one and has the selected line among `height`
/// drawn lines.
pub open spec fn scroll_to_selection(s: UndoTreeState, height: int) -> int {
    if s.selected < s.scroll {
        s.selected
    } else if s.selected >= s.scroll + height {
        s.selected - height + 1
    } else {
        s.scroll
    }
}

/// The state after drawing in an area of this height.
pub open spec fn after_render(s: UndoTreeState, height: int) -> UndoTreeState {
    if draws(s, height) {
        UndoTreeState { scroll: scroll_to_selection(s, height), ..s }
    } else {
        s
    }
}

/// How many lines are drawn in an area of this height.
pub open spec fn rows_drawn(s: UndoTreeState, height: int) -> int {
    if !draws(s, height) {
        0
    } else if height < s.lines.len() - scroll_to_selection(s, height) {
        height
    } else {
        s.lines.len() - scroll_to_selection(s, height)
    }
}

/// How line `j` is drawn.
pub open spec fn style_of(s: UndoTreeState, j: int) -> LineStyle {
    if s.revisions[s.lines[j].revision_index as int].is_current {
        LineStyle::Cursor
    } else if j == s.selected {
        LineStyle::Selection
    } else {
        LineStyle::Text
    }
}

/// `row` is how line `j` of `s` is drawn in `inner`: as far below the top of the area as the line
/// is below the top line, and with no more characters than the area is wide.
pub open spec fn draws_line(row: Row, s: UndoTreeState, inner: Rect, j: int) -> bool {
    &&& row.x == inner.x
    &&& row.y == inner.y + (j - s.scroll)
    &&& row.width == inner.width
    &&& row.text@ == if s.lines[j].text@.len() <= inner.width {
        s.lines[j].text@
    } else {
        s.lines[j].text@.take(inner.width as int)
    }
    &&& row.style == style_of(s, j)
}

impl LineStyle {
    /// The name of the style in a theme.
    pub fn theme_key(self) -> (key: &'static str)
        ensures
            key@ == match self {
                LineStyle::Cursor => "ui.cursor.primary"@,
                LineStyle::Selection => "ui.selection"@,
                LineStyle::Text => "ui.text"@,
            },
    {
        match self {
            LineStyle::Cursor => "ui.cursor.primary",
            LineStyle::Selection => "ui.selection",
            LineStyle::Text => "ui.text",
        }
    }
}

/// The first `width` characters of a text.
fn truncate_to(text: &str, width: usize) -> (truncated: String)
    ensures
        truncated@ == if text@.len() <= width {
            text@
        } else {
            text@.take(width as int)
        },
{
    if text.unicode_len() <= width {
        text.to_owned()
    } else {
        text.substring_char(0, width).to_owned()
    }
}

impl UndoTreeView {
    /// The undo tree of a history at the time `now`, with the line of `current_rev` selected, or
    /// the first line if `current_rev` is not listed.
    pub fn new(revisions: Vec<RevisionInfo>, current_rev: usize, now: u64) -> (res: Self)
        requires
            revisions@.len() == 0 || is_history(revisions@, 0),
        ensures
            res@.wf(),
            res@.revisions == revisions@,
            res@.lines.len() == listing(revisions@).len(),
            forall|j: int|
                0 <= j < res@.lines.len() ==> shows(
                    #[trigger] res@.lines[j],
                    revisions@,
                    listing(revisions@)[j],
                    now,
                ),
            forall|j: int|
                0 <= j < res@.lines.len() ==> tells_of(
                    #[trigger] res@.lines[j],
                    revisions@,
                    listing(revisions@)[j].1,
                    now,
                ),
            if listed(res@.lines, current_rev) {
                first_line_of(res@.lines, current_rev, res@.selected)
            } else {
                res@.selected == 0
            },
            forall|j: int|
                0 <= j < res@.lines.len() && (#[trigger] res@.lines[j]).revision_index
                    == current_rev ==> res@.selected <= j && res@.lines[res@.selected].revision_index
                    == current_rev,
            res@.scroll == 0,
    {
        let lines = build_tree_lines(revisions.as_slice(), now);
        let mut selected: usize = 0;
        let mut i: usize = 0;
        while i < lines.len()
            invariant_except_break
                i <= lines@.len(),
                selected == 0,
                forall|k: int| 0 <= k < i ==> (#[trigger] lines@[k]).revision_index != current_rev,
            ensures
                if listed(lines@, current_rev) {
                    first_line_of(lines@, current_rev, selected as int)
                } else {
                    selected == 0
                },
            decreases lines@.len() - i,
        {
            if lines[i].revision_index == current_rev {
                selected = i;
                break ;
            }
            i += 1;
        }
        proof {
            lemma_listing_below(revisions@);
            assert forall|j: int| 0 <= j < lines@.len() implies (
            #[trigger] lines@[j]).revision_index < revisions@.len() by {
                assert(shows(lines@[j], revisions@, listing(revisions@)[j], now));
            }
        }
        UndoTreeView { revisions, lines, selected, scroll: 0 }
    }

    /// Whether there are no lines.
    pub fn is_empty(&self) -> (res: bool)
        ensures
            res == (self@.lines.len() == 0),
    {
        self.lines.len() == 0
    }

    /// Moves the selection, or says what is to be done, as a key asks for it.
    pub fn handle_event(&mut self, event: &Event) -> (result: EventResult)
        requires
            old(self)@.wf(),
            event matches Event::Key(key) && key.code is Enter ==> old(self)@.lines.len() > 0,
        ensures
            final(self)@.wf(),
            match *event {
                Event::Key(key) => {
                    &&& final(self)@ == (UndoTreeState {
                        selected: selection_after(old(self)@, key.code),
                        ..old(self)@
                    })
                    &&& result == reaction_to(old(self)@, key.code)
                },
                Event::Other => final(self)@ == old(self)@ && result == EventResult::Ignored(None),
            },
    {
        let key_event = match event {
            Event::Key(ev) => ev,
            Event::Other => {
                return EventResult::Ignored(None);
            },
        };
        match key_event.code {
            KeyCode::Char('j') | KeyCode::Down => {
                if self.lines.len() > 0 && self.selected < self.lines.len() - 1 {
                    self.selected = self.selected + 1;
                }
                EventResult::Consumed(None)
            },
            KeyCode::Char('k') | KeyCode::Up => {
                self.selected = self.selected.saturating_sub(1);
                EventResult::Consumed(None)
            },
            KeyCode::Char('g') => {
                self.selected = 0;
                EventResult::Consumed(None)
            },
            KeyCode::Char('G') => {
                if self.lines.len() > 0 {
                    self.selected = self.lines.len() - 1;
                }
                EventResult::Consumed(None)
            },
            KeyCode::Enter => {
                let revision: usize = self.lines[self.selected].revision_index;
                EventResult::Consumed(Some(Callback::JumpToRevision { revision }))
            },
            KeyCode::Esc | KeyCode::Char('q') => EventResult::Consumed(Some(Callback::Close)),
            _ => EventResult::Ignored(None),
        }
    }

    /// Whether all lines that are drawn in the area `inner` lie on the screen.
    pub fn fits(&self, inner: Rect) -> (res: bool)
        requires
            self@.wf(),
        ensures
            res == (inner.y + rows_drawn(self@, inner.height as int) <= u16::MAX + 1),
    {
        if self.lines.len() == 0 || inner.height == 0 {
            return true;
        }
        let height: usize = inner.height as usize;
        let top: usize = if self.selected < self.scroll {
            self.selected
        } else if self.selected - self.scroll >= height {
            self.selected - height + 1
        } else {
            self.scroll
        };
        let remaining: usize = self.lines.len() - top;
        let below: u32 = u16::MAX as u32 + 1 - inner.y as u32;
        height <= below as usize || remaining <= below as usize
    }

    /// Scrolls so that the selected line can be seen in the area `inner`, and says what is drawn
    /// there.
    pub fn render(&mut self, inner: Rect) -> (rows: Vec<Row>)
        requires
            old(self)@.wf(),
            inner.y + rows_drawn(old(self)@, inner.height as int) <= u16::MAX + 1,
        ensures
            final(self)@.wf(),
            final(self)@ == after_render(old(self)@, inner.height as int),
            rows@.len() == rows_drawn(old(self)@, inner.height as int),
            forall|i: int|
                0 <= i < rows@.len() ==> draws_line(
                    #[trigger] rows@[i],
                    final(self)@,
                    inner,
                    final(self)@.scroll + i,
                ),
    {
        let mut rows: Vec<Row> = Vec::new();
        if self.lines.len() == 0 || inner.height == 0 {
            return rows;
        }
        let height: usize = inner.height as usize;
        if self.selected < self.scroll {
            self.scroll = self.selected;
        }
        if self.selected - self.scroll >= height {
            self.scroll = self.selected - height + 1;
        }
        let remaining: usize = self.lines.len() - self.scroll;
        let count: usize = if height < remaining {
            height
        } else {
            remaining
        };
        let mut i: usize = 0;
        while i < count
            invariant
                i <= count,
                count == rows_drawn(old(self)@, inner.height as int),
                self@ == after_render(old(self)@, inner.height as int),
                self@.wf(),
                self.scroll + count <= self.lines.len(),
                count <= inner.height,
                inner.y + count <= u16::MAX + 1,
                rows@.len() == i,
                forall|k: int|
                    0 <= k < i ==> draws_line(#[trigger] rows@[k], self@, inner, self@.scroll + k),
            decreases count - i,
        {
            let line = &self.lines[self.scroll + i];
            assert(*line == self@.lines[self.scroll + i]);
            let is_current = self.revisions[line.revision_index].is_current;
            let is_selected = self.scroll + i == self.selected;
            let style = if is_current {
                LineStyle::Cursor
            } else if is_selected {
                LineStyle::Selection
            } else {
                LineStyle::Text
            };
            let text = truncate_to(line.text.as_str(), inner.width as usize);
            rows.push(
                Row { x: inner.x, y: inner.y + i as u16, width: inner.width, text, style },
            );
            i += 1;
        }
        rows
    }

    /// The undo tree takes all the room there is.
    pub fn required_size(&self, viewport: (u16, u16)) -> (size: Option<(u16, u16)>)
        ensures
            size == Some(viewport),
    {
        Some(viewport)
    }

    /// The name under which the undo tree is found and removed.
    pub fn id(&self) -> (id: Option<&'static str>)
        ensures
            id matches Some(name) && name@ == "undotree"@,
    {
        Some("undotree")
    }
}

} // verus!
