//! What the keys do in the undo tree, and what is drawn of it.

use crate::tree_lines::TreeLine;
use crate::undotree::{
    after_render, draws_line, first_line_of, listed, reaction_to, rows_drawn, selection_after,
    style_of, Callback, EventResult, KeyCode, LineStyle, Rect, Row, UndoTreeState,
};
use vstd::prelude::*;

verus! {

/// `j` and `Down` go to the next line, if there is one.
pub proof fn law_next_line(s: UndoTreeState, code: KeyCode)
    requires
        s.wf(),
        code == KeyCode::Char('j') || code == KeyCode::Down,
    ensures
        s.selected < s.lines.len() - 1 ==> selection_after(s, code) - s.selected == 1,
        s.selected >= s.lines.len() - 1 ==> selection_after(s, code) == s.selected,
{
}

/// `k` and `Up` go to the line before, if there is one.
pub proof fn law_line_before(s: UndoTreeState, code: KeyCode)
    requires
        s.wf(),
        code == KeyCode::Char('k') || code == KeyCode::Up,
    ensures
        s.selected > 0 ==> s.selected - selection_after(s, code) == 1,
        s.selected == 0 ==> selection_after(s, code) == 0,
{
}

/// `g` goes to the line that no line is above, and `G` to the one that no line is below.
pub proof fn law_first_and_last_line(s: UndoTreeState, j: int)
    requires
        s.wf(),
        0 <= j < s.lines.len(),
    ensures
        0 <= selection_after(s, KeyCode::Char('g')) <= j,
        j <= selection_after(s, KeyCode::Char('G')) < s.lines.len(),
{
}

/// Any other key leaves the selection alone, and so does every key where there are no lines.
pub proof fn law_other_keys_move_nothing(s: UndoTreeState, code: KeyCode)
    requires
        s.wf(),
    ensures
        selection_after(s, code) != s.selected ==> s.lines.len() > 0 && (code == KeyCode::Down
            || code == KeyCode::Up || code == KeyCode::Char('j') || code == KeyCode::Char('k')
            || code == KeyCode::Char('g') || code == KeyCode::Char('G')),
{
}

/// `Enter` asks for the revision that the selected line shows. `Esc` and `q` close the undo tree. The
/// keys that move the selection ask for nothing, and all others are left to the surroundings.
pub proof fn law_what_keys_ask_for(s: UndoTreeState, code: KeyCode)
    ensures
        code == KeyCode::Enter <==> (reaction_to(s, code) matches EventResult::Consumed(
            Some(Callback::JumpToRevision { revision }),
        ) && revision == s.lines[s.selected].revision_index),
        code == KeyCode::Esc || code == KeyCode::Char('q') <==> reaction_to(s, code)
            == EventResult::Consumed(Some(Callback::Close)),
        code == KeyCode::Down || code == KeyCode::Up || code == KeyCode::Char('j') || code
            == KeyCode::Char('k') || code == KeyCode::Char('g') || code == KeyCode::Char('G')
            <==> reaction_to(s, code) == EventResult::Consumed(None),
        reaction_to(s, code) is Ignored ==> reaction_to(s, code) == EventResult::Ignored(None),
        reaction_to(s, code) matches EventResult::Consumed(Some(callback)) ==> code
            == KeyCode::Enter || code == KeyCode::Esc || code == KeyCode::Char('q'),
{
}

/// The undo tree opens on the topmost line of a revision that is listed.
pub proof fn law_topmost_line_of_revision(lines: Seq<TreeLine>, revision: usize, at: int, j: int)
    requires
        0 <= j < lines.len(),
    ensures
        listed(lines, lines[j].revision_index),
        first_line_of(lines, revision, at) ==> 0 <= at < lines.len() && lines[at].revision_index
            == revision && (lines[j].revision_index == revision ==> at <= j),
        !listed(lines, revision) ==> lines[j].revision_index != revision,
{
}

/// The distance between two lines.
pub open spec fn distance(a: int, b: int) -> int {
    if a <= b {
        b - a
    } else {
        a - b
    }
}

/// Drawing changes the scroll position alone, and moves it no further than is needed for the selected
/// line to be seen: no position `other` from which that line can be seen is closer.
pub proof fn law_scrolls_as_little_as_needed(s: UndoTreeState, height: int, other: int)
    requires
        s.wf(),
        s.lines.len() > 0,
        height > 0,
        other <= s.selected < other + height,
    ensures
        ({
            let drawn = after_render(s, height);
            &&& drawn.scroll <= s.selected < drawn.scroll + height
            &&& distance(s.scroll, drawn.scroll) <= distance(s.scroll, other)
            &&& drawn == UndoTreeState { scroll: drawn.scroll, ..s }
        }),
{
}

/// Where there is room, lines are drawn until the area is full or the last line is drawn.
pub proof fn law_draws_all_that_fits(s: UndoTreeState, height: int)
    requires
        s.wf(),
        s.lines.len() > 0,
        height > 0,
    ensures
        ({
            let end = after_render(s, height).scroll + rows_drawn(s, height);
            &&& 0 < rows_drawn(s, height) <= height
            &&& end <= s.lines.len()
            &&& rows_drawn(s, height) < height ==> end == s.lines.len()
        }),
{
}

/// Where there are no lines or no room, nothing is drawn and nothing changes.
pub proof fn law_draws_nothing_without_room(s: UndoTreeState, height: int)
    requires
        s.wf(),
        s.lines.len() == 0 || height == 0,
    ensures
        rows_drawn(s, height) == 0,
        after_render(s, height) == s,
{
}

/// The line of the current revision is drawn as the cursor, whether it is selected or not. Of the
/// others, the selected line is drawn as the selection, and no other line is.
pub proof fn law_styles_tell_lines_apart(s: UndoTreeState, j: int)
    requires
        s.wf(),
        0 <= j < s.lines.len(),
    ensures
        style_of(s, j) == LineStyle::Cursor <==> s.revisions[
            s.lines[j].revision_index as int
        ].is_current,
        style_of(s, j) == LineStyle::Selection <==> j == s.selected && !s.revisions[
            s.lines[j].revision_index as int
        ].is_current,
{
}

/// A line is drawn at the left of the area, as far below its top as the line is below the line at the
/// top, with its beginning: all of the line if the area is wide enough, and else as many characters as
/// the area is wide.
pub proof fn law_row_shows_beginning_of_line(row: Row, s: UndoTreeState, inner: Rect, j: int)
    requires
        draws_line(row, s, inner, j),
    ensures
        row.x == inner.x,
        row.y - inner.y == j - s.scroll,
        row.width == inner.width,
        row.text@.is_prefix_of(s.lines[j].text@),
        row.text@.len() <= inner.width,
        row.text@.len() < s.lines[j].text@.len() ==> row.text@.len() == inner.width,
        row.style == LineStyle::Cursor <==> s.revisions[
            s.lines[j].revision_index as int
        ].is_current,
        row.style == LineStyle::Selection <==> j == s.selected && !s.revisions[
            s.lines[j].revision_index as int
        ].is_current,
{
}

} // verus!
