//! What is saved of the files of an editor, and what is restored of it.

use crate::editor::{ascending, lemma_is_ascending, Content, Document, DocumentId, Editor, ViewId};
use crate::file_state::{
    can_save, can_save_all, documents_to_save, has_current, has_file, in_text, is_unshown_file,
    law_documents_to_save, place_to_load, remembered_view, remembers, remembers_first, restored,
    views_to_save, FileState, FileStateUpdate, LoadedState, StoredState,
};
use crate::saving::{
    law_saving_follows_plan, save_plan, save_tasks, states_to_save, SaveSurroundings, SaveTask,
};
use crate::storage::file_state_place;
use vstd::prelude::*;

verus! {

/// `state` keeps the file and the history of `doc`, and where the selection and the scroll position for
/// the view `id` are.
pub open spec fn keeps_positions(state: FileState, doc: Document, id: ViewId) -> bool {
    &&& doc.path == Some(state.path)
    &&& state.history == Some(doc.history)
    &&& state.anchor == doc.selections@[id].anchor
    &&& state.head == doc.selections@[id].head
    &&& state.scroll_anchor == doc.view_offsets@[id].anchor
    &&& state.scroll_h_offset == doc.view_offsets@[id].horizontal_offset
    &&& state.scroll_v_offset == doc.view_offsets@[id].vertical_offset
}

/// The node `id` is a view on an open document that has a file.
pub open spec fn shows_file(editor: Editor, id: ViewId) -> bool {
    &&& editor.tree.nodes@.contains_key(id)
    &&& editor.tree.nodes@[id].content matches Content::View(view)
    &&& editor.documents@.contains_key(view.doc)
    &&& editor.documents@[view.doc].path is Some
}

/// `stored` keeps the positions of the view `id` on a file, at the place for that file.
pub open spec fn keeps_shown(editor: Editor, id: ViewId, stored: StoredState) -> bool {
    &&& editor.tree.nodes@[id].content matches Content::View(view)
    &&& keeps_positions(stored.state, editor.documents@[view.doc], view.id)
    &&& stored.place == file_state_place(stored.state.path@)
}

/// After the states of the documents that no view shows, there is one state for each listed view on a
/// file, in the order in which the views are listed.
pub proof fn law_view_states_one_for_one(editor: Editor, k: int)
    requires
        can_save_all(editor),
    ensures
        ({
            let shown = editor.tree.views@.filter(|id: ViewId| shows_file(editor, id));
            let first = documents_to_save(editor).len();
            &&& states_to_save(editor).len() == first + shown.len()
            &&& 0 <= k < shown.len() ==> keeps_shown(
                editor,
                shown[k],
                states_to_save(editor)[first + k],
            )
        }),
{
    let ids = editor.tree.views@;
    let p = |id: ViewId| shows_file(editor, id);
    lemma_filters_agree(ids, has_file(editor), p, editor);
    if 0 <= k < ids.filter(p).len() {
        ids.lemma_filter_pred(p, k);
    }
}

proof fn lemma_filters_agree(
    ids: Seq<ViewId>,
    a: spec_fn(ViewId) -> bool,
    b: spec_fn(ViewId) -> bool,
    editor: Editor,
)
    requires
        a == has_file(editor),
        b == (|id: ViewId| shows_file(editor, id)),
        forall|k: int| 0 <= k < ids.len() ==> editor.tree.is_view(#[trigger] ids[k]),
    ensures
        ids.filter(a) == ids.filter(b),
    decreases ids.len(),
{
    reveal(Seq::filter);
    if ids.len() > 0 {
        let front = ids.drop_last();
        assert forall|k: int| 0 <= k < front.len() implies editor.tree.is_view(
            #[trigger] front[k],
        ) by {
            assert(front[k] == ids[k]);
        }
        lemma_filters_agree(front, a, b, editor);
        assert(editor.tree.is_view(ids[ids.len() - 1]));
    }
}

/// Wherever the focus is, what is saved keeps the selection and the scroll position of every listed view
/// on a file.
pub proof fn law_every_view_is_saved(editor: Editor, i: int)
    requires
        can_save_all(editor),
        0 <= i < editor.tree.views@.len(),
        shows_file(editor, editor.tree.views@[i]),
    ensures
        exists|a: int|
            0 <= a < states_to_save(editor).len() && keeps_shown(
                editor,
                editor.tree.views@[i],
                #[trigger] states_to_save(editor)[a],
            ),
{
    let ids = editor.tree.views@;
    let p = |id: ViewId| shows_file(editor, id);
    ids.lemma_filter_contains(p, i);
    let k = choose|k: int| 0 <= k < ids.filter(p).len() && ids.filter(p)[k] == ids[i];
    law_view_states_one_for_one(editor, k);
    let a = documents_to_save(editor).len() + k;
    assert(keeps_shown(editor, ids[i], states_to_save(editor)[a]));
}

/// If the directory can be created, a state that keeps the selection and the scroll position is written
/// for every listed view on a file.
pub proof fn law_every_view_is_written(around: SaveSurroundings, i: int)
    requires
        around.directory,
        can_save_all(around.editor),
        0 <= i < around.editor.tree.views@.len(),
        shows_file(around.editor, around.editor.tree.views@[i]),
    ensures
        exists|t: int|
            #![trigger save_tasks(around)[t]]
            0 <= t < save_tasks(around).len() && (save_tasks(around)[t] matches SaveTask::Write {
                stored,
            } && keeps_shown(around.editor, around.editor.tree.views@[i], stored)),
{
    let editor = around.editor;
    law_every_view_is_saved(editor, i);
    law_saving_follows_plan(around);
    let a = choose|a: int|
        0 <= a < states_to_save(editor).len() && keeps_shown(
            editor,
            editor.tree.views@[i],
            #[trigger] states_to_save(editor)[a],
        );
    let t = 3 + around.views.len() + a;
    assert(save_plan(around)[t] == SaveTask::Write { stored: states_to_save(editor)[a] });
    assert(save_tasks(around)[t] == save_plan(around)[t]);
}

/// `state` keeps the file and the history of `doc`, and no positions.
pub open spec fn keeps_beginning(state: FileState, doc: Document) -> bool {
    &&& doc.path == Some(state.path)
    &&& state.history == Some(doc.history)
    &&& state.anchor == 0 && state.head == 0
    &&& state.scroll_anchor == 0 && state.scroll_h_offset == 0 && state.scroll_v_offset == 0
}

/// `doc` holds a selection and a scroll position for the view `id`.
pub open spec fn holds_both(doc: Document, id: ViewId) -> bool {
    doc.selections@.dom().contains(id) && doc.view_offsets@.dom().contains(id)
}

/// `stored` keeps the document `d`, at the place for its file: with the positions for the lowest of the
/// views that the document holds both a selection and a scroll position for, or with no positions if
/// there is no such view.
pub open spec fn keeps_unshown(editor: Editor, d: DocumentId, stored: StoredState) -> bool {
    let doc = editor.documents@[d];
    &&& stored.place == file_state_place(stored.state.path@)
    &&& forall|id: ViewId|
        (#[trigger] holds_both(doc, id) && forall|other: ViewId| #[trigger]
            holds_both(doc, other) ==> id <= other) ==> keeps_positions(stored.state, doc, id)
    &&& (forall|id: ViewId| !#[trigger] holds_both(doc, id)) ==> keeps_beginning(stored.state, doc)
    &&& doc.path == Some(stored.state.path)
    &&& stored.state.history == Some(doc.history)
}

/// The states that come first are those of the open documents that have a file and that no listed view
/// shows, all of them, once each, in the order of their keys.
pub proof fn law_unshown_states_one_for_one(editor: Editor, d: DocumentId, k: int)
    ensures
        ({
            let unshown = documents_to_save(editor);
            &&& unshown.contains(d) <==> {
                &&& editor.documents@.contains_key(d)
                &&& editor.documents@[d].path is Some
                &&& forall|i: int|
                    0 <= i < editor.tree.views@.len() ==> editor.tree.view_at(
                        #[trigger] editor.tree.views@[i],
                    ).doc != d
            }
            &&& 0 < k < unshown.len() ==> unshown[k - 1] < unshown[k]
            &&& 0 <= k < unshown.len() ==> keeps_unshown(
                editor,
                unshown[k],
                states_to_save(editor)[k],
            )
        }),
{
    let unshown = documents_to_save(editor);
    law_documents_to_save(editor, d);
    let keys = ascending(editor.documents@.dom());
    lemma_is_ascending(editor.documents@.dom());
    lemma_filter_ascends(keys, is_unshown_file(editor));
    if 0 <= k < unshown.len() {
        let doc = editor.documents@[unshown[k]];
        assert(unshown.contains(unshown[k]));
        law_documents_to_save(editor, unshown[k]);
        assert forall|id: ViewId| #[trigger] holds_both(doc, id) implies remembers(doc, id) by {}
        assert forall|id: ViewId| #[trigger] remembers(doc, id) implies holds_both(doc, id) by {}
        assert forall|id: ViewId|
            (#[trigger] holds_both(doc, id) && forall|other: ViewId| #[trigger]
                holds_both(doc, other) ==> id <= other) implies remembered_view(doc) == Some(
            id,
        ) by {
            assert(remembers_first(doc, id));
            let first = choose|v: ViewId| remembers_first(doc, v);
            assert(remembers(doc, first));
            assert(holds_both(doc, first));
        }
        if remembered_view(doc) is Some {
            let id = choose|id: ViewId| remembers(doc, id);
            assert(holds_both(doc, id));
        }
    }
}

/// What is kept of an ascending sequence ascends.
proof fn lemma_filter_ascends(keys: Seq<u64>, keep: spec_fn(u64) -> bool)
    requires
        forall|i: int, j: int| 0 <= i < j < keys.len() ==> keys[i] < keys[j],
    ensures
        forall|i: int, j: int|
            0 <= i < j < keys.filter(keep).len() ==> keys.filter(keep)[i] < keys.filter(keep)[j],
        forall|i: int|
            0 <= i < keys.filter(keep).len() && keys.len() > 0 ==> #[trigger] keys.filter(keep)[i]
                <= keys.last(),
    decreases keys.len(),
{
    reveal(Seq::filter);
    if keys.len() > 0 {
        let front = keys.drop_last();
        lemma_filter_ascends(front, keep);
        front.lemma_filter_len(keep);
        if front.len() > 0 {
            assert(front.last() == keys[keys.len() - 2]);
        }
        assert forall|i: int| 0 <= i < front.filter(keep).len() implies #[trigger] front.filter(
            keep,
        )[i] < keys.last() by {}
    }
}

/// `to` is the position closest to `from` in a text of `text_len` characters: `from` itself if the text
/// has that position, and else the last position of the text, or the beginning of an empty one.
pub open spec fn is_moved_into_text(from: usize, to: usize, text_len: usize) -> bool {
    &&& to < text_len || (text_len == 0 && to == 0)
    &&& from < text_len ==> to == from
    &&& from >= text_len && text_len > 0 ==> to + 1 == text_len
}

/// All of `state` is restored by `update`: the history as it was stored, wherever the positions are; the
/// positions as far as the text of the current document has them; and the offsets as they were stored.
pub open spec fn restores_all(editor: Editor, state: FileState, update: FileStateUpdate) -> bool {
    let view = editor.tree.nodes@[editor.tree.focus].content->View_0;
    let text_len = editor.documents@[view.doc].text_len;
    &&& update.history == state.history
    &&& update.view_id == view.id
    &&& is_moved_into_text(state.anchor, update.selection.anchor, text_len)
    &&& is_moved_into_text(state.head, update.selection.head, text_len)
    &&& is_moved_into_text(state.scroll_anchor, update.offset.anchor, text_len)
    &&& update.offset.horizontal_offset == state.scroll_h_offset
    &&& update.offset.vertical_offset == state.scroll_v_offset
}

/// Whenever a state is read for a current document that has a file, all of it is restored.
pub proof fn law_all_of_state_is_restored(editor: Editor, state: FileState)
    requires
        has_current(editor),
        shows_file(editor, editor.tree.focus),
    ensures
        restored(editor, LoadedState::Loaded(state)) matches Some(update) && restores_all(
            editor,
            state,
            update,
        ),
{
}

/// How the stored positions and the text were changed makes no difference to the history that is
/// restored.
pub proof fn law_history_apart_from_positions(
    a: Editor,
    b: Editor,
    in_a: FileState,
    in_b: FileState,
)
    requires
        has_current(a) && shows_file(a, a.tree.focus),
        has_current(b) && shows_file(b, b.tree.focus),
        in_a.history == in_b.history,
    ensures
        restored(a, LoadedState::Loaded(in_a)) is Some,
        restored(b, LoadedState::Loaded(in_b)) is Some,
        restored(a, LoadedState::Loaded(in_a))->0.history == in_a.history,
        restored(a, LoadedState::Loaded(in_a))->0.history == restored(
            b,
            LoadedState::Loaded(in_b),
        )->0.history,
{
}

/// Something is restored exactly if the current document has a file and a state was read for it. A state
/// is looked for exactly if the document has a file.
pub proof fn law_restored_only_from_state(editor: Editor, loaded: LoadedState)
    requires
        has_current(editor),
    ensures
        restored(editor, loaded) is Some <==> loaded is Loaded && shows_file(
            editor,
            editor.tree.focus,
        ),
        place_to_load(editor) is Some <==> shows_file(editor, editor.tree.focus),
{
}

/// A position that a text has is one that is not moved.
pub proof fn law_position_in_text_stays(from: usize, to: usize, text_len: usize)
    requires
        is_moved_into_text(from, to, text_len),
    ensures
        in_text(to, text_len),
        in_text(from, text_len) ==> to == from,
        to <= from,
{
}

/// The states of all files can be saved exactly if every listed node is a view on an open document that
/// holds a selection and a scroll position for the view, or has no file.
pub proof fn law_can_save_all(editor: Editor)
    ensures
        can_save_all(editor) <==> forall|i: int|
            0 <= i < editor.tree.views@.len() ==> {
                let id = #[trigger] editor.tree.views@[i];
                &&& editor.tree.nodes@.contains_key(id)
                &&& editor.tree.nodes@[id].content matches Content::View(view)
                &&& editor.documents@.contains_key(view.doc)
                &&& editor.documents@[view.doc].path is None || holds_both(
                    editor.documents@[view.doc],
                    view.id,
                )
            },
{
    let listed = editor.tree.views@;
    if can_save_all(editor) {
        assert forall|i: int| 0 <= i < listed.len() implies {
            let id = #[trigger] listed[i];
            &&& editor.tree.nodes@.contains_key(id)
            &&& editor.tree.nodes@[id].content matches Content::View(view)
            &&& editor.documents@.contains_key(view.doc)
            &&& editor.documents@[view.doc].path is None || holds_both(
                editor.documents@[view.doc],
                view.id,
            )
        } by {
            assert(can_save(editor, listed[i]));
        }
    }
}

/// A document is current exactly if the node that has the focus is a view on an open document.
pub proof fn law_has_current(editor: Editor)
    ensures
        has_current(editor) <==> {
            &&& editor.tree.nodes@.contains_key(editor.tree.focus)
            &&& editor.tree.nodes@[editor.tree.focus].content matches Content::View(view)
            &&& editor.documents@.contains_key(view.doc)
        },
{
}

} // verus!
