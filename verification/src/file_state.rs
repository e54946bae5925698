//! The state that is kept for each file: cursor, scroll position and undo history.

use crate::editor::{
    ascending, ascending_keys, is_ascending, lemma_is_ascending, Content, Document, DocumentId,
    DocumentView, Editor, Range, SerializableHistory, ViewId, ViewPosition,
};
use crate::session::SessionView;
use crate::state_laws::{keeps_shown, restores_all, shows_file};
use crate::storage::{file_state_path_for, file_state_place, same_path, Location, Place};
use vstd::prelude::*;

verus! {

/// Per-file persisted state: cursor, scroll position, and undo history.
pub struct FileState {
    pub path: String,
    pub anchor: usize,
    pub head: usize,
    pub scroll_anchor: usize,
    pub scroll_v_offset: usize,
    pub scroll_h_offset: usize,
    pub history: Option<SerializableHistory>,
}

/// The state of a file, and where it is to be stored.
pub struct SavedState {
    pub location: Location,
    pub state: FileState,
}

/// The state of a file, and where it is to be stored, as a mathematical value.
pub struct StoredState {
    pub place: Place,
    pub state: FileState,
}

impl View for SavedState {
    type V = StoredState;

    open spec fn view(&self) -> StoredState {
        StoredState { place: self.location@, state: self.state }
    }
}

/// What came of reading the stored state of a file.
pub enum LoadedState {
    /// No state is stored for the file.
    Absent,
    /// There is one, but it cannot be read.
    Unreadable,
    /// It can be read, but is not a file state.
    Invalid,
    Loaded(FileState),
}

/// What of a stored state is to be applied to a document: to the view `view_id` on it, the
/// selection and the scroll position; to the document, the history if there is one.
pub struct FileStateUpdate {
    pub view_id: ViewId,
    pub selection: Range,
    pub offset: ViewPosition,
    pub history: Option<SerializableHistory>,
}

/// The document of a view has a file.
pub open spec fn has_file(editor: Editor) -> spec_fn(ViewId) -> bool {
    |id: ViewId|
        editor.doc_of(editor.tree.view_at(id)) matches Some(doc) && doc.path is Some
}

/// What is listed as a view is one, its document is open and, if it has a file, knows the view.
pub open spec fn can_save(editor: Editor, id: ViewId) -> bool {
    &&& editor.tree.is_view(id)
    &&& editor.doc_of(editor.tree.view_at(id)) is Some
    &&& has_file(editor)(id) ==> editor.view_ready(id)
}

/// The states of the files of all views can be saved.
pub open spec fn can_save_all(editor: Editor) -> bool {
    forall|k: int|
        0 <= k < editor.tree.views@.len() ==> can_save(editor, #[trigger] editor.tree.views@[k])
}

/// Whether the states of the files of all views can be saved.
pub fn are_file_states_savable(editor: &Editor) -> (res: bool)
    ensures
        res == can_save_all(*editor),
{
    let mut i: usize = 0;
    while i < editor.tree.views.len()
        invariant
            i <= editor.tree.views@.len(),
            forall|k: int| 0 <= k < i ==> can_save(*editor, #[trigger] editor.tree.views@[k]),
        decreases editor.tree.views@.len() - i,
    {
        if !is_view_savable(editor, editor.tree.views[i]) {
            assert(!can_save(*editor, editor.tree.views@[i as int]));
            return false;
        }
        i += 1;
    }
    true
}

fn is_view_savable(editor: &Editor, id: ViewId) -> (res: bool)
    ensures
        res == can_save(*editor, id),
{
    match editor.tree.nodes.get(&id) {
        Some(node) => match &node.content {
            Content::View(view) => match editor.documents.get(&view.doc) {
                Some(doc) => doc.path.is_none() || editor.knows_view(id),
                None => false,
            },
            Content::Container(_) => false,
        },
        None => false,
    }
}

/// The views whose files' states are saved: those on documents that have a file.
pub open spec fn views_to_save(editor: Editor) -> Seq<ViewId> {
    editor.tree.views@.filter(has_file(editor))
}

/// Some listed view shows the document `d`.
pub open spec fn is_shown(editor: Editor, d: DocumentId) -> bool {
    exists|k: int|
        0 <= k < editor.tree.views@.len() && editor.tree.view_at(
            #[trigger] editor.tree.views@[k],
        ).doc == d
}

/// A document is open and has a file.
pub open spec fn is_open_file(editor: Editor, d: DocumentId) -> bool {
    editor.documents@.contains_key(d) && editor.documents@[d].path is Some
}

/// A document is open and has a file, and no listed view shows it.
pub open spec fn is_unshown_file(editor: Editor) -> spec_fn(DocumentId) -> bool {
    |d: DocumentId| is_open_file(editor, d) && !is_shown(editor, d)
}

/// The documents whose files' states are saved though no view shows them, in the order of their keys.
pub open spec fn documents_to_save(editor: Editor) -> Seq<DocumentId> {
    ascending(editor.documents@.dom()).filter(is_unshown_file(editor))
}

/// A document holds both a selection and a scroll position for the view `id`.
pub open spec fn remembers(doc: Document, id: ViewId) -> bool {
    doc.selections@.contains_key(id) && doc.view_offsets@.contains_key(id)
}

/// `id` is the first view, in the order of their keys, that a document holds positions for.
pub open spec fn remembers_first(doc: Document, id: ViewId) -> bool {
    remembers(doc, id) && forall|other: ViewId| #[trigger] remembers(doc, other) ==> id <= other
}

/// The first view that a document holds positions for, if there is one.
pub open spec fn remembered_view(doc: Document) -> Option<ViewId> {
    if exists|id: ViewId| remembers(doc, id) {
        Some(choose|id: ViewId| remembers_first(doc, id))
    } else {
        None
    }
}

/// The state of the file of a document, with the positions that the document holds for the view
/// `at`, or at the beginning of the text.
pub open spec fn file_state(doc: Document, at: Option<ViewId>) -> FileState {
    match at {
        Some(id) => FileState {
            path: doc.path->0,
            anchor: doc.selections@[id].anchor,
            head: doc.selections@[id].head,
            scroll_anchor: doc.view_offsets@[id].anchor,
            scroll_v_offset: doc.view_offsets@[id].vertical_offset,
            scroll_h_offset: doc.view_offsets@[id].horizontal_offset,
            history: Some(doc.history),
        },
        None => FileState {
            path: doc.path->0,
            anchor: 0,
            head: 0,
            scroll_anchor: 0,
            scroll_v_offset: 0,
            scroll_h_offset: 0,
            history: Some(doc.history),
        },
    }
}

/// `saved` is to be stored at the place for its file.
pub open spec fn well_placed(saved: SavedState) -> bool {
    saved.location@ == file_state_place(saved.state.path@)
}

/// `saved` is the state of the file that the view `id` shows, to be stored at the place for it.
pub open spec fn saves(editor: Editor, id: ViewId, saved: SavedState) -> bool {
    let view = editor.tree.view_at(id);
    &&& saved.state == file_state(editor.documents@[view.doc], Some(view.id))
    &&& well_placed(saved)
}

/// `saved` is the state of the file of the document `d`, which no view shows, to be stored at the
/// place for it. The positions are those that the document holds for the first view it holds any
/// for.
pub open spec fn saves_unshown(editor: Editor, d: DocumentId, saved: SavedState) -> bool {
    let doc = editor.documents@[d];
    &&& saved.state == file_state(doc, remembered_view(doc))
    &&& well_placed(saved)
}

/// `stored` keeps the history of the document `d`, at the place for its file.
pub open spec fn keeps_document(editor: Editor, d: DocumentId, stored: StoredState) -> bool {
    let doc = editor.documents@[d];
    &&& doc.path == Some(stored.state.path)
    &&& stored.state.history == Some(doc.history)
    &&& stored.place == file_state_place(stored.state.path@)
}

/// The state of a document that has a file.
fn saved_state(doc: &Document, at: Option<ViewId>) -> (saved: SavedState)
    requires
        doc.path is Some,
        at matches Some(id) ==> remembers(*doc, id),
    ensures
        saved.state == file_state(*doc, at),
        well_placed(saved),
{
    let path = match &doc.path {
        Some(path) => path.clone(),
        None => String::new(),
    };
    let location = file_state_path_for(path.as_str());
    let (selection, offset) = match at {
        Some(id) => (*doc.selections.get(&id).unwrap(), *doc.view_offsets.get(&id).unwrap()),
        None => (
            Range { anchor: 0, head: 0 },
            ViewPosition { anchor: 0, horizontal_offset: 0, vertical_offset: 0 },
        ),
    };
    let state = FileState {
        path,
        anchor: selection.anchor,
        head: selection.head,
        scroll_anchor: offset.anchor,
        scroll_v_offset: offset.vertical_offset,
        scroll_h_offset: offset.horizontal_offset,
        history: Some(doc.history.clone()),
    };
    SavedState { location, state }
}

/// The first view that a document holds positions for, if there is one.
fn first_remembered(doc: &Document) -> (id: Option<ViewId>)
    ensures
        id == remembered_view(*doc),
        id matches Some(v) ==> remembers(*doc, v),
{
    let keys = ascending_keys(&doc.selections);
    let mut i: usize = 0;
    while i < keys.len()
        invariant
            is_ascending(keys@, doc.selections@.dom()),
            i <= keys@.len(),
            forall|k: int| 0 <= k < i ==> !remembers(*doc, #[trigger] keys@[k]),
        decreases keys@.len() - i,
    {
        let id: ViewId = keys[i];
        if doc.view_offsets.contains_key(&id) {
            proof {
                assert(keys@.contains(keys@[i as int]));
                assert forall|other: ViewId| #[trigger] remembers(*doc, other) implies id
                    <= other by {
                    assert(keys@.contains(other));
                    let k = choose|k: int| 0 <= k < keys@.len() && keys@[k] == other;
                    if k < i {
                        assert(!remembers(*doc, keys@[k]));
                    }
                }
                assert(remembers_first(*doc, id));
                let first = choose|v: ViewId| remembers_first(*doc, v);
                assert(remembers(*doc, first));
            }
            return Some(id);
        }
        i += 1;
    }
    assert forall|id: ViewId| !remembers(*doc, id) by {
        if remembers(*doc, id) {
            assert(keys@.contains(id));
            let k = choose|k: int| 0 <= k < keys@.len() && keys@[k] == id;
            assert(!remembers(*doc, keys@[k]));
        }
    }
    None
}

/// Whether some listed view shows the document `d`.
fn is_document_shown(editor: &Editor, d: DocumentId) -> (res: bool)
    requires
        can_save_all(*editor),
    ensures
        res == is_shown(*editor, d),
{
    let mut i: usize = 0;
    while i < editor.tree.views.len()
        invariant
            can_save_all(*editor),
            i <= editor.tree.views@.len(),
            forall|k: int|
                0 <= k < i ==> editor.tree.view_at(#[trigger] editor.tree.views@[k]).doc != d,
        decreases editor.tree.views@.len() - i,
    {
        let id: ViewId = editor.tree.views[i];
        assert(can_save(*editor, editor.tree.views@[i as int]));
        if let Content::View(view) = &editor.tree.node(id).content {
            if view.doc == d {
                assert(editor.tree.view_at(editor.tree.views@[i as int]).doc == d);
                return true;
            }
        }
        i += 1;
    }
    false
}

/// Filtering one element more keeps it or not.
proof fn lemma_filter_step(s: Seq<u64>, keep: spec_fn(u64) -> bool, i: int)
    requires
        0 <= i < s.len(),
    ensures
        s.take(i + 1).filter(keep) == if keep(s[i]) {
            s.take(i).filter(keep).push(s[i])
        } else {
            s.take(i).filter(keep)
        },
{
    reveal(Seq::filter);
    assert(s.take(i + 1).drop_last() =~= s.take(i));
}

/// The states of the files of the documents that no view shows.
fn unshown_states(editor: &Editor) -> (saved: Vec<SavedState>)
    requires
        can_save_all(*editor),
    ensures
        saved@.len() == documents_to_save(*editor).len(),
        forall|k: int|
            0 <= k < saved@.len() ==> saves_unshown(
                *editor,
                documents_to_save(*editor)[k],
                #[trigger] saved@[k],
            ),
{
    let mut saved: Vec<SavedState> = Vec::new();
    let keys = ascending_keys(&editor.documents);
    let ghost keep = is_unshown_file(*editor);
    let mut i: usize = 0;
    assert(keys@.take(0).filter(keep) =~= seq![]) by {
        reveal(Seq::filter);
    }
    while i < keys.len()
        invariant
            can_save_all(*editor),
            keep == is_unshown_file(*editor),
            is_ascending(keys@, editor.documents@.dom()),
            i <= keys@.len(),
            saved@.len() == keys@.take(i as int).filter(keep).len(),
            forall|k: int|
                0 <= k < saved@.len() ==> saves_unshown(
                    *editor,
                    keys@.take(i as int).filter(keep)[k],
                    #[trigger] saved@[k],
                ),
        decreases keys@.len() - i,
    {
        let d: DocumentId = keys[i];
        proof {
            lemma_filter_step(keys@, keep, i as int);
            assert(keys@.contains(keys@[i as int]));
        }
        let doc = editor.documents.get(&d).unwrap();
        if doc.path.is_some() && !is_document_shown(editor, d) {
            saved.push(saved_state(doc, first_remembered(doc)));
        }
        i += 1;
    }
    assert(keys@.take(i as int) =~= keys@);
    saved
}

/// Appends the states of the files of the listed views.
fn push_view_states(editor: &Editor, saved: &mut Vec<SavedState>)
    requires
        can_save_all(*editor),
    ensures
        final(saved)@.len() == old(saved)@.len() + views_to_save(*editor).len(),
        forall|k: int|
            0 <= k < old(saved)@.len() ==> #[trigger] final(saved)@[k] == old(saved)@[k],
        forall|k: int|
            old(saved)@.len() <= k < final(saved)@.len() ==> saves(
                *editor,
                views_to_save(*editor)[k - old(saved)@.len()],
                #[trigger] final(saved)@[k],
            ),
{
    let ghost ids = editor.tree.views@;
    let ghost keep = has_file(*editor);
    let ghost before = saved@;
    let mut i: usize = 0;
    assert(ids.take(0).filter(keep) =~= seq![]) by {
        reveal(Seq::filter);
    }
    while i < editor.tree.views.len()
        invariant
            ids == editor.tree.views@,
            keep == has_file(*editor),
            can_save_all(*editor),
            i <= ids.len(),
            saved@.len() == before.len() + ids.take(i as int).filter(keep).len(),
            forall|k: int| 0 <= k < before.len() ==> #[trigger] saved@[k] == before[k],
            forall|k: int|
                before.len() <= k < saved@.len() ==> saves(
                    *editor,
                    ids.take(i as int).filter(keep)[k - before.len()],
                    #[trigger] saved@[k],
                ),
        decreases ids.len() - i,
    {
        let id: ViewId = editor.tree.views[i];
        proof {
            assert(can_save(*editor, editor.tree.views@[i as int]));
            lemma_filter_step(ids, keep, i as int);
        }
        if let Content::View(view) = &editor.tree.node(id).content {
            let doc = editor.documents.get(&view.doc).unwrap();
            if doc.path.is_some() {
                saved.push(saved_state(doc, Some(view.id)));
            }
        }
        i += 1;
    }
    assert(ids.take(i as int) =~= ids);
}

/// The states of the files of all open documents, with where each is to be stored: first those of
/// the documents that no view shows, then one for each view on a file, so that what is stored last
/// for a file comes from a view on it, if there is one.
pub fn save_file_states(editor: &Editor) -> (saved: Vec<SavedState>)
    requires
        can_save_all(*editor),
    ensures
        saved@.len() == documents_to_save(*editor).len() + views_to_save(*editor).len(),
        forall|k: int|
            0 <= k < documents_to_save(*editor).len() ==> saves_unshown(
                *editor,
                documents_to_save(*editor)[k],
                #[trigger] saved@[k],
            ),
        forall|k: int|
            documents_to_save(*editor).len() <= k < saved@.len() ==> saves(
                *editor,
                views_to_save(*editor)[k - documents_to_save(*editor).len()],
                #[trigger] saved@[k],
            ),
        forall|d: DocumentId| #[trigger]
            is_open_file(*editor, d) ==> exists|k: int|
                0 <= k < saved@.len() && keeps_document(*editor, d, (#[trigger] saved@[k])@),
        forall|i: int|
            0 <= i < editor.tree.views@.len() && shows_file(
                *editor,
                #[trigger] editor.tree.views@[i],
            ) ==> exists|k: int|
                0 <= k < saved@.len() && keeps_shown(
                    *editor,
                    editor.tree.views@[i],
                    (#[trigger] saved@[k])@,
                ),
{
    let mut saved = unshown_states(editor);
    let ghost first = saved@;
    push_view_states(editor, &mut saved);
    proof {
        let n = documents_to_save(*editor).len();
        assert forall|k: int| 0 <= k < n implies saves_unshown(
            *editor,
            documents_to_save(*editor)[k],
            #[trigger] saved@[k],
        ) by {
            assert(saved@[k] == first[k]);
        }
        assert forall|d: DocumentId| #[trigger] is_open_file(*editor, d) implies exists|k: int|
            0 <= k < saved@.len() && keeps_document(*editor, d, (#[trigger] saved@[k])@) by {
            if is_shown(*editor, d) {
                let i = choose|i: int|
                    0 <= i < editor.tree.views@.len() && editor.tree.view_at(
                        #[trigger] editor.tree.views@[i],
                    ).doc == d;
                let id = editor.tree.views@[i];
                editor.tree.views@.lemma_filter_contains(has_file(*editor), i);
                let k = choose|k: int|
                    0 <= k < views_to_save(*editor).len() && views_to_save(*editor)[k] == id;
                assert(keeps_document(*editor, d, saved@[n + k]@));
            } else {
                law_documents_to_save(*editor, d);
                let k = choose|k: int|
                    0 <= k < documents_to_save(*editor).len() && documents_to_save(*editor)[k] == d;
                assert(keeps_document(*editor, d, saved@[k]@));
            }
        }
        assert forall|i: int|
            0 <= i < editor.tree.views@.len() && shows_file(
                *editor,
                #[trigger] editor.tree.views@[i],
            ) implies exists|k: int|
            0 <= k < saved@.len() && keeps_shown(
                *editor,
                editor.tree.views@[i],
                (#[trigger] saved@[k])@,
            ) by {
            let id = editor.tree.views@[i];
            editor.tree.views@.lemma_filter_contains(has_file(*editor), i);
            let k = choose|k: int|
                0 <= k < views_to_save(*editor).len() && views_to_save(*editor)[k] == id;
            assert(keeps_shown(*editor, id, saved@[n + k]@));
        }
    }
    saved
}

/// An open document that has a file and that no view shows is among those to be saved, and only such
/// are.
pub proof fn law_documents_to_save(editor: Editor, d: DocumentId)
    ensures
        documents_to_save(editor).contains(d) <==> is_unshown_file(editor)(d),
{
    let keys = ascending(editor.documents@.dom());
    let keep = is_unshown_file(editor);
    lemma_is_ascending(editor.documents@.dom());
    if keep(d) {
        assert(keys.contains(d));
        let i = choose|i: int| 0 <= i < keys.len() && keys[i] == d;
        keys.lemma_filter_contains(keep, i);
    }
    if documents_to_save(editor).contains(d) {
        let i = choose|i: int|
            0 <= i < documents_to_save(editor).len() && documents_to_save(editor)[i] == d;
        keys.lemma_filter_pred(keep, i);
    }
}

/// The view that has the focus.
pub open spec fn current_view(editor: Editor) -> DocumentView {
    editor.tree.view_at(editor.tree.focus)
}

/// A view has the focus, and its document is open.
pub open spec fn has_current(editor: Editor) -> bool {
    editor.tree.is_view(editor.tree.focus) && editor.documents@.contains_key(
        current_view(editor).doc,
    )
}

/// Whether a view has the focus and its document is open.
pub fn is_view_current(editor: &Editor) -> (res: bool)
    ensures
        res == has_current(*editor),
{
    match editor.tree.nodes.get(&editor.tree.focus) {
        Some(node) => match &node.content {
            Content::View(view) => editor.documents.contains_key(&view.doc),
            Content::Container(_) => false,
        },
        None => false,
    }
}

/// `position`, or the last position in a text of `text_len` characters if that comes first; zero in
/// an empty text.
pub open spec fn clamped(position: usize, text_len: usize) -> usize {
    if text_len == 0 {
        0
    } else if position < text_len {
        position
    } else {
        (text_len - 1) as usize
    }
}

/// What of `state` is to be applied to a document of `text_len` characters in the view `view_id`.
pub open spec fn update_from(view_id: ViewId, text_len: usize, state: FileState) -> FileStateUpdate {
    FileStateUpdate {
        view_id,
        selection: Range {
            anchor: clamped(state.anchor, text_len),
            head: clamped(state.head, text_len),
        },
        offset: ViewPosition {
            anchor: clamped(state.scroll_anchor, text_len),
            horizontal_offset: state.scroll_h_offset,
            vertical_offset: state.scroll_v_offset,
        },
        history: state.history,
    }
}

/// What is to be applied to the current document: nothing if the document has no file, or no state
/// could be read.
pub open spec fn restored(editor: Editor, loaded: LoadedState) -> Option<FileStateUpdate> {
    let view = current_view(editor);
    let doc = editor.documents@[view.doc];
    match loaded {
        LoadedState::Loaded(state) if doc.path is Some => Some(
            update_from(view.id, doc.text_len, state),
        ),
        _ => None,
    }
}

/// `position`, moved into a text of `text_len` characters.
fn clamp(position: usize, text_len: usize) -> (res: usize)
    ensures
        res == clamped(position, text_len),
{
    let last: usize = text_len.saturating_sub(1);
    if position < last {
        position
    } else {
        last
    }
}

/// Where the state for the current document is looked for; nowhere if the document has no file.
pub open spec fn place_to_load(editor: Editor) -> Option<Place> {
    match editor.documents@[current_view(editor).doc].path {
        Some(path) => Some(file_state_place(path@)),
        None => None,
    }
}

/// Where the state for the current document is looked for; nowhere if the document has no file.
pub fn file_state_to_load(editor: &Editor) -> (file: Option<Location>)
    requires
        has_current(*editor),
    ensures
        match (file, place_to_load(*editor)) {
            (Some(location), Some(place)) => location@ == place,
            (None, None) => true,
            _ => false,
        },
        forall|other: Seq<char>| #[trigger]
            same_path(editor.documents@[current_view(*editor).doc].path->0@, other) && file is Some
                ==> file->0@ == file_state_place(other),
{
    if let Content::View(view) = &editor.tree.node(editor.tree.focus).content {
        let doc = editor.documents.get(&view.doc).unwrap();
        match &doc.path {
            Some(path) => Some(file_state_path_for(path.as_str())),
            None => None,
        }
    } else {
        None
    }
}

/// What of a stored state is to be applied to the current document: nothing if the document has no
/// file, or no state could be read.
pub fn restore_file_state(editor: &Editor, loaded: LoadedState) -> (update: Option<FileStateUpdate>)
    requires
        has_current(*editor),
    ensures
        update == restored(*editor, loaded),
        update is Some <==> loaded is Loaded && shows_file(*editor, editor.tree.focus),
        update matches Some(u) ==> restores_all(*editor, loaded->Loaded_0, u),
{
    if let Content::View(view) = &editor.tree.node(editor.tree.focus).content {
        let doc = editor.documents.get(&view.doc).unwrap();
        if doc.path.is_none() {
            return None;
        }
        match loaded {
            LoadedState::Loaded(state) => Some(
                FileStateUpdate {
                    view_id: view.id,
                    selection: Range {
                        anchor: clamp(state.anchor, doc.text_len),
                        head: clamp(state.head, doc.text_len),
                    },
                    offset: ViewPosition {
                        anchor: clamp(state.scroll_anchor, doc.text_len),
                        horizontal_offset: state.scroll_h_offset,
                        vertical_offset: state.scroll_v_offset,
                    },
                    history: state.history,
                },
            ),
            _ => None,
        }
    } else {
        None
    }
}

/// Brings a view that was opened for a stored view to its state: to what is stored for its file,
/// whatever the session says of it.
pub fn set_view_state(editor: &Editor, _sv: &SessionView, loaded: LoadedState) -> (update: Option<
    FileStateUpdate,
>)
    requires
        has_current(*editor),
    ensures
        update == restored(*editor, loaded),
        update is Some <==> loaded is Loaded && shows_file(*editor, editor.tree.focus),
        update matches Some(u) ==> restores_all(*editor, loaded->Loaded_0, u),
{
    restore_file_state(editor, loaded)
}

/// `position` is one that a text of `text_len` characters has, or the beginning.
pub open spec fn in_text(position: usize, text_len: usize) -> bool {
    position == 0 || position < text_len
}

/// What is restored lies within the text, whatever was stored.
pub proof fn law_restored_positions_in_text(view_id: ViewId, text_len: usize, state: FileState)
    ensures
        ({
            let update = update_from(view_id, text_len, state);
            &&& in_text(update.selection.anchor, text_len)
            &&& in_text(update.selection.head, text_len)
            &&& in_text(update.offset.anchor, text_len)
        }),
{
}

/// A file state that was saved with the positions for the view `at` and is read back unchanged
/// brings a view on the same file to these positions, if they are still in the text, and the document
/// to the same history.
pub proof fn law_saved_state_restores(doc: Document, at: ViewId, restored_in: Editor)
    requires
        doc.path is Some,
        remembers(doc, at),
        has_current(restored_in),
        restored_in.documents@[current_view(restored_in).doc].path == doc.path,
        ({
            let len = restored_in.documents@[current_view(restored_in).doc].text_len;
            &&& in_text(doc.selections@[at].anchor, len)
            &&& in_text(doc.selections@[at].head, len)
            &&& in_text(doc.view_offsets@[at].anchor, len)
        }),
    ensures
        restored(restored_in, LoadedState::Loaded(file_state(doc, Some(at)))) == Some(
            FileStateUpdate {
                view_id: current_view(restored_in).id,
                selection: doc.selections@[at],
                offset: doc.view_offsets@[at],
                history: Some(doc.history),
            },
        ),
{
}

/// The state of a file is looked for where it was saved.
pub proof fn law_state_found_where_saved(saved: SavedState, restored_in: Editor)
    requires
        well_placed(saved),
        has_current(restored_in),
        restored_in.documents@[current_view(restored_in).doc].path matches Some(path) && path@
            == saved.state.path@,
    ensures
        place_to_load(restored_in) == Some(saved.location@),
{
}

} // verus!
