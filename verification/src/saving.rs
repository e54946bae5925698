//! Saving the states of all files, step by step: what is asked for next, given the answers.

use crate::editor::{DocumentId, Editor, ViewId};
use crate::file_state::{
    can_save_all, documents_to_save, file_state, has_file, is_open_file, is_shown, keeps_document,
    law_documents_to_save, remembered_view, save_file_states, views_to_save, FileState, SavedState,
    StoredState,
};
use crate::storage::{file_state_dir, file_state_place, file_states_place, Location, Place};
use vstd::prelude::*;

verus! {

/// What is asked for.
pub enum SaveRequest<'a> {
    /// Create the directory of the file states, if there is none yet.
    CreateDirectory { location: Location },
    /// List the views that are open now.
    ListViews,
    /// Move the pending changes of a view's document to its history.
    Flush { id: ViewId },
    /// Hand over the state of the editor.
    ReadEditor,
    /// Write the state of a file.
    Write { saved: &'a SavedState },
    /// Nothing more.
    Done,
}

/// What is asked for, as a mathematical value.
pub enum SaveTask {
    CreateDirectory { place: Place },
    ListViews,
    Flush { id: ViewId },
    ReadEditor,
    Write { stored: StoredState },
    Done,
}

impl<'a> View for SaveRequest<'a> {
    type V = SaveTask;

    open spec fn view(&self) -> SaveTask {
        match *self {
            SaveRequest::CreateDirectory { location } => SaveTask::CreateDirectory {
                place: location@,
            },
            SaveRequest::ListViews => SaveTask::ListViews,
            SaveRequest::Flush { id } => SaveTask::Flush { id },
            SaveRequest::ReadEditor => SaveTask::ReadEditor,
            SaveRequest::Write { saved } => SaveTask::Write { stored: saved@ },
            SaveRequest::Done => SaveTask::Done,
        }
    }
}

/// What is answered.
pub enum SaveReply {
    /// The request was carried out.
    Finished,
    /// The directory could not be created, or the state could not be written.
    Failed,
    /// The views that are open now.
    Views(Vec<ViewId>),
    /// The state of the editor.
    Editor(Editor),
}

/// What is answered, as a mathematical value.
pub enum SaveAnswer {
    Finished,
    Failed,
    Views(Seq<ViewId>),
    Editor(Editor),
}

impl View for SaveReply {
    type V = SaveAnswer;

    open spec fn view(&self) -> SaveAnswer {
        match *self {
            SaveReply::Finished => SaveAnswer::Finished,
            SaveReply::Failed => SaveAnswer::Failed,
            SaveReply::Views(ids) => SaveAnswer::Views(ids@),
            SaveReply::Editor(editor) => SaveAnswer::Editor(editor),
        }
    }
}

/// How far the saving has come.
#[derive(Clone, Copy, PartialEq, Eq, Debug, Structural)]
pub enum Phase {
    /// The directory is created.
    Prepare,
    /// The editor lists its views.
    List,
    /// The pending changes of the view at hand are moved to the history.
    Flush,
    /// The editor hands over its state.
    Read,
    /// The state at hand is written.
    Write,
    /// All is done.
    Done,
}

/// The saving of file states under way.
pub struct Saving {
    phase: Phase,
    views: Vec<ViewId>,
    states: Vec<SavedState>,
    index: usize,
}

/// The state of the saving of file states.
#[verifier::ext_equal]
pub struct SavingState {
    pub phase: Phase,
    /// The views whose pending changes are moved to the history.
    pub views: Seq<ViewId>,
    /// The states to be written.
    pub states: Seq<StoredState>,
    /// The view or the state at hand.
    pub index: int,
}

impl View for Saving {
    type V = SavingState;

    closed spec fn view(&self) -> SavingState {
        SavingState {
            phase: self.phase,
            views: self.views@,
            states: Seq::new(self.states@.len(), |i: int| self.states@[i]@),
            index: self.index as int,
        }
    }
}

/// The state of a file goes to the place for the file.
pub open spec fn stored(state: FileState) -> StoredState {
    StoredState { place: file_state_place(state.path@), state }
}

/// What is stored for the document `d`, which no view shows.
pub open spec fn stored_unshown(editor: Editor, d: DocumentId) -> StoredState {
    let doc = editor.documents@[d];
    stored(file_state(doc, remembered_view(doc)))
}

/// What is stored for the document that the view `id` shows.
pub open spec fn stored_for_view(editor: Editor, id: ViewId) -> StoredState {
    let view = editor.tree.view_at(id);
    stored(file_state(editor.documents@[view.doc], Some(view.id)))
}

/// The states of the files of all open documents: first of those that no view shows, then one for
/// each view on a file.
pub open spec fn states_to_save(editor: Editor) -> Seq<StoredState> {
    let unshown = documents_to_save(editor);
    let shown = views_to_save(editor);
    Seq::new(unshown.len(), |i: int| stored_unshown(editor, unshown[i])) + Seq::new(
        shown.len(),
        |i: int| stored_for_view(editor, shown[i]),
    )
}

/// What is done where the view number `index` comes next: after the last one the editor is read.
pub open spec fn flush_phase(views: Seq<ViewId>, index: int) -> Phase {
    if index < views.len() {
        Phase::Flush
    } else {
        Phase::Read
    }
}

/// What is done where the state number `index` comes next: after the last one, nothing.
pub open spec fn write_phase(states: Seq<StoredState>, index: int) -> Phase {
    if index < states.len() {
        Phase::Write
    } else {
        Phase::Done
    }
}

/// The state in which the saving begins.
pub open spec fn first_state() -> SavingState {
    SavingState { phase: Phase::Prepare, views: seq![], states: seq![], index: 0 }
}

impl SavingState {
    /// There is a view at hand while one is flushed, and a state at hand while one is written.
    pub open spec fn wf(self) -> bool {
        match self.phase {
            Phase::Flush => 0 <= self.index < self.views.len(),
            Phase::Write => 0 <= self.index < self.states.len(),
            _ => true,
        }
    }

    /// What is asked for in this state.
    pub open spec fn task(self) -> SaveTask {
        match self.phase {
            Phase::Prepare => SaveTask::CreateDirectory { place: file_states_place() },
            Phase::List => SaveTask::ListViews,
            Phase::Flush => SaveTask::Flush { id: self.views[self.index] },
            Phase::Read => SaveTask::ReadEditor,
            Phase::Write => SaveTask::Write { stored: self.states[self.index] },
            Phase::Done => SaveTask::Done,
        }
    }

    /// The answer is one to the request of this state. An editor is one whose states can be saved.
    pub open spec fn accepts(self, answer: SaveAnswer) -> bool {
        match self.phase {
            Phase::Prepare | Phase::Write => answer is Finished || answer is Failed,
            Phase::List => answer is Views,
            Phase::Flush => answer is Finished,
            Phase::Read => answer matches SaveAnswer::Editor(editor) && can_save_all(editor),
            Phase::Done => false,
        }
    }

    /// The state after an answer. Without the directory nothing more is done. A state that could not
    /// be written is passed over.
    pub open spec fn after(self, answer: SaveAnswer) -> SavingState {
        match (self.phase, answer) {
            (Phase::Prepare, SaveAnswer::Failed) => SavingState { phase: Phase::Done, ..self },
            (Phase::Prepare, _) => SavingState { phase: Phase::List, ..self },
            (Phase::List, SaveAnswer::Views(ids)) => SavingState {
                phase: flush_phase(ids, 0),
                views: ids,
                index: 0,
                ..self
            },
            (Phase::Flush, _) => SavingState {
                phase: flush_phase(self.views, self.index + 1),
                index: self.index + 1,
                ..self
            },
            (Phase::Read, SaveAnswer::Editor(editor)) => SavingState {
                phase: write_phase(states_to_save(editor), 0),
                states: states_to_save(editor),
                index: 0,
                ..self
            },
            (Phase::Write, _) => SavingState {
                phase: write_phase(self.states, self.index + 1),
                index: self.index + 1,
                ..self
            },
            _ => self,
        }
    }
}

impl Saving {
    /// Begins to save the states of all files.
    pub fn start() -> (saving: Saving)
        ensures
            saving@ == first_state(),
            saving@.wf(),
    {
        let saving = Saving {
            phase: Phase::Prepare,
            views: Vec::new(),
            states: Vec::new(),
            index: 0,
        };
        assert(saving@ =~= first_state());
        saving
    }

    /// What is asked for next.
    pub fn request(&self) -> (request: SaveRequest<'_>)
        requires
            self@.wf(),
        ensures
            request@ == self@.task(),
    {
        match self.phase {
            Phase::Prepare => SaveRequest::CreateDirectory { location: file_state_dir() },
            Phase::List => SaveRequest::ListViews,
            Phase::Flush => SaveRequest::Flush { id: self.views[self.index] },
            Phase::Read => SaveRequest::ReadEditor,
            Phase::Write => SaveRequest::Write { saved: &self.states[self.index] },
            Phase::Done => SaveRequest::Done,
        }
    }

    /// Takes the answer to the request.
    pub fn advance(&mut self, reply: SaveReply)
        requires
            old(self)@.wf(),
            old(self)@.accepts(reply@),
        ensures
            final(self)@.wf(),
            final(self)@ == old(self)@.after(reply@),
    {
        match self.phase {
            Phase::Prepare => {
                self.phase = match reply {
                    SaveReply::Failed => Phase::Done,
                    _ => Phase::List,
                };
            },
            Phase::List => {
                if let SaveReply::Views(ids) = reply {
                    self.views = ids;
                    self.index = 0;
                    self.go_on_flushing();
                }
            },
            Phase::Flush => {
                assert(self.index < self.views.len());
                self.index = self.index + 1;
                self.go_on_flushing();
            },
            Phase::Read => {
                if let SaveReply::Editor(editor) = reply {
                    self.states = save_file_states(&editor);
                    self.index = 0;
                    self.go_on_writing();
                    assert(self@.states =~= states_to_save(editor));
                }
            },
            Phase::Write => {
                assert(self.index < self.states.len());
                self.index = self.index + 1;
                self.go_on_writing();
            },
            Phase::Done => {},
        }
        assert(self@ =~= old(self)@.after(reply@));
    }

    /// Turns to the view at hand, or to the editor if there is none.
    fn go_on_flushing(&mut self)
        ensures
            final(self)@ == (SavingState {
                phase: flush_phase(old(self)@.views, old(self)@.index),
                ..old(self)@
            }),
    {
        self.phase = if self.index < self.views.len() {
            Phase::Flush
        } else {
            Phase::Read
        };
        assert(self@.states =~= old(self)@.states);
    }

    /// Turns to the state at hand, or ends if there is none.
    fn go_on_writing(&mut self)
        ensures
            final(self)@ == (SavingState {
                phase: write_phase(old(self)@.states, old(self)@.index),
                ..old(self)@
            }),
    {
        self.phase = if self.index < self.states.len() {
            Phase::Write
        } else {
            Phase::Done
        };
        assert(self@.states =~= old(self)@.states);
    }
}

/// An editor and the files around it, as far as they decide how file states are saved.
pub struct SaveSurroundings {
    /// Whether the directory can be created.
    pub directory: bool,
    /// The views that are open.
    pub views: Seq<ViewId>,
    /// The editor as it is handed over.
    pub editor: Editor,
    /// Whether the state with a given number can be written.
    pub writes: spec_fn(int) -> bool,
}

/// The answer that a request gets in given surroundings.
pub open spec fn save_answer_in(around: SaveSurroundings, s: SavingState) -> SaveAnswer {
    match s.phase {
        Phase::Prepare => if around.directory {
            SaveAnswer::Finished
        } else {
            SaveAnswer::Failed
        },
        Phase::List => SaveAnswer::Views(around.views),
        Phase::Read => SaveAnswer::Editor(around.editor),
        Phase::Write => if (around.writes)(s.index) {
            SaveAnswer::Finished
        } else {
            SaveAnswer::Failed
        },
        _ => SaveAnswer::Finished,
    }
}

/// How many phases are still to come, at most.
pub open spec fn phases_left(s: SavingState) -> int {
    match s.phase {
        Phase::Prepare => 5,
        Phase::List => 4,
        Phase::Flush => 3,
        Phase::Read => 2,
        Phase::Write => 1,
        Phase::Done => 0,
    }
}

/// How many steps of the phase are still to come.
pub open spec fn steps_of_phase_left(s: SavingState) -> int {
    match s.phase {
        Phase::Flush => s.views.len() - s.index,
        Phase::Write => s.states.len() - s.index,
        _ => 0,
    }
}

/// All that is asked for from a state on, in given surroundings.
pub open spec fn tasks_from(around: SaveSurroundings, s: SavingState) -> Seq<SaveTask>
    decreases phases_left(s), steps_of_phase_left(s),
    when s.wf()
{
    if s.phase is Done {
        seq![s.task()]
    } else {
        seq![s.task()] + tasks_from(around, s.after(save_answer_in(around, s)))
    }
}

/// All that is asked for when file states are saved, in given surroundings.
pub open spec fn save_tasks(around: SaveSurroundings) -> Seq<SaveTask> {
    tasks_from(around, first_state())
}

/// The pending changes of each of the views are moved to the history.
pub open spec fn flushes(views: Seq<ViewId>) -> Seq<SaveTask> {
    Seq::new(views.len(), |i: int| SaveTask::Flush { id: views[i] })
}

/// Each of the states is written.
pub open spec fn writes(states: Seq<StoredState>) -> Seq<SaveTask> {
    Seq::new(states.len(), |i: int| SaveTask::Write { stored: states[i] })
}

/// What saving amounts to. If the directory can be created, the pending changes of all views are
/// moved to the history, then the editor is read, then the states are written. If not, nothing is
/// done.
pub open spec fn save_plan(around: SaveSurroundings) -> Seq<SaveTask> {
    seq![SaveTask::CreateDirectory { place: file_states_place() }] + if around.directory {
        seq![SaveTask::ListViews] + flushes(around.views) + seq![SaveTask::ReadEditor] + writes(
            states_to_save(around.editor),
        ) + seq![SaveTask::Done]
    } else {
        seq![SaveTask::Done]
    }
}

/// Saving asks for what is planned, in that order, and for nothing else.
pub proof fn law_saving_follows_plan(around: SaveSurroundings)
    ensures
        save_tasks(around) == save_plan(around),
{
    let s0 = first_state();
    let s1 = s0.after(save_answer_in(around, s0));
    assert(save_tasks(around) == seq![s0.task()] + tasks_from(around, s1));
    if around.directory {
        let s2 = s1.after(save_answer_in(around, s1));
        assert(tasks_from(around, s1) == seq![s1.task()] + tasks_from(around, s2));
        lemma_flushing(around, s2);
        assert(flushes(around.views).skip(0) =~= flushes(around.views));
        assert(save_tasks(around) =~= save_plan(around));
    }
}

proof fn lemma_flushing(around: SaveSurroundings, s: SavingState)
    requires
        s.phase == flush_phase(s.views, s.index),
        0 <= s.index <= s.views.len(),
    ensures
        tasks_from(around, s) == flushes(s.views).skip(s.index) + seq![SaveTask::ReadEditor]
            + writes(states_to_save(around.editor)) + seq![SaveTask::Done],
    decreases s.views.len() - s.index,
{
    let next = s.after(save_answer_in(around, s));
    assert(tasks_from(around, s) == seq![s.task()] + tasks_from(around, next));
    if s.index < s.views.len() {
        lemma_flushing(around, next);
        assert(flushes(s.views).skip(s.index) =~= seq![s.task()] + flushes(s.views).skip(
            s.index + 1,
        ));
    } else {
        lemma_writing(around, next);
        assert(flushes(s.views).skip(s.index) =~= seq![]);
        assert(writes(next.states).skip(0) =~= writes(next.states));
    }
    assert(tasks_from(around, s) =~= flushes(s.views).skip(s.index) + seq![SaveTask::ReadEditor]
        + writes(states_to_save(around.editor)) + seq![SaveTask::Done]);
}

proof fn lemma_writing(around: SaveSurroundings, s: SavingState)
    requires
        s.phase == write_phase(s.states, s.index),
        0 <= s.index <= s.states.len(),
    ensures
        tasks_from(around, s) == writes(s.states).skip(s.index) + seq![SaveTask::Done],
    decreases s.states.len() - s.index,
{
    if s.index < s.states.len() {
        let next = s.after(save_answer_in(around, s));
        assert(tasks_from(around, s) == seq![s.task()] + tasks_from(around, next));
        lemma_writing(around, next);
        assert(writes(s.states).skip(s.index) =~= seq![s.task()] + writes(s.states).skip(
            s.index + 1,
        ));
    } else {
        assert(writes(s.states).skip(s.index) =~= seq![]);
    }
    assert(tasks_from(around, s) =~= writes(s.states).skip(s.index) + seq![SaveTask::Done]);
}

/// Pending changes are moved to the history before the editor is read, and it is read before any
/// state is written.
pub proof fn law_flushed_before_written(around: SaveSurroundings, i: int, j: int)
    requires
        0 <= i < save_tasks(around).len(),
        0 <= j < save_tasks(around).len(),
    ensures
        save_tasks(around)[i] is Flush && save_tasks(around)[j] is ReadEditor ==> i < j,
        save_tasks(around)[i] is ReadEditor && save_tasks(around)[j] is Write ==> i < j,
        save_tasks(around)[i] is Flush && save_tasks(around)[j] is Write ==> i < j,
{
    law_saving_follows_plan(around);
}

/// If the directory can be created, the pending changes of every view are moved to the history.
pub proof fn law_every_view_is_flushed(around: SaveSurroundings, id: ViewId)
    requires
        around.directory,
        around.views.contains(id),
    ensures
        save_tasks(around).contains(SaveTask::Flush { id }),
{
    law_saving_follows_plan(around);
    let k = choose|k: int| 0 <= k < around.views.len() && around.views[k] == id;
    assert(save_plan(around)[2 + k] == SaveTask::Flush { id });
}

/// If the directory cannot be created, nothing is moved to a history and nothing is written.
pub proof fn law_nothing_without_directory(around: SaveSurroundings)
    requires
        !around.directory,
    ensures
        save_tasks(around) == seq![
            SaveTask::CreateDirectory { place: file_states_place() },
            SaveTask::Done,
        ],
{
    law_saving_follows_plan(around);
    assert(save_plan(around) =~= seq![
        SaveTask::CreateDirectory { place: file_states_place() },
        SaveTask::Done,
    ]);
}

/// A state that cannot be written keeps no other from being written.
pub proof fn law_failed_write_stops_nothing(
    around: SaveSurroundings,
    writable: spec_fn(int) -> bool,
)
    ensures
        save_tasks(around) == save_tasks(SaveSurroundings { writes: writable, ..around }),
{
    law_saving_follows_plan(around);
    law_saving_follows_plan(SaveSurroundings { writes: writable, ..around });
}

/// If the directory can be created, the history of every open document that has a file is written, to
/// the place for the file.
pub proof fn law_every_open_file_is_written(around: SaveSurroundings, d: DocumentId)
    requires
        around.directory,
        can_save_all(around.editor),
        is_open_file(around.editor, d),
    ensures
        exists|i: int|
            #![trigger save_tasks(around)[i]]
            0 <= i < save_tasks(around).len() && (save_tasks(around)[i] matches SaveTask::Write {
                stored,
            } && keeps_document(around.editor, d, stored)),
{
    let editor = around.editor;
    law_saving_follows_plan(around);
    let unshown = documents_to_save(editor);
    let shown = views_to_save(editor);
    let k = if is_shown(editor, d) {
        let v = choose|v: int|
            0 <= v < editor.tree.views@.len() && editor.tree.view_at(
                #[trigger] editor.tree.views@[v],
            ).doc == d;
        editor.tree.views@.lemma_filter_contains(has_file(editor), v);
        unshown.len() + choose|k: int|
            0 <= k < shown.len() && shown[k] == editor.tree.views@[v]
    } else {
        law_documents_to_save(editor, d);
        choose|k: int| 0 <= k < unshown.len() && unshown[k] == d
    };
    assert(keeps_document(editor, d, states_to_save(editor)[k]));
    let i = 3 + around.views.len() + k;
    assert(save_plan(around)[i] == SaveTask::Write { stored: states_to_save(editor)[k] });
    assert(save_tasks(around)[i] == save_plan(around)[i]);
}

} // verus!
