//! Restoring a session, step by step: which request goes to the editor next, given its answers.

use crate::editor::{clone_path, ViewId};
use crate::restore_laws::{law_request_splits_in_turn, split_of, splits_in_turn};
use crate::session::SessionView;
use vstd::prelude::*;

verus! {

/// How a view is opened.
#[derive(Clone, Copy, PartialEq, Eq, Debug, Structural)]
pub enum Action {
    HorizontalSplit,
    VerticalSplit,
}

/// Why a session cannot be restored.
#[derive(Clone, Copy, PartialEq, Eq, Debug, Structural)]
pub enum RestoreError {
    /// There are no views in the session.
    NoViews,
}

impl RestoreError {
    /// What is wrong, in words.
    pub fn message(self) -> (text: &'static str)
        ensures
            text@ == "Session has no views to restore"@,
    {
        "Session has no views to restore"
    }
}

/// What the editor is asked to do.
pub enum Request {
    /// Find out whether there is a file at `path`.
    Exists { path: String },
    /// Open the file at `path`.
    Open { path: String, action: Action },
    /// Open a new file, in place of the file `missing` if there is one that was not found.
    NewFile { action: Action, missing: Option<String> },
    /// Restore the state that was saved for the file that was just opened.
    RestoreFileState,
    /// List the views that are open now.
    ListViews,
    /// Give a view the focus.
    Focus { id: ViewId },
    /// Nothing more: the session is restored.
    Done,
    /// Nothing more: a file could not be opened.
    Failed,
}

/// What the editor answers.
pub enum Reply {
    /// Whether there is a file at the path.
    Exists(bool),
    /// The request was carried out.
    Finished,
    /// The file could not be opened.
    OpenFailed,
    /// The views that are open now.
    Views(Vec<ViewId>),
}

/// What the editor answers, as a mathematical value.
pub enum Answer {
    Exists(bool),
    Finished,
    OpenFailed,
    Views(Seq<ViewId>),
}

impl View for Reply {
    type V = Answer;

    open spec fn view(&self) -> Answer {
        match *self {
            Reply::Exists(found) => Answer::Exists(found),
            Reply::Finished => Answer::Finished,
            Reply::OpenFailed => Answer::OpenFailed,
            Reply::Views(ids) => Answer::Views(ids@),
        }
    }
}

/// How far the restoring of a session has come with the view at hand.
#[derive(Clone, Copy, PartialEq, Eq, Debug, Structural)]
pub enum Stage {
    /// Its file is looked for.
    Probe,
    /// Its file is opened.
    Open,
    /// A new file is opened for it.
    Create,
    /// The state saved for its file is restored.
    Settle,
    /// All views are open, and the editor lists its views.
    List,
    /// A view gets the focus.
    Focus(ViewId),
    /// All is done.
    Done,
    /// A file could not be opened.
    Failed,
}

/// The restoring of a session under way.
pub struct Restore {
    views: Vec<SessionView>,
    focus_index: usize,
    index: usize,
    stage: Stage,
}

/// The state of the restoring of a session.
#[verifier::ext_equal]
pub struct RestoreState {
    pub views: Seq<SessionView>,
    pub focus_index: int,
    /// The view at hand.
    pub index: int,
    pub stage: Stage,
}

impl View for Restore {
    type V = RestoreState;

    closed spec fn view(&self) -> RestoreState {
        RestoreState {
            views: self.views@,
            focus_index: self.focus_index as int,
            index: self.index as int,
            stage: self.stage,
        }
    }
}

/// How the view number `index` is opened, counted from zero: the even ones by a horizontal split,
/// all but the first; the first and the odd ones by a vertical split.
pub open spec fn action_for(index: int) -> Action {
    if index > 0 && index % 2 == 0 {
        Action::HorizontalSplit
    } else {
        Action::VerticalSplit
    }
}

/// Where the restoring begins with the view number `index`: a view with a file begins with looking
/// for it; after the last view comes the focus.
pub open spec fn stage_at(views: Seq<SessionView>, index: int) -> Stage {
    if index >= views.len() {
        Stage::List
    } else if views[index].path is Some {
        Stage::Probe
    } else {
        Stage::Create
    }
}

/// The state in which the restoring begins.
pub open spec fn initial_state(views: Seq<SessionView>, focus_index: int) -> RestoreState {
    RestoreState { views, focus_index, index: 0, stage: stage_at(views, 0) }
}

impl RestoreState {
    /// There is a view at hand while there is something to do with one, and a file to look for or
    /// to open while one is looked for or opened.
    pub open spec fn wf(self) -> bool {
        &&& 0 <= self.focus_index
        &&& match self.stage {
            Stage::Probe | Stage::Open => 0 <= self.index < self.views.len()
                && self.views[self.index].path is Some,
            Stage::Create | Stage::Settle => 0 <= self.index < self.views.len(),
            _ => 0 <= self.index <= self.views.len(),
        }
    }

    /// What the editor is asked to do in this state.
    pub open spec fn request(self) -> Request {
        match self.stage {
            Stage::Probe => Request::Exists { path: self.views[self.index].path->0 },
            Stage::Open => Request::Open {
                path: self.views[self.index].path->0,
                action: action_for(self.index),
            },
            Stage::Create => Request::NewFile {
                action: action_for(self.index),
                missing: self.views[self.index].path,
            },
            Stage::Settle => Request::RestoreFileState,
            Stage::List => Request::ListViews,
            Stage::Focus(id) => Request::Focus { id },
            Stage::Done => Request::Done,
            Stage::Failed => Request::Failed,
        }
    }

    /// The answer is one to the request of this state.
    pub open spec fn accepts(self, answer: Answer) -> bool {
        match self.stage {
            Stage::Probe => answer is Exists,
            Stage::Open => answer is Finished || answer is OpenFailed,
            Stage::Create | Stage::Settle | Stage::Focus(_) => answer is Finished,
            Stage::List => answer is Views,
            Stage::Done | Stage::Failed => false,
        }
    }

    /// The state after an answer.
    pub open spec fn after(self, answer: Answer) -> RestoreState {
        match (self.stage, answer) {
            (Stage::Probe, Answer::Exists(found)) => RestoreState {
                stage: if found {
                    Stage::Open
                } else {
                    Stage::Create
                },
                ..self
            },
            (Stage::Open, Answer::OpenFailed) => RestoreState { stage: Stage::Failed, ..self },
            (Stage::Open, _) | (Stage::Create, _) => RestoreState { stage: Stage::Settle, ..self },
            (Stage::Settle, _) => RestoreState {
                index: self.index + 1,
                stage: stage_at(self.views, self.index + 1),
                ..self
            },
            (Stage::List, Answer::Views(ids)) => RestoreState {
                stage: if self.focus_index < ids.len() {
                    Stage::Focus(ids[self.focus_index])
                } else {
                    Stage::Done
                },
                ..self
            },
            (Stage::Focus(_), _) => RestoreState { stage: Stage::Done, ..self },
            _ => self,
        }
    }
}

impl Restore {
    /// Begins to restore the views of a session.
    pub(crate) fn start(views: Vec<SessionView>, focus_index: usize) -> (res: Result<
        Restore,
        RestoreError,
    >)
        ensures
            match res {
                Ok(restore) => views@.len() > 0 && restore@ == initial_state(
                    views@,
                    focus_index as int,
                ) && restore@.wf(),
                Err(e) => views@.len() == 0 && e == RestoreError::NoViews,
            },
    {
        if views.len() == 0 {
            return Err(RestoreError::NoViews);
        }
        let stage = stage_of(&views, 0);
        Ok(Restore { views, focus_index, index: 0, stage })
    }

    /// What the editor is asked to do next.
    pub fn request(&self) -> (request: Request)
        requires
            self@.wf(),
        ensures
            request == self@.request(),
            request is Open || request is NewFile ==> splits_in_turn(
                split_of(request),
                self@.index,
            ),
    {
        proof {
            law_request_splits_in_turn(self@);
        }
        match self.stage {
            Stage::Probe => match &self.views[self.index].path {
                Some(path) => Request::Exists { path: path.clone() },
                None => Request::Failed,
            },
            Stage::Open => match &self.views[self.index].path {
                Some(path) => Request::Open {
                    path: path.clone(),
                    action: split_action(self.index),
                },
                None => Request::Failed,
            },
            Stage::Create => Request::NewFile {
                action: split_action(self.index),
                missing: clone_path(&self.views[self.index].path),
            },
            Stage::Settle => Request::RestoreFileState,
            Stage::List => Request::ListViews,
            Stage::Focus(id) => Request::Focus { id },
            Stage::Done => Request::Done,
            Stage::Failed => Request::Failed,
        }
    }

    /// Takes the editor's answer to the request.
    pub fn advance(&mut self, reply: Reply)
        requires
            old(self)@.wf(),
            old(self)@.accepts(reply@),
        ensures
            final(self)@.wf(),
            final(self)@ == old(self)@.after(reply@),
    {
        match self.stage {
            Stage::Probe => {
                if let Reply::Exists(found) = reply {
                    self.stage = if found {
                        Stage::Open
                    } else {
                        Stage::Create
                    };
                }
            },
            Stage::Open => {
                self.stage = match reply {
                    Reply::OpenFailed => Stage::Failed,
                    _ => Stage::Settle,
                };
            },
            Stage::Create => {
                self.stage = Stage::Settle;
            },
            Stage::Settle => {
                assert(self.index < self.views.len());
                self.index = self.index + 1;
                self.stage = stage_of(&self.views, self.index);
            },
            Stage::List => {
                if let Reply::Views(ids) = reply {
                    self.stage = if self.focus_index < ids.len() {
                        Stage::Focus(ids[self.focus_index])
                    } else {
                        Stage::Done
                    };
                }
            },
            Stage::Focus(_) => {
                self.stage = Stage::Done;
            },
            Stage::Done | Stage::Failed => {},
        }
    }
}

/// Where the restoring begins with the view number `index`.
fn stage_of(views: &Vec<SessionView>, index: usize) -> (stage: Stage)
    ensures
        stage == stage_at(views@, index as int),
{
    if index >= views.len() {
        Stage::List
    } else {
        match &views[index].path {
            Some(_) => Stage::Probe,
            None => Stage::Create,
        }
    }
}

/// How the view number `index` is opened.
fn split_action(index: usize) -> (action: Action)
    ensures
        action == action_for(index as int),
{
    if index > 0 && index % 2 == 0 {
        Action::HorizontalSplit
    } else {
        Action::VerticalSplit
    }
}

/// An editor and its files, as far as they decide how a session is restored.
pub struct Surroundings {
    /// Whether the file of the view with a given number is found.
    pub found: spec_fn(int) -> bool,
    /// Whether the file of the view with a given number can be opened.
    pub opens: spec_fn(int) -> bool,
    /// The views that are open after all views of the session have been.
    pub views: Seq<ViewId>,
}

/// The answer that a request gets in given surroundings.
pub open spec fn answer_in(around: Surroundings, s: RestoreState) -> Answer {
    match s.stage {
        Stage::Probe => Answer::Exists((around.found)(s.index)),
        Stage::Open => if (around.opens)(s.index) {
            Answer::Finished
        } else {
            Answer::OpenFailed
        },
        Stage::List => Answer::Views(around.views),
        _ => Answer::Finished,
    }
}

/// A bound on how many answers are still to come.
pub open spec fn steps_left(s: RestoreState) -> int {
    let views_left = s.views.len() - s.index;
    match s.stage {
        Stage::Probe => 4 * views_left + 3,
        Stage::Open | Stage::Create => 4 * views_left + 2,
        Stage::Settle => 4 * views_left + 1,
        Stage::List => 2,
        Stage::Focus(_) => 1,
        Stage::Done | Stage::Failed => 0,
    }
}

/// All requests that are made from a state on, in given surroundings.
pub open spec fn requests_from(around: Surroundings, s: RestoreState) -> Seq<Request>
    decreases steps_left(s),
    when s.wf()
{
    if s.stage is Done || s.stage is Failed {
        seq![s.request()]
    } else {
        seq![s.request()] + requests_from(around, s.after(answer_in(around, s)))
    }
}

/// What restoring amounts to from the view number `index` on. A view with a file that is found is
/// opened from it, any other as a new file; then the state saved for the file is restored. The
/// first file that cannot be opened ends it. After the last view, the view with the number that was
/// stored gets the focus, if that many views are open.
pub open spec fn plan(
    around: Surroundings,
    views: Seq<SessionView>,
    focus_index: int,
    index: int,
) -> Seq<Request>
    decreases views.len() - index,
{
    if index >= views.len() {
        seq![Request::ListViews] + if focus_index < around.views.len() {
            seq![Request::Focus { id: around.views[focus_index] }, Request::Done]
        } else {
            seq![Request::Done]
        }
    } else {
        let action = action_for(index);
        let rest = seq![Request::RestoreFileState] + plan(around, views, focus_index, index + 1);
        match views[index].path {
            None => seq![Request::NewFile { action, missing: None }] + rest,
            Some(path) => seq![Request::Exists { path }] + if !(around.found)(index) {
                seq![Request::NewFile { action, missing: Some(path) }] + rest
            } else if (around.opens)(index) {
                seq![Request::Open { path, action }] + rest
            } else {
                seq![Request::Open { path, action }, Request::Failed]
            },
        }
    }
}

/// Restoring a session makes the requests that are planned, in that order, and no others.
pub proof fn law_restore_follows_plan(
    around: Surroundings,
    views: Seq<SessionView>,
    focus_index: nat,
)
    requires
        views.len() > 0,
    ensures
        requests_from(around, initial_state(views, focus_index as int)) == plan(
            around,
            views,
            focus_index as int,
            0,
        ),
{
    lemma_follows_plan(around, views, focus_index, 0);
}

proof fn lemma_follows_plan(
    around: Surroundings,
    views: Seq<SessionView>,
    focus_index: nat,
    index: nat,
)
    requires
        index <= views.len(),
    ensures
        requests_from(
            around,
            RestoreState {
                views,
                focus_index: focus_index as int,
                index: index as int,
                stage: stage_at(views, index as int),
            },
        ) == plan(around, views, focus_index as int, index as int),
    decreases views.len() - index,
{
    let focus_index = focus_index as int;
    let index = index as int;
    let s0 = RestoreState { views, focus_index, index, stage: stage_at(views, index) };
    let s1 = s0.after(answer_in(around, s0));
    let s2 = s1.after(answer_in(around, s1));
    if index == views.len() {
        assert(requests_from(around, s0) == seq![s0.request()] + requests_from(around, s1));
        if focus_index < around.views.len() {
            assert(requests_from(around, s1) == seq![s1.request()] + requests_from(around, s2));
            assert(requests_from(around, s1) =~= seq![s1.request(), Request::Done]);
        }
    } else {
        lemma_follows_plan(around, views, focus_index as nat, (index + 1) as nat);
        let rest = seq![Request::RestoreFileState] + plan(around, views, focus_index, index + 1);
        let settling = RestoreState { stage: Stage::Settle, ..s0 };
        assert(settling.after(answer_in(around, settling)) == (RestoreState {
            views,
            focus_index,
            index: index + 1,
            stage: stage_at(views, index + 1),
        }));
        assert(requests_from(around, settling) == rest);
        assert(requests_from(around, s0) == seq![s0.request()] + requests_from(around, s1));
        if views[index].path is Some {
            assert(requests_from(around, s1) == seq![s1.request()] + requests_from(around, s2));
            if (around.found)(index) && !(around.opens)(index) {
                assert(requests_from(around, s1) =~= seq![s1.request(), Request::Failed]);
            }
        }
    }
}

/// A request that opens a view.
pub open spec fn opens_view() -> spec_fn(Request) -> bool {
    |r: Request| r is Open || r is NewFile
}

/// The request that opens the view number `index`.
pub open spec fn opening(
    around: Surroundings,
    views: Seq<SessionView>,
    index: int,
) -> Request {
    match views[index].path {
        Some(path) if (around.found)(index) => Request::Open { path, action: action_for(index) },
        missing => Request::NewFile { action: action_for(index), missing },
    }
}

/// Where every file that is found can be opened, restoring a session opens every one of its views
/// once, in their order.
pub proof fn law_every_view_is_opened(
    around: Surroundings,
    views: Seq<SessionView>,
    focus_index: nat,
)
    requires
        views.len() > 0,
        forall|i: int|
            0 <= i < views.len() && (around.found)(i) ==> #[trigger] (around.opens)(i),
    ensures
        requests_from(around, initial_state(views, focus_index as int)).filter(opens_view())
            == Seq::new(views.len(), |i: int| opening(around, views, i)),
{
    law_restore_follows_plan(around, views, focus_index);
    lemma_openings(around, views, focus_index as int, 0);
    assert(Seq::new(views.len(), |i: int| opening(around, views, i)) =~= openings_from(
        around,
        views,
        0,
    ));
}

/// The requests that open the views from number `index` on.
spec fn openings_from(around: Surroundings, views: Seq<SessionView>, index: int) -> Seq<Request> {
    Seq::new((views.len() - index) as nat, |i: int| opening(around, views, index + i))
}

proof fn lemma_openings(
    around: Surroundings,
    views: Seq<SessionView>,
    focus_index: int,
    index: int,
)
    requires
        0 <= index <= views.len(),
        forall|i: int|
            0 <= i < views.len() && (around.found)(i) ==> #[trigger] (around.opens)(i),
    ensures
        plan(around, views, focus_index, index).filter(opens_view()) == openings_from(
            around,
            views,
            index,
        ),
    decreases views.len() - index,
{
    if index == views.len() {
        lemma_no_openings_at_end(around, views, focus_index);
        assert(openings_from(around, views, index) =~= seq![]);
    } else {
        assert((around.found)(index) ==> (around.opens)(index));
        lemma_openings(around, views, focus_index, index + 1);
        lemma_opening_of_view(around, views, focus_index, index);
        assert(openings_from(around, views, index) =~= seq![opening(around, views, index)]
            + openings_from(around, views, index + 1));
    }
}

/// After the last view, no view is opened.
proof fn lemma_no_openings_at_end(
    around: Surroundings,
    views: Seq<SessionView>,
    focus_index: int,
)
    ensures
        plan(around, views, focus_index, views.len() as int).filter(opens_view()) == Seq::<
            Request,
        >::empty(),
{
    let list = seq![Request::ListViews];
    let done = seq![Request::Done];
    lemma_filter_single(Request::ListViews);
    lemma_filter_single(Request::Done);
    let end = if focus_index < around.views.len() {
        let focus = Request::Focus { id: around.views[focus_index] };
        lemma_filter_single(focus);
        Seq::filter_distributes_over_add(seq![focus], done, opens_view());
        seq![focus] + done
    } else {
        done
    };
    Seq::filter_distributes_over_add(list, end, opens_view());
    assert(plan(around, views, focus_index, views.len() as int) =~= list + end);
}

/// For the view at hand one view is opened, and then those that follow.
proof fn lemma_opening_of_view(
    around: Surroundings,
    views: Seq<SessionView>,
    focus_index: int,
    index: int,
)
    requires
        0 <= index < views.len(),
        (around.found)(index) ==> (around.opens)(index),
    ensures
        plan(around, views, focus_index, index).filter(opens_view()) == seq![
            opening(around, views, index),
        ] + plan(around, views, focus_index, index + 1).filter(opens_view()),
{
    let p = opens_view();
    let rest = plan(around, views, focus_index, index + 1);
    let settle = seq![Request::RestoreFileState];
    let open = seq![opening(around, views, index)];
    lemma_filter_single(Request::RestoreFileState);
    lemma_filter_single(opening(around, views, index));
    Seq::filter_distributes_over_add(settle, rest, p);
    Seq::filter_distributes_over_add(open, settle + rest, p);
    assert(settle.filter(p) + rest.filter(p) =~= rest.filter(p));
    if views[index].path is Some {
        let probe = Request::Exists { path: views[index].path->0 };
        lemma_filter_single(probe);
        Seq::filter_distributes_over_add(seq![probe], open + (settle + rest), p);
        assert(plan(around, views, focus_index, index) =~= seq![probe] + (open + (settle + rest)));
    } else {
        assert(plan(around, views, focus_index, index) =~= open + (settle + rest));
    }
}

proof fn lemma_filter_single(r: Request)
    ensures
        seq![r].filter(opens_view()) == if opens_view()(r) {
            seq![r]
        } else {
            seq![]
        },
{
    reveal_with_fuel(Seq::filter, 2);
    assert(seq![r].drop_last() =~= seq![]);
    assert(seq![r].filter(opens_view()) =~= if opens_view()(r) {
        seq![r]
    } else {
        seq![]
    });
}

} // verus!
