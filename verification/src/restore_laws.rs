//! What the requests that restore a session amount to.

use crate::editor::{Content, Editor, ViewId};
use crate::restore::{
    initial_state, law_restore_follows_plan, opening, plan, requests_from, Action, Request,
    RestoreState, Surroundings,
};
use crate::session::{
    editor_views, flattened, is_session_of, restoring_of, Session, SessionView,
};
use crate::session_laws::{law_focus_index_tells_focus, law_session_keeps_views};
use vstd::prelude::*;

verus! {

/// All requests by which a session is restored.
pub open spec fn restore_requests(
    around: Surroundings,
    views: Seq<SessionView>,
    focus_index: nat,
) -> Seq<Request> {
    requests_from(around, initial_state(views, focus_index as int))
}

/// A request that opens a view.
pub open spec fn is_opening() -> spec_fn(Request) -> bool {
    |r: Request| r is Open || r is NewFile
}

/// The requests that open a view, in the order in which they are made.
pub open spec fn view_openings(
    around: Surroundings,
    views: Seq<SessionView>,
    focus_index: nat,
) -> Seq<Request> {
    restore_requests(around, views, focus_index).filter(is_opening())
}

/// `action` opens the view number `i` in turn: the first view by a vertical split, and of all others
/// those with an even number by a horizontal one.
pub open spec fn splits_in_turn(action: Action, i: int) -> bool {
    &&& i == 0 ==> action == Action::VerticalSplit
    &&& i >= 1 ==> (action == Action::HorizontalSplit <==> i % 2 == 0)
}

/// `r` opens the view number `i` as it was stored: from its file if that is found, and else as a new
/// file.
pub open spec fn opens_as_stored(
    r: Request,
    around: Surroundings,
    views: Seq<SessionView>,
    i: int,
) -> bool {
    match r {
        Request::Open { path, action } => {
            &&& views[i].path == Some(path)
            &&& (around.found)(i)
            &&& splits_in_turn(action, i)
        },
        Request::NewFile { action, missing } => {
            &&& views[i].path == missing
            &&& missing is Some ==> !(around.found)(i)
            &&& splits_in_turn(action, i)
        },
        _ => false,
    }
}

/// The split by which a request opens a view.
pub open spec fn split_of(r: Request) -> Action {
    match r {
        Request::Open { action, .. } => action,
        Request::NewFile { action, .. } => action,
        _ => Action::VerticalSplit,
    }
}

/// The file of the view number `i` is found but cannot be opened.
pub open spec fn is_stuck(around: Surroundings, views: Seq<SessionView>, i: int) -> bool {
    views[i].path is Some && (around.found)(i) && !(around.opens)(i)
}

/// In every state, a request that opens a view opens it by the split that is its turn.
pub proof fn law_request_splits_in_turn(s: RestoreState)
    requires
        s.wf(),
    ensures
        s.request() is Open || s.request() is NewFile ==> splits_in_turn(
            split_of(s.request()),
            s.index,
        ),
{
}

/// Views are opened in the order in which they are stored, each from its own file or in its place, and
/// by the split that is its turn.
pub proof fn law_views_are_opened_as_stored(
    around: Surroundings,
    views: Seq<SessionView>,
    focus_index: nat,
    i: int,
)
    requires
        views.len() > 0,
        0 <= i < view_openings(around, views, focus_index).len(),
    ensures
        view_openings(around, views, focus_index).len() <= views.len(),
        opens_as_stored(view_openings(around, views, focus_index)[i], around, views, i),
{
    law_restore_follows_plan(around, views, focus_index);
    lemma_openings_as_stored(around, views, focus_index as int, 0);
}

/// After the first view the splits alternate: two views that follow each other are opened by different
/// splits.
pub proof fn law_splits_alternate(
    around: Surroundings,
    views: Seq<SessionView>,
    focus_index: nat,
    i: int,
)
    requires
        views.len() > 0,
        1 <= i < view_openings(around, views, focus_index).len() - 1,
    ensures
        ({
            let openings = view_openings(around, views, focus_index);
            split_of(openings[i]) != split_of(openings[i + 1])
        }),
{
    law_views_are_opened_as_stored(around, views, focus_index, i);
    law_views_are_opened_as_stored(around, views, focus_index, i + 1);
}

/// Where no view is stuck, every view is opened, and then the view with the stored number gets the
/// focus, if that many are open, and no other does.
pub proof fn law_all_are_opened_and_one_focused(
    around: Surroundings,
    views: Seq<SessionView>,
    focus_index: nat,
    i: int,
)
    requires
        views.len() > 0,
        forall|k: int| 0 <= k < views.len() ==> !#[trigger] is_stuck(around, views, k),
        0 <= i < restore_requests(around, views, focus_index).len(),
    ensures
        ({
            let requests = restore_requests(around, views, focus_index);
            &&& view_openings(around, views, focus_index).len() == views.len()
            &&& requests.len() > 2
            &&& requests.last() == Request::Done
            &&& focus_index < around.views.len() ==> requests[requests.len() - 2]
                == Request::Focus { id: around.views[focus_index as int] }
            &&& requests[i] is Focus ==> i == requests.len() - 2 && focus_index
                < around.views.len()
        }),
{
    law_restore_follows_plan(around, views, focus_index);
    lemma_count_openings(around, views, focus_index as int, 0, views.len() as int);
    lemma_end_of_plan(around, views, focus_index as int, 0, views.len() as int);
}

/// Where the view number `stuck` is the first that is stuck, all views up to it are asked for, nothing
/// comes after it, and no view gets the focus.
pub proof fn law_stuck_view_ends_restoring(
    around: Surroundings,
    views: Seq<SessionView>,
    focus_index: nat,
    stuck: int,
    i: int,
)
    requires
        0 <= stuck < views.len(),
        is_stuck(around, views, stuck),
        forall|k: int| 0 <= k < stuck ==> !#[trigger] is_stuck(around, views, k),
        0 <= i < restore_requests(around, views, focus_index).len(),
    ensures
        ({
            let requests = restore_requests(around, views, focus_index);
            &&& view_openings(around, views, focus_index).len() == stuck + 1
            &&& requests.len() > 2
            &&& requests.last() == Request::Failed
            &&& requests[requests.len() - 2] matches Request::Open { path, .. }
                && views[stuck].path == Some(path)
            &&& requests[i] !is Focus
        }),
{
    law_restore_follows_plan(around, views, focus_index);
    lemma_count_openings(around, views, focus_index as int, 0, stuck);
    lemma_end_of_plan(around, views, focus_index as int, 0, stuck);
}

/// Request `b` may come right after request `a`. A file is opened only after it was looked for, and a
/// new file takes the place of one only after that was looked for. After a view was opened, the state
/// of its file is restored, and at no other time.
pub open spec fn may_follow(a: Request, b: Request) -> bool {
    &&& b matches Request::Open { path, .. } ==> a == Request::Exists { path }
    &&& b matches Request::NewFile { missing: Some(path), .. } ==> a == Request::Exists { path }
    &&& a matches Request::Exists { path } ==> {
        ||| b matches Request::Open { path: opened, .. } && opened == path
        ||| b matches Request::NewFile { missing, .. } && missing == Some(path)
    }
    &&& a is Open ==> b is RestoreFileState || b is Failed
    &&& a is NewFile ==> b is RestoreFileState
    &&& b is RestoreFileState ==> a is Open || a is NewFile
    &&& a is RestoreFileState ==> b is Exists || b is NewFile || b is ListViews
    &&& a is ListViews ==> b is Focus || b is Done
    &&& a is Focus ==> b is Done
    &&& a !is Done && a !is Failed
}

/// The requests begin with the first view, and each may follow the one before it.
pub proof fn law_requests_follow_each_other(
    around: Surroundings,
    views: Seq<SessionView>,
    focus_index: nat,
    i: int,
)
    requires
        views.len() > 0,
        0 <= i < restore_requests(around, views, focus_index).len() - 1,
    ensures
        ({
            let requests = restore_requests(around, views, focus_index);
            &&& may_follow(requests[i], requests[i + 1])
            &&& match views[0].path {
                Some(path) => requests[0] == Request::Exists { path },
                None => requests[0] == Request::NewFile {
                    action: Action::VerticalSplit,
                    missing: None,
                },
            }
        }),
{
    law_restore_follows_plan(around, views, focus_index);
    lemma_plan_steps(around, views, focus_index as int, 0);
}

/// What is kept of a sequence with one request more in front.
proof fn lemma_opening_in_front(r: Request, s: Seq<Request>)
    ensures
        (seq![r] + s).filter(is_opening()) == if r is Open || r is NewFile {
            seq![r] + s.filter(is_opening())
        } else {
            s.filter(is_opening())
        },
{
    s.lemma_filter_prepend(r, is_opening());
    assert(Seq::<Request>::empty() + s.filter(is_opening()) =~= s.filter(is_opening()));
}

/// A plan begins by looking for the file of its first view, if it has one, and opening the view.
proof fn lemma_plan_begins(
    around: Surroundings,
    views: Seq<SessionView>,
    focus_index: int,
    index: int,
)
    requires
        0 <= index < views.len(),
    ensures
        ({
            let open = opening(around, views, index);
            let after = if is_stuck(around, views, index) {
                seq![Request::Failed]
            } else {
                seq![Request::RestoreFileState] + plan(around, views, focus_index, index + 1)
            };
            plan(around, views, focus_index, index) == match views[index].path {
                Some(path) => seq![Request::Exists { path }] + (seq![open] + after),
                None => seq![open] + after,
            }
        }),
{
    let s = plan(around, views, focus_index, index);
    let open = opening(around, views, index);
    if is_stuck(around, views, index) {
        let probe = Request::Exists { path: views[index].path->0 };
        assert(s =~= seq![probe] + (seq![open] + seq![Request::Failed]));
    }
}

/// The requests for the view number `index`, if it is not stuck.
spec fn head(around: Surroundings, views: Seq<SessionView>, index: int) -> Seq<Request> {
    let open = opening(around, views, index);
    match views[index].path {
        Some(path) => seq![Request::Exists { path }, open, Request::RestoreFileState],
        None => seq![open, Request::RestoreFileState],
    }
}

/// A plan is the requests for its first view and then those for the rest. It ends with a view that is
/// stuck.
proof fn lemma_plan_head(
    around: Surroundings,
    views: Seq<SessionView>,
    focus_index: int,
    index: int,
)
    requires
        0 <= index < views.len(),
    ensures
        plan(around, views, focus_index, index) == if is_stuck(around, views, index) {
            head(around, views, index).drop_last().push(Request::Failed)
        } else {
            head(around, views, index) + plan(around, views, focus_index, index + 1)
        },
{
    let s = plan(around, views, focus_index, index);
    lemma_plan_begins(around, views, focus_index, index);
    if is_stuck(around, views, index) {
        assert(s =~= head(around, views, index).drop_last().push(Request::Failed));
    } else {
        assert(s =~= head(around, views, index) + plan(around, views, focus_index, index + 1));
    }
}

/// The requests of a plan that open a view are the one for its first view and those of the rest, unless
/// the first view is stuck.
proof fn lemma_filter_plan(
    around: Surroundings,
    views: Seq<SessionView>,
    focus_index: int,
    index: int,
)
    requires
        0 <= index < views.len(),
    ensures
        plan(around, views, focus_index, index).filter(is_opening()) == seq![
            opening(around, views, index),
        ] + if is_stuck(around, views, index) {
            seq![]
        } else {
            plan(around, views, focus_index, index + 1).filter(is_opening())
        },
{
    let open = opening(around, views, index);
    let next = plan(around, views, focus_index, index + 1);
    let after = if is_stuck(around, views, index) {
        seq![Request::Failed]
    } else {
        seq![Request::RestoreFileState] + next
    };
    lemma_plan_begins(around, views, focus_index, index);
    lemma_opening_in_front(Request::RestoreFileState, next);
    if is_stuck(around, views, index) {
        lemma_opening_in_front(Request::Failed, seq![]);
        assert(after =~= seq![Request::Failed] + Seq::<Request>::empty());
        assert(Seq::<Request>::empty().filter(is_opening()) =~= seq![]) by {
            reveal(Seq::filter);
        }
    }
    lemma_opening_in_front(open, after);
    if views[index].path is Some {
        lemma_opening_in_front(Request::Exists { path: views[index].path->0 }, seq![open] + after);
    }
}

/// After the last view, no view is opened.
proof fn lemma_filter_end(around: Surroundings, views: Seq<SessionView>, focus_index: int)
    ensures
        plan(around, views, focus_index, views.len() as int).filter(is_opening()).len() == 0,
{
    let p = is_opening();
    let s = plan(around, views, focus_index, views.len() as int);
    assert(s.all(|r: Request| !p(r)));
    s.lemma_all_neg_filter_empty(p);
}

proof fn lemma_openings_as_stored(
    around: Surroundings,
    views: Seq<SessionView>,
    focus_index: int,
    index: int,
)
    requires
        0 <= index <= views.len(),
    ensures
        ({
            let openings = plan(around, views, focus_index, index).filter(is_opening());
            &&& openings.len() <= views.len() - index
            &&& forall|i: int|
                0 <= i < openings.len() ==> opens_as_stored(
                    #[trigger] openings[i],
                    around,
                    views,
                    index + i,
                )
        }),
    decreases views.len() - index,
{
    if index == views.len() {
        lemma_filter_end(around, views, focus_index);
    } else {
        let openings = plan(around, views, focus_index, index).filter(is_opening());
        let rest = plan(around, views, focus_index, index + 1).filter(is_opening());
        lemma_filter_plan(around, views, focus_index, index);
        lemma_openings_as_stored(around, views, focus_index, index + 1);
        assert forall|i: int| 0 <= i < openings.len() implies opens_as_stored(
            #[trigger] openings[i],
            around,
            views,
            index + i,
        ) by {
            if i > 0 {
                assert(openings[i] == rest[i - 1]);
            }
        }
    }
}

/// How many views are opened where `end` is the first that is stuck, or there are `end` views and none
/// is.
proof fn lemma_count_openings(
    around: Surroundings,
    views: Seq<SessionView>,
    focus_index: int,
    index: int,
    end: int,
)
    requires
        0 <= index <= end <= views.len(),
        forall|k: int| index <= k < end ==> !#[trigger] is_stuck(around, views, k),
        end < views.len() ==> is_stuck(around, views, end),
    ensures
        plan(around, views, focus_index, index).filter(is_opening()).len() == end - index + if end < views.len() {
            1int
        } else {
            0
        },
    decreases views.len() - index,
{
    if index == views.len() {
        lemma_filter_end(around, views, focus_index);
    } else {
        lemma_filter_plan(around, views, focus_index, index);
        if index < end {
            assert(!is_stuck(around, views, index));
            lemma_count_openings(around, views, focus_index, index + 1, end);
        }
    }
}

/// How a plan ends where `end` is the first view that is stuck, or there are `end` views and none is.
proof fn lemma_end_of_plan(
    around: Surroundings,
    views: Seq<SessionView>,
    focus_index: int,
    index: int,
    end: int,
)
    requires
        0 <= index <= end <= views.len(),
        0 <= focus_index,
        forall|k: int| index <= k < end ==> !#[trigger] is_stuck(around, views, k),
        end < views.len() ==> is_stuck(around, views, end),
    ensures
        ({
            let s = plan(around, views, focus_index, index);
            &&& s.len() >= if end < views.len() {
                3int
            } else {
                2 + end - index
            }
            &&& end < views.len() ==> {
                &&& s.last() == Request::Failed
                &&& s[s.len() - 2] matches Request::Open { path, .. } && views[end].path == Some(
                    path,
                )
                &&& forall|i: int| 0 <= i < s.len() ==> #[trigger] s[i] !is Focus
            }
            &&& end == views.len() ==> {
                &&& s.last() == Request::Done
                &&& focus_index < around.views.len() ==> s[s.len() - 2] == Request::Focus {
                    id: around.views[focus_index],
                }
                &&& forall|i: int|
                    0 <= i < s.len() && #[trigger] s[i] is Focus ==> i == s.len() - 2
                        && focus_index < around.views.len()
            }
        }),
    decreases views.len() - index,
{
    let s = plan(around, views, focus_index, index);
    if index < end {
        assert(!is_stuck(around, views, index));
        lemma_end_of_plan(around, views, focus_index, index + 1, end);
        lemma_plan_head(around, views, focus_index, index);
        let next = plan(around, views, focus_index, index + 1);
        let skipped = head(around, views, index).len();
        assert forall|i: int| skipped <= i < s.len() implies #[trigger] s[i] == next[i
            - skipped] by {}
        assert forall|i: int| 0 <= i < skipped implies #[trigger] s[i] !is Focus by {
            assert(s[i] == head(around, views, index)[i]);
        }
    } else if index < views.len() {
        lemma_plan_head(around, views, focus_index, index);
    }
}

proof fn lemma_plan_steps(
    around: Surroundings,
    views: Seq<SessionView>,
    focus_index: int,
    index: int,
)
    requires
        0 <= index <= views.len(),
    ensures
        ({
            let s = plan(around, views, focus_index, index);
            &&& s.len() > 0
            &&& s[0] is Exists || s[0] is ListViews || (s[0] matches Request::NewFile { missing, .. }
                && missing is None)
            &&& forall|i: int| 0 <= i < s.len() - 1 ==> may_follow(#[trigger] s[i], s[i + 1])
        }),
    decreases views.len() - index,
{
    let s = plan(around, views, focus_index, index);
    if index < views.len() {
        let next = plan(around, views, focus_index, index + 1);
        let front = head(around, views, index);
        lemma_plan_steps(around, views, focus_index, index + 1);
        lemma_plan_head(around, views, focus_index, index);
        if is_stuck(around, views, index) {
            assert(s =~= seq![front[0], front[1], Request::Failed]);
        } else {
            assert forall|i: int| 0 <= i < s.len() - 1 implies may_follow(
                #[trigger] s[i],
                s[i + 1],
            ) by {
                if i >= front.len() {
                    assert(may_follow(next[i - front.len()], next[i - front.len() + 1]));
                } else if i == front.len() - 1 {
                    assert(s[i + 1] == next[0]);
                } else {
                    assert(s[i] == front[i] && s[i + 1] == front[i + 1]);
                }
            }
        }
    }
}

/// The file of the document that the view `id` of an editor shows; none if the document is not open or
/// has no file.
pub open spec fn file_of(editor: Editor, id: ViewId) -> Option<String> {
    match editor.tree.nodes@[id].content {
        Content::View(view) if editor.documents@.contains_key(view.doc) => editor.documents@[
            view.doc
        ].path,
        _ => None,
    }
}

/// The requests by which the session of an editor is restored open the files that the views of the
/// editor showed, in the order of the views: a file that is found is opened, and for every other view
/// there is a new file.
pub proof fn law_captured_views_are_reopened(
    session: Session,
    editor: Editor,
    around: Surroundings,
    k: int,
)
    requires
        editor.tree.is_layout(editor.tree.root),
        is_session_of(session, editor),
        0 <= k < editor_views(editor).len(),
        forall|i: int| 0 <= i < editor_views(editor).len() ==> #[trigger] (around.opens)(i),
    ensures
        ({
            let openings = requests_from(around, restoring_of(session)).filter(is_opening());
            let file = file_of(editor, editor_views(editor)[k]);
            &&& openings.len() == editor_views(editor).len()
            &&& if file is Some && (around.found)(k) {
                openings[k] matches Request::Open { path, .. } && file == Some(path)
            } else {
                openings[k] matches Request::NewFile { missing, .. } && missing == file
            }
            &&& splits_in_turn(split_of(openings[k]), k)
        }),
{
    let views = flattened(session.layout);
    let focus_index = session.focus_index as nat;
    law_session_keeps_views(session, editor, k);
    assert forall|i: int| 0 <= i < views.len() implies !#[trigger] is_stuck(around, views, i) by {
        assert((around.opens)(i));
    }
    law_restore_follows_plan(around, views, focus_index);
    lemma_plan_steps(around, views, focus_index as int, 0);
    law_all_are_opened_and_one_focused(around, views, focus_index, 0);
    law_views_are_opened_as_stored(around, views, focus_index, k);
}

/// If as many views are open after the restoring as the session has, the one in the place of the view
/// that had the focus gets it.
pub proof fn law_captured_focus_is_restored(
    session: Session,
    editor: Editor,
    around: Surroundings,
    k: int,
)
    requires
        editor.tree.is_layout(editor.tree.root),
        is_session_of(session, editor),
        editor_views(editor).no_duplicates(),
        0 <= k < editor_views(editor).len(),
        editor_views(editor)[k] == editor.tree.focus,
        around.views.len() == editor_views(editor).len(),
        forall|i: int| 0 <= i < editor_views(editor).len() ==> #[trigger] (around.opens)(i),
    ensures
        ({
            let requests = requests_from(around, restoring_of(session));
            requests[requests.len() - 2] == Request::Focus { id: around.views[k] }
        }),
{
    let views = flattened(session.layout);
    let focus_index = session.focus_index as nat;
    law_session_keeps_views(session, editor, k);
    law_focus_index_tells_focus(session, editor, k);
    assert forall|i: int| 0 <= i < views.len() implies !#[trigger] is_stuck(around, views, i) by {
        assert((around.opens)(i));
    }
    law_restore_follows_plan(around, views, focus_index);
    lemma_plan_steps(around, views, focus_index as int, 0);
    law_all_are_opened_and_one_focused(around, views, focus_index, 0);
}

} // verus!
