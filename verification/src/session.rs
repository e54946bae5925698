//! Sessions: the open views of an editor as they are stored and restored.

use crate::editor::{
    clone_path, layout_links, lemma_views_are_views, views_in, views_in_all, Content, DocumentView,
    Editor, Layout, Tree, ViewId,
};
use crate::forest::{lemma_tree_children, tree_of, unfolds, well_founded, Unfolding};
use crate::restore::{initial_state, Restore, RestoreError, RestoreState};
use crate::session_laws::{keeps_view, law_session_keeps_views};
use vstd::prelude::*;

verus! {

/// A stored session.
pub struct Session {
    pub version: u32,
    pub working_directory: String,
    pub layout: SessionNode,
    /// Which of the views, counted from the left, has the focus.
    pub focus_index: usize,
}

/// A node of a stored layout.
pub enum SessionNode {
    View(SessionView),
    Container { layout: SessionLayout, children: Vec<SessionNode> },
}

/// How the children of a stored container lie.
#[derive(Clone, Copy, PartialEq, Eq, Debug, Structural)]
pub enum SessionLayout {
    Horizontal,
    Vertical,
}

/// A stored view.
pub struct SessionView {
    pub path: Option<String>,
    pub anchor: usize,
    pub head: usize,
    pub scroll_anchor: usize,
    pub scroll_v_offset: usize,
    pub scroll_h_offset: usize,
}

impl Clone for SessionView {
    fn clone(&self) -> (res: Self)
        ensures
            res == *self,
    {
        SessionView {
            path: clone_path(&self.path),
            anchor: self.anchor,
            head: self.head,
            scroll_anchor: self.scroll_anchor,
            scroll_v_offset: self.scroll_v_offset,
            scroll_h_offset: self.scroll_h_offset,
        }
    }
}

/// Two stored layouts are the same: same views and containers in the same order.
pub open spec fn same_layout(a: SessionNode, b: SessionNode) -> bool
    decreases a,
{
    match (a, b) {
        (SessionNode::View(va), SessionNode::View(vb)) => va == vb,
        (
            SessionNode::Container { layout: la, children: ca },
            SessionNode::Container { layout: lb, children: cb },
        ) => {
            &&& la == lb
            &&& ca@.len() == cb@.len()
            &&& forall|k: int| 0 <= k < ca@.len() ==> same_layout(#[trigger] ca@[k], cb@[k])
        },
        _ => false,
    }
}

impl Clone for SessionNode {
    fn clone(&self) -> (res: Self)
        ensures
            same_layout(*self, res),
        decreases self,
    {
        match self {
            SessionNode::View(sv) => SessionNode::View(sv.clone()),
            SessionNode::Container { layout, children } => {
                let mut copies: Vec<SessionNode> = Vec::new();
                let mut i: usize = 0;
                while i < children.len()
                    invariant
                        i <= children@.len(),
                        *self matches SessionNode::Container { children: cs, .. } && cs
                            == *children,
                        copies@.len() == i,
                        forall|k: int|
                            0 <= k < i ==> same_layout(#[trigger] children@[k], copies@[k]),
                    decreases children@.len() - i,
                {
                    let copy = children[i].clone();
                    copies.push(copy);
                    i += 1;
                }
                SessionNode::Container { layout: *layout, children: copies }
            },
        }
    }
}

/// What is stored of a view: the file, the primary selection and the scroll position; of a view
/// whose document is not open, no file and zeros.
pub open spec fn session_view(editor: Editor, view: DocumentView) -> SessionView {
    match editor.doc_of(view) {
        Some(doc) => SessionView {
            path: doc.path,
            anchor: doc.selections@[view.id].anchor,
            head: doc.selections@[view.id].head,
            scroll_anchor: doc.view_offsets@[view.id].anchor,
            scroll_v_offset: doc.view_offsets@[view.id].vertical_offset,
            scroll_h_offset: doc.view_offsets@[view.id].horizontal_offset,
        },
        None => SessionView {
            path: None,
            anchor: 0,
            head: 0,
            scroll_anchor: 0,
            scroll_v_offset: 0,
            scroll_h_offset: 0,
        },
    }
}

/// What is stored of how a container's children lie.
pub open spec fn session_layout(layout: Layout) -> SessionLayout {
    match layout {
        Layout::Horizontal => SessionLayout::Horizontal,
        Layout::Vertical => SessionLayout::Vertical,
    }
}

/// `node` is what is stored of the node `id` and of all below it.
pub open spec fn describes(editor: Editor, id: ViewId, node: SessionNode) -> bool
    decreases node,
{
    &&& editor.tree.nodes@.contains_key(id)
    &&& match (editor.tree.nodes@[id].content, node) {
        (Content::View(view), SessionNode::View(sv)) => sv == session_view(editor, view),
        (Content::Container(c), SessionNode::Container { layout, children }) => {
            &&& layout == session_layout(c.layout)
            &&& children@.len() == c.children@.len()
            &&& forall|k: int|
                0 <= k < children@.len() ==> describes(
                    editor,
                    c.children@[k],
                    #[trigger] children@[k],
                )
        },
        _ => false,
    }
}

/// The views of a stored layout, from left to right.
pub open spec fn flattened(node: SessionNode) -> Seq<SessionView>
    decreases node,
{
    match node {
        SessionNode::View(sv) => seq![sv],
        SessionNode::Container { children, .. } => flattened_all(children@),
    }
}

/// The views of several stored layouts, from left to right.
pub open spec fn flattened_all(nodes: Seq<SessionNode>) -> Seq<SessionView>
    decreases nodes,
{
    if nodes.len() == 0 {
        seq![]
    } else {
        flattened_all(nodes.drop_last()) + flattened(nodes.last())
    }
}

/// The number of the view that has the focus, where views are numbered from `start` on: that of its
/// last occurrence among `ids`, and `before` if it does not occur.
pub open spec fn focus_after(ids: Seq<ViewId>, focus: ViewId, start: int, before: int) -> int
    decreases ids.len(),
{
    if ids.len() == 0 {
        before
    } else if ids.last() == focus {
        start + ids.len() - 1
    } else {
        focus_after(ids.drop_last(), focus, start, before)
    }
}

proof fn lemma_focus_concat(
    a: Seq<ViewId>,
    b: Seq<ViewId>,
    focus: ViewId,
    start: int,
    before: int,
)
    ensures
        focus_after(a + b, focus, start, before) == focus_after(
            b,
            focus,
            start + a.len(),
            focus_after(a, focus, start, before),
        ),
    decreases b.len(),
{
    if b.len() == 0 {
        assert(a + b =~= a);
    } else {
        assert((a + b).drop_last() =~= a + b.drop_last());
        lemma_focus_concat(a, b.drop_last(), focus, start, before);
    }
}

/// Appends the views of a stored layout, from left to right.
pub fn flatten_views(node: &SessionNode, out: &mut Vec<SessionView>)
    ensures
        final(out)@ == old(out)@ + flattened(*node),
    decreases node,
{
    match node {
        SessionNode::View(sv) => {
            out.push(sv.clone());
            assert(out@ =~= old(out)@ + seq![*sv]);
        },
        SessionNode::Container { children, .. } => {
            let ghost before = out@;
            let mut i: usize = 0;
            assert(before + flattened_all(children@.take(0)) =~= before);
            while i < children.len()
                invariant
                    i <= children@.len(),
                    node matches SessionNode::Container { children: cs, .. } && cs == *children,
                    out@ == before + flattened_all(children@.take(i as int)),
                decreases children@.len() - i,
            {
                flatten_views(&children[i], out);
                i += 1;
                assert(children@.take(i as int).drop_last() =~= children@.take(i - 1));
                assert(out@ =~= before + flattened_all(children@.take(i as int)));
            }
            assert(children@.take(i as int) =~= children@);
        },
    }
}

/// The document of every one of the views `ids` knows the view.
pub open spec fn all_ready(editor: Editor, ids: Seq<ViewId>) -> bool {
    forall|k: int| 0 <= k < ids.len() ==> editor.view_ready(#[trigger] ids[k])
}

/// What is stored of one view.
fn serialize_view(editor: &Editor, view: &DocumentView) -> (sv: SessionView)
    requires
        editor.doc_of(*view) matches Some(doc) ==> {
            &&& doc.selections@.contains_key(view.id)
            &&& doc.view_offsets@.contains_key(view.id)
        },
    ensures
        sv == session_view(*editor, *view),
{
    match editor.documents.get(&view.doc) {
        Some(doc) => {
            let primary = doc.selections.get(&view.id).unwrap();
            let offset = doc.view_offsets.get(&view.id).unwrap();
            SessionView {
                path: clone_path(&doc.path),
                anchor: primary.anchor,
                head: primary.head,
                scroll_anchor: offset.anchor,
                scroll_v_offset: offset.vertical_offset,
                scroll_h_offset: offset.horizontal_offset,
            }
        },
        None => SessionView {
            path: None,
            anchor: 0,
            head: 0,
            scroll_anchor: 0,
            scroll_v_offset: 0,
            scroll_h_offset: 0,
        },
    }
}

/// What is stored of the node `node_id` and of all below it. Counts the views on, and notes the
/// number of the one that has the focus.
pub fn serialize_node(
    editor: &Editor,
    node_id: ViewId,
    focus_index: &mut usize,
    view_counter: &mut usize,
) -> (node: SessionNode)
    requires
        editor.tree.is_layout(node_id),
        all_ready(*editor, views_in(editor.tree, editor.tree.below(node_id))),
        *old(view_counter) + views_in(editor.tree, editor.tree.below(node_id)).len() <= usize::MAX,
    ensures
        describes(*editor, node_id, node),
        *final(view_counter) == *old(view_counter) + views_in(
            editor.tree,
            editor.tree.below(node_id),
        ).len(),
        *final(focus_index) == focus_after(
            views_in(editor.tree, editor.tree.below(node_id)),
            editor.tree.focus,
            *old(view_counter) as int,
            *old(focus_index) as int,
        ),
    decreases editor.tree.below(node_id),
{
    let ghost links = layout_links(editor.tree);
    let ghost t = editor.tree.below(node_id);
    proof {
        lemma_tree_children(links, node_id as int);
    }
    match &editor.tree.node(node_id).content {
        Content::View(view) => {
            assert(views_in(editor.tree, t) == seq![node_id]);
            assert(editor.view_ready(views_in(editor.tree, t)[0]));
            proof {
                reveal_with_fuel(focus_after, 2);
            }
            if editor.tree.focus == node_id {
                *focus_index = *view_counter;
            }
            *view_counter = *view_counter + 1;
            SessionNode::View(serialize_view(editor, view))
        },
        Content::Container(container) => {
            let layout = match container.layout {
                Layout::Horizontal => SessionLayout::Horizontal,
                Layout::Vertical => SessionLayout::Vertical,
            };
            let ghost counted = *view_counter as int;
            let ghost noted = *focus_index as int;
            let ghost ids = views_in_all(editor.tree, t.children);
            let mut children: Vec<SessionNode> = Vec::new();
            let mut i: usize = 0;
            while i < container.children.len()
                invariant
                    links == layout_links(editor.tree),
                    editor.tree.is_layout(node_id),
                    t == editor.tree.below(node_id),
                    editor.tree.nodes@.contains_key(node_id),
                    editor.tree.nodes@[node_id].content == Content::Container(*container),
                    t.children.len() == container.children@.len(),
                    forall|k: int|
                        #![trigger links(node_id as int)->0[k]]
                        0 <= k < t.children.len() ==> well_founded(
                            links,
                            links(node_id as int)->0[k],
                        ) && tree_of(links, links(node_id as int)->0[k])
                            == t.children[k],
                    ids == views_in_all(editor.tree, t.children),
                    all_ready(*editor, ids),
                    counted + ids.len() <= usize::MAX,
                    i <= container.children@.len(),
                    children@.len() == i,
                    forall|k: int|
                        0 <= k < i ==> describes(
                            *editor,
                            container.children@[k],
                            #[trigger] children@[k],
                        ),
                    *view_counter == counted + views_in_all(
                        editor.tree,
                        t.children.take(i as int),
                    ).len(),
                    *focus_index == focus_after(
                        views_in_all(editor.tree, t.children.take(i as int)),
                        editor.tree.focus,
                        counted,
                        noted,
                    ),
                decreases container.children@.len() - i,
            {
                let child_id: ViewId = container.children[i];
                let ghost done = views_in_all(editor.tree, t.children.take(i as int));
                let ghost here = views_in(editor.tree, t.children[i as int]);
                proof {
                    assert(links(node_id as int)->0[i as int] == child_id as int);
                    assert(t.children.take(i + 1).drop_last() =~= t.children.take(i as int));
                    lemma_views_prefix(editor.tree, t.children, i + 1);
                    let both = views_in_all(editor.tree, t.children.take(i + 1));
                    assert(both == done + here);
                    assert forall|k: int| 0 <= k < here.len() implies editor.view_ready(
                        #[trigger] here[k],
                    ) by {
                        assert(both[done.len() + k] == here[k]);
                        assert(ids[done.len() + k] == both[done.len() + k]);
                    }
                    lemma_focus_concat(done, here, editor.tree.focus, counted, noted);
                }
                let child = serialize_node(editor, child_id, focus_index, view_counter);
                children.push(child);
                i += 1;
            }
            assert(t.children.take(i as int) =~= t.children);
            SessionNode::Container { layout, children }
        },
    }
}

/// The views of the first of several trees come first among the views of all.
proof fn lemma_views_prefix(tree: Tree, ts: Seq<Unfolding>, m: int)
    requires
        0 <= m <= ts.len(),
    ensures
        views_in_all(tree, ts.take(m)).len() <= views_in_all(tree, ts).len(),
        views_in_all(tree, ts.take(m)) == views_in_all(tree, ts).take(
            views_in_all(tree, ts.take(m)).len() as int,
        ),
    decreases ts.len(),
{
    if m == ts.len() {
        assert(ts.take(m) =~= ts);
    } else {
        lemma_views_prefix(tree, ts.drop_last(), m);
        assert(ts.drop_last().take(m) =~= ts.take(m));
    }
}

/// The views of an editor, from left to right.
pub open spec fn editor_views(editor: Editor) -> Seq<ViewId> {
    views_in(editor.tree, editor.tree.below(editor.tree.root))
}

/// The session of an editor can be stored: its views form a layout, their documents know them, and
/// they can be counted.
pub open spec fn can_be_stored(editor: Editor) -> bool {
    &&& editor.tree.is_layout(editor.tree.root)
    &&& all_ready(editor, editor_views(editor))
    &&& editor_views(editor).len() <= usize::MAX
}

/// Whether the session of an editor can be stored.
pub fn is_storable(editor: &Editor) -> (res: bool)
    ensures
        res == can_be_stored(*editor),
{
    if !editor.tree.has_layout(editor.tree.root) {
        return false;
    }
    let ids = editor.tree.views_below(editor.tree.root);
    proof {
        let t = editor.tree.below(editor.tree.root);
        assert(unfolds(layout_links(editor.tree), editor.tree.root as int, t));
        lemma_views_are_views(editor.tree, t);
        assert(ids@.len() == ids.len());
    }
    let mut i: usize = 0;
    while i < ids.len()
        invariant
            ids@ == editor_views(*editor),
            forall|k: int| 0 <= k < ids@.len() ==> editor.tree.is_view(#[trigger] ids@[k]),
            i <= ids@.len(),
            forall|k: int| 0 <= k < i ==> editor.view_ready(#[trigger] ids@[k]),
        decreases ids@.len() - i,
    {
        if !editor.knows_view(ids[i]) {
            assert(!editor.view_ready(editor_views(*editor)[i as int]));
            return false;
        }
        i += 1;
    }
    true
}

/// `session` is the session of `editor`: its layout, and the number of the view that has the focus.
pub open spec fn is_session_of(session: Session, editor: Editor) -> bool {
    &&& session.version == 1
    &&& describes(editor, editor.tree.root, session.layout)
    &&& session.focus_index == focus_after(editor_views(editor), editor.tree.focus, 0, 0)
}

/// The state in which the restoring of a session begins.
pub open spec fn restoring_of(session: Session) -> RestoreState {
    initial_state(flattened(session.layout), session.focus_index as int)
}

impl Session {
    /// The session of an editor that works in `working_directory`.
    pub fn from_editor(editor: &Editor, working_directory: String) -> (session: Session)
        requires
            can_be_stored(*editor),
        ensures
            is_session_of(session, *editor),
            session.working_directory == working_directory,
            flattened(session.layout).len() == editor_views(*editor).len(),
            forall|k: int|
                0 <= k < editor_views(*editor).len() ==> keeps_view(
                    *editor,
                    editor_views(*editor)[k],
                    #[trigger] flattened(session.layout)[k],
                ),
    {
        let mut focus_index: usize = 0;
        let mut view_counter: usize = 0;
        let layout = serialize_node(
            editor,
            editor.tree.root,
            &mut focus_index,
            &mut view_counter,
        );
        let session = Session { version: 1, working_directory, layout, focus_index };
        proof {
            law_stored_views(*editor, editor.tree.root, session.layout);
            assert forall|k: int| 0 <= k < editor_views(*editor).len() implies keeps_view(
                *editor,
                editor_views(*editor)[k],
                #[trigger] flattened(session.layout)[k],
            ) by {
                law_session_keeps_views(session, *editor, k);
            }
        }
        session
    }

    /// Begins to restore the session: its views, from left to right, and the focus. Fails if there
    /// are no views in it.
    pub fn restore(self) -> (res: Result<Restore, RestoreError>)
        ensures
            match res {
                Ok(restore) => {
                    &&& flattened(self.layout).len() > 0
                    &&& restore@ == initial_state(
                        flattened(self.layout),
                        self.focus_index as int,
                    )
                    &&& restore@ == restoring_of(self)
                    &&& restore@.wf()
                },
                Err(e) => flattened(self.layout).len() == 0 && e == RestoreError::NoViews,
            },
    {
        let mut views: Vec<SessionView> = Vec::new();
        flatten_views(&self.layout, &mut views);
        assert(views@ =~= flattened(self.layout));
        Restore::start(views, self.focus_index)
    }
}

/// The views of a stored layout are what is stored of the views it was made from, in their order.
pub proof fn law_stored_views(editor: Editor, id: ViewId, node: SessionNode)
    requires
        editor.tree.is_layout(id),
        describes(editor, id, node),
    ensures
        ({
            let ids = views_in(editor.tree, editor.tree.below(id));
            &&& flattened(node).len() == ids.len()
            &&& forall|k: int|
                0 <= k < ids.len() ==> #[trigger] flattened(node)[k] == session_view(
                    editor,
                    editor.tree.view_at(ids[k]),
                )
        }),
    decreases node,
{
    let links = layout_links(editor.tree);
    lemma_tree_children(links, id as int);
    if let SessionNode::Container { layout, children } = node {
        lemma_stored_children(editor, id, children@, children@.len());
        let t = editor.tree.below(id);
        assert(children@.take(children@.len() as int) =~= children@);
        assert(t.children.take(children@.len() as int) =~= t.children);
    }
}

proof fn lemma_stored_children(editor: Editor, id: ViewId, children: Seq<SessionNode>, m: nat)
    requires
        editor.tree.is_layout(id),
        editor.tree.nodes@.contains_key(id),
        editor.tree.nodes@[id].content matches Content::Container(c) && c.children@.len()
            == children.len() && forall|k: int|
            0 <= k < children.len() ==> describes(editor, c.children@[k], #[trigger] children[k]),
        m <= children.len(),
    ensures
        editor.tree.below(id).children.len() == children.len(),
        ({
            let ids = views_in_all(editor.tree, editor.tree.below(id).children.take(m as int));
            let views = flattened_all(children.take(m as int));
            &&& views.len() == ids.len()
            &&& forall|k: int|
                0 <= k < ids.len() ==> #[trigger] views[k] == session_view(
                    editor,
                    editor.tree.view_at(ids[k]),
                )
        }),
    decreases children, m,
{
    let links = layout_links(editor.tree);
    let t = editor.tree.below(id);
    lemma_tree_children(links, id as int);
    if m > 0 {
        lemma_stored_children(editor, id, children, (m - 1) as nat);
        let c = editor.tree.nodes@[id].content->Container_0;
        assert(describes(editor, c.children@[m - 1], children[m - 1]));
        assert(links(id as int)->0[m - 1] == c.children@[m - 1] as int);
        law_stored_views(editor, c.children@[m - 1], children[m - 1]);
        assert(children.take(m as int).drop_last() =~= children.take(m - 1));
        assert(t.children.take(m as int).drop_last() =~= t.children.take(m - 1));
    }
}

/// The stored number of the focused view is its place among the views.
proof fn lemma_focus_is_index(ids: Seq<ViewId>, focus: ViewId, start: int, before: int)
    ensures
        ids.contains(focus) ==> {
            let at = focus_after(ids, focus, start, before) - start;
            0 <= at < ids.len() && ids[at] == focus
        },
        !ids.contains(focus) ==> focus_after(ids, focus, start, before) == before,
    decreases ids.len(),
{
    if ids.len() > 0 && ids.last() != focus {
        lemma_focus_is_index(ids.drop_last(), focus, start, before);
        if ids.contains(focus) {
            let k = choose|k: int| 0 <= k < ids.len() && ids[k] == focus;
            assert(ids.drop_last()[k] == focus);
        }
    }
}

/// The view that a session says has the focus is what is stored of the view that has it.
pub proof fn law_focus_index_is_focused_view(session: Session, editor: Editor)
    requires
        editor.tree.is_layout(editor.tree.root),
        is_session_of(session, editor),
        editor_views(editor).contains(editor.tree.focus),
    ensures
        session.focus_index < editor_views(editor).len(),
        editor_views(editor)[session.focus_index as int] == editor.tree.focus,
        session.focus_index < flattened(session.layout).len(),
        flattened(session.layout)[session.focus_index as int] == session_view(
            editor,
            editor.tree.view_at(editor.tree.focus),
        ),
{
    lemma_focus_is_index(editor_views(editor), editor.tree.focus, 0, 0);
    law_stored_views(editor, editor.tree.root, session.layout);
}

/// A session of an editor with a view in it can be restored, and the restoring begins with what is
/// stored of the editor's views, all of them, from left to right.
pub proof fn law_session_restores_views(session: Session, editor: Editor)
    requires
        editor.tree.is_layout(editor.tree.root),
        is_session_of(session, editor),
        editor_views(editor).len() > 0,
    ensures
        flattened(session.layout).len() > 0,
        flattened(session.layout) == Seq::new(
            editor_views(editor).len(),
            |k: int| session_view(editor, editor.tree.view_at(editor_views(editor)[k])),
        ),
{
    law_stored_views(editor, editor.tree.root, session.layout);
}

} // verus!
