//! What a stored session keeps of the editor it was made from.

use crate::editor::{
    layout_links, lemma_views_are_views, views_in, views_in_all, Content, Editor, Layout, Tree,
    ViewId,
};
use crate::forest::{
    lemma_ends_within_unfolds, lemma_goes_down_ends, lemma_tree_children, unfolds, Unfolding,
};
use crate::session::{
    can_be_stored, describes, editor_views, flattened, flattened_all, focus_after, is_session_of,
    law_stored_views, same_layout, Session, SessionLayout, SessionNode, SessionView,
};
use vstd::prelude::*;

verus! {

/// `sv` keeps what there is to know of the view `id`: the file of its document, and where the selection
/// and the scroll position for that view are. Of a view whose document is not open it keeps nothing.
pub open spec fn keeps_view(editor: Editor, id: ViewId, sv: SessionView) -> bool {
    &&& editor.tree.nodes@.contains_key(id)
    &&& editor.tree.nodes@[id].content matches Content::View(view)
    &&& if editor.documents@.contains_key(view.doc) {
        let doc = editor.documents@[view.doc];
        &&& sv.path == doc.path
        &&& sv.anchor == doc.selections@[view.id].anchor
        &&& sv.head == doc.selections@[view.id].head
        &&& sv.scroll_anchor == doc.view_offsets@[view.id].anchor
        &&& sv.scroll_v_offset == doc.view_offsets@[view.id].vertical_offset
        &&& sv.scroll_h_offset == doc.view_offsets@[view.id].horizontal_offset
    } else {
        &&& sv.path is None
        &&& sv.anchor == 0 && sv.head == 0
        &&& sv.scroll_anchor == 0 && sv.scroll_v_offset == 0 && sv.scroll_h_offset == 0
    }
}

/// A session has as many views as the editor, and each keeps what there is to know of the view in its
/// place.
pub proof fn law_session_keeps_views(session: Session, editor: Editor, k: int)
    requires
        editor.tree.is_layout(editor.tree.root),
        is_session_of(session, editor),
        0 <= k < editor_views(editor).len(),
    ensures
        flattened(session.layout).len() == editor_views(editor).len(),
        keeps_view(editor, editor_views(editor)[k], flattened(session.layout)[k]),
{
    let t = editor.tree.below(editor.tree.root);
    assert(unfolds(layout_links(editor.tree), editor.tree.root as int, t));
    lemma_views_are_views(editor.tree, t);
    assert(editor.tree.is_view(editor_views(editor)[k]));
    law_stored_views(editor, editor.tree.root, session.layout);
}

/// However many views a document is shown in, its file is stored for each of them.
pub proof fn law_views_of_document_keep_its_file(
    session: Session,
    editor: Editor,
    j: int,
    k: int,
)
    requires
        editor.tree.is_layout(editor.tree.root),
        is_session_of(session, editor),
        0 <= j < editor_views(editor).len(),
        0 <= k < editor_views(editor).len(),
        editor.tree.view_at(editor_views(editor)[j]).doc == editor.tree.view_at(
            editor_views(editor)[k],
        ).doc,
    ensures
        flattened(session.layout)[j].path == flattened(session.layout)[k].path,
        editor.doc_of(editor.tree.view_at(editor_views(editor)[k])) matches Some(doc)
            ==> flattened(session.layout)[k].path == doc.path,
{
    law_session_keeps_views(session, editor, j);
    law_session_keeps_views(session, editor, k);
}

/// The node that one comes to from the node `id` when one goes down to the children with the numbers
/// in `path`.
pub open spec fn node_at(tree: Tree, id: ViewId, path: Seq<int>) -> Option<ViewId>
    decreases path.len(),
{
    if path.len() == 0 {
        Some(id)
    } else {
        match tree.nodes@[id].content {
            Content::Container(c) if 0 <= path[0] < c.children@.len() => node_at(
                tree,
                c.children@[path[0]],
                path.skip(1),
            ),
            _ => None,
        }
    }
}

/// The stored node that one comes to from `node` when one goes down to the children with the numbers
/// in `path`.
pub open spec fn stored_at(node: SessionNode, path: Seq<int>) -> Option<SessionNode>
    decreases path.len(),
{
    if path.len() == 0 {
        Some(node)
    } else {
        match node {
            SessionNode::Container { children, .. } if 0 <= path[0] < children@.len() => stored_at(
                children@[path[0]],
                path.skip(1),
            ),
            _ => None,
        }
    }
}

/// `node` keeps the node `id` itself: a view, or a container with as many children that lie the same
/// way.
pub open spec fn keeps_node(editor: Editor, id: ViewId, node: SessionNode) -> bool {
    match (editor.tree.nodes@[id].content, node) {
        (Content::View(_), SessionNode::View(sv)) => keeps_view(editor, id, sv),
        (Content::Container(c), SessionNode::Container { layout, children }) => {
            &&& c.children@.len() == children@.len()
            &&& c.layout == Layout::Horizontal <==> layout == SessionLayout::Horizontal
            &&& c.layout == Layout::Vertical <==> layout == SessionLayout::Vertical
        },
        _ => false,
    }
}

/// The stored layout has the shape of the editor's: wherever one goes down in both, one finds a node in
/// both or in neither, and what is stored keeps the node.
pub proof fn law_session_keeps_layout(editor: Editor, id: ViewId, node: SessionNode, path: Seq<int>)
    requires
        describes(editor, id, node),
    ensures
        match (node_at(editor.tree, id, path), stored_at(node, path)) {
            (Some(at), Some(stored)) => keeps_node(editor, at, stored),
            (None, None) => true,
            _ => false,
        },
    decreases path.len(),
{
    if path.len() > 0 {
        if let (Content::Container(c), SessionNode::Container { children, .. }) = (
            editor.tree.nodes@[id].content,
            node,
        ) {
            if 0 <= path[0] < children@.len() {
                assert(describes(editor, c.children@[path[0]], children@[path[0]]));
                law_session_keeps_layout(
                    editor,
                    c.children@[path[0]],
                    children@[path[0]],
                    path.skip(1),
                );
            }
        }
    }
}

/// A session stores the layout from the root on, and says which version it has.
pub proof fn law_session_begins_at_root(session: Session, editor: Editor, path: Seq<int>)
    requires
        is_session_of(session, editor),
    ensures
        session.version == 1,
        match (node_at(editor.tree, editor.tree.root, path), stored_at(session.layout, path)) {
            (Some(at), Some(stored)) => keeps_node(editor, at, stored),
            (None, None) => true,
            _ => false,
        },
{
    law_session_keeps_layout(editor, editor.tree.root, session.layout, path);
}

/// The stored number tells which of the views has the focus; it is the number of its last place if it
/// has several, and zero if it has none.
pub proof fn law_focus_index_tells_focus(session: Session, editor: Editor, k: int)
    requires
        is_session_of(session, editor),
        0 <= k < editor_views(editor).len(),
    ensures
        editor_views(editor)[k] == editor.tree.focus ==> k <= session.focus_index
            < editor_views(editor).len() && editor_views(editor)[session.focus_index as int]
            == editor.tree.focus,
        !editor_views(editor).contains(editor.tree.focus) ==> session.focus_index == 0,
{
    lemma_last_place(editor_views(editor), editor.tree.focus, 0);
}

proof fn lemma_last_place(ids: Seq<ViewId>, focus: ViewId, before: int)
    ensures
        forall|k: int|
            0 <= k < ids.len() && #[trigger] ids[k] == focus ==> k <= focus_after(
                ids,
                focus,
                0,
                before,
            ) < ids.len() && ids[focus_after(ids, focus, 0, before)] == focus,
        !ids.contains(focus) ==> focus_after(ids, focus, 0, before) == before,
    decreases ids.len(),
{
    if ids.len() > 0 {
        let front = ids.drop_last();
        lemma_last_place(front, focus, before);
        if ids.last() != focus {
            assert forall|k: int| 0 <= k < ids.len() && #[trigger] ids[k] == focus implies k
                <= focus_after(ids, focus, 0, before) < ids.len() && ids[focus_after(
                ids,
                focus,
                0,
                before,
            )] == focus by {
                assert(front[k] == focus);
            }
        }
        assert(ids[ids.len() - 1] == ids.last());
        if front.contains(focus) {
            let k = choose|k: int| 0 <= k < front.len() && front[k] == focus;
            assert(ids[k] == focus);
        }
    }
}

/// A view comes alone; the views of a container are those of its children, one child after the other.
pub proof fn law_views_from_left_to_right(tree: Tree, id: ViewId)
    requires
        tree.is_layout(id),
    ensures
        match tree.nodes@[id].content {
            Content::View(_) => views_in(tree, tree.below(id)) == seq![id],
            Content::Container(c) => views_in(tree, tree.below(id)) == Seq::new(
                c.children@.len(),
                |k: int| views_in(tree, tree.below(c.children@[k])),
            ).flatten(),
        },
{
    let links = layout_links(tree);
    let t = tree.below(id);
    lemma_tree_children(links, id as int);
    if let Content::Container(c) = tree.nodes@[id].content {
        lemma_views_flatten(tree, t.children);
        assert forall|k: int| 0 <= k < c.children@.len() implies t.children[k] == tree.below(
            #[trigger] c.children@[k],
        ) by {
            assert(links(id as int)->0[k] == c.children@[k] as int);
        }
        assert(Seq::new(t.children.len(), |k: int| views_in(tree, t.children[k])) =~= Seq::new(
            c.children@.len(),
            |k: int| views_in(tree, tree.below(c.children@[k])),
        ));
    }
}

proof fn lemma_views_flatten(tree: Tree, ts: Seq<Unfolding>)
    ensures
        views_in_all(tree, ts) == Seq::new(ts.len(), |k: int| views_in(tree, ts[k])).flatten(),
    decreases ts.len(),
{
    let parts = Seq::new(ts.len(), |k: int| views_in(tree, ts[k]));
    if ts.len() > 0 {
        let front = ts.drop_last();
        lemma_views_flatten(tree, front);
        let before = Seq::new(front.len(), |k: int| views_in(tree, front[k]));
        before.lemma_flatten_push(parts.last());
        assert(parts =~= before.push(parts.last()));
    } else {
        assert(parts =~= seq![]);
    }
}

/// A stored view comes alone; the views of a stored container are those of its children, one child after
/// the other.
pub proof fn law_flattened_from_left_to_right(node: SessionNode)
    ensures
        match node {
            SessionNode::View(sv) => flattened(node) == seq![sv],
            SessionNode::Container { children, .. } => flattened(node) == Seq::new(
                children@.len(),
                |k: int| flattened(children@[k]),
            ).flatten(),
        },
{
    if let SessionNode::Container { children, .. } = node {
        lemma_flattened_flatten(children@);
    }
}

proof fn lemma_flattened_flatten(nodes: Seq<SessionNode>)
    ensures
        flattened_all(nodes) == Seq::new(nodes.len(), |k: int| flattened(nodes[k])).flatten(),
    decreases nodes.len(),
{
    let parts = Seq::new(nodes.len(), |k: int| flattened(nodes[k]));
    if nodes.len() > 0 {
        let front = nodes.drop_last();
        lemma_flattened_flatten(front);
        let before = Seq::new(front.len(), |k: int| flattened(front[k]));
        before.lemma_flatten_push(parts.last());
        assert(parts =~= before.push(parts.last()));
    } else {
        assert(parts =~= seq![]);
    }
}

/// A copy of a stored layout has everywhere the same view, or a container with as many children that lie
/// the same way.
pub proof fn law_copy_is_same_everywhere(a: SessionNode, b: SessionNode, path: Seq<int>)
    requires
        same_layout(a, b),
    ensures
        match (stored_at(a, path), stored_at(b, path)) {
            (Some(SessionNode::View(va)), Some(SessionNode::View(vb))) => va == vb,
            (
                Some(SessionNode::Container { layout: la, children: ca }),
                Some(SessionNode::Container { layout: lb, children: cb }),
            ) => la == lb && ca@.len() == cb@.len(),
            (None, None) => true,
            _ => false,
        },
    decreases path.len(),
{
    if path.len() > 0 {
        if let (
            SessionNode::Container { children: ca, .. },
            SessionNode::Container { children: cb, .. },
        ) = (a, b) {
            if 0 <= path[0] < ca@.len() {
                assert(same_layout(ca@[path[0]], cb@[path[0]]));
                law_copy_is_same_everywhere(ca@[path[0]], cb@[path[0]], path.skip(1));
            }
        }
    }
}

/// Counting views on from `start`, the number that is noted is that of the last place of the view that
/// has the focus, and the number that was noted before if it has none.
pub proof fn law_focus_number(ids: Seq<ViewId>, focus: ViewId, start: int, before: int, k: int)
    requires
        0 <= k < ids.len(),
    ensures
        ids[k] == focus && !ids.skip(k + 1).contains(focus) ==> focus_after(
            ids,
            focus,
            start,
            before,
        ) == start + k,
        !ids.contains(focus) ==> focus_after(ids, focus, start, before) == before,
    decreases ids.len(),
{
    let front = ids.drop_last();
    assert(ids[ids.len() - 1] == ids.last());
    if ids.last() == focus {
        if k < ids.len() - 1 {
            assert(ids.skip(k + 1)[ids.len() - 1 - (k + 1)] == focus);
        }
    } else {
        if k < front.len() {
            law_focus_number(front, focus, start, before, k);
            let later = front.skip(k + 1);
            if later.contains(focus) {
                let j = choose|j: int| 0 <= j < later.len() && later[j] == focus;
                assert(ids.skip(k + 1)[j] == focus);
            }
        }
        if !ids.contains(focus) && front.len() > 0 {
            law_focus_number(front, focus, start, before, 0);
        }
        if front.contains(focus) {
            let j = choose|j: int| 0 <= j < front.len() && front[j] == focus;
            assert(ids[j] == focus);
        }
    }
}

/// A view tree in which every child exists and has a lower rank than its container is a layout.
pub proof fn law_ranked_tree_is_layout(tree: Tree, rank: spec_fn(ViewId) -> nat, id: ViewId)
    requires
        tree.nodes@.contains_key(id),
        forall|x: ViewId, k: int|
            tree.nodes@.contains_key(x) && (tree.nodes@[x].content matches Content::Container(c) && 0
                <= k < c.children@.len()) ==> tree.nodes@.contains_key(
                #[trigger] (tree.nodes@[x].content->Container_0).children@[k],
            ) && rank((tree.nodes@[x].content->Container_0).children@[k]) < rank(x),
    ensures
        tree.is_layout(id),
{
    let links = layout_links(tree);
    let inside = Set::new(|x: int| 0 <= x <= u64::MAX && tree.nodes@.contains_key(x as u64));
    let height = |x: int| rank(x as u64);
    assert forall|x: int|
        #![trigger links(x)]
        inside.contains(x) implies (links(x) matches Some(next) && forall|k: int|
        0 <= k < next.len() ==> inside.contains(#[trigger] next[k]) && height(next[k]) < height(
            x,
        )) by {
        let next = links(x)->0;
        assert forall|k: int| 0 <= k < next.len() implies inside.contains(#[trigger] next[k])
            && height(next[k]) < height(x) by {
            let child = (tree.nodes@[x as u64].content->Container_0).children@[k];
            assert(next[k] == child as int);
        }
    }
    lemma_goes_down_ends(links, inside, height, id as int);
    lemma_ends_within_unfolds(links, id as int, height(id as int));
}

/// A session can be stored wherever the views form a layout, can be counted, and every open document
/// holds a selection and a scroll position for the views on it.
pub proof fn law_can_be_stored(editor: Editor)
    requires
        editor.tree.is_layout(editor.tree.root),
        editor_views(editor).len() <= usize::MAX,
        forall|x: ViewId| #[trigger]
            editor.tree.nodes@.contains_key(x) && (editor.tree.nodes@[x].content matches Content::View(
                view,
            ) && editor.documents@.contains_key(view.doc)) ==> {
                let view = editor.tree.nodes@[x].content->View_0;
                &&& editor.documents@[view.doc].selections@.contains_key(view.id)
                &&& editor.documents@[view.doc].view_offsets@.contains_key(view.id)
            },
    ensures
        can_be_stored(editor),
{
    let t = editor.tree.below(editor.tree.root);
    assert(unfolds(layout_links(editor.tree), editor.tree.root as int, t));
    lemma_views_are_views(editor.tree, t);
    let ids = editor_views(editor);
    assert forall|k: int| 0 <= k < ids.len() implies editor.view_ready(#[trigger] ids[k]) by {
        assert(editor.tree.is_view(ids[k]));
        assert(editor.tree.nodes@.contains_key(ids[k]));
    }
}

} // verus!
