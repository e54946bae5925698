//! What the session code reads of an editor: its tree of views and its documents.

use crate::forest::{
    ends_within, lemma_ends_within_unfolds, lemma_tree_children, lemma_unfolds_ends_within,
    nodes_in, tree_of, unfolds, well_founded, Links, Unfolding,
};
use std::collections::BTreeMap;
use vstd::prelude::*;
use vstd::set_lib::lemma_map_size_bound;
use vstd::std_specs::cmp::OrdSpec;
use vstd::std_specs::iter::IteratorSpec;

verus! {

/// The key of a node of the view tree.
pub type ViewId = u64;

/// The key of a document.
pub type DocumentId = u64;

/// How the children of a container lie.
#[derive(Clone, Copy, PartialEq, Eq, Debug, Structural)]
pub enum Layout {
    Horizontal,
    Vertical,
}

/// A view on a document.
#[derive(Clone, Copy, PartialEq, Eq, Debug, Structural)]
pub struct DocumentView {
    pub id: ViewId,
    pub doc: DocumentId,
}

/// A group of nodes of the view tree.
pub struct Container {
    pub layout: Layout,
    pub children: Vec<ViewId>,
}

/// What a node of the view tree is.
pub enum Content {
    View(DocumentView),
    Container(Container),
}

/// A node of the view tree.
pub struct Node {
    pub content: Content,
}

/// The tree of views.
pub struct Tree {
    pub root: ViewId,
    /// The node that has the focus.
    pub focus: ViewId,
    pub nodes: BTreeMap<ViewId, Node>,
    /// The nodes that are views, in the order in which the editor lists its views.
    pub views: Vec<ViewId>,
}

/// A selected range: where it was started and where its cursor is, in characters.
#[derive(Clone, Copy, PartialEq, Eq, Debug, Structural)]
pub struct Range {
    pub anchor: usize,
    pub head: usize,
}

/// The scroll position of a view.
#[derive(Clone, Copy, PartialEq, Eq, Debug, Structural)]
pub struct ViewPosition {
    pub anchor: usize,
    pub horizontal_offset: usize,
    pub vertical_offset: usize,
}

/// An undo history in the form in which it is stored: JSON text, which is kept as it is.
pub struct SerializableHistory {
    pub json: String,
}

/// An open document.
pub struct Document {
    /// The file of the document, if it has one.
    pub path: Option<String>,
    /// How many characters the text has.
    pub text_len: usize,
    /// The primary range of the selection in each view on the document.
    pub selections: BTreeMap<ViewId, Range>,
    /// The scroll position of each view on the document.
    pub view_offsets: BTreeMap<ViewId, ViewPosition>,
    pub history: SerializableHistory,
}

/// An editor: its views and its documents.
pub struct Editor {
    pub tree: Tree,
    pub documents: BTreeMap<DocumentId, Document>,
}

impl Clone for SerializableHistory {
    fn clone(&self) -> (res: Self)
        ensures
            res == *self,
    {
        SerializableHistory { json: self.json.clone() }
    }
}

/// A copy of the path of a document.
pub(crate) fn clone_path(path: &Option<String>) -> (res: Option<String>)
    ensures
        res == *path,
{
    match path {
        Some(p) => Some(p.clone()),
        None => None,
    }
}

/// `keys` are the members of `dom` in ascending order.
pub open spec fn is_ascending(keys: Seq<u64>, dom: Set<u64>) -> bool {
    &&& forall|i: int, j: int| 0 <= i < j < keys.len() ==> keys[i] < keys[j]
    &&& forall|k: u64| #[trigger] keys.contains(k) <==> dom.contains(k)
}

/// The members of a set in ascending order.
pub open spec fn ascending(dom: Set<u64>) -> Seq<u64> {
    choose|keys: Seq<u64>| is_ascending(keys, dom)
}

/// Every set of keys can be written in ascending order.
pub proof fn lemma_is_ascending(dom: Set<u64>)
    ensures
        is_ascending(ascending(dom), dom),
{
    let keys = lemma_ascending_below(dom, u64::MAX + 1);
    assert(is_ascending(keys, dom));
}

proof fn lemma_ascending_below(dom: Set<u64>, bound: int) -> (keys: Seq<u64>)
    requires
        0 <= bound <= u64::MAX + 1,
    ensures
        forall|i: int, j: int| 0 <= i < j < keys.len() ==> keys[i] < keys[j],
        forall|k: u64| #[trigger] keys.contains(k) <==> dom.contains(k) && k < bound,
    decreases bound,
{
    if bound == 0 {
        seq![]
    } else {
        let rest = lemma_ascending_below(dom, bound - 1);
        let top = (bound - 1) as u64;
        if dom.contains(top) {
            let keys = rest.push(top);
            assert forall|i: int, j: int| 0 <= i < j < keys.len() implies keys[i] < keys[j] by {
                assert(rest.contains(rest[i]));
            }
            assert forall|k: u64| #[trigger] keys.contains(k) <==> dom.contains(k) && k < bound by {
                if rest.contains(k) {
                    let i = choose|i: int| 0 <= i < rest.len() && rest[i] == k;
                    assert(keys[i] == k);
                }
                assert(keys[rest.len() as int] == top);
                if keys.contains(k) && k != top {
                    let i = choose|i: int| 0 <= i < keys.len() && keys[i] == k;
                    assert(rest[i] == k);
                }
            }
            keys
        } else {
            rest
        }
    }
}

/// There is one way to write a set in ascending order.
pub proof fn lemma_ascending(keys: Seq<u64>, dom: Set<u64>)
    requires
        is_ascending(keys, dom),
    ensures
        ascending(dom) == keys,
{
    lemma_ascending_unique(keys, ascending(dom), dom);
}

proof fn lemma_ascending_unique(a: Seq<u64>, b: Seq<u64>, dom: Set<u64>)
    requires
        is_ascending(a, dom),
        is_ascending(b, dom),
    ensures
        a == b,
    decreases a.len(),
{
    if a.len() == 0 {
        if b.len() > 0 {
            assert(b.contains(b[0]));
            assert(a.contains(b[0]));
        }
        assert(a =~= b);
    } else {
        assert(a.contains(a.last()));
        assert(b.contains(a.last()));
        assert(b.contains(b.last()));
        assert(a.contains(b.last()));
        let i = choose|i: int| 0 <= i < b.len() && b[i] == a.last();
        let j = choose|j: int| 0 <= j < a.len() && a[j] == b.last();
        assert(a.last() == b.last());
        let rest = dom.remove(a.last());
        lemma_ascending_drop_last(a, dom);
        lemma_ascending_drop_last(b, dom);
        lemma_ascending_unique(a.drop_last(), b.drop_last(), rest);
        assert(a =~= a.drop_last().push(a.last()));
        assert(b =~= b.drop_last().push(b.last()));
    }
}

proof fn lemma_ascending_drop_last(keys: Seq<u64>, dom: Set<u64>)
    requires
        is_ascending(keys, dom),
        keys.len() > 0,
    ensures
        is_ascending(keys.drop_last(), dom.remove(keys.last())),
{
    let front = keys.drop_last();
    assert forall|k: u64| #[trigger] front.contains(k) <==> dom.remove(keys.last()).contains(k) by {
        if front.contains(k) {
            let i = choose|i: int| 0 <= i < front.len() && front[i] == k;
            assert(keys[i] == k);
            assert(keys.contains(k));
        }
        if dom.contains(k) && k != keys.last() {
            assert(keys.contains(k));
            let i = choose|i: int| 0 <= i < keys.len() && keys[i] == k;
            assert(front[i] == k);
        }
    }
}

/// The keys of a map in ascending order.
pub(crate) fn ascending_keys<V>(m: &BTreeMap<u64, V>) -> (keys: Vec<u64>)
    ensures
        is_ascending(keys@, m@.dom()),
        keys@ == ascending(m@.dom()),
{
    let mut keys: Vec<u64> = Vec::new();
    let pairs = m.iter();
    let ghost s = pairs.remaining();
    let ghost all = s.map_values(|kv: (&u64, &V)| *kv.0);
    assert forall|i: int, j: int| 0 <= i < j < all.len() implies all[i] < all[j] by {
        assert(vstd::std_specs::btree::increasing_seq(all));
        assert(all[i].cmp_spec(&all[j]) is Less);
    }
    for kv in it: pairs
        invariant
            it.seq() == s,
            keys@.len() == it.index(),
            forall|i: int| 0 <= i < keys@.len() ==> keys@[i] == *it.seq()[i].0,
    {
        keys.push(*kv.0);
    }
    proof {
        assert(keys@ =~= all);
        assert forall|k: u64| m@.dom().contains(k) implies keys@.contains(k) by {
            assert(m@.contains_key(k));
            let i = choose|i: int| 0 <= i < s.len() && s[i] == (&k, &m@[k]);
            assert(keys@[i] == k);
        }
        assert forall|k: u64| keys@.contains(k) implies m@.dom().contains(k) by {
            let i = choose|i: int| 0 <= i < keys@.len() && keys@[i] == k;
            assert(m@.contains_key(*s[i].0));
        }
        lemma_ascending(keys@, m@.dom());
    }
    keys
}

/// The links from each container to its children; views link to nothing.
pub open spec fn layout_links(tree: Tree) -> Links {
    |i: int|
        if 0 <= i <= u64::MAX && tree.nodes@.contains_key(i as u64) {
            match tree.nodes@[i as u64].content {
                Content::View(_) => Some(Seq::<int>::empty()),
                Content::Container(c) => Some(
                    Seq::new(c.children@.len(), |k: int| c.children@[k] as int),
                ),
            }
        } else {
            None
        }
}

impl Tree {
    /// Every node below `id` exists, and no node is below itself.
    pub open spec fn is_layout(self, id: ViewId) -> bool {
        well_founded(layout_links(self), id as int)
    }

    /// The nodes at and below `id`.
    pub open spec fn below(self, id: ViewId) -> Unfolding {
        tree_of(layout_links(self), id as int)
    }

    /// `id` is a view.
    pub open spec fn is_view(self, id: ViewId) -> bool {
        self.nodes@.contains_key(id) && self.nodes@[id].content is View
    }

    /// The view that `id` is.
    pub open spec fn view_at(self, id: ViewId) -> DocumentView {
        self.nodes@[id].content->View_0
    }

    /// The node `id`.
    pub fn node(&self, id: ViewId) -> (node: &Node)
        requires
            self.nodes@.contains_key(id),
        ensures
            *node == self.nodes@[id],
    {
        self.nodes.get(&id).unwrap()
    }

    /// Every walk from `id` down the tree meets only nodes that exist, and has no more than `steps`
    /// steps.
    fn walks_end(&self, id: ViewId, steps: usize) -> (res: bool)
        ensures
            res == ends_within(layout_links(*self), id as int, steps as nat),
        decreases steps,
    {
        let ghost links = layout_links(*self);
        match self.nodes.get(&id) {
            None => false,
            Some(node) => match &node.content {
                Content::View(_) => true,
                Content::Container(container) => {
                    let ghost next = links(id as int)->0;
                    let count: usize = container.children.len();
                    if count == 0 {
                        return true;
                    }
                    if steps == 0 {
                        return false;
                    }
                    let mut k: usize = 0;
                    while k < count
                        invariant
                            links == layout_links(*self),
                            self.nodes@.contains_key(id),
                            self.nodes@[id].content == Content::Container(*container),
                            next == links(id as int)->0,
                            count == container.children@.len(),
                            steps > 0,
                            k <= count,
                            forall|j: int|
                                0 <= j < k ==> ends_within(
                                    links,
                                    #[trigger] next[j],
                                    (steps - 1) as nat,
                                ),
                        decreases count - k,
                    {
                        assert(next[k as int] == container.children@[k as int] as int);
                        if !self.walks_end(container.children[k], steps - 1) {
                            return false;
                        }
                        k += 1;
                    }
                    true
                },
            },
        }
    }

    /// Whether every node below `id` exists and no node is below itself.
    pub fn has_layout(&self, id: ViewId) -> (res: bool)
        ensures
            res == self.is_layout(id),
    {
        let ghost links = layout_links(*self);
        let count: usize = self.nodes.len();
        proof {
            let nodes = self.nodes@.dom().map(|k: u64| k as int);
            lemma_map_size_bound(self.nodes@.dom(), nodes, |k: u64| k as int);
            assert forall|x: int| (#[trigger] links(x)) is Some implies nodes.contains(x) by {
                assert(self.nodes@.dom().contains(x as u64));
            }
            if self.is_layout(id) {
                lemma_unfolds_ends_within(links, nodes, id as int, count as nat);
            }
            if ends_within(links, id as int, count as nat) {
                lemma_ends_within_unfolds(links, id as int, count as nat);
            }
        }
        self.walks_end(id, count)
    }

    /// Appends the views at and below `id`, from left to right.
    fn collect_views(&self, id: ViewId, out: &mut Vec<ViewId>)
        requires
            self.is_layout(id),
        ensures
            final(out)@ == old(out)@ + views_in(*self, self.below(id)),
        decreases self.below(id),
    {
        let ghost links = layout_links(*self);
        let ghost t = self.below(id);
        proof {
            lemma_tree_children(links, id as int);
        }
        match &self.node(id).content {
            Content::View(_) => {
                out.push(id);
                assert(out@ =~= old(out)@ + seq![id]);
            },
            Content::Container(container) => {
                let ghost before = out@;
                let mut i: usize = 0;
                assert(before + views_in_all(*self, t.children.take(0)) =~= before);
                while i < container.children.len()
                    invariant
                        links == layout_links(*self),
                        self.is_layout(id),
                        t == self.below(id),
                        self.nodes@.contains_key(id),
                        self.nodes@[id].content == Content::Container(*container),
                        t.children.len() == container.children@.len(),
                        forall|k: int|
                            #![trigger links(id as int)->0[k]]
                            0 <= k < t.children.len() ==> well_founded(
                                links,
                                links(id as int)->0[k],
                            ) && tree_of(links, links(id as int)->0[k]) == t.children[k],
                        i <= container.children@.len(),
                        out@ == before + views_in_all(*self, t.children.take(i as int)),
                    decreases container.children@.len() - i,
                {
                    let child_id: ViewId = container.children[i];
                    assert(links(id as int)->0[i as int] == child_id as int);
                    self.collect_views(child_id, out);
                    i += 1;
                    assert(t.children.take(i as int).drop_last() =~= t.children.take(i - 1));
                    assert(out@ =~= before + views_in_all(*self, t.children.take(i as int)));
                }
                assert(t.children.take(i as int) =~= t.children);
            },
        }
    }

    /// The views at and below `id`, from left to right.
    pub fn views_below(&self, id: ViewId) -> (ids: Vec<ViewId>)
        requires
            self.is_layout(id),
        ensures
            ids@ == views_in(*self, self.below(id)),
    {
        let mut ids: Vec<ViewId> = Vec::new();
        self.collect_views(id, &mut ids);
        assert(ids@ =~= views_in(*self, self.below(id)));
        ids
    }
}

/// The views in a tree of nodes, from left to right.
pub open spec fn views_in(tree: Tree, t: Unfolding) -> Seq<ViewId>
    decreases t,
{
    match tree.nodes@[t.node as u64].content {
        Content::View(_) => seq![t.node as u64],
        Content::Container(_) => views_in_all(tree, t.children),
    }
}

/// The views in several trees of nodes, from left to right.
pub open spec fn views_in_all(tree: Tree, ts: Seq<Unfolding>) -> Seq<ViewId>
    decreases ts,
{
    if ts.len() == 0 {
        seq![]
    } else {
        views_in_all(tree, ts.drop_last()) + views_in(tree, ts.last())
    }
}

/// All of `ids` are views.
pub open spec fn all_views(tree: Tree, ids: Seq<ViewId>) -> bool {
    forall|k: int| 0 <= k < ids.len() ==> tree.is_view(#[trigger] ids[k])
}

/// What are listed as the views in a tree of nodes are views.
pub proof fn lemma_views_are_views(tree: Tree, t: Unfolding)
    requires
        unfolds(layout_links(tree), t.node, t),
    ensures
        all_views(tree, views_in(tree, t)),
    decreases t, 0nat,
{
    assert(layout_links(tree)(t.node) is Some);
    if tree.nodes@[t.node as u64].content is Container {
        assert(t.children.take(t.children.len() as int) =~= t.children);
        lemma_views_below_are_views(tree, t, t.children.len());
    }
}

proof fn lemma_views_below_are_views(tree: Tree, t: Unfolding, m: nat)
    requires
        unfolds(layout_links(tree), t.node, t),
        m <= t.children.len(),
    ensures
        all_views(tree, views_in_all(tree, t.children.take(m as int))),
    decreases t.children, m,
{
    if m > 0 {
        let next = layout_links(tree)(t.node)->0;
        assert(unfolds(layout_links(tree), next[m - 1], t.children[m - 1]));
        assert(t.children.take(m as int).drop_last() =~= t.children.take(m - 1));
        lemma_views_below_are_views(tree, t, (m - 1) as nat);
        lemma_views_are_views(tree, t.children[m - 1]);
    }
}

impl Editor {
    /// Whether the document of the view `id`, if it is open, knows the view's selection and scroll
    /// position.
    pub fn knows_view(&self, id: ViewId) -> (res: bool)
        requires
            self.tree.is_view(id),
        ensures
            res == self.view_ready(id),
    {
        match &self.tree.node(id).content {
            Content::View(view) => match self.documents.get(&view.doc) {
                Some(doc) => doc.selections.contains_key(&view.id)
                    && doc.view_offsets.contains_key(&view.id),
                None => true,
            },
            Content::Container(_) => true,
        }
    }

    /// The document that a view shows, if it is open.
    pub open spec fn doc_of(self, view: DocumentView) -> Option<Document> {
        if self.documents@.contains_key(view.doc) {
            Some(self.documents@[view.doc])
        } else {
            None
        }
    }

    /// The document of a view, if it is open, knows the view's selection and scroll position.
    pub open spec fn view_ready(self, id: ViewId) -> bool {
        let view = self.tree.view_at(id);
        self.doc_of(view) matches Some(doc) ==> {
            &&& doc.selections@.contains_key(view.id)
            &&& doc.view_offsets@.contains_key(view.id)
        }
    }
}

} // verus!
