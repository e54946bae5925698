//! Trees that are stored as links between numbered nodes, and the finite trees that such links
//! unfold to.

use vstd::prelude::*;
use vstd::set_lib::lemma_len_subset;

verus! {

/// The nodes that each node links to, in order; `None` where there is no such node.
pub type Links = spec_fn(int) -> Option<Seq<int>>;

/// A finite ordered tree of nodes.
pub struct Unfolding {
    pub node: int,
    pub children: Seq<Unfolding>,
}

/// `t` is what following the links from `node` unfolds to. There is such a tree exactly when every
/// walk along the links from `node` meets only nodes that exist and comes to an end.
pub open spec fn unfolds(links: Links, node: int, t: Unfolding) -> bool
    decreases t,
{
    &&& t.node == node
    &&& links(node) matches Some(next)
    &&& next.len() == t.children.len()
    &&& forall|k: int| 0 <= k < next.len() ==> unfolds(links, next[k], #[trigger] t.children[k])
}

/// Following the links from `node` unfolds to a finite tree.
pub open spec fn well_founded(links: Links, node: int) -> bool {
    exists|t: Unfolding| unfolds(links, node, t)
}

/// The tree that the links unfold to from `node`, where there is one.
pub open spec fn tree_of(links: Links, node: int) -> Unfolding {
    choose|t: Unfolding| unfolds(links, node, t)
}

/// The number of nodes of a tree.
pub open spec fn size(t: Unfolding) -> nat
    decreases t,
{
    1 + total_size(t.children)
}

/// The number of nodes of several trees together.
pub open spec fn total_size(ts: Seq<Unfolding>) -> nat
    decreases ts,
{
    if ts.len() == 0 {
        0
    } else {
        total_size(ts.drop_last()) + size(ts.last())
    }
}

/// Links unfold to one tree at most.
pub proof fn lemma_unfolds_unique(links: Links, node: int, a: Unfolding, b: Unfolding)
    requires
        unfolds(links, node, a),
        unfolds(links, node, b),
    ensures
        a == b,
    decreases a,
{
    let next = links(node)->0;
    assert forall|k: int| 0 <= k < next.len() implies a.children[k] == b.children[k] by {
        assert(unfolds(links, next[k], a.children[k]));
        assert(unfolds(links, next[k], b.children[k]));
        lemma_unfolds_unique(links, next[k], a.children[k], b.children[k]);
    }
    assert(a.children =~= b.children);
}

/// A tree that the links unfold to is the tree that they unfold to.
pub proof fn lemma_tree_of(links: Links, node: int, t: Unfolding)
    requires
        unfolds(links, node, t),
    ensures
        well_founded(links, node),
        tree_of(links, node) == t,
{
    lemma_unfolds_unique(links, node, t, tree_of(links, node));
}

/// The tree at a node has the trees at the nodes it links to as its children.
pub proof fn lemma_tree_children(links: Links, node: int)
    requires
        well_founded(links, node),
    ensures
        links(node) is Some,
        tree_of(links, node).node == node,
        tree_of(links, node).children.len() == links(node)->0.len(),
        forall|k: int|
            #![trigger links(node)->0[k]]
            #![trigger tree_of(links, node).children[k]]
            0 <= k < links(node)->0.len() ==> well_founded(links, links(node)->0[k]) && tree_of(
                links,
                links(node)->0[k],
            ) == tree_of(links, node).children[k],
{
    let t = tree_of(links, node);
    assert(unfolds(links, node, t));
    assert forall|k: int|
        #![trigger links(node)->0[k]]
        #![trigger t.children[k]]
        0 <= k < links(node)->0.len() implies well_founded(links, links(node)->0[k]) && tree_of(
        links,
        links(node)->0[k],
    ) == t.children[k] by {
        assert(unfolds(links, links(node)->0[k], t.children[k]));
        lemma_tree_of(links, links(node)->0[k], t.children[k]);
    }
}

/// Each of several trees is at most as large as all of them.
pub proof fn lemma_size_of_member(ts: Seq<Unfolding>, k: int)
    requires
        0 <= k < ts.len(),
    ensures
        size(ts[k]) <= total_size(ts),
    decreases ts.len(),
{
    if k < ts.len() - 1 {
        lemma_size_of_member(ts.drop_last(), k);
        assert(ts.drop_last()[k] == ts[k]);
    }
}

/// `chain` descends: each of its trees is what the links unfold to, and smaller than those before.
pub open spec fn descends(links: Links, chain: Seq<Unfolding>) -> bool {
    &&& forall|k: int|
        0 <= k < chain.len() ==> unfolds(links, (#[trigger] chain[k]).node, chain[k])
    &&& forall|i: int, j: int|
        0 <= i < j < chain.len() ==> size(#[trigger] chain[i]) > size(#[trigger] chain[j])
}

/// All nodes that there are lie in `nodes`.
pub open spec fn nodes_in(links: Links, nodes: Set<int>) -> bool {
    forall|x: int| (#[trigger] links(x)) is Some ==> nodes.contains(x)
}

/// Trees of different sizes have different roots, so a chain that descends is no longer than there
/// are nodes.
pub proof fn lemma_chain_length(links: Links, nodes: Set<int>, chain: Seq<Unfolding>)
    requires
        nodes_in(links, nodes),
        nodes.finite(),
        descends(links, chain),
    ensures
        chain.len() <= nodes.len(),
{
    let roots = Seq::new(chain.len(), |k: int| chain[k].node);
    assert forall|i: int, j: int| 0 <= i < j < roots.len() implies roots[i] != roots[j] by {
        if roots[i] == roots[j] {
            lemma_unfolds_unique(links, roots[i], chain[i], chain[j]);
        }
    }
    assert(roots.no_duplicates());
    roots.unique_seq_to_set();
    assert forall|x: int| roots.to_set().contains(x) implies nodes.contains(x) by {
        let k = choose|k: int| 0 <= k < roots.len() && roots[k] == x;
        assert(unfolds(links, chain[k].node, chain[k]));
    }
    lemma_len_subset(roots.to_set(), nodes);
}

/// A chain that ends in `t` descends further to each child of `t`.
pub proof fn lemma_descends_further(links: Links, t: Unfolding, above: Seq<Unfolding>, k: int)
    requires
        descends(links, above.push(t)),
        0 <= k < t.children.len(),
    ensures
        descends(links, above.push(t).push(t.children[k])),
{
    let chain = above.push(t);
    assert(unfolds(links, chain.last().node, chain.last()));
    lemma_size_of_member(t.children, k);
    let longer = chain.push(t.children[k]);
    assert forall|i: int| 0 <= i < longer.len() implies unfolds(
        links,
        (#[trigger] longer[i]).node,
        longer[i],
    ) by {
        if i < chain.len() {
            assert(longer[i] == chain[i]);
        } else {
            let next = links(t.node)->0;
            assert(unfolds(links, next[k], t.children[k]));
        }
    }
    assert forall|i: int, j: int| 0 <= i < j < longer.len() implies size(#[trigger] longer[i])
        > size(#[trigger] longer[j]) by {
        assert(longer[i] == chain[i]);
        if j < chain.len() {
            assert(longer[j] == chain[j]);
        } else if i < chain.len() - 1 {
            assert(size(chain[i]) > size(chain[chain.len() - 1]));
        }
    }
}

/// Every walk along the links from `node` meets only nodes that exist, and has no more than `steps`
/// steps.
pub open spec fn ends_within(links: Links, node: int, steps: nat) -> bool
    decreases steps,
{
    &&& links(node) matches Some(next)
    &&& next.len() > 0 ==> steps > 0
    &&& steps > 0 ==> forall|k: int|
        0 <= k < next.len() ==> ends_within(links, #[trigger] next[k], (steps - 1) as nat)
}

/// Links along which no walk is endless unfold to a tree.
pub proof fn lemma_ends_within_unfolds(links: Links, node: int, steps: nat)
    requires
        ends_within(links, node, steps),
    ensures
        well_founded(links, node),
    decreases steps,
{
    let next = links(node)->0;
    let children = Seq::new(next.len(), |k: int| tree_of(links, next[k]));
    assert forall|k: int| 0 <= k < next.len() implies unfolds(
        links,
        next[k],
        #[trigger] children[k],
    ) by {
        assert(ends_within(links, next[k], (steps - 1) as nat));
        lemma_ends_within_unfolds(links, next[k], (steps - 1) as nat);
    }
    assert(unfolds(links, node, Unfolding { node, children }));
}

/// Where the links unfold to a tree, no walk has as many steps as there are nodes.
pub proof fn lemma_unfolds_ends_within(links: Links, nodes: Set<int>, node: int, steps: nat)
    requires
        nodes_in(links, nodes),
        nodes.finite(),
        well_founded(links, node),
        steps + 1 >= nodes.len(),
    ensures
        ends_within(links, node, steps),
{
    let t = tree_of(links, node);
    assert(unfolds(links, node, t));
    lemma_tree_ends_within(links, nodes, t, seq![], steps);
}

proof fn lemma_tree_ends_within(
    links: Links,
    nodes: Set<int>,
    t: Unfolding,
    above: Seq<Unfolding>,
    steps: nat,
)
    requires
        nodes_in(links, nodes),
        nodes.finite(),
        descends(links, above.push(t)),
        above.len() + 1 + steps >= nodes.len(),
    ensures
        ends_within(links, t.node, steps),
    decreases t,
{
    let chain = above.push(t);
    assert(unfolds(links, chain.last().node, chain.last()));
    let next = links(t.node)->0;
    if next.len() > 0 {
        lemma_descends_further(links, t, above, 0);
        lemma_chain_length(links, nodes, chain.push(t.children[0]));
    }
    assert forall|k: int| 0 <= k < next.len() implies ends_within(
        links,
        #[trigger] next[k],
        (steps - 1) as nat,
    ) by {
        assert(unfolds(links, next[k], t.children[k]));
        lemma_descends_further(links, t, above, k);
        lemma_tree_ends_within(links, nodes, t.children[k], chain, (steps - 1) as nat);
    }
}

/// `path` goes from node to node along the links.
pub open spec fn is_path(links: Links, path: Seq<int>) -> bool {
    &&& path.len() > 0
    &&& forall|k: int|
        0 <= k < path.len() - 1 ==> (links(#[trigger] path[k]) matches Some(next)
            && next.contains(path[k + 1]))
}

/// Some path along the links goes from `from` to `to`.
pub open spec fn reachable(links: Links, from: int, to: int) -> bool {
    exists|path: Seq<int>| #[trigger] is_path(links, path) && path[0] == from && path.last() == to
}

/// `node` occurs in the tree.
pub open spec fn in_tree(t: Unfolding, node: int) -> bool
    decreases t,
{
    t.node == node || exists|k: int|
        0 <= k < t.children.len() && in_tree(#[trigger] t.children[k], node)
}

/// The tree that the links unfold to holds what can be reached along them.
pub proof fn lemma_in_tree_reachable(links: Links, t: Unfolding, node: int)
    requires
        unfolds(links, t.node, t),
    ensures
        in_tree(t, node) <==> reachable(links, t.node, node),
{
    if in_tree(t, node) {
        lemma_in_tree_has_path(links, t, node);
    }
    if reachable(links, t.node, node) {
        let path = choose|path: Seq<int>|
            #[trigger] is_path(links, path) && path[0] == t.node && path.last() == node;
        lemma_path_in_tree(links, t, path);
    }
}

proof fn lemma_in_tree_has_path(links: Links, t: Unfolding, node: int)
    requires
        unfolds(links, t.node, t),
        in_tree(t, node),
    ensures
        reachable(links, t.node, node),
    decreases t,
{
    if t.node == node {
        assert(is_path(links, seq![node]));
    } else {
        let k = choose|k: int| 0 <= k < t.children.len() && in_tree(#[trigger] t.children[k], node);
        let next = links(t.node)->0;
        assert(unfolds(links, next[k], t.children[k]));
        lemma_in_tree_has_path(links, t.children[k], node);
        let rest = choose|path: Seq<int>|
            #[trigger] is_path(links, path) && path[0] == t.children[k].node && path.last() == node;
        let path = seq![t.node] + rest;
        assert forall|i: int| 0 <= i < path.len() - 1 implies (links(#[trigger] path[i]) matches Some(
            after,
        ) && after.contains(path[i + 1])) by {
            if i == 0 {
                assert(next[k] == path[1]);
            } else {
                assert(path[i] == rest[i - 1] && path[i + 1] == rest[i]);
            }
        }
        assert(is_path(links, path));
    }
}

proof fn lemma_path_in_tree(links: Links, t: Unfolding, path: Seq<int>)
    requires
        unfolds(links, t.node, t),
        is_path(links, path),
        path[0] == t.node,
    ensures
        in_tree(t, path.last()),
    decreases path.len(),
{
    if path.len() > 1 {
        let next = links(t.node)->0;
        assert(links(path[0]) is Some);
        assert(next.contains(path[1]));
        let k = choose|k: int| 0 <= k < next.len() && next[k] == path[1];
        let rest = path.subrange(1, path.len() as int);
        assert forall|i: int| 0 <= i < rest.len() - 1 implies (links(#[trigger] rest[i]) matches Some(
            after,
        ) && after.contains(rest[i + 1])) by {
            assert(rest[i] == path[i + 1] && rest[i + 1] == path[i + 1 + 1]);
        }
        assert(unfolds(links, next[k], t.children[k]));
        lemma_path_in_tree(links, t.children[k], rest);
        assert(in_tree(t.children[k], path.last()));
    }
}

/// No node is linked to twice.
pub open spec fn linked_once(links: Links) -> bool {
    forall|a: int, i: int, b: int, j: int|
        #![trigger links(a)->0[i], links(b)->0[j]]
        links(a) is Some && links(b) is Some && 0 <= i < links(a)->0.len() && 0 <= j
            < links(b)->0.len() && links(a)->0[i] == links(b)->0[j] ==> a == b && i == j
}

/// A node in a tree unfolds to a tree that is not larger.
pub proof fn lemma_in_tree_size(links: Links, t: Unfolding, node: int)
    requires
        unfolds(links, t.node, t),
        in_tree(t, node),
    ensures
        well_founded(links, node),
        size(tree_of(links, node)) <= size(t),
    decreases t,
{
    if t.node == node {
        lemma_tree_of(links, node, t);
    } else {
        let k = choose|k: int| 0 <= k < t.children.len() && in_tree(#[trigger] t.children[k], node);
        let next = links(t.node)->0;
        assert(unfolds(links, next[k], t.children[k]));
        lemma_in_tree_size(links, t.children[k], node);
        lemma_size_of_member(t.children, k);
    }
}

/// A node does not occur below itself.
pub proof fn lemma_not_below_itself(links: Links, t: Unfolding, k: int)
    requires
        unfolds(links, t.node, t),
        0 <= k < t.children.len(),
    ensures
        !in_tree(t.children[k], t.node),
{
    if in_tree(t.children[k], t.node) {
        let next = links(t.node)->0;
        assert(unfolds(links, next[k], t.children[k]));
        lemma_in_tree_size(links, t.children[k], t.node);
        lemma_tree_of(links, t.node, t);
        lemma_size_of_member(t.children, k);
    }
}

/// A node of a tree that is not its root has a node of the tree linking to it.
proof fn lemma_has_parent(links: Links, t: Unfolding, node: int) -> (parent: (int, int))
    requires
        unfolds(links, t.node, t),
        in_tree(t, node),
        t.node != node,
    ensures
        in_tree(t, parent.0),
        links(parent.0) is Some,
        0 <= parent.1 < links(parent.0)->0.len(),
        links(parent.0)->0[parent.1] == node,
        size(tree_of(links, parent.0)) > size(tree_of(links, node)),
    decreases t,
{
    let k = choose|k: int| 0 <= k < t.children.len() && in_tree(#[trigger] t.children[k], node);
    let next = links(t.node)->0;
    assert(unfolds(links, next[k], t.children[k]));
    if t.children[k].node == node {
        lemma_tree_of(links, t.node, t);
        lemma_tree_of(links, node, t.children[k]);
        lemma_size_of_member(t.children, k);
        (t.node, k)
    } else {
        let parent = lemma_has_parent(links, t.children[k], node);
        assert(in_tree(t.children[k], parent.0));
        parent
    }
}

/// Where no node is linked to twice, no node occurs below two children.
pub proof fn lemma_children_disjoint(links: Links, t: Unfolding, i: int, j: int, node: int)
    requires
        unfolds(links, t.node, t),
        linked_once(links),
        0 <= i < t.children.len(),
        0 <= j < t.children.len(),
        i != j,
        in_tree(t.children[i], node),
    ensures
        !in_tree(t.children[j], node),
    decreases size(t) - size(tree_of(links, node)),
{
    if in_tree(t.children[j], node) {
        let next = links(t.node)->0;
        assert(unfolds(links, next[i], t.children[i]));
        assert(unfolds(links, next[j], t.children[j]));
        lemma_not_below_itself(links, t, i);
        lemma_not_below_itself(links, t, j);
        lemma_in_tree_size(links, t.children[i], node);
        lemma_size_of_member(t.children, i);
        let from_i = if t.children[i].node == node {
            (t.node, i)
        } else {
            lemma_has_parent(links, t.children[i], node)
        };
        let from_j = if t.children[j].node == node {
            (t.node, j)
        } else {
            lemma_has_parent(links, t.children[j], node)
        };
        assert(links(from_i.0)->0[from_i.1] == links(from_j.0)->0[from_j.1]);
        assert(from_i == from_j);
        if t.children[i].node != node && t.children[j].node != node {
            lemma_in_tree_size(links, t.children[i], from_i.0);
            lemma_children_disjoint(links, t, i, j, from_i.0);
        }
    }
}

/// The nodes in `inside` link only to one another, and each only to nodes of a lower rank.
pub open spec fn goes_down(links: Links, inside: Set<int>, rank: spec_fn(int) -> nat) -> bool {
    forall|x: int|
        #![trigger links(x)]
        inside.contains(x) ==> (links(x) matches Some(next) && forall|k: int|
            0 <= k < next.len() ==> inside.contains(#[trigger] next[k]) && rank(next[k]) < rank(x))
}

/// Links that go down are followed to an end.
pub proof fn lemma_goes_down_ends(
    links: Links,
    inside: Set<int>,
    rank: spec_fn(int) -> nat,
    node: int,
)
    requires
        goes_down(links, inside, rank),
        inside.contains(node),
    ensures
        ends_within(links, node, rank(node)),
    decreases rank(node),
{
    let next = links(node)->0;
    if next.len() > 0 {
        assert(rank(next[0]) < rank(node));
    }
    assert forall|k: int| 0 <= k < next.len() implies ends_within(
        links,
        #[trigger] next[k],
        (rank(node) - 1) as nat,
    ) by {
        lemma_goes_down_ends(links, inside, rank, next[k]);
        lemma_ends_within_more(links, next[k], rank(next[k]), (rank(node) - 1) as nat);
    }
}

/// Walks that end within some steps end within more.
pub proof fn lemma_ends_within_more(links: Links, node: int, steps: nat, more: nat)
    requires
        ends_within(links, node, steps),
        steps <= more,
    ensures
        ends_within(links, node, more),
    decreases steps,
{
    let next = links(node)->0;
    assert forall|k: int| 0 <= k < next.len() implies ends_within(
        links,
        #[trigger] next[k],
        (more - 1) as nat,
    ) by {
        assert(ends_within(links, next[k], (steps - 1) as nat));
        lemma_ends_within_more(links, next[k], (steps - 1) as nat, (more - 1) as nat);
    }
}

/// What can be reached from a node that the links unfold from exists, and links to nothing from which it
/// can be reached again.
pub proof fn lemma_unfolded_has_no_cycle(links: Links, node: int, to: int, k: int)
    requires
        well_founded(links, node),
        reachable(links, node, to),
    ensures
        links(to) is Some,
        0 <= k < links(to)->0.len() ==> !reachable(links, links(to)->0[k], to),
{
    let t = tree_of(links, node);
    assert(unfolds(links, node, t));
    lemma_in_tree_reachable(links, t, to);
    lemma_in_tree_size(links, t, to);
    let below = tree_of(links, to);
    assert(unfolds(links, to, below));
    if 0 <= k < links(to)->0.len() {
        assert(unfolds(links, links(to)->0[k], below.children[k]));
        lemma_not_below_itself(links, below, k);
        lemma_in_tree_reachable(links, below.children[k], to);
    }
}

} // verus!
