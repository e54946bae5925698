//! What holds of the undo tree as a whole.

use crate::forest::{
    in_tree, lemma_children_disjoint, lemma_ends_within_unfolds, lemma_goes_down_ends,
    lemma_in_tree_reachable, lemma_not_below_itself, lemma_tree_children,
    lemma_unfolded_has_no_cycle, linked_once, reachable, unfolds, Links, Unfolding,
};
use crate::tree_lines::{
    branch_depth, branch_order, display_branches, display_order, displayed_first, history_tree,
    is_history, lemma_branch_order, listing, newest, newest_among, revision_links,
    RevisionInfo,
};
use crate::undotree::{
    after_render, draws, first_line_of, reaction_to, rows_drawn, selection_after, Callback,
    EventResult, KeyCode, UndoTreeState,
};
use vstd::prelude::*;

verus! {

/// `node` is among the listed revisions.
pub open spec fn lists(s: Seq<(int, nat)>, node: int) -> bool {
    exists|j: int| 0 <= j < s.len() && (#[trigger] s[j]).0 == node
}

/// No revision is listed twice.
pub open spec fn lists_once(s: Seq<(int, nat)>) -> bool {
    forall|i: int, j: int| 0 <= i < j < s.len() ==> (#[trigger] s[i]).0 != (#[trigger] s[j]).0
}

proof fn lemma_lists_concat(a: Seq<(int, nat)>, b: Seq<(int, nat)>, node: int)
    ensures
        lists(a + b, node) <==> lists(a, node) || lists(b, node),
{
    if lists(a, node) {
        let j = choose|j: int| 0 <= j < a.len() && (#[trigger] a[j]).0 == node;
        assert((a + b)[j].0 == node);
    }
    if lists(b, node) {
        let j = choose|j: int| 0 <= j < b.len() && (#[trigger] b[j]).0 == node;
        assert((a + b)[a.len() + j].0 == node);
    }
    if lists(a + b, node) {
        let j = choose|j: int| 0 <= j < (a + b).len() && (#[trigger] (a + b)[j]).0 == node;
        if j < a.len() {
            assert(a[j].0 == node);
        } else {
            assert(b[j - a.len()].0 == node);
        }
    }
}

proof fn lemma_lists_single(node: int, depth: nat, other: int)
    ensures
        lists(seq![(node, depth)], other) <==> other == node,
{
    assert(seq![(node, depth)][0].0 == node);
}

/// Some branch of `t` with a number among `picks` holds `node`.
spec fn picks_hold(t: Unfolding, picks: Seq<int>, node: int) -> bool {
    exists|i: int|
        0 <= i < picks.len() && 0 <= #[trigger] picks[i] < t.children.len() && in_tree(
            t.children[picks[i]],
            node,
        )
}

proof fn lemma_display_lists_tree(
    revisions: Seq<RevisionInfo>,
    t: Unfolding,
    depth: nat,
    node: int,
)
    ensures
        lists(display_order(revisions, t, depth), node) <==> in_tree(t, node),
    decreases t, 1nat, 0nat,
{
    let picks = branch_order(revisions, t.children);
    let branches = display_branches(revisions, t, depth, picks);
    lemma_lists_single(t.node, depth, node);
    assert(display_order(revisions, t, depth) =~= branches + seq![(t.node, depth)]);
    lemma_lists_concat(branches, seq![(t.node, depth)], node);
    lemma_branches_list_trees(revisions, t, depth, picks, node);
    lemma_branch_order(revisions, t.children);
    if picks_hold(t, picks, node) {
        let i = choose|i: int|
            0 <= i < picks.len() && 0 <= #[trigger] picks[i] < t.children.len() && in_tree(
                t.children[picks[i]],
                node,
            );
        assert(in_tree(t.children[picks[i]], node));
    }
    if in_tree(t, node) && t.node != node {
        let k = choose|k: int| 0 <= k < t.children.len() && in_tree(#[trigger] t.children[k], node);
        assert(picks.contains(k));
        let i = choose|i: int| 0 <= i < picks.len() && picks[i] == k;
        assert(in_tree(t.children[picks[i]], node));
    }
}

proof fn lemma_branches_list_trees(
    revisions: Seq<RevisionInfo>,
    t: Unfolding,
    depth: nat,
    picks: Seq<int>,
    node: int,
)
    ensures
        lists(display_branches(revisions, t, depth, picks), node) <==> picks_hold(t, picks, node),
    decreases t, 0nat, picks.len(),
{
    if picks.len() > 0 {
        let before = picks.drop_last();
        let k = picks.last();
        let a = display_branches(revisions, t, depth, before);
        lemma_branches_list_trees(revisions, t, depth, before, node);
        if picks_hold(t, before, node) {
            let i = choose|i: int|
                0 <= i < before.len() && 0 <= #[trigger] before[i] < t.children.len() && in_tree(
                    t.children[before[i]],
                    node,
                );
            assert(picks[i] == before[i]);
        }
        if 0 <= k < t.children.len() {
            let b = display_order(revisions, t.children[k], branch_depth(t, depth, k));
            lemma_lists_concat(a, b, node);
            lemma_display_lists_tree(revisions, t.children[k], branch_depth(t, depth, k), node);
            if in_tree(t.children[k], node) {
                assert(picks[picks.len() - 1] == k);
            }
        } else {
            assert(a + seq![] =~= a);
        }
        if picks_hold(t, picks, node) {
            let i = choose|i: int|
                0 <= i < picks.len() && 0 <= #[trigger] picks[i] < t.children.len() && in_tree(
                    t.children[picks[i]],
                    node,
                );
            if i < before.len() {
                assert(before[i] == picks[i]);
            }
        }
    }
}

proof fn lemma_lists_once_concat(a: Seq<(int, nat)>, b: Seq<(int, nat)>)
    requires
        lists_once(a),
        lists_once(b),
        forall|node: int| #[trigger] lists(a, node) ==> !lists(b, node),
    ensures
        lists_once(a + b),
{
    let s = a + b;
    assert forall|i: int, j: int| 0 <= i < j < s.len() implies (#[trigger] s[i]).0 != (
    #[trigger] s[j]).0 by {
        if j < a.len() {
            assert(s[i] == a[i] && s[j] == a[j]);
        } else if i >= a.len() {
            assert(s[i] == b[i - a.len()] && s[j] == b[j - a.len()]);
        } else {
            assert(s[i] == a[i] && s[j] == b[j - a.len()]);
            if s[i].0 == s[j].0 {
                assert(lists(a, a[i].0));
                assert(lists(b, b[j - a.len()].0));
            }
        }
    }
}

proof fn lemma_display_once(
    revisions: Seq<RevisionInfo>,
    links: Links,
    t: Unfolding,
    depth: nat,
)
    requires
        unfolds(links, t.node, t),
        linked_once(links),
    ensures
        lists_once(display_order(revisions, t, depth)),
    decreases t, 1nat, 0nat,
{
    let picks = branch_order(revisions, t.children);
    let branches = display_branches(revisions, t, depth, picks);
    let bottom = seq![(t.node, depth)];
    lemma_branch_order(revisions, t.children);
    lemma_branches_once(revisions, links, t, depth, picks);
    assert forall|node: int| #[trigger] lists(branches, node) implies !lists(bottom, node) by {
        lemma_lists_single(t.node, depth, node);
        lemma_branches_list_trees(revisions, t, depth, picks, node);
        let i = choose|i: int|
            0 <= i < picks.len() && 0 <= #[trigger] picks[i] < t.children.len() && in_tree(
                t.children[picks[i]],
                node,
            );
        lemma_not_below_itself(links, t, picks[i]);
    }
    lemma_lists_once_concat(branches, bottom);
    assert(display_order(revisions, t, depth) =~= branches + bottom);
}

proof fn lemma_branches_once(
    revisions: Seq<RevisionInfo>,
    links: Links,
    t: Unfolding,
    depth: nat,
    picks: Seq<int>,
)
    requires
        unfolds(links, t.node, t),
        linked_once(links),
        picks.no_duplicates(),
    ensures
        lists_once(display_branches(revisions, t, depth, picks)),
    decreases t, 0nat, picks.len(),
{
    if picks.len() > 0 {
        let before = picks.drop_last();
        let k = picks.last();
        let a = display_branches(revisions, t, depth, before);
        lemma_branches_once(revisions, links, t, depth, before);
        if 0 <= k < t.children.len() {
            let b = display_order(revisions, t.children[k], branch_depth(t, depth, k));
            let next = links(t.node)->0;
            assert(unfolds(links, next[k], t.children[k]));
            lemma_display_once(revisions, links, t.children[k], branch_depth(t, depth, k));
            assert forall|node: int| #[trigger] lists(a, node) implies !lists(b, node) by {
                lemma_branches_list_trees(revisions, t, depth, before, node);
                lemma_display_lists_tree(
                    revisions,
                    t.children[k],
                    branch_depth(t, depth, k),
                    node,
                );
                let i = choose|i: int|
                    0 <= i < before.len() && 0 <= #[trigger] before[i] < t.children.len()
                        && in_tree(t.children[before[i]], node);
                assert(before[i] == picks[i]);
                lemma_children_disjoint(links, t, before[i], k, node);
            }
            lemma_lists_once_concat(a, b);
        } else {
            assert(a + seq![] =~= a);
        }
    }
}

/// The undo tree lists a revision exactly when it can be reached from the root.
pub proof fn law_lists_what_is_reachable(revisions: Seq<RevisionInfo>, revision: int)
    requires
        revisions.len() > 0,
        is_history(revisions, 0),
    ensures
        lists(listing(revisions), revision) <==> reachable(
            revision_links(revisions),
            0,
            revision,
        ),
{
    let links = revision_links(revisions);
    let t = history_tree(revisions, 0);
    assert(unfolds(links, 0, t));
    lemma_display_lists_tree(revisions, t, 0, revision);
    lemma_in_tree_reachable(links, t, revision);
}

/// Where every revision was made from one revision at most, none is listed twice.
pub proof fn law_lists_each_once(revisions: Seq<RevisionInfo>)
    requires
        revisions.len() == 0 || is_history(revisions, 0),
        linked_once(revision_links(revisions)),
    ensures
        lists_once(listing(revisions)),
{
    if revisions.len() > 0 {
        let links = revision_links(revisions);
        let t = history_tree(revisions, 0);
        assert(unfolds(links, 0, t));
        lemma_display_once(revisions, links, t, 0);
    }
}

/// The root is at the bottom and not indented.
pub proof fn law_root_at_bottom(revisions: Seq<RevisionInfo>)
    requires
        revisions.len() > 0,
        is_history(revisions, 0),
    ensures
        listing(revisions).len() > 0,
        listing(revisions).last() == (0int, 0nat),
{
    assert(unfolds(revision_links(revisions), 0, history_tree(revisions, 0)));
}

/// No revision was made before the one that it was made from.
pub open spec fn made_in_order(revisions: Seq<RevisionInfo>) -> bool {
    forall|i: int, k: int|
        0 <= i < revisions.len() && 0 <= k < revisions[i].children@.len() && (
        #[trigger] revisions[i].children@[k]) < revisions.len() ==> revisions[i].timestamp
            <= revisions[revisions[i].children@[k] as int].timestamp
}

/// Where no revision was made before the one that it was made from, the newest of the revisions that
/// can be reached from the root is at the top.
pub proof fn law_newest_on_top(revisions: Seq<RevisionInfo>, r: int)
    requires
        revisions.len() > 0,
        is_history(revisions, 0),
        made_in_order(revisions),
        reachable(revision_links(revisions), 0, r),
    ensures
        listing(revisions).len() > 0,
        revisions[r].timestamp <= revisions[listing(revisions)[0].0].timestamp,
{
    let links = revision_links(revisions);
    let t = history_tree(revisions, 0);
    assert(unfolds(links, 0, t));
    lemma_in_tree_reachable(links, t, r);
    lemma_newest_is_newest(revisions, t, r);
    lemma_top_is_newest(revisions, t, 0);
}

/// No revision in a tree is newer than its newest.
proof fn lemma_newest_is_newest(revisions: Seq<RevisionInfo>, t: Unfolding, node: int)
    requires
        in_tree(t, node),
    ensures
        revisions[node].timestamp <= newest(revisions, t),
    decreases t,
{
    let at = revisions[t.node].timestamp as int;
    lemma_newest_among_start(revisions, at, t.children);
    if t.node != node {
        let k = choose|k: int| 0 <= k < t.children.len() && in_tree(#[trigger] t.children[k], node);
        lemma_newest_is_newest(revisions, t.children[k], node);
        lemma_newest_among_member(revisions, at, t.children, k);
    }
}

proof fn lemma_newest_among_start(revisions: Seq<RevisionInfo>, at: int, ts: Seq<Unfolding>)
    ensures
        at <= newest_among(revisions, at, ts),
    decreases ts.len(),
{
    if ts.len() > 0 {
        lemma_newest_among_start(revisions, at, ts.drop_last());
    }
}

proof fn lemma_newest_among_member(
    revisions: Seq<RevisionInfo>,
    at: int,
    ts: Seq<Unfolding>,
    k: int,
)
    requires
        0 <= k < ts.len(),
    ensures
        newest(revisions, ts[k]) <= newest_among(revisions, at, ts),
    decreases ts.len(),
{
    if k < ts.len() - 1 {
        lemma_newest_among_member(revisions, at, ts.drop_last(), k);
        assert(ts.drop_last()[k] == ts[k]);
    }
}

proof fn lemma_newest_among_bound(
    revisions: Seq<RevisionInfo>,
    at: int,
    ts: Seq<Unfolding>,
    bound: int,
)
    requires
        at <= bound,
        forall|k: int| 0 <= k < ts.len() ==> newest(revisions, #[trigger] ts[k]) <= bound,
    ensures
        newest_among(revisions, at, ts) <= bound,
    decreases ts.len(),
{
    if ts.len() > 0 {
        let before = ts.drop_last();
        assert forall|k: int| 0 <= k < before.len() implies newest(
            revisions,
            #[trigger] before[k],
        ) <= bound by {
            assert(before[k] == ts[k]);
        }
        lemma_newest_among_bound(revisions, at, before, bound);
        assert(newest(revisions, ts[ts.len() - 1]) <= bound);
    }
}

proof fn lemma_top_is_newest(revisions: Seq<RevisionInfo>, t: Unfolding, depth: nat)
    requires
        unfolds(revision_links(revisions), t.node, t),
        made_in_order(revisions),
    ensures
        display_order(revisions, t, depth).len() > 0,
        revisions[display_order(revisions, t, depth)[0].0].timestamp == newest(revisions, t),
    decreases t,
{
    let links = revision_links(revisions);
    let shown = display_order(revisions, t, depth);
    assert(links(t.node) is Some);
    if t.children.len() > 0 {
        let picks = branch_order(revisions, t.children);
        lemma_branch_order(revisions, t.children);
        let k = picks[0];
        assert(picks.contains(k));
        let next = links(t.node)->0;
        assert(unfolds(links, next[k], t.children[k]));
        let top = display_order(revisions, t.children[k], branch_depth(t, depth, k));
        lemma_top_is_newest(revisions, t.children[k], branch_depth(t, depth, k));
        lemma_first_branch_first(revisions, t, depth, picks);
        assert(shown[0] == top[0]);
        let first = displayed_first(revisions, t.children);
        let bound = newest(revisions, t.children[k]);
        assert forall|j: int| 0 <= j < t.children.len() implies newest(
            revisions,
            #[trigger] t.children[j],
        ) <= bound by {
            assert(picks.contains(j));
            let i = choose|i: int| 0 <= i < picks.len() && picks[i] == j;
            if i > 0 {
                assert(first(picks[0], picks[i]));
            }
        }
        let at = revisions[t.node].timestamp as int;
        let child = revisions[t.node].children@[k];
        assert(next[k] == child as int);
        assert(links(child as int) is Some);
        lemma_newest_is_newest(revisions, t.children[k], child as int);
        assert(at <= bound);
        lemma_newest_among_bound(revisions, at, t.children, bound);
        lemma_newest_among_member(revisions, at, t.children, k);
    } else {
        lemma_branch_order(revisions, t.children);
        assert(shown =~= seq![(t.node, depth)]);
    }
}

/// What is displayed of several branches begins with what is displayed of the first.
proof fn lemma_first_branch_first(
    revisions: Seq<RevisionInfo>,
    t: Unfolding,
    depth: nat,
    picks: Seq<int>,
)
    requires
        picks.len() > 0,
        0 <= picks[0] < t.children.len(),
    ensures
        display_branches(revisions, t, depth, picks).len() > 0,
        display_branches(revisions, t, depth, picks)[0] == display_order(
            revisions,
            t.children[picks[0]],
            branch_depth(t, depth, picks[0]),
        )[0],
    decreases picks.len(),
{
    if picks.len() > 1 {
        lemma_first_branch_first(revisions, t, depth, picks.drop_last());
    } else {
        let none = display_branches(revisions, t, depth, picks.drop_last());
        let first = display_order(
            revisions,
            t.children[picks[0]],
            branch_depth(t, depth, picks[0]),
        );
        assert(none =~= seq![]);
        assert(first.len() > 0);
        assert(display_branches(revisions, t, depth, picks) =~= none + first);
    }
}

/// `node` lies on the main path, which follows the last child.
pub open spec fn on_main_path(t: Unfolding, node: int) -> bool
    decreases t,
{
    t.node == node || (t.children.len() > 0 && on_main_path(t.children.last(), node))
}

/// The revisions on the main path are listed without indentation, and all others with some.
pub proof fn law_only_main_path_not_indented(revisions: Seq<RevisionInfo>)
    requires
        revisions.len() > 0,
        is_history(revisions, 0),
    ensures
        forall|j: int|
            0 <= j < listing(revisions).len() && (#[trigger] listing(revisions)[j]).1 == 0
                ==> on_main_path(history_tree(revisions, 0), listing(revisions)[j].0),
        forall|node: int|
            on_main_path(history_tree(revisions, 0), node) ==> #[trigger] listing(
                revisions,
            ).contains((node, 0nat)),
{
    let t = history_tree(revisions, 0);
    lemma_display_depths(revisions, t, 0);
    assert forall|node: int| on_main_path(t, node) implies #[trigger] listing(revisions).contains(
        (node, 0nat),
    ) by {
        lemma_main_path_at_depth(revisions, t, 0, node);
    }
}

/// All of `s` lies at `depth` or deeper, and what lies at `depth` is on the main path of `t`.
spec fn deep_but_main_path(s: Seq<(int, nat)>, t: Unfolding, depth: nat) -> bool {
    forall|j: int|
        0 <= j < s.len() ==> (#[trigger] s[j]).1 >= depth && (s[j].1 == depth ==> on_main_path(
            t,
            s[j].0,
        ))
}

proof fn lemma_display_depths(revisions: Seq<RevisionInfo>, t: Unfolding, depth: nat)
    ensures
        deep_but_main_path(display_order(revisions, t, depth), t, depth),
    decreases t, 1nat, 0nat,
{
    lemma_branches_depths(revisions, t, depth, branch_order(revisions, t.children));
}

proof fn lemma_branches_depths(
    revisions: Seq<RevisionInfo>,
    t: Unfolding,
    depth: nat,
    picks: Seq<int>,
)
    ensures
        deep_but_main_path(display_branches(revisions, t, depth, picks), t, depth),
    decreases t, 0nat, picks.len(),
{
    if picks.len() > 0 {
        let k = picks.last();
        lemma_branches_depths(revisions, t, depth, picks.drop_last());
        if 0 <= k < t.children.len() {
            lemma_display_depths(revisions, t.children[k], branch_depth(t, depth, k));
            let a = display_branches(revisions, t, depth, picks.drop_last());
            let b = display_order(revisions, t.children[k], branch_depth(t, depth, k));
            let s = a + b;
            assert forall|j: int| 0 <= j < s.len() implies (#[trigger] s[j]).1 >= depth && (s[j].1
                == depth ==> on_main_path(t, s[j].0)) by {
                if j < a.len() {
                    assert(s[j] == a[j]);
                } else {
                    assert(s[j] == b[j - a.len()]);
                }
            }
        }
    }
}

proof fn lemma_main_path_at_depth(
    revisions: Seq<RevisionInfo>,
    t: Unfolding,
    depth: nat,
    node: int,
)
    requires
        on_main_path(t, node),
    ensures
        display_order(revisions, t, depth).contains((node, depth)),
    decreases t,
{
    let s = display_order(revisions, t, depth);
    if t.node == node {
        assert(s[s.len() - 1] == (node, depth));
    } else {
        let main = t.children.len() - 1;
        let picks = branch_order(revisions, t.children);
        lemma_branch_order(revisions, t.children);
        lemma_main_path_at_depth(revisions, t.children[main], depth, node);
        assert(picks.contains(main));
        let i = choose|i: int| 0 <= i < picks.len() && picks[i] == main;
        lemma_branch_displayed(revisions, t, depth, picks, i, (node, depth));
        let branches = display_branches(revisions, t, depth, picks);
        let j = choose|j: int| 0 <= j < branches.len() && branches[j] == (node, depth);
        assert(s[j] == branches[j]);
    }
}

/// What is displayed of one of several branches is displayed of all.
proof fn lemma_branch_displayed(
    revisions: Seq<RevisionInfo>,
    t: Unfolding,
    depth: nat,
    picks: Seq<int>,
    i: int,
    entry: (int, nat),
)
    requires
        0 <= i < picks.len(),
        0 <= picks[i] < t.children.len(),
        display_order(revisions, t.children[picks[i]], branch_depth(t, depth, picks[i])).contains(
            entry,
        ),
    ensures
        display_branches(revisions, t, depth, picks).contains(entry),
    decreases picks.len(),
{
    let all = display_branches(revisions, t, depth, picks);
    let a = display_branches(revisions, t, depth, picks.drop_last());
    if i == picks.len() - 1 {
        let b = display_order(revisions, t.children[picks[i]], branch_depth(t, depth, picks[i]));
        let j = choose|j: int| 0 <= j < b.len() && b[j] == entry;
        assert(all[a.len() + j] == b[j]);
    } else {
        lemma_branch_displayed(revisions, t, depth, picks.drop_last(), i, entry);
        let j = choose|j: int| 0 <= j < a.len() && a[j] == entry;
        assert(all[j] == a[j]);
    }
}

/// Some revision that can be reached from `a` is newer than all that can be reached from `b`.
pub open spec fn is_newer_branch(revisions: Seq<RevisionInfo>, a: int, b: int) -> bool {
    exists|r: int| #[trigger]
        reachable(revision_links(revisions), a, r) && forall|q: int| #[trigger]
            reachable(revision_links(revisions), b, q) ==> revisions[q].timestamp
                < revisions[r].timestamp
}

/// Child number `a` of a revision is to be displayed above child number `b`: it leads to the newer
/// revision; or both lead to equally new ones and `a` is the last child, or neither is and `a` was made
/// first.
pub open spec fn is_above(revisions: Seq<RevisionInfo>, node: int, a: int, b: int) -> bool {
    let children = revisions[node].children@;
    is_newer_branch(revisions, children[a] as int, children[b] as int) || (!is_newer_branch(
        revisions,
        children[b] as int,
        children[a] as int,
    ) && (a == children.len() - 1 || (b != children.len() - 1 && a < b)))
}

/// What is displayed of child number `k` of a revision at `depth`: the last child stays at the depth,
/// all others are one step deeper.
pub open spec fn shown_of_child(
    revisions: Seq<RevisionInfo>,
    node: int,
    depth: nat,
    k: int,
) -> Seq<(int, nat)> {
    let children = revisions[node].children@;
    display_order(
        revisions,
        history_tree(revisions, children[k] as int),
        if k == children.len() - 1 {
            depth
        } else {
            depth + 1
        },
    )
}

/// `shown` is all that is displayed of the children of a revision, in the order `order` of the
/// children, and below it the revision itself. The order has each child once, and none above one that
/// is to be displayed above it.
pub open spec fn stacks_children(
    revisions: Seq<RevisionInfo>,
    shown: Seq<(int, nat)>,
    node: int,
    depth: nat,
    order: Seq<int>,
) -> bool {
    let count = revisions[node].children@.len();
    &&& order.len() == count
    &&& forall|k: int| 0 <= k < count ==> #[trigger] order.contains(k)
    &&& forall|i: int, j: int|
        0 <= i < j < order.len() ==> is_above(
            revisions,
            node,
            #[trigger] order[i],
            #[trigger] order[j],
        )
    &&& shown == Seq::new(
        count,
        |i: int| shown_of_child(revisions, node, depth, order[i]),
    ).flatten().push((node, depth))
}

/// What is displayed of a revision is what is displayed of its children, the one that leads to the
/// newest revision on top, and below that the revision itself.
pub proof fn law_children_are_stacked(revisions: Seq<RevisionInfo>, node: int, depth: nat)
    requires
        is_history(revisions, node),
    ensures
        exists|order: Seq<int>|
            stacks_children(
                revisions,
                display_order(revisions, history_tree(revisions, node), depth),
                node,
                depth,
                order,
            ),
{
    let links = revision_links(revisions);
    let t = history_tree(revisions, node);
    let children = revisions[node].children@;
    let order = branch_order(revisions, t.children);
    let first = displayed_first(revisions, t.children);
    lemma_tree_children(links, node);
    lemma_branch_order(revisions, t.children);
    assert forall|k: int| 0 <= k < children.len() implies t.children[k] == history_tree(
        revisions,
        #[trigger] children[k] as int,
    ) && is_history(revisions, children[k] as int) by {
        assert(links(node)->0[k] == children[k] as int);
    }
    assert forall|i: int| 0 <= i < order.len() implies 0 <= #[trigger] order[i]
        < children.len() by {
        assert(order.contains(order[i]));
    }
    assert forall|i: int, j: int| 0 <= i < j < order.len() implies is_above(
        revisions,
        node,
        #[trigger] order[i],
        #[trigger] order[j],
    ) by {
        let a = order[i];
        let b = order[j];
        assert(first(a, b));
        lemma_newer_branch(revisions, children[a] as int, children[b] as int);
        lemma_newer_branch(revisions, children[b] as int, children[a] as int);
    }
    lemma_branches_flatten(revisions, t, depth, order);
    assert(Seq::new(
        order.len(),
        |i: int|
            display_order(revisions, t.children[order[i]], branch_depth(t, depth, order[i])),
    ) =~= Seq::new(children.len(), |i: int| shown_of_child(revisions, node, depth, order[i])));
    assert(stacks_children(revisions, display_order(revisions, t, depth), node, depth, order));
}

/// What the undo tree lists is what is displayed of the root's children, the one that leads to the
/// newest revision on top, and below that the root, without indentation.
pub proof fn law_listing_is_stacked(revisions: Seq<RevisionInfo>)
    requires
        revisions.len() > 0,
        is_history(revisions, 0),
    ensures
        exists|order: Seq<int>| stacks_children(revisions, listing(revisions), 0, 0, order),
{
    law_children_are_stacked(revisions, 0, 0);
    let shown = display_order(revisions, history_tree(revisions, 0), 0);
    let order = choose|order: Seq<int>| stacks_children(revisions, shown, 0, 0, order);
    assert(stacks_children(revisions, listing(revisions), 0, 0, order));
}

/// The newest time in a tree is the time of a revision in it.
proof fn lemma_newest_attained(revisions: Seq<RevisionInfo>, t: Unfolding) -> (r: int)
    ensures
        in_tree(t, r),
        revisions[r].timestamp == newest(revisions, t),
    decreases t, t.children.len() + 1,
{
    lemma_newest_among_attained(revisions, t, t.children.len())
}

proof fn lemma_newest_among_attained(revisions: Seq<RevisionInfo>, t: Unfolding, m: nat) -> (r: int)
    requires
        m <= t.children.len(),
    ensures
        in_tree(t, r),
        revisions[r].timestamp == newest_among(
            revisions,
            revisions[t.node].timestamp as int,
            t.children.take(m as int),
        ),
        m == t.children.len() ==> revisions[r].timestamp == newest(revisions, t),
    decreases t, m,
{
    let at = revisions[t.node].timestamp as int;
    let ts = t.children.take(m as int);
    assert(t.children.take(t.children.len() as int) =~= t.children);
    if m == 0 {
        t.node
    } else {
        let before = lemma_newest_among_attained(revisions, t, (m - 1) as nat);
        assert(ts.drop_last() =~= t.children.take(m - 1));
        let last = lemma_newest_attained(revisions, t.children[m - 1]);
        if newest(revisions, ts.last()) > newest_among(revisions, at, ts.drop_last()) {
            assert(in_tree(t.children[m - 1], last));
            last
        } else {
            before
        }
    }
}

/// The branch with the newer newest revision is the newer one.
proof fn lemma_newer_branch(revisions: Seq<RevisionInfo>, a: int, b: int)
    requires
        is_history(revisions, a),
        is_history(revisions, b),
    ensures
        is_newer_branch(revisions, a, b) <==> newest(revisions, history_tree(revisions, a))
            > newest(revisions, history_tree(revisions, b)),
{
    let links = revision_links(revisions);
    let ta = history_tree(revisions, a);
    let tb = history_tree(revisions, b);
    assert(unfolds(links, a, ta));
    assert(unfolds(links, b, tb));
    let ra = lemma_newest_attained(revisions, ta);
    let rb = lemma_newest_attained(revisions, tb);
    lemma_in_tree_reachable(links, ta, ra);
    lemma_in_tree_reachable(links, tb, rb);
    if newest(revisions, ta) > newest(revisions, tb) {
        assert forall|q: int| #[trigger] reachable(links, b, q) implies revisions[q].timestamp
            < revisions[ra].timestamp by {
            lemma_in_tree_reachable(links, tb, q);
            lemma_newest_is_newest(revisions, tb, q);
        }
        assert(reachable(links, a, ra));
    }
    if is_newer_branch(revisions, a, b) {
        let r = choose|r: int| #[trigger]
            reachable(links, a, r) && forall|q: int| #[trigger]
                reachable(links, b, q) ==> revisions[q].timestamp < revisions[r].timestamp;
        lemma_in_tree_reachable(links, ta, r);
        lemma_newest_is_newest(revisions, ta, r);
        assert(reachable(links, b, rb));
    }
}

/// What is displayed of several branches is what is displayed of each, one after the other.
proof fn lemma_branches_flatten(
    revisions: Seq<RevisionInfo>,
    t: Unfolding,
    depth: nat,
    picks: Seq<int>,
)
    requires
        forall|i: int| 0 <= i < picks.len() ==> 0 <= #[trigger] picks[i] < t.children.len(),
    ensures
        display_branches(revisions, t, depth, picks) == Seq::new(
            picks.len(),
            |i: int|
                display_order(revisions, t.children[picks[i]], branch_depth(t, depth, picks[i])),
        ).flatten(),
    decreases picks.len(),
{
    let shown = Seq::new(
        picks.len(),
        |i: int| display_order(revisions, t.children[picks[i]], branch_depth(t, depth, picks[i])),
    );
    if picks.len() > 0 {
        let before = picks.drop_last();
        lemma_branches_flatten(revisions, t, depth, before);
        let shown_before = Seq::new(
            before.len(),
            |i: int|
                display_order(revisions, t.children[before[i]], branch_depth(t, depth, before[i])),
        );
        shown_before.lemma_flatten_push(shown.last());
        assert(shown =~= shown_before.push(shown.last()));
        assert(picks[picks.len() - 1] == picks.last());
    } else {
        assert(shown =~= seq![]);
    }
}

/// Where a revision is listed at some depth, its last child is listed at the same depth, and every
/// other child one step deeper.
pub proof fn law_only_last_child_stays(revisions: Seq<RevisionInfo>, node: int, depth: nat, k: int)
    requires
        revisions.len() > 0,
        is_history(revisions, 0),
        listing(revisions).contains((node, depth)),
        0 <= k < revisions[node].children@.len(),
    ensures
        k == revisions[node].children@.len() - 1 ==> listing(revisions).contains(
            (revisions[node].children@[k] as int, depth),
        ),
        k < revisions[node].children@.len() - 1 ==> listing(revisions).contains(
            (revisions[node].children@[k] as int, depth + 1),
        ),
{
    let t = history_tree(revisions, 0);
    assert(unfolds(revision_links(revisions), 0, t));
    lemma_child_displayed(revisions, t, 0, (node, depth), k);
}

proof fn lemma_child_displayed(
    revisions: Seq<RevisionInfo>,
    t: Unfolding,
    depth: nat,
    entry: (int, nat),
    k: int,
)
    requires
        unfolds(revision_links(revisions), t.node, t),
        display_order(revisions, t, depth).contains(entry),
        0 <= k < revisions[entry.0].children@.len(),
    ensures
        display_order(revisions, t, depth).contains(
            (
                revisions[entry.0].children@[k] as int,
                if k == revisions[entry.0].children@.len() - 1 {
                    entry.1
                } else {
                    entry.1 + 1
                },
            ),
        ),
    decreases t,
{
    let links = revision_links(revisions);
    let next = links(t.node)->0;
    let picks = branch_order(revisions, t.children);
    let branches = display_branches(revisions, t, depth, picks);
    let shown = display_order(revisions, t, depth);
    let below = (
        revisions[entry.0].children@[k] as int,
        if k == revisions[entry.0].children@.len() - 1 {
            entry.1
        } else {
            entry.1 + 1
        },
    );
    lemma_branch_order(revisions, t.children);
    let j = choose|j: int| 0 <= j < shown.len() && shown[j] == entry;
    let i = if j == shown.len() - 1 {
        assert(entry == (t.node, depth));
        assert(picks.contains(k));
        let child = display_order(revisions, t.children[k], branch_depth(t, depth, k));
        assert(unfolds(links, next[k], t.children[k]));
        assert(child[child.len() - 1] == below);
        choose|i: int| 0 <= i < picks.len() && picks[i] == k
    } else {
        assert(branches[j] == entry);
        let i = lemma_displayed_in_branch(revisions, t, depth, picks, entry);
        assert(unfolds(links, next[picks[i]], t.children[picks[i]]));
        lemma_child_displayed(
            revisions,
            t.children[picks[i]],
            branch_depth(t, depth, picks[i]),
            entry,
            k,
        );
        i
    };
    lemma_branch_displayed(revisions, t, depth, picks, i, below);
    let b = choose|b: int| 0 <= b < branches.len() && branches[b] == below;
    assert(shown[b] == below);
}

/// What is displayed of several branches is displayed of one of them.
proof fn lemma_displayed_in_branch(
    revisions: Seq<RevisionInfo>,
    t: Unfolding,
    depth: nat,
    picks: Seq<int>,
    entry: (int, nat),
) -> (i: int)
    requires
        display_branches(revisions, t, depth, picks).contains(entry),
    ensures
        0 <= i < picks.len(),
        0 <= picks[i] < t.children.len(),
        display_order(revisions, t.children[picks[i]], branch_depth(t, depth, picks[i])).contains(
            entry,
        ),
    decreases picks.len(),
{
    let all = display_branches(revisions, t, depth, picks);
    let j = choose|j: int| 0 <= j < all.len() && all[j] == entry;
    let a = display_branches(revisions, t, depth, picks.drop_last());
    if j < a.len() {
        assert(a[j] == entry);
        lemma_displayed_in_branch(revisions, t, depth, picks.drop_last(), entry)
    } else {
        let k = picks.last();
        let b = display_order(revisions, t.children[k], branch_depth(t, depth, k));
        assert(b[j - a.len()] == entry);
        picks.len() - 1
    }
}

/// Going down and then up comes back, except from the last line.
pub proof fn law_down_then_up(s: UndoTreeState)
    requires
        s.wf(),
        s.selected + 1 < s.lines.len(),
    ensures
        ({
            let down = UndoTreeState { selected: selection_after(s, KeyCode::Down), ..s };
            selection_after(down, KeyCode::Up) == s.selected
        }),
{
}

/// Going up and then down comes back, except from the first line.
pub proof fn law_up_then_down(s: UndoTreeState)
    requires
        s.wf(),
        s.selected > 0,
    ensures
        ({
            let up = UndoTreeState { selected: selection_after(s, KeyCode::Up), ..s };
            selection_after(up, KeyCode::Down) == s.selected
        }),
{
}

/// While the line of the current revision is selected, `Enter` asks for the current revision.
pub proof fn law_enter_at_current(s: UndoTreeState, current_rev: usize)
    requires
        s.wf(),
        first_line_of(s.lines, current_rev, s.selected),
    ensures
        reaction_to(s, KeyCode::Enter) == EventResult::Consumed(
            Some(Callback::JumpToRevision { revision: current_rev }),
        ),
{
}

/// `Enter` only ever asks for a revision that exists.
pub proof fn law_enter_asks_for_revision(s: UndoTreeState)
    requires
        s.wf(),
        s.lines.len() > 0,
    ensures
        reaction_to(s, KeyCode::Enter) matches EventResult::Consumed(
            Some(Callback::JumpToRevision { revision }),
        ) && revision < s.revisions.len(),
{
}

/// The selected line is always among those that are drawn, if any are.
pub proof fn law_selected_line_is_drawn(s: UndoTreeState, height: int)
    requires
        s.wf(),
        draws(s, height),
    ensures
        ({
            let drawn = after_render(s, height);
            drawn.scroll <= drawn.selected < drawn.scroll + rows_drawn(s, height)
        }),
{
}

/// Drawing again in an area of the same height draws the same lines.
pub proof fn law_render_settles(s: UndoTreeState, height: int)
    requires
        s.wf(),
        height >= 0,
    ensures
        after_render(after_render(s, height), height) == after_render(s, height),
        rows_drawn(after_render(s, height), height) == rows_drawn(s, height),
{
}

/// In a history every revision that can be reached from the root exists, and none can be reached from
/// what was made from it.
pub proof fn law_history_has_no_cycle(revisions: Seq<RevisionInfo>, r: int, k: int)
    requires
        is_history(revisions, 0),
        reachable(revision_links(revisions), 0, r),
    ensures
        0 <= r < revisions.len(),
        0 <= k < revisions[r].children@.len() ==> !reachable(
            revision_links(revisions),
            revisions[r].children@[k] as int,
            r,
        ),
{
    lemma_unfolded_has_no_cycle(revision_links(revisions), 0, r, k);
}

/// Revisions that are numbered in the order in which they were made are a history, however many there
/// are and wherever they branch.
pub proof fn law_numbered_in_order_is_history(revisions: Seq<RevisionInfo>, node: int)
    requires
        0 <= node < revisions.len(),
        forall|i: int, k: int|
            0 <= i < revisions.len() && 0 <= k < revisions[i].children@.len() ==> i < (
            #[trigger] revisions[i].children@[k]) < revisions.len(),
    ensures
        is_history(revisions, node),
{
    let links = revision_links(revisions);
    let inside = Set::new(|x: int| 0 <= x < revisions.len());
    let rank = |x: int| (revisions.len() - x) as nat;
    assert forall|x: int|
        #![trigger links(x)]
        inside.contains(x) implies (links(x) matches Some(next) && forall|k: int|
        0 <= k < next.len() ==> inside.contains(#[trigger] next[k]) && rank(next[k]) < rank(x)) by {
        let next = links(x)->0;
        assert forall|k: int| 0 <= k < next.len() implies inside.contains(#[trigger] next[k])
            && rank(next[k]) < rank(x) by {
            assert(next[k] == revisions[x].children@[k] as int);
        }
    }
    lemma_goes_down_ends(links, inside, rank, node);
    lemma_ends_within_unfolds(links, node, rank(node));
}

} // verus!
