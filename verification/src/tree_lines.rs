//! The lines of the undo tree: which revisions they show, in what order, and what they say of them.

use crate::forest::{
    descends, ends_within, lemma_chain_length, lemma_descends_further, lemma_ends_within_unfolds,
    lemma_tree_children, lemma_unfolds_ends_within, nodes_in, tree_of, unfolds, well_founded, Links,
    Unfolding,
};
use crate::line_laws::{law_line_tells_of, tells_of};
use crate::text::{duration_text, format_duration, numeral, push_numeral};
use vstd::prelude::*;
use vstd::relations::{sorted_by, total_ordering};
use vstd::seq_lib::lemma_sorted_unique;
use vstd::set_lib::{lemma_int_range, set_int_range};
use vstd::string::StringExecFns;

verus! {

/// One revision of a document's history.
pub struct RevisionInfo {
    /// When the revision was made, in nanoseconds on a clock that never goes back.
    pub timestamp: u64,
    /// Whether the document is at this revision.
    pub is_current: bool,
    /// The revisions that were made from this one, oldest first.
    pub children: Vec<usize>,
}

/// The links from each revision to those made from it.
pub open spec fn revision_links(revisions: Seq<RevisionInfo>) -> Links {
    |i: int|
        if 0 <= i < revisions.len() {
            Some(Seq::new(revisions[i].children@.len(), |k: int| revisions[i].children@[k] as int))
        } else {
            None
        }
}

/// Every revision that can be reached from `node` exists, and none of them can be reached from
/// itself.
pub open spec fn is_history(revisions: Seq<RevisionInfo>, node: int) -> bool {
    well_founded(revision_links(revisions), node)
}

/// The tree of the revisions that can be reached from `node`.
pub open spec fn history_tree(revisions: Seq<RevisionInfo>, node: int) -> Unfolding {
    tree_of(revision_links(revisions), node)
}

/// The time of the newest revision in a tree.
pub open spec fn newest(revisions: Seq<RevisionInfo>, t: Unfolding) -> int
    decreases t,
{
    newest_among(revisions, revisions[t.node].timestamp as int, t.children)
}

/// The latest of the time `at` and the times of the newest revisions in several trees.
pub open spec fn newest_among(revisions: Seq<RevisionInfo>, at: int, ts: Seq<Unfolding>) -> int
    decreases ts,
{
    if ts.len() == 0 {
        at
    } else {
        let before = newest_among(revisions, at, ts.drop_last());
        let last = newest(revisions, ts.last());
        if last > before {
            last
        } else {
            before
        }
    }
}

/// Which of two branches, given by their numbers, is displayed first: the one with the newest
/// revision; of two with equally new ones the main path, which is the last branch, and else the one
/// that was started first.
pub open spec fn displayed_first(revisions: Seq<RevisionInfo>, ts: Seq<Unfolding>) -> spec_fn(
    int,
    int,
) -> bool {
    |a: int, b: int|
        newest(revisions, ts[a]) > newest(revisions, ts[b]) || (newest(revisions, ts[a]) == newest(
            revisions,
            ts[b],
        ) && (a == b || a == ts.len() - 1 || (b != ts.len() - 1 && a <= b)))
}

/// The numbers of several branches in the order in which they are displayed.
pub open spec fn branch_order(revisions: Seq<RevisionInfo>, ts: Seq<Unfolding>) -> Seq<int> {
    Seq::new(ts.len(), |k: int| k).sort_by(displayed_first(revisions, ts))
}

/// The revisions of a tree as they are displayed, with the depth of each: the branches in their
/// order, the main path, which follows the last child, at the same depth and the others one deeper,
/// and last the revision that they were made from.
pub open spec fn display_order(revisions: Seq<RevisionInfo>, t: Unfolding, depth: nat) -> Seq<
    (int, nat),
>
    decreases t, 1nat, 0nat,
{
    display_branches(revisions, t, depth, branch_order(revisions, t.children)).push(
        (t.node, depth),
    )
}

/// The revisions of the branches of `t` with the numbers `picks`, as they are displayed.
pub open spec fn display_branches(
    revisions: Seq<RevisionInfo>,
    t: Unfolding,
    depth: nat,
    picks: Seq<int>,
) -> Seq<(int, nat)>
    decreases t, 0nat, picks.len(),
{
    if picks.len() == 0 {
        seq![]
    } else {
        display_branches(revisions, t, depth, picks.drop_last()) + if 0 <= picks.last()
            < t.children.len() {
            display_order(
                revisions,
                t.children[picks.last()],
                branch_depth(t, depth, picks.last()),
            )
        } else {
            seq![]
        }
    }
}

/// The depth of branch number `k` of a revision at `depth`.
pub open spec fn branch_depth(t: Unfolding, depth: nat, k: int) -> nat {
    if k == t.children.len() - 1 {
        depth
    } else {
        depth + 1
    }
}

/// `order` holds the numbers below `n`, each once.
pub open spec fn is_arrangement(order: Seq<int>, n: nat) -> bool {
    &&& order.no_duplicates()
    &&& forall|k: int| #[trigger] order.contains(k) <==> 0 <= k < n
}

proof fn lemma_displayed_first_total(revisions: Seq<RevisionInfo>, ts: Seq<Unfolding>)
    ensures
        total_ordering(displayed_first(revisions, ts)),
{
}

proof fn lemma_arrangements_equal_multisets(a: Seq<int>, b: Seq<int>, n: nat)
    requires
        is_arrangement(a, n),
        is_arrangement(b, n),
    ensures
        a.to_multiset() == b.to_multiset(),
{
    broadcast use vstd::seq_lib::group_to_multiset_ensures;

    a.lemma_multiset_has_no_duplicates();
    b.lemma_multiset_has_no_duplicates();
    assert forall|x: int| a.to_multiset().count(x) == b.to_multiset().count(x) by {
        assert(a.contains(x) <==> a.to_multiset().count(x) > 0);
        assert(b.contains(x) <==> b.to_multiset().count(x) > 0);
        assert(a.contains(x) <==> b.contains(x));
        if a.contains(x) {
            assert(a.to_multiset().contains(x));
            assert(b.to_multiset().contains(x));
        }
    }
    assert(a.to_multiset() =~= b.to_multiset());
}

proof fn lemma_numbers_arranged(n: nat)
    ensures
        is_arrangement(Seq::new(n, |k: int| k), n),
{
    let numbers = Seq::new(n, |k: int| k);
    assert forall|k: int| #[trigger] numbers.contains(k) <==> 0 <= k < n by {
        if 0 <= k < n {
            assert(numbers[k] == k);
        }
    }
}

/// The order of the branches holds each of them once, and no branch comes before one that is
/// displayed first.
pub proof fn lemma_branch_order(revisions: Seq<RevisionInfo>, ts: Seq<Unfolding>)
    ensures
        is_arrangement(branch_order(revisions, ts), ts.len()),
        branch_order(revisions, ts).len() == ts.len(),
        sorted_by(branch_order(revisions, ts), displayed_first(revisions, ts)),
{
    broadcast use vstd::seq_lib::group_to_multiset_ensures;

    let numbers = Seq::new(ts.len(), |k: int| k);
    let order = branch_order(revisions, ts);
    lemma_displayed_first_total(revisions, ts);
    lemma_numbers_arranged(ts.len());
    numbers.lemma_sort_by_ensures(displayed_first(revisions, ts));
    numbers.lemma_multiset_has_no_duplicates();
    order.lemma_multiset_has_no_duplicates_conv();
    assert(numbers.to_multiset().len() == order.to_multiset().len());
    assert forall|k: int| #[trigger] order.contains(k) <==> 0 <= k < ts.len() by {
        assert(order.contains(k) <==> order.to_multiset().count(k) > 0);
        assert(numbers.contains(k) <==> numbers.to_multiset().count(k) > 0);
    }
}

/// Each branch once, none before one that is displayed first: that is the order of the branches.
pub proof fn lemma_branch_order_unique(
    revisions: Seq<RevisionInfo>,
    ts: Seq<Unfolding>,
    order: Seq<int>,
)
    requires
        is_arrangement(order, ts.len()),
        sorted_by(order, displayed_first(revisions, ts)),
    ensures
        order == branch_order(revisions, ts),
{
    lemma_branch_order(revisions, ts);
    lemma_displayed_first_total(revisions, ts);
    lemma_arrangements_equal_multisets(order, branch_order(revisions, ts), ts.len());
    lemma_sorted_unique(order, branch_order(revisions, ts), displayed_first(revisions, ts));
}

/// Collected pairs of a revision and a depth, as mathematical pairs.
pub open spec fn entries(pairs: Seq<(usize, usize)>) -> Seq<(int, nat)> {
    Seq::new(pairs.len(), |j: int| (pairs[j].0 as int, pairs[j].1 as nat))
}

/// Every depth is one that the machine can hold.
pub open spec fn depths_fit(s: Seq<(int, nat)>) -> bool {
    forall|j: int| 0 <= j < s.len() ==> (#[trigger] s[j]).1 <= usize::MAX
}

proof fn lemma_depths_fit_concat(a: Seq<(int, nat)>, b: Seq<(int, nat)>)
    ensures
        depths_fit(a + b) <==> depths_fit(a) && depths_fit(b),
{
    if depths_fit(a + b) {
        assert forall|j: int| 0 <= j < a.len() implies (#[trigger] a[j]).1 <= usize::MAX by {
            assert((a + b)[j] == a[j]);
        }
        assert forall|j: int| 0 <= j < b.len() implies (#[trigger] b[j]).1 <= usize::MAX by {
            assert((a + b)[a.len() + j] == b[j]);
        }
    }
}

/// The time of the newest revision that can be reached from `node`.
fn newest_below(revisions: &[RevisionInfo], node: usize) -> (res: u64)
    requires
        is_history(revisions@, node as int),
    ensures
        res == newest(revisions@, history_tree(revisions@, node as int)),
    decreases history_tree(revisions@, node as int),
{
    let ghost links = revision_links(revisions@);
    let ghost t = history_tree(revisions@, node as int);
    proof {
        lemma_tree_children(links, node as int);
    }
    let count: usize = revisions[node].children.len();
    let mut res: u64 = revisions[node].timestamp;
    let mut k: usize = 0;
    while k < count
        invariant
            links == revision_links(revisions@),
            is_history(revisions@, node as int),
            t == history_tree(revisions@, node as int),
            t.children.len() == count,
            node < revisions@.len(),
            revisions@[node as int].children@.len() == count,
            forall|j: int|
                #![trigger links(node as int)->0[j]]
                0 <= j < count ==> well_founded(links, links(node as int)->0[j]) && tree_of(
                    links,
                    links(node as int)->0[j],
                ) == t.children[j],
            k <= count,
            res == newest_among(
                revisions@,
                revisions@[node as int].timestamp as int,
                t.children.take(k as int),
            ),
        decreases count - k,
    {
        let child: usize = revisions[node].children[k];
        proof {
            assert(links(node as int)->0[k as int] == child as int);
            assert(t.children.take(k + 1).drop_last() =~= t.children.take(k as int));
        }
        let below: u64 = newest_below(revisions, child);
        if below > res {
            res = below;
        }
        k += 1;
    }
    assert(t.children.take(k as int) =~= t.children);
    res
}

/// Numbers of branches, as mathematical numbers.
spec fn as_numbers(order: Seq<usize>) -> Seq<int> {
    Seq::new(order.len(), |i: int| order[i] as int)
}

/// Puts branch number `k` in its place among those with lower numbers. `times` are the times of the
/// newest revisions in the branches `ts` of `node`.
fn insert_branch(
    revisions: &[RevisionInfo],
    node: usize,
    times: &Vec<u64>,
    order: &mut Vec<usize>,
    k: usize,
)
    requires
        ({
            let ts = history_tree(revisions@, node as int).children;
            &&& k < ts.len()
            &&& times@.len() == ts.len()
            &&& forall|j: int|
                0 <= j < ts.len() ==> #[trigger] times@[j] == newest(revisions@, ts[j])
            &&& sorted_by(as_numbers(old(order)@), displayed_first(revisions@, ts))
        }),
        is_arrangement(as_numbers(old(order)@), k as nat),
    ensures
        is_arrangement(as_numbers(final(order)@), k as nat + 1),
        sorted_by(
            as_numbers(final(order)@),
            displayed_first(revisions@, history_tree(revisions@, node as int).children),
        ),
{
    let ghost ts = history_tree(revisions@, node as int).children;
    let ghost first = displayed_first(revisions@, ts);
    let ghost lower = order@;
    let ghost before = as_numbers(order@);
    assert forall|j: int| 0 <= j < lower.len() implies #[trigger] lower[j] < k by {
        assert(before[j] == lower[j]);
        assert(before.contains(before[j]));
    }
    let last: usize = times.len() - 1;
    let mut i: usize = 0;
    while i < order.len() && (times[order[i]] > times[k] || (times[order[i]] == times[k] && k
        != last))
        invariant
            order@ == lower,
            before == as_numbers(lower),
            first == displayed_first(revisions@, ts),
            k < ts.len(),
            times@.len() == ts.len(),
            last == ts.len() - 1,
            forall|j: int| 0 <= j < ts.len() ==> #[trigger] times@[j] == newest(revisions@, ts[j]),
            forall|j: int| 0 <= j < lower.len() ==> #[trigger] lower[j] < k,
            i <= lower.len(),
            forall|j: int| 0 <= j < i ==> first(#[trigger] before[j], k as int),
        decreases lower.len() - i,
    {
        assert(lower[i as int] < k);
        assert(times@[lower[i as int] as int] == newest(revisions@, ts[lower[i as int] as int]));
        assert(times@[k as int] == newest(revisions@, ts[k as int]));
        i += 1;
    }
    proof {
        lemma_displayed_first_total(revisions@, ts);
        assert(times@[k as int] == newest(revisions@, ts[k as int]));
        if i < lower.len() {
            assert(lower[i as int] < k);
            assert(times@[lower[i as int] as int] == newest(
                revisions@,
                ts[lower[i as int] as int],
            ));
            assert(first(k as int, before[i as int]));
        }
        assert forall|j: int| i <= j < before.len() implies first(
            k as int,
            #[trigger] before[j],
        ) by {
            if j > i {
                assert(first(before[i as int], before[j]));
            }
        }
    }
    order.insert(i, k);
    proof {
        let after = as_numbers(order@);
        assert(after =~= before.insert(i as int, k as int));
        assert forall|a: int, b: int| 0 <= a < b < after.len() implies first(
            #[trigger] after[a],
            #[trigger] after[b],
        ) by {
            if a < i && b > i {
                assert(first(before[a], before[b - 1]));
            } else if b < i {
                assert(first(before[a], before[b]));
            } else if a > i {
                assert(first(before[a - 1], before[b - 1]));
            }
        }
        assert forall|x: int| #[trigger] after.contains(x) <==> 0 <= x < k + 1 by {
            if after.contains(x) {
                let a = choose|a: int| 0 <= a < after.len() && after[a] == x;
                if a < i {
                    assert(before.contains(before[a]));
                } else if a > i {
                    assert(before.contains(before[a - 1]));
                }
            }
            assert(after[i as int] == k);
            if 0 <= x < k {
                assert(before.contains(x));
                let a = choose|a: int| 0 <= a < before.len() && before[a] == x;
                assert(after[if a < i {
                    a
                } else {
                    a + 1
                }] == x);
            }
        }
        assert(!before.contains(k as int));
        assert forall|a: int, b: int|
            0 <= a < after.len() && 0 <= b < after.len() && a != b implies after[a] != after[b] by {
            let from_a = if a < i {
                a
            } else {
                a - 1
            };
            let from_b = if b < i {
                b
            } else {
                b - 1
            };
            if a != i {
                assert(before.contains(before[from_a]));
            }
            if b != i {
                assert(before.contains(before[from_b]));
            }
        }
    }
}

/// The numbers of the branches of `node` in the order in which they are displayed.
fn ordered_branches(revisions: &[RevisionInfo], node: usize) -> (order: Vec<usize>)
    requires
        is_history(revisions@, node as int),
    ensures
        as_numbers(order@) == branch_order(
            revisions@,
            history_tree(revisions@, node as int).children,
        ),
{
    let ghost links = revision_links(revisions@);
    let ghost ts = history_tree(revisions@, node as int).children;
    proof {
        lemma_tree_children(links, node as int);
    }
    let count: usize = revisions[node].children.len();
    let mut order: Vec<usize> = Vec::new();
    if count == 1 {
        order.push(0);
        proof {
            assert(as_numbers(order@) =~= seq![0int]);
            assert(seq![0int][0] == 0);
            lemma_branch_order_unique(revisions@, ts, as_numbers(order@));
        }
        return order;
    }
    let mut times: Vec<u64> = Vec::new();
    let mut k: usize = 0;
    while k < count
        invariant
            links == revision_links(revisions@),
            is_history(revisions@, node as int),
            ts == history_tree(revisions@, node as int).children,
            ts.len() == count,
            node < revisions@.len(),
            revisions@[node as int].children@.len() == count,
            forall|j: int|
                #![trigger links(node as int)->0[j]]
                0 <= j < count ==> well_founded(links, links(node as int)->0[j]) && tree_of(
                    links,
                    links(node as int)->0[j],
                ) == ts[j],
            k <= count,
            times@.len() == k,
            forall|j: int| 0 <= j < k ==> #[trigger] times@[j] == newest(revisions@, ts[j]),
        decreases count - k,
    {
        let child: usize = revisions[node].children[k];
        assert(links(node as int)->0[k as int] == child as int);
        times.push(newest_below(revisions, child));
        k += 1;
    }
    let mut i: usize = 0;
    while i < count
        invariant
            ts == history_tree(revisions@, node as int).children,
            ts.len() == count,
            times@.len() == count,
            forall|j: int| 0 <= j < count ==> #[trigger] times@[j] == newest(revisions@, ts[j]),
            i <= count,
            is_arrangement(as_numbers(order@), i as nat),
            sorted_by(as_numbers(order@), displayed_first(revisions@, ts)),
        decreases count - i,
    {
        insert_branch(revisions, node, &times, &mut order, i);
        i += 1;
    }
    proof {
        lemma_branch_order_unique(revisions@, ts, as_numbers(order@));
    }
    order
}

/// The depths of the first of several branches fit where the depths of all do, and so does the depth
/// of each branch.
proof fn lemma_branch_depths_fit(
    revisions: Seq<RevisionInfo>,
    t: Unfolding,
    depth: nat,
    picks: Seq<int>,
)
    requires
        picks.len() > 0,
        0 <= picks.last() < t.children.len(),
        depths_fit(display_branches(revisions, t, depth, picks)),
    ensures
        depths_fit(display_branches(revisions, t, depth, picks.drop_last())),
        depths_fit(
            display_order(
                revisions,
                t.children[picks.last()],
                branch_depth(t, depth, picks.last()),
            ),
        ),
        branch_depth(t, depth, picks.last()) <= usize::MAX,
{
    let child = display_order(
        revisions,
        t.children[picks.last()],
        branch_depth(t, depth, picks.last()),
    );
    lemma_depths_fit_concat(display_branches(revisions, t, depth, picks.drop_last()), child);
    assert(child.last().1 == branch_depth(t, depth, picks.last()));
    assert(child[child.len() - 1].1 <= usize::MAX);
}

/// Collects a revision and all that can be reached from it, each before those made from it: the
/// display the other way round.
pub fn dfs_collect(
    revisions: &[RevisionInfo],
    node: usize,
    depth: usize,
    out: &mut Vec<(usize, usize)>,
)
    requires
        is_history(revisions@, node as int),
        depths_fit(
            display_order(revisions@, history_tree(revisions@, node as int), depth as nat),
        ),
    ensures
        entries(final(out)@) == entries(old(out)@) + display_order(
            revisions@,
            history_tree(revisions@, node as int),
            depth as nat,
        ).reverse(),
    decreases history_tree(revisions@, node as int),
{
    let ghost links = revision_links(revisions@);
    let ghost t = history_tree(revisions@, node as int);
    let ghost picks = branch_order(revisions@, t.children);
    let ghost branches = display_branches(revisions@, t, depth as nat, picks);
    proof {
        lemma_tree_children(links, node as int);
        lemma_branch_order(revisions@, t.children);
    }
    let ghost before = entries(out@);
    out.push((node, depth));
    let count: usize = revisions[node].children.len();
    let order = ordered_branches(revisions, node);
    let ghost whole = before + display_order(revisions@, t, depth as nat).reverse();
    let mut i: usize = order.len();
    proof {
        assert(picks.take(i as int) =~= picks);
        lemma_depths_fit_concat(branches, seq![(t.node, depth as nat)]);
        assert(display_order(revisions@, t, depth as nat) =~= branches + seq![
            (t.node, depth as nat),
        ]);
        assert(entries(out@) + branches.reverse() =~= whole);
    }
    while i > 0
        invariant
            links == revision_links(revisions@),
            is_history(revisions@, node as int),
            t == history_tree(revisions@, node as int),
            t.children.len() == count,
            node < revisions@.len(),
            revisions@[node as int].children@.len() == count,
            forall|j: int|
                #![trigger links(node as int)->0[j]]
                0 <= j < count ==> well_founded(links, links(node as int)->0[j]) && tree_of(
                    links,
                    links(node as int)->0[j],
                ) == t.children[j],
            picks == as_numbers(order@),
            is_arrangement(picks, count as nat),
            i <= order@.len(),
            depths_fit(display_branches(revisions@, t, depth as nat, picks.take(i as int))),
            entries(out@) + display_branches(
                revisions@,
                t,
                depth as nat,
                picks.take(i as int),
            ).reverse() == whole,
        decreases i,
    {
        let ghost at = entries(out@);
        let ghost here = picks.take(i as int);
        let ghost rest = display_branches(revisions@, t, depth as nat, here.drop_last());
        i -= 1;
        let k: usize = order[i];
        let ghost shown = display_order(
            revisions@,
            t.children[k as int],
            branch_depth(t, depth as nat, k as int),
        );
        proof {
            assert(picks[i as int] == k);
            assert(picks.contains(picks[i as int]));
            assert(here.last() == k);
            assert(here.drop_last() =~= picks.take(i as int));
            lemma_branch_depths_fit(revisions@, t, depth as nat, here);
            assert(links(node as int)->0[k as int] == revisions@[node as int].children@[k as int]);
        }
        let child: usize = revisions[node].children[k];
        let child_depth: usize = if k == count - 1 {
            depth
        } else {
            depth + 1
        };
        dfs_collect(revisions, child, child_depth, out);
        assert((rest + shown).reverse() =~= shown.reverse() + rest.reverse());
        assert(entries(out@) + rest.reverse() =~= at + (rest + shown).reverse());
    }
    assert(entries(out@) + seq![].reverse() =~= entries(out@));
}

/// Every walk from `node` to revisions made from it, and on to those made from these, meets only
/// revisions that exist and has no more than `steps` steps.
fn walks_end(revisions: &[RevisionInfo], node: usize, steps: usize) -> (res: bool)
    ensures
        res == ends_within(revision_links(revisions@), node as int, steps as nat),
    decreases steps,
{
    let ghost links = revision_links(revisions@);
    if node >= revisions.len() {
        return false;
    }
    let ghost next = links(node as int)->0;
    let count: usize = revisions[node].children.len();
    if count == 0 {
        return true;
    }
    if steps == 0 {
        return false;
    }
    let mut k: usize = 0;
    while k < count
        invariant
            links == revision_links(revisions@),
            node < revisions@.len(),
            next == links(node as int)->0,
            count == revisions@[node as int].children@.len(),
            steps > 0,
            k <= count,
            forall|j: int|
                0 <= j < k ==> ends_within(links, #[trigger] next[j], (steps - 1) as nat),
        decreases count - k,
    {
        assert(next[k as int] == revisions@[node as int].children@[k as int] as int);
        if !walks_end(revisions, revisions[node].children[k], steps - 1) {
            return false;
        }
        k += 1;
    }
    true
}

/// Whether the undo tree of these revisions can be shown.
pub fn is_sound_history(revisions: &[RevisionInfo]) -> (res: bool)
    ensures
        res == (revisions@.len() == 0 || is_history(revisions@, 0)),
{
    let ghost links = revision_links(revisions@);
    let count: usize = revisions.len();
    if count == 0 {
        return true;
    }
    proof {
        let nodes = set_int_range(0, count as int);
        lemma_int_range(0, count as int);
        assert(nodes_in(links, nodes));
        if is_history(revisions@, 0) {
            lemma_unfolds_ends_within(links, nodes, 0, count as nat);
        }
        if ends_within(links, 0, count as nat) {
            lemma_ends_within_unfolds(links, 0, count as nat);
        }
    }
    walks_end(revisions, 0, count)
}

/// A line of the undo tree and the revision that it shows.
pub struct TreeLine {
    pub text: String,
    pub revision_index: usize,
}

/// What the undo tree of a history lists, top to bottom: each revision with its depth.
pub open spec fn listing(revisions: Seq<RevisionInfo>) -> Seq<(int, nat)> {
    if revisions.len() == 0 {
        seq![]
    } else {
        display_order(revisions, history_tree(revisions, 0), 0)
    }
}

/// Nodes and depths are all below `n`.
pub open spec fn all_below(s: Seq<(int, nat)>, n: nat) -> bool {
    forall|j: int| 0 <= j < s.len() ==> 0 <= (#[trigger] s[j]).0 < n && s[j].1 < n
}

/// No revision lies deeper than there are revisions: `above` are the trees that `t` lies in.
proof fn lemma_display_below(
    revisions: Seq<RevisionInfo>,
    links: Links,
    n: nat,
    t: Unfolding,
    depth: nat,
    above: Seq<Unfolding>,
)
    requires
        nodes_in(links, set_int_range(0, n as int)),
        descends(links, above.push(t)),
        depth <= above.len(),
    ensures
        all_below(display_order(revisions, t, depth), n),
    decreases t, 1nat, 0nat,
{
    let chain = above.push(t);
    assert(unfolds(links, chain.last().node, chain.last()));
    lemma_int_range(0, n as int);
    lemma_chain_length(links, set_int_range(0, n as int), chain);
    let picks = branch_order(revisions, t.children);
    lemma_branches_below(revisions, links, n, t, depth, above, picks);
    assert(all_below(seq![(t.node, depth)], n));
}

proof fn lemma_branches_below(
    revisions: Seq<RevisionInfo>,
    links: Links,
    n: nat,
    t: Unfolding,
    depth: nat,
    above: Seq<Unfolding>,
    picks: Seq<int>,
)
    requires
        nodes_in(links, set_int_range(0, n as int)),
        descends(links, above.push(t)),
        depth <= above.len(),
    ensures
        all_below(display_branches(revisions, t, depth, picks), n),
    decreases t, 0nat, picks.len(),
{
    if picks.len() > 0 {
        let k = picks.last();
        lemma_branches_below(revisions, links, n, t, depth, above, picks.drop_last());
        if 0 <= k < t.children.len() {
            lemma_descends_further(links, t, above, k);
            lemma_display_below(
                revisions,
                links,
                n,
                t.children[k],
                branch_depth(t, depth, k),
                above.push(t),
            );
        }
    }
}

/// Every revision and every depth in a history is below the number of revisions.
proof fn lemma_history_below(revisions: Seq<RevisionInfo>)
    requires
        is_history(revisions, 0),
    ensures
        all_below(display_order(revisions, history_tree(revisions, 0), 0), revisions.len()),
{
    let links = revision_links(revisions);
    let t = history_tree(revisions, 0);
    assert(unfolds(links, 0, t));
    lemma_display_below(revisions, links, revisions.len(), t, 0, seq![]);
}

/// What a history lists are revisions that it has.
pub proof fn lemma_listing_below(revisions: Seq<RevisionInfo>)
    requires
        revisions.len() == 0 || is_history(revisions, 0),
    ensures
        all_below(listing(revisions), revisions.len()),
{
    if revisions.len() > 0 {
        lemma_history_below(revisions);
    }
}

/// How many nanoseconds a second has.
pub const NANOS_PER_SEC: u64 = 1_000_000_000;

/// The whole seconds from `timestamp` to `now`; none where `now` comes first.
pub open spec fn age_secs(timestamp: u64, now: u64) -> nat {
    if timestamp <= now {
        ((now - timestamp) / NANOS_PER_SEC as int) as nat
    } else {
        0
    }
}

/// The indentation of a line at `depth`.
pub open spec fn indent(depth: nat) -> Seq<char> {
    Seq::new(2 * depth, |i: int| ' ')
}

/// What a line says of how many branches start at its revision: nothing if that is at most one.
pub open spec fn branch_info(branches: nat) -> Seq<char> {
    if branches > 1 {
        " ["@ + numeral(branches, 10) + " branches]"@
    } else {
        seq![]
    }
}

/// The text of the line that shows revision number `index`.
pub open spec fn line_text(rev: RevisionInfo, index: nat, depth: nat, now: u64) -> Seq<char> {
    indent(depth) + (if rev.is_current {
        "*"@
    } else {
        "o"@
    }) + " ["@ + numeral(index, 10) + "] "@ + duration_text(age_secs(rev.timestamp, now))
        + branch_info(rev.children@.len())
}

/// `line` shows the revision and the depth of `entry`.
pub open spec fn shows(
    line: TreeLine,
    revisions: Seq<RevisionInfo>,
    entry: (int, nat),
    now: u64,
) -> bool {
    &&& line.revision_index == entry.0
    &&& line.text@ == line_text(revisions[entry.0], entry.0 as nat, entry.1, now)
}

/// Appends the indentation of a line at `depth`.
fn push_indent(out: &mut String, depth: usize)
    ensures
        final(out)@ == old(out)@ + indent(depth as nat),
{
    let ghost start = out@;
    let mut i: usize = 0;
    assert(start + indent(0) =~= start);
    while i < depth
        invariant
            i <= depth,
            out@ == start + indent(i as nat),
        decreases depth - i,
    {
        proof {
            reveal_strlit("  ");
        }
        out.append("  ");
        i += 1;
        assert(out@ =~= start + indent(i as nat));
    }
}

/// The line of one revision.
fn tree_line(rev: &RevisionInfo, revision_index: usize, depth: usize, now: u64) -> (line: TreeLine)
    ensures
        line.revision_index == revision_index,
        line.text@ == line_text(*rev, revision_index as nat, depth as nat, now),
{
    let elapsed: u64 = if rev.timestamp <= now {
        (now - rev.timestamp) / NANOS_PER_SEC
    } else {
        0
    };
    let time = format_duration(elapsed);
    let mut text = String::new();
    push_indent(&mut text, depth);
    if rev.is_current {
        text.append("*");
    } else {
        text.append("o");
    }
    text.append(" [");
    push_numeral(&mut text, revision_index as u64, 10);
    text.append("] ");
    text.append(time.as_str());
    if rev.children.len() > 1 {
        text.append(" [");
        push_numeral(&mut text, rev.children.len() as u64, 10);
        text.append(" branches]");
    }
    assert(text@ =~= line_text(*rev, revision_index as nat, depth as nat, now));
    TreeLine { text, revision_index }
}

/// Builds the lines of the undo tree, top to bottom: at each revision the branches that were made
/// from it, the one with the newest revision first, and then the revision itself, so that the newest
/// revision is at the top and the root at the bottom. The main path, which follows the last child,
/// stays at the same depth; the other branches are indented further.
pub fn build_tree_lines(revisions: &[RevisionInfo], now: u64) -> (lines: Vec<TreeLine>)
    requires
        revisions@.len() == 0 || is_history(revisions@, 0),
    ensures
        lines@.len() == listing(revisions@).len(),
        forall|j: int|
            0 <= j < lines@.len() ==> shows(
                #[trigger] lines@[j],
                revisions@,
                listing(revisions@)[j],
                now,
            ),
        forall|j: int|
            0 <= j < lines@.len() ==> tells_of(
                #[trigger] lines@[j],
                revisions@,
                listing(revisions@)[j].1,
                now,
            ),
{
    let mut lines: Vec<TreeLine> = Vec::new();
    if revisions.len() == 0 {
        return lines;
    }
    let mut collected: Vec<(usize, usize)> = Vec::new();
    let ghost shown = listing(revisions@);
    proof {
        lemma_history_below(revisions@);
    }
    dfs_collect(revisions, 0, 0, &mut collected);
    assert(entries(collected@) =~= shown.reverse());
    let mut rest: usize = collected.len();
    while rest > 0
        invariant
            rest <= collected@.len(),
            shown == listing(revisions@),
            entries(collected@) == shown.reverse(),
            all_below(shown, revisions@.len()),
            lines@.len() == collected@.len() - rest,
            forall|j: int|
                0 <= j < lines@.len() ==> shows(#[trigger] lines@[j], revisions@, shown[j], now),
        decreases rest,
    {
        rest -= 1;
        let (rev_idx, depth) = collected[rest];
        assert(entries(collected@)[rest as int] == (rev_idx as int, depth as nat));
        assert(entries(collected@).len() == collected@.len());
        assert(shown[lines@.len() as int] == (rev_idx as int, depth as nat));
        lines.push(tree_line(&revisions[rev_idx], rev_idx, depth, now));
    }
    assert forall|j: int| 0 <= j < lines@.len() implies tells_of(
        #[trigger] lines@[j],
        revisions@,
        shown[j].1,
        now,
    ) by {
        law_line_tells_of(lines@[j], revisions@, shown[j], now);
    }
    lines
}

} // verus!
