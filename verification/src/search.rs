//! The visiting orders of the breadth-first and depth-first searches, and
//! the measure that shows they end when no cycle of children links can be
//! reached from the root.

use vstd::prelude::*;
use crate::tree::Tree;

verus! {

/// The work left below `v`: one for `v` itself plus that of each child, for
/// nodes of `reach`; one for any other id.
pub open spec fn weight(t: &Tree, rank: spec_fn(usize) -> nat, reach: Set<usize>, v: usize) -> nat
    decreases rank(v) + 1, 0nat,
{
    if t.has_id(v) && reach.contains(v) {
        1 + weight_list(t, rank, reach, rank(v), t.node_of(v).children)
    } else {
        1
    }
}

/// The work of the ids `cs`, each of rank below `bound`.
pub open spec fn weight_list(
    t: &Tree,
    rank: spec_fn(usize) -> nat,
    reach: Set<usize>,
    bound: nat,
    cs: Seq<usize>,
) -> nat
    decreases bound, cs.len(),
{
    if cs.len() == 0 {
        0
    } else {
        weight_list(t, rank, reach, bound, cs.drop_last()) + if rank(cs.last()) < bound {
            weight(t, rank, reach, cs.last())
        } else {
            1
        }
    }
}

/// The work of a queue or stack of ids.
pub open spec fn seq_weight(t: &Tree, rank: spec_fn(usize) -> nat, reach: Set<usize>, q: Seq<usize>) -> nat
    decreases q.len(),
{
    if q.len() == 0 {
        0
    } else {
        seq_weight(t, rank, reach, q.drop_last()) + weight(t, rank, reach, q.last())
    }
}

pub proof fn lemma_seq_weight_concat(
    t: &Tree,
    rank: spec_fn(usize) -> nat,
    reach: Set<usize>,
    a: Seq<usize>,
    b: Seq<usize>,
)
    ensures
        seq_weight(t, rank, reach, a + b) == seq_weight(t, rank, reach, a) + seq_weight(t, rank, reach, b),
    decreases b.len(),
{
    if b.len() > 0 {
        lemma_seq_weight_concat(t, rank, reach, a, b.drop_last());
        assert((a + b).drop_last() =~= a + b.drop_last());
    } else {
        assert(a + b =~= a);
    }
}

pub proof fn lemma_seq_weight_single(t: &Tree, rank: spec_fn(usize) -> nat, reach: Set<usize>, x: usize)
    ensures
        seq_weight(t, rank, reach, seq![x]) == weight(t, rank, reach, x),
{
    let q = seq![x];
    assert(q.drop_last() =~= Seq::<usize>::empty());
    assert(q.last() == x);
    assert(seq_weight(t, rank, reach, Seq::<usize>::empty()) == 0);
}

pub proof fn lemma_seq_weight_first(t: &Tree, rank: spec_fn(usize) -> nat, reach: Set<usize>, q: Seq<usize>)
    requires
        q.len() > 0,
    ensures
        seq_weight(t, rank, reach, q) == weight(t, rank, reach, q[0]) + seq_weight(t, rank, reach, q.drop_first()),
{
    lemma_seq_weight_concat(t, rank, reach, seq![q[0]], q.drop_first());
    assert(seq![q[0]] + q.drop_first() =~= q);
    lemma_seq_weight_single(t, rank, reach, q[0]);
}

pub proof fn lemma_seq_weight_reverse(t: &Tree, rank: spec_fn(usize) -> nat, reach: Set<usize>, q: Seq<usize>)
    ensures
        seq_weight(t, rank, reach, q.reverse()) == seq_weight(t, rank, reach, q),
    decreases q.len(),
{
    if q.len() > 0 {
        lemma_seq_weight_reverse(t, rank, reach, q.drop_last());
        assert(q.reverse() =~= seq![q.last()] + q.drop_last().reverse());
        lemma_seq_weight_concat(t, rank, reach, seq![q.last()], q.drop_last().reverse());
        lemma_seq_weight_single(t, rank, reach, q.last());
    }
}

/// Under a ranking, the children's work is their weight list.
pub proof fn lemma_children_weight(
    t: &Tree,
    rank: spec_fn(usize) -> nat,
    reach: Set<usize>,
    v: usize,
    cs: Seq<usize>,
)
    requires
        t.ranked(rank, reach),
        t.has_id(v),
        reach.contains(v),
        cs.len() <= t.node_of(v).children.len(),
        cs == t.node_of(v).children.take(cs.len() as int),
    ensures
        weight_list(t, rank, reach, rank(v), cs) == seq_weight(t, rank, reach, cs),
        forall|i: int| 0 <= i < cs.len() ==> reach.contains(#[trigger] cs[i]),
    decreases cs.len(),
{
    if cs.len() > 0 {
        let k = cs.len() - 1;
        assert(cs.drop_last() =~= t.node_of(v).children.take(k));
        lemma_children_weight(t, rank, reach, v, cs.drop_last());
        let c = cs.last();
        assert(c == t.node_of(v).children[k]);
        if !t.has_id(c) {
            assert(weight(t, rank, reach, c) == 1);
        }
        assert forall|i: int| 0 <= i < cs.len() implies reach.contains(#[trigger] cs[i]) by {
            if i < k {
                assert(cs[i] == cs.drop_last()[i]);
            }
            assert(cs[i] == t.node_of(v).children[i]);
        }
    }
}

/// The ranking and reach set chosen for a tree whose children links
/// reach no cycle from the root.
pub open spec fn chosen(t: &Tree) -> (spec_fn(usize) -> nat, Set<usize>) {
    choose|rank: spec_fn(usize) -> nat, reach: Set<usize>| t.ranked(rank, reach)
}

/// The queue holds only ids of the chosen reach set (or ids with no node).
pub open spec fn queue_ok(t: &Tree, q: Seq<usize>) -> bool {
    &&& t.children_acyclic()
    &&& forall|i: int| 0 <= i < q.len() && t.has_id(#[trigger] q[i]) ==> chosen(t).1.contains(q[i])
}

pub open spec fn measure(t: &Tree, q: Seq<usize>) -> nat {
    seq_weight(t, chosen(t).0, chosen(t).1, q)
}

/// Expanding the node `v`: its children (in either order) after `rest`
/// carry one unit of work less than `v` and `rest` together.
pub proof fn lemma_expand_core(t: &Tree, v: usize, rest: Seq<usize>, next: Seq<usize>)
    requires
        t.children_acyclic(),
        chosen(t).1.contains(v),
        forall|i: int| 0 <= i < rest.len() && t.has_id(#[trigger] rest[i]) ==> chosen(t).1.contains(rest[i]),
        t.has_id(v),
        next == rest + t.node_of(v).children || next == rest + t.node_of(v).children.reverse(),
    ensures
        measure(t, next) + 1 == weight(t, chosen(t).0, chosen(t).1, v) + measure(t, rest),
        queue_ok(t, next),
{
    let (rank, reach) = chosen(t);
    assert(t.ranked(rank, reach));
    let cs = t.node_of(v).children;
    assert(cs.take(cs.len() as int) =~= cs);
    lemma_children_weight(t, rank, reach, v, cs);
    lemma_seq_weight_concat(t, rank, reach, rest, cs);
    lemma_seq_weight_concat(t, rank, reach, rest, cs.reverse());
    lemma_seq_weight_reverse(t, rank, reach, cs);
    assert forall|i: int| 0 <= i < next.len() && t.has_id(#[trigger] next[i]) implies reach.contains(next[i]) by {
        if i < rest.len() {
            assert(next[i] == rest[i]);
        } else if next == rest + cs {
            assert(next[i] == cs[i - rest.len()]);
        } else {
            assert(next[i] == cs.reverse()[i - rest.len()]);
            assert(cs.reverse()[i - rest.len()] == cs[cs.len() - 1 - (i - rest.len())]);
        }
    }
}

/// For a queue: the first id's work, and the rest is still a good queue.
pub proof fn lemma_queue_front(t: &Tree, q: Seq<usize>)
    requires
        queue_ok(t, q),
        q.len() > 0,
    ensures
        measure(t, q) == weight(t, chosen(t).0, chosen(t).1, q[0]) + measure(t, q.drop_first()),
        weight(t, chosen(t).0, chosen(t).1, q[0]) >= 1,
        queue_ok(t, q.drop_first()),
        t.has_id(q[0]) ==> chosen(t).1.contains(q[0]),
        forall|i: int| 0 <= i < q.drop_first().len() && t.has_id(#[trigger] q.drop_first()[i]) ==> chosen(t).1.contains(q.drop_first()[i]),
{
    let (rank, reach) = chosen(t);
    lemma_seq_weight_first(t, rank, reach, q);
    assert forall|i: int| 0 <= i < q.drop_first().len() && t.has_id(#[trigger] q.drop_first()[i]) implies reach.contains(q.drop_first()[i]) by {
        assert(q.drop_first()[i] == q[i + 1]);
    }
}

/// For a stack: the top id's work, and the rest is still a good stack.
pub proof fn lemma_stack_top(t: &Tree, q: Seq<usize>)
    requires
        queue_ok(t, q),
        q.len() > 0,
    ensures
        measure(t, q) == weight(t, chosen(t).0, chosen(t).1, q.last()) + measure(t, q.drop_last()),
        weight(t, chosen(t).0, chosen(t).1, q.last()) >= 1,
        queue_ok(t, q.drop_last()),
        t.has_id(q.last()) ==> chosen(t).1.contains(q.last()),
        forall|i: int| 0 <= i < q.drop_last().len() && t.has_id(#[trigger] q.drop_last()[i]) ==> chosen(t).1.contains(q.drop_last()[i]),
{
    let (rank, reach) = chosen(t);
    assert forall|i: int| 0 <= i < q.drop_last().len() && t.has_id(#[trigger] q.drop_last()[i]) implies reach.contains(q.drop_last()[i]) by {
        assert(q.drop_last()[i] == q[i]);
    }
}

/// The ids a breadth-first search visits from the queue `q`: ids with no
/// node are dropped, and it stops at the first node that `pred` accepts;
/// otherwise the node's children join the back of the queue.
pub open spec fn bfs_order(t: &Tree, pred: spec_fn(usize) -> bool, q: Seq<usize>) -> Seq<usize>
    decreases measure(t, q),
    when queue_ok(t, q)
{
    if q.len() == 0 {
        Seq::empty()
    } else {
        let v = q[0];
        let rest = q.drop_first();
        proof {
            lemma_queue_front(t, q);
        }
        if !t.has_id(v) {
            bfs_order(t, pred, rest)
        } else if pred(v) {
            seq![v]
        } else {
            proof {
                lemma_expand_core(t, v, rest, rest + t.node_of(v).children);
            }
            seq![v] + bfs_order(t, pred, rest + t.node_of(v).children)
        }
    }
}

/// The ids a depth-first search visits from the stack `q` (top last):
/// children are stacked last-first, so that the first child is visited
/// next.
pub open spec fn dfs_order(t: &Tree, pred: spec_fn(usize) -> bool, q: Seq<usize>) -> Seq<usize>
    decreases measure(t, q),
    when queue_ok(t, q)
{
    if q.len() == 0 {
        Seq::empty()
    } else {
        let v = q.last();
        let rest = q.drop_last();
        proof {
            lemma_stack_top(t, q);
        }
        if !t.has_id(v) {
            dfs_order(t, pred, rest)
        } else if pred(v) {
            seq![v]
        } else {
            proof {
                lemma_expand_core(t, v, rest, rest + t.node_of(v).children.reverse());
            }
            seq![v] + dfs_order(t, pred, rest + t.node_of(v).children.reverse())
        }
    }
}

/// The node a search stops at: the last visited, if `pred` accepts it.
pub open spec fn found_of(order: Seq<usize>, pred: spec_fn(usize) -> bool) -> Option<usize> {
    if order.len() > 0 && pred(order.last()) {
        Some(order.last())
    } else {
        None
    }
}


/// `d` is `x`, or is reached from `x` by at most `k` children links that
/// leave nodes of the tree.
pub open spec fn reaches(t: &Tree, x: usize, d: usize, k: nat) -> bool
    decreases k,
{
    x == d || (k > 0 && t.has_id(x) && exists|i: int|
        #![trigger t.node_of(x).children[i]]
        0 <= i < t.node_of(x).children.len() && reaches(t, t.node_of(x).children[i], d, (k - 1) as nat))
}

pub proof fn lemma_reaches_mono(t: &Tree, x: usize, d: usize, k: nat, k2: nat)
    requires
        reaches(t, x, d, k),
        k <= k2,
    ensures
        reaches(t, x, d, k2),
    decreases k,
{
    if x != d {
        let i = choose|i: int|
            #![trigger t.node_of(x).children[i]]
            0 <= i < t.node_of(x).children.len() && reaches(t, t.node_of(x).children[i], d, (k - 1) as nat);
        lemma_reaches_mono(t, t.node_of(x).children[i], d, (k - 1) as nat, (k2 - 1) as nat);
    }
}

/// One more children link at the end of a path.
pub proof fn lemma_reaches_extend(t: &Tree, x: usize, p: usize, j: int, k: nat)
    requires
        reaches(t, x, p, k),
        t.has_id(p),
        0 <= j < t.node_of(p).children.len(),
    ensures
        reaches(t, x, t.node_of(p).children[j], k + 1),
    decreases k,
{
    let c = t.node_of(p).children[j];
    if x == p {
        assert(reaches(t, c, c, k));
    } else {
        let i = choose|i: int|
            #![trigger t.node_of(x).children[i]]
            0 <= i < t.node_of(x).children.len() && reaches(t, t.node_of(x).children[i], p, (k - 1) as nat);
        lemma_reaches_extend(t, t.node_of(x).children[i], p, j, (k - 1) as nat);
        assert(reaches(t, t.node_of(x).children[i], c, k));
    }
}

/// In a DOM tree every node is reached from the root within as many links
/// as its position.
pub proof fn lemma_dom_reaches(t: &Tree, i: int)
    requires
        t.is_dom(),
        0 <= i < t.nodes@.len(),
    ensures
        reaches(t, t.root, t.nv(i).id, i as nat),
    decreases i,
{
    if i == 0 {
        assert(t.nv(t.pos(t.root)).id == t.root);
    } else {
        let p = t.nv(i).parent->0;
        let pi = t.pos(p);
        lemma_dom_reaches(t, pi);
        assert(t.nv(pi).id == p);
        let j = t.node_of(p).children.index_of(t.nv(i).id);
        lemma_reaches_extend(t, t.root, p, j, pi as nat);
        lemma_reaches_mono(t, t.root, t.nv(i).id, (pi + 1) as nat, i as nat);
    }
}

/// Every id a breadth-first search visits is a node of the tree, and every
/// one but the last is rejected.
pub proof fn lemma_bfs_rejects(t: &Tree, pred: spec_fn(usize) -> bool, q: Seq<usize>)
    requires
        queue_ok(t, q),
    ensures
        ({
            let o = bfs_order(t, pred, q);
            &&& forall|i: int| 0 <= i < o.len() ==> t.has_id(#[trigger] o[i])
            &&& forall|i: int| 0 <= i < o.len() - 1 ==> !pred(#[trigger] o[i])
        }),
    decreases measure(t, q),
{
    if q.len() > 0 {
        let v = q[0];
        let rest = q.drop_first();
        lemma_queue_front(t, q);
        if !t.has_id(v) {
            lemma_bfs_rejects(t, pred, rest);
            assert(bfs_order(t, pred, q) == bfs_order(t, pred, rest));
        } else if pred(v) {
            assert(bfs_order(t, pred, q) == seq![v]);
        } else {
            let next = rest + t.node_of(v).children;
            lemma_expand_core(t, v, rest, next);
            lemma_bfs_rejects(t, pred, next);
            let o = bfs_order(t, pred, q);
            let on = bfs_order(t, pred, next);
            assert(o == seq![v] + on);
            assert forall|i: int| 0 < i < o.len() implies o[i] == on[i - 1] by {}
        }
    }
}

/// What a breadth-first search that finds nothing visits: every node reached
/// from an id of the queue.
pub proof fn lemma_bfs_visits_all(t: &Tree, pred: spec_fn(usize) -> bool, q: Seq<usize>)
    requires
        queue_ok(t, q),
        found_of(bfs_order(t, pred, q), pred) is None,
    ensures
        forall|j: int, d: usize, k: nat|
            0 <= j < q.len() && #[trigger] reaches(t, q[j], d, k) && t.has_id(d) ==> bfs_order(
                t,
                pred,
                q,
            ).contains(d),
    decreases measure(t, q),
{
    if q.len() > 0 {
        let v = q[0];
        let rest = q.drop_first();
        lemma_queue_front(t, q);
        let o = bfs_order(t, pred, q);
        if !t.has_id(v) {
            lemma_bfs_visits_all(t, pred, rest);
            assert forall|j: int, d: usize, k: nat|
                0 <= j < q.len() && #[trigger] reaches(t, q[j], d, k) && t.has_id(d) implies o.contains(d) by {
                if j > 0 {
                    assert(q[j] == rest[j - 1]);
                    assert(reaches(t, rest[j - 1], d, k));
                }
            }
        } else {
            assert(!pred(v));
            let cs = t.node_of(v).children;
            let next = rest + cs;
            lemma_expand_core(t, v, rest, next);
            let on = bfs_order(t, pred, next);
            assert(o == seq![v] + on);
            assert(found_of(on, pred) is None) by {
                if on.len() > 0 {
                    assert(o.last() == on.last());
                }
            }
            lemma_bfs_visits_all(t, pred, next);
            assert forall|j: int, d: usize, k: nat|
                0 <= j < q.len() && #[trigger] reaches(t, q[j], d, k) && t.has_id(d) implies o.contains(d) by {
                if j == 0 && d == v {
                    assert(o[0] == v);
                } else {
                    if j == 0 {
                        let i = choose|i: int|
                            #![trigger t.node_of(v).children[i]]
                            0 <= i < cs.len() && reaches(t, cs[i], d, (k - 1) as nat);
                        assert(next[rest.len() + i] == cs[i]);
                        assert(reaches(t, next[rest.len() + i], d, (k - 1) as nat));
                    } else {
                        assert(next[j - 1] == q[j]);
                        assert(reaches(t, next[j - 1], d, k));
                    }
                    let m = choose|m: int| 0 <= m < on.len() && on[m] == d;
                    assert(o[m + 1] == d);
                }
            }
        }
    }
}

/// Every id a depth-first search visits is a node of the tree, and every
/// one but the last is rejected.
pub proof fn lemma_dfs_rejects(t: &Tree, pred: spec_fn(usize) -> bool, q: Seq<usize>)
    requires
        queue_ok(t, q),
    ensures
        ({
            let o = dfs_order(t, pred, q);
            &&& forall|i: int| 0 <= i < o.len() ==> t.has_id(#[trigger] o[i])
            &&& forall|i: int| 0 <= i < o.len() - 1 ==> !pred(#[trigger] o[i])
        }),
    decreases measure(t, q),
{
    if q.len() > 0 {
        let v = q.last();
        let rest = q.drop_last();
        lemma_stack_top(t, q);
        if !t.has_id(v) {
            lemma_dfs_rejects(t, pred, rest);
            assert(dfs_order(t, pred, q) == dfs_order(t, pred, rest));
        } else if pred(v) {
            assert(dfs_order(t, pred, q) == seq![v]);
        } else {
            let next = rest + t.node_of(v).children.reverse();
            lemma_expand_core(t, v, rest, next);
            lemma_dfs_rejects(t, pred, next);
            let o = dfs_order(t, pred, q);
            let on = dfs_order(t, pred, next);
            assert(o == seq![v] + on);
            assert forall|i: int| 0 < i < o.len() implies o[i] == on[i - 1] by {}
        }
    }
}

/// What a depth-first search that finds nothing visits: every node reached
/// from an id of the stack.
pub proof fn lemma_dfs_visits_all(t: &Tree, pred: spec_fn(usize) -> bool, q: Seq<usize>)
    requires
        queue_ok(t, q),
        found_of(dfs_order(t, pred, q), pred) is None,
    ensures
        forall|j: int, d: usize, k: nat|
            0 <= j < q.len() && #[trigger] reaches(t, q[j], d, k) && t.has_id(d) ==> dfs_order(
                t,
                pred,
                q,
            ).contains(d),
    decreases measure(t, q),
{
    if q.len() > 0 {
        let v = q.last();
        let rest = q.drop_last();
        let top = q.len() - 1;
        lemma_stack_top(t, q);
        let o = dfs_order(t, pred, q);
        if !t.has_id(v) {
            lemma_dfs_visits_all(t, pred, rest);
            assert forall|j: int, d: usize, k: nat|
                0 <= j < q.len() && #[trigger] reaches(t, q[j], d, k) && t.has_id(d) implies o.contains(d) by {
                if j < top {
                    assert(q[j] == rest[j]);
                    assert(reaches(t, rest[j], d, k));
                }
            }
        } else {
            assert(!pred(v));
            let cs = t.node_of(v).children;
            let next = rest + cs.reverse();
            lemma_expand_core(t, v, rest, next);
            let on = dfs_order(t, pred, next);
            assert(o == seq![v] + on);
            assert(found_of(on, pred) is None) by {
                if on.len() > 0 {
                    assert(o.last() == on.last());
                }
            }
            lemma_dfs_visits_all(t, pred, next);
            assert forall|j: int, d: usize, k: nat|
                0 <= j < q.len() && #[trigger] reaches(t, q[j], d, k) && t.has_id(d) implies o.contains(d) by {
                if j == top && d == v {
                    assert(o[0] == v);
                } else {
                    if j == top {
                        let i = choose|i: int|
                            #![trigger t.node_of(v).children[i]]
                            0 <= i < cs.len() && reaches(t, cs[i], d, (k - 1) as nat);
                        let m = rest.len() + (cs.len() - 1 - i);
                        assert(next[m] == cs.reverse()[cs.len() - 1 - i]);
                        assert(next[m] == cs[i]);
                        assert(reaches(t, next[m], d, (k - 1) as nat));
                    } else {
                        assert(next[j] == q[j]);
                        assert(reaches(t, next[j], d, k));
                    }
                    let m = choose|m: int| 0 <= m < on.len() && on[m] == d;
                    assert(o[m + 1] == d);
                }
            }
        }
    }
}

/// The start of a search from the root of a DOM tree is a good queue.
pub proof fn lemma_root_queue(t: &Tree)
    requires
        t.is_dom(),
    ensures
        queue_ok(t, seq![t.root]),
{
    crate::tree::lemma_dom_children_acyclic(t);
    let (rank, reach) = chosen(t);
    assert(t.ranked(rank, reach));
}

/// Every node reached from a node of the chosen reach set is in it.
proof fn lemma_reach_closed(t: &Tree, x: usize, d: usize, k: nat)
    requires
        t.children_acyclic(),
        chosen(t).1.contains(x),
        reaches(t, x, d, k),
    ensures
        chosen(t).1.contains(d),
    decreases k,
{
    let (rank, reach) = chosen(t);
    assert(t.ranked(rank, reach));
    if x != d {
        let i = choose|i: int|
            #![trigger t.node_of(x).children[i]]
            0 <= i < t.node_of(x).children.len() && reaches(t, t.node_of(x).children[i], d, (k - 1) as nat);
        assert(reach.contains(t.node_of(x).children[i]));
        lemma_reach_closed(t, t.node_of(x).children[i], d, (k - 1) as nat);
    }
}

/// In a DOM tree a search may start from any id.
pub proof fn lemma_dom_queue(t: &Tree, start: usize)
    requires
        t.is_dom(),
    ensures
        queue_ok(t, seq![start]),
{
    lemma_root_queue(t);
    if t.has_id(start) {
        let i = t.pos(start);
        assert(t.nv(i).id == start);
        lemma_dom_reaches(t, i);
        lemma_reach_closed(t, t.root, start, i as nat);
    }
}

/// The visit of a breadth-first search from the queue `l + r`, taking the
/// ids of `l` one at a time while the children of `l`'s nodes join `r`.
pub open spec fn level_run(t: &Tree, pred: spec_fn(usize) -> bool, l: Seq<usize>, r: Seq<usize>) -> Seq<usize>
    decreases l.len(),
{
    if l.len() == 0 {
        bfs_order(t, pred, r)
    } else {
        let v = l[0];
        if !t.has_id(v) {
            level_run(t, pred, l.drop_first(), r)
        } else if pred(v) {
            seq![v]
        } else {
            seq![v] + level_run(t, pred, l.drop_first(), r + t.node_of(v).children)
        }
    }
}

/// The breadth-first search from `l + r` is `level_run`.
pub proof fn lemma_level_run(t: &Tree, pred: spec_fn(usize) -> bool, l: Seq<usize>, r: Seq<usize>)
    requires
        queue_ok(t, l + r),
    ensures
        bfs_order(t, pred, l + r) == level_run(t, pred, l, r),
    decreases l.len(),
{
    let q = l + r;
    if l.len() == 0 {
        assert(q =~= r);
    } else {
        let v = l[0];
        let l1 = l.drop_first();
        lemma_queue_front(t, q);
        assert(q[0] == v);
        assert(q.drop_first() =~= l1 + r);
        if !t.has_id(v) {
            lemma_level_run(t, pred, l1, r);
        } else if !pred(v) {
            let cs = t.node_of(v).children;
            let next = q.drop_first() + cs;
            assert(next =~= l1 + (r + cs));
            lemma_expand_core(t, v, q.drop_first(), next);
            lemma_level_run(t, pred, l1, r + cs);
        }
    }
}

/// The parts of a good queue or stack are good.
proof fn lemma_queue_ok_parts(t: &Tree, r: Seq<usize>, s: Seq<usize>)
    requires
        queue_ok(t, r + s),
    ensures
        queue_ok(t, r),
        queue_ok(t, s),
{
    assert forall|i: int| 0 <= i < r.len() && t.has_id(#[trigger] r[i]) implies chosen(t).1.contains(r[i]) by {
        assert((r + s)[i] == r[i]);
    }
    assert forall|i: int| 0 <= i < s.len() && t.has_id(#[trigger] s[i]) implies chosen(t).1.contains(s[i]) by {
        assert((r + s)[r.len() + i] == s[i]);
    }
}

/// In a DOM tree every queue is good.
pub proof fn lemma_dom_any_queue(t: &Tree, q: Seq<usize>)
    requires
        t.is_dom(),
    ensures
        queue_ok(t, q),
{
    lemma_root_queue(t);
    assert forall|i: int| 0 <= i < q.len() && t.has_id(#[trigger] q[i]) implies chosen(t).1.contains(q[i]) by {
        lemma_dom_queue(t, q[i]);
        assert(seq![q[i]][0] == q[i]);
    }
}

/// A depth-first search from the stack `r + s` (top last) first runs the
/// search from `s`, and only when that finds nothing goes on with `r`.
pub proof fn lemma_dfs_split(t: &Tree, pred: spec_fn(usize) -> bool, r: Seq<usize>, s: Seq<usize>)
    requires
        queue_ok(t, r + s),
    ensures
        queue_ok(t, r),
        queue_ok(t, s),
        dfs_order(t, pred, r + s) == if found_of(dfs_order(t, pred, s), pred) is Some {
            dfs_order(t, pred, s)
        } else {
            dfs_order(t, pred, s) + dfs_order(t, pred, r)
        },
    decreases measure(t, r + s),
{
    lemma_queue_ok_parts(t, r, s);
    let q = r + s;
    if s.len() == 0 {
        assert(q =~= r);
        assert(dfs_order(t, pred, s) =~= Seq::<usize>::empty());
        assert(Seq::<usize>::empty() + dfs_order(t, pred, r) =~= dfs_order(t, pred, r));
    } else {
        let v = s.last();
        let s1 = s.drop_last();
        lemma_stack_top(t, q);
        lemma_stack_top(t, s);
        assert(q.last() == v);
        assert(q.drop_last() =~= r + s1);
        if !t.has_id(v) {
            lemma_dfs_split(t, pred, r, s1);
        } else if !pred(v) {
            let cs = t.node_of(v).children.reverse();
            let s2 = s1 + cs;
            let next = q.drop_last() + cs;
            assert(next =~= r + s2);
            lemma_expand_core(t, v, q.drop_last(), next);
            lemma_expand_core(t, v, s1, s2);
            lemma_dfs_split(t, pred, r, s2);
            let o2 = dfs_order(t, pred, s2);
            assert(dfs_order(t, pred, s) == seq![v] + o2);
            assert(dfs_order(t, pred, q) == seq![v] + dfs_order(t, pred, r + s2));
            if o2.len() > 0 {
                assert((seq![v] + o2).last() == o2.last());
            }
            assert(seq![v] + (o2 + dfs_order(t, pred, r)) =~= (seq![v] + o2) + dfs_order(t, pred, r));
        }
    }
}

/// The searches of the subtrees under the ids `cs`, one after another, up
/// to the first that finds an accepted node.
pub open spec fn subtree_runs(t: &Tree, pred: spec_fn(usize) -> bool, cs: Seq<usize>) -> Seq<usize>
    decreases cs.len(),
{
    if cs.len() == 0 {
        Seq::empty()
    } else {
        let o = dfs_order(t, pred, seq![cs[0]]);
        if found_of(o, pred) is Some {
            o
        } else {
            o + subtree_runs(t, pred, cs.drop_first())
        }
    }
}

proof fn lemma_subtree_runs(t: &Tree, pred: spec_fn(usize) -> bool, cs: Seq<usize>)
    requires
        t.is_dom(),
    ensures
        dfs_order(t, pred, cs.reverse()) == subtree_runs(t, pred, cs),
    decreases cs.len(),
{
    lemma_dom_any_queue(t, cs.reverse());
    if cs.len() == 0 {
        assert(cs.reverse() =~= Seq::<usize>::empty());
    } else {
        let rest = cs.drop_first().reverse();
        assert(cs.reverse() =~= rest + seq![cs[0]]);
        lemma_dfs_split(t, pred, rest, seq![cs[0]]);
        lemma_subtree_runs(t, pred, cs.drop_first());
    }
}

/// On a DOM tree, depth-first search by subtrees, as the concurrent search
/// runs it, visits what the stack search visits: the root, then, unless the
/// root is accepted, the subtrees under the root's children one after
/// another in document order, until one of them finds an accepted node.
pub proof fn lemma_dfs_by_subtrees(t: &Tree, pred: spec_fn(usize) -> bool)
    requires
        t.is_dom(),
    ensures
        dfs_order(t, pred, seq![t.root]) == if pred(t.root) {
            seq![t.root]
        } else {
            seq![t.root] + subtree_runs(t, pred, t.node_of(t.root).children)
        },
{
    let q = seq![t.root];
    lemma_root_queue(t);
    lemma_stack_top(t, q);
    assert(t.has_id(t.root));
    if !pred(t.root) {
        let cs = t.node_of(t.root).children;
        assert(q.drop_last() + cs.reverse() =~= cs.reverse());
        lemma_expand_core(t, t.root, q.drop_last(), cs.reverse());
        lemma_subtree_runs(t, pred, cs);
    }
}

/// A search over a DOM tree stops at a node exactly when the tree has a node
/// that `pred` accepts, given that it visits every node when it finds none.
proof fn lemma_found_iff(t: &Tree, pred: spec_fn(usize) -> bool, o: Seq<usize>)
    requires
        t.is_dom(),
        forall|i: int| 0 <= i < o.len() ==> t.has_id(#[trigger] o[i]),
        forall|i: int| 0 <= i < o.len() - 1 ==> !pred(#[trigger] o[i]),
        found_of(o, pred) is None ==> forall|i: int| 0 <= i < t.nodes@.len() ==> o.contains(#[trigger] t.nv(i).id),
    ensures
        found_of(o, pred) is Some <==> exists|i: int| 0 <= i < t.nodes@.len() && pred(#[trigger] t.nv(i).id),
{
    match found_of(o, pred) {
        Some(id) => {
            let i = t.pos(id);
            assert(t.has_id(o[o.len() - 1]));
            assert(t.nv(i).id == id);
        },
        None => {
            assert forall|i: int| 0 <= i < t.nodes@.len() implies !pred(#[trigger] t.nv(i).id) by {
                assert(o.contains(t.nv(i).id));
                let m = choose|m: int| 0 <= m < o.len() && o[m] == t.nv(i).id;
                if m < o.len() - 1 {
                    assert(!pred(o[m]));
                }
            }
        },
    }
}

/// On a DOM tree, a breadth-first search from the root stops at a node
/// exactly when some node of the tree is accepted by `pred`; it visits only
/// nodes of the tree, and rejects every node it visits before the last.
pub proof fn lemma_bfs_finds_iff(t: &Tree, pred: spec_fn(usize) -> bool)
    requires
        t.is_dom(),
    ensures
        ({
            let o = bfs_order(t, pred, seq![t.root]);
            &&& found_of(o, pred) is Some <==> exists|i: int|
                0 <= i < t.nodes@.len() && pred(#[trigger] t.nv(i).id)
            &&& forall|i: int| 0 <= i < o.len() ==> t.has_id(#[trigger] o[i])
            &&& forall|i: int| 0 <= i < o.len() - 1 ==> !pred(#[trigger] o[i])
        }),
{
    let q = seq![t.root];
    let o = bfs_order(t, pred, q);
    lemma_root_queue(t);
    lemma_bfs_rejects(t, pred, q);
    if found_of(o, pred) is None {
        lemma_bfs_visits_all(t, pred, q);
        assert forall|i: int| 0 <= i < t.nodes@.len() implies o.contains(#[trigger] t.nv(i).id) by {
            lemma_dom_reaches(t, i);
            assert(q[0] == t.root);
            assert(reaches(t, q[0], t.nv(i).id, i as nat));
        }
    }
    lemma_found_iff(t, pred, o);
}

/// On a DOM tree, a depth-first search from the root stops at a node
/// exactly when some node of the tree is accepted by `pred`; it visits only
/// nodes of the tree, and rejects every node it visits before the last.
pub proof fn lemma_dfs_finds_iff(t: &Tree, pred: spec_fn(usize) -> bool)
    requires
        t.is_dom(),
    ensures
        ({
            let o = dfs_order(t, pred, seq![t.root]);
            &&& found_of(o, pred) is Some <==> exists|i: int|
                0 <= i < t.nodes@.len() && pred(#[trigger] t.nv(i).id)
            &&& forall|i: int| 0 <= i < o.len() ==> t.has_id(#[trigger] o[i])
            &&& forall|i: int| 0 <= i < o.len() - 1 ==> !pred(#[trigger] o[i])
        }),
{
    let q = seq![t.root];
    let o = dfs_order(t, pred, q);
    lemma_root_queue(t);
    lemma_dfs_rejects(t, pred, q);
    if found_of(o, pred) is None {
        lemma_dfs_visits_all(t, pred, q);
        assert forall|i: int| 0 <= i < t.nodes@.len() implies o.contains(#[trigger] t.nv(i).id) by {
            lemma_dom_reaches(t, i);
            assert(q[0] == t.root);
            assert(reaches(t, q[0], t.nv(i).id, i as nat));
        }
    }
    lemma_found_iff(t, pred, o);
}

/// The depth of the node with id `id`.
pub open spec fn depth_of(t: &Tree, id: usize) -> int {
    t.node_of(id).depth as int
}

/// A queue of nodes of the tree whose depths never decrease from front to
/// back and span at most one level.
pub open spec fn level_ok(t: &Tree, q: Seq<usize>) -> bool {
    &&& forall|i: int| 0 <= i < q.len() ==> t.has_id(#[trigger] q[i])
    &&& forall|i: int, j: int|
        #![trigger q[i], q[j]]
        0 <= i <= j < q.len() ==> depth_of(t, q[i]) <= depth_of(t, q[j])
    &&& q.len() > 0 ==> depth_of(t, q.last()) <= depth_of(t, q[0]) + 1
}

/// In a DOM tree a child is a node one level below its parent.
pub proof fn lemma_dom_child_depth(t: &Tree, v: usize, k: int)
    requires
        t.is_dom(),
        t.has_id(v),
        0 <= k < t.node_of(v).children.len(),
    ensures
        t.has_id(t.node_of(v).children[k]),
        depth_of(t, t.node_of(v).children[k]) == depth_of(t, v) + 1,
{
    let i = t.pos(v);
    assert(t.nv(i).id == v);
    let c = t.nv(i).children[k];
    assert(t.has_id(c));
    assert(t.node_of(c).parent == Some(v));
    let pc = t.pos(c);
    if pc == 0 {
        assert(t.nv(0).parent is None);
    }
    assert(t.nv(pc).depth == t.node_of(v).depth + 1);
}

/// From a queue that is level by level, a breadth-first search visits
/// nodes in order of depth, none above the front of the queue.
pub proof fn lemma_bfs_levels(t: &Tree, pred: spec_fn(usize) -> bool, q: Seq<usize>)
    requires
        t.is_dom(),
        queue_ok(t, q),
        level_ok(t, q),
    ensures
        ({
            let o = bfs_order(t, pred, q);
            &&& forall|i: int, j: int|
                #![trigger o[i], o[j]]
                0 <= i <= j < o.len() ==> depth_of(t, o[i]) <= depth_of(t, o[j])
            &&& forall|i: int| 0 <= i < o.len() ==> depth_of(t, q[0]) <= depth_of(t, #[trigger] o[i])
        }),
    decreases measure(t, q),
{
    if q.len() > 0 {
        let v = q[0];
        let rest = q.drop_first();
        let d = depth_of(t, v);
        lemma_queue_front(t, q);
        assert(t.has_id(v));
        let o = bfs_order(t, pred, q);
        if pred(v) {
            assert(o == seq![v]);
        } else {
            let cs = t.node_of(v).children;
            let next = rest + cs;
            lemma_expand_core(t, v, rest, next);
            assert forall|k: int| 0 <= k < cs.len() implies t.has_id(#[trigger] cs[k]) && depth_of(t, cs[k])
                == d + 1 by {
                lemma_dom_child_depth(t, v, k);
            }
            assert forall|i: int| 0 <= i < rest.len() implies d <= depth_of(t, #[trigger] rest[i]) <= d + 1 by {
                assert(rest[i] == q[i + 1]);
                assert(depth_of(t, q[0]) <= depth_of(t, q[i + 1]));
                assert(depth_of(t, q[i + 1]) <= depth_of(t, q[q.len() - 1]));
            }
            assert forall|i: int| 0 <= i < next.len() implies t.has_id(#[trigger] next[i]) && d <= depth_of(
                t,
                next[i],
            ) <= d + 1 by {
                if i < rest.len() {
                    assert(next[i] == rest[i]);
                } else {
                    assert(next[i] == cs[i - rest.len()]);
                }
            }
            assert forall|i: int, j: int|
                #![trigger next[i], next[j]]
                0 <= i <= j < next.len() implies depth_of(t, next[i]) <= depth_of(t, next[j]) by {
                if j < rest.len() {
                    assert(next[i] == q[i + 1]);
                    assert(next[j] == q[j + 1]);
                } else {
                    assert(next[j] == cs[j - rest.len()]);
                }
            }
            if next.len() > 0 {
                if cs.len() == 0 {
                    assert(next.last() == q.last());
                    assert(depth_of(t, q[0]) <= depth_of(t, next[0]));
                } else {
                    assert(next.last() == cs[cs.len() - 1]);
                }
            }
            assert(level_ok(t, next));
            lemma_bfs_levels(t, pred, next);
            let on = bfs_order(t, pred, next);
            assert(o == seq![v] + on);
            assert forall|i: int| 0 <= i < o.len() implies d <= depth_of(t, #[trigger] o[i]) by {
                if i > 0 {
                    assert(o[i] == on[i - 1]);
                    assert(d <= depth_of(t, next[0]));
                }
            }
            assert forall|i: int, j: int|
                #![trigger o[i], o[j]]
                0 <= i <= j < o.len() implies depth_of(t, o[i]) <= depth_of(t, o[j]) by {
                if i > 0 {
                    assert(o[i] == on[i - 1]);
                    assert(o[j] == on[j - 1]);
                } else {
                    assert(d <= depth_of(t, o[j]));
                }
            }
        }
    }
}

/// On a DOM tree, breadth-first search from the root visits the nodes
/// level by level: depths never decrease along the visiting order.
pub proof fn lemma_bfs_by_level(t: &Tree, pred: spec_fn(usize) -> bool)
    requires
        t.is_dom(),
    ensures
        ({
            let o = bfs_order(t, pred, seq![t.root]);
            forall|i: int, j: int|
                #![trigger o[i], o[j]]
                0 <= i <= j < o.len() ==> depth_of(t, o[i]) <= depth_of(t, o[j])
        }),
{
    let q = seq![t.root];
    lemma_root_queue(t);
    assert(level_ok(t, q));
    lemma_bfs_levels(t, pred, q);
}

/// On a DOM tree where `pred` accepts no node, breadth-first and
/// depth-first search both find nothing and visit the same nodes: all of
/// them.
pub proof fn lemma_bfs_dfs_same_nodes(t: &Tree, pred: spec_fn(usize) -> bool)
    requires
        t.is_dom(),
        forall|i: int| 0 <= i < t.nodes@.len() ==> !pred(#[trigger] t.nv(i).id),
    ensures
        found_of(bfs_order(t, pred, seq![t.root]), pred) is None,
        found_of(dfs_order(t, pred, seq![t.root]), pred) is None,
        bfs_order(t, pred, seq![t.root]).to_set() == Set::new(|x: usize| t.has_id(x)),
        dfs_order(t, pred, seq![t.root]).to_set() == Set::new(|x: usize| t.has_id(x)),
{
    let q = seq![t.root];
    let ob = bfs_order(t, pred, q);
    let od = dfs_order(t, pred, q);
    lemma_bfs_finds_iff(t, pred);
    lemma_dfs_finds_iff(t, pred);
    lemma_root_queue(t);
    lemma_bfs_visits_all(t, pred, q);
    lemma_dfs_visits_all(t, pred, q);
    assert forall|x: usize| t.has_id(x) implies ob.contains(x) && od.contains(x) by {
        let i = t.pos(x);
        assert(t.nv(i).id == x);
        lemma_dom_reaches(t, i);
        assert(q[0] == t.root);
        assert(reaches(t, q[0], x, i as nat));
    }
    assert(ob.to_set() =~= Set::new(|x: usize| t.has_id(x)));
    assert(od.to_set() =~= Set::new(|x: usize| t.has_id(x)));
}

/// On a DOM tree, breadth-first and depth-first search agree on whether
/// they find a node: each does exactly when `pred` accepts some node.
pub proof fn lemma_bfs_dfs_agree(t: &Tree, pred: spec_fn(usize) -> bool)
    requires
        t.is_dom(),
    ensures
        (found_of(bfs_order(t, pred, seq![t.root]), pred) is Some) == (found_of(
            dfs_order(t, pred, seq![t.root]),
            pred,
        ) is Some),
{
    lemma_bfs_finds_iff(t, pred);
    lemma_dfs_finds_iff(t, pred);
}

} // verus!
