//! Depth-first search, in document order, for the first node that a query
//! accepts.

use vstd::prelude::*;
use crate::domnode::{DomNode, NodeView, has_attr};
use crate::selector::{query_matches_node, SelectorQuery, query_holds, uses_descendant};
use crate::tree::{Tree, lemma_dom_chain_ends, lemma_dom_path, lemma_dom_parents_acyclic};
use crate::lca::{LcaBinaryLifting, LcaView, spec_build, lemma_build_size};
use crate::search::{
    dfs_order, found_of, queue_ok, lemma_stack_top, lemma_expand_core, measure, chosen,
    lemma_dfs_finds_iff, lemma_root_queue, lemma_dom_queue,
};
use crate::clock::{now, elapsed, as_millis};

verus! {

#[derive(Debug, Clone)]
pub enum SearchQuery {
    Tag(String),
    Attr(String, String),
    TagAndAttr { tag: String, key: String, value: String },
    Selector(SelectorQuery),
}

/// Whether `q` accepts the node `n` with id `id` of tree `t`, `l` being the
/// tree's index: same tag, an exact attribute, both, or a selector match.
pub open spec fn query_accepts(q: SearchQuery, t: &Tree, id: usize, n: NodeView) -> bool {
    match q {
        SearchQuery::Tag(tag) => n.tag == tag@,
        SearchQuery::Attr(key, value) => has_attr(n, key@, value@),
        SearchQuery::TagAndAttr { tag, key, value } => n.tag == tag@ && has_attr(n, key@, value@),
        SearchQuery::Selector(sq) => query_holds(t, sq@, id),
    }
}

/// The query walks up parent links: a selector with a descendant
/// combinator.
pub open spec fn walks_parents(q: SearchQuery) -> bool {
    match q {
        SearchQuery::Selector(sq) => uses_descendant(sq@),
        _ => false,
    }
}

impl SearchQuery {
    /// Whether the query accepts `node`, the node with id `node_id`.
    pub fn matches_at(&self, tree: &Tree, lca: &LcaBinaryLifting, node_id: usize, node: &DomNode) -> (r:
        bool)
        requires
            *self is Selector ==> tree.wf(),
            walks_parents(*self) ==> tree.parents_acyclic(),
        ensures
            r == query_accepts(*self, tree, node_id, node@),
    {
        match self {
            SearchQuery::Tag(tag) => crate::text::str_eq(node.tag(), tag.as_str()),
            SearchQuery::Attr(key, value) => node.has_attr_pair(key.as_str(), value.as_str()),
            SearchQuery::TagAndAttr { tag, key, value } => crate::text::str_eq(node.tag(), tag.as_str())
                && node.has_attr_pair(key.as_str(), value.as_str()),
            SearchQuery::Selector(selector_query) => query_matches_node(tree, lca, node_id, selector_query),
        }
    }
}

#[derive(Debug, Clone)]
pub struct TraversalStep {
    pub step: usize,
    pub node_id: usize,
    pub tag: String,
    pub depth: usize,
    pub matched: bool,
}

#[derive(Debug, Clone)]
pub struct TraversalMetrics {
    pub visited_nodes: usize,
    pub elapsed_ms: u128,
    pub max_depth: usize,
}

#[derive(Debug, Clone)]
pub struct TraversalResult {
    pub found: Option<DomNode>,
    pub found_id: Option<usize>,
    pub traversal_order: Vec<usize>,
    pub path_to_found: Vec<usize>,
    pub log: Vec<TraversalStep>,
    pub metrics: TraversalMetrics,
}

/// What `q` accepts in tree `t`, by id, with the tree's own index.
pub open spec fn accepts(t: &Tree, q: SearchQuery) -> spec_fn(usize) -> bool {
    |id: usize| query_accepts(q, t, id, t.node_of(id))
}

/// The log records, for each visited id in order, its step number (from
/// 1), id, tag, depth and whether it was accepted.
pub open spec fn log_ok(log: Seq<TraversalStep>, order: Seq<usize>, t: &Tree, pred: spec_fn(usize) -> bool) -> bool {
    &&& log.len() == order.len()
    &&& forall|i: int|
        0 <= i < log.len() ==> {
            let s = #[trigger] log[i];
            &&& s.step == i + 1
            &&& s.node_id == order[i]
            &&& s.tag@ == t.node_of(order[i]).tag
            &&& s.depth == t.node_of(order[i]).depth
            &&& s.matched == pred(order[i])
        }
}

/// The found node, its path from the root, and the metrics, as a search
/// that visited `order` reports them.
pub open spec fn result_ok(r: TraversalResult, t: &Tree, order: Seq<usize>, pred: spec_fn(usize) -> bool) -> bool {
    &&& r.traversal_order@ == order
    &&& r.found_id == found_of(order, pred)
    &&& log_ok(r.log@, order, t, pred)
    &&& match r.found_id {
        Some(id) => r.found matches Some(n) && n@ == t.node_of(id) && forall|k: nat|
            t.chain_ends(id, k) ==> r.path_to_found@ == t.up_chain(id, k).reverse(),
        None => r.found is None && r.path_to_found@.len() == 0,
    }
    &&& r.metrics.visited_nodes == order.len()
    &&& r.metrics.max_depth == t.max_depth_of()
}

/// The ids from the root down to `target_id`, following parent links.
pub fn path_to_root(tree: &Tree, target_id: usize) -> (r: Vec<usize>)
    requires
        tree.wf(),
        tree.chain_finite(target_id),
    ensures
        forall|k: nat| tree.chain_ends(target_id, k) ==> r@ == tree.up_chain(target_id, k).reverse(),
{
    tree.chain_to_root(target_id)
}

/// The result of a search that visited `traversal_order`, logged `log`,
/// stopped at `found_id` (if anywhere) and took `elapsed_ms`: the node
/// found, when the tree has it, and its path from the root (empty when
/// nothing was found), with the number of visits and the tree's depth.
pub fn assemble_result(
    tree: &Tree,
    found_id: Option<usize>,
    traversal_order: Vec<usize>,
    log: Vec<TraversalStep>,
    elapsed_ms: u128,
) -> (r: TraversalResult)
    requires
        tree.wf(),
        found_id matches Some(id) ==> tree.chain_finite(id),
    ensures
        r.found_id == found_id,
        r.traversal_order@ == traversal_order@,
        r.log@ == log@,
        match found_id {
            Some(id) => (if tree.has_id(id) {
                r.found matches Some(n) && n@ == tree.node_of(id)
            } else {
                r.found is None
            }) && forall|k: nat|
                tree.chain_ends(id, k) ==> r.path_to_found@ == tree.up_chain(id, k).reverse(),
            None => r.found is None && r.path_to_found@.len() == 0,
        },
        r.metrics.visited_nodes == traversal_order@.len(),
        r.metrics.elapsed_ms == elapsed_ms,
        r.metrics.max_depth == tree.max_depth_of(),
{
    let found = match found_id {
        Some(id) => match tree.find_index_from_id(id) {
            Some(index) => Some(tree.nodes[index].clone()),
            None => None,
        },
        None => None,
    };
    let path_to_found = match found_id {
        Some(id) => {
            assert(tree.chain_finite(id));
            path_to_root(tree, id)
        },
        None => Vec::new(),
    };
    let visited_nodes = traversal_order.len();
    let max_depth = tree.max_depth();
    TraversalResult {
        found,
        found_id,
        traversal_order,
        path_to_found,
        log,
        metrics: TraversalMetrics { visited_nodes, elapsed_ms, max_depth },
    }
}

/// Assembles the result of a search that visited `traversal_order`.
fn finish(
    tree: &Tree,
    found_id: Option<usize>,
    traversal_order: Vec<usize>,
    log: Vec<TraversalStep>,
    elapsed_ms: u128,
    Ghost(pred): Ghost<spec_fn(usize) -> bool>,
) -> (r: TraversalResult)
    requires
        tree.wf(),
        forall|id: usize| tree.has_id(id) && pred(id) ==> #[trigger] tree.chain_finite(id),
        found_id == found_of(traversal_order@, pred),
        log_ok(log@, traversal_order@, tree, pred),
        forall|i: int| 0 <= i < traversal_order@.len() ==> tree.has_id(#[trigger] traversal_order@[i]),
    ensures
        result_ok(r, tree, traversal_order@, pred),
{
    proof {
        if found_id is Some {
            assert(tree.has_id(traversal_order@[traversal_order@.len() - 1]));
        }
    }
    assemble_result(tree, found_id, traversal_order, log, elapsed_ms)
}

/// Depth-first search from `start_node_id` for the first node that `query`
/// accepts: the visited ids, their log, and the accepted id if any.
fn run_dfs_from_start(
    tree: &Tree,
    lca: &LcaBinaryLifting,
    query: &SearchQuery,
    start_node_id: usize,
) -> (r: (Vec<usize>, Vec<TraversalStep>, Option<usize>))
    requires
        tree.wf(),
        walks_parents(*query) ==> tree.parents_acyclic(),
        queue_ok(tree, seq![start_node_id]),
    ensures
        r.0@ == dfs_order(tree, accepts(tree, *query), seq![start_node_id]),
        r.2 == found_of(r.0@, accepts(tree, *query)),
        log_ok(r.1@, r.0@, tree, accepts(tree, *query)),
        forall|i: int| 0 <= i < r.0@.len() ==> tree.has_id(#[trigger] r.0@[i]),
{
    let ghost pred = accepts(tree, *query);
    let ghost total = dfs_order(tree, pred, seq![start_node_id]);
    let mut stack: Vec<usize> = Vec::new();
    stack.push(start_node_id);
    let mut traversal_order: Vec<usize> = Vec::new();
    let mut log: Vec<TraversalStep> = Vec::new();
    let mut found_id: Option<usize> = None;
    proof {
        assert(stack@ =~= seq![start_node_id]);
        assert(traversal_order@ + dfs_order(tree, pred, stack@) =~= total);
    }
    loop
        invariant_except_break
            found_id is None,
            total == traversal_order@ + dfs_order(tree, pred, stack@),
            forall|i: int| 0 <= i < traversal_order@.len() ==> !pred(#[trigger] traversal_order@[i]),
            queue_ok(tree, stack@),
        invariant
            tree.wf(),
            walks_parents(*query) ==> tree.parents_acyclic(),
            pred == accepts(tree, *query),
            total == dfs_order(tree, pred, seq![start_node_id]),
            forall|i: int| 0 <= i < traversal_order@.len() ==> tree.has_id(#[trigger] traversal_order@[i]),
            log_ok(log@, traversal_order@, tree, pred),
        ensures
            total == traversal_order@,
            found_id == found_of(traversal_order@, pred),
            forall|i: int| 0 <= i < traversal_order@.len() ==> tree.has_id(#[trigger] traversal_order@[i]),
            log_ok(log@, traversal_order@, tree, pred),
        decreases measure(tree, stack@),
    {
        let ghost q = stack@;
        let current_node_id = match stack.pop() {
            Some(id) => id,
            None => {
                proof {
                    assert(q.len() == 0);
                    assert(traversal_order@ + Seq::<usize>::empty() =~= traversal_order@);
                }
                break;
            },
        };
        proof {
            lemma_stack_top(tree, q);
            assert(stack@ == q.drop_last());
        }
        let current_index = match tree.find_index_from_id(current_node_id) {
            Some(index) => index,
            None => {
                continue;
            },
        };
        let current_node = &tree.nodes[current_index];
        assert(current_node@ == tree.node_of(current_node_id));
        let matched = query.matches_at(tree, lca, current_node_id, current_node);
        let ghost before = traversal_order@;
        traversal_order.push(current_node_id);
        let step = TraversalStep {
            step: traversal_order.len(),
            node_id: current_node_id,
            tag: String::from_str(current_node.tag()),
            depth: current_node.depth(),
            matched,
        };
        log.push(step);
        proof {
            assert(log_ok(log@, traversal_order@, tree, pred)) by {
                assert forall|i: int| 0 <= i < log@.len() implies {
                    let s = #[trigger] log@[i];
                    &&& s.step == i + 1
                    &&& s.node_id == traversal_order@[i]
                    &&& s.tag@ == tree.node_of(traversal_order@[i]).tag
                    &&& s.depth == tree.node_of(traversal_order@[i]).depth
                    &&& s.matched == pred(traversal_order@[i])
                } by {
                    if i < before.len() {
                        assert(traversal_order@[i] == before[i]);
                    }
                }
            }
        }
        if matched {
            found_id = Some(current_node_id);
            proof {
                assert(dfs_order(tree, pred, q) == seq![current_node_id]);
                assert(traversal_order@ =~= before + seq![current_node_id]);
            }
            break;
        }
        let children = current_node.children();
        let mut k: usize = children.len();
        assert(stack@ =~= q.drop_last() + children@.subrange(k as int, children@.len() as int).reverse());
        while k > 0
            invariant
                stack@ == q.drop_last() + children@.subrange(k as int, children@.len() as int).reverse(),
                0 <= k <= children@.len(),
            decreases k,
        {
            stack.push(children[k - 1]);
            proof {
                assert(children@.subrange(k - 1, children@.len() as int).reverse() =~= children@.subrange(
                    k as int,
                    children@.len() as int,
                ).reverse().push(children@[k - 1]));
            }
            k -= 1;
        }
        proof {
            assert(children@.subrange(0, children@.len() as int) =~= children@);
            lemma_expand_core(tree, current_node_id, q.drop_last(), stack@);
            assert(dfs_order(tree, pred, q) == seq![current_node_id] + dfs_order(tree, pred, stack@));
            assert(traversal_order@ + dfs_order(tree, pred, stack@) =~= before + (seq![current_node_id]
                + dfs_order(tree, pred, stack@)));
        }
    }
    (traversal_order, log, found_id)
}

/// Depth-first search, in document order, of the subtree under `start`
/// for the first node that `query` accepts: the visited ids, their log
/// (steps from 1), and the accepted id if any.
pub fn search_subtree(
    tree: &Tree,
    lca: &LcaBinaryLifting,
    query: &SearchQuery,
    start: usize,
) -> (r: (Vec<usize>, Vec<TraversalStep>, Option<usize>))
    requires
        tree.is_dom(),
    ensures
        r.0@ == dfs_order(tree, accepts(tree, *query), seq![start]),
        r.2 == found_of(r.0@, accepts(tree, *query)),
        log_ok(r.1@, r.0@, tree, accepts(tree, *query)),
        forall|i: int| 0 <= i < r.0@.len() ==> tree.has_id(#[trigger] r.0@[i]),
{
    proof {
        lemma_dom_parents_acyclic(tree);
        lemma_dom_queue(tree, start);
    }
    run_dfs_from_start(tree, lca, query, start)
}

/// A depth-first search that visits the subtrees under the root one after
/// another: the ids visited so far, their log, the accepted id if any, and
/// the root's children.
#[derive(Debug)]
pub struct SubtreeRun {
    pub traversal_order: Vec<usize>,
    pub log: Vec<TraversalStep>,
    pub found_id: Option<usize>,
    pub root_children: Vec<usize>,
}

/// Starts a search by subtrees: visits the root; `None` when the tree has
/// no root node.
pub fn start_subtree_run(tree: &Tree, lca: &LcaBinaryLifting, query: &SearchQuery) -> (r: Option<SubtreeRun>)
    requires
        tree.wf(),
        walks_parents(*query) ==> tree.parents_acyclic(),
    ensures
        match r {
            None => !tree.has_id(tree.root),
            Some(run) => {
                let n = tree.node_of(tree.root);
                let matched = query_accepts(*query, tree, tree.root, n);
                &&& tree.has_id(tree.root)
                &&& run.traversal_order@ == seq![tree.root]
                &&& run.log@.len() == 1
                &&& run.log@[0].step == 1
                &&& run.log@[0].node_id == tree.root
                &&& run.log@[0].tag@ == n.tag
                &&& run.log@[0].depth == n.depth
                &&& run.log@[0].matched == matched
                &&& run.found_id == if matched {
                    Some(tree.root)
                } else {
                    None
                }
                &&& run.root_children@ == n.children
            },
        },
{
    let root_index = match tree.find_index_from_id(tree.root) {
        Some(index) => index,
        None => return None,
    };
    let root_node = &tree.nodes[root_index];
    let matched = query.matches_at(tree, lca, tree.root, root_node);
    let mut traversal_order: Vec<usize> = Vec::new();
    traversal_order.push(tree.root);
    let mut log: Vec<TraversalStep> = Vec::new();
    log.push(
        TraversalStep {
            step: 1,
            node_id: tree.root,
            tag: String::from_str(root_node.tag()),
            depth: root_node.depth(),
            matched,
        },
    );
    let found_id = if matched {
        Some(tree.root)
    } else {
        None
    };
    Some(SubtreeRun { traversal_order, log, found_id, root_children: root_node.children().clone() })
}

/// Adds the visit of one subtree to the run: its ids, and its log with the
/// steps numbered on from those so far; the first accepted id found is kept.
/// Returns whether this subtree found it, so that the search stops.
pub fn absorb_subtree(
    run: &mut SubtreeRun,
    sub_order: Vec<usize>,
    sub_log: Vec<TraversalStep>,
    sub_found: Option<usize>,
) -> (stop: bool)
    requires
        old(run).traversal_order@.len() + sub_log@.len() <= usize::MAX,
    ensures
        final(run).traversal_order@ == old(run).traversal_order@ + sub_order@,
        final(run).log@.len() == old(run).log@.len() + sub_log@.len(),
        forall|j: int| 0 <= j < old(run).log@.len() ==> final(run).log@[j] == old(run).log@[j],
        forall|j: int|
            0 <= j < sub_log@.len() ==> {
                let s = #[trigger] final(run).log@[old(run).log@.len() + j];
                &&& s.step == old(run).traversal_order@.len() + j + 1
                &&& s.node_id == sub_log@[j].node_id
                &&& s.tag@ == sub_log@[j].tag@
                &&& s.depth == sub_log@[j].depth
                &&& s.matched == sub_log@[j].matched
            },
        final(run).found_id == if old(run).found_id is None {
            sub_found
        } else {
            old(run).found_id
        },
        stop == (old(run).found_id is None && sub_found is Some),
        final(run).root_children@ == old(run).root_children@,
{
    let start_step = run.traversal_order.len();
    let ghost log0 = run.log@;
    let mut k: usize = 0;
    let ghost order0 = run.traversal_order@;
    while k < sub_order.len()
        invariant
            0 <= k <= sub_order@.len(),
            run.traversal_order@ == order0 + sub_order@.take(k as int),
            run.log@ == log0,
            run.found_id == old(run).found_id,
            run.root_children@ == old(run).root_children@,
        decreases sub_order@.len() - k,
    {
        run.traversal_order.push(sub_order[k]);
        k += 1;
        proof {
            assert(run.traversal_order@ =~= order0 + sub_order@.take(k as int));
        }
    }
    assert(sub_order@.take(sub_order@.len() as int) =~= sub_order@);
    let mut idx: usize = 0;
    while idx < sub_log.len()
        invariant
            0 <= idx <= sub_log@.len(),
            start_step == order0.len(),
            start_step + sub_log@.len() <= usize::MAX,
            run.traversal_order@ == order0 + sub_order@,
            run.log@.len() == log0.len() + idx,
            forall|j: int| 0 <= j < log0.len() ==> run.log@[j] == log0[j],
            forall|j: int|
                0 <= j < idx ==> {
                    let s = #[trigger] run.log@[log0.len() + j];
                    &&& s.step == start_step + j + 1
                    &&& s.node_id == sub_log@[j].node_id
                    &&& s.tag@ == sub_log@[j].tag@
                    &&& s.depth == sub_log@[j].depth
                    &&& s.matched == sub_log@[j].matched
                },
            run.found_id == old(run).found_id,
            run.root_children@ == old(run).root_children@,
        decreases sub_log@.len() - idx,
    {
        let step = &sub_log[idx];
        let ghost before = run.log@;
        run.log.push(
            TraversalStep {
                step: start_step + idx + 1,
                node_id: step.node_id,
                tag: step.tag.clone(),
                depth: step.depth,
                matched: step.matched,
            },
        );
        proof {
            assert forall|j: int| 0 <= j < log0.len() implies run.log@[j] == log0[j] by {
                assert(run.log@[j] == before[j]);
            }
            assert forall|j: int| 0 <= j < idx + 1 implies {
                let s = #[trigger] run.log@[log0.len() + j];
                &&& s.step == start_step + j + 1
                &&& s.node_id == sub_log@[j].node_id
                &&& s.tag@ == sub_log@[j].tag@
                &&& s.depth == sub_log@[j].depth
                &&& s.matched == sub_log@[j].matched
            } by {
                if j < idx {
                    assert(run.log@[log0.len() + j] == before[log0.len() + j]);
                }
            }
        }
        idx += 1;
    }
    if run.found_id.is_none() {
        run.found_id = sub_found;
        if run.found_id.is_some() {
            return true;
        }
    }
    false
}

/// The result of a search over a tree without a root node: nothing visited,
/// nothing found, depth 0.
pub fn empty_result(elapsed_ms: u128) -> (r: TraversalResult)
    ensures
        r.found is None,
        r.found_id is None,
        r.traversal_order@.len() == 0,
        r.path_to_found@.len() == 0,
        r.log@.len() == 0,
        r.metrics.visited_nodes == 0,
        r.metrics.elapsed_ms == elapsed_ms,
        r.metrics.max_depth == 0,
{
    TraversalResult {
        found: None,
        found_id: None,
        traversal_order: Vec::new(),
        path_to_found: Vec::new(),
        log: Vec::new(),
        metrics: TraversalMetrics { visited_nodes: 0, elapsed_ms, max_depth: 0 },
    }
}

/// Depth-first search from the root, children in document order, for the
/// first node that `query` accepts; every visit is logged.
pub fn dfs(tree: &Tree, query: &SearchQuery) -> (r: TraversalResult)
    requires
        tree.wf(),
        tree.children_acyclic(),
        walks_parents(*query) ==> tree.parents_acyclic(),
        forall|id: usize| tree.has_id(id) && accepts(tree, *query)(id) ==> #[trigger] tree.chain_finite(id),
        tree.nodes@.len() <= isize::MAX,
    ensures
        result_ok(r, tree, dfs_order(tree, accepts(tree, *query), seq![tree.root]), accepts(tree, *query)),
{
    let started_at = now();
    let lca_index = tree.build_lca_index();
    proof {
        lemma_build_size(tree, lca_index@);
        let (rank, reach) = chosen(tree);
        assert(tree.ranked(rank, reach));
    }
    let ghost pred = accepts(tree, *query);
    let (traversal_order, mut log, found_id) = run_dfs_from_start(tree, &lca_index, query, tree.root);
    let mut idx: usize = 0;
    while idx < log.len()
        invariant
            0 <= idx <= log@.len(),
            log_ok(log@, traversal_order@, tree, pred),
        decreases log@.len() - idx,
    {
        let ghost before = log@;
        log[idx].step = idx + 1;
        proof {
            assert forall|i: int| 0 <= i < log@.len() implies #[trigger] log@[i] == before[i] by {
                if i == idx {
                    assert(log@[i].step == before[i].step);
                }
            }
            assert(log@ =~= before);
        }
        idx += 1;
    }
    let elapsed_ms = as_millis(&elapsed(&started_at));
    finish(tree, found_id, traversal_order, log, elapsed_ms, Ghost(pred))
}

/// What `dfs` reports on a DOM tree: it finds a node exactly when the
/// query accepts some node of the tree; the visit starts at the root; the
/// node found is accepted and every node visited before it is rejected;
/// the path to the node found runs from the root down to it through
/// parent-child links, one node per level.
pub proof fn lemma_dfs_result(tree: &Tree, query: SearchQuery, r: TraversalResult)
    requires
        tree.is_dom(),
        result_ok(r, tree, dfs_order(tree, accepts(tree, query), seq![tree.root]), accepts(tree, query)),
    ensures
        ({
            let pred = accepts(tree, query);
            let o = r.traversal_order@;
            &&& r.found_id is Some <==> exists|i: int|
                0 <= i < tree.nodes@.len() && pred(#[trigger] tree.nv(i).id)
            &&& o.len() > 0
            &&& o[0] == tree.root
            &&& forall|i: int| 0 <= i < o.len() - 1 ==> !pred(#[trigger] o[i])
            &&& r.found_id matches Some(id) ==> {
                let p = r.path_to_found@;
                &&& pred(id)
                &&& p.len() == tree.node_of(id).depth + 1
                &&& p[0] == tree.root
                &&& p.last() == id
                &&& forall|i: int|
                    0 <= i < p.len() - 1 ==> tree.node_of(#[trigger] p[i + 1]).parent == Some(p[i])
                        && tree.node_of(p[i]).children.contains(p[i + 1])
            }
        }),
{
    let pred = accepts(tree, query);
    let q = seq![tree.root];
    let o = dfs_order(tree, pred, q);
    lemma_dfs_finds_iff(tree, pred);
    lemma_root_queue(tree);
    assert(tree.has_id(tree.root));
    assert(o.len() > 0 && o[0] == tree.root) by {
        if pred(tree.root) {
            assert(o == seq![tree.root]);
        } else {
            assert(o == seq![tree.root] + dfs_order(tree, pred, q.drop_last() + tree.node_of(tree.root).children.reverse()));
        }
    }
    if let Some(id) = r.found_id {
        assert(tree.has_id(o[o.len() - 1]));
        lemma_dom_chain_ends(tree, id);
        let k = (tree.pos(id) + 1) as nat;
        assert(r.path_to_found@ == tree.up_chain(id, k).reverse());
        lemma_dom_path(tree, id, k);
    }
}

/// What `dfs` finds for a tag, attribute, or tag-and-attribute query on a
/// DOM tree: a node is found exactly when the tree has a node with that tag
/// (exactly), with an attribute equal to the key and value, or with both;
/// and the node found has them.
pub proof fn lemma_dfs_plain_query(tree: &Tree, query: SearchQuery, r: TraversalResult)
    requires
        tree.is_dom(),
        result_ok(r, tree, dfs_order(tree, accepts(tree, query), seq![tree.root]), accepts(tree, query)),
    ensures
        match query {
            SearchQuery::Tag(tag) => {
                &&& r.found_id matches Some(id) ==> tree.node_of(id).tag == tag@
                &&& r.found_id is Some <==> exists|i: int| 0 <= i < tree.nodes@.len() && (#[trigger] tree.nv(i)).tag == tag@
            },
            SearchQuery::Attr(key, value) => {
                &&& r.found_id matches Some(id) ==> has_attr(tree.node_of(id), key@, value@)
                &&& r.found_id is Some <==> exists|i: int|
                    0 <= i < tree.nodes@.len() && has_attr(#[trigger] tree.nv(i), key@, value@)
            },
            SearchQuery::TagAndAttr { tag, key, value } => {
                &&& r.found_id matches Some(id) ==> tree.node_of(id).tag == tag@ && has_attr(
                    tree.node_of(id),
                    key@,
                    value@,
                )
                &&& r.found_id is Some <==> exists|i: int|
                    0 <= i < tree.nodes@.len() && (#[trigger] tree.nv(i)).tag == tag@ && has_attr(tree.nv(i), key@, value@)
            },
            SearchQuery::Selector(_) => true,
        },
{
    let pred = accepts(tree, query);
    lemma_dfs_result(tree, query, r);
    assert forall|i: int| 0 <= i < tree.nodes@.len() implies #[trigger] pred(tree.nv(i).id) == query_accepts(
        query,
        tree,
        tree.nv(i).id,
        tree.nv(i),
    ) by {
        assert(tree.node_of(tree.nv(i).id) == tree.nv(i));
    }
    match query {
        SearchQuery::Selector(_) => {},
        _ => {
            if (exists|i: int| 0 <= i < tree.nodes@.len() && pred(#[trigger] tree.nv(i).id)) {
                let i = choose|i: int| 0 <= i < tree.nodes@.len() && pred(#[trigger] tree.nv(i).id);
                assert(pred(tree.nv(i).id));
            }
        },
    }
}

} // verus!
