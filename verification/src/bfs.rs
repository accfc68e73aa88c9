//! Breadth-first search for the first node that a query accepts.

use vstd::prelude::*;
use std::collections::VecDeque;
use crate::domnode::{DomNode, NodeView, has_attr};
use crate::selector::{query_matches_node, SelectorQuery, query_holds, uses_descendant};
use crate::tree::{Tree, lemma_dom_chain_ends, lemma_dom_path};
use crate::lca::{LcaBinaryLifting, LcaView, spec_build, lemma_build_size};
use crate::search::{
    bfs_order, found_of, queue_ok, lemma_queue_front, lemma_expand_core, measure, chosen, depth_of,
    lemma_bfs_finds_iff, lemma_bfs_by_level, lemma_root_queue, level_run, lemma_level_run,
};
use crate::clock::{now, elapsed, as_millis};

verus! {

#[derive(Debug, Clone)]
pub enum SearchQuery {
    Tag(String),
    Attr(String, String),
    TagAndAttr { tag: String, key: String, value: String },
    Selector(SelectorQuery),
}

/// Whether `q` accepts the node `n` with id `id` of tree `t`, `l` being the
/// tree's index: same tag, an exact attribute, both, or a selector match.
pub open spec fn query_accepts(q: SearchQuery, t: &Tree, id: usize, n: NodeView) -> bool {
    match q {
        SearchQuery::Tag(tag) => n.tag == tag@,
        SearchQuery::Attr(key, value) => has_attr(n, key@, value@),
        SearchQuery::TagAndAttr { tag, key, value } => n.tag == tag@ && has_attr(n, key@, value@),
        SearchQuery::Selector(sq) => query_holds(t, sq@, id),
    }
}

/// The query walks up parent links: a selector with a descendant
/// combinator.
pub open spec fn walks_parents(q: SearchQuery) -> bool {
    match q {
        SearchQuery::Selector(sq) => uses_descendant(sq@),
        _ => false,
    }
}

impl SearchQuery {
    /// Whether the query accepts `node`, the node with id `node_id`.
    pub fn matches_at(&self, tree: &Tree, lca: &LcaBinaryLifting, node_id: usize, node: &DomNode) -> (r:
        bool)
        requires
            *self is Selector ==> tree.wf(),
            walks_parents(*self) ==> tree.parents_acyclic(),
        ensures
            r == query_accepts(*self, tree, node_id, node@),
    {
        match self {
            SearchQuery::Tag(tag) => crate::text::str_eq(node.tag(), tag.as_str()),
            SearchQuery::Attr(key, value) => node.has_attr_pair(key.as_str(), value.as_str()),
            SearchQuery::TagAndAttr { tag, key, value } => crate::text::str_eq(node.tag(), tag.as_str())
                && node.has_attr_pair(key.as_str(), value.as_str()),
            SearchQuery::Selector(selector_query) => query_matches_node(tree, lca, node_id, selector_query),
        }
    }
}

#[derive(Debug, Clone)]
pub struct TraversalStep {
    pub step: usize,
    pub node_id: usize,
    pub tag: String,
    pub depth: usize,
    pub matched: bool,
}

#[derive(Debug, Clone)]
pub struct TraversalMetrics {
    pub visited_nodes: usize,
    pub elapsed_ms: u128,
    pub max_depth: usize,
}

#[derive(Debug, Clone)]
pub struct TraversalResult {
    pub found: Option<DomNode>,
    pub found_id: Option<usize>,
    pub traversal_order: Vec<usize>,
    pub path_to_found: Vec<usize>,
    pub log: Vec<TraversalStep>,
    pub metrics: TraversalMetrics,
}

/// What `q` accepts in tree `t`, by id, with the tree's own index.
pub open spec fn accepts(t: &Tree, q: SearchQuery) -> spec_fn(usize) -> bool {
    |id: usize| query_accepts(q, t, id, t.node_of(id))
}

/// The log records, for each visited id in order, its step number (from
/// 1), id, tag, depth and whether it was accepted.
pub open spec fn log_ok(log: Seq<TraversalStep>, order: Seq<usize>, t: &Tree, pred: spec_fn(usize) -> bool) -> bool {
    &&& log.len() == order.len()
    &&& forall|i: int|
        0 <= i < log.len() ==> {
            let s = #[trigger] log[i];
            &&& s.step == i + 1
            &&& s.node_id == order[i]
            &&& s.tag@ == t.node_of(order[i]).tag
            &&& s.depth == t.node_of(order[i]).depth
            &&& s.matched == pred(order[i])
        }
}

/// The found node, its path from the root, and the metrics, as a search
/// that visited `order` reports them.
pub open spec fn result_ok(r: TraversalResult, t: &Tree, order: Seq<usize>, pred: spec_fn(usize) -> bool) -> bool {
    &&& r.traversal_order@ == order
    &&& r.found_id == found_of(order, pred)
    &&& log_ok(r.log@, order, t, pred)
    &&& match r.found_id {
        Some(id) => r.found matches Some(n) && n@ == t.node_of(id) && forall|k: nat|
            t.chain_ends(id, k) ==> r.path_to_found@ == t.up_chain(id, k).reverse(),
        None => r.found is None && r.path_to_found@.len() == 0,
    }
    &&& r.metrics.visited_nodes == order.len()
    &&& r.metrics.max_depth == t.max_depth_of()
}

/// The ids from the root down to `target_id`, following parent links.
pub fn path_to_root(tree: &Tree, target_id: usize) -> (r: Vec<usize>)
    requires
        tree.wf(),
        tree.chain_finite(target_id),
    ensures
        forall|k: nat| tree.chain_ends(target_id, k) ==> r@ == tree.up_chain(target_id, k).reverse(),
{
    tree.chain_to_root(target_id)
}

/// The result of a search that visited `traversal_order`, logged `log`,
/// stopped at `found_id` (if anywhere) and took `elapsed_ms`: the node
/// found, when the tree has it, and its path from the root (empty when
/// nothing was found), with the number of visits and the tree's depth.
pub fn assemble_result(
    tree: &Tree,
    found_id: Option<usize>,
    traversal_order: Vec<usize>,
    log: Vec<TraversalStep>,
    elapsed_ms: u128,
) -> (r: TraversalResult)
    requires
        tree.wf(),
        found_id matches Some(id) ==> tree.chain_finite(id),
    ensures
        r.found_id == found_id,
        r.traversal_order@ == traversal_order@,
        r.log@ == log@,
        match found_id {
            Some(id) => (if tree.has_id(id) {
                r.found matches Some(n) && n@ == tree.node_of(id)
            } else {
                r.found is None
            }) && forall|k: nat|
                tree.chain_ends(id, k) ==> r.path_to_found@ == tree.up_chain(id, k).reverse(),
            None => r.found is None && r.path_to_found@.len() == 0,
        },
        r.metrics.visited_nodes == traversal_order@.len(),
        r.metrics.elapsed_ms == elapsed_ms,
        r.metrics.max_depth == tree.max_depth_of(),
{
    let found = match found_id {
        Some(id) => match tree.find_index_from_id(id) {
            Some(index) => Some(tree.nodes[index].clone()),
            None => None,
        },
        None => None,
    };
    let path_to_found = match found_id {
        Some(id) => {
            assert(tree.chain_finite(id));
            path_to_root(tree, id)
        },
        None => Vec::new(),
    };
    let visited_nodes = traversal_order.len();
    let max_depth = tree.max_depth();
    TraversalResult {
        found,
        found_id,
        traversal_order,
        path_to_found,
        log,
        metrics: TraversalMetrics { visited_nodes, elapsed_ms, max_depth },
    }
}

/// Assembles the result of a search that visited `traversal_order`.
pub(crate) fn finish(
    tree: &Tree,
    found_id: Option<usize>,
    traversal_order: Vec<usize>,
    log: Vec<TraversalStep>,
    elapsed_ms: u128,
    Ghost(pred): Ghost<spec_fn(usize) -> bool>,
) -> (r: TraversalResult)
    requires
        tree.wf(),
        forall|id: usize| tree.has_id(id) && pred(id) ==> #[trigger] tree.chain_finite(id),
        found_id == found_of(traversal_order@, pred),
        log_ok(log@, traversal_order@, tree, pred),
        forall|i: int| 0 <= i < traversal_order@.len() ==> tree.has_id(#[trigger] traversal_order@[i]),
    ensures
        result_ok(r, tree, traversal_order@, pred),
{
    proof {
        if found_id is Some {
            assert(tree.has_id(traversal_order@[traversal_order@.len() - 1]));
        }
    }
    assemble_result(tree, found_id, traversal_order, log, elapsed_ms)
}

/// What visiting one node of a level records, with the node's place in
/// the level.
#[derive(Debug)]
pub struct LevelVisit {
    pub position: usize,
    pub node_id: usize,
    pub tag: String,
    pub depth: usize,
    pub matched: bool,
    pub children: Vec<usize>,
}

/// Visits the node with id `node_id`, at place `position` of its level;
/// `None` when the tree has no such node.
pub fn visit_level_node(
    tree: &Tree,
    lca: &LcaBinaryLifting,
    query: &SearchQuery,
    position: usize,
    node_id: usize,
) -> (r: Option<LevelVisit>)
    requires
        tree.wf(),
        walks_parents(*query) ==> tree.parents_acyclic(),
    ensures
        match r {
            None => !tree.has_id(node_id),
            Some(v) => {
                &&& tree.has_id(node_id)
                &&& v.position == position
                &&& v.node_id == node_id
                &&& v.tag@ == tree.node_of(node_id).tag
                &&& v.depth == tree.node_of(node_id).depth
                &&& v.matched == query_accepts(*query, tree, node_id, tree.node_of(node_id))
                &&& v.children@ == tree.node_of(node_id).children
            },
        },
{
    let index = match tree.find_index_from_id(node_id) {
        Some(i) => i,
        None => return None,
    };
    let node = &tree.nodes[index];
    let matched = query.matches_at(tree, lca, node_id, node);
    Some(
        LevelVisit {
            position,
            node_id,
            tag: String::from_str(node.tag()),
            depth: node.depth(),
            matched,
            children: node.children().clone(),
        },
    )
}

/// Position of the first visit at or after `i` whose node matched.
pub open spec fn first_matched_from(visits: Seq<LevelVisit>, i: int) -> Option<int>
    decreases visits.len() - i,
{
    if i < 0 || i >= visits.len() {
        None
    } else if visits[i].matched {
        Some(i)
    } else {
        first_matched_from(visits, i + 1)
    }
}

/// The ids of the visits.
pub open spec fn visit_ids(visits: Seq<LevelVisit>) -> Seq<usize> {
    visits.map_values(|v: LevelVisit| v.node_id)
}

/// The children of the visited nodes, level order.
pub open spec fn level_children(visits: Seq<LevelVisit>) -> Seq<usize>
    decreases visits.len(),
{
    if visits.len() == 0 {
        Seq::empty()
    } else {
        level_children(visits.drop_last()) + visits.last().children@
    }
}

/// How many visits of a level are taken: up to the first that matched.
pub open spec fn level_taken(visits: Seq<LevelVisit>) -> int {
    match first_matched_from(visits, 0) {
        Some(i) => i + 1,
        None => visits.len() as int,
    }
}

/// Takes the visits of one level, in order: records and logs each, stops
/// after the first whose node matched and returns its id with an empty next
/// level; otherwise returns the children of all of them, in order, as the
/// next level.
pub fn absorb_level(
    traversal_order: &mut Vec<usize>,
    log: &mut Vec<TraversalStep>,
    visits: Vec<LevelVisit>,
) -> (r: (Vec<usize>, Option<usize>))
    ensures
        final(traversal_order)@ == old(traversal_order)@ + visit_ids(visits@).take(level_taken(visits@)),
        final(log)@.len() == old(log)@.len() + level_taken(visits@),
        forall|j: int| 0 <= j < old(log)@.len() ==> final(log)@[j] == old(log)@[j],
        forall|j: int|
            0 <= j < level_taken(visits@) ==> {
                let s = #[trigger] final(log)@[old(log)@.len() + j];
                &&& s.step == old(traversal_order)@.len() + j + 1
                &&& s.node_id == visits@[j].node_id
                &&& s.tag@ == visits@[j].tag@
                &&& s.depth == visits@[j].depth
                &&& s.matched == visits@[j].matched
            },
        r.1 == match first_matched_from(visits@, 0) {
            Some(i) => Some(visits@[i].node_id),
            None => None,
        },
        first_matched_from(visits@, 0) is None ==> r.0@ == level_children(visits@),
        first_matched_from(visits@, 0) is Some ==> r.0@.len() == 0,
{
    let ghost vs = visits@;
    let ghost order0 = traversal_order@;
    let ghost log0 = log@;
    let mut next_level: Vec<usize> = Vec::new();
    let mut i: usize = 0;
    while i < visits.len()
        invariant
            vs == visits@,
            order0 == old(traversal_order)@,
            log0 == old(log)@,
            0 <= i <= vs.len(),
            first_matched_from(vs, 0) == first_matched_from(vs, i as int),
            traversal_order@ == order0 + visit_ids(vs).take(i as int),
            log@.len() == log0.len() + i,
            forall|j: int| 0 <= j < log0.len() ==> log@[j] == log0[j],
            forall|j: int|
                0 <= j < i ==> {
                    let s = #[trigger] log@[log0.len() + j];
                    &&& s.step == order0.len() + j + 1
                    &&& s.node_id == vs[j].node_id
                    &&& s.tag@ == vs[j].tag@
                    &&& s.depth == vs[j].depth
                    &&& s.matched == vs[j].matched
                },
            next_level@ == level_children(vs.take(i as int)),
        decreases vs.len() - i,
    {
        let visit = &visits[i];
        traversal_order.push(visit.node_id);
        let ghost log_before = log@;
        log.push(
            TraversalStep {
                step: traversal_order.len(),
                node_id: visit.node_id,
                tag: visit.tag.clone(),
                depth: visit.depth,
                matched: visit.matched,
            },
        );
        proof {
            assert(visit_ids(vs).take(i + 1) =~= visit_ids(vs).take(i as int).push(vs[i as int].node_id));
            assert forall|j: int| 0 <= j < log0.len() implies log@[j] == log0[j] by {
                assert(log@[j] == log_before[j]);
            }
            assert forall|j: int| 0 <= j < i + 1 implies {
                let s = #[trigger] log@[log0.len() + j];
                &&& s.step == order0.len() + j + 1
                &&& s.node_id == vs[j].node_id
                &&& s.tag@ == vs[j].tag@
                &&& s.depth == vs[j].depth
                &&& s.matched == vs[j].matched
            } by {
                if j < i {
                    assert(log@[log0.len() + j] == log_before[log0.len() + j]);
                }
            }
        }
        if visit.matched {
            proof {
                assert(vs[i as int].matched);
                assert(first_matched_from(vs, i as int) == Some(i as int));
                assert(level_taken(vs) == i + 1);
                assert(traversal_order@ =~= order0 + visit_ids(vs).take(i + 1));
            }
            return (Vec::new(), Some(visit.node_id));
        }
        let mut k: usize = 0;
        let ghost base = next_level@;
        while k < visit.children.len()
            invariant
                0 <= k <= visit.children@.len(),
                next_level@ == base + visit.children@.take(k as int),
            decreases visit.children@.len() - k,
        {
            next_level.push(visit.children[k]);
            k += 1;
            proof {
                assert(next_level@ =~= base + visit.children@.take(k as int));
            }
        }
        i += 1;
        proof {
            assert(vs.take(i as int).drop_last() =~= vs.take(i - 1));
            assert(visit.children@.take(k as int) =~= visit.children@);
            assert(next_level@ == level_children(vs.take(i as int)));
        }
    }
    proof {
        assert(vs.take(vs.len() as int) =~= vs);
        assert(visit_ids(vs).take(vs.len() as int) =~= visit_ids(vs));
    }
    (next_level, None)
}

/// Breadth-first search from the root for the first node that `query`
/// accepts; every visit is logged.
pub fn bfs(tree: &Tree, query: &SearchQuery) -> (r: TraversalResult)
    requires
        tree.wf(),
        tree.children_acyclic(),
        walks_parents(*query) ==> tree.parents_acyclic(),
        forall|id: usize| tree.has_id(id) && accepts(tree, *query)(id) ==> #[trigger] tree.chain_finite(id),
        tree.nodes@.len() <= isize::MAX,
    ensures
        result_ok(r, tree, bfs_order(tree, accepts(tree, *query), seq![tree.root]), accepts(tree, *query)),
{
    let started_at = now();
    let lca_index = tree.build_lca_index();
    proof {
        lemma_build_size(tree, lca_index@);
    }
    let ghost pred = accepts(tree, *query);
    let ghost total = bfs_order(tree, pred, seq![tree.root]);
    let mut queue: VecDeque<usize> = VecDeque::new();
    let mut traversal_order: Vec<usize> = Vec::new();
    let mut log: Vec<TraversalStep> = Vec::new();
    let mut found_id: Option<usize> = None;
    queue.push_back(tree.root);
    proof {
        let (rank, reach) = chosen(tree);
        assert(tree.ranked(rank, reach));
        assert(queue@ =~= seq![tree.root]);
        assert(traversal_order@ + bfs_order(tree, pred, queue@) =~= total);
    }
    loop
        invariant_except_break
            found_id is None,
            total == traversal_order@ + bfs_order(tree, pred, queue@),
            forall|i: int| 0 <= i < traversal_order@.len() ==> !pred(#[trigger] traversal_order@[i]),
            queue_ok(tree, queue@),
        invariant
            tree.wf(),
            tree.children_acyclic(),
            walks_parents(*query) ==> tree.parents_acyclic(),
            forall|id: usize| tree.has_id(id) && accepts(tree, *query)(id) ==> #[trigger] tree.chain_finite(id),
            lca_index@ == spec_build(tree),
            lca_index@.up.len() == tree.nodes@.len(),
            pred == accepts(tree, *query),
            total == bfs_order(tree, pred, seq![tree.root]),
            forall|i: int| 0 <= i < traversal_order@.len() ==> tree.has_id(#[trigger] traversal_order@[i]),
            log_ok(log@, traversal_order@, tree, pred),
        ensures
            total == traversal_order@,
            found_id == found_of(traversal_order@, pred),
            forall|i: int| 0 <= i < traversal_order@.len() ==> tree.has_id(#[trigger] traversal_order@[i]),
            log_ok(log@, traversal_order@, tree, pred),
        decreases measure(tree, queue@),
    {
        let ghost q = queue@;
        let current_node_id = match queue.pop_front() {
            Some(id) => id,
            None => {
                proof {
                    assert(q.len() == 0);
                    assert(traversal_order@ + Seq::<usize>::empty() =~= traversal_order@);
                }
                break;
            },
        };
        proof {
            lemma_queue_front(tree, q);
            assert(queue@ == q.drop_first());
        }
        let current_index = match tree.find_index_from_id(current_node_id) {
            Some(index) => index,
            None => {
                continue;
            },
        };
        let current_node = &tree.nodes[current_index];
        assert(current_node@ == tree.node_of(current_node_id));
        let matched = query.matches_at(tree, &lca_index, current_node_id, current_node);
        let ghost before = traversal_order@;
        traversal_order.push(current_node_id);
        let step = TraversalStep {
            step: traversal_order.len(),
            node_id: current_node_id,
            tag: String::from_str(current_node.tag()),
            depth: current_node.depth(),
            matched,
        };
        log.push(step);
        proof {
            assert(log_ok(log@, traversal_order@, tree, pred)) by {
                assert forall|i: int| 0 <= i < log@.len() implies {
                    let s = #[trigger] log@[i];
                    &&& s.step == i + 1
                    &&& s.node_id == traversal_order@[i]
                    &&& s.tag@ == tree.node_of(traversal_order@[i]).tag
                    &&& s.depth == tree.node_of(traversal_order@[i]).depth
                    &&& s.matched == pred(traversal_order@[i])
                } by {
                    if i < before.len() {
                        assert(traversal_order@[i] == before[i]);
                    }
                }
            }
        }
        if matched {
            found_id = Some(current_node_id);
            proof {
                assert(bfs_order(tree, pred, q) == seq![current_node_id]);
                assert(traversal_order@ =~= before + seq![current_node_id]);
            }
            break;
        }
        let children = current_node.children();
        let mut k: usize = 0;
        assert(queue@ =~= q.drop_first() + children@.take(0));
        while k < children.len()
            invariant
                queue@ == q.drop_first() + children@.take(k as int),
                0 <= k <= children@.len(),
            decreases children@.len() - k,
        {
            queue.push_back(children[k]);
            proof {
                assert(children@.take(k + 1) =~= children@.take(k as int).push(children@[k as int]));
            }
            k += 1;
            proof {
                assert(queue@ =~= q.drop_first() + children@.take(k as int));
            }
        }
        proof {
            assert(children@.take(children@.len() as int) =~= children@);
            lemma_expand_core(tree, current_node_id, q.drop_first(), queue@);
            assert(bfs_order(tree, pred, q) == seq![current_node_id] + bfs_order(tree, pred, queue@));
            assert(traversal_order@ + bfs_order(tree, pred, queue@) =~= before + (seq![current_node_id] + bfs_order(tree, pred, queue@)));
        }
    }
    let elapsed_ms = as_millis(&elapsed(&started_at));
    finish(tree, found_id, traversal_order, log, elapsed_ms, Ghost(pred))
}

/// What `bfs` reports on a DOM tree: it finds a node exactly when the
/// query accepts some node of the tree; the visit starts at the root; the
/// node found is accepted and every node visited before it is rejected; nodes are visited level by
/// level;
/// the path to the node found runs from the root down to it through
/// parent-child links, one node per level.
pub proof fn lemma_bfs_result(tree: &Tree, query: SearchQuery, r: TraversalResult)
    requires
        tree.is_dom(),
        result_ok(r, tree, bfs_order(tree, accepts(tree, query), seq![tree.root]), accepts(tree, query)),
    ensures
        ({
            let pred = accepts(tree, query);
            let o = r.traversal_order@;
            &&& r.found_id is Some <==> exists|i: int|
                0 <= i < tree.nodes@.len() && pred(#[trigger] tree.nv(i).id)
            &&& o.len() > 0
            &&& o[0] == tree.root
            &&& forall|i: int| 0 <= i < o.len() - 1 ==> !pred(#[trigger] o[i])
            &&& forall|i: int, j: int|
                #![trigger o[i], o[j]]
                0 <= i <= j < o.len() ==> depth_of(tree, o[i]) <= depth_of(tree, o[j])
            &&& r.found_id matches Some(id) ==> {
                let p = r.path_to_found@;
                &&& pred(id)
                &&& p.len() == tree.node_of(id).depth + 1
                &&& p[0] == tree.root
                &&& p.last() == id
                &&& forall|i: int|
                    0 <= i < p.len() - 1 ==> tree.node_of(#[trigger] p[i + 1]).parent == Some(p[i])
                        && tree.node_of(p[i]).children.contains(p[i + 1])
            }
        }),
{
    let pred = accepts(tree, query);
    let q = seq![tree.root];
    let o = bfs_order(tree, pred, q);
    lemma_bfs_finds_iff(tree, pred);
    lemma_bfs_by_level(tree, pred);
    lemma_root_queue(tree);
    assert(tree.has_id(tree.root));
    assert(o.len() > 0 && o[0] == tree.root) by {
        if pred(tree.root) {
            assert(o == seq![tree.root]);
        } else {
            assert(o == seq![tree.root] + bfs_order(tree, pred, q.drop_first() + tree.node_of(tree.root).children));
        }
    }
    if let Some(id) = r.found_id {
        assert(tree.has_id(o[o.len() - 1]));
        lemma_dom_chain_ends(tree, id);
        let k = (tree.pos(id) + 1) as nat;
        assert(r.path_to_found@ == tree.up_chain(id, k).reverse());
        lemma_dom_path(tree, id, k);
    }
}

/// `visits` are the visits of the level `l`: one for each id of `l` that
/// has a node, in order, recording whether `pred` accepts it and the node's
/// children.
pub open spec fn level_visits_of(
    t: &Tree,
    pred: spec_fn(usize) -> bool,
    l: Seq<usize>,
    visits: Seq<LevelVisit>,
) -> bool {
    &&& visit_ids(visits) == l.filter(|id: usize| t.has_id(id))
    &&& forall|j: int|
        0 <= j < visits.len() ==> (#[trigger] visits[j]).matched == pred(visits[j].node_id)
            && visits[j].children@ == t.node_of(visits[j].node_id).children
}

proof fn lemma_filter_front(s: Seq<usize>, p: spec_fn(usize) -> bool)
    requires
        s.len() > 0,
    ensures
        s.filter(p) == (if p(s[0]) {
            seq![s[0]]
        } else {
            Seq::<usize>::empty()
        }) + s.drop_first().filter(p),
{
    let head = seq![s[0]];
    assert(s =~= head + s.drop_first());
    Seq::filter_distributes_over_add(head, s.drop_first(), p);
    reveal_with_fuel(Seq::<usize>::filter, 2);
    assert(head.drop_last() =~= Seq::<usize>::empty());
    assert(head.filter(p) =~= if p(s[0]) {
        seq![s[0]]
    } else {
        Seq::<usize>::empty()
    });
}

proof fn lemma_level_children_front(vs: Seq<LevelVisit>)
    requires
        vs.len() > 0,
    ensures
        level_children(vs) == vs[0].children@ + level_children(vs.drop_first()),
    decreases vs.len(),
{
    if vs.len() == 1 {
        assert(vs.drop_last() =~= Seq::<LevelVisit>::empty());
        assert(vs.drop_first() =~= Seq::<LevelVisit>::empty());
        assert(level_children(vs) =~= vs[0].children@ + level_children(vs.drop_first()));
    } else {
        lemma_level_children_front(vs.drop_last());
        assert(vs.drop_last().drop_first() =~= vs.drop_first().drop_last());
        assert(vs.drop_last()[0] == vs[0]);
        assert(vs.drop_first().last() == vs.last());
        assert(level_children(vs) =~= vs[0].children@ + level_children(vs.drop_first()));
    }
}

proof fn lemma_first_matched_bounds(vs: Seq<LevelVisit>, i: int)
    requires
        0 <= i,
    ensures
        first_matched_from(vs, i) matches Some(k) ==> i <= k < vs.len() && vs[k].matched,
    decreases vs.len() - i,
{
    if i < vs.len() && !vs[i].matched {
        lemma_first_matched_bounds(vs, i + 1);
    }
}

proof fn lemma_first_matched_shift(vs: Seq<LevelVisit>, i: int)
    requires
        vs.len() > 0,
        0 <= i,
    ensures
        first_matched_from(vs, i + 1) == match first_matched_from(vs.drop_first(), i) {
            Some(k) => Some(k + 1),
            None => None::<int>,
        },
    decreases vs.len() - i,
{
    if i + 1 < vs.len() && !vs[i + 1].matched {
        lemma_first_matched_shift(vs, i + 1);
    }
}

/// Taking the level `l` ahead of `r` one visit at a time gives the visited
/// ids up to the first accepted one, or all of them and then the search
/// from `r` followed by the children of the level's nodes.
proof fn lemma_level_visits(
    t: &Tree,
    pred: spec_fn(usize) -> bool,
    l: Seq<usize>,
    r: Seq<usize>,
    visits: Seq<LevelVisit>,
)
    requires
        level_visits_of(t, pred, l, visits),
    ensures
        level_run(t, pred, l, r) == match first_matched_from(visits, 0) {
            Some(i) => visit_ids(visits).take(i + 1),
            None => visit_ids(visits) + bfs_order(t, pred, r + level_children(visits)),
        },
    decreases l.len(),
{
    let p = |id: usize| t.has_id(id);
    if l.len() == 0 {
        assert(l.filter(p) =~= Seq::<usize>::empty()) by {
            reveal_with_fuel(Seq::<usize>::filter, 1);
        }
        assert(visits.len() == 0);
        assert(visit_ids(visits) =~= Seq::<usize>::empty());
        assert(r + level_children(visits) =~= r);
    } else {
        let v = l[0];
        let l1 = l.drop_first();
        lemma_filter_front(l, p);
        if !t.has_id(v) {
            assert(l.filter(p) =~= l1.filter(p));
            lemma_level_visits(t, pred, l1, r, visits);
        } else {
            assert(visit_ids(visits) == seq![v] + l1.filter(p));
            assert(visits.len() > 0);
            assert(visits[0].node_id == visit_ids(visits)[0]);
            let vs1 = visits.drop_first();
            assert(visit_ids(vs1) =~= l1.filter(p)) by {
                assert(visit_ids(vs1) =~= visit_ids(visits).drop_first());
            }
            assert forall|j: int| 0 <= j < vs1.len() implies (#[trigger] vs1[j]).matched == pred(vs1[j].node_id)
                && vs1[j].children@ == t.node_of(vs1[j].node_id).children by {
                assert(vs1[j] == visits[j + 1]);
            }
            if pred(v) {
                assert(visits[0].matched);
                assert(visit_ids(visits).take(1) =~= seq![v]);
            } else {
                let cs = t.node_of(v).children;
                assert(!visits[0].matched);
                lemma_level_visits(t, pred, l1, r + cs, vs1);
                lemma_first_matched_shift(visits, 0);
                lemma_level_children_front(visits);
                assert(visit_ids(visits) =~= seq![v] + visit_ids(vs1));
                match first_matched_from(vs1, 0) {
                    Some(i) => {
                        lemma_first_matched_bounds(vs1, 0);
                        assert(visit_ids(visits).take(i + 2) =~= seq![v] + visit_ids(vs1).take(i + 1));
                    },
                    None => {
                        assert(r + cs + level_children(vs1) =~= r + level_children(visits));
                        assert(seq![v] + (visit_ids(vs1) + bfs_order(t, pred, r + level_children(visits)))
                            =~= visit_ids(visits) + bfs_order(t, pred, r + level_children(visits)));
                    },
                }
            }
        }
    }
}

proof fn lemma_level_children_elem(vs: Seq<LevelVisit>, k: int)
    requires
        0 <= k < level_children(vs).len(),
    ensures
        exists|j: int, m: int|
            0 <= j < vs.len() && 0 <= m < vs[j].children@.len() && level_children(vs)[k] == #[trigger] vs[j].children@[m],
    decreases vs.len(),
{
    let init = level_children(vs.drop_last());
    if k < init.len() {
        lemma_level_children_elem(vs.drop_last(), k);
        let (j, m) = choose|j: int, m: int|
            0 <= j < vs.drop_last().len() && 0 <= m < vs.drop_last()[j].children@.len() && init[k]
                == #[trigger] vs.drop_last()[j].children@[m];
        assert(vs.drop_last()[j] == vs[j]);
        assert(level_children(vs)[k] == vs[j].children@[m]);
    } else {
        let j = vs.len() - 1;
        let m = k - init.len();
        assert(level_children(vs)[k] == vs[j].children@[m]);
    }
}

/// Breadth-first search level by level, as the concurrent search runs it,
/// visits what the queue search visits: from a queue that holds one level,
/// given that level's visits, the search visits the level's nodes up to the
/// first accepted one, and when none is accepted goes on from the next
/// level: the children of the level's nodes, in order.
pub proof fn lemma_bfs_level_step(t: &Tree, pred: spec_fn(usize) -> bool, l: Seq<usize>, visits: Seq<LevelVisit>)
    requires
        queue_ok(t, l),
        level_visits_of(t, pred, l, visits),
    ensures
        bfs_order(t, pred, l) == match first_matched_from(visits, 0) {
            Some(i) => visit_ids(visits).take(i + 1),
            None => visit_ids(visits) + bfs_order(t, pred, level_children(visits)),
        },
        queue_ok(t, level_children(visits)),
{
    let r = Seq::<usize>::empty();
    let p = |id: usize| t.has_id(id);
    let lc = level_children(visits);
    let (rank, reach) = chosen(t);
    assert(t.ranked(rank, reach));
    assert forall|k: int| 0 <= k < lc.len() && t.has_id(#[trigger] lc[k]) implies reach.contains(lc[k]) by {
        lemma_level_children_elem(visits, k);
        let (j, m) = choose|j: int, m: int|
            0 <= j < visits.len() && 0 <= m < visits[j].children@.len() && lc[k] == #[trigger] visits[j].children@[m];
        let x = visits[j].node_id;
        assert(visit_ids(visits)[j] == x);
        assert(l.filter(p).contains(x));
        l.lemma_filter_contains_rev(p, x);
        l.lemma_filter_pred(p, j);
        let jj = choose|jj: int| 0 <= jj < l.len() && l[jj] == x;
        assert(t.has_id(l[jj]));
        assert(lc[k] == t.node_of(x).children[m]);
    }
    assert(l + r =~= l);
    lemma_level_run(t, pred, l, r);
    lemma_level_visits(t, pred, l, r, visits);
    assert(r + level_children(visits) =~= level_children(visits));
}

/// The ids of `l` that have a node, in order.
pub open spec fn present(t: &Tree, l: Seq<usize>) -> Seq<usize> {
    l.filter(|id: usize| t.has_id(id))
}

/// The children of the nodes `ids`, in order.
pub open spec fn all_children(t: &Tree, ids: Seq<usize>) -> Seq<usize>
    decreases ids.len(),
{
    if ids.len() == 0 {
        Seq::empty()
    } else {
        t.node_of(ids[0]).children + all_children(t, ids.drop_first())
    }
}

/// Position of the first id at or after `i` that `pred` accepts.
pub open spec fn first_accepted(pred: spec_fn(usize) -> bool, ids: Seq<usize>, i: int) -> Option<int>
    decreases ids.len() - i,
{
    if i < 0 || i >= ids.len() {
        None
    } else if pred(ids[i]) {
        Some(i)
    } else {
        first_accepted(pred, ids, i + 1)
    }
}

proof fn lemma_first_accepted_bounds(pred: spec_fn(usize) -> bool, ids: Seq<usize>, i: int)
    requires
        0 <= i,
    ensures
        first_accepted(pred, ids, i) matches Some(k) ==> i <= k < ids.len(),
    decreases ids.len() - i,
{
    if i < ids.len() && !pred(ids[i]) {
        lemma_first_accepted_bounds(pred, ids, i + 1);
    }
}

proof fn lemma_first_accepted_shift(pred: spec_fn(usize) -> bool, ids: Seq<usize>, i: int)
    requires
        ids.len() > 0,
        0 <= i,
    ensures
        first_accepted(pred, ids, i + 1) == match first_accepted(pred, ids.drop_first(), i) {
            Some(k) => Some(k + 1),
            None => None::<int>,
        },
    decreases ids.len() - i,
{
    if i + 1 < ids.len() && !pred(ids[i + 1]) {
        lemma_first_accepted_shift(pred, ids, i + 1);
    }
}

/// Taking a whole level `l` off the front of the queue `l + r` costs one
/// unit of work per id, and leaves a good queue: `r` followed by the
/// children of the level's nodes.
pub proof fn lemma_level_measure(t: &Tree, l: Seq<usize>, r: Seq<usize>)
    requires
        queue_ok(t, l + r),
    ensures
        queue_ok(t, r + all_children(t, present(t, l))),
        measure(t, r + all_children(t, present(t, l))) + l.len() == measure(t, l + r),
    decreases l.len(),
{
    let p = |id: usize| t.has_id(id);
    if l.len() == 0 {
        assert(l.filter(p) =~= Seq::<usize>::empty()) by {
            reveal_with_fuel(Seq::<usize>::filter, 1);
        }
        assert(r + all_children(t, present(t, l)) =~= r);
        assert(l + r =~= r);
    } else {
        let v = l[0];
        let l1 = l.drop_first();
        let q = l + r;
        lemma_filter_front(l, p);
        lemma_queue_front(t, q);
        assert(q[0] == v);
        assert(q.drop_first() =~= l1 + r);
        if !t.has_id(v) {
            assert(present(t, l) =~= present(t, l1));
            lemma_level_measure(t, l1, r);
        } else {
            let cs = t.node_of(v).children;
            assert(present(t, l) =~= seq![v] + present(t, l1));
            assert(present(t, l).drop_first() =~= present(t, l1));
            assert(all_children(t, present(t, l)) == cs + all_children(t, present(t, l1)));
            let next = (l1 + r) + cs;
            lemma_expand_core(t, v, l1 + r, next);
            assert(next =~= l1 + (r + cs));
            lemma_level_measure(t, l1, r + cs);
            assert(r + all_children(t, present(t, l)) =~= (r + cs) + all_children(t, present(t, l1)));
        }
    }
}

/// Breadth-first search level by level, as the concurrent search folds it:
/// the level's ids that have a node up to the first accepted one; when none
/// is accepted, those ids and then the search of the next level, the
/// children of the level's nodes in order.
pub open spec fn bfs_levels(t: &Tree, pred: spec_fn(usize) -> bool, l: Seq<usize>) -> Seq<usize>
    decreases measure(t, l),
    when queue_ok(t, l)
{
    if l.len() == 0 {
        Seq::empty()
    } else {
        let ids = present(t, l);
        proof {
            lemma_level_measure(t, l, Seq::empty());
            assert(l + Seq::<usize>::empty() =~= l);
            assert(Seq::<usize>::empty() + all_children(t, ids) =~= all_children(t, ids));
        }
        match first_accepted(pred, ids, 0) {
            Some(i) => ids.take(i + 1),
            None => ids + bfs_levels(t, pred, all_children(t, ids)),
        }
    }
}

proof fn lemma_level_ids(t: &Tree, pred: spec_fn(usize) -> bool, l: Seq<usize>, r: Seq<usize>)
    ensures
        level_run(t, pred, l, r) == match first_accepted(pred, present(t, l), 0) {
            Some(i) => present(t, l).take(i + 1),
            None => present(t, l) + bfs_order(t, pred, r + all_children(t, present(t, l))),
        },
    decreases l.len(),
{
    let p = |id: usize| t.has_id(id);
    if l.len() == 0 {
        assert(l.filter(p) =~= Seq::<usize>::empty()) by {
            reveal_with_fuel(Seq::<usize>::filter, 1);
        }
        assert(r + all_children(t, present(t, l)) =~= r);
        assert(present(t, l) + bfs_order(t, pred, r) =~= bfs_order(t, pred, r));
    } else {
        let v = l[0];
        let l1 = l.drop_first();
        lemma_filter_front(l, p);
        if !t.has_id(v) {
            assert(present(t, l) =~= present(t, l1));
            lemma_level_ids(t, pred, l1, r);
        } else {
            let ids = present(t, l);
            let ids1 = present(t, l1);
            assert(ids =~= seq![v] + ids1);
            assert(ids.drop_first() =~= ids1);
            if pred(v) {
                assert(ids.take(1) =~= seq![v]);
            } else {
                let cs = t.node_of(v).children;
                lemma_level_ids(t, pred, l1, r + cs);
                lemma_first_accepted_shift(pred, ids, 0);
                assert(all_children(t, ids) == cs + all_children(t, ids1));
                match first_accepted(pred, ids1, 0) {
                    Some(i) => {
                        lemma_first_accepted_bounds(pred, ids1, 0);
                        assert(ids.take(i + 2) =~= seq![v] + ids1.take(i + 1));
                    },
                    None => {
                        assert(r + cs + all_children(t, ids1) =~= r + all_children(t, ids));
                        assert(seq![v] + (ids1 + bfs_order(t, pred, r + all_children(t, ids))) =~= ids + bfs_order(
                            t,
                            pred,
                            r + all_children(t, ids),
                        ));
                    },
                }
            }
        }
    }
}

/// From any good queue, breadth-first search visits what the level-by-level
/// fold visits.
pub proof fn lemma_bfs_levels(t: &Tree, pred: spec_fn(usize) -> bool, l: Seq<usize>)
    requires
        queue_ok(t, l),
    ensures
        bfs_order(t, pred, l) == bfs_levels(t, pred, l),
    decreases measure(t, l),
{
    if l.len() > 0 {
        let e = Seq::<usize>::empty();
        assert(l + e =~= l);
        lemma_level_run(t, pred, l, e);
        lemma_level_ids(t, pred, l, e);
        lemma_level_measure(t, l, e);
        let ac = all_children(t, present(t, l));
        assert(e + ac =~= ac);
        if first_accepted(pred, present(t, l), 0) is None {
            lemma_bfs_levels(t, pred, ac);
        }
    } else {
        assert(bfs_order(t, pred, l) =~= Seq::<usize>::empty());
    }
}

/// The visits of a level are what the fold takes from it: the level's ids
/// that have a node, the first accepted among them, and their children.
pub proof fn lemma_visits_are_level(
    t: &Tree,
    pred: spec_fn(usize) -> bool,
    l: Seq<usize>,
    visits: Seq<LevelVisit>,
)
    requires
        level_visits_of(t, pred, l, visits),
    ensures
        visit_ids(visits) == present(t, l),
        first_matched_from(visits, 0) == first_accepted(pred, present(t, l), 0),
        level_children(visits) == all_children(t, present(t, l)),
    decreases visits.len(),
{
    lemma_visits_first(pred, visits, 0);
    lemma_visits_children(t, pred, visits);
}

proof fn lemma_visits_first(pred: spec_fn(usize) -> bool, visits: Seq<LevelVisit>, i: int)
    requires
        0 <= i,
        forall|j: int| 0 <= j < visits.len() ==> (#[trigger] visits[j]).matched == pred(visits[j].node_id),
    ensures
        first_matched_from(visits, i) == first_accepted(pred, visit_ids(visits), i),
    decreases visits.len() - i,
{
    if i < visits.len() {
        assert(visit_ids(visits)[i] == visits[i].node_id);
        lemma_visits_first(pred, visits, i + 1);
    }
}

proof fn lemma_visits_children(t: &Tree, pred: spec_fn(usize) -> bool, visits: Seq<LevelVisit>)
    requires
        forall|j: int|
            0 <= j < visits.len() ==> (#[trigger] visits[j]).children@ == t.node_of(visits[j].node_id).children,
    ensures
        level_children(visits) == all_children(t, visit_ids(visits)),
    decreases visits.len(),
{
    if visits.len() > 0 {
        lemma_level_children_front(visits);
        let v1 = visits.drop_first();
        assert forall|j: int| 0 <= j < v1.len() implies (#[trigger] v1[j]).children@ == t.node_of(v1[j].node_id).children by {
            assert(v1[j] == visits[j + 1]);
        }
        lemma_visits_children(t, pred, v1);
        assert(visit_ids(visits).drop_first() =~= visit_ids(v1));
        assert(visit_ids(visits)[0] == visits[0].node_id);
    }
}

/// On a DOM tree, breadth-first search from the root visits what the
/// level-by-level fold that the concurrent search runs visits.
pub proof fn lemma_bfs_by_levels(t: &Tree, pred: spec_fn(usize) -> bool)
    requires
        t.is_dom(),
    ensures
        bfs_order(t, pred, seq![t.root]) == bfs_levels(t, pred, seq![t.root]),
{
    lemma_root_queue(t);
    lemma_bfs_levels(t, pred, seq![t.root]);
}

/// What `bfs` finds for a tag, attribute, or tag-and-attribute query on a
/// DOM tree: a node is found exactly when the tree has a node with that tag
/// (exactly), with an attribute equal to the key and value, or with both;
/// and the node found has them.
pub proof fn lemma_bfs_plain_query(tree: &Tree, query: SearchQuery, r: TraversalResult)
    requires
        tree.is_dom(),
        result_ok(r, tree, bfs_order(tree, accepts(tree, query), seq![tree.root]), accepts(tree, query)),
    ensures
        match query {
            SearchQuery::Tag(tag) => {
                &&& r.found_id matches Some(id) ==> tree.node_of(id).tag == tag@
                &&& r.found_id is Some <==> exists|i: int| 0 <= i < tree.nodes@.len() && (#[trigger] tree.nv(i)).tag == tag@
            },
            SearchQuery::Attr(key, value) => {
                &&& r.found_id matches Some(id) ==> has_attr(tree.node_of(id), key@, value@)
                &&& r.found_id is Some <==> exists|i: int|
                    0 <= i < tree.nodes@.len() && has_attr(#[trigger] tree.nv(i), key@, value@)
            },
            SearchQuery::TagAndAttr { tag, key, value } => {
                &&& r.found_id matches Some(id) ==> tree.node_of(id).tag == tag@ && has_attr(
                    tree.node_of(id),
                    key@,
                    value@,
                )
                &&& r.found_id is Some <==> exists|i: int|
                    0 <= i < tree.nodes@.len() && (#[trigger] tree.nv(i)).tag == tag@ && has_attr(tree.nv(i), key@, value@)
            },
            SearchQuery::Selector(_) => true,
        },
{
    let pred = accepts(tree, query);
    lemma_bfs_result(tree, query, r);
    assert forall|i: int| 0 <= i < tree.nodes@.len() implies #[trigger] pred(tree.nv(i).id) == query_accepts(
        query,
        tree,
        tree.nv(i).id,
        tree.nv(i),
    ) by {
        assert(tree.node_of(tree.nv(i).id) == tree.nv(i));
    }
    match query {
        SearchQuery::Selector(_) => {},
        _ => {
            if (exists|i: int| 0 <= i < tree.nodes@.len() && pred(#[trigger] tree.nv(i).id)) {
                let i = choose|i: int| 0 <= i < tree.nodes@.len() && pred(#[trigger] tree.nv(i).id);
                assert(pred(tree.nv(i).id));
            }
        },
    }
}

} // verus!
