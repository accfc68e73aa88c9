//! A depth-first search that reports with the breadth-first search's types.

use vstd::prelude::*;
use crate::bfs::{
    SearchQuery, TraversalStep, TraversalResult, query_accepts, accepts, log_ok, result_ok, finish,
    walks_parents,
};
use crate::domnode::has_attr;
use crate::tree::{Tree, lemma_dom_chain_ends, lemma_dom_path};
use crate::lca::{LcaBinaryLifting, LcaView, lemma_build_size};
use crate::search::{
    dfs_order, found_of, queue_ok, lemma_stack_top, lemma_expand_core, measure, chosen,
    lemma_dfs_finds_iff, lemma_root_queue,
};
use crate::clock::{now, elapsed, as_millis};

verus! {

/// Depth-first search from `start_node_id` for the first node that `query`
/// accepts: the visited ids, their log, and the accepted id if any.
fn walk(
    tree: &Tree,
    lca: &LcaBinaryLifting,
    query: &SearchQuery,
    start_node_id: usize,
) -> (r: (Vec<usize>, Vec<TraversalStep>, Option<usize>))
    requires
        tree.wf(),
        walks_parents(*query) ==> tree.parents_acyclic(),
        queue_ok(tree, seq![start_node_id]),
    ensures
        r.0@ == dfs_order(tree, accepts(tree, *query), seq![start_node_id]),
        r.2 == found_of(r.0@, accepts(tree, *query)),
        log_ok(r.1@, r.0@, tree, accepts(tree, *query)),
        forall|i: int| 0 <= i < r.0@.len() ==> tree.has_id(#[trigger] r.0@[i]),
{
    let ghost pred = accepts(tree, *query);
    let ghost total = dfs_order(tree, pred, seq![start_node_id]);
    let mut stack: Vec<usize> = Vec::new();
    stack.push(start_node_id);
    let mut traversal_order: Vec<usize> = Vec::new();
    let mut log: Vec<TraversalStep> = Vec::new();
    let mut found_id: Option<usize> = None;
    proof {
        assert(stack@ =~= seq![start_node_id]);
        assert(traversal_order@ + dfs_order(tree, pred, stack@) =~= total);
    }
    loop
        invariant_except_break
            found_id is None,
            total == traversal_order@ + dfs_order(tree, pred, stack@),
            forall|i: int| 0 <= i < traversal_order@.len() ==> !pred(#[trigger] traversal_order@[i]),
            queue_ok(tree, stack@),
        invariant
            tree.wf(),
            walks_parents(*query) ==> tree.parents_acyclic(),
            pred == accepts(tree, *query),
            total == dfs_order(tree, pred, seq![start_node_id]),
            forall|i: int| 0 <= i < traversal_order@.len() ==> tree.has_id(#[trigger] traversal_order@[i]),
            log_ok(log@, traversal_order@, tree, pred),
        ensures
            total == traversal_order@,
            found_id == found_of(traversal_order@, pred),
            forall|i: int| 0 <= i < traversal_order@.len() ==> tree.has_id(#[trigger] traversal_order@[i]),
            log_ok(log@, traversal_order@, tree, pred),
        decreases measure(tree, stack@),
    {
        let ghost q = stack@;
        let current_node_id = match stack.pop() {
            Some(id) => id,
            None => {
                proof {
                    assert(q.len() == 0);
                    assert(traversal_order@ + Seq::<usize>::empty() =~= traversal_order@);
                }
                break;
            },
        };
        proof {
            lemma_stack_top(tree, q);
            assert(stack@ == q.drop_last());
        }
        let current_index = match tree.find_index_from_id(current_node_id) {
            Some(index) => index,
            None => {
                continue;
            },
        };
        let current_node = &tree.nodes[current_index];
        assert(current_node@ == tree.node_of(current_node_id));
        let matched = query.matches_at(tree, lca, current_node_id, current_node);
        let ghost before = traversal_order@;
        traversal_order.push(current_node_id);
        let step = TraversalStep {
            step: traversal_order.len(),
            node_id: current_node_id,
            tag: String::from_str(current_node.tag()),
            depth: current_node.depth(),
            matched,
        };
        log.push(step);
        proof {
            assert(log_ok(log@, traversal_order@, tree, pred)) by {
                assert forall|i: int| 0 <= i < log@.len() implies {
                    let s = #[trigger] log@[i];
                    &&& s.step == i + 1
                    &&& s.node_id == traversal_order@[i]
                    &&& s.tag@ == tree.node_of(traversal_order@[i]).tag
                    &&& s.depth == tree.node_of(traversal_order@[i]).depth
                    &&& s.matched == pred(traversal_order@[i])
                } by {
                    if i < before.len() {
                        assert(traversal_order@[i] == before[i]);
                    }
                }
            }
        }
        if matched {
            found_id = Some(current_node_id);
            proof {
                assert(dfs_order(tree, pred, q) == seq![current_node_id]);
                assert(traversal_order@ =~= before + seq![current_node_id]);
            }
            break;
        }
        let children = current_node.children();
        let mut k: usize = children.len();
        assert(stack@ =~= q.drop_last() + children@.subrange(k as int, children@.len() as int).reverse());
        while k > 0
            invariant
                stack@ == q.drop_last() + children@.subrange(k as int, children@.len() as int).reverse(),
                0 <= k <= children@.len(),
            decreases k,
        {
            stack.push(children[k - 1]);
            proof {
                assert(children@.subrange(k - 1, children@.len() as int).reverse() =~= children@.subrange(
                    k as int,
                    children@.len() as int,
                ).reverse().push(children@[k - 1]));
            }
            k -= 1;
        }
        proof {
            assert(children@.subrange(0, children@.len() as int) =~= children@);
            lemma_expand_core(tree, current_node_id, q.drop_last(), stack@);
            assert(dfs_order(tree, pred, q) == seq![current_node_id] + dfs_order(tree, pred, stack@));
            assert(traversal_order@ + dfs_order(tree, pred, stack@) =~= before + (seq![current_node_id]
                + dfs_order(tree, pred, stack@)));
        }
    }
    (traversal_order, log, found_id)
}

/// Depth-first search from the root, children in document order, for the
/// first node that `query` accepts; every visit is logged.
pub fn dfs(tree: &Tree, query: &SearchQuery) -> (r: TraversalResult)
    requires
        tree.wf(),
        tree.children_acyclic(),
        walks_parents(*query) ==> tree.parents_acyclic(),
        forall|id: usize| tree.has_id(id) && accepts(tree, *query)(id) ==> #[trigger] tree.chain_finite(id),
        tree.nodes@.len() <= isize::MAX,
    ensures
        result_ok(r, tree, dfs_order(tree, accepts(tree, *query), seq![tree.root]), accepts(tree, *query)),
{
    let started_at = now();
    let lca_index = tree.build_lca_index();
    proof {
        lemma_build_size(tree, lca_index@);
        let (rank, reach) = chosen(tree);
        assert(tree.ranked(rank, reach));
    }
    let ghost pred = accepts(tree, *query);
    let (traversal_order, log, found_id) = walk(tree, &lca_index, query, tree.root);
    let elapsed_ms = as_millis(&elapsed(&started_at));
    finish(tree, found_id, traversal_order, log, elapsed_ms, Ghost(pred))
}

/// What `dfs` reports on a DOM tree: it finds a node exactly when the
/// query accepts some node of the tree; the visit starts at the root; the
/// node found is accepted and every node visited before it is rejected;
/// the path to the node found runs from the root down to it through
/// parent-child links, one node per level.
pub proof fn lemma_dfs_result(tree: &Tree, query: SearchQuery, r: TraversalResult)
    requires
        tree.is_dom(),
        result_ok(r, tree, dfs_order(tree, accepts(tree, query), seq![tree.root]), accepts(tree, query)),
    ensures
        ({
            let pred = accepts(tree, query);
            let o = r.traversal_order@;
            &&& r.found_id is Some <==> exists|i: int|
                0 <= i < tree.nodes@.len() && pred(#[trigger] tree.nv(i).id)
            &&& o.len() > 0
            &&& o[0] == tree.root
            &&& forall|i: int| 0 <= i < o.len() - 1 ==> !pred(#[trigger] o[i])
            &&& r.found_id matches Some(id) ==> {
                let p = r.path_to_found@;
                &&& pred(id)
                &&& p.len() == tree.node_of(id).depth + 1
                &&& p[0] == tree.root
                &&& p.last() == id
                &&& forall|i: int|
                    0 <= i < p.len() - 1 ==> tree.node_of(#[trigger] p[i + 1]).parent == Some(p[i])
                        && tree.node_of(p[i]).children.contains(p[i + 1])
            }
        }),
{
    let pred = accepts(tree, query);
    let q = seq![tree.root];
    let o = dfs_order(tree, pred, q);
    lemma_dfs_finds_iff(tree, pred);
    lemma_root_queue(tree);
    assert(tree.has_id(tree.root));
    assert(o.len() > 0 && o[0] == tree.root) by {
        if pred(tree.root) {
            assert(o == seq![tree.root]);
        } else {
            assert(o == seq![tree.root] + dfs_order(tree, pred, q.drop_last() + tree.node_of(tree.root).children.reverse()));
        }
    }
    if let Some(id) = r.found_id {
        assert(tree.has_id(o[o.len() - 1]));
        lemma_dom_chain_ends(tree, id);
        let k = (tree.pos(id) + 1) as nat;
        assert(r.path_to_found@ == tree.up_chain(id, k).reverse());
        lemma_dom_path(tree, id, k);
    }
}

/// What `dfs` finds for a tag, attribute, or tag-and-attribute query on a
/// DOM tree: a node is found exactly when the tree has a node with that tag
/// (exactly), with an attribute equal to the key and value, or with both;
/// and the node found has them.
pub proof fn lemma_dfs_plain_query(tree: &Tree, query: SearchQuery, r: TraversalResult)
    requires
        tree.is_dom(),
        result_ok(r, tree, dfs_order(tree, accepts(tree, query), seq![tree.root]), accepts(tree, query)),
    ensures
        match query {
            SearchQuery::Tag(tag) => {
                &&& r.found_id matches Some(id) ==> tree.node_of(id).tag == tag@
                &&& r.found_id is Some <==> exists|i: int| 0 <= i < tree.nodes@.len() && (#[trigger] tree.nv(i)).tag == tag@
            },
            SearchQuery::Attr(key, value) => {
                &&& r.found_id matches Some(id) ==> has_attr(tree.node_of(id), key@, value@)
                &&& r.found_id is Some <==> exists|i: int|
                    0 <= i < tree.nodes@.len() && has_attr(#[trigger] tree.nv(i), key@, value@)
            },
            SearchQuery::TagAndAttr { tag, key, value } => {
                &&& r.found_id matches Some(id) ==> tree.node_of(id).tag == tag@ && has_attr(
                    tree.node_of(id),
                    key@,
                    value@,
                )
                &&& r.found_id is Some <==> exists|i: int|
                    0 <= i < tree.nodes@.len() && (#[trigger] tree.nv(i)).tag == tag@ && has_attr(tree.nv(i), key@, value@)
            },
            SearchQuery::Selector(_) => true,
        },
{
    let pred = accepts(tree, query);
    lemma_dfs_result(tree, query, r);
    assert forall|i: int| 0 <= i < tree.nodes@.len() implies #[trigger] pred(tree.nv(i).id) == query_accepts(
        query,
        tree,
        tree.nv(i).id,
        tree.nv(i),
    ) by {
        assert(tree.node_of(tree.nv(i).id) == tree.nv(i));
    }
    match query {
        SearchQuery::Selector(_) => {},
        _ => {
            if (exists|i: int| 0 <= i < tree.nodes@.len() && pred(#[trigger] tree.nv(i).id)) {
                let i = choose|i: int| 0 <= i < tree.nodes@.len() && pred(#[trigger] tree.nv(i).id);
                assert(pred(tree.nv(i).id));
            }
        },
    }
}

} // verus!
