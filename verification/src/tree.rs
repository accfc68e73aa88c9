//! The DOM tree: nodes stored in a vector, with a map from node id to
//! position, and the parent/children structure that the parser builds.

use vstd::prelude::*;
use std::collections::HashMap;
use crate::domnode::{DomNode, NodeView, attrs_view};
pub use crate::lca::LcaBinaryLifting;
use crate::lca::{spec_build, indexes};

verus! {

broadcast use vstd::std_specs::hash::group_hash_axioms;

#[derive(Debug, Clone)]
pub struct Tree {
    pub nodes: Vec<DomNode>,
    pub root: usize,
    pub id_to_index: HashMap<usize, usize>,
}

impl Tree {
    /// The node at position `i`.
    pub open spec fn nv(&self, i: int) -> NodeView {
        self.nodes@[i]@
    }

    pub open spec fn index_map(&self) -> Map<usize, usize> {
        self.id_to_index@
    }

    pub open spec fn has_id(&self, id: usize) -> bool {
        self.id_to_index@.contains_key(id)
    }

    /// Position of the node with id `id`.
    pub open spec fn pos(&self, id: usize) -> int {
        self.id_to_index@[id] as int
    }

    /// The node with id `id`.
    pub open spec fn node_of(&self, id: usize) -> NodeView {
        self.nv(self.pos(id))
    }

    /// The id map and the node vector agree: each id maps to the one
    /// position that holds a node with that id.
    pub open spec fn wf(&self) -> bool {
        &&& forall|id: usize| #[trigger]
            self.has_id(id) ==> 0 <= self.pos(id) < self.nodes@.len() && self.node_of(id).id == id
        &&& forall|i: int|
            0 <= i < self.nodes@.len() ==> self.has_id(#[trigger] self.nv(i).id) && self.pos(
                self.nv(i).id,
            ) == i
    }

    /// The shape that `add_root` and `add_child` build: the root is the first
    /// node and has no parent; every other node's parent comes before it,
    /// lists it among its children, and is one level shallower; every child
    /// listed points back to its parent.
    pub open spec fn is_dom(&self) -> bool {
        &&& self.wf()
        &&& self.nodes@.len() > 0
        &&& self.has_id(self.root)
        &&& self.pos(self.root) == 0
        &&& self.nv(0).parent is None
        &&& self.nv(0).depth == 0
        &&& forall|i: int|
            0 < i < self.nodes@.len() ==> {
                let p = (#[trigger] self.nv(i)).parent;
                &&& p is Some
                &&& self.has_id(p->0)
                &&& self.pos(p->0) < i
                &&& self.node_of(p->0).children.contains(self.nv(i).id)
                &&& self.nv(i).depth == self.node_of(p->0).depth + 1
            }
        &&& forall|i: int, k: int|
            0 <= i < self.nodes@.len() && 0 <= k < self.nv(i).children.len() ==> {
                let c = #[trigger] self.nv(i).children[k];
                &&& self.has_id(c)
                &&& self.node_of(c).parent == Some(self.nv(i).id)
            }
    }

    /// The ids met walking up the parent links from `id`, at most `k` of
    /// them; the walk stops after an id with no node or a node without parent.
    pub open spec fn up_chain(&self, id: usize, k: nat) -> Seq<usize>
        decreases k,
    {
        if k == 0 {
            Seq::empty()
        } else if !self.has_id(id) {
            seq![id]
        } else {
            match self.node_of(id).parent {
                None => seq![id],
                Some(p) => seq![id] + self.up_chain(p, (k - 1) as nat),
            }
        }
    }

    /// The walk up from `id` stops within `k` ids.
    pub open spec fn chain_ends(&self, id: usize, k: nat) -> bool
        decreases k,
    {
        if k == 0 {
            false
        } else if !self.has_id(id) {
            true
        } else {
            match self.node_of(id).parent {
                None => true,
                Some(p) => self.chain_ends(p, (k - 1) as nat),
            }
        }
    }

    /// Walking up the parent links from `id` stops.
    pub open spec fn chain_finite(&self, id: usize) -> bool {
        exists|k: nat| self.chain_ends(id, k)
    }

    /// Walking up the parent links stops from every id.
    pub open spec fn parents_acyclic(&self) -> bool {
        forall|id: usize| #[trigger] self.chain_finite(id)
    }

    /// `reach` holds the root and is closed under the children lists, and
    /// `rank` decreases from each node of `reach` to each of its children.
    pub open spec fn ranked(&self, rank: spec_fn(usize) -> nat, reach: Set<usize>) -> bool {
        &&& reach.contains(self.root)
        &&& forall|id: usize, k: int|
            reach.contains(id) && self.has_id(id) && 0 <= k < self.node_of(id).children.len() ==> {
                let c = #[trigger] self.node_of(id).children[k];
                &&& reach.contains(c)
                &&& self.has_id(c) ==> rank(c) < rank(id)
            }
    }

    /// No cycle of children links can be reached from the root.
    pub open spec fn children_acyclic(&self) -> bool {
        exists|rank: spec_fn(usize) -> nat, reach: Set<usize>| self.ranked(rank, reach)
    }

    /// The largest depth among the nodes, 0 for an empty tree.
    pub open spec fn max_depth_of(&self) -> usize
        decreases self.nodes@.len(),
    {
        max_depth_in(self.nodes@.map_values(|n: DomNode| n@.depth), self.nodes@.len() as int)
    }
}

/// The largest of the first `k` values, 0 if `k == 0`.
pub open spec fn max_depth_in(d: Seq<usize>, k: int) -> usize
    decreases k,
{
    if k <= 0 {
        0
    } else {
        let m = max_depth_in(d, k - 1);
        if d[k - 1] > m {
            d[k - 1]
        } else {
            m
        }
    }
}

pub proof fn lemma_max_depth_in(d: Seq<usize>, k: int)
    requires
        0 <= k <= d.len(),
    ensures
        forall|i: int| 0 <= i < k ==> d[i] <= max_depth_in(d, k),
        k == 0 ==> max_depth_in(d, k) == 0,
        k > 0 ==> exists|i: int| 0 <= i < k && d[i] == max_depth_in(d, k),
    decreases k,
{
    if k > 0 {
        lemma_max_depth_in(d, k - 1);
        let m = max_depth_in(d, k - 1);
        if d[k - 1] > m {
            assert(d[k - 1] == max_depth_in(d, k));
        } else if k - 1 > 0 {
            let i0 = choose|i: int| 0 <= i < k - 1 && d[i] == max_depth_in(d, k - 1);
            assert(d[i0] == max_depth_in(d, k));
        } else {
            assert(max_depth_in(d, k) == 0 && d[0] <= 0);
            assert(d[0] == max_depth_in(d, k));
        }
    }
}

/// The values of `v` in reverse order.
pub fn reversed(v: &Vec<usize>) -> (r: Vec<usize>)
    ensures
        r@ == v@.reverse(),
{
    let mut r: Vec<usize> = Vec::new();
    let mut i = v.len();
    while i > 0
        invariant
            0 <= i <= v@.len(),
            r@ == v@.subrange(i as int, v@.len() as int).reverse(),
        decreases i,
    {
        i -= 1;
        r.push(v[i]);
        assert(r@ =~= v@.subrange(i as int, v@.len() as int).reverse());
    }
    assert(v@.subrange(0, v@.len() as int) == v@);
    r
}

/// Extending the bound of a walk that stops changes neither the walk nor
/// the fact that it stops.
pub proof fn lemma_chain_extend(t: &Tree, id: usize, k: nat, k2: nat)
    requires
        t.chain_ends(id, k),
        k <= k2,
    ensures
        t.chain_ends(id, k2),
        t.up_chain(id, k) == t.up_chain(id, k2),
    decreases k,
{
    if t.has_id(id) {
        match t.node_of(id).parent {
            None => {},
            Some(p) => {
                lemma_chain_extend(t, p, (k - 1) as nat, (k2 - 1) as nat);
            },
        }
    }
}


/// In a DOM tree a node's depth is at most its position.
pub proof fn lemma_dom_depth(t: &Tree, i: int)
    requires
        t.is_dom(),
        0 <= i < t.nodes@.len(),
    ensures
        t.nv(i).depth <= i,
    decreases i,
{
    if i > 0 {
        let p = t.nv(i).parent->0;
        lemma_dom_depth(t, t.pos(p));
    }
}

/// Adding a child under an existing node of a DOM tree, with a fresh id,
/// gives a DOM tree.
pub proof fn lemma_add_child_dom(old: &Tree, new: &Tree, id: usize, parent_id: usize)
    requires
        old.is_dom(),
        !old.has_id(id),
        old.has_id(parent_id),
        new.wf(),
        new.root == old.root,
        new.nodes@.len() == old.nodes@.len() + 1,
        new.index_map() == old.index_map().insert(id, old.nodes@.len() as usize),
        ({
            let n = old.nodes@.len() as int;
            let pi = old.pos(parent_id);
            &&& new.nv(n).id == id
            &&& new.nv(n).parent == Some(parent_id)
            &&& new.nv(n).children.len() == 0
            &&& new.nv(n).depth == old.nv(pi).depth + 1
            &&& new.nv(pi) == (NodeView { children: old.nv(pi).children.push(id), ..old.nv(pi) })
            &&& forall|i: int| 0 <= i < n && i != pi ==> #[trigger] new.nv(i) == old.nv(i)
        }),
    ensures
        new.is_dom(),
{
    let n = old.nodes@.len() as int;
    let pi = old.pos(parent_id);
    assert(old.nv(pi).id == parent_id);
    assert forall|i: int| 0 <= i < n implies #[trigger] new.nv(i).parent == old.nv(i).parent
        && new.nv(i).depth == old.nv(i).depth && new.nv(i).id == old.nv(i).id by {
        if i != pi {
            assert(new.nv(i) == old.nv(i));
        }
    }
    assert(new.pos(new.root) == 0) by {
        assert(old.nv(0).id == old.root);
    }
    assert forall|i: int| 0 < i < new.nodes@.len() implies {
        let p = (#[trigger] new.nv(i)).parent;
        &&& p is Some
        &&& new.has_id(p->0)
        &&& new.pos(p->0) < i
        &&& new.node_of(p->0).children.contains(new.nv(i).id)
        &&& new.nv(i).depth == new.node_of(p->0).depth + 1
    } by {
        if i < n {
            let p = old.nv(i).parent->0;
            assert(old.node_of(p).children.contains(old.nv(i).id));
            assert(p != id);
            let pp = old.pos(p);
            if pp == pi {
                let k = old.nv(pi).children.index_of(old.nv(i).id);
                assert(new.nv(pi).children[k] == old.nv(i).id);
            } else {
                assert(new.nv(pp) == old.nv(pp));
            }
        } else {
            assert(new.nv(pi).children[new.nv(pi).children.len() - 1] == id);
        }
    }
    assert forall|i: int, k: int|
        0 <= i < new.nodes@.len() && 0 <= k < new.nv(i).children.len() implies {
        let c = #[trigger] new.nv(i).children[k];
        &&& new.has_id(c)
        &&& new.node_of(c).parent == Some(new.nv(i).id)
    } by {
        if i == n {
        } else if i == pi && k == old.nv(pi).children.len() {
            assert(new.nv(i).children[k] == id);
        } else {
            assert(new.nv(i).children[k] == old.nv(i).children[k]) by {
                if i != pi {
                    assert(new.nv(i) == old.nv(i));
                }
            }
            let c = old.nv(i).children[k];
            assert(old.has_id(c));
            assert(c != id);
            let ci = old.pos(c);
            assert(new.pos(c) == ci);
        }
    }
}

/// In a DOM tree every walk up the parent links stops.
pub proof fn lemma_dom_chain_ends(t: &Tree, id: usize)
    requires
        t.is_dom(),
    ensures
        t.has_id(id) ==> t.chain_ends(id, (t.pos(id) + 1) as nat),
        !t.has_id(id) ==> t.chain_ends(id, 1),
        t.chain_finite(id),
    decreases (if t.has_id(id) { t.pos(id) } else { 0 }),
{
    if t.has_id(id) {
        let i = t.pos(id);
        assert(t.nv(i).id == id);
        if i > 0 {
            let p = t.nv(i).parent->0;
            lemma_dom_chain_ends(t, p);
            lemma_chain_extend(t, p, (t.pos(p) + 1) as nat, i as nat);
        }
        assert(t.chain_ends(id, (t.pos(id) + 1) as nat));
    } else {
        assert(t.chain_ends(id, 1));
    }
}

/// In a DOM tree every walk up the parent links stops.
pub proof fn lemma_dom_parents_acyclic(t: &Tree)
    requires
        t.is_dom(),
    ensures
        t.parents_acyclic(),
{
    assert forall|id: usize| #[trigger] t.chain_finite(id) by {
        lemma_dom_chain_ends(t, id);
    }
}

/// In a DOM tree no cycle of children links can be reached from the root:
/// children come after their parent in the node vector.
pub proof fn lemma_dom_children_acyclic(t: &Tree)
    requires
        t.is_dom(),
    ensures
        t.children_acyclic(),
{
    let n = t.nodes@.len();
    let rank = |id: usize| (n - t.pos(id)) as nat;
    let reach = Set::<usize>::full();
    assert forall|id: usize, k: int|
        reach.contains(id) && t.has_id(id) && 0 <= k < t.node_of(id).children.len() implies {
        let c = #[trigger] t.node_of(id).children[k];
        &&& reach.contains(c)
        &&& t.has_id(c) ==> rank(c) < rank(id)
    } by {
        let i = t.pos(id);
        let c = t.nv(i).children[k];
        let ci = t.pos(c);
        assert(t.node_of(c).parent == Some(t.nv(i).id));
        if ci == 0 {
            assert(t.nv(0).parent is None);
        } else {
            assert(t.nv(ci).id == c);
        }
    }
    assert(t.ranked(rank, reach));
}

impl Tree {
    /// No children list names an id twice.
    pub open spec fn children_distinct(&self) -> bool {
        forall|i: int, j: int, k: int|
            0 <= i < self.nodes@.len() && 0 <= j < k < self.nv(i).children.len() ==> #[trigger] self.nv(i).children[j]
                != #[trigger] self.nv(i).children[k]
    }
}

/// In a well-formed tree the id map has exactly the nodes' ids as keys, one
/// entry per node.
pub proof fn lemma_wf_map_size(t: &Tree)
    requires
        t.wf(),
    ensures
        t.index_map().dom() == t.nodes@.map_values(|n: DomNode| n@.id).to_set(),
        t.index_map().len() == t.nodes@.len(),
{
    let ids = t.nodes@.map_values(|n: DomNode| n@.id);
    assert forall|i: int, j: int| 0 <= i < ids.len() && 0 <= j < ids.len() && i != j implies ids[i] != ids[j] by {
        assert(t.pos(t.nv(i).id) == i);
        assert(t.pos(t.nv(j).id) == j);
    }
    assert(ids.no_duplicates());
    ids.unique_seq_to_set();
    assert forall|x: usize| t.index_map().dom().contains(x) <==> ids.to_set().contains(x) by {
        if t.has_id(x) {
            assert(ids[t.pos(x)] == x);
        }
        if ids.to_set().contains(x) {
            let i = choose|i: int| 0 <= i < ids.len() && ids[i] == x;
            assert(t.has_id(t.nv(i).id));
        }
    }
    assert(t.index_map().dom() =~= ids.to_set());
}

/// Adding a child with a fresh id under a node of a DOM tree keeps every
/// children list free of repeats.
pub proof fn lemma_add_child_distinct(old: &Tree, new: &Tree, id: usize, parent_id: usize)
    requires
        old.is_dom(),
        old.children_distinct(),
        !old.has_id(id),
        old.has_id(parent_id),
        new.nodes@.len() == old.nodes@.len() + 1,
        ({
            let n = old.nodes@.len() as int;
            let pi = old.pos(parent_id);
            &&& new.nv(n).children.len() == 0
            &&& new.nv(pi) == (NodeView { children: old.nv(pi).children.push(id), ..old.nv(pi) })
            &&& forall|i: int| 0 <= i < n && i != pi ==> #[trigger] new.nv(i) == old.nv(i)
        }),
    ensures
        new.children_distinct(),
{
    let pi = old.pos(parent_id);
    assert forall|i: int, j: int, k: int|
        0 <= i < new.nodes@.len() && 0 <= j < k < new.nv(i).children.len() implies #[trigger] new.nv(i).children[j]
        != #[trigger] new.nv(i).children[k] by {
        if i == pi {
            let oc = old.nv(pi).children;
            if k == oc.len() {
                assert(new.nv(i).children[k] == id);
                assert(new.nv(i).children[j] == oc[j]);
                assert(old.has_id(oc[j]));
            } else {
                assert(new.nv(i).children[j] == oc[j]);
                assert(new.nv(i).children[k] == oc[k]);
            }
        } else if i < old.nodes@.len() {
            assert(new.nv(i) == old.nv(i));
        }
    }
}

/// In a DOM tree whose children lists have no repeats, every node but the
/// root is listed exactly once among its parent's children, and the id map
/// has one entry per node.
pub proof fn lemma_dom_listed_once(t: &Tree, i: int)
    requires
        t.is_dom(),
        t.children_distinct(),
        0 < i < t.nodes@.len(),
    ensures
        t.index_map().len() == t.nodes@.len(),
        ({
            let p = t.nv(i).parent->0;
            let cs = t.node_of(p).children;
            exists|k: int|
                0 <= k < cs.len() && cs[k] == t.nv(i).id && forall|k2: int| 0 <= k2 < cs.len() && #[trigger] cs[k2] == t.nv(i).id ==> k2 == k
        }),
{
    lemma_wf_map_size(t);
    let p = t.nv(i).parent->0;
    let pp = t.pos(p);
    assert(t.nv(pp).id == p);
    let cs = t.node_of(p).children;
    let k = cs.index_of(t.nv(i).id);
    assert forall|k2: int| 0 <= k2 < cs.len() && #[trigger] cs[k2] == t.nv(i).id implies k2 == k by {
        if k2 < k {
            assert(t.nv(pp).children[k2] != t.nv(pp).children[k]);
        } else if k < k2 {
            assert(t.nv(pp).children[k] != t.nv(pp).children[k2]);
        }
    }
}

impl Tree {
    /// The links agree: the id map matches the nodes, each node with a parent
    /// has that parent in the tree, is listed among its children and lies
    /// one level below it; each listed child is a node whose parent is the
    /// lister; no children list repeats an id.
    pub open spec fn linked(&self) -> bool {
        &&& self.wf()
        &&& self.children_distinct()
        &&& forall|i: int|
            0 <= i < self.nodes@.len() && (#[trigger] self.nv(i)).parent is Some ==> {
                let p = self.nv(i).parent->0;
                &&& self.has_id(p)
                &&& self.node_of(p).children.contains(self.nv(i).id)
                &&& self.nv(i).depth == self.node_of(p).depth + 1
            }
        &&& forall|i: int, k: int|
            0 <= i < self.nodes@.len() && 0 <= k < self.nv(i).children.len() ==> {
                let c = #[trigger] self.nv(i).children[k];
                &&& self.has_id(c)
                &&& self.node_of(c).parent == Some(self.nv(i).id)
            }
    }
}

/// Adding a child with a fresh id under a node of the tree keeps the links
/// in agreement.
pub proof fn lemma_add_child_linked(old: &Tree, new: &Tree, id: usize, parent_id: usize)
    requires
        old.linked(),
        !old.has_id(id),
        old.has_id(parent_id),
        new.wf(),
        new.nodes@.len() == old.nodes@.len() + 1,
        new.index_map() == old.index_map().insert(id, old.nodes@.len() as usize),
        ({
            let n = old.nodes@.len() as int;
            let pi = old.pos(parent_id);
            &&& new.nv(n).id == id
            &&& new.nv(n).parent == Some(parent_id)
            &&& new.nv(n).children.len() == 0
            &&& new.nv(n).depth == old.nv(pi).depth + 1
            &&& new.nv(pi) == (NodeView { children: old.nv(pi).children.push(id), ..old.nv(pi) })
            &&& forall|i: int| 0 <= i < n && i != pi ==> #[trigger] new.nv(i) == old.nv(i)
        }),
    ensures
        new.linked(),
{
    let n = old.nodes@.len() as int;
    let pi = old.pos(parent_id);
    assert(old.nv(pi).id == parent_id);
    assert forall|i: int| 0 <= i < n implies #[trigger] new.nv(i).parent == old.nv(i).parent
        && new.nv(i).depth == old.nv(i).depth && new.nv(i).id == old.nv(i).id by {
        if i != pi {
            assert(new.nv(i) == old.nv(i));
        }
    }
    assert forall|i: int|
        0 <= i < new.nodes@.len() && (#[trigger] new.nv(i)).parent is Some implies {
        let p = new.nv(i).parent->0;
        &&& new.has_id(p)
        &&& new.node_of(p).children.contains(new.nv(i).id)
        &&& new.nv(i).depth == new.node_of(p).depth + 1
    } by {
        if i < n {
            let p = old.nv(i).parent->0;
            assert(old.node_of(p).children.contains(old.nv(i).id));
            assert(p != id);
            let pp = old.pos(p);
            assert(new.pos(p) == pp);
            if pp == pi {
                let k = old.nv(pi).children.index_of(old.nv(i).id);
                assert(new.nv(pi).children[k] == old.nv(i).id);
            } else {
                assert(new.nv(pp) == old.nv(pp));
            }
        } else {
            assert(new.pos(parent_id) == pi);
            assert(new.nv(pi).children[new.nv(pi).children.len() - 1] == id);
        }
    }
    assert forall|i: int, k: int|
        0 <= i < new.nodes@.len() && 0 <= k < new.nv(i).children.len() implies {
        let c = #[trigger] new.nv(i).children[k];
        &&& new.has_id(c)
        &&& new.node_of(c).parent == Some(new.nv(i).id)
    } by {
        if i == n {
        } else if i == pi && k == old.nv(pi).children.len() {
            assert(new.nv(i).children[k] == id);
        } else {
            assert(new.nv(i).children[k] == old.nv(i).children[k]) by {
                if i != pi {
                    assert(new.nv(i) == old.nv(i));
                }
            }
            let c = old.nv(i).children[k];
            assert(old.has_id(c));
            assert(c != id);
            let ci = old.pos(c);
            assert(new.pos(c) == ci);
        }
    }
    assert forall|i: int, j: int, k: int|
        0 <= i < new.nodes@.len() && 0 <= j < k < new.nv(i).children.len() implies #[trigger] new.nv(i).children[j]
        != #[trigger] new.nv(i).children[k] by {
        if i == pi {
            let oc = old.nv(pi).children;
            if k == oc.len() {
                assert(new.nv(i).children[k] == id);
                assert(new.nv(i).children[j] == oc[j]);
                assert(old.has_id(oc[j]));
            } else {
                assert(new.nv(i).children[j] == oc[j]);
                assert(new.nv(i).children[k] == oc[k]);
            }
        } else if i < n {
            assert(new.nv(i) == old.nv(i));
        }
    }
}

/// Adding a root node without parent or children under a fresh id keeps the
/// links in agreement.
pub proof fn lemma_add_root_linked(old: &Tree, new: &Tree)
    requires
        old.linked(),
        !old.has_id(0),
        new.wf(),
        new.nodes@.len() == old.nodes@.len() + 1,
        new.nodes@.take(old.nodes@.len() as int) == old.nodes@,
        new.nv(old.nodes@.len() as int).parent is None,
        new.nv(old.nodes@.len() as int).children.len() == 0,
        new.index_map() == old.index_map().insert(0, old.nodes@.len() as usize),
    ensures
        new.linked(),
{
    let n = old.nodes@.len() as int;
    assert forall|i: int| 0 <= i < n implies #[trigger] new.nv(i) == old.nv(i) by {
        assert(new.nodes@.take(n)[i] == new.nodes@[i]);
    }
    assert forall|i: int|
        0 <= i < new.nodes@.len() && (#[trigger] new.nv(i)).parent is Some implies {
        let p = new.nv(i).parent->0;
        &&& new.has_id(p)
        &&& new.node_of(p).children.contains(new.nv(i).id)
        &&& new.nv(i).depth == new.node_of(p).depth + 1
    } by {
        let p = old.nv(i).parent->0;
        assert(new.nv(i) == old.nv(i));
        assert(p != 0);
        assert(new.pos(p) == old.pos(p));
        assert(new.nv(old.pos(p)) == old.nv(old.pos(p)));
    }
    assert forall|i: int, k: int|
        0 <= i < new.nodes@.len() && 0 <= k < new.nv(i).children.len() implies {
        let c = #[trigger] new.nv(i).children[k];
        &&& new.has_id(c)
        &&& new.node_of(c).parent == Some(new.nv(i).id)
    } by {
        assert(new.nv(i) == old.nv(i));
        let c = old.nv(i).children[k];
        assert(old.has_id(c));
        assert(c != 0);
        assert(new.pos(c) == old.pos(c));
        assert(new.nv(old.pos(c)) == old.nv(old.pos(c)));
    }
    assert forall|i: int, j: int, k: int|
        0 <= i < new.nodes@.len() && 0 <= j < k < new.nv(i).children.len() implies #[trigger] new.nv(i).children[j]
        != #[trigger] new.nv(i).children[k] by {
        if i < n {
            assert(new.nv(i) == old.nv(i));
        }
    }
}

/// In a tree whose links agree, the id map has one entry per node, and a
/// node with a parent is listed exactly once among that parent's children.
pub proof fn lemma_linked_listed_once(t: &Tree, i: int)
    requires
        t.linked(),
        0 <= i < t.nodes@.len(),
        t.nv(i).parent is Some,
    ensures
        t.index_map().len() == t.nodes@.len(),
        ({
            let p = t.nv(i).parent->0;
            let cs = t.node_of(p).children;
            exists|k: int|
                0 <= k < cs.len() && cs[k] == t.nv(i).id && forall|k2: int| 0 <= k2 < cs.len() && #[trigger] cs[k2] == t.nv(i).id ==> k2 == k
        }),
{
    lemma_wf_map_size(t);
    let p = t.nv(i).parent->0;
    let pp = t.pos(p);
    assert(t.nv(pp).id == p);
    let cs = t.node_of(p).children;
    let k = cs.index_of(t.nv(i).id);
    assert forall|k2: int| 0 <= k2 < cs.len() && #[trigger] cs[k2] == t.nv(i).id implies k2 == k by {
        if k2 < k {
            assert(t.nv(pp).children[k2] != t.nv(pp).children[k]);
        } else if k < k2 {
            assert(t.nv(pp).children[k] != t.nv(pp).children[k2]);
        }
    }
}

/// Reading back what `insert_node` wrote: a node inserted under a fresh id
/// is found under that id at the end of the node vector, and the other ids
/// keep their positions.
pub proof fn lemma_insert_find(old: &Tree, new: &Tree, node: DomNode)
    requires
        !old.has_id(node@.id),
        new.nodes@ == old.nodes@.push(node),
        new.index_map() == old.index_map().insert(node@.id, old.nodes@.len() as usize),
        new.nodes@.len() <= usize::MAX,
    ensures
        new.has_id(node@.id),
        new.pos(node@.id) == old.nodes@.len(),
        new.node_of(node@.id) == node@,
        forall|id: usize| id != node@.id ==> (new.has_id(id) == old.has_id(id) && (old.has_id(id) ==> new.pos(id) == old.pos(id))),
{
    assert(new.nv(old.nodes@.len() as int) == node@);
}

/// In a DOM tree the walk up from a node of the tree ends at the root
/// after one node per level, each node's parent following it.
pub proof fn lemma_dom_up_chain(t: &Tree, id: usize, k: nat)
    requires
        t.is_dom(),
        t.has_id(id),
        t.chain_ends(id, k),
    ensures
        ({
            let c = t.up_chain(id, k);
            &&& c.len() == t.node_of(id).depth + 1
            &&& c[0] == id
            &&& c.last() == t.root
            &&& forall|i: int| 0 <= i < c.len() ==> t.has_id(#[trigger] c[i])
            &&& forall|i: int| 0 <= i < c.len() - 1 ==> t.node_of(#[trigger] c[i]).parent == Some(c[i + 1])
        }),
    decreases k,
{
    let i = t.pos(id);
    assert(t.nv(i).id == id);
    let c = t.up_chain(id, k);
    match t.node_of(id).parent {
        None => {
            if i != 0 {
                assert(t.nv(i).parent is Some);
            }
            assert(t.nv(0).id == t.root) by {
                assert(t.nv(t.pos(t.root)).id == t.root);
            }
            assert(c == seq![id]);
        },
        Some(p) => {
            if i == 0 {
                assert(t.nv(0).parent is None);
            }
            assert(t.has_id(p));
            lemma_dom_up_chain(t, p, (k - 1) as nat);
            let cp = t.up_chain(p, (k - 1) as nat);
            assert(c == seq![id] + cp);
            assert forall|j: int| 0 <= j < c.len() implies t.has_id(#[trigger] c[j]) by {
                if j > 0 {
                    assert(c[j] == cp[j - 1]);
                }
            }
            assert forall|j: int| 0 <= j < c.len() - 1 implies t.node_of(#[trigger] c[j]).parent == Some(
                c[j + 1],
            ) by {
                if j > 0 {
                    assert(c[j] == cp[j - 1]);
                    assert(c[j + 1] == cp[j]);
                }
            }
        },
    }
}

/// On a DOM tree the path from the root to a node of the tree, the walk up
/// from it reversed, starts at the root, ends at the node, has one node per
/// level, and goes from each node to one of its children.
pub proof fn lemma_dom_path(t: &Tree, id: usize, k: nat)
    requires
        t.is_dom(),
        t.has_id(id),
        t.chain_ends(id, k),
    ensures
        ({
            let p = t.up_chain(id, k).reverse();
            &&& p.len() == t.node_of(id).depth + 1
            &&& p[0] == t.root
            &&& p.last() == id
            &&& forall|i: int| 0 <= i < p.len() ==> t.has_id(#[trigger] p[i])
            &&& forall|i: int|
                0 <= i < p.len() - 1 ==> t.node_of(#[trigger] p[i + 1]).parent == Some(p[i])
                    && t.node_of(p[i]).children.contains(p[i + 1])
        }),
{
    lemma_dom_up_chain(t, id, k);
    let c = t.up_chain(id, k);
    let p = c.reverse();
    let n = c.len();
    assert forall|i: int| 0 <= i < p.len() implies t.has_id(#[trigger] p[i]) by {
        assert(p[i] == c[n - 1 - i]);
    }
    assert forall|i: int|
        0 <= i < p.len() - 1 implies t.node_of(#[trigger] p[i + 1]).parent == Some(p[i])
        && t.node_of(p[i]).children.contains(p[i + 1]) by {
        let j = n - 2 - i;
        assert(p[i + 1] == c[j]);
        assert(p[i] == c[j + 1]);
        let x = c[j];
        let xi = t.pos(x);
        assert(t.nv(xi).id == x);
        if xi == 0 {
            assert(t.nv(0).parent is None);
        }
        assert(t.nv(xi).parent == Some(c[j + 1]));
    }
}

impl Tree {
    /// An empty tree.
    pub fn new() -> (t: Self)
        ensures
            t.nodes@.len() == 0,
            t.root == 0,
            t.index_map() == Map::<usize, usize>::empty(),
            t.wf(),
            t.linked(),
    {
        Self { nodes: Vec::new(), root: 0, id_to_index: HashMap::new() }
    }

    /// Position of the node with id `id`, if any.
    pub fn find_index_from_id(&self, id: usize) -> (r: Option<usize>)
        ensures
            r == (if self.has_id(id) {
                Some(self.id_to_index@[id])
            } else {
                None
            }),
    {
        match self.id_to_index.get(&id) {
            Some(i) => Some(*i),
            None => None,
        }
    }

    /// Appends `node` unless a node with its id is already present.
    pub fn insert_node(&mut self, node: DomNode)
        ensures
            final(self).root == old(self).root,
            old(self).has_id(node@.id) ==> final(self).nodes@ == old(self).nodes@
                && final(self).index_map() == old(self).index_map(),
            !old(self).has_id(node@.id) ==> final(self).nodes@ == old(self).nodes@.push(node)
                && final(self).index_map() == old(self).index_map().insert(
                node@.id,
                old(self).nodes@.len() as usize,
            ),
            old(self).wf() ==> final(self).wf(),
    {
        let id = node.id();
        if self.id_to_index.contains_key(&id) {
            return;
        }
        let index = self.nodes.len();
        self.nodes.push(node);
        self.id_to_index.insert(id, index);
        proof {
            if old(self).wf() {
                assert forall|i: int| 0 <= i < self.nodes@.len() implies self.has_id(
                    #[trigger] self.nv(i).id,
                ) && self.pos(self.nv(i).id) == i by {
                    if i < index {
                        assert(self.nv(i) == old(self).nv(i));
                    }
                }
                assert forall|x: usize| #[trigger] self.has_id(x) implies 0 <= self.pos(x)
                    < self.nodes@.len() && self.node_of(x).id == x by {
                    if x != id {
                        assert(old(self).has_id(x));
                        assert(self.nv(old(self).pos(x)) == old(self).nv(old(self).pos(x)));
                    }
                }
            }
        }
    }

    /// Adds the root node (id 0, no parent, depth 0) unless id 0 is taken.
    pub fn add_root(&mut self, tag: String, attrs: Vec<(String, String)>)
        ensures
            old(self).has_id(0) ==> *final(self) == *old(self),
            !old(self).has_id(0) ==> {
                &&& final(self).root == 0
                &&& final(self).nodes@.len() == old(self).nodes@.len() + 1
                &&& final(self).nodes@.take(old(self).nodes@.len() as int) == old(self).nodes@
                &&& final(self).nv(old(self).nodes@.len() as int) == (NodeView {
                    id: 0,
                    tag: tag@,
                    parent: None,
                    children: Seq::empty(),
                    attrs: attrs_view(attrs@),
                    depth: 0,
                })
                &&& final(self).index_map() == old(self).index_map().insert(
                    0,
                    old(self).nodes@.len() as usize,
                )
            },
            old(self).wf() ==> final(self).wf(),
            old(self).linked() ==> final(self).linked(),
    {
        if self.id_to_index.contains_key(&0) {
            return;
        }
        self.insert_node(DomNode::new(0, tag, None, attrs, 0));
        let ghost mid = *self;
        self.root = 0;
        proof {
            if old(self).wf() {
                assert(mid.wf());
                assert forall|x: usize| #[trigger] self.has_id(x) implies 0 <= self.pos(x)
                    < self.nodes@.len() && self.node_of(x).id == x by {
                    assert(mid.has_id(x));
                }
                assert forall|i: int| 0 <= i < self.nodes@.len() implies self.has_id(
                    #[trigger] self.nv(i).id,
                ) && self.pos(self.nv(i).id) == i by {
                    assert(mid.nv(i) == self.nv(i));
                }
            }
        }
        assert(self.nodes@.take(old(self).nodes@.len() as int) == old(self).nodes@);
        proof {
            if old(self).linked() {
                let n = old(self).nodes@.len() as int;
                assert(self.nodes@[n] == mid.nodes@[n]);
                lemma_add_root_linked(&*old(self), &*self);
            }
        }
    }

    /// Adds a node with id `id` under the node with id `parent_id`, one level
    /// deeper, and lists it last among the parent's children; does nothing if
    /// `id` is taken or `parent_id` is missing.
    pub fn add_child(
        &mut self,
        id: usize,
        tag: String,
        parent_id: usize,
        attrs: Vec<(String, String)>,
    )
        requires
            old(self).wf(),
            !old(self).has_id(id) && old(self).has_id(parent_id) ==> old(self).node_of(
                parent_id,
            ).depth < usize::MAX,
        ensures
            final(self).wf(),
            old(self).has_id(id) || !old(self).has_id(parent_id) ==> *final(self) == *old(self),
            !old(self).has_id(id) && old(self).has_id(parent_id) ==> {
                let n = old(self).nodes@.len() as int;
                let pi = old(self).pos(parent_id);
                &&& final(self).root == old(self).root
                &&& final(self).nodes@.len() == n + 1
                &&& final(self).index_map() == old(self).index_map().insert(id, n as usize)
                &&& final(self).nv(n) == (NodeView {
                    id,
                    tag: tag@,
                    parent: Some(parent_id),
                    children: Seq::empty(),
                    attrs: attrs_view(attrs@),
                    depth: (old(self).nv(pi).depth + 1) as usize,
                })
                &&& final(self).nv(pi) == (NodeView {
                    children: old(self).nv(pi).children.push(id),
                    ..old(self).nv(pi)
                })
                &&& forall|i: int| 0 <= i < n && i != pi ==> #[trigger] final(self).nv(i) == old(self).nv(i)
            },
            old(self).is_dom() && old(self).children_distinct() ==> final(self).is_dom()
                && final(self).children_distinct(),
            old(self).linked() ==> final(self).linked(),
    {
        let ghost before = *self;
        if self.id_to_index.contains_key(&id) {
            return;
        }
        let parent_idx = match self.find_index_from_id(parent_id) {
            Some(idx) => idx,
            None => return,
        };
        let parent_depth = self.nodes[parent_idx].depth();
        self.insert_node(DomNode::new(id, tag, Some(parent_id), attrs, parent_depth + 1));
        let ghost mid = *self;
        self.nodes[parent_idx].add_child(id);
        proof {
            assert forall|i: int| 0 <= i < self.nodes@.len() && i != parent_idx implies #[trigger] self.nv(i) == mid.nv(i) by {}
            assert(self.nv(parent_idx as int).id == mid.nv(parent_idx as int).id);
            assert forall|i: int| 0 <= i < self.nodes@.len() implies self.has_id(
                #[trigger] self.nv(i).id,
            ) && self.pos(self.nv(i).id) == i by {
                assert(self.nv(i).id == mid.nv(i).id);
            }
            assert forall|x: usize| #[trigger] self.has_id(x) implies 0 <= self.pos(x) < self.nodes@.len() && self.node_of(x).id == x by {
                assert(mid.has_id(x));
                assert(self.node_of(x).id == mid.node_of(x).id);
            }
            if before.is_dom() && before.children_distinct() {
                let n = before.nodes@.len() as int;
                let pi = before.pos(parent_id);
                assert(self.nv(n) == (NodeView {
                    id,
                    tag: tag@,
                    parent: Some(parent_id),
                    children: Seq::empty(),
                    attrs: attrs_view(attrs@),
                    depth: (before.nv(pi).depth + 1) as usize,
                }));
                assert forall|i: int| 0 <= i < n && i != pi implies #[trigger] self.nv(i) == before.nv(i) by {}
                lemma_add_child_dom(&before, self, id, parent_id);
                lemma_add_child_distinct(&before, self, id, parent_id);
            }
            if before.linked() {
                let n = before.nodes@.len() as int;
                let pi = before.pos(parent_id);
                assert(self.nv(n).parent == Some(parent_id));
                assert(self.nv(n).depth == before.nv(pi).depth + 1);
                assert forall|i: int| 0 <= i < n && i != pi implies #[trigger] self.nv(i) == before.nv(i) by {}
                lemma_add_child_linked(&before, self, id, parent_id);
            }
        }
    }

    /// The largest node depth, 0 when the tree is empty.
    pub fn max_depth(&self) -> (r: usize)
        ensures
            r == self.max_depth_of(),
            forall|i: int| 0 <= i < self.nodes@.len() ==> self.nv(i).depth <= r,
            self.nodes@.len() == 0 ==> r == 0,
            self.nodes@.len() > 0 ==> exists|i: int| 0 <= i < self.nodes@.len() && self.nv(i).depth == r,
    {
        let ghost d = self.nodes@.map_values(|n: DomNode| n@.depth);
        let mut best: usize = 0;
        let mut i: usize = 0;
        while i < self.nodes.len()
            invariant
                0 <= i <= self.nodes@.len(),
                d == self.nodes@.map_values(|n: DomNode| n@.depth),
                best == max_depth_in(d, i as int),
            decreases self.nodes@.len() - i,
        {
            let dep = self.nodes[i].depth();
            if dep > best {
                best = dep;
            }
            i += 1;
        }
        proof {
            lemma_max_depth_in(d, i as int);
            assert forall|k: int| 0 <= k < self.nodes@.len() implies self.nv(k).depth <= best by {
                assert(d[k] == self.nv(k).depth);
            }
            if i > 0 {
                let k = choose|k: int| 0 <= k < i && d[k] == max_depth_in(d, i as int);
                assert(self.nv(k).depth == best);
            }
        }
        best
    }

    /// The lowest-common-ancestor index of this tree; on a DOM tree it
    /// indexes the tree.
    pub fn build_lca_index(&self) -> (r: LcaBinaryLifting)
        requires
            self.wf(),
            self.nodes@.len() <= isize::MAX,
        ensures
            r@ == spec_build(self),
            self.is_dom() ==> indexes(r@, self),
    {
        LcaBinaryLifting::build(self)
    }

    /// The ids from the root down to `target_id`: the walk up the parent
    /// links from `target_id`, reversed.
    pub fn chain_to_root(&self, target_id: usize) -> (r: Vec<usize>)
        requires
            self.wf(),
            self.chain_finite(target_id),
        ensures
            forall|k: nat| self.chain_ends(target_id, k) ==> r@ == self.up_chain(target_id, k).reverse(),
    {
        let ghost k0 = choose|k: nat| self.chain_ends(target_id, k);
        let mut path: Vec<usize> = Vec::new();
        let mut current = Some(target_id);
        let ghost mut fuel: nat = k0;
        while current.is_some()
            invariant
                self.wf(),
                current matches Some(c) ==> self.chain_ends(c, fuel) && path@ + self.up_chain(c, fuel) == self.up_chain(target_id, k0),
                current is None ==> path@ == self.up_chain(target_id, k0),
            decreases fuel,
        {
            let node_id = current.unwrap();
            let ghost before = path@;
            path.push(node_id);
            match self.find_index_from_id(node_id) {
                None => {
                    proof {
                        assert(self.up_chain(node_id, fuel) == seq![node_id]);
                        assert(path@ =~= before + self.up_chain(node_id, fuel));
                        fuel = 0;
                    }
                    current = None;
                },
                Some(index) => {
                    current = self.nodes[index].parent();
                    proof {
                        assert(self.node_of(node_id) == self.nv(index as int));
                        match current {
                            None => {
                                assert(self.up_chain(node_id, fuel) == seq![node_id]);
                                assert(path@ =~= before + self.up_chain(node_id, fuel));
                                fuel = 0;
                            },
                            Some(p) => {
                                assert(self.up_chain(node_id, fuel) == seq![node_id]
                                    + self.up_chain(p, (fuel - 1) as nat));
                                assert(path@ + self.up_chain(p, (fuel - 1) as nat) =~= before
                                    + self.up_chain(node_id, fuel));
                                fuel = (fuel - 1) as nat;
                            },
                        }
                    }
                },
            }
        }
        let path = reversed(&path);
        proof {
            assert forall|k: nat| self.chain_ends(target_id, k) implies path@ == self.up_chain(target_id, k).reverse() by {
                if k <= k0 {
                    lemma_chain_extend(self, target_id, k, k0);
                } else {
                    lemma_chain_extend(self, target_id, k0, k);
                }
            }
        }
        path
    }
}

} // verus!
