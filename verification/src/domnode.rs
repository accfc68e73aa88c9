//! A node of the DOM tree: its id, tag, parent, children and attributes.

use vstd::prelude::*;

verus! {

/// The mathematical content of a `DomNode`.
pub struct NodeView {
    pub id: usize,
    pub tag: Seq<char>,
    pub parent: Option<usize>,
    pub children: Seq<usize>,
    pub attrs: Seq<(Seq<char>, Seq<char>)>,
    pub depth: usize,
}

/// The texts of a list of key/value pairs.
pub open spec fn attrs_view(a: Seq<(String, String)>) -> Seq<(Seq<char>, Seq<char>)> {
    a.map_values(|p: (String, String)| (p.0@, p.1@))
}

#[derive(Debug)]
pub struct DomNode {
    id: usize,
    tag: String,
    parent: Option<usize>,
    children: Vec<usize>,
    attrs: Vec<(String, String)>,
    depth: usize,
}

impl View for DomNode {
    type V = NodeView;

    closed spec fn view(&self) -> NodeView {
        NodeView {
            id: self.id,
            tag: self.tag@,
            parent: self.parent,
            children: self.children@,
            attrs: attrs_view(self.attrs@),
            depth: self.depth,
        }
    }
}

impl DomNode {
    /// A node without children.
    pub fn new(
        id: usize,
        tag: String,
        parent: Option<usize>,
        attrs: Vec<(String, String)>,
        depth: usize,
    ) -> (n: Self)
        ensures
            n@ == (NodeView {
                id,
                tag: tag@,
                parent,
                children: Seq::empty(),
                attrs: attrs_view(attrs@),
                depth,
            }),
    {
        DomNode { id, tag, parent, children: Vec::new(), attrs, depth }
    }

    pub fn id(&self) -> (r: usize)
        ensures
            r == self@.id,
    {
        self.id
    }

    pub fn tag(&self) -> (r: &str)
        ensures
            r@ == self@.tag,
    {
        self.tag.as_str()
    }

    pub fn parent(&self) -> (r: Option<usize>)
        ensures
            r == self@.parent,
    {
        self.parent
    }

    pub fn children(&self) -> (r: &Vec<usize>)
        ensures
            r@ == self@.children,
    {
        &self.children
    }

    pub fn attrs(&self) -> (r: &Vec<(String, String)>)
        ensures
            attrs_view(r@) == self@.attrs,
    {
        &self.attrs
    }

    pub fn depth(&self) -> (r: usize)
        ensures
            r == self@.depth,
    {
        self.depth
    }

    /// Appends `child_id` to the children; nothing else changes.
    pub fn add_child(&mut self, child_id: usize)
        ensures
            final(self)@ == (NodeView { children: old(self)@.children.push(child_id), ..old(self)@ }),
    {
        self.children.push(child_id);
    }
}

/// Some attribute is exactly `(key, value)`.
pub open spec fn has_attr(n: NodeView, key: Seq<char>, value: Seq<char>) -> bool {
    exists|i: int| 0 <= i < n.attrs.len() && #[trigger] n.attrs[i] == (key, value)
}

impl DomNode {
    /// Whether some attribute is exactly `(key, value)`.
    pub(crate) fn has_attr_pair(&self, key: &str, value: &str) -> (r: bool)
        ensures
            r == has_attr(self@, key@, value@),
    {
        let ghost av = self@.attrs;
        let mut i: usize = 0;
        while i < self.attrs.len()
            invariant
                0 <= i <= self.attrs@.len(),
                av == self@.attrs,
                av == attrs_view(self.attrs@),
                forall|j: int| 0 <= j < i ==> #[trigger] av[j] != (key@, value@),
            decreases self.attrs@.len() - i,
        {
            assert(av[i as int] == (self.attrs@[i as int].0@, self.attrs@[i as int].1@));
            if crate::text::str_eq(self.attrs[i].0.as_str(), key) && crate::text::str_eq(
                self.attrs[i].1.as_str(),
                value,
            ) {
                assert(av[i as int] == (key@, value@));
                return true;
            }
            i += 1;
        }
        false
    }
}

impl Clone for DomNode {
    fn clone(&self) -> (r: Self)
        ensures
            r@ == self@,
    {
        let mut attrs: Vec<(String, String)> = Vec::new();
        let mut i: usize = 0;
        while i < self.attrs.len()
            invariant
                0 <= i <= self.attrs@.len(),
                attrs@.len() == i,
                forall|k: int|
                    0 <= k < i ==> (#[trigger] attrs@[k]).0@ == self.attrs@[k].0@ && attrs@[k].1@
                        == self.attrs@[k].1@,
            decreases self.attrs@.len() - i,
        {
            let pair = &self.attrs[i];
            let k = pair.0.clone();
            let v = pair.1.clone();
            assert(k@ == self.attrs@[i as int].0@ && v@ == self.attrs@[i as int].1@);
            attrs.push((k, v));
            i += 1;
        }
        assert(attrs_view(attrs@) =~= attrs_view(self.attrs@));
        DomNode {
            id: self.id,
            tag: self.tag.clone(),
            parent: self.parent,
            children: self.children.clone(),
            attrs,
            depth: self.depth,
        }
    }
}

} // verus!
