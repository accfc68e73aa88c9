//! The decisions of the traversal service: where the HTML comes from, which
//! search a request asks for, what is reported of the matching nodes, and
//! the address settings.

use vstd::prelude::*;
use crate::domnode::{DomNode, NodeView};
use crate::tree::{Tree, lemma_dom_children_acyclic, lemma_dom_parents_acyclic};
use crate::text::{trim, upper, chars_of, trim_range, trim_str, to_ascii_uppercase, str_eq};
use crate::selector::{
    SelectorQuery, PartView, spec_parse_selector, message, query_holds, node_ids, first_attr_from, find_attr,
    find_matching_nodes,
};
use crate::parser::{parse_html_to_tree, spec_parse_html, tree_nodes};
use crate::search::{bfs_order, dfs_order};
use crate::lca::spec_build;
use crate::bfs;
use crate::dfs;

verus! {

/// The two searches a request can ask for.
#[derive(Debug, Clone, Copy, PartialEq, Eq, Structural)]
pub enum Method {
    Bfs,
    Dfs,
}

/// The search named by a method text: trimmed and upper-cased, `BFS` or
/// `DFS`.
pub open spec fn spec_method(m: Seq<char>) -> Option<Method> {
    let u = upper(trim(m));
    if u == "BFS"@ {
        Some(Method::Bfs)
    } else if u == "DFS"@ {
        Some(Method::Dfs)
    } else {
        None
    }
}

/// Reads the method of a request.
pub fn parse_method(method: &str) -> (r: Option<Method>)
    ensures
        r == spec_method(method@),
{
    let t = trim_str(method);
    let u = to_ascii_uppercase(t.as_str());
    if str_eq(u.as_str(), "BFS") {
        Some(Method::Bfs)
    } else if str_eq(u.as_str(), "DFS") {
        Some(Method::Dfs)
    } else {
        None
    }
}

/// Whether a text is empty once trimmed.
pub fn is_blank(s: &str) -> (r: bool)
    ensures
        r == (trim(s@).len() == 0),
{
    let v = chars_of(s);
    let (a, b) = trim_range(&v, 0, v.len());
    a == b
}

/// What a response says of a matching node: its id, tag and class text.
#[derive(Debug)]
pub struct MatchedNode {
    pub id: usize,
    pub tag: String,
    pub class: String,
}

/// The value of the node's first `class` attribute (name compared up to
/// ASCII case), empty if it has none.
pub open spec fn class_of(n: NodeView) -> Seq<char> {
    match first_attr_from(n.attrs, "class"@, 0) {
        Some(i) => n.attrs[i].1,
        None => Seq::empty(),
    }
}

/// The report on the node `node` with id `id`.
pub fn to_matched_node(id: usize, node: &DomNode) -> (r: MatchedNode)
    ensures
        r.id == id,
        r.tag@ == node@.tag,
        r.class@ == class_of(node@),
{
    let attrs = node.attrs();
    let class = match find_attr(attrs, "class") {
        Some(i) => attrs[i].1.clone(),
        None => String::new(),
    };
    MatchedNode { id, tag: String::from_str(node.tag()), class }
}

/// Milliseconds as microseconds, capped at `u64::MAX`.
pub fn execution_time_us(elapsed_ms: u128) -> (r: u64)
    ensures
        r as int == if elapsed_ms * 1000 > u64::MAX {
            u64::MAX as int
        } else {
            elapsed_ms * 1000
        },
{
    if elapsed_ms > 18446744073709551u128 {
        u64::MAX
    } else {
        (elapsed_ms * 1000) as u64
    }
}

/// Where the HTML of a request comes from.
#[derive(Debug)]
pub enum HtmlSource {
    Fetch(String),
    Inline(String),
}

/// Picks the HTML source of a request: the URL, trimmed, when one is given
/// and not blank; otherwise the HTML text when it is not blank; a request
/// with neither is refused.
pub fn choose_source(source_url: Option<&str>, html_content: Option<&str>) -> (r: Result<HtmlSource, String>)
    ensures
        match source_url {
            Some(u) if trim(u@).len() > 0 => r matches Ok(HtmlSource::Fetch(x)) && x@ == trim(u@),
            _ => match html_content {
                Some(h) if trim(h@).len() > 0 => r matches Ok(HtmlSource::Inline(x)) && x@ == h@,
                _ => r matches Err(m) && m@ == "source_url or html_content is required"@,
            },
        },
{
    if let Some(u) = source_url {
        if !is_blank(u) {
            return Ok(HtmlSource::Fetch(trim_str(u)));
        }
    }
    if let Some(h) = html_content {
        if !is_blank(h) {
            return Ok(HtmlSource::Inline(String::from_str(h)));
        }
    }
    Err(String::from_str("source_url or html_content is required"))
}

/// Accepts the body fetched from a URL unless it is blank.
pub fn accept_body(body: String) -> (r: Result<String, String>)
    ensures
        trim(body@).len() == 0 ==> (r matches Err(m) && m@ == "Konten HTML dari URL kosong"@),
        trim(body@).len() > 0 ==> (r matches Ok(b) && b@ == body@),
{
    if is_blank(body.as_str()) {
        Err(String::from_str("Konten HTML dari URL kosong"))
    } else {
        Ok(body)
    }
}

/// A decimal digit.
pub open spec fn is_digit(c: char) -> bool {
    '0' <= c && c <= '9'
}

/// The value of a run of decimal digits.
pub open spec fn digits_value(d: Seq<char>) -> int
    decreases d.len(),
{
    if d.len() == 0 {
        0
    } else {
        digits_value(d.drop_last()) * 10 + (d.last() as int - '0' as int)
    }
}

/// Every character is a decimal digit.
pub open spec fn all_digits(d: Seq<char>) -> bool {
    forall|i: int| 0 <= i < d.len() ==> is_digit(#[trigger] d[i])
}

/// The text without one leading `+`, if it has one.
pub open spec fn unsigned_part(s: Seq<char>) -> Seq<char> {
    if s.len() > 0 && s[0] == '+' {
        s.drop_first()
    } else {
        s
    }
}

/// `u16::from_str`: an optional `+`, then one or more decimal digits whose
/// value fits in a `u16`.
pub open spec fn spec_parse_u16(s: Seq<char>) -> Option<u16> {
    let d = unsigned_part(s);
    if d.len() > 0 && all_digits(d) && digits_value(d) <= u16::MAX {
        Some(digits_value(d) as u16)
    } else {
        None
    }
}

/// Reads a `u16` written in decimal.
pub fn parse_u16(s: &str) -> (r: Option<u16>)
    ensures
        r == spec_parse_u16(s@),
{
    let v = chars_of(s);
    let n = v.len();
    let start: usize = if n > 0 && v[0] == '+' {
        1
    } else {
        0
    };
    let ghost d = unsigned_part(s@);
    assert(d =~= v@.subrange(start as int, n as int));
    if start == n {
        return None;
    }
    let mut acc: u32 = 0;
    let mut i = start;
    while i < n
        invariant
            v@ == s@,
            n == v@.len(),
            start <= i <= n,
            d == v@.subrange(start as int, n as int),
            d == unsigned_part(s@),
            forall|k: int| start <= k < i ==> is_digit(#[trigger] v@[k]),
            acc as int == if digits_value(v@.subrange(start as int, i as int)) > 65536 {
                65536
            } else {
                digits_value(v@.subrange(start as int, i as int))
            },
        decreases n - i,
    {
        let c = v[i];
        if !('0' <= c && c <= '9') {
            assert(!is_digit(d[i - start]));
            assert(!all_digits(d));
            return None;
        }
        let ghost before = v@.subrange(start as int, i as int);
        let digit = (c as u32) - 48;
        let next = acc * 10 + digit;
        acc = if next > 65536 {
            65536
        } else {
            next
        };
        i += 1;
        proof {
            let now = v@.subrange(start as int, i as int);
            assert(now.drop_last() =~= before);
            assert(now.last() == c);
            assert(digits_value(before) >= 0) by {
                lemma_digits_nonneg(before);
            }
        }
    }
    assert(v@.subrange(start as int, n as int) == d);
    assert(all_digits(d)) by {
        assert forall|k: int| 0 <= k < d.len() implies is_digit(#[trigger] d[k]) by {
            assert(d[k] == v@[start + k]);
        }
    }
    if acc > 65535 {
        None
    } else {
        Some(acc as u16)
    }
}

proof fn lemma_digits_nonneg(d: Seq<char>)
    requires
        all_digits(d),
    ensures
        digits_value(d) >= 0,
    decreases d.len(),
{
    if d.len() > 0 {
        assert(is_digit(d[d.len() - 1]));
        lemma_digits_nonneg(d.drop_last());
    }
}

/// The port to listen on: the setting, trimmed, when it reads as a `u16`;
/// 3000 otherwise.
pub fn port_from(value: Option<&str>) -> (r: u16)
    ensures
        r == match value {
            Some(v) => match spec_parse_u16(trim(v@)) {
                Some(p) => p,
                None => 3000,
            },
            None => 3000,
        },
{
    match value {
        Some(v) => {
            let t = trim_str(v);
            match parse_u16(t.as_str()) {
                Some(p) => p,
                None => 3000,
            }
        },
        None => 3000,
    }
}

/// The host to listen on: the setting, trimmed, unless blank; `0.0.0.0`
/// otherwise.
pub fn host_from(value: Option<&str>) -> (r: String)
    ensures
        match value {
            Some(v) => if trim(v@).len() > 0 {
                r@ == trim(v@)
            } else {
                r@ == "0.0.0.0"@
            },
            None => r@ == "0.0.0.0"@,
        },
{
    match value {
        Some(v) => {
            if is_blank(v) {
                String::from_str("0.0.0.0")
            } else {
                trim_str(v)
            }
        },
        None => String::from_str("0.0.0.0"),
    }
}

/// What a traversal request yields: the visiting order of the search, its
/// time, the report on every node that matches the selector, and the tree.
pub struct TraverseOutcome {
    pub traversal_order: Vec<usize>,
    pub elapsed_ms: u128,
    pub matched_nodes: Vec<MatchedNode>,
    pub tree: Tree,
}

/// The nodes of `t` that the selector `parts` matches, by id.
pub open spec fn selector_holds(t: Tree, parts: Seq<PartView>) -> spec_fn(usize) -> bool {
    |id: usize| query_holds(&t, parts, id)
}

/// The reports, in order, on the nodes with ids `ids`.
pub open spec fn reports_ok(t: Tree, ids: Seq<usize>, reports: Seq<MatchedNode>) -> bool {
    &&& reports.len() == ids.len()
    &&& forall|i: int|
        0 <= i < ids.len() ==> {
            let m = #[trigger] reports[i];
            &&& m.id == ids[i]
            &&& m.tag@ == t.node_of(ids[i]).tag
            &&& m.class@ == class_of(t.node_of(ids[i]))
        }
}

/// Serves a traversal request on HTML text: refuses a blank selector, then
/// a selector that does not parse (with its message), then a method other
/// than BFS or DFS; otherwise reads the HTML into a tree, searches it from
/// the root for the first node the selector matches, and reports every node
/// it matches.
pub fn traverse_html(html: &str, css_selector: &str, method: &str) -> (r: Result<TraverseOutcome, String>)
    requires
        html@.len() < isize::MAX,
    ensures
        trim(css_selector@).len() == 0 ==> (r matches Err(m) && m@ == "css_selector cannot be empty"@),
        trim(css_selector@).len() > 0 ==> match spec_parse_selector(trim(css_selector@)) {
            Err(e) => r matches Err(m) && m@ == message(e),
            Ok(parts) => match spec_method(method@) {
                None => r matches Err(m) && m@ == "method must be either BFS or DFS"@,
                Some(meth) => r matches Ok(o) && {
                    let t = o.tree;
                    let pred = selector_holds(t, parts);
                    &&& tree_nodes(&t) == spec_parse_html(html@).nodes
                    &&& t.is_dom()
                    &&& o.traversal_order@ == match meth {
                        Method::Bfs => bfs_order(&t, pred, seq![t.root]),
                        Method::Dfs => dfs_order(&t, pred, seq![t.root]),
                    }
                    &&& reports_ok(t, node_ids(&t).filter(pred), o.matched_nodes@)
                },
            },
        },
{
    if is_blank(css_selector) {
        return Err(String::from_str("css_selector cannot be empty"));
    }
    let tree = match parse_html_to_tree(html) {
        Ok(t) => t,
        Err(e) => return Err(e),
    };
    let selector_text = trim_str(css_selector);
    let query = match SelectorQuery::parse(selector_text.as_str()) {
        Ok(q) => q,
        Err(m) => return Err(m),
    };
    let meth = match parse_method(method) {
        Some(m) => m,
        None => return Err(String::from_str("method must be either BFS or DFS")),
    };
    proof {
        lemma_dom_children_acyclic(&tree);
        lemma_dom_parents_acyclic(&tree);
    }
    let ghost parts = query@;
    let ghost pred = selector_holds(tree, parts);
    let ids = find_matching_nodes(&tree, &query);
    assert(ids@ == node_ids(&tree).filter(pred)) by {
        assert((|id: usize| query_holds(&tree, query@, id)) =~= pred);
    }
    let mut matched_nodes: Vec<MatchedNode> = Vec::new();
    let mut i: usize = 0;
    while i < ids.len()
        invariant
            tree.wf(),
            0 <= i <= ids@.len(),
            ids@ == node_ids(&tree).filter(pred),
            reports_ok(tree, ids@.take(i as int), matched_nodes@),
        decreases ids@.len() - i,
    {
        let id = ids[i];
        proof {
            assert(node_ids(&tree).filter(pred).contains(id)) by {
                assert(ids@[i as int] == id);
            }
            node_ids(&tree).lemma_filter_contains_rev(pred, id);
            let j = choose|j: int| 0 <= j < node_ids(&tree).len() && node_ids(&tree)[j] == id;
            assert(tree.nv(j).id == id);
        }
        let index = tree.find_index_from_id(id).unwrap();
        let report = to_matched_node(id, &tree.nodes[index]);
        let ghost before = matched_nodes@;
        matched_nodes.push(report);
        i += 1;
        proof {
            assert(ids@.take(i as int).drop_last() =~= ids@.take(i - 1));
            assert forall|k: int| 0 <= k < i implies {
                let m = #[trigger] matched_nodes@[k];
                &&& m.id == ids@.take(i as int)[k]
                &&& m.tag@ == tree.node_of(ids@.take(i as int)[k]).tag
                &&& m.class@ == class_of(tree.node_of(ids@.take(i as int)[k]))
            } by {
                if k < i - 1 {
                    assert(matched_nodes@[k] == before[k]);
                    assert(ids@.take(i as int)[k] == ids@.take(i - 1)[k]);
                }
            }
        }
    }
    assert(ids@.take(ids@.len() as int) =~= ids@);
    let (traversal_order, elapsed_ms) = match meth {
        Method::Bfs => {
            let sq = bfs::SearchQuery::Selector(query);
            assert(bfs::accepts(&tree, sq) =~= pred);
            let res = bfs::bfs(&tree, &sq);
            (res.traversal_order, res.metrics.elapsed_ms)
        },
        Method::Dfs => {
            let sq = dfs::SearchQuery::Selector(query);
            assert(dfs::accepts(&tree, sq) =~= pred);
            let res = dfs::dfs(&tree, &sq);
            (res.traversal_order, res.metrics.elapsed_ms)
        },
    };
    Ok(TraverseOutcome { traversal_order, elapsed_ms, matched_nodes, tree })
}

} // verus!
