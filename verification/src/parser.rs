//! A tolerant HTML reader: turns markup into a DOM tree under a synthetic
//! `document` root, skipping comments and declarations, closing elements by
//! name, and keeping void and self-closing elements childless.

use vstd::prelude::*;
use crate::domnode::{NodeView, attrs_view};
use crate::tree::{Tree, lemma_add_child_dom, lemma_dom_depth, lemma_wf_map_size};
use crate::text::{
    is_ws, trim, trim_lo, trim_hi, lower, lower_char, eq_ignore_case, lemma_trim_lo_bounds, lemma_trim_hi_bounds,
    chars_of, string_of, lower_string_of, is_whitespace, trim_range, find_from, lemma_find_from,
    word_end, lemma_word_end, eq_ignore_ascii_case, to_ascii_lowercase,
};

verus! {

// ---------------------------------------------------------------------
// Opening tags

/// End of the run of characters from `i` that are neither whitespace nor `=`.
pub open spec fn key_end(s: Seq<char>, i: int) -> int
    decreases s.len() - i,
{
    if 0 <= i < s.len() && !is_ws(s[i]) && s[i] != '=' {
        key_end(s, i + 1)
    } else {
        i
    }
}

pub proof fn lemma_key_end(s: Seq<char>, i: int)
    requires
        0 <= i <= s.len(),
    ensures
        i <= key_end(s, i) <= s.len(),
        i < s.len() && !is_ws(s[i]) && s[i] != '=' ==> i < key_end(s, i),
    decreases s.len() - i,
{
    if 0 <= i < s.len() && !is_ws(s[i]) && s[i] != '=' {
        lemma_key_end(s, i + 1);
    }
}

/// The attributes written from position `i` of an opening tag: `key`,
/// `key=value`, `key="value"` or `key='value'`, keys lower-cased; a stray
/// `=` is skipped.
pub open spec fn attrs_from(s: Seq<char>, i: int) -> Seq<(Seq<char>, Seq<char>)>
    decreases s.len() - i,
{
    if i < 0 || i > s.len() {
        Seq::empty()
    } else {
        let a = trim_lo(s, i, s.len() as int);
        proof {
            lemma_trim_lo_bounds(s, i, s.len() as int);
        }
        if a >= s.len() {
            Seq::empty()
        } else {
            let ke = key_end(s, a);
            proof {
                lemma_key_end(s, a);
            }
            if ke == a {
                attrs_from(s, a + 1)
            } else {
                let key = lower(s.subrange(a, ke));
                let b = trim_lo(s, ke, s.len() as int);
                proof {
                    lemma_trim_lo_bounds(s, ke, s.len() as int);
                }
                if b < s.len() && s[b] == '=' {
                    let c = trim_lo(s, b + 1, s.len() as int);
                    proof {
                        lemma_trim_lo_bounds(s, b + 1, s.len() as int);
                    }
                    if c < s.len() && (s[c] == '"' || s[c] == '\'') {
                        match find_from(s, s[c], c + 1) {
                            Some(qe) => {
                                proof {
                                    lemma_find_from(s, s[c], c + 1);
                                }
                                seq![(key, s.subrange(c + 1, qe))] + attrs_from(s, qe + 1)
                            },
                            None => seq![(key, s.subrange(c + 1, s.len() as int))] + attrs_from(
                                s,
                                s.len() as int,
                            ),
                        }
                    } else {
                        let ve = word_end(s, c);
                        proof {
                            lemma_word_end(s, c);
                        }
                        seq![(key, s.subrange(c, ve))] + attrs_from(s, ve)
                    }
                } else {
                    seq![(key, Seq::empty())] + attrs_from(s, b)
                }
            }
        }
    }
}

/// The tag name (lower-cased) and the attributes of an opening tag's text.
pub open spec fn spec_opening_tag(s: Seq<char>) -> (Seq<char>, Seq<(Seq<char>, Seq<char>)>) {
    let i0 = trim_lo(s, 0, s.len() as int);
    let te = word_end(s, i0);
    (lower(s.subrange(i0, te)), attrs_from(s, te))
}

pub open spec fn pairs_view(v: Seq<(String, String)>) -> Seq<(Seq<char>, Seq<char>)> {
    attrs_view(v)
}

/// Reads the tag name and the attributes of an opening tag's text.
fn parse_opening_tag(input: &str) -> (r: (String, Vec<(String, String)>))
    ensures
        r.0@ == spec_opening_tag(input@).0,
        attrs_view(r.1@) == spec_opening_tag(input@).1,
{
    let v = chars_of(input);
    let n = v.len();
    let ghost s = input@;
    let (i0, _b) = trim_range(&v, 0, n);
    proof {
        lemma_trim_lo_bounds(s, 0, n as int);
    }
    let mut te = i0;
    while te < n && !is_whitespace(v[te])
        invariant
            v@ == s,
            n == s.len(),
            i0 <= te <= n,
            word_end(s, te as int) == word_end(s, i0 as int),
        decreases n - te,
    {
        te += 1;
    }
    let tag = lower_string_of(&v, i0, te);
    let mut attrs: Vec<(String, String)> = Vec::new();
    let mut i = te;
    proof {
        assert(attrs_view(attrs@) =~= Seq::<(Seq<char>, Seq<char>)>::empty());
        assert(attrs_from(s, te as int) =~= attrs_view(attrs@) + attrs_from(s, i as int));
    }
    loop
        invariant
            v@ == s,
            s == input@,
            n == s.len(),
            te <= i <= n,
            attrs_from(s, te as int) == attrs_view(attrs@) + attrs_from(s, i as int),
        ensures
            attrs_from(s, te as int) == attrs_view(attrs@),
        decreases n - i,
    {
        let ghost before = attrs_view(attrs@);
        let (a, _b2) = trim_range(&v, i, n);
        proof {
            lemma_trim_lo_bounds(s, i as int, n as int);
        }
        if a >= n {
            proof {
                assert(attrs_from(s, i as int) =~= Seq::<(Seq<char>, Seq<char>)>::empty());
                assert(attrs_view(attrs@) + Seq::<(Seq<char>, Seq<char>)>::empty() =~= attrs_view(attrs@));
            }
            break;
        }
        let mut ke = a;
        while ke < n && !is_whitespace(v[ke]) && v[ke] != '='
            invariant
                v@ == s,
                n == s.len(),
                a <= ke <= n,
                key_end(s, ke as int) == key_end(s, a as int),
            decreases n - ke,
        {
            ke += 1;
        }
        proof {
            lemma_key_end(s, a as int);
        }
        if ke == a {
            i = a + 1;
            continue;
        }
        let key = lower_string_of(&v, a, ke);
        let (b, _b3) = trim_range(&v, ke, n);
        proof {
            lemma_trim_lo_bounds(s, ke as int, n as int);
        }
        let value: String;
        let next: usize;
        if b < n && v[b] == '=' {
            let (c, _b4) = trim_range(&v, b + 1, n);
            proof {
                lemma_trim_lo_bounds(s, b + 1, n as int);
            }
            if c < n && (v[c] == '"' || v[c] == '\'') {
                let quote = v[c];
                let mut qe = c + 1;
                while qe < n && v[qe] != quote
                    invariant
                        v@ == s,
                        n == s.len(),
                        c + 1 <= qe <= n,
                        find_from(s, quote, qe as int) == find_from(s, quote, c + 1),
                    decreases n - qe,
                {
                    qe += 1;
                }
                proof {
                    lemma_find_from(s, quote, c + 1);
                }
                value = string_of(&v, c + 1, qe);
                next = if qe < n {
                    qe + 1
                } else {
                    n
                };
            } else {
                let mut ve = c;
                while ve < n && !is_whitespace(v[ve])
                    invariant
                        v@ == s,
                        n == s.len(),
                        c <= ve <= n,
                        word_end(s, ve as int) == word_end(s, c as int),
                    decreases n - ve,
                {
                    ve += 1;
                }
                value = string_of(&v, c, ve);
                next = ve;
            }
        } else {
            value = String::new();
            next = b;
        }
        let ghost pair = (key@, value@);
        attrs.push((key, value));
        proof {
            assert(attrs_view(attrs@) =~= before.push(pair));
            assert(attrs_from(s, i as int) == seq![pair] + attrs_from(s, next as int));
            assert(before + attrs_from(s, i as int) =~= before.push(pair) + attrs_from(s, next as int));
        }
        i = next;
    }
    (tag, attrs)
}

/// The void elements, which never have children.
pub open spec fn is_void(t: Seq<char>) -> bool {
    ||| eq_ignore_case("area"@, t)
    ||| eq_ignore_case("base"@, t)
    ||| eq_ignore_case("br"@, t)
    ||| eq_ignore_case("col"@, t)
    ||| eq_ignore_case("embed"@, t)
    ||| eq_ignore_case("hr"@, t)
    ||| eq_ignore_case("img"@, t)
    ||| eq_ignore_case("input"@, t)
    ||| eq_ignore_case("link"@, t)
    ||| eq_ignore_case("meta"@, t)
    ||| eq_ignore_case("param"@, t)
    ||| eq_ignore_case("source"@, t)
    ||| eq_ignore_case("track"@, t)
    ||| eq_ignore_case("wbr"@, t)
}

/// Whether `tag` names a void element, up to ASCII case.
fn is_void_tag(tag: &str) -> (r: bool)
    ensures
        r == is_void(tag@),
{
    eq_ignore_ascii_case("area", tag) || eq_ignore_ascii_case("base", tag) || eq_ignore_ascii_case(
        "br",
        tag,
    ) || eq_ignore_ascii_case("col", tag) || eq_ignore_ascii_case("embed", tag)
        || eq_ignore_ascii_case("hr", tag) || eq_ignore_ascii_case("img", tag)
        || eq_ignore_ascii_case("input", tag) || eq_ignore_ascii_case("link", tag)
        || eq_ignore_ascii_case("meta", tag) || eq_ignore_ascii_case("param", tag)
        || eq_ignore_ascii_case("source", tag) || eq_ignore_ascii_case("track", tag)
        || eq_ignore_ascii_case("wbr", tag)
}

// ---------------------------------------------------------------------
// Documents

/// The state of the reader: the nodes so far (a node's id is its
/// position), the ids of the open elements (the root at the bottom), and the
/// position reached in the text.
pub struct ParseState {
    pub nodes: Seq<NodeView>,
    pub stack: Seq<usize>,
    pub cursor: int,
}

/// The synthetic root.
pub open spec fn root_node() -> NodeView {
    NodeView {
        id: 0,
        tag: "document"@,
        parent: None,
        children: Seq::empty(),
        attrs: Seq::empty(),
        depth: 0,
    }
}

/// `pat` occurs in `s` at position `i`.
pub open spec fn starts_at(s: Seq<char>, i: int, pat: Seq<char>) -> bool {
    0 <= i && i + pat.len() <= s.len() && s.subrange(i, i + pat.len()) == pat
}

/// First position at or after `i` where `pat` occurs.
pub open spec fn find_seq(s: Seq<char>, pat: Seq<char>, i: int) -> Option<int>
    decreases s.len() - i,
{
    if i < 0 || i >= s.len() || i + pat.len() > s.len() {
        None
    } else if starts_at(s, i, pat) {
        Some(i)
    } else {
        find_seq(s, pat, i + 1)
    }
}

pub proof fn lemma_find_seq(s: Seq<char>, pat: Seq<char>, i: int)
    requires
        0 <= i,
    ensures
        find_seq(s, pat, i) matches Some(e) ==> i <= e && e + pat.len() <= s.len(),
    decreases s.len() - i,
{
    if !(i < 0 || i >= s.len() || i + pat.len() > s.len()) && !starts_at(s, i, pat) {
        lemma_find_seq(s, pat, i + 1);
    }
}

/// End of the run of non-whitespace characters from `i`, within `..hi`.
pub open spec fn word_end_in(s: Seq<char>, i: int, hi: int) -> int
    decreases hi - i,
{
    if 0 <= i < hi && !is_ws(s[i]) {
        word_end_in(s, i + 1, hi)
    } else {
        i
    }
}

/// Closing an element named `closing`: the open elements are popped down to
/// and including the nearest one of that name (compared lower-cased), but
/// never the root; with no such element all but the root are popped.
pub open spec fn pop_until(nodes: Seq<NodeView>, stack: Seq<usize>, closing: Seq<char>) -> Seq<usize>
    decreases stack.len(),
{
    if stack.len() <= 1 {
        stack
    } else {
        let rest = stack.drop_last();
        if lower(nodes[stack.last() as int].tag) == closing {
            rest
        } else {
            pop_until(nodes, rest, closing)
        }
    }
}

/// A new last node under `parent`, one level deeper, listed last among the
/// parent's children.
pub open spec fn add_node(
    nodes: Seq<NodeView>,
    parent: usize,
    tag: Seq<char>,
    attrs: Seq<(Seq<char>, Seq<char>)>,
) -> Seq<NodeView> {
    let id = nodes.len() as usize;
    let pn = nodes[parent as int];
    nodes.update(parent as int, NodeView { children: pn.children.push(id), ..pn }).push(
        NodeView {
            id,
            tag,
            parent: Some(parent),
            children: Seq::empty(),
            attrs,
            depth: (pn.depth + 1) as usize,
        },
    )
}

/// Handling the markup `s[start..=end]` (from `<` to `>`): blank markup,
/// declarations (`!`) and processing instructions (`?`) are skipped; a
/// closing tag pops open elements; an opening tag adds an element under the
/// innermost open one, and opens it unless it is void or self-closing.
pub open spec fn handle_tag(s: Seq<char>, start: int, end: int, st: ParseState) -> ParseState {
    let rl = trim_lo(s, start + 1, end);
    let rh = trim_hi(s, rl, end);
    let next = ParseState { cursor: end + 1, ..st };
    if rl >= rh {
        next
    } else if s[rl] == '!' || s[rl] == '?' {
        next
    } else if s[rl] == '/' {
        let a = trim_lo(s, rl + 1, rh);
        let closing = lower(s.subrange(a, word_end_in(s, a, rh)));
        if closing.len() == 0 {
            next
        } else {
            ParseState { stack: pop_until(st.nodes, st.stack, closing), ..next }
        }
    } else {
        let self_closing = s[rh - 1] == '/';
        let nl = if self_closing {
            trim_lo(s, rl, rh - 1)
        } else {
            rl
        };
        let nh = if self_closing {
            trim_hi(s, nl, rh - 1)
        } else {
            rh
        };
        let (tag, attrs) = spec_opening_tag(s.subrange(nl, nh));
        if tag.len() == 0 {
            next
        } else {
            let id = st.nodes.len() as usize;
            ParseState {
                nodes: add_node(st.nodes, st.stack.last(), tag, attrs),
                stack: if !self_closing && !is_void(tag) {
                    st.stack.push(id)
                } else {
                    st.stack
                },
                ..next
            }
        }
    }
}

/// `<!--`
pub open spec fn comment_open() -> Seq<char> {
    seq!['<', '!', '-', '-']
}

/// `-->`
pub open spec fn comment_close() -> Seq<char> {
    seq!['-', '-', '>']
}

/// Reading `s` from the state's position to the end: each `<` starts either
/// a comment, skipped up to `-->`, or markup up to the next `>`; reading
/// stops at an unterminated comment or markup.
pub open spec fn parse_run(s: Seq<char>, st: ParseState) -> ParseState
    decreases s.len() - st.cursor,
    when 0 <= st.cursor
{
    match find_from(s, '<', st.cursor) {
        None => st,
        Some(start) => {
            proof {
                lemma_find_from(s, '<', st.cursor);
            }
            if starts_at(s, start, comment_open()) {
                match find_seq(s, comment_close(), start + 4) {
                    Some(e) => {
                        proof {
                            lemma_find_seq(s, comment_close(), start + 4);
                        }
                        parse_run(s, ParseState { cursor: e + 3, ..st })
                    },
                    None => st,
                }
            } else {
                match find_from(s, '>', start) {
                    None => st,
                    Some(end) => {
                        proof {
                            lemma_find_from(s, '>', start);
                        }
                        parse_run(s, handle_tag(s, start, end, st))
                    },
                }
            }
        },
    }
}

/// What `parse_html_to_tree` reads from `s`.
pub open spec fn spec_parse_html(s: Seq<char>) -> ParseState {
    parse_run(s, ParseState { nodes: seq![root_node()], stack: seq![0], cursor: 0 })
}

/// The contents of the nodes of `t`, in order.
pub open spec fn tree_nodes(t: &Tree) -> Seq<NodeView> {
    t.nodes@.map_values(|d: crate::domnode::DomNode| d@)
}

/// Node ids are positions.
pub open spec fn ids_are_positions(t: &Tree) -> bool {
    &&& forall|id: usize| #[trigger] t.has_id(id) <==> (id as int) < t.nodes@.len()
    &&& forall|i: int| 0 <= i < t.nodes@.len() ==> (#[trigger] t.nv(i)).id == i
}

/// The reader's invariant: the tree is a DOM tree whose ids are positions,
/// and the open elements are nodes of it, the root at the bottom.
pub open spec fn reader_inv(t: &Tree, stack: Seq<usize>) -> bool {
    &&& t.is_dom()
    &&& t.children_distinct()
    &&& t.linked()
    &&& t.root == 0
    &&& ids_are_positions(t)
    &&& stack.len() >= 1
    &&& stack[0] == 0
    &&& forall|i: int| 0 <= i < stack.len() ==> (#[trigger] stack[i] as int) < t.nodes@.len()
}

/// Parses HTML text into a tree under a synthetic `document` root.  Never
/// fails: malformed markup is tolerated.
pub fn parse_html_to_tree(html: &str) -> (r: Result<Tree, String>)
    ensures
        r matches Ok(t) && ({
            let st = spec_parse_html(html@);
            &&& tree_nodes(&t) == st.nodes
            &&& t.is_dom()
            &&& t.children_distinct()
            &&& t.linked()
            &&& doc_shape(tree_nodes(&t))
            &&& t.index_map().len() == t.nodes@.len()
            &&& t.root == 0
            &&& ids_are_positions(&t)
            &&& t.nodes@.len() <= html@.len() + 1
        }),
{
    let v = chars_of(html);
    let n = v.len();
    let ghost s = html@;
    let mut tree = Tree::new();
    tree.add_root(String::from_str("document"), Vec::new());
    let mut stack: Vec<usize> = Vec::new();
    stack.push(tree.root);
    let mut next_id: usize = 1;
    let mut cursor: usize = 0;
    proof {
        assert(tree.nv(0) == root_node()) by {
            assert(attrs_view(Seq::<(String, String)>::empty()) =~= Seq::<(Seq<char>, Seq<char>)>::empty());
        }
        assert(tree_nodes(&tree) =~= seq![root_node()]);
        assert(stack@ =~= seq![0usize]);
        assert(tree.pos(tree.root) == 0);
        assert forall|id: usize| #[trigger] tree.has_id(id) <==> (id as int) < tree.nodes@.len() by {}
    }
    loop
        invariant
            v@ == s,
            s == html@,
            n == s.len(),
            0 <= cursor <= n,
            next_id == tree.nodes@.len(),
            next_id <= cursor + 1,
            reader_inv(&tree, stack@),
            spec_parse_html(s) == parse_run(
                s,
                ParseState { nodes: tree_nodes(&tree), stack: stack@, cursor: cursor as int },
            ),
        ensures
            reader_inv(&tree, stack@),
            tree.nodes@.len() <= n + 1,
            spec_parse_html(s) == (ParseState { nodes: tree_nodes(&tree), stack: stack@, cursor: cursor as int }),
        decreases n - cursor,
    {
        let ghost st = ParseState { nodes: tree_nodes(&tree), stack: stack@, cursor: cursor as int };
        let mut start = cursor;
        while start < n && v[start] != '<'
            invariant
                v@ == s,
                n == s.len(),
                cursor <= start <= n,
                find_from(s, '<', start as int) == find_from(s, '<', cursor as int),
            decreases n - start,
        {
            start += 1;
        }
        if start >= n {
            proof {
                assert(parse_run(s, st) == st);
            }
            break;
        }
        assert(find_from(s, '<', cursor as int) == Some(start as int));
        let is_comment = n - start >= 4 && v[start + 1] == '!' && v[start + 2] == '-' && v[start + 3] == '-';
        proof {
            if is_comment {
                assert(s.subrange(start as int, start + 4) =~= comment_open());
            } else if start + 4 <= n {
                if s.subrange(start as int, start + 4) == comment_open() {
                    assert(s.subrange(start as int, start + 4)[1] == '!');
                    assert(s.subrange(start as int, start + 4)[2] == '-');
                    assert(s.subrange(start as int, start + 4)[3] == '-');
                }
            }
            assert(is_comment == starts_at(s, start as int, comment_open()));
        }
        if is_comment {
            let mut j = start + 4;
            while n - j >= 3 && !(v[j] == '-' && v[j + 1] == '-' && v[j + 2] == '>')
                invariant
                    v@ == s,
                    n == s.len(),
                    start + 4 <= j <= n,
                    find_seq(s, comment_close(), j as int) == find_seq(s, comment_close(), start + 4),
                decreases n - j,
            {
                proof {
                    if s.subrange(j as int, j + 3) == comment_close() {
                        assert(s.subrange(j as int, j + 3)[0] == '-');
                        assert(s.subrange(j as int, j + 3)[1] == '-');
                        assert(s.subrange(j as int, j + 3)[2] == '>');
                    }
                }
                j += 1;
            }
            if n - j >= 3 {
                proof {
                    assert(s.subrange(j as int, j + 3) =~= comment_close());
                    assert(find_seq(s, comment_close(), j as int) == Some(j as int));
                }
                cursor = j + 3;
                continue;
            }
            proof {
                assert(find_seq(s, comment_close(), j as int) is None);
                assert(parse_run(s, st) == st);
            }
            break;
        }
        let mut end = start;
        while end < n && v[end] != '>'
            invariant
                v@ == s,
                n == s.len(),
                start <= end <= n,
                find_from(s, '>', end as int) == find_from(s, '>', start as int),
            decreases n - end,
        {
            end += 1;
        }
        if end >= n {
            proof {
                assert(parse_run(s, st) == st);
            }
            break;
        }
        assert(find_from(s, '>', start as int) == Some(end as int));
        assert(v[start as int] == '<');
        assert(end > start);
        proof {
            assert(parse_run(s, st) == parse_run(s, handle_tag(s, start as int, end as int, st)));
        }
        let (rl, rh) = trim_range(&v, start + 1, end);
        if rl >= rh {
            cursor = end + 1;
            continue;
        }
        if v[rl] == '!' || v[rl] == '?' {
            cursor = end + 1;
            continue;
        }
        if v[rl] == '/' {
            let (a, _ah) = trim_range(&v, rl + 1, rh);
            let mut e = a;
            while e < rh && !is_whitespace(v[e])
                invariant
                    v@ == s,
                    n == s.len(),
                    a <= e <= rh <= n,
                    word_end_in(s, e as int, rh as int) == word_end_in(s, a as int, rh as int),
                decreases rh - e,
            {
                e += 1;
            }
            if a < e {
                let closing = lower_string_of(&v, a, e);
                let ghost sb = stack@;
                let ghost nodes = tree_nodes(&tree);
                loop
                    invariant_except_break
                        pop_until(nodes, sb, closing@) == pop_until(nodes, stack@, closing@),
                    invariant
                        reader_inv(&tree, stack@),
                        nodes == tree_nodes(&tree),
                    ensures
                        reader_inv(&tree, stack@),
                        stack@ == pop_until(nodes, sb, closing@),
                    decreases stack@.len(),
                {
                    if stack.len() <= 1 {
                        break;
                    }
                    let current_id = stack[stack.len() - 1];
                    let current_index = match tree.find_index_from_id(current_id) {
                        Some(index) => index,
                        None => {
                            proof {
                                assert(stack@[stack@.len() - 1] == current_id);
                                assert(false);
                            }
                            stack.pop();
                            continue;
                        },
                    };
                    proof {
                        assert(stack@[stack@.len() - 1] == current_id);
                        assert(tree.nv(current_id as int).id == current_id);
                        assert(current_index == current_id);
                        assert(nodes[current_id as int] == tree.nv(current_index as int));
                    }
                    let current_tag = to_ascii_lowercase(tree.nodes[current_index].tag());
                    let ghost before = stack@;
                    stack.pop();
                    proof {
                        assert(stack@ == before.drop_last());
                        assert(stack@[0] == before[0]);
                        assert forall|i: int| 0 <= i < stack@.len() implies (#[trigger] stack@[i] as int) < tree.nodes@.len() by {
                            assert(stack@[i] == before[i]);
                        }
                    }
                    if current_tag == closing {
                        proof {
                            assert(pop_until(nodes, before, closing@) == stack@);
                        }
                        break;
                    }
                }
            }
            cursor = end + 1;
            continue;
        }
        // an opening tag
        let self_closing = v[rh - 1] == '/';
        let (nl, nh) = if self_closing {
            trim_range(&v, rl, rh - 1)
        } else {
            (rl, rh)
        };
        let normalized = string_of(&v, nl, nh);
        let (tag, attrs) = parse_opening_tag(normalized.as_str());
        if tag.as_str().is_empty() {
            cursor = end + 1;
            continue;
        }
        let parent_id = stack[stack.len() - 1];
        let is_void = is_void_tag(tag.as_str());
        let ghost old_tree = tree;
        let ghost tag_v = tag@;
        let ghost attrs_v = attrs_view(attrs@);
        proof {
            assert(tree.nv(parent_id as int).id == parent_id);
            lemma_dom_depth(&tree, parent_id as int);
            assert(!tree.has_id(next_id));
        }
        tree.add_child(next_id, tag, parent_id, attrs);
        proof {
            assert(old_tree.pos(parent_id) == parent_id);
            lemma_add_child_dom(&old_tree, &tree, next_id, parent_id);
            let an = add_node(tree_nodes(&old_tree), parent_id, tag_v, attrs_v);
            assert forall|i: int| 0 <= i < tree.nodes@.len() implies #[trigger] tree_nodes(&tree)[i] == an[i] by {
                if i < old_tree.nodes@.len() && i != parent_id {
                    assert(tree.nv(i) == old_tree.nv(i));
                }
            }
            assert(tree_nodes(&tree) =~= an);
            assert forall|id: usize| #[trigger] tree.has_id(id) <==> (id as int) < tree.nodes@.len() by {
                assert(old_tree.has_id(id) <==> (id as int) < old_tree.nodes@.len());
            }
            assert forall|i: int| 0 <= i < tree.nodes@.len() implies (#[trigger] tree.nv(i)).id == i by {
                if i < old_tree.nodes@.len() && i != parent_id {
                    assert(tree.nv(i) == old_tree.nv(i));
                }
            }
        }
        if !self_closing && !is_void {
            stack.push(next_id);
        }
        next_id += 1;
        cursor = end + 1;
    }
    proof {
        lemma_parse_shape(s);
        lemma_wf_map_size(&tree);
    }
    Ok(tree)
}

// ---------------------------------------------------------------------
// What the reader keeps

/// Lower-casing twice is lower-casing once.
pub proof fn lemma_lower_idem(x: Seq<char>)
    ensures
        lower(lower(x)) == lower(x),
{
    assert forall|i: int| 0 <= i < x.len() implies lower_char(lower_char(#[trigger] x[i])) == lower_char(
        x[i],
    ) by {
        let c = x[i];
        if 'A' <= c && c <= 'Z' {
            let u = c as u32;
            assert(65 <= u <= 90);
            assert((u + 32) as char as u32 == u + 32);
        }
    }
    assert(lower(lower(x)) =~= lower(x));
}

/// Every attribute name read from an opening tag is lower-case.
pub proof fn lemma_attrs_lower(s: Seq<char>, i: int)
    ensures
        forall|j: int|
            0 <= j < attrs_from(s, i).len() ==> lower((#[trigger] attrs_from(s, i)[j]).0) == attrs_from(
                s,
                i,
            )[j].0,
    decreases s.len() - i,
{
    if !(i < 0 || i > s.len()) {
        let a = trim_lo(s, i, s.len() as int);
        lemma_trim_lo_bounds(s, i, s.len() as int);
        if a < s.len() {
            let ke = key_end(s, a);
            lemma_key_end(s, a);
            if ke == a {
                lemma_attrs_lower(s, a + 1);
                assert(attrs_from(s, i) == attrs_from(s, a + 1));
            } else {
                let key = lower(s.subrange(a, ke));
                lemma_lower_idem(s.subrange(a, ke));
                let b = trim_lo(s, ke, s.len() as int);
                lemma_trim_lo_bounds(s, ke, s.len() as int);
                let r = attrs_from(s, i);
                if b < s.len() && s[b] == '=' {
                    let c = trim_lo(s, b + 1, s.len() as int);
                    lemma_trim_lo_bounds(s, b + 1, s.len() as int);
                    if c < s.len() && (s[c] == '"' || s[c] == '\'') {
                        match find_from(s, s[c], c + 1) {
                            Some(qe) => {
                                lemma_find_from(s, s[c], c + 1);
                                lemma_attrs_lower(s, qe + 1);
                                assert(r == seq![(key, s.subrange(c + 1, qe))] + attrs_from(s, qe + 1));
                                assert forall|j: int| 0 < j < r.len() implies r[j] == attrs_from(s, qe + 1)[j - 1] by {}
                            },
                            None => {
                                lemma_attrs_lower(s, s.len() as int);
                                assert(r == seq![(key, s.subrange(c + 1, s.len() as int))] + attrs_from(
                                    s,
                                    s.len() as int,
                                ));
                                assert forall|j: int| 0 < j < r.len() implies r[j] == attrs_from(s, s.len() as int)[j
                                    - 1] by {}
                            },
                        }
                    } else {
                        let ve = word_end(s, c);
                        lemma_word_end(s, c);
                        lemma_attrs_lower(s, ve);
                        assert(r == seq![(key, s.subrange(c, ve))] + attrs_from(s, ve));
                        assert forall|j: int| 0 < j < r.len() implies r[j] == attrs_from(s, ve)[j - 1] by {}
                    }
                } else {
                    lemma_attrs_lower(s, b);
                    assert(r == seq![(key, Seq::<char>::empty())] + attrs_from(s, b));
                    assert forall|j: int| 0 < j < r.len() implies r[j] == attrs_from(s, b)[j - 1] by {}
                }
            }
        }
    }
}

/// Texts of different lengths are not equal up to case.
proof fn lemma_len_ne(a: Seq<char>, b: Seq<char>)
    requires
        a.len() != b.len(),
    ensures
        !eq_ignore_case(a, b),
{
    assert(lower(a).len() == a.len());
    assert(lower(b).len() == b.len());
}

/// The document node is not a void element.
proof fn lemma_document_not_void()
    ensures
        !is_void("document"@),
{
    let d = "document"@;
    reveal_strlit("document");
    reveal_strlit("area");
    reveal_strlit("base");
    reveal_strlit("br");
    reveal_strlit("col");
    reveal_strlit("embed");
    reveal_strlit("hr");
    reveal_strlit("img");
    reveal_strlit("input");
    reveal_strlit("link");
    reveal_strlit("meta");
    reveal_strlit("param");
    reveal_strlit("source");
    reveal_strlit("track");
    reveal_strlit("wbr");
    lemma_len_ne("area"@, d);
    lemma_len_ne("base"@, d);
    lemma_len_ne("br"@, d);
    lemma_len_ne("col"@, d);
    lemma_len_ne("embed"@, d);
    lemma_len_ne("hr"@, d);
    lemma_len_ne("img"@, d);
    lemma_len_ne("input"@, d);
    lemma_len_ne("link"@, d);
    lemma_len_ne("meta"@, d);
    lemma_len_ne("param"@, d);
    lemma_len_ne("source"@, d);
    lemma_len_ne("track"@, d);
    lemma_len_ne("wbr"@, d);
}

/// The shape that reading keeps: a `document` root without parent; every
/// other node has a non-empty lower-case tag; attribute names are
/// lower-case; void elements have no children; the open elements are nodes,
/// none of them void.
pub open spec fn doc_ok(st: ParseState) -> bool {
    let nodes = st.nodes;
    &&& nodes.len() >= 1
    &&& nodes[0].tag == "document"@
    &&& nodes[0].parent is None
    &&& forall|i: int| 0 < i < nodes.len() ==> (#[trigger] nodes[i]).tag.len() > 0 && lower(nodes[i].tag) == nodes[i].tag
    &&& forall|i: int, j: int|
        0 <= i < nodes.len() && 0 <= j < nodes[i].attrs.len() ==> lower((#[trigger] nodes[i].attrs[j]).0)
            == nodes[i].attrs[j].0
    &&& forall|i: int| 0 <= i < nodes.len() && is_void((#[trigger] nodes[i]).tag) ==> nodes[i].children.len() == 0
    &&& st.stack.len() >= 1
    &&& forall|j: int| 0 <= j < st.stack.len() ==> (#[trigger] st.stack[j] as int) < nodes.len() && !is_void(
        nodes[st.stack[j] as int].tag,
    )
}

/// Closing elements keeps a non-empty prefix of the open elements.
proof fn lemma_pop_until(nodes: Seq<NodeView>, stack: Seq<usize>, closing: Seq<char>)
    requires
        stack.len() >= 1,
    ensures
        ({
            let r = pop_until(nodes, stack, closing);
            &&& 1 <= r.len() <= stack.len()
            &&& forall|j: int| 0 <= j < r.len() ==> #[trigger] r[j] == stack[j]
        }),
    decreases stack.len(),
{
    if stack.len() > 1 {
        let rest = stack.drop_last();
        if lower(nodes[stack.last() as int].tag) != closing {
            lemma_pop_until(nodes, rest, closing);
        }
    }
}

/// One piece of markup keeps the shape.
proof fn lemma_handle_tag_ok(s: Seq<char>, start: int, end: int, st: ParseState)
    requires
        doc_ok(st),
        st.nodes.len() <= end + 1,
        end < usize::MAX,
    ensures
        doc_ok(handle_tag(s, start, end, st)),
        handle_tag(s, start, end, st).nodes.len() <= end + 2,
{
    let rl = trim_lo(s, start + 1, end);
    let rh = trim_hi(s, rl, end);
    let r = handle_tag(s, start, end, st);
    if rl < rh && s[rl] != '!' && s[rl] != '?' {
        if s[rl] == '/' {
            let a = trim_lo(s, rl + 1, rh);
            let closing = lower(s.subrange(a, word_end_in(s, a, rh)));
            lemma_pop_until(st.nodes, st.stack, closing);
        } else {
            let self_closing = s[rh - 1] == '/';
            let nl = if self_closing {
                trim_lo(s, rl, rh - 1)
            } else {
                rl
            };
            let nh = if self_closing {
                trim_hi(s, nl, rh - 1)
            } else {
                rh
            };
            let x = s.subrange(nl, nh);
            let (tag, attrs) = spec_opening_tag(x);
            if tag.len() > 0 {
                let i0 = trim_lo(x, 0, x.len() as int);
                let te = word_end(x, i0);
                lemma_lower_idem(x.subrange(i0, te));
                lemma_attrs_lower(x, te);
                let nodes = st.nodes;
                let par = st.stack.last();
                let id = nodes.len() as usize;
                let nn = add_node(nodes, par, tag, attrs);
                assert(st.stack[st.stack.len() - 1] == par);
                assert(nn == r.nodes);
                assert forall|i: int| 0 <= i < nn.len() && i != par && i != id implies #[trigger] nn[i] == nodes[i] by {}
                assert(nn[par as int].tag == nodes[par as int].tag);
                assert(nn[par as int].attrs == nodes[par as int].attrs);
                assert forall|i: int| 0 < i < nn.len() implies (#[trigger] nn[i]).tag.len() > 0 && lower(nn[i].tag)
                    == nn[i].tag by {
                    if i != id && i != par {
                        assert(nn[i] == nodes[i]);
                    }
                }
                assert forall|i: int, j: int|
                    0 <= i < nn.len() && 0 <= j < nn[i].attrs.len() implies lower((#[trigger] nn[i].attrs[j]).0)
                    == nn[i].attrs[j].0 by {
                    if i != id && i != par {
                        assert(nn[i] == nodes[i]);
                    }
                }
                assert forall|i: int| 0 <= i < nn.len() && is_void((#[trigger] nn[i]).tag) implies nn[i].children.len()
                    == 0 by {
                    if i != id && i != par {
                        assert(nn[i] == nodes[i]);
                    }
                }
                assert forall|j: int| 0 <= j < r.stack.len() implies (#[trigger] r.stack[j] as int) < nn.len()
                    && !is_void(nn[r.stack[j] as int].tag) by {
                    if j < st.stack.len() {
                        assert(r.stack[j] == st.stack[j]);
                        let k = st.stack[j] as int;
                        if k != par {
                            assert(nn[k] == nodes[k]);
                        }
                    }
                }
            }
        }
    }
}

/// Reading to the end keeps the shape.
proof fn lemma_parse_run_ok(s: Seq<char>, st: ParseState)
    requires
        doc_ok(st),
        0 <= st.cursor,
        st.nodes.len() <= st.cursor + 1,
        s.len() <= usize::MAX,
    ensures
        doc_ok(parse_run(s, st)),
    decreases s.len() - st.cursor,
{
    match find_from(s, '<', st.cursor) {
        None => {},
        Some(start) => {
            lemma_find_from(s, '<', st.cursor);
            if starts_at(s, start, comment_open()) {
                match find_seq(s, comment_close(), start + 4) {
                    Some(e) => {
                        lemma_find_seq(s, comment_close(), start + 4);
                        lemma_parse_run_ok(s, ParseState { cursor: e + 3, ..st });
                    },
                    None => {},
                }
            } else {
                match find_from(s, '>', start) {
                    None => {},
                    Some(end) => {
                        lemma_find_from(s, '>', start);
                        lemma_handle_tag_ok(s, start, end, st);
                        lemma_parse_run_ok(s, handle_tag(s, start, end, st));
                    },
                }
            }
        },
    }
}

/// What reading any text gives: a `document` root without parent; every
/// other node has a non-empty lower-case tag; every attribute name is
/// lower-case; void elements never get children.
/// The shape of what reading gives: a `document` root without parent;
/// every other node has a non-empty lower-case tag; every attribute name is
/// lower-case; void elements have no children.
pub open spec fn doc_shape(nodes: Seq<NodeView>) -> bool {
    &&& nodes.len() >= 1
    &&& nodes[0].tag == "document"@
    &&& nodes[0].parent is None
    &&& forall|i: int| 0 < i < nodes.len() ==> (#[trigger] nodes[i]).tag.len() > 0 && lower(nodes[i].tag) == nodes[i].tag
    &&& forall|i: int, j: int|
        0 <= i < nodes.len() && 0 <= j < nodes[i].attrs.len() ==> lower((#[trigger] nodes[i].attrs[j]).0)
            == nodes[i].attrs[j].0
    &&& forall|i: int| 0 <= i < nodes.len() && is_void((#[trigger] nodes[i]).tag) ==> nodes[i].children.len() == 0
}

/// Reading any text gives that shape.
pub proof fn lemma_parse_shape(s: Seq<char>)
    requires
        s.len() <= usize::MAX,
    ensures
        doc_shape(spec_parse_html(s).nodes),
{
    let st0 = ParseState { nodes: seq![root_node()], stack: seq![0], cursor: 0 };
    lemma_document_not_void();
    assert(doc_ok(st0));
    lemma_parse_run_ok(s, st0);
}

/// The fourteen void element names, in any ASCII case, are void: area,
/// base, br, col, embed, hr, img, input, link, meta, param, source, track,
/// wbr.  Read with `doc_shape`, such elements never get children.
pub proof fn lemma_void_names(t: Seq<char>)
    ensures
        eq_ignore_case(t, "area"@) || eq_ignore_case(t, "base"@) || eq_ignore_case(t, "br"@) || eq_ignore_case(
            t,
            "col"@,
        ) || eq_ignore_case(t, "embed"@) || eq_ignore_case(t, "hr"@) || eq_ignore_case(t, "img"@)
            || eq_ignore_case(t, "input"@) || eq_ignore_case(t, "link"@) || eq_ignore_case(t, "meta"@)
            || eq_ignore_case(t, "param"@) || eq_ignore_case(t, "source"@) || eq_ignore_case(t, "track"@)
            || eq_ignore_case(t, "wbr"@) ==> is_void(t),
{
}

/// Other names are not void: only the fourteen names are.
pub proof fn lemma_only_void_names(t: Seq<char>)
    ensures
        is_void(t) ==> lower(t) == lower("area"@) || lower(t) == lower("base"@) || lower(t) == lower("br"@)
            || lower(t) == lower("col"@) || lower(t) == lower("embed"@) || lower(t) == lower("hr"@) || lower(t)
            == lower("img"@) || lower(t) == lower("input"@) || lower(t) == lower("link"@) || lower(t) == lower(
            "meta"@,
        ) || lower(t) == lower("param"@) || lower(t) == lower("source"@) || lower(t) == lower("track"@) || lower(
            t,
        ) == lower("wbr"@),
{
}

} // verus!
