use dom_traverse::domnode::DomNode;
use dom_traverse::lca::LcaBinaryLifting;
use dom_traverse::parser::parse_html_to_tree;
use dom_traverse::text::{eq_ignore_ascii_case, is_whitespace, str_eq, to_ascii_lowercase, to_lower_char};
use dom_traverse::tree::Tree;

fn pairs(v: &[(&str, &str)]) -> Vec<(String, String)> {
    v.iter().map(|(k, x)| (k.to_string(), x.to_string())).collect()
}

#[test]
fn domnode_accessors_and_children() {
    let mut n = DomNode::new(7, "div".to_string(), Some(3), pairs(&[("id", "x")]), 2);
    assert_eq!(n.id(), 7);
    assert_eq!(n.tag(), "div");
    assert_eq!(n.parent(), Some(3));
    assert_eq!(n.depth(), 2);
    assert!(n.children().is_empty());
    assert_eq!(n.attrs().clone(), pairs(&[("id", "x")]));
    n.add_child(9);
    n.add_child(4);
    assert_eq!(n.children().clone(), vec![9, 4]);
    let c = n.clone();
    assert_eq!(c.id(), 7);
    assert_eq!(c.tag(), "div");
    assert_eq!(c.parent(), Some(3));
    assert_eq!(c.children().clone(), vec![9, 4]);
    assert_eq!(c.attrs().clone(), pairs(&[("id", "x")]));
    assert_eq!(c.depth(), 2);
}

#[test]
fn tree_building_by_hand() {
    let mut t = Tree::new();
    assert_eq!(t.nodes.len(), 0);
    assert_eq!(t.root, 0);
    assert_eq!(t.max_depth(), 0);
    assert_eq!(t.find_index_from_id(0), None);
    t.add_root("html".to_string(), Vec::new());
    t.add_root("again".to_string(), Vec::new());
    assert_eq!(t.nodes.len(), 1);
    assert_eq!(t.nodes[0].tag(), "html");
    t.add_child(10, "body".to_string(), 0, pairs(&[("a", "b")]));
    t.add_child(11, "p".to_string(), 10, Vec::new());
    t.add_child(11, "dup".to_string(), 0, Vec::new());
    t.add_child(12, "orphan".to_string(), 99, Vec::new());
    assert_eq!(t.nodes.len(), 3);
    assert_eq!(t.find_index_from_id(10), Some(1));
    assert_eq!(t.find_index_from_id(11), Some(2));
    assert_eq!(t.find_index_from_id(12), None);
    assert_eq!(t.nodes[0].children().clone(), vec![10]);
    assert_eq!(t.nodes[1].children().clone(), vec![11]);
    assert_eq!(t.nodes[2].parent(), Some(10));
    assert_eq!(t.nodes[2].depth(), 2);
    assert_eq!(t.max_depth(), 2);
    t.insert_node(DomNode::new(11, "other".to_string(), None, Vec::new(), 0));
    assert_eq!(t.nodes.len(), 3);
    t.insert_node(DomNode::new(20, "loose".to_string(), None, Vec::new(), 5));
    assert_eq!(t.nodes.len(), 4);
    assert_eq!(t.find_index_from_id(20), Some(3));
    assert_eq!(t.max_depth(), 5);
}

#[test]
fn lca_on_a_parsed_tree() {
    let tree = parse_html_to_tree(
        "<div><p></p><span></span><p></p></div><ul><li></li></ul>",
    )
    .unwrap();
    let lca = tree.build_lca_index();
    assert_eq!(lca.lca_id(&tree, 2, 3), Some(1));
    assert_eq!(lca.lca_id(&tree, 3, 2), Some(1));
    assert_eq!(lca.lca_id(&tree, 2, 6), Some(0));
    assert_eq!(lca.lca_id(&tree, 6, 6), Some(6));
    assert_eq!(lca.lca_id(&tree, 1, 4), Some(1));
    assert_eq!(lca.lca_id(&tree, 99, 1), None);
    assert!(lca.is_ancestor_id(&tree, 1, 3));
    assert!(!lca.is_ancestor_id(&tree, 3, 1));
    assert!(lca.is_ancestor_id(&tree, 0, 6));
    assert!(lca.is_ancestor_id(&tree, 4, 4));
    assert!(!lca.is_ancestor_id(&tree, 5, 4));
    assert_eq!(lca.lca_index(2, 4), Some(1));
    assert_eq!(lca.lca_index(0, 0), Some(0));
    assert_eq!(lca.lca_index(7, 0), None);
    let again = LcaBinaryLifting::build(&tree);
    assert_eq!(again.lca_index(6, 3), Some(0));
}

#[test]
fn lca_is_symmetric_on_every_pair() {
    let tree = parse_html_to_tree("<a><b><c></c><d><e></e></d></b><f></f></a><g></g>").unwrap();
    let lca = tree.build_lca_index();
    let n = tree.nodes.len();
    for a in 0..n {
        assert_eq!(lca.lca_index(a, a), Some(a));
        for b in 0..n {
            assert_eq!(lca.lca_index(a, b), lca.lca_index(b, a));
        }
    }
    assert_eq!(lca.lca_index(5, 3), Some(2));
    assert_eq!(lca.lca_index(5, 6), Some(1));
    assert_eq!(lca.lca_index(5, 7), Some(0));
}

#[test]
fn lca_on_empty_tree() {
    let t = Tree::new();
    let lca = t.build_lca_index();
    assert_eq!(lca.lca_index(0, 0), None);
    assert_eq!(lca.lca_id(&t, 0, 0), None);
    assert!(!lca.is_ancestor_id(&t, 0, 0));
}

#[test]
fn lca_of_nodes_outside_the_root_walk() {
    let mut t = Tree::new();
    t.add_root("r".to_string(), Vec::new());
    t.add_child(1, "a".to_string(), 0, Vec::new());
    t.insert_node(DomNode::new(5, "x".to_string(), Some(1), Vec::new(), 2));
    let lca = t.build_lca_index();
    // Node 5 is not listed among its parent's children: the walk from the
    // root does not reach it, so it keeps its parent link but depth 0.
    assert_eq!(lca.lca_id(&t, 1, 0), Some(0));
    assert_eq!(lca.lca_id(&t, 5, 1), None);
    assert_eq!(lca.lca_id(&t, 5, 0), None);
    assert_eq!(lca.lca_id(&t, 5, 5), Some(5));
}

#[test]
fn text_helpers() {
    assert_eq!(to_ascii_lowercase("AbC-Ä"), "abc-Ä");
    assert!(eq_ignore_ascii_case("DiV", "dIv"));
    assert!(!eq_ignore_ascii_case("div", "dive"));
    assert!(str_eq("x", "x"));
    assert!(!str_eq("x", "X"));
    assert_eq!(to_lower_char('Q'), 'q');
    assert_eq!(to_lower_char('7'), '7');
    assert!(is_whitespace(' '));
    assert!(is_whitespace('\n'));
    assert!(is_whitespace('\u{3000}'));
    assert!(is_whitespace('\u{a0}'));
    assert!(!is_whitespace('x'));
    assert!(!is_whitespace('\u{200b}'));
    for c in ['\t', ' ', '\u{85}', '\u{1680}', '\u{2000}', '\u{200a}', '\u{2028}', '\u{2029}', '\u{202f}', '\u{205f}', 'a', '\u{180e}'] {
        assert_eq!(is_whitespace(c), c.is_whitespace());
    }
}

#[test]
fn lca_absorbs_its_answer() {
    let tree = parse_html_to_tree("<a><b><c></c><d><e></e></d></b><f></f></a><g></g>").unwrap();
    let lca = tree.build_lca_index();
    let n = tree.nodes.len();
    for a in 0..n {
        for b in 0..n {
            let c = lca.lca_index(a, b).unwrap();
            assert_eq!(lca.lca_index(a, c), Some(c));
            assert_eq!(lca.lca_index(c, b), Some(c));
        }
    }
}

#[test]
fn parsed_tree_lists_each_child_once() {
    let tree = parse_html_to_tree("<a><b></b><c><d></d></c></a><e></e>").unwrap();
    assert_eq!(tree.id_to_index.len(), tree.nodes.len());
    for (i, node) in tree.nodes.iter().enumerate().skip(1) {
        let p = node.parent().unwrap();
        let count = tree.nodes[p].children().iter().filter(|c| **c == i).count();
        assert_eq!(count, 1);
    }
}

#[test]
fn tree_and_index_clone() {
    let tree = parse_html_to_tree("<a><b></b></a>").unwrap();
    let copy = tree.clone();
    assert_eq!(copy.nodes.len(), tree.nodes.len());
    assert_eq!(copy.find_index_from_id(2), Some(2));
    let lca = tree.build_lca_index();
    let lca2 = lca.clone();
    assert_eq!(lca2.lca_index(2, 1), lca.lca_index(2, 1));
    assert_eq!(format!("{:?}", lca2).is_empty(), false);
}
