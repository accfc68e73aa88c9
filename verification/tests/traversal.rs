use dom_traverse::bfs::{bfs, path_to_root, SearchQuery, TraversalResult};
use dom_traverse::dfs;
use dom_traverse::domnode::DomNode;
use dom_traverse::p;
use dom_traverse::parser::parse_html_to_tree;
use dom_traverse::selector::SelectorQuery;
use dom_traverse::tree::Tree;

fn sample() -> Tree {
    parse_html_to_tree(
        "<div id=\"main\" class=\"box big\"><p class=\"Intro\">a</p><span>b</span><p>c</p></div><ul><li>x</li></ul>",
    )
    .unwrap()
}

fn assert_log_consistent(r: &TraversalResult, tree: &Tree) {
    assert_eq!(r.log.len(), r.traversal_order.len());
    for (i, step) in r.log.iter().enumerate() {
        assert_eq!(step.step, i + 1);
        assert_eq!(step.node_id, r.traversal_order[i]);
        let node = &tree.nodes[tree.find_index_from_id(step.node_id).unwrap()];
        assert_eq!(step.tag, node.tag());
        assert_eq!(step.depth, node.depth());
    }
    assert_eq!(r.metrics.visited_nodes, r.traversal_order.len());
    assert_eq!(r.metrics.max_depth, tree.max_depth());
}

#[test]
fn bfs_visits_level_by_level() {
    let tree = sample();
    let r = bfs(&tree, &SearchQuery::Tag("li".to_string()));
    assert_eq!(r.traversal_order, vec![0, 1, 5, 2, 3, 4, 6]);
    assert_eq!(r.found_id, Some(6));
    assert_eq!(r.found.as_ref().unwrap().tag(), "li");
    assert_eq!(r.found.as_ref().unwrap().id(), 6);
    assert_eq!(r.path_to_found, vec![0, 5, 6]);
    let depths: Vec<usize> = r.log.iter().map(|s| s.depth).collect();
    assert_eq!(depths, vec![0, 1, 1, 2, 2, 2, 2]);
    let matched: Vec<bool> = r.log.iter().map(|s| s.matched).collect();
    assert_eq!(matched, vec![false, false, false, false, false, false, true]);
    assert_eq!(r.metrics.visited_nodes, 7);
    assert_eq!(r.metrics.max_depth, 2);
    assert_log_consistent(&r, &tree);
}

#[test]
fn dfs_visits_children_in_document_order() {
    let tree = sample();
    let q = dfs::SearchQuery::Tag("li".to_string());
    let r = dfs::dfs(&tree, &q);
    assert_eq!(r.traversal_order, vec![0, 1, 2, 3, 4, 5, 6]);
    assert_eq!(r.found_id, Some(6));
    assert_eq!(r.path_to_found, vec![0, 5, 6]);
    assert_eq!(r.log.len(), 7);
    for (i, step) in r.log.iter().enumerate() {
        assert_eq!(step.step, i + 1);
        assert_eq!(step.node_id, r.traversal_order[i]);
    }
    assert_eq!(r.metrics.visited_nodes, 7);
    assert_eq!(r.metrics.max_depth, 2);
}

#[test]
fn p_dfs_matches_dfs_order() {
    let tree = sample();
    let r = p::dfs(&tree, &SearchQuery::Tag("span".to_string()));
    assert_eq!(r.traversal_order, vec![0, 1, 2, 3]);
    assert_eq!(r.found_id, Some(3));
    assert_eq!(r.path_to_found, vec![0, 1, 3]);
    assert_log_consistent(&r, &tree);
}

#[test]
fn search_without_match_visits_everything() {
    let tree = sample();
    let r = bfs(&tree, &SearchQuery::Tag("table".to_string()));
    assert_eq!(r.traversal_order, vec![0, 1, 5, 2, 3, 4, 6]);
    assert_eq!(r.found_id, None);
    assert!(r.found.is_none());
    assert!(r.path_to_found.is_empty());
    assert!(r.log.iter().all(|s| !s.matched));
    let d = dfs::dfs(&tree, &dfs::SearchQuery::Tag("table".to_string()));
    assert_eq!(d.traversal_order, vec![0, 1, 2, 3, 4, 5, 6]);
    assert_eq!(d.found_id, None);
    let e = p::dfs(&tree, &SearchQuery::Tag("table".to_string()));
    assert_eq!(e.traversal_order, vec![0, 1, 2, 3, 4, 5, 6]);
    assert_eq!(e.found_id, None);
}

#[test]
fn search_root_match_stops_at_once() {
    let tree = sample();
    let r = bfs(&tree, &SearchQuery::Tag("document".to_string()));
    assert_eq!(r.traversal_order, vec![0]);
    assert_eq!(r.found_id, Some(0));
    assert_eq!(r.path_to_found, vec![0]);
    let d = dfs::dfs(&tree, &dfs::SearchQuery::Tag("document".to_string()));
    assert_eq!(d.traversal_order, vec![0]);
}

#[test]
fn search_by_attribute_and_tag_and_attribute() {
    let tree = sample();
    let r = bfs(&tree, &SearchQuery::Attr("id".to_string(), "main".to_string()));
    assert_eq!(r.found_id, Some(1));
    assert_eq!(r.traversal_order, vec![0, 1]);
    let q = SearchQuery::TagAndAttr {
        tag: "p".to_string(),
        key: "class".to_string(),
        value: "Intro".to_string(),
    };
    let r = bfs(&tree, &q);
    assert_eq!(r.found_id, Some(2));
    let q = SearchQuery::TagAndAttr {
        tag: "p".to_string(),
        key: "class".to_string(),
        value: "intro".to_string(),
    };
    assert_eq!(bfs(&tree, &q).found_id, None);
    let r = dfs::dfs(&tree, &dfs::SearchQuery::Attr("class".to_string(), "Intro".to_string()));
    assert_eq!(r.found_id, Some(2));
    assert_eq!(r.traversal_order, vec![0, 1, 2]);
}

#[test]
fn search_by_selector() {
    let tree = sample();
    let sel = SelectorQuery::parse("div > p + span").unwrap();
    let r = bfs(&tree, &SearchQuery::Selector(sel.clone()));
    assert_eq!(r.found_id, Some(3));
    assert_eq!(r.traversal_order, vec![0, 1, 5, 2, 3]);
    let d = dfs::dfs(&tree, &dfs::SearchQuery::Selector(sel));
    assert_eq!(d.found_id, Some(3));
    assert_eq!(d.traversal_order, vec![0, 1, 2, 3]);
}

#[test]
fn matches_at_each_kind() {
    let tree = sample();
    let lca = tree.build_lca_index();
    let node = &tree.nodes[2];
    assert!(SearchQuery::Tag("p".to_string()).matches_at(&tree, &lca, 2, node));
    assert!(!SearchQuery::Tag("P".to_string()).matches_at(&tree, &lca, 2, node));
    assert!(SearchQuery::Attr("class".to_string(), "Intro".to_string()).matches_at(&tree, &lca, 2, node));
    let sel = SelectorQuery::parse("P").unwrap();
    assert!(SearchQuery::Selector(sel.clone()).matches_at(&tree, &lca, 2, node));
    assert!(dfs::SearchQuery::Selector(sel).matches_at(&tree, &lca, 2, node));
    assert!(!dfs::SearchQuery::Tag("div".to_string()).matches_at(&tree, &lca, 2, node));
}

#[test]
fn path_to_root_walks_parent_links() {
    let tree = sample();
    assert_eq!(path_to_root(&tree, 6), vec![0, 5, 6]);
    assert_eq!(path_to_root(&tree, 0), vec![0]);
    assert_eq!(dfs::path_to_root(&tree, 4), vec![0, 1, 4]);
    assert_eq!(path_to_root(&tree, 99), vec![99]);
}

#[test]
fn search_laws_on_a_deeper_tree() {
    let tree = parse_html_to_tree(
        "<a><b><c></c><d><e></e></d></b><f><g></g></f></a><h><i><j></j></i></h>",
    )
    .unwrap();
    let r = bfs(&tree, &SearchQuery::Tag("j".to_string()));
    let depths: Vec<usize> = r.log.iter().map(|s| s.depth).collect();
    assert!(depths.windows(2).all(|w| w[0] <= w[1]));
    assert_eq!(r.traversal_order[0], tree.root);
    let found = r.found_id.unwrap();
    assert_eq!(tree.nodes[found].tag(), "j");
    let path = &r.path_to_found;
    assert_eq!(path[0], tree.root);
    assert_eq!(*path.last().unwrap(), found);
    assert_eq!(path.len(), tree.nodes[found].depth() + 1);
    for w in path.windows(2) {
        assert_eq!(tree.nodes[w[1]].parent(), Some(w[0]));
        assert!(tree.nodes[w[0]].children().contains(&w[1]));
    }
    let d = dfs::dfs(&tree, &dfs::SearchQuery::Tag("j".to_string()));
    assert_eq!(d.traversal_order, (0..tree.nodes.len()).collect::<Vec<usize>>());
    assert_eq!(d.found_id, Some(found));
    assert_log_consistent(&r, &tree);
}

#[test]
fn bfs_and_dfs_visit_the_same_nodes_without_match() {
    let tree = parse_html_to_tree("<a><b><c></c></b><d></d></a><e><f></f></e>").unwrap();
    let mut b = bfs(&tree, &SearchQuery::Tag("zzz".to_string())).traversal_order;
    let mut d = dfs::dfs(&tree, &dfs::SearchQuery::Tag("zzz".to_string())).traversal_order;
    b.sort();
    d.sort();
    assert_eq!(b, d);
    assert_eq!(b, (0..tree.nodes.len()).collect::<Vec<usize>>());
}

#[test]
fn search_returns_on_parent_cycles_outside_the_root_walk() {
    let mut t = Tree::new();
    t.add_root("r".to_string(), Vec::new());
    t.add_child(1, "a".to_string(), 0, Vec::new());
    t.insert_node(DomNode::new(5, "x".to_string(), Some(6), Vec::new(), 1));
    t.insert_node(DomNode::new(6, "y".to_string(), Some(5), Vec::new(), 1));
    let r = bfs(&t, &SearchQuery::Tag("zzz".to_string()));
    assert_eq!(r.traversal_order, vec![0, 1]);
    assert_eq!(r.found_id, None);
    let d = dfs::dfs(&t, &dfs::SearchQuery::Tag("a".to_string()));
    assert_eq!(d.found_id, Some(1));
    assert_eq!(d.path_to_found, vec![0, 1]);
    let q = SelectorQuery::parse("x").unwrap();
    assert_eq!(dom_traverse::selector::find_matching_nodes(&t, &q), vec![5]);
}
