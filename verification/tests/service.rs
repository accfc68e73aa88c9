use dom_traverse::bfs::{self, LevelVisit};
use dom_traverse::dfs;
use dom_traverse::domnode::DomNode;
use dom_traverse::parser::parse_html_to_tree;
use dom_traverse::service::{
    accept_body, choose_source, execution_time_us, host_from, is_blank, parse_method, parse_u16,
    port_from, to_matched_node, traverse_html, HtmlSource, Method,
};
use dom_traverse::tree::Tree;

const PAGE: &str =
    "<div id=\"main\" class=\"box big\"><p class=\"Intro\">a</p><span>b</span><p>c</p></div><ul><li>x</li></ul>";

#[test]
fn method_names_are_trimmed_and_case_insensitive() {
    assert_eq!(parse_method("BFS"), Some(Method::Bfs));
    assert_eq!(parse_method("  dfs\n"), Some(Method::Dfs));
    assert_eq!(parse_method("Bfs"), Some(Method::Bfs));
    assert_eq!(parse_method("bfs2"), None);
    assert_eq!(parse_method(""), None);
    assert_eq!(parse_method("B F S"), None);
}

#[test]
fn blank_texts() {
    assert!(is_blank(""));
    assert!(is_blank(" \t\n"));
    assert!(!is_blank(" a "));
}

#[test]
fn matched_node_report_takes_first_class_attribute() {
    let node = DomNode::new(
        4,
        "a".to_string(),
        Some(1),
        vec![
            ("href".to_string(), "x".to_string()),
            ("CLASS".to_string(), "nav-link".to_string()),
            ("class".to_string(), "second".to_string()),
        ],
        2,
    );
    let r = to_matched_node(4, &node);
    assert_eq!(r.id, 4);
    assert_eq!(r.tag, "a");
    assert_eq!(r.class, "nav-link");
    let bare = DomNode::new(5, "b".to_string(), None, Vec::new(), 0);
    assert_eq!(to_matched_node(5, &bare).class, "");
}

#[test]
fn execution_time_is_capped_microseconds() {
    assert_eq!(execution_time_us(0), 0);
    assert_eq!(execution_time_us(7), 7000);
    assert_eq!(execution_time_us(18446744073709551), 18446744073709551000);
    assert_eq!(execution_time_us(18446744073709552), u64::MAX);
    assert_eq!(execution_time_us(u128::MAX), u64::MAX);
}

#[test]
fn html_source_choice() {
    match choose_source(Some("  https://example.com "), Some("<p></p>")) {
        Ok(HtmlSource::Fetch(u)) => assert_eq!(u, "https://example.com"),
        other => panic!("unexpected {:?}", other),
    }
    match choose_source(Some("   "), Some("<p></p>")) {
        Ok(HtmlSource::Inline(h)) => assert_eq!(h, "<p></p>"),
        other => panic!("unexpected {:?}", other),
    }
    assert_eq!(
        choose_source(Some("  "), None).unwrap_err(),
        "source_url or html_content is required"
    );
    match choose_source(None, Some(" <p></p> ")) {
        Ok(HtmlSource::Inline(h)) => assert_eq!(h, " <p></p> "),
        other => panic!("unexpected {:?}", other),
    }
    assert_eq!(
        choose_source(None, Some("  ")).unwrap_err(),
        "source_url or html_content is required"
    );
    assert_eq!(choose_source(None, None).unwrap_err(), "source_url or html_content is required");
}

#[test]
fn fetched_body_must_not_be_blank() {
    assert_eq!(accept_body("<p></p>".to_string()).unwrap(), "<p></p>");
    assert_eq!(accept_body(" \n ".to_string()).unwrap_err(), "Konten HTML dari URL kosong");
}

#[test]
fn u16_reading_follows_from_str() {
    for text in ["0", "80", "+80", "065535", "65535", "65536", "", "+", "-1", "8a", " 80", "99999999999999999999"] {
        assert_eq!(parse_u16(text), text.parse::<u16>().ok(), "{}", text);
    }
}

#[test]
fn port_and_host_settings() {
    assert_eq!(port_from(None), 3000);
    assert_eq!(port_from(Some(" 8080 ")), 8080);
    assert_eq!(port_from(Some("http")), 3000);
    assert_eq!(port_from(Some("70000")), 3000);
    assert_eq!(host_from(None), "0.0.0.0");
    assert_eq!(host_from(Some("  ")), "0.0.0.0");
    assert_eq!(host_from(Some(" 127.0.0.1 ")), "127.0.0.1");
}

#[test]
fn traverse_request_errors_in_order() {
    assert_eq!(traverse_html(PAGE, "  ", "BFS").err().unwrap(), "css_selector cannot be empty");
    assert_eq!(traverse_html(PAGE, "> p", "nope").err().unwrap(), "Invalid combinator placement");
    assert_eq!(traverse_html(PAGE, "p", "nope").err().unwrap(), "method must be either BFS or DFS");
}

#[test]
fn traverse_request_bfs_and_dfs() {
    let o = traverse_html(PAGE, " li ", "bfs").unwrap();
    assert_eq!(o.traversal_order, vec![0, 1, 5, 2, 3, 4, 6]);
    assert_eq!(o.matched_nodes.len(), 1);
    assert_eq!(o.matched_nodes[0].id, 6);
    assert_eq!(o.matched_nodes[0].tag, "li");
    assert_eq!(o.tree.nodes.len(), 7);

    let o = traverse_html(PAGE, "p", " DFS ").unwrap();
    assert_eq!(o.traversal_order, vec![0, 1, 2]);
    let ids: Vec<usize> = o.matched_nodes.iter().map(|m| m.id).collect();
    assert_eq!(ids, vec![2, 4]);
    assert_eq!(o.matched_nodes[0].class, "Intro");
    assert_eq!(o.matched_nodes[1].class, "");

    let o = traverse_html(PAGE, "table", "BFS").unwrap();
    assert_eq!(o.traversal_order.len(), 7);
    assert!(o.matched_nodes.is_empty());
}

fn bfs_by_levels(tree: &Tree, query: &bfs::SearchQuery) -> bfs::TraversalResult {
    let lca = tree.build_lca_index();
    let mut level = vec![tree.root];
    let mut order = Vec::new();
    let mut log = Vec::new();
    let mut found = None;
    while !level.is_empty() {
        let visits: Vec<LevelVisit> = level
            .iter()
            .enumerate()
            .filter_map(|(i, id)| bfs::visit_level_node(tree, &lca, query, i, *id))
            .collect();
        let (next, f) = bfs::absorb_level(&mut order, &mut log, visits);
        if f.is_some() {
            found = f;
            break;
        }
        level = next;
    }
    bfs::assemble_result(tree, found, order, log, 0)
}

#[test]
fn level_by_level_search_matches_queue_search() {
    let tree = parse_html_to_tree("<a><b><c></c><d><e></e></d></b><f><g></g></f></a><h><i><j></j></i></h>").unwrap();
    for tag in ["e", "g", "j", "zzz", "document", "h"] {
        let q = bfs::SearchQuery::Tag(tag.to_string());
        let seq = bfs::bfs(&tree, &q);
        let lev = bfs_by_levels(&tree, &q);
        assert_eq!(lev.traversal_order, seq.traversal_order);
        assert_eq!(lev.found_id, seq.found_id);
        assert_eq!(lev.path_to_found, seq.path_to_found);
        assert_eq!(lev.log.len(), seq.log.len());
        for (a, b) in lev.log.iter().zip(seq.log.iter()) {
            assert_eq!((a.step, a.node_id, &a.tag, a.depth, a.matched), (b.step, b.node_id, &b.tag, b.depth, b.matched));
        }
        assert_eq!(lev.metrics.visited_nodes, seq.metrics.visited_nodes);
        assert_eq!(lev.metrics.max_depth, seq.metrics.max_depth);
    }
}

#[test]
fn level_visit_of_missing_node() {
    let tree = parse_html_to_tree("<p></p>").unwrap();
    let lca = tree.build_lca_index();
    let q = bfs::SearchQuery::Tag("p".to_string());
    assert!(bfs::visit_level_node(&tree, &lca, &q, 0, 42).is_none());
    let v = bfs::visit_level_node(&tree, &lca, &q, 3, 1).unwrap();
    assert_eq!((v.position, v.node_id, v.tag.as_str(), v.depth, v.matched), (3, 1, "p", 1, true));
    let v = bfs::visit_level_node(&tree, &lca, &q, 0, 0).unwrap();
    assert_eq!(v.children, vec![1]);
    assert!(!v.matched);
}

fn dfs_by_subtrees(tree: &Tree, query: &dfs::SearchQuery) -> dfs::TraversalResult {
    let lca = tree.build_lca_index();
    let mut run = match dfs::start_subtree_run(tree, &lca, query) {
        Some(run) => run,
        None => return dfs::empty_result(0),
    };
    if run.found_id.is_none() {
        let children = run.root_children.clone();
        for c in children {
            let (o, l, f) = dfs::search_subtree(tree, &lca, query, c);
            if dfs::absorb_subtree(&mut run, o, l, f) {
                break;
            }
        }
    }
    dfs::assemble_result(tree, run.found_id, run.traversal_order, run.log, 0)
}

#[test]
fn subtree_by_subtree_search_matches_stack_search() {
    let tree = parse_html_to_tree("<a><b><c></c><d><e></e></d></b><f><g></g></f></a><h><i><j></j></i></h><k></k>").unwrap();
    for tag in ["e", "g", "j", "k", "zzz", "document"] {
        let q = dfs::SearchQuery::Tag(tag.to_string());
        let seq = dfs::dfs(&tree, &q);
        let sub = dfs_by_subtrees(&tree, &q);
        assert_eq!(sub.traversal_order, seq.traversal_order);
        assert_eq!(sub.found_id, seq.found_id);
        assert_eq!(sub.path_to_found, seq.path_to_found);
        for (a, b) in sub.log.iter().zip(seq.log.iter()) {
            assert_eq!((a.step, a.node_id, &a.tag, a.depth, a.matched), (b.step, b.node_id, &b.tag, b.depth, b.matched));
        }
        assert_eq!(sub.log.len(), seq.log.len());
    }
}

#[test]
fn search_over_tree_without_root() {
    let tree = Tree::new();
    let lca = tree.build_lca_index();
    let q = dfs::SearchQuery::Tag("x".to_string());
    assert!(dfs::start_subtree_run(&tree, &lca, &q).is_none());
    let r = dfs::empty_result(12);
    assert!(r.found.is_none() && r.found_id.is_none());
    assert!(r.traversal_order.is_empty() && r.path_to_found.is_empty() && r.log.is_empty());
    assert_eq!((r.metrics.visited_nodes, r.metrics.elapsed_ms, r.metrics.max_depth), (0, 12, 0));
}

#[test]
fn assembled_result_for_missing_found_id() {
    let tree = parse_html_to_tree("<p></p>").unwrap();
    let r = bfs::assemble_result(&tree, Some(9), vec![0, 1], Vec::new(), 5);
    assert!(r.found.is_none());
    assert_eq!(r.found_id, Some(9));
    assert_eq!(r.path_to_found, vec![9]);
    assert_eq!(r.metrics.visited_nodes, 2);
    assert_eq!(r.metrics.elapsed_ms, 5);
    assert_eq!(r.metrics.max_depth, 1);
}

#[test]
fn absorbing_a_level_with_a_match_gives_no_next_level() {
    let tree = parse_html_to_tree("<a><b></b></a><c></c>").unwrap();
    let lca = tree.build_lca_index();
    let q = bfs::SearchQuery::Tag("a".to_string());
    let visits: Vec<LevelVisit> = [1usize, 3]
        .iter()
        .enumerate()
        .filter_map(|(i, id)| bfs::visit_level_node(&tree, &lca, &q, i, *id))
        .collect();
    let mut order = Vec::new();
    let mut log = Vec::new();
    let (next, found) = bfs::absorb_level(&mut order, &mut log, visits);
    assert_eq!(found, Some(1));
    assert!(next.is_empty());
    assert_eq!(order, vec![1]);
    assert_eq!(log.len(), 1);
}
