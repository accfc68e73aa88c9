use dom_traverse::parser::parse_html_to_tree;
use dom_traverse::selector::{
    error_message, find_matching_nodes, parse_selector, query_matches_node, Combinator, SelectorError,
    SelectorQuery, SimpleSelector,
};
use dom_traverse::tree::Tree;

fn sample() -> Tree {
    parse_html_to_tree(
        "<div id=\"main\" class=\"box big\"><p class=\"Intro\">a</p><span>b</span><p>c</p></div><ul><li>x</li></ul>",
    )
    .unwrap()
}

fn matching(tree: &Tree, selector: &str) -> Vec<usize> {
    let q = SelectorQuery::parse(selector).unwrap();
    find_matching_nodes(tree, &q)
}

#[test]
fn selector_parse_descendant_chain() {
    let q = parse_selector("div p").unwrap();
    assert_eq!(q.parts_right_to_left.len(), 2);
    assert_eq!(q.parts_right_to_left[0].selector, SimpleSelector::Tag("p".to_string()));
    assert_eq!(q.parts_right_to_left[0].relation_to_left, Some(Combinator::Descendant));
    assert_eq!(q.parts_right_to_left[1].selector, SimpleSelector::Tag("div".to_string()));
    assert_eq!(q.parts_right_to_left[1].relation_to_left, None);
}

#[test]
fn selector_parse_all_combinators() {
    let q = parse_selector("a > b + c ~ d").unwrap();
    let rels: Vec<Option<Combinator>> = q.parts_right_to_left.iter().map(|p| p.relation_to_left).collect();
    assert_eq!(
        rels,
        vec![
            Some(Combinator::GeneralSibling),
            Some(Combinator::AdjacentSibling),
            Some(Combinator::Child),
            None
        ]
    );
    let sels: Vec<SimpleSelector> = q.parts_right_to_left.iter().map(|p| p.selector.clone()).collect();
    assert_eq!(
        sels,
        vec![
            SimpleSelector::Tag("d".to_string()),
            SimpleSelector::Tag("c".to_string()),
            SimpleSelector::Tag("b".to_string()),
            SimpleSelector::Tag("a".to_string())
        ]
    );
    let q = parse_selector("a>b").unwrap();
    assert_eq!(q.parts_right_to_left[0].relation_to_left, Some(Combinator::Child));
}

#[test]
fn selector_parse_simple_kinds() {
    let one = |s: &str| parse_selector(s).unwrap().parts_right_to_left[0].selector.clone();
    assert_eq!(one("*"), SimpleSelector::Universal);
    assert_eq!(one(".nav"), SimpleSelector::Class("nav".to_string()));
    assert_eq!(one("#top"), SimpleSelector::Id("top".to_string()));
    assert_eq!(
        one("[href=x]"),
        SimpleSelector::AttrEq { key: "href".to_string(), value: "x".to_string() }
    );
    assert_eq!(
        one("[ data-k = \"v w\" ]"),
        SimpleSelector::AttrEq { key: "data-k".to_string(), value: "v w".to_string() }
    );
    assert_eq!(
        one("[k='v']"),
        SimpleSelector::AttrEq { key: "k".to_string(), value: "v".to_string() }
    );
    assert_eq!(one("p.cls"), SimpleSelector::Tag("p.cls".to_string()));
    assert_eq!(one("  li  "), SimpleSelector::Tag("li".to_string()));
}

#[test]
fn selector_parse_errors() {
    assert_eq!(parse_selector("]").unwrap_err(), "Selector bracket mismatch");
    assert_eq!(parse_selector("[a=b").unwrap_err(), "Selector bracket mismatch");
    assert_eq!(parse_selector("> a").unwrap_err(), "Invalid combinator placement");
    assert_eq!(parse_selector("a > > b").unwrap_err(), "Invalid combinator placement");
    assert_eq!(parse_selector("").unwrap_err(), "Empty selector");
    assert_eq!(parse_selector("   ").unwrap_err(), "Empty selector");
    assert_eq!(parse_selector("a >").unwrap_err(), "Invalid selector chain");
    assert_eq!(parse_selector(".").unwrap_err(), "Class selector cannot be empty");
    assert_eq!(parse_selector("#").unwrap_err(), "ID selector cannot be empty");
    assert_eq!(
        parse_selector("[=x]").unwrap_err(),
        "Attribute selector must be in [key=value] format"
    );
    assert_eq!(
        parse_selector("[a]").unwrap_err(),
        "Attribute selector must be in [key=value] format"
    );
    assert!(SelectorQuery::parse("div .").is_err());
}

#[test]
fn selector_error_messages() {
    assert_eq!(error_message(SelectorError::BracketMismatch), "Selector bracket mismatch");
    assert_eq!(error_message(SelectorError::InvalidCombinatorPlacement), "Invalid combinator placement");
    assert_eq!(error_message(SelectorError::Empty), "Empty selector");
    assert_eq!(error_message(SelectorError::InvalidChain), "Invalid selector chain");
    assert_eq!(error_message(SelectorError::EmptyClass), "Class selector cannot be empty");
    assert_eq!(error_message(SelectorError::EmptyId), "ID selector cannot be empty");
    assert_eq!(
        error_message(SelectorError::AttributeFormat),
        "Attribute selector must be in [key=value] format"
    );
}

#[test]
fn selector_parsed_shape_law() {
    for text in ["a", "a b", "a > b ~ c + d", "ul li a", "[x=y] .c #d"] {
        let q = parse_selector(text).unwrap();
        let n = q.parts_right_to_left.len();
        assert!(n >= 1);
        assert_eq!(q.parts_right_to_left[n - 1].relation_to_left, None);
        for part in &q.parts_right_to_left[..n - 1] {
            assert!(part.relation_to_left.is_some());
        }
    }
}

#[test]
fn match_tags_case_insensitively() {
    let tree = sample();
    assert_eq!(matching(&tree, "p"), vec![2, 4]);
    assert_eq!(matching(&tree, "DIV"), vec![1]);
    assert_eq!(matching(&tree, "table"), Vec::<usize>::new());
    assert_eq!(matching(&tree, "*"), vec![0, 1, 2, 3, 4, 5, 6]);
    assert_eq!(matching(&tree, "document"), vec![0]);
}

#[test]
fn match_class_id_and_attribute() {
    let tree = sample();
    assert_eq!(matching(&tree, ".intro"), vec![2]);
    assert_eq!(matching(&tree, ".big"), vec![1]);
    assert_eq!(matching(&tree, ".bo"), Vec::<usize>::new());
    assert_eq!(matching(&tree, "#main"), vec![1]);
    assert_eq!(matching(&tree, "#MAIN"), Vec::<usize>::new());
    assert_eq!(matching(&tree, "[class=box big]"), vec![1]);
    assert_eq!(matching(&tree, "[CLASS=Intro]"), vec![2]);
    assert_eq!(matching(&tree, "[class=intro]"), Vec::<usize>::new());
}

#[test]
fn match_combinators() {
    let tree = sample();
    assert_eq!(matching(&tree, "div > p"), vec![2, 4]);
    assert_eq!(matching(&tree, "div p"), vec![2, 4]);
    assert_eq!(matching(&tree, "document li"), vec![6]);
    assert_eq!(matching(&tree, "document > li"), Vec::<usize>::new());
    assert_eq!(matching(&tree, "div li"), Vec::<usize>::new());
    assert_eq!(matching(&tree, "p + span"), vec![3]);
    assert_eq!(matching(&tree, "span + p"), vec![4]);
    assert_eq!(matching(&tree, "p + p"), Vec::<usize>::new());
    assert_eq!(matching(&tree, "p ~ p"), vec![4]);
    assert_eq!(matching(&tree, "p ~ span"), vec![3]);
    assert_eq!(matching(&tree, "div ~ ul"), vec![5]);
    assert_eq!(matching(&tree, "#main > .intro + span"), vec![3]);
}

#[test]
fn match_descendant_finds_nearest_matching_ancestor() {
    let tree = parse_html_to_tree("<div class=a><div><p></p></div></div>").unwrap();
    assert_eq!(matching(&tree, "div p"), vec![3]);
    assert_eq!(matching(&tree, ".a p"), vec![3]);
    assert_eq!(matching(&tree, ".a > div > p"), vec![3]);
    assert_eq!(matching(&tree, ".a > p"), Vec::<usize>::new());
}

#[test]
fn query_matches_node_by_id() {
    let tree = sample();
    let lca = tree.build_lca_index();
    let q = SelectorQuery::parse("ul > li").unwrap();
    assert!(query_matches_node(&tree, &lca, 6, &q));
    assert!(!query_matches_node(&tree, &lca, 5, &q));
    assert!(!query_matches_node(&tree, &lca, 42, &q));
    let empty = SelectorQuery { parts_right_to_left: Vec::new() };
    assert!(!query_matches_node(&tree, &lca, 6, &empty));
}

#[test]
fn match_backtracks_over_descendant_candidates() {
    let tree = parse_html_to_tree("<div><span><section><span><a></a></span></section></span></div>").unwrap();
    let lca = tree.build_lca_index();
    let q = parse_selector("div > span a").unwrap();
    assert!(query_matches_node(&tree, &lca, 5, &q));
    assert_eq!(matching(&tree, "div > span a"), vec![5]);
    assert_eq!(matching(&tree, "div > span > a"), Vec::<usize>::new());
    assert_eq!(matching(&tree, "section span"), vec![4]);
}

#[test]
fn match_backtracks_over_sibling_candidates() {
    let tree = parse_html_to_tree("<a><b></b><i class=k></i><b></b><b></b><c></c></a>").unwrap();
    assert_eq!(matching(&tree, ".k + b ~ c"), vec![6]);
    assert_eq!(matching(&tree, ".k + b + c"), Vec::<usize>::new());
    assert_eq!(matching(&tree, "b ~ b ~ c"), vec![6]);
}

#[test]
fn blanks_around_combinators_change_nothing() {
    for c in [">", "+", "~"] {
        let plain = parse_selector(&format!("div{}p", c)).unwrap();
        for text in [format!("div {} p", c), format!("  div   {}  p ", c), format!("div{} p", c)] {
            let q = parse_selector(&text).unwrap();
            assert_eq!(q.parts_right_to_left.len(), plain.parts_right_to_left.len());
            for (x, y) in q.parts_right_to_left.iter().zip(plain.parts_right_to_left.iter()) {
                assert_eq!(x.selector, y.selector);
                assert_eq!(x.relation_to_left, y.relation_to_left);
            }
        }
    }
}
