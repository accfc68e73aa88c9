use dom_traverse::parser::parse_html_to_tree;
use dom_traverse::tree::Tree;

fn tag_of(tree: &Tree, id: usize) -> String {
    let i = tree.find_index_from_id(id).unwrap();
    tree.nodes[i].tag().to_string()
}

fn parent_of(tree: &Tree, id: usize) -> Option<usize> {
    let i = tree.find_index_from_id(id).unwrap();
    tree.nodes[i].parent()
}

fn children_of(tree: &Tree, id: usize) -> Vec<usize> {
    let i = tree.find_index_from_id(id).unwrap();
    tree.nodes[i].children().clone()
}

#[test]
fn parse_builds_document_root_and_nesting() {
    let tree = parse_html_to_tree("<div><p>Hi</p><br><img src='a.png'/></div>").unwrap();
    assert_eq!(tree.root, 0);
    assert_eq!(tree.nodes.len(), 5);
    assert_eq!(tag_of(&tree, 0), "document");
    assert_eq!(parent_of(&tree, 0), None);
    assert_eq!(tag_of(&tree, 1), "div");
    assert_eq!(tag_of(&tree, 2), "p");
    assert_eq!(tag_of(&tree, 3), "br");
    assert_eq!(tag_of(&tree, 4), "img");
    assert_eq!(children_of(&tree, 0), vec![1]);
    assert_eq!(children_of(&tree, 1), vec![2, 3, 4]);
    assert_eq!(parent_of(&tree, 4), Some(1));
    let img = &tree.nodes[4];
    assert_eq!(img.depth(), 2);
    assert_eq!(img.attrs().clone(), vec![("src".to_string(), "a.png".to_string())]);
}

#[test]
fn parse_lowercases_tags_and_keys_but_not_values() {
    let tree = parse_html_to_tree("<DIV CLASS=\"Big Box\" Data-X=Y></DIV>").unwrap();
    assert_eq!(tree.nodes.len(), 2);
    assert_eq!(tag_of(&tree, 1), "div");
    assert_eq!(
        tree.nodes[1].attrs().clone(),
        vec![
            ("class".to_string(), "Big Box".to_string()),
            ("data-x".to_string(), "Y".to_string())
        ]
    );
}

#[test]
fn parse_attribute_forms() {
    let tree = parse_html_to_tree("<a href=x data-y=\"1 2\" disabled b='q' = c>").unwrap();
    assert_eq!(tag_of(&tree, 1), "a");
    assert_eq!(
        tree.nodes[1].attrs().clone(),
        vec![
            ("href".to_string(), "x".to_string()),
            ("data-y".to_string(), "1 2".to_string()),
            ("disabled".to_string(), "".to_string()),
            ("b".to_string(), "q".to_string()),
            ("c".to_string(), "".to_string())
        ]
    );
}

#[test]
fn parse_skips_comments_and_declarations() {
    let tree = parse_html_to_tree("<!DOCTYPE html><?xml x?><!-- <p> --><span></span>").unwrap();
    assert_eq!(tree.nodes.len(), 2);
    assert_eq!(tag_of(&tree, 1), "span");
    assert_eq!(parent_of(&tree, 1), Some(0));
}

#[test]
fn parse_stops_at_unterminated_comment_or_tag() {
    let tree = parse_html_to_tree("<p><!-- oops <span>").unwrap();
    assert_eq!(tree.nodes.len(), 2);
    assert_eq!(tag_of(&tree, 1), "p");
    let tree = parse_html_to_tree("<p><div").unwrap();
    assert_eq!(tree.nodes.len(), 2);
}

#[test]
fn parse_empty_and_blank_markup() {
    let tree = parse_html_to_tree("").unwrap();
    assert_eq!(tree.nodes.len(), 1);
    assert_eq!(tag_of(&tree, 0), "document");
    let tree = parse_html_to_tree("text only <> < > </ >").unwrap();
    assert_eq!(tree.nodes.len(), 1);
}

#[test]
fn parse_void_elements_get_no_children() {
    let tree = parse_html_to_tree("<br><span></span><IMG>text<b></b>").unwrap();
    assert_eq!(tag_of(&tree, 1), "br");
    assert_eq!(tag_of(&tree, 2), "span");
    assert_eq!(tag_of(&tree, 3), "img");
    assert_eq!(tag_of(&tree, 4), "b");
    assert_eq!(children_of(&tree, 1), Vec::<usize>::new());
    assert_eq!(children_of(&tree, 3), Vec::<usize>::new());
    assert_eq!(parent_of(&tree, 2), Some(0));
    assert_eq!(parent_of(&tree, 4), Some(0));
}

#[test]
fn parse_self_closing_element_is_not_opened() {
    let tree = parse_html_to_tree("<x/><y></y>").unwrap();
    assert_eq!(tag_of(&tree, 1), "x");
    assert_eq!(parent_of(&tree, 2), Some(0));
}

#[test]
fn parse_unmatched_closing_tag_pops_to_root() {
    let tree = parse_html_to_tree("<div><p></span><em></em>").unwrap();
    assert_eq!(tag_of(&tree, 3), "em");
    assert_eq!(parent_of(&tree, 3), Some(0));
}

#[test]
fn parse_closing_tag_pops_to_matching_element() {
    let tree = parse_html_to_tree("<div><p><b></P><i></i></div><u></u>").unwrap();
    assert_eq!(tag_of(&tree, 4), "i");
    assert_eq!(parent_of(&tree, 4), Some(1));
    assert_eq!(tag_of(&tree, 5), "u");
    assert_eq!(parent_of(&tree, 5), Some(0));
}

#[test]
fn parse_ids_are_positions_and_depths_follow_parents() {
    let tree = parse_html_to_tree("<a><b><c></c></b></a><d></d>").unwrap();
    for (i, node) in tree.nodes.iter().enumerate() {
        assert_eq!(node.id(), i);
        assert_eq!(tree.find_index_from_id(i), Some(i));
        match node.parent() {
            None => assert_eq!(node.depth(), 0),
            Some(p) => {
                assert!(p < i);
                assert_eq!(node.depth(), tree.nodes[p].depth() + 1);
                assert!(tree.nodes[p].children().contains(&i));
            }
        }
    }
    assert_eq!(tree.max_depth(), 3);
}
