use tree_visualizer::node::Node;
use tree_visualizer::parse::{parse_value, parse_values, ParseError};
use tree_visualizer::traversal::{inorder_traversal, postorder_traversal, preorder_traversal};

fn import_ok(text: &str) -> Node {
    match Node::import(text) {
        Ok(n) => n,
        Err(_) => panic!("import failed on {:?}", text),
    }
}

#[test]
fn test_insert() {
    let mut root = Node { value: 1, left: None, right: None, childs: 0 };
    root.insert(2);
    root.insert(3);
    root.insert(4);
    root.insert(5);
    root.insert(6);
    root.insert(7);
    root.insert(8);
    root.insert(9);

    println!("Preorder traversal: ");
    println!("{}", preorder_traversal(&root));
    println!("Inorder traversal: ");
    println!("{}", inorder_traversal(&root));
    println!("Postorder traversal: ");
    println!("{}", postorder_traversal(&root));

    assert_eq!(preorder_traversal(&root), "1,2,3,4,5,6,7,8,9,");
    assert_eq!(inorder_traversal(&root), "1,2,3,4,5,6,7,8,9,");
    assert_eq!(postorder_traversal(&root), "9,8,7,6,5,4,3,2,1,");
    assert_eq!(root.childs, 8);
}

#[test]
fn import_five_keys_traversals() {
    let t = import_ok("5,3,8,1,4");
    assert_eq!(inorder_traversal(&t), "1,3,4,5,8,");
    assert_eq!(preorder_traversal(&t), "5,3,1,4,8,");
    assert_eq!(postorder_traversal(&t), "1,4,3,8,5,");
}

#[test]
fn import_empty_is_zero_leaf() {
    let t = import_ok("");
    assert_eq!(t.value, 0);
    assert!(t.left.is_none());
    assert!(t.right.is_none());
    assert_eq!(t.childs, 0);
    assert!(t.search(0));
    assert!(!t.search(1));
}

#[test]
fn import_repeated_key_same_tree() {
    let a = import_ok("7,3,3,9");
    let b = import_ok("7,3,9");
    assert_eq!(preorder_traversal(&a), preorder_traversal(&b));
    assert_eq!(inorder_traversal(&a), inorder_traversal(&b));
    assert_eq!(postorder_traversal(&a), postorder_traversal(&b));
    assert_eq!(preorder_traversal(&a), "7,3,9,");
}

#[test]
fn insert_into_empty_import_matches_fresh_node() {
    let mut a = import_ok("");
    let mut b = Node::new(0);
    for v in [5, -2, 0, 7, 3] {
        a.insert(v);
        b.insert(v);
    }
    assert_eq!(preorder_traversal(&a), preorder_traversal(&b));
    assert_eq!(a.childs, b.childs);
    assert_eq!(preorder_traversal(&a), "0,-2,5,3,7,");
}

#[test]
fn inorder_is_sorted_and_distinct() {
    let t = import_ok("50,20,80,20,10,90,60,-5,80");
    assert_eq!(inorder_traversal(&t), "-5,10,20,50,60,80,90,");
}

#[test]
fn insert_present_keeps_shape() {
    let mut t = import_ok("5,3,8,1,4");
    let before = preorder_traversal(&t);
    t.insert(4);
    t.insert(5);
    t.insert(8);
    assert_eq!(preorder_traversal(&t), before);
    assert_eq!(inorder_traversal(&t), "1,3,4,5,8,");
}

#[test]
fn search_finds_every_key_and_nothing_else() {
    let t = import_ok("5,3,8,1,4");
    for v in [5, 3, 8, 1, 4] {
        assert!(t.search(v));
    }
    for v in [0, 2, 6, 7, 9, -5] {
        assert!(!t.search(v));
    }
}

#[test]
fn search_left_key_with_right_child_present() {
    let t = import_ok("5,3,8");
    assert!(t.search(3));
}

#[test]
fn insert_counts_passes() {
    let mut t = Node::new(10);
    t.insert(5);
    t.insert(15);
    t.insert(5);
    t.insert(10);
    assert_eq!(t.childs, 3);
    assert_eq!(t.left.as_ref().map(|n| n.childs), Some(0));
    assert_eq!(t.spread(), 1);
}

#[test]
fn spread_rounds_up() {
    let mut t = Node::new(0);
    assert_eq!(t.spread(), 0);
    t.childs = 3;
    assert_eq!(t.spread(), 1);
    t.childs = 4;
    assert_eq!(t.spread(), 2);
    t.childs = 7;
    assert_eq!(t.spread(), 3);
    t.childs = u64::MAX;
    assert_eq!(t.spread(), u64::MAX / 3);
}

#[test]
fn counter_saturates() {
    let mut t = Node::new(0);
    t.childs = u64::MAX;
    t.insert(1);
    assert_eq!(t.childs, u64::MAX);
    assert!(t.search(1));
}

#[test]
fn default_is_zero_leaf() {
    let t = Node::default();
    assert_eq!(t.value, 0);
    assert_eq!(preorder_traversal(&t), "0,");
}

#[test]
fn negative_and_extreme_keys_print() {
    let t = import_ok("0,-2147483648,2147483647,-7,+12");
    assert_eq!(inorder_traversal(&t), "-2147483648,-7,0,12,2147483647,");
    assert_eq!(preorder_traversal(&t), "0,-2147483648,-7,2147483647,12,");
}

#[test]
fn import_rejects_bad_items() {
    for text in ["a", "1,,2", "1,2,", ",1", "1, 2", "-", "+", "2147483648", "-2147483649", "1.5", "5,x"] {
        assert!(matches!(Node::import(text), Err(ParseError)), "{:?}", text);
    }
}

#[test]
fn parse_values_reads_list() {
    assert_eq!(parse_values("12,-3,007,+4"), Ok(vec![12, -3, 7, 4]));
    assert_eq!(parse_values("-2147483648"), Ok(vec![i32::MIN]));
    assert_eq!(parse_values("99999999999999999999"), Err(ParseError));
    assert_eq!(parse_values(""), Err(ParseError));
    assert_eq!(parse_values("٣"), Err(ParseError));
}

#[test]
fn parse_value_reads_one_numeral() {
    assert_eq!(parse_value("23"), Ok(23));
    assert_eq!(parse_value("-23"), Ok(-23));
    assert_eq!(parse_value("+0"), Ok(0));
    assert_eq!(parse_value("2147483647"), Ok(i32::MAX));
    assert_eq!(parse_value("2147483648"), Err(ParseError));
    assert_eq!(parse_value(""), Err(ParseError));
    assert_eq!(parse_value("1,2"), Err(ParseError));
    assert_eq!(parse_value(" 4"), Err(ParseError));
}
