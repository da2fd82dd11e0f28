use tinyscript::binary_tree::BinaryTree;
use tinyscript::list::List;
use tinyscript::n_tree::NTree;

fn leaf(v: i64) -> Box<BinaryTree<i64>> {
    Box::new(BinaryTree::new(v))
}

fn list_values(l: &List<i64>) -> Vec<i64> {
    let mut out = Vec::new();
    let mut cur = l;
    loop {
        out.push(cur.value);
        match &cur.next {
            Some(n) => cur = n,
            None => return out,
        }
    }
}

#[test]
fn binary_tree_new_is_a_leaf() {
    let t = BinaryTree::new(7u32);
    assert_eq!(t.value, 7);
    assert!(t.left.is_none());
    assert!(t.right.is_none());
    assert_eq!(t.size(), 1);
    assert_eq!(t.height(), 1);
}

#[test]
fn binary_tree_size_and_height() {
    let t = BinaryTree {
        value: 2i64,
        left: Some(Box::new(BinaryTree { value: 1, left: Some(leaf(0)), right: None })),
        right: Some(leaf(3)),
    };
    assert_eq!(t.size(), 4);
    assert_eq!(t.height(), 3);
}

#[test]
fn binary_tree_to_list_is_inorder() {
    let t = BinaryTree {
        value: 2i64,
        left: Some(Box::new(BinaryTree { value: 1, left: Some(leaf(0)), right: None })),
        right: Some(leaf(3)),
    };
    let l = t.to_list();
    assert_eq!(list_values(&l), vec![0, 1, 2, 3]);
    assert!(l.is_ordered());
}

#[test]
fn binary_tree_rotate_right_keeps_inorder() {
    let t = BinaryTree {
        value: 4i64,
        left: Some(Box::new(BinaryTree { value: 2, left: Some(leaf(1)), right: Some(leaf(3)) })),
        right: Some(leaf(5)),
    };
    let before = list_values(&t.to_list());
    let r = t.rotate_right();
    assert_eq!(r.value, 2);
    assert_eq!(r.left.as_ref().unwrap().value, 1);
    let new_right = r.right.as_ref().unwrap();
    assert_eq!(new_right.value, 4);
    assert_eq!(new_right.left.as_ref().unwrap().value, 3);
    assert_eq!(new_right.right.as_ref().unwrap().value, 5);
    assert_eq!(list_values(&r.to_list()), before);
}

#[test]
fn binary_tree_rotate_left_keeps_inorder() {
    let t = BinaryTree {
        value: 2i64,
        left: Some(leaf(1)),
        right: Some(Box::new(BinaryTree { value: 4, left: Some(leaf(3)), right: Some(leaf(5)) })),
    };
    let before = list_values(&t.to_list());
    let r = t.rotate_left();
    assert_eq!(r.value, 4);
    assert_eq!(r.right.as_ref().unwrap().value, 5);
    let new_left = r.left.as_ref().unwrap();
    assert_eq!(new_left.value, 2);
    assert_eq!(new_left.left.as_ref().unwrap().value, 1);
    assert_eq!(new_left.right.as_ref().unwrap().value, 3);
    assert_eq!(list_values(&r.to_list()), before);
}

#[test]
fn list_new_append_len() {
    let mut l = List::new(1i64);
    l.append(List::new(2));
    l.append(List::new(3));
    assert_eq!(l.len(), 3);
    assert_eq!(list_values(&l), vec![1, 2, 3]);
}

#[test]
fn list_new_empty_has_one_default_value() {
    let l: List<i64> = List::new_empty();
    assert_eq!(l.len(), 1);
    assert!(l.next.is_none());
    assert_eq!(l.value, 0);
}

#[test]
fn list_is_ordered_cases() {
    let mut l = List::new(1i64);
    l.append(List::new(2));
    l.append(List::new(2));
    l.append(List::new(5));
    assert!(l.is_ordered());
    l.append(List::new(4));
    assert!(!l.is_ordered());
    assert!(List::new(9i64).is_ordered());
}

#[test]
fn binary_tree_to_string_layout() {
    let t = BinaryTree {
        value: 2u64,
        left: Some(Box::new(BinaryTree::new(1u64))),
        right: Some(Box::new(BinaryTree::new(30u64))),
    };
    assert_eq!(t.to_string(), "((,30,),2,(,1,))");
    assert_eq!(BinaryTree::new(7u64).to_string(), "(,7,)");
}

#[test]
fn list_to_string_layout() {
    let mut l = List::new(1u64);
    l.append(List::new(22));
    l.append(List::new(3));
    assert_eq!(l.to_string(), "1;22;3");
    assert_eq!(List::new(5u64).to_string(), "5");
}

#[test]
fn n_tree_size_and_height() {
    let t = NTree {
        value: 1u64,
        children: Some(vec![
            NTree { value: 2, children: Some(vec![NTree { value: 4, children: None }]) },
            NTree { value: 3, children: None },
        ]),
    };
    assert_eq!(t.size(), 4);
    assert_eq!(t.height(), 3);
    let lone = NTree { value: 9u64, children: None };
    assert_eq!(lone.size(), 1);
    assert_eq!(lone.height(), 1);
}

#[test]
fn n_tree_to_list_is_preorder() {
    let t = NTree {
        value: 1i64,
        children: Some(vec![
            NTree { value: 2, children: Some(vec![NTree { value: 4, children: None }]) },
            NTree { value: 3, children: None },
        ]),
    };
    assert_eq!(list_values(&t.to_list()), vec![1, 2, 4, 3]);
}

#[test]
fn n_tree_to_string_layout() {
    let t = NTree {
        value: 1u64,
        children: Some(vec![
            NTree { value: 12, children: Some(vec![NTree { value: 4, children: None }]) },
            NTree { value: 305, children: None },
        ]),
    };
    assert_eq!(t.to_string(), "1 ( 12 ( 4 ), 305 )");
    let lone = NTree { value: 9u64, children: None };
    assert_eq!(lone.to_string(), "9");
    let empty_children = NTree { value: 5u64, children: Some(vec![]) };
    assert_eq!(empty_children.to_string(), "5 (  )");
}
