use monoid_trees::algebra::{Associative, Magma, Unital};
use monoid_trees::bbstree::avl_tree_array::AVLTreeArray;
use monoid_trees::bbstree::node_traits::{diff, height, size, HeightNode, Link, Node, SizeNode};
use monoid_trees::bbstree::nodes::{ArrFoldNode, ArrNode};

#[derive(Clone, Debug, PartialEq)]
struct Text(String);

impl Magma for Text {
    fn op(&self, right: &Self) -> Self {
        Text(format!("{}{}", self.0, right.0))
    }

    fn op_spec(self, right: Self) -> Self {
        Text(format!("{}{}", self.0, right.0))
    }

    fn lemma_clone(_: Self, _: Self) {}
}

impl Associative for Text {
    fn lemma_associative(_: Self, _: Self, _: Self) {}
}

impl Unital for Text {
    fn identity() -> Self {
        Text(String::new())
    }

    fn identity_spec() -> Self {
        Text(String::new())
    }

    fn lemma_identity(_: Self) {}
}

fn letters(s: &str) -> AVLTreeArray<ArrFoldNode<Text>> {
    let mut t = AVLTreeArray::none();
    for c in s.chars() {
        t = t.merge(AVLTreeArray::new(ArrFoldNode::new(Text(c.to_string()))));
    }
    t
}

fn numbers(n: usize) -> AVLTreeArray<ArrNode<usize>> {
    let mut t = AVLTreeArray::none();
    for k in 0..n {
        t = t.merge(AVLTreeArray::new(ArrNode::new(k)));
    }
    t
}

fn balanced(link: &Link<ArrNode<usize>>) -> bool {
    match link {
        None => true,
        Some(node) => {
            let l = node.child_imut(0);
            let r = node.child_imut(1);
            let d = height(l) - height(r);
            let h = if height(l) >= height(r) { height(l) } else { height(r) };
            -1 <= d
                && d <= 1
                && node.diff() == d
                && node.height() == h + 1
                && node.size() == size(l) + size(r) + 1
                && balanced(l)
                && balanced(r)
        }
    }
}

#[test]
fn avl_new_node_folds_to_its_value() {
    let t = AVLTreeArray::new(ArrFoldNode::new(Text("x".to_string())));
    assert_eq!(t.fold(), Text("x".to_string()));
}

#[test]
fn avl_fold_of_empty_is_identity() {
    let t: AVLTreeArray<ArrFoldNode<Text>> = AVLTreeArray::none();
    assert_eq!(t.fold(), Text(String::new()));
}

#[test]
fn avl_split_of_empty_gives_two_empties() {
    let t: AVLTreeArray<ArrFoldNode<Text>> = AVLTreeArray::none();
    let (l, r) = t.split(3);
    assert_eq!(l.fold(), Text(String::new()));
    assert_eq!(r.fold(), Text(String::new()));
}

#[test]
fn avl_split_then_merge_round_trip() {
    for i in 0..=9 {
        let t = letters("abcdefghi");
        let (l, r) = t.split(i);
        assert_eq!(l.fold(), Text("abcdefghi"[..i].to_string()));
        assert_eq!(r.fold(), Text("abcdefghi"[i..].to_string()));
        let t = l.merge(r);
        assert_eq!(t.fold(), Text("abcdefghi".to_string()));
        for (k, c) in "abcdefghi".chars().enumerate() {
            assert_eq!(*t.at(k), Text(c.to_string()));
        }
    }
}

#[test]
fn avl_merge_then_split_at_the_boundary() {
    let t = letters("abcd").merge(letters("efghijk"));
    let (l, r) = t.split(4);
    assert_eq!(l.fold(), Text("abcd".to_string()));
    assert_eq!(r.fold(), Text("efghijk".to_string()));
}

#[test]
fn avl_merge_of_a_short_and_a_long_tree() {
    let t = letters("a").merge(letters("bcdefghijklmnopqrstuvwxyz"));
    assert_eq!(t.fold(), Text("abcdefghijklmnopqrstuvwxyz".to_string()));
    let t = letters("abcdefghijklmnopqrstuvwxy").merge(letters("z"));
    assert_eq!(t.fold(), Text("abcdefghijklmnopqrstuvwxyz".to_string()));
}

#[test]
fn avl_at_set_replaces_and_refreshes_the_fold() {
    let mut t = letters("abcde");
    t.at_set(0, Text("A".to_string()));
    t.at_set(2, Text("C".to_string()));
    t.at_set(4, Text("E".to_string()));
    assert_eq!(t.fold(), Text("AbCdE".to_string()));
    assert_eq!(*t.at(2), Text("C".to_string()));
}

#[test]
fn avl_thousand_appends_stay_in_order() {
    let t = numbers(1000);
    for k in (0..1000).step_by(37) {
        assert_eq!(*t.at(k), k);
    }
    let (l, r) = t.split(500);
    assert_eq!(*l.at(499), 499);
    assert_eq!(*r.at(0), 500);
    let (m, r) = r.split(1);
    assert_eq!(*m.at(0), 500);
    assert_eq!(*r.at(0), 501);
    assert_eq!(*r.at(498), 999);
}

#[test]
fn node_cut_and_set_keep_the_caches() {
    let mut root = Box::new(ArrNode::new(1usize));
    root.set(Some(Box::new(ArrNode::new(0usize))), 0);
    root.set(Some(Box::new(ArrNode::new(2usize))), 1);
    let link = Some(root);
    assert!(balanced(&link));
    assert_eq!(size(&link), 3);
    assert_eq!(height(&link), 2);
    assert_eq!(diff(&link), 0);
    let mut root = link.unwrap();
    let right = root.cut(1);
    assert_eq!(*right.unwrap().val(), 2);
    assert_eq!(root.size(), 2);
    assert_eq!(root.height(), 2);
    assert_eq!(root.diff(), 1);
    *root.val_mut() = 7;
    assert_eq!(*root.val(), 7);
    assert!(root.child(1).is_none());
    let none: Link<ArrNode<usize>> = None;
    assert_eq!(size(&none), 0);
    assert_eq!(height(&none), 0);
    assert_eq!(diff(&none), 0);
}

#[test]
fn avl_six_appends_have_size_six_and_stay_balanced() {
    let mut t = AVLTreeArray::none();
    assert_eq!(t.len(), 0);
    assert_eq!(t.height(), 0);
    let mut heights = Vec::new();
    for k in 0..6usize {
        t = t.merge(AVLTreeArray::new(ArrNode::new(k)));
        assert_eq!(t.len(), k + 1);
        heights.push(t.height());
    }
    assert_eq!(heights, vec![1, 2, 2, 3, 3, 3]);
    for k in 0..6usize {
        assert_eq!(*t.at(k), k);
    }
}

#[test]
fn avl_height_stays_logarithmic() {
    let t = numbers(1000);
    assert_eq!(t.len(), 1000);
    assert!(t.height() >= 10);
    assert!(t.height() <= 14);
    let (l, r) = t.split(333);
    assert_eq!(l.len(), 333);
    assert_eq!(r.len(), 667);
    assert!(l.height() <= 12);
    assert!(r.height() <= 13);
    let t = r.merge(l);
    assert_eq!(t.len(), 1000);
    assert!(t.height() <= 14);
    assert_eq!(*t.at(0), 333);
    assert_eq!(*t.at(999), 332);
}
