use monoid_trees::bbstree::splay_tree_array::{Monoid, SplayTree};

#[derive(Clone, Debug, PartialEq)]
struct Sum(u64);

impl Monoid for Sum {
    fn ope(&self, r: &Self) -> Self {
        Sum(self.0 + r.0)
    }

    fn ide() -> Self {
        Sum(0)
    }

    fn ope_spec(self, r: Self) -> Self {
        Sum(self.0 + r.0)
    }

    fn ide_spec() -> Self {
        Sum(0)
    }

    fn lemma_associative(_: Self, _: Self, _: Self) {}

    fn lemma_identity(_: Self) {}
}

#[derive(Clone, Debug, PartialEq)]
struct Text(String);

impl Monoid for Text {
    fn ope(&self, r: &Self) -> Self {
        Text(format!("{}{}", self.0, r.0))
    }

    fn ide() -> Self {
        Text(String::new())
    }

    fn ope_spec(self, r: Self) -> Self {
        Text(format!("{}{}", self.0, r.0))
    }

    fn ide_spec() -> Self {
        Text(String::new())
    }

    fn lemma_associative(_: Self, _: Self, _: Self) {}

    fn lemma_identity(_: Self) {}
}

fn letters(s: &str) -> SplayTree<Text> {
    let mut t = SplayTree::new();
    for (i, c) in s.chars().enumerate() {
        t.insert(i, Text(c.to_string()));
    }
    t
}

#[test]
fn splay_insert_erase_scenario() {
    let mut t = SplayTree::new();
    t.insert(0, Sum(1));
    t.insert(1, Sum(2));
    t.insert(2, Sum(3));
    t.erase(1);
    assert_eq!(*t.at(0), Sum(1));
    assert_eq!(*t.at(1), Sum(3));
    assert_eq!(t.fold(), Sum(4));
}

#[test]
fn splay_empty_fold_is_identity() {
    let t: SplayTree<Sum> = SplayTree::new();
    assert_eq!(t.fold(), Sum(0));
}

#[test]
fn splay_keeps_order_of_a_non_commutative_product() {
    let mut t = letters("abcdefghij");
    assert_eq!(t.fold(), Text("abcdefghij".to_string()));
    for (i, c) in "abcdefghij".chars().enumerate() {
        assert_eq!(*t.at(i), Text(c.to_string()));
        assert_eq!(t.fold(), Text("abcdefghij".to_string()));
    }
    for i in (0..10).rev() {
        assert_eq!(t.at(i).0.len(), 1);
    }
    assert_eq!(t.fold(), Text("abcdefghij".to_string()));
}

#[test]
fn splay_insert_in_the_middle_and_at_the_ends() {
    let mut t = letters("bd");
    t.insert(0, Text("a".to_string()));
    t.insert(2, Text("c".to_string()));
    t.insert(4, Text("e".to_string()));
    assert_eq!(t.fold(), Text("abcde".to_string()));
}

#[test]
fn splay_split_then_merge_round_trip() {
    for i in 0..=7 {
        let t = letters("abcdefg");
        let (mut l, r) = t.split(i);
        assert_eq!(l.fold(), Text("abcdefg"[..i].to_string()));
        assert_eq!(r.fold(), Text("abcdefg"[i..].to_string()));
        l.merge(r);
        assert_eq!(l.fold(), Text("abcdefg".to_string()));
    }
}

#[test]
fn splay_merge_then_split_at_the_boundary() {
    let mut a = letters("abc");
    let b = letters("defg");
    a.merge(b);
    let (l, r) = a.split(3);
    assert_eq!(l.fold(), Text("abc".to_string()));
    assert_eq!(r.fold(), Text("defg".to_string()));
}

#[test]
fn splay_erase_each_position() {
    for i in 0..5 {
        let mut t = letters("abcde");
        t.erase(i);
        let mut want = "abcde".to_string();
        want.remove(i);
        assert_eq!(t.fold(), Text(want));
    }
}

#[test]
fn splay_set_combines_with_the_stored_value() {
    let mut t = letters("abc");
    t.set(1, Text("x".to_string()));
    assert_eq!(*t.at(1), Text("bx".to_string()));
    assert_eq!(t.fold(), Text("abxc".to_string()));
    t.combine_at(0, Text("y".to_string()));
    assert_eq!(t.fold(), Text("aybxc".to_string()));
}

#[test]
fn splay_replace_at_overwrites() {
    let mut t = letters("abc");
    t.replace_at(2, Text("z".to_string()));
    assert_eq!(*t.at(2), Text("z".to_string()));
    assert_eq!(t.fold(), Text("abz".to_string()));
}

#[test]
fn splay_at_mut_reads_the_position() {
    let mut t = letters("abc");
    assert_eq!(*t.at_mut(1), Text("b".to_string()));
    assert_eq!(t.fold(), Text("abc".to_string()));
}

#[test]
fn splay_long_sequence_stays_in_order() {
    let mut t = SplayTree::new();
    for i in 0..200u64 {
        t.insert(i as usize, Sum(i));
    }
    for i in (0..200usize).step_by(7) {
        assert_eq!(*t.at(i), Sum(i as u64));
    }
    assert_eq!(t.fold(), Sum(199 * 200 / 2));
    for _ in 0..100 {
        t.erase(0);
    }
    assert_eq!(*t.at(0), Sum(100));
    assert_eq!(t.fold(), Sum(199 * 200 / 2 - 99 * 100 / 2));
}

#[test]
fn splay_at_mut_then_refresh() {
    let mut t = letters("abc");
    *t.at_mut(1) = Text("B".to_string());
    t.refresh();
    assert_eq!(t.fold(), Text("aBc".to_string()));
    assert_eq!(*t.at(1), Text("B".to_string()));
    t.insert(3, Text("d".to_string()));
    assert_eq!(t.fold(), Text("aBcd".to_string()));
}

#[test]
fn splay_fold_range() {
    let mut t = letters("abcdefgh");
    assert_eq!(t.fold_range(0, 8), Text("abcdefgh".to_string()));
    assert_eq!(t.fold_range(2, 5), Text("cde".to_string()));
    assert_eq!(t.fold_range(3, 3), Text(String::new()));
    assert_eq!(t.fold_range(7, 8), Text("h".to_string()));
    assert_eq!(t.fold_range(0, 1), Text("a".to_string()));
    assert_eq!(t.fold(), Text("abcdefgh".to_string()));
}

#[test]
fn splay_len_counts_the_values() {
    let mut t = letters("abc");
    assert_eq!(t.len(), 3);
    t.erase(0);
    assert_eq!(t.len(), 2);
    let e: SplayTree<Sum> = SplayTree::new();
    assert_eq!(e.len(), 0);
}
