use monoid_trees::algebra::{Associative, Effector, LinearEffector, Magma, Reversible, Unital};
use monoid_trees::lctree::effectnode::EffNode;
use monoid_trees::lctree::forest::Forest;
use monoid_trees::lctree::lctree::LctNode;
use monoid_trees::lctree::valnode::ValNode;

#[derive(Clone, Debug)]
struct Sm(usize);

impl Magma for Sm {
    fn op(&self, right: &Self) -> Self {
        Sm(self.0 + right.0)
    }

    fn op_spec(self, right: Self) -> Self {
        Sm(self.0 + right.0)
    }

    fn lemma_clone(_: Self, _: Self) {}
}

impl Associative for Sm {
    fn lemma_associative(_: Self, _: Self, _: Self) {}
}

impl Unital for Sm {
    fn identity() -> Self {
        Sm(0)
    }

    fn identity_spec() -> Self {
        Sm(0)
    }

    fn lemma_identity(_: Self) {}
}

impl Reversible for Sm {
    fn lemma_commutes(_: Self, _: Self) {}
}

#[derive(Clone, Debug)]
struct Aq(usize);

impl Magma for Aq {
    fn op(&self, right: &Self) -> Self {
        Aq(self.0 + right.0)
    }

    fn op_spec(self, right: Self) -> Self {
        Aq(self.0 + right.0)
    }

    fn lemma_clone(_: Self, _: Self) {}
}

impl Associative for Aq {
    fn lemma_associative(_: Self, _: Self, _: Self) {}
}

impl Unital for Aq {
    fn identity() -> Self {
        Aq(0)
    }

    fn identity_spec() -> Self {
        Aq(0)
    }

    fn lemma_identity(_: Self) {}
}

impl Effector for Aq {
    type Target = Sm;

    fn effect(&self, t: &Self::Target, s: usize) -> Self::Target {
        Sm(t.0 + self.0 * s)
    }

    fn effect_spec(self, _: Sm, _: vstd::prelude::nat) -> Sm {
        unreachable!()
    }

    fn lemma_effect_composes(_: Self, _: Self, _: Sm, _: vstd::prelude::nat) {}
}

impl LinearEffector for Aq {
    fn lemma_identity_effect(_: Sm, _: vstd::prelude::nat) {}

    fn lemma_effect_distributes(_: Self, _: Sm, _: vstd::prelude::nat, _: Sm, _: vstd::prelude::nat) {}
}

#[derive(Clone, Copy)]
enum Query {
    Update(usize, usize),
    Get(usize, usize),
}

fn plain_forest(links: &[Vec<usize>]) -> (Forest<ValNode<usize>>, Vec<LctNode>) {
    let mut forest = Forest::new();
    let nodes: Vec<LctNode> = (0..links.len()).map(|i| LctNode::new(&mut forest, i)).collect();
    for i in 0..links.len() {
        for v in links[i].iter() {
            nodes[*v].link(&mut forest, &nodes[i]);
        }
    }
    (forest, nodes)
}

fn sum_forest(links: &[Vec<usize>], values: &[usize]) -> (Forest<EffNode<Sm, Aq>>, Vec<LctNode>) {
    let mut forest = Forest::new();
    let nodes: Vec<LctNode> =
        (0..links.len()).map(|i| LctNode::new(&mut forest, Sm(values[i]))).collect();
    for i in 0..links.len() {
        for v in links[i].iter() {
            nodes[*v].link(&mut forest, &nodes[i]);
        }
    }
    (forest, nodes)
}

#[test]
fn lca_test() {
    let links = [vec![1, 2, 3], vec![4, 5], vec![], vec![], vec![], vec![6, 7], vec![], vec![]];
    let query = [(4, 6, 1), (4, 7, 1), (4, 3, 0), (5, 2, 0)];
    let (mut forest, nodes) = plain_forest(&links);
    for (u, v, ans) in query.iter() {
        let found = nodes[*u].lca(&mut forest, &nodes[*v]).unwrap();
        let got = *found.value(&mut forest);
        let want = *nodes[*ans].value(&mut forest);
        assert_eq!(got, want);
    }
}

#[test]
fn test_path_query_1() {
    let n = 6;
    let links = [vec![1, 2], vec![3, 5], vec![], vec![], vec![], vec![4]];
    let query = [
        Query::Get(1, 0),
        Query::Update(3, 10),
        Query::Get(2, 0),
        Query::Update(4, 20),
        Query::Get(3, 10),
        Query::Update(5, 40),
        Query::Get(4, 60),
    ];
    let (mut forest, mut nodes) = sum_forest(&links, &vec![0; n]);
    for q in query.iter() {
        match *q {
            Query::Update(v, w) => {
                let val = nodes[v].value(&mut forest).clone();
                *nodes[v].value_mut(&mut forest) = val.op(&Sm(w));
            }
            Query::Get(v, ans) => {
                assert_eq!(nodes[v].fold(&mut forest).0, ans);
            }
        }
    }
}

#[test]
fn test_path_query_2() {
    let n = 6;
    let links = [vec![1, 2], vec![3, 5], vec![], vec![], vec![], vec![4]];
    let query = [
        Query::Get(1, 0),
        Query::Update(3, 10),
        Query::Get(2, 0),
        Query::Update(4, 20),
        Query::Get(3, 40),
        Query::Update(5, 40),
        Query::Get(4, 150),
    ];
    let (mut forest, mut nodes) = sum_forest(&links, &vec![0; n]);
    for q in query.iter() {
        match *q {
            Query::Update(v, w) => {
                nodes[v].effect(&mut forest, Aq(w));
            }
            Query::Get(v, ans) => {
                let total = nodes[v].fold(&mut forest).0;
                let at_root = nodes[0].value(&mut forest).0;
                assert_eq!(total - at_root, ans);
            }
        }
    }
}

#[test]
fn lct_fold_follows_evert() {
    let links = [vec![1], vec![2], vec![3], vec![4], vec![]];
    let (mut forest, nodes) = sum_forest(&links, &[0, 1, 2, 3, 4]);
    assert_eq!(nodes[4].fold(&mut forest).0, 10);
    nodes[2].evert(&mut forest);
    assert_eq!(nodes[4].fold(&mut forest).0, 9);
    assert_eq!(nodes[0].fold(&mut forest).0, 3);
    assert_eq!(nodes[2].fold(&mut forest).0, 2);
}

#[test]
fn lct_evert_twice_changes_nothing_more() {
    let links = [vec![1, 2], vec![3], vec![], vec![]];
    let (mut forest, nodes) = sum_forest(&links, &[1, 10, 100, 1000]);
    nodes[3].evert(&mut forest);
    let once: Vec<usize> = (0..4).map(|i| nodes[i].fold(&mut forest).0).collect();
    nodes[3].evert(&mut forest);
    let twice: Vec<usize> = (0..4).map(|i| nodes[i].fold(&mut forest).0).collect();
    assert_eq!(once, vec![1011, 1010, 1111, 1000]);
    assert_eq!(once, twice);
}

#[test]
fn lct_link_then_cut_connectivity() {
    let mut forest: Forest<ValNode<u32>> = Forest::new();
    let p = LctNode::new(&mut forest, 7);
    let c = LctNode::new(&mut forest, 8);
    assert!(c.lca(&mut forest, &p).is_none());
    c.link(&mut forest, &p);
    assert!(c.lca(&mut forest, &p) == Some(p));
    assert!(p.lca(&mut forest, &c) == Some(p));
    c.cut(&mut forest);
    assert!(c.lca(&mut forest, &p).is_none());
    assert!(p.lca(&mut forest, &c).is_none());
}

#[test]
fn lct_lca_of_a_cell_with_itself_and_with_an_ancestor() {
    let links = [vec![1], vec![2, 3], vec![], vec![]];
    let (mut forest, nodes) = plain_forest(&links);
    assert!(nodes[2].lca(&mut forest, &nodes[2]) == Some(nodes[2]));
    assert!(nodes[2].lca(&mut forest, &nodes[1]) == Some(nodes[1]));
    assert!(nodes[0].lca(&mut forest, &nodes[3]) == Some(nodes[0]));
    assert!(nodes[2].lca(&mut forest, &nodes[3]) == Some(nodes[1]));
}

#[test]
fn lct_lca_after_evert() {
    let links = [vec![1], vec![2, 3], vec![], vec![]];
    let (mut forest, nodes) = plain_forest(&links);
    nodes[2].evert(&mut forest);
    assert!(nodes[0].lca(&mut forest, &nodes[3]) == Some(nodes[1]));
    assert!(nodes[0].lca(&mut forest, &nodes[1]) == Some(nodes[1]));
    assert!(nodes[3].lca(&mut forest, &nodes[2]) == Some(nodes[2]));
}

#[test]
fn lct_cut_splits_the_fold() {
    let links = [vec![1], vec![2], vec![3], vec![]];
    let (mut forest, nodes) = sum_forest(&links, &[1, 2, 4, 8]);
    assert_eq!(nodes[3].fold(&mut forest).0, 15);
    nodes[2].cut(&mut forest);
    assert_eq!(nodes[3].fold(&mut forest).0, 12);
    assert_eq!(nodes[1].fold(&mut forest).0, 3);
    assert!(nodes[3].lca(&mut forest, &nodes[0]).is_none());
}

#[test]
fn lct_effect_reaches_only_the_path() {
    let links = [vec![1, 2], vec![3], vec![], vec![]];
    let (mut forest, mut nodes) = sum_forest(&links, &[1, 1, 1, 1]);
    nodes[3].effect(&mut forest, Aq(5));
    assert_eq!(nodes[0].value(&mut forest).0, 6);
    assert_eq!(nodes[1].value(&mut forest).0, 6);
    assert_eq!(nodes[3].value(&mut forest).0, 6);
    assert_eq!(nodes[2].value(&mut forest).0, 1);
    assert_eq!(nodes[2].fold(&mut forest).0, 7);
    assert_eq!(nodes[3].fold(&mut forest).0, 18);
}

#[test]
fn lct_two_effects_equal_their_composite() {
    let links = [vec![1], vec![2], vec![]];
    let (mut one, mut a) = sum_forest(&links, &[3, 4, 5]);
    let (mut two, mut b) = sum_forest(&links, &[3, 4, 5]);
    a[2].effect(&mut one, Aq(2));
    a[2].effect(&mut one, Aq(7));
    b[2].effect(&mut two, Aq(2).op(&Aq(7)));
    for i in 0..3 {
        assert_eq!(a[i].fold(&mut one).0, b[i].fold(&mut two).0);
    }
    assert_eq!(a[2].fold(&mut one).0, 12 + 27);
}

#[test]
fn lct_long_path_and_many_everts() {
    let n = 200;
    let mut links: Vec<Vec<usize>> = (0..n).map(|i| if i + 1 < n { vec![i + 1] } else { vec![] }).collect();
    links[n - 1] = vec![];
    let values: Vec<usize> = (0..n).collect();
    let (mut forest, nodes) = sum_forest(&links, &values);
    assert_eq!(nodes[n - 1].fold(&mut forest).0, n * (n - 1) / 2);
    for r in [17usize, 120, 3, 199, 0] {
        nodes[r].evert(&mut forest);
        for v in [0usize, 50, 150, 199] {
            let (lo, hi) = if r <= v { (r, v) } else { (v, r) };
            let want: usize = (lo..=hi).sum();
            assert_eq!(nodes[v].fold(&mut forest).0, want);
        }
    }
}
