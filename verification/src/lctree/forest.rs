//! The arena of forest cells and the engine that restructures it: every tree of
//! the forest is cut into preferred paths, each preferred path is kept in a splay
//! tree ordered by depth, and the root of such a splay tree points at the forest
//! parent of the top of its path.
use vstd::prelude::*;
use crate::lctree::model::{
    common_prefix, cut_off, everted, in_subtree, lca_of, lemma_common_prefix, lemma_common_prefix_is, linked,
    path_ok, paths_wf, step_ok,
};
use crate::algebra::{fold_seq, Effector, Magma, Monoid, Unital};
use crate::lctree::model::{acted_on, values_on};
use crate::lctree::node_traits::{EffectNode, Link, Node};

verus! {

/// One cell of the arena: the links of the splay tree it is in, the flag of a
/// reversal that its children have not received yet, and its data.
struct Cell<N> {
    ch0: Link,
    ch1: Link,
    par: Link,
    rev: bool,
    node: N,
}

/// Where a cell stands in the forest: the preferred path it is on, its index on
/// that path, the forest parent of the top of the path, and the path from the
/// root of its tree down to the cell.
struct Pos {
    path: Seq<int>,
    tp: int,
    ppar: Option<int>,
    rpath: Seq<int>,
}

/// Where a cell stands in its splay tree: the interval of path indices that its
/// subtree covers, whether a reversal from above has yet to reach it, and the
/// action from above that has yet to reach it.
struct Aux<L> {
    lo: int,
    hi: int,
    q: bool,
    acc: L,
}

/// A link as a mathematical integer.
pub open spec fn link_int(l: Link) -> Option<int> {
    match l {
        Some(k) => Some(k as int),
        None => None,
    }
}

/// The left child of cell `x`.
spec fn ch0_of<N>(cells: Seq<Cell<N>>, x: int) -> Option<int> {
    link_int(cells[x].ch0)
}

/// The right child of cell `x`.
spec fn ch1_of<N>(cells: Seq<Cell<N>>, x: int) -> Option<int> {
    link_int(cells[x].ch1)
}

/// The parent link of cell `x`.
spec fn par_of<N>(cells: Seq<Cell<N>>, x: int) -> Option<int> {
    link_int(cells[x].par)
}

/// Whether a reversal is pending at cell `x`.
spec fn rev_of<N>(cells: Seq<Cell<N>>, x: int) -> bool {
    cells[x].rev
}

/// The data of cell `x`.
spec fn node_of<N>(cells: Seq<Cell<N>>, x: int) -> N {
    cells[x].node
}

/// `x` is a child of `p` in a splay tree.
spec fn is_child<N>(cells: Seq<Cell<N>>, p: int, x: int) -> bool {
    ch0_of(cells, p) == Some(x) || ch1_of(cells, p) == Some(x)
}

/// `x` is the root of its splay tree: it has no parent link, or its parent link
/// is not answered by a child link.
spec fn aux_root<N>(cells: Seq<Cell<N>>, x: int) -> bool {
    match par_of(cells, x) {
        None => true,
        Some(p) => !is_child(cells, p, x),
    }
}

/// The child that covers the lower path indices.
spec fn low_child<N: Node>(cells: Seq<Cell<N>>, aux: Seq<Aux<N::Lazy>>, x: int) -> Option<int> {
    if aux[x].q {
        ch1_of(cells, x)
    } else {
        ch0_of(cells, x)
    }
}

/// The child that covers the higher path indices.
spec fn high_child<N: Node>(cells: Seq<Cell<N>>, aux: Seq<Aux<N::Lazy>>, x: int) -> Option<int> {
    if aux[x].q {
        ch0_of(cells, x)
    } else {
        ch1_of(cells, x)
    }
}

/// The child link `k` of `x` covers the path indices from `lo` up to `hi`.
spec fn child_ok<N: Node>(
    cells: Seq<Cell<N>>,
    pos: Seq<Pos>,
    aux: Seq<Aux<N::Lazy>>,
    x: int,
    k: Option<int>,
    lo: int,
    hi: int,
) -> bool {
    match k {
        None => lo == hi,
        Some(k) => {
            &&& 0 <= k < cells.len()
            &&& par_of(cells, k) == Some(x)
            &&& pos[k].path == pos[x].path
            &&& aux[k].lo == lo
            &&& aux[k].hi == hi
            &&& aux[k].q == (aux[x].q != rev_of(cells, x))
            &&& aux[k].acc == N::lazy_then(node_of(cells, x).lazy_spec(), aux[x].acc)
        },
    }
}

/// What a parent reads of a child: the child's summary under the parent's
/// pending action.
spec fn child_sum<N: Node>(cells: Seq<Cell<N>>, x: int, k: Option<int>) -> N::Summary {
    match k {
        None => N::sum_unit(),
        Some(k) => N::act_sum(
            node_of(cells, x).lazy_spec(),
            node_of(cells, k).summary_spec(),
            node_of(cells, k).size_spec() as nat,
        ),
    }
}

/// The caches of `x` agree with those of its children.
spec fn fresh<N: Node>(cells: Seq<Cell<N>>, aux: Seq<Aux<N::Lazy>>, x: int) -> bool {
    &&& node_of(cells, x).size_spec() == aux[x].hi - aux[x].lo
    &&& node_of(cells, x).summary_spec() == N::sum_join(
        N::sum_join(child_sum(cells, x, ch0_of(cells, x)), N::sum_of(node_of(cells, x).value_spec())),
        child_sum(cells, x, ch1_of(cells, x)),
    )
}

/// The invariant of one cell in its splay tree.
spec fn node_inv<N: Node>(cells: Seq<Cell<N>>, pos: Seq<Pos>, aux: Seq<Aux<N::Lazy>>, x: int) -> bool {
    &&& 0 <= aux[x].lo <= pos[x].tp < aux[x].hi <= pos[x].path.len()
    &&& child_ok(cells, pos, aux, x, low_child(cells, aux, x), aux[x].lo, pos[x].tp)
    &&& child_ok(cells, pos, aux, x, high_child(cells, aux, x), pos[x].tp + 1, aux[x].hi)
    &&& (match par_of(cells, x) {
        Some(p) => 0 <= p < cells.len(),
        None => true,
    })
    &&& (aux_root(cells, x) ==> {
        &&& aux[x].lo == 0
        &&& aux[x].hi == pos[x].path.len()
        &&& !aux[x].q
        &&& aux[x].acc == N::lazy_id()
        &&& pos[x].ppar == par_of(cells, x)
    })
    &&& (!aux_root(cells, x) ==> fresh(cells, aux, x))
}

/// The invariant of one cell on its preferred path.
spec fn path_inv(pos: Seq<Pos>, x: int) -> bool {
    &&& 0 <= pos[x].tp < pos[x].path.len()
    &&& pos[x].path[pos[x].tp] == x
    &&& (forall|j: int|
        0 <= j < pos[x].path.len() ==> {
            let w = #[trigger] pos[x].path[j];
            &&& 0 <= w < pos.len()
            &&& pos[w].path == pos[x].path
            &&& pos[w].tp == j
            &&& pos[w].ppar == pos[x].ppar
        })
    &&& (match pos[x].ppar {
        Some(p) => 0 <= p < pos.len(),
        None => true,
    })
}

/// The forest parent of a cell: the cell before it on its preferred path, or the
/// parent of the path when it is the top.
spec fn real_parent(pos: Seq<Pos>, x: int) -> Option<int> {
    if pos[x].tp > 0 {
        Some(pos[x].path[pos[x].tp - 1])
    } else {
        pos[x].ppar
    }
}

/// The path from the root to a cell is the path to its forest parent and the
/// cell.
spec fn rpath_inv(pos: Seq<Pos>, x: int) -> bool {
    match real_parent(pos, x) {
        Some(p) => pos[x].rpath == pos[p].rpath.push(x),
        None => pos[x].rpath == seq![x],
    }
}

/// The invariant of the arena.
spec fn forest_inv<N: Node>(cells: Seq<Cell<N>>, pos: Seq<Pos>, aux: Seq<Aux<N::Lazy>>) -> bool {
    &&& cells.len() == pos.len()
    &&& cells.len() == aux.len()
    &&& forall|x: int| 0 <= x < cells.len() ==> #[trigger] node_inv(cells, pos, aux, x)
    &&& forall|x: int| 0 <= x < cells.len() ==> #[trigger] path_inv(pos, x)
    &&& forall|x: int| 0 <= x < cells.len() ==> #[trigger] rpath_inv(pos, x)
}

/// For each cell, its value with every pending action applied.
spec fn values_of<N: Node>(cells: Seq<Cell<N>>, aux: Seq<Aux<N::Lazy>>) -> Seq<N::Value> {
    Seq::new(cells.len(), |x: int| N::act(aux[x].acc, node_of(cells, x).value_spec()))
}

/// The arena of a link/cut forest.
pub struct Forest<N: Node> {
    cells: Vec<Cell<N>>,
    pos: Ghost<Seq<Pos>>,
    aux: Ghost<Seq<Aux<N::Lazy>>>,
}

impl<N: Node> Forest<N> {
    /// The invariant of the forest.
    pub closed spec fn wf(&self) -> bool {
        forest_inv(self.cells@, self.pos@, self.aux@)
    }

    /// The number of cells.
    pub closed spec fn len(&self) -> nat {
        self.cells@.len()
    }

    /// For each cell, the cells from the root of its tree down to it.
    pub closed spec fn paths(&self) -> Seq<Seq<int>> {
        Seq::new(self.cells@.len(), |x: int| self.pos@[x].rpath)
    }

    /// For each cell, its value with every pending action applied.
    pub closed spec fn values(&self) -> Seq<N::Value> {
        values_of(self.cells@, self.aux@)
    }

    /// A forest without cells.
    pub fn new() -> (r: Self)
        ensures
            r.wf(),
            r.len() == 0,
    {
        Forest { cells: Vec::new(), pos: Ghost(Seq::empty()), aux: Ghost(Seq::empty()) }
    }
}

/// The true value of a cell: its stored value under the action that has yet to
/// reach it.
spec fn true_value<N: Node>(cells: Seq<Cell<N>>, aux: Seq<Aux<N::Lazy>>, x: int) -> N::Value {
    N::act(aux[x].acc, node_of(cells, x).value_spec())
}

/// The two arenas have the same links, up to the order of the two children of a
/// cell.
spec fn same_links<N>(a: Seq<Cell<N>>, b: Seq<Cell<N>>) -> bool {
    &&& a.len() == b.len()
    &&& forall|w: int|
        0 <= w < a.len() ==> {
            &&& #[trigger] par_of(b, w) == par_of(a, w)
            &&& ((ch0_of(b, w) == ch0_of(a, w) && ch1_of(b, w) == ch1_of(a, w)) || (ch0_of(b, w)
                == ch1_of(a, w) && ch1_of(b, w) == ch0_of(a, w)))
        }
}

/// The two arenas hold the same true values.
spec fn same_values<N: Node>(
    a: Seq<Cell<N>>,
    aa: Seq<Aux<N::Lazy>>,
    b: Seq<Cell<N>>,
    ba: Seq<Aux<N::Lazy>>,
) -> bool {
    forall|w: int| 0 <= w < a.len() ==> #[trigger] true_value(b, ba, w) == true_value(a, aa, w)
}

/// A child of a cell is another cell, lies on the same path, and covers an
/// interval inside its parent's.
proof fn lemma_child<N: Node>(cells: Seq<Cell<N>>, pos: Seq<Pos>, aux: Seq<Aux<N::Lazy>>, x: int, k: int)
    requires
        forest_inv(cells, pos, aux),
        0 <= x < cells.len(),
        is_child(cells, x, k),
    ensures
        0 <= k < cells.len(),
        k != x,
        par_of(cells, k) == Some(x),
        !aux_root(cells, k),
        pos[k].path == pos[x].path,
        aux[x].lo <= aux[k].lo,
        aux[k].hi <= aux[x].hi,
        aux[k].hi - aux[k].lo < aux[x].hi - aux[x].lo,
        aux[k].q == (aux[x].q != rev_of(cells, x)),
        aux[k].acc == N::lazy_then(node_of(cells, x).lazy_spec(), aux[x].acc),
        (aux[k].lo == aux[x].lo && aux[k].hi == pos[x].tp) || (aux[k].lo == pos[x].tp + 1 && aux[k].hi
            == aux[x].hi),
        fresh(cells, aux, k),
{
    assert(node_inv(cells, pos, aux, x));
    assert(node_inv(cells, pos, aux, k));
}

/// The two children of a cell are different cells.
proof fn lemma_children_differ<N: Node>(cells: Seq<Cell<N>>, pos: Seq<Pos>, aux: Seq<Aux<N::Lazy>>, x: int)
    requires
        forest_inv(cells, pos, aux),
        0 <= x < cells.len(),
        ch0_of(cells, x) is Some,
    ensures
        ch0_of(cells, x) != ch1_of(cells, x),
{
    assert(node_inv(cells, pos, aux, x));
    let k = ch0_of(cells, x).unwrap();
    assert(node_inv(cells, pos, aux, k));
}

impl<N: Node> Forest<N> {
    /// The parent link of cell `x`: its parent in its splay tree, or, at the root
    /// of a splay tree, the forest parent of the top of the path.
    pub closed spec fn parent_link(&self, x: int) -> Option<int> {
        par_of(self.cells@, x)
    }

    /// The child of cell `x` on side `dir` in its splay tree.
    pub closed spec fn child_link(&self, x: int, dir: int) -> Option<int> {
        if dir == 0 {
            ch0_of(self.cells@, x)
        } else {
            ch1_of(self.cells@, x)
        }
    }

    /// `x` is the root of its splay tree.
    pub closed spec fn is_aux_root(&self, x: int) -> bool {
        aux_root(self.cells@, x)
    }

    /// Nothing is pending at `x`: no reversal and no action.
    pub closed spec fn pushed(&self, x: int) -> bool {
        !rev_of(self.cells@, x) && node_of(self.cells@, x).lazy_spec() == N::lazy_id()
    }

    /// The caches of `x` agree with those of its children.
    pub closed spec fn is_fresh(&self, x: int) -> bool {
        fresh(self.cells@, self.aux@, x)
    }
}

/// Whether `t` is the root of its splay tree.
fn is_root<N: Node>(f: &Forest<N>, t: usize) -> (r: bool)
    requires
        f.wf(),
        t < f.len(),
    ensures
        r == f.is_aux_root(t as int),
{
    proof {
        assert(node_inv(f.cells@, f.pos@, f.aux@, t as int));
    }
    match f.cells[t].par {
        None => true,
        Some(p) => {
            (match f.cells[p].ch0 {
                None => true,
                Some(left) => left != t,
            }) && (match f.cells[p].ch1 {
                None => true,
                Some(right) => right != t,
            })
        },
    }
}

/// The side on which `child` hangs under `parent`, if it does.
fn parent_dir<N: Node>(f: &Forest<N>, parent: Link, child: usize) -> (r: Option<usize>)
    requires
        f.wf(),
        child < f.len(),
        match parent {
            Some(p) => p < f.len(),
            None => true,
        },
    ensures
        match r {
            Some(d) => parent is Some && d < 2 && f.child_link(parent.unwrap() as int, d as int) == Some(
                child as int,
            ),
            None => parent is None || !is_child(f.cells@, parent.unwrap() as int, child as int),
        },
{
    match parent {
        None => None,
        Some(p) => {
            proof {
                if ch0_of(f.cells@, p as int) is Some {
                    lemma_children_differ(f.cells@, f.pos@, f.aux@, p as int);
                }
            }
            if f.cells[p].ch0 == Some(child) {
                Some(0)
            } else if f.cells[p].ch1 == Some(child) {
                Some(1)
            } else {
                None
            }
        },
    }
}

/// Toggles the reversal of the subtree of `k`: its children change sides and the
/// flag for their own children flips.
fn reverse<N: Node>(f: &mut Forest<N>, k: usize)
    requires
        k < old(f).cells@.len(),
    ensures
        final(f).pos@ == old(f).pos@,
        final(f).aux@ == old(f).aux@,
        final(f).cells@.len() == old(f).cells@.len(),
        forall|w: int| 0 <= w < old(f).cells@.len() && w != k ==> final(f).cells@[w] == old(f).cells@[w],
        final(f).cells@[k as int].ch0 == old(f).cells@[k as int].ch1,
        final(f).cells@[k as int].ch1 == old(f).cells@[k as int].ch0,
        final(f).cells@[k as int].par == old(f).cells@[k as int].par,
        final(f).cells@[k as int].rev == !old(f).cells@[k as int].rev,
        final(f).cells@[k as int].node == old(f).cells@[k as int].node,
{
    let c0 = f.cells[k].ch0;
    let c1 = f.cells[k].ch1;
    let rev = f.cells[k].rev;
    f.cells[k].ch0 = c1;
    f.cells[k].ch1 = c0;
    f.cells[k].rev = !rev;
}

/// Hands the child `k` what was pending at its parent: the action `lz` and, if
/// `rev` is set, a reversal.
fn receive<N: Node>(f: &mut Forest<N>, k: usize, lz: &N::Lazy, rev: bool)
    requires
        k < old(f).cells@.len(),
    ensures
        final(f).pos@ == old(f).pos@,
        final(f).aux@ == old(f).aux@,
        final(f).cells@.len() == old(f).cells@.len(),
        forall|w: int| 0 <= w < old(f).cells@.len() && w != k ==> final(f).cells@[w] == old(f).cells@[w],
        final(f).cells@[k as int].par == old(f).cells@[k as int].par,
        final(f).cells@[k as int].rev == (old(f).cells@[k as int].rev != rev),
        final(f).cells@[k as int].ch0 == if rev {
            old(f).cells@[k as int].ch1
        } else {
            old(f).cells@[k as int].ch0
        },
        final(f).cells@[k as int].ch1 == if rev {
            old(f).cells@[k as int].ch0
        } else {
            old(f).cells@[k as int].ch1
        },
        final(f).cells@[k as int].node.value_spec() == N::act(*lz, old(f).cells@[k as int].node.value_spec()),
        final(f).cells@[k as int].node.summary_spec() == N::act_sum(
            *lz,
            old(f).cells@[k as int].node.summary_spec(),
            old(f).cells@[k as int].node.size_spec() as nat,
        ),
        final(f).cells@[k as int].node.lazy_spec() == N::lazy_then(
            old(f).cells@[k as int].node.lazy_spec(),
            *lz,
        ),
        final(f).cells@[k as int].node.size_spec() == old(f).cells@[k as int].node.size_spec(),
{
    f.cells[k].node.apply(lz);
    if rev {
        reverse(f, k);
    }
}

/// What `receive` does to cell `k`.
spec fn received<N: Node>(c: Seq<Cell<N>>, c2: Seq<Cell<N>>, k: int, lz: N::Lazy, rv: bool) -> bool {
    &&& c2[k].par == c[k].par
    &&& c2[k].rev == (c[k].rev != rv)
    &&& c2[k].ch0 == if rv {
        c[k].ch1
    } else {
        c[k].ch0
    }
    &&& c2[k].ch1 == if rv {
        c[k].ch0
    } else {
        c[k].ch1
    }
    &&& c2[k].node.value_spec() == N::act(lz, c[k].node.value_spec())
    &&& c2[k].node.summary_spec() == N::act_sum(lz, c[k].node.summary_spec(), c[k].node.size_spec() as nat)
    &&& c2[k].node.lazy_spec() == N::lazy_then(c[k].node.lazy_spec(), lz)
    &&& c2[k].node.size_spec() == c[k].node.size_spec()
}

/// What `push` does to the arena.
spec fn pushed_from<N: Node>(
    c: Seq<Cell<N>>,
    aux: Seq<Aux<N::Lazy>>,
    c2: Seq<Cell<N>>,
    aux2: Seq<Aux<N::Lazy>>,
    t: int,
) -> bool {
    &&& c2.len() == c.len()
    &&& aux2.len() == aux.len()
    &&& c2[t].ch0 == c[t].ch0
    &&& c2[t].ch1 == c[t].ch1
    &&& c2[t].par == c[t].par
    &&& !c2[t].rev
    &&& c2[t].node.value_spec() == c[t].node.value_spec()
    &&& c2[t].node.size_spec() == c[t].node.size_spec()
    &&& c2[t].node.summary_spec() == c[t].node.summary_spec()
    &&& c2[t].node.lazy_spec() == N::lazy_id()
    &&& aux2[t] == aux[t]
    &&& forall|w: int| 0 <= w < c.len() && w != t ==> #[trigger] pushed_at(c, aux, c2, aux2, t, w)
}

/// What `push` at `t` does to another cell `w`: a child of `t` receives what was
/// pending, any other cell stays as it is.
spec fn pushed_at<N: Node>(
    c: Seq<Cell<N>>,
    aux: Seq<Aux<N::Lazy>>,
    c2: Seq<Cell<N>>,
    aux2: Seq<Aux<N::Lazy>>,
    t: int,
    w: int,
) -> bool {
    if is_child(c, t, w) {
        &&& received(c, c2, w, c[t].node.lazy_spec(), c[t].rev)
        &&& aux2[w] == (Aux { lo: aux[w].lo, hi: aux[w].hi, q: aux[t].q, acc: aux[t].acc })
    } else {
        &&& c2[w] == c[w]
        &&& aux2[w] == aux[w]
    }
}

/// A cell that has received an action from its parent is still fresh.
#[verifier::rlimit(50)]
proof fn lemma_received_fresh<N: Node>(
    c: Seq<Cell<N>>,
    pos: Seq<Pos>,
    aux: Seq<Aux<N::Lazy>>,
    c2: Seq<Cell<N>>,
    aux2: Seq<Aux<N::Lazy>>,
    t: int,
    k: int,
)
    requires
        forest_inv(c, pos, aux),
        0 <= t < c.len(),
        is_child(c, t, k),
        pushed_from(c, aux, c2, aux2, t),
    ensures
        fresh(c2, aux2, k),
{
    let lz = c[t].node.lazy_spec();
    lemma_child(c, pos, aux, t, k);
    assert(node_inv(c, pos, aux, k));
    assert(pushed_at(c, aux, c2, aux2, t, k));
    assert(received(c, c2, k, lz, c[t].rev));
    let v = c[k].node.value_spec();
    let g0 = ch0_of(c, k);
    let g1 = ch1_of(c, k);
    let s0 = child_sum(c, k, g0);
    let s1 = child_sum(c, k, g1);
    let n0: nat = match g0 {
        Some(g) => c[g].node.size_spec() as nat,
        None => 0,
    };
    let n1: nat = match g1 {
        Some(g) => c[g].node.size_spec() as nat,
        None => 0,
    };
    if g0 is Some {
        let g = g0.unwrap();
        lemma_child(c, pos, aux, k, g);
        lemma_child(c, pos, aux, t, k);
        assert(g != t) by {
            assert(node_inv(c, pos, aux, t));
        }
        if is_child(c, t, g) {
            lemma_child(c, pos, aux, t, g);
        }
        assert(!is_child(c, t, g));
        assert(pushed_at(c, aux, c2, aux2, t, g));
        assert(c2[g] == c[g]);
        N::lemma_act_then(lz_of(c, k), lz, v, c[g].node.summary_spec(), c[g].node.size_spec() as nat);
    }
    if g1 is Some {
        let g = g1.unwrap();
        lemma_child(c, pos, aux, k, g);
        assert(g != t) by {
            assert(node_inv(c, pos, aux, t));
        }
        if is_child(c, t, g) {
            lemma_child(c, pos, aux, t, g);
        }
        assert(!is_child(c, t, g));
        assert(pushed_at(c, aux, c2, aux2, t, g));
        assert(c2[g] == c[g]);
        N::lemma_act_then(lz_of(c, k), lz, v, c[g].node.summary_spec(), c[g].node.size_spec() as nat);
    }
    if g0 is Some {
        lemma_children_differ(c, pos, aux, k);
    }
    // the sizes of the children add up to the size of the cell
    assert(n0 + 1 + n1 == c[k].node.size_spec());
    N::lemma_act_distributes(lz, s0, n0, N::sum_of(v), 1, v);
    N::lemma_act_distributes(lz, N::sum_join(s0, N::sum_of(v)), n0 + 1, s1, n1, v);
    let t0 = N::act_sum(lz, s0, n0);
    let t1 = N::act_sum(lz, s1, n1);
    let tv = N::sum_of(N::act(lz, v));
    assert(child_sum(c2, k, g0) == t0);
    assert(child_sum(c2, k, g1) == t1);
    if c[t].rev {
        N::lemma_sum_monoid(t0, tv, t1);
        N::lemma_sum_monoid(t1, tv, t0);
        N::lemma_sum_monoid(t0, N::sum_join(tv, t1), t1);
        N::lemma_sum_monoid(N::sum_join(t1, tv), t0, t1);
        N::lemma_sum_monoid(tv, t1, t0);
    }
}

/// The pending action of a cell.
spec fn lz_of<N: Node>(c: Seq<Cell<N>>, x: int) -> N::Lazy {
    c[x].node.lazy_spec()
}

/// The links of a cell after a push at `t`.
proof fn lemma_push_links<N: Node>(
    c: Seq<Cell<N>>,
    pos: Seq<Pos>,
    aux: Seq<Aux<N::Lazy>>,
    c2: Seq<Cell<N>>,
    aux2: Seq<Aux<N::Lazy>>,
    t: int,
    w: int,
)
    requires
        forest_inv(c, pos, aux),
        0 <= t < c.len(),
        0 <= w < c.len(),
        pushed_from(c, aux, c2, aux2, t),
    ensures
        par_of(c2, w) == par_of(c, w),
        (ch0_of(c2, w) == ch0_of(c, w) && ch1_of(c2, w) == ch1_of(c, w)) || (ch0_of(c2, w) == ch1_of(c, w)
            && ch1_of(c2, w) == ch0_of(c, w)),
        aux_root(c2, w) == aux_root(c, w),
        forall|k: int| is_child(c2, w, k) == is_child(c, w, k),
{
    if w != t {
        assert(pushed_at(c, aux, c2, aux2, t, w));
    }
    assert(node_inv(c, pos, aux, w));
    if par_of(c, w) is Some {
        let p = par_of(c, w).unwrap();
        if p != t {
            assert(pushed_at(c, aux, c2, aux2, t, p));
        }
    }
}

/// The invariant of a cell after a push at `t`.
#[verifier::rlimit(50)]
proof fn lemma_push_node<N: Node>(
    c: Seq<Cell<N>>,
    pos: Seq<Pos>,
    aux: Seq<Aux<N::Lazy>>,
    c2: Seq<Cell<N>>,
    aux2: Seq<Aux<N::Lazy>>,
    t: int,
    w: int,
)
    requires
        forest_inv(c, pos, aux),
        0 <= t < c.len(),
        0 <= w < c.len(),
        pushed_from(c, aux, c2, aux2, t),
    ensures
        node_inv(c2, pos, aux2, w),
        true_value(c2, aux2, w) == true_value(c, aux, w),
        w == t && fresh(c, aux, t) ==> fresh(c2, aux2, t),
{
    let lz = c[t].node.lazy_spec();
    assert(node_inv(c, pos, aux, t));
    assert(node_inv(c, pos, aux, w));
    lemma_push_links(c, pos, aux, c2, aux2, t, w);
    N::lemma_lazy_monoid(aux[t].acc, aux[t].acc, aux[t].acc);
    let g0 = ch0_of(c, w);
    let g1 = ch1_of(c, w);
    if g0 is Some {
        lemma_children_differ(c, pos, aux, w);
    }
    if w == t {
        if g0 is Some {
            let k = g0.unwrap();
            lemma_child(c, pos, aux, t, k);
            assert(pushed_at(c, aux, c2, aux2, t, k));
            N::lemma_act_id(c[t].node.value_spec(), c2[k].node.summary_spec(), c2[k].node.size_spec() as nat);
        }
        if g1 is Some {
            let k = g1.unwrap();
            lemma_child(c, pos, aux, t, k);
            assert(pushed_at(c, aux, c2, aux2, t, k));
            N::lemma_act_id(c[t].node.value_spec(), c2[k].node.summary_spec(), c2[k].node.size_spec() as nat);
        }
        assert(child_sum(c2, t, g0) == child_sum(c, t, g0));
        assert(child_sum(c2, t, g1) == child_sum(c, t, g1));
        assert(node_inv(c2, pos, aux2, w));
    } else {
        assert(pushed_at(c, aux, c2, aux2, t, w));
        if g0 is Some {
            let g = g0.unwrap();
            lemma_child(c, pos, aux, w, g);
            if g != t {
                if is_child(c, t, g) {
                    lemma_child(c, pos, aux, t, g);
                }
                assert(pushed_at(c, aux, c2, aux2, t, g));
            }
        }
        if g1 is Some {
            let g = g1.unwrap();
            lemma_child(c, pos, aux, w, g);
            if g != t {
                if is_child(c, t, g) {
                    lemma_child(c, pos, aux, t, g);
                }
                assert(pushed_at(c, aux, c2, aux2, t, g));
            }
        }
        if is_child(c, t, w) {
            lemma_child(c, pos, aux, t, w);
            lemma_received_fresh(c, pos, aux, c2, aux2, t, w);
            N::lemma_lazy_monoid(c[w].node.lazy_spec(), lz, aux[t].acc);
            N::lemma_act_then(lz, aux[t].acc, c[w].node.value_spec(), c[w].node.summary_spec(), 0);
            assert(child_ok(c2, pos, aux2, w, low_child(c2, aux2, w), aux2[w].lo, pos[w].tp));
            assert(child_ok(c2, pos, aux2, w, high_child(c2, aux2, w), pos[w].tp + 1, aux2[w].hi));
            assert(node_inv(c2, pos, aux2, w));
        } else {
            assert(child_sum(c2, w, g0) == child_sum(c, w, g0));
            assert(child_sum(c2, w, g1) == child_sum(c, w, g1));
            assert(child_ok(c2, pos, aux2, w, low_child(c2, aux2, w), aux2[w].lo, pos[w].tp));
            assert(child_ok(c2, pos, aux2, w, high_child(c2, aux2, w), pos[w].tp + 1, aux2[w].hi));
            assert(node_inv(c2, pos, aux2, w));
        }
    }
}

/// `push` keeps the invariant, the links up to the order of children, and the
/// true values.
proof fn lemma_push_inv<N: Node>(
    c: Seq<Cell<N>>,
    pos: Seq<Pos>,
    aux: Seq<Aux<N::Lazy>>,
    c2: Seq<Cell<N>>,
    aux2: Seq<Aux<N::Lazy>>,
    t: int,
)
    requires
        forest_inv(c, pos, aux),
        0 <= t < c.len(),
        pushed_from(c, aux, c2, aux2, t),
    ensures
        forest_inv(c2, pos, aux2),
        same_links(c, c2),
        same_values(c, aux, c2, aux2),
        fresh(c, aux, t) ==> fresh(c2, aux2, t),
        forall|w: int| 0 <= w < c.len() ==> aux_root(c2, w) == #[trigger] aux_root(c, w),
{
    assert forall|w: int| 0 <= w < c.len() implies {
        &&& #[trigger] par_of(c2, w) == par_of(c, w)
        &&& ((ch0_of(c2, w) == ch0_of(c, w) && ch1_of(c2, w) == ch1_of(c, w)) || (ch0_of(c2, w)
            == ch1_of(c, w) && ch1_of(c2, w) == ch0_of(c, w)))
    } by {
        lemma_push_links(c, pos, aux, c2, aux2, t, w);
    }
    assert forall|w: int| 0 <= w < c.len() implies aux_root(c2, w) == #[trigger] aux_root(c, w) by {
        lemma_push_links(c, pos, aux, c2, aux2, t, w);
    }
    assert forall|w: int| 0 <= w < c.len() implies #[trigger] true_value(c2, aux2, w) == true_value(
        c,
        aux,
        w,
    ) by {
        lemma_push_node(c, pos, aux, c2, aux2, t, w);
    }
    assert forall|w: int| 0 <= w < c.len() implies #[trigger] node_inv(c2, pos, aux2, w) by {
        lemma_push_node(c, pos, aux, c2, aux2, t, w);
    }
    lemma_push_node(c, pos, aux, c2, aux2, t, t);
    assert forall|x: int| 0 <= x < c2.len() implies #[trigger] path_inv(pos, x) by {
        assert(path_inv(pos, x));
    }
    assert forall|x: int| 0 <= x < c2.len() implies #[trigger] rpath_inv(pos, x) by {
        assert(rpath_inv(pos, x));
    }
}

/// Hands what is pending at `t`, an action and maybe a reversal, to its
/// children.
fn push<N: Node>(f: &mut Forest<N>, t: usize)
    requires
        old(f).wf(),
        t < old(f).len(),
    ensures
        final(f).wf(),
        final(f).pos@ == old(f).pos@,
        final(f).aux@[t as int] == old(f).aux@[t as int],
        same_links(old(f).cells@, final(f).cells@),
        same_values(old(f).cells@, old(f).aux@, final(f).cells@, final(f).aux@),
        pushed_from(old(f).cells@, old(f).aux@, final(f).cells@, final(f).aux@, t as int),
        final(f).pushed(t as int),
        old(f).is_fresh(t as int) ==> final(f).is_fresh(t as int),
        forall|w: int| 0 <= w < old(f).len() ==> final(f).is_aux_root(w) == #[trigger] old(f).is_aux_root(w),
{
    let ghost c = f.cells@;
    let ghost aux = f.aux@;
    proof {
        assert(node_inv(c, f.pos@, aux, t as int));
        if ch0_of(c, t as int) is Some {
            lemma_child(c, f.pos@, aux, t as int, ch0_of(c, t as int).unwrap());
            lemma_children_differ(c, f.pos@, aux, t as int);
        }
        if ch1_of(c, t as int) is Some {
            lemma_child(c, f.pos@, aux, t as int, ch1_of(c, t as int).unwrap());
        }
    }
    let lz = f.cells[t].node.push();
    let rev = f.cells[t].rev;
    let c0 = f.cells[t].ch0;
    let c1 = f.cells[t].ch1;
    if let Some(l) = c0 {
        receive(f, l, &lz, rev);
    }
    if let Some(r) = c1 {
        receive(f, r, &lz, rev);
    }
    f.cells[t].rev = false;
    proof {
        let aux2 = Seq::new(
            aux.len(),
            |w: int|
                if w != t && is_child(c, t as int, w) {
                    Aux { lo: aux[w].lo, hi: aux[w].hi, q: aux[t as int].q, acc: aux[t as int].acc }
                } else {
                    aux[w]
                },
        );
        f.aux@ = aux2;
        assert forall|w: int| 0 <= w < c.len() && w != t implies #[trigger] pushed_at(
            c,
            aux,
            f.cells@,
            aux2,
            t as int,
            w,
        ) by {
        }
        lemma_push_inv(c, f.pos@, aux, f.cells@, aux2, t as int);
    }
}

/// A preferred path is no longer than the arena: its cells are all different.
proof fn lemma_path_len(pos: Seq<Pos>, x: int)
    requires
        0 <= x < pos.len(),
        path_inv(pos, x),
    ensures
        pos[x].path.len() <= pos.len(),
{
    let p = pos[x].path;
    assert(p.no_duplicates()) by {
        assert forall|i: int, j: int| 0 <= i < p.len() && 0 <= j < p.len() && i != j implies p[i]
            != p[j] by {
            let wi = p[i];
            let wj = p[j];
            assert(pos[wi].tp == i);
            assert(pos[wj].tp == j);
        }
    }
    p.unique_seq_to_set();
    let range = vstd::set_lib::set_int_range(0, pos.len() as int);
    vstd::set_lib::lemma_int_range(0, pos.len() as int);
    assert(p.to_set().subset_of(range)) by {
        assert forall|v: int| p.to_set().contains(v) implies range.contains(v) by {
            let i = choose|i: int| 0 <= i < p.len() && p[i] == v;
            let w = p[i];
            assert(0 <= w < pos.len());
        }
    }
    vstd::set_lib::lemma_len_subset(p.to_set(), range);
}

/// Child `d` of `x`.
spec fn ch_of<N>(c: Seq<Cell<N>>, x: int, d: int) -> Option<int> {
    if d == 0 {
        ch0_of(c, x)
    } else {
        ch1_of(c, x)
    }
}

/// The cached size behind a link: 0 when there is none.
spec fn size_at<N: Node>(c: Seq<Cell<N>>, k: Option<int>) -> int {
    match k {
        Some(k) => c[k].node.size_spec() as int,
        None => 0,
    }
}

/// The caches of `x` are what `fix` computes from the caches of its children.
spec fn fixed<N: Node>(c: Seq<Cell<N>>, x: int) -> bool {
    &&& c[x].node.size_spec() == size_at(c, ch0_of(c, x)) + size_at(c, ch1_of(c, x)) + 1
    &&& c[x].node.summary_spec() == N::sum_join(
        N::sum_join(child_sum(c, x, ch0_of(c, x)), N::sum_of(c[x].node.value_spec())),
        child_sum(c, x, ch1_of(c, x)),
    )
}

/// Recomputes the caches of `t` from those of its children.
fn fix<N: Node>(f: &mut Forest<N>, t: usize)
    requires
        t < old(f).cells@.len(),
        match ch0_of(old(f).cells@, t as int) {
            Some(k) => 0 <= k < old(f).cells@.len() && k != t,
            None => true,
        },
        match ch1_of(old(f).cells@, t as int) {
            Some(k) => 0 <= k < old(f).cells@.len() && k != t,
            None => true,
        },
        size_at(old(f).cells@, ch0_of(old(f).cells@, t as int)) + size_at(
            old(f).cells@,
            ch1_of(old(f).cells@, t as int),
        ) + 1 <= usize::MAX,
    ensures
        final(f).pos@ == old(f).pos@,
        final(f).aux@ == old(f).aux@,
        final(f).cells@.len() == old(f).cells@.len(),
        forall|w: int| 0 <= w < old(f).cells@.len() && w != t ==> final(f).cells@[w] == old(f).cells@[w],
        final(f).cells@[t as int].ch0 == old(f).cells@[t as int].ch0,
        final(f).cells@[t as int].ch1 == old(f).cells@[t as int].ch1,
        final(f).cells@[t as int].par == old(f).cells@[t as int].par,
        final(f).cells@[t as int].rev == old(f).cells@[t as int].rev,
        final(f).cells@[t as int].node.value_spec() == old(f).cells@[t as int].node.value_spec(),
        final(f).cells@[t as int].node.lazy_spec() == old(f).cells@[t as int].node.lazy_spec(),
        fixed(final(f).cells@, t as int),
{
    let left = match f.cells[t].ch0 {
        Some(l) => Some(f.cells[l].node.cache()),
        None => None,
    };
    let right = match f.cells[t].ch1 {
        Some(r) => Some(f.cells[r].node.cache()),
        None => None,
    };
    f.cells[t].node.fix(left, right);
}

/// Cells of one preferred path lie one below the other in the forest: the path
/// from the root grows by one cell with each step down the preferred path.
proof fn lemma_depth_on_path(pos: Seq<Pos>, x: int, j: int)
    requires
        0 <= x < pos.len(),
        forall|w: int| 0 <= w < pos.len() ==> #[trigger] path_inv(pos, w),
        forall|w: int| 0 <= w < pos.len() ==> #[trigger] rpath_inv(pos, w),
        0 <= j < pos[x].path.len(),
    ensures
        pos[pos[x].path[j]].rpath.len() == pos[pos[x].path[0]].rpath.len() + j,
        pos[pos[x].path[j]].rpath == pos[pos[x].path[0]].rpath + pos[x].path.subrange(1, j + 1),
    decreases j,
{
    assert(path_inv(pos, x));
    let w = pos[x].path[j];
    assert(path_inv(pos, w));
    assert(rpath_inv(pos, w));
    if j > 0 {
        lemma_depth_on_path(pos, x, j - 1);
        let u = pos[x].path[j - 1];
        assert(pos[w].rpath == pos[u].rpath.push(w));
        assert(pos[x].path.subrange(1, j + 1) =~= pos[x].path.subrange(1, j).push(w));
        assert(pos[w].rpath =~= pos[pos[x].path[0]].rpath + pos[x].path.subrange(1, j + 1));
    } else {
        assert(pos[x].path.subrange(1, 1) =~= Seq::<int>::empty());
        assert(pos[w].rpath =~= pos[w].rpath + Seq::<int>::empty());
    }
}

/// The forest parent of the top of a preferred path is not on that path.
proof fn lemma_ppar_off_path(pos: Seq<Pos>, x: int)
    requires
        0 <= x < pos.len(),
        forall|w: int| 0 <= w < pos.len() ==> #[trigger] path_inv(pos, w),
        forall|w: int| 0 <= w < pos.len() ==> #[trigger] rpath_inv(pos, w),
        pos[x].ppar is Some,
    ensures
        pos[pos[x].ppar.unwrap()].path != pos[x].path,
{
    let p = pos[x].ppar.unwrap();
    assert(path_inv(pos, x));
    assert(path_inv(pos, p));
    let top = pos[x].path[0];
    assert(path_inv(pos, top));
    assert(rpath_inv(pos, top));
    if pos[p].path == pos[x].path {
        lemma_depth_on_path(pos, x, pos[p].tp);
        assert(pos[x].path[pos[p].tp] == p);
        assert(pos[top].rpath == pos[p].rpath.push(top));
        assert(false);
    }
}

/// What a rotation of `t` over its parent `x` does to the arena. `s` is the side
/// of `t` under `x`; the child `b` of `t` on the other side moves over to `x`.
spec fn rotated_from<N: Node>(
    c: Seq<Cell<N>>,
    pos: Seq<Pos>,
    aux: Seq<Aux<N::Lazy>>,
    c2: Seq<Cell<N>>,
    aux2: Seq<Aux<N::Lazy>>,
    t: int,
    x: int,
    s: int,
) -> bool {
    let b = ch_of(c, t, 1 - s);
    let y = par_of(c, x);
    let t_low = aux[t].hi <= pos[x].tp;
    &&& c2.len() == c.len()
    &&& aux2.len() == aux.len()
    &&& ch_of(c2, x, s) == b
    &&& ch_of(c2, x, 1 - s) == ch_of(c, x, 1 - s)
    &&& par_of(c2, x) == Some(t)
    &&& rev_of(c2, x) == rev_of(c, x)
    &&& c2[x].node.value_spec() == c[x].node.value_spec()
    &&& c2[x].node.lazy_spec() == c[x].node.lazy_spec()
    &&& fixed(c2, x)
    &&& ch_of(c2, t, 1 - s) == Some(x)
    &&& ch_of(c2, t, s) == ch_of(c, t, s)
    &&& par_of(c2, t) == y
    &&& rev_of(c2, t) == rev_of(c, t)
    &&& c2[t].node.value_spec() == c[t].node.value_spec()
    &&& c2[t].node.lazy_spec() == c[t].node.lazy_spec()
    &&& fixed(c2, t)
    &&& aux2[t] == (Aux { lo: aux[x].lo, hi: aux[x].hi, q: aux[x].q, acc: aux[x].acc })
    &&& aux2[x] == (Aux {
        lo: if t_low {
            pos[t].tp + 1
        } else {
            aux[x].lo
        },
        hi: if t_low {
            aux[x].hi
        } else {
            pos[t].tp
        },
        q: aux[x].q,
        acc: aux[x].acc,
    })
    &&& forall|w: int| 0 <= w < c.len() && w != t && w != x ==> #[trigger] rotated_at(c, aux, c2, aux2, t, x, s, w)
}

/// What a rotation of `t` over `x` does to another cell `w`.
spec fn rotated_at<N: Node>(
    c: Seq<Cell<N>>,
    aux: Seq<Aux<N::Lazy>>,
    c2: Seq<Cell<N>>,
    aux2: Seq<Aux<N::Lazy>>,
    t: int,
    x: int,
    s: int,
    w: int,
) -> bool {
    let b = ch_of(c, t, 1 - s);
    let y = par_of(c, x);
    &&& aux2[w] == aux[w]
    &&& if b == Some(w) {
        &&& par_of(c2, w) == Some(x)
        &&& c2[w].ch0 == c[w].ch0
        &&& c2[w].ch1 == c[w].ch1
        &&& c2[w].rev == c[w].rev
        &&& c2[w].node == c[w].node
    } else if y == Some(w) && is_child(c, w, x) {
        &&& c2[w].par == c[w].par
        &&& c2[w].rev == c[w].rev
        &&& ch0_of(c2, w) == if ch0_of(c, w) == Some(x) {
            Some(t)
        } else {
            ch0_of(c, w)
        }
        &&& ch1_of(c2, w) == if ch0_of(c, w) != Some(x) {
            Some(t)
        } else {
            ch1_of(c, w)
        }
        &&& c2[w].node.value_spec() == c[w].node.value_spec()
        &&& c2[w].node.lazy_spec() == c[w].node.lazy_spec()
        &&& fixed(c2, w)
    } else {
        c2[w] == c[w]
    }
}

/// The facts about a cell `t` and its parent `x` that a rotation starts from.
spec fn rotation_ready<N: Node>(
    c: Seq<Cell<N>>,
    pos: Seq<Pos>,
    aux: Seq<Aux<N::Lazy>>,
    t: int,
    x: int,
    s: int,
) -> bool {
    &&& forest_inv(c, pos, aux)
    &&& 0 <= t < c.len()
    &&& 0 <= x < c.len()
    &&& 0 <= s < 2
    &&& par_of(c, t) == Some(x)
    &&& ch_of(c, x, s) == Some(t)
    &&& !rev_of(c, x)
    &&& !rev_of(c, t)
    &&& c[x].node.lazy_spec() == N::lazy_id()
    &&& c[t].node.lazy_spec() == N::lazy_id()
}

/// The cells around a rotation are all different, and the three subtrees that
/// change parents cover what the old root covered.
proof fn lemma_rotation_shape<N: Node>(
    c: Seq<Cell<N>>,
    pos: Seq<Pos>,
    aux: Seq<Aux<N::Lazy>>,
    t: int,
    x: int,
    s: int,
)
    requires
        rotation_ready(c, pos, aux, t, x, s),
    ensures
        t != x,
        par_of(c, x) != Some(t),
        par_of(c, x) != Some(x),
        ch_of(c, x, 1 - s) != Some(t),
        ch_of(c, t, 0) != Some(x),
        ch_of(c, t, 1) != Some(x),
        ch_of(c, t, 1 - s) is Some ==> ch_of(c, t, 1 - s) != par_of(c, x),
        pos[t].path == pos[x].path,
        aux[t].q == aux[x].q,
        aux[t].acc == aux[x].acc,
        fresh(c, aux, t),
        // t on the low side of x
        aux[t].hi <= pos[x].tp ==> {
            &&& aux[t].lo == aux[x].lo
            &&& aux[t].hi == pos[x].tp
            &&& child_ok(c, pos, aux, t, ch_of(c, t, s), aux[t].lo, pos[t].tp)
            &&& child_ok(c, pos, aux, t, ch_of(c, t, 1 - s), pos[t].tp + 1, aux[t].hi)
            &&& child_ok(c, pos, aux, x, ch_of(c, x, 1 - s), pos[x].tp + 1, aux[x].hi)
        },
        // t on the high side of x
        aux[t].hi > pos[x].tp ==> {
            &&& aux[t].lo == pos[x].tp + 1
            &&& aux[t].hi == aux[x].hi
            &&& child_ok(c, pos, aux, t, ch_of(c, t, s), pos[t].tp + 1, aux[t].hi)
            &&& child_ok(c, pos, aux, t, ch_of(c, t, 1 - s), aux[t].lo, pos[t].tp)
            &&& child_ok(c, pos, aux, x, ch_of(c, x, 1 - s), aux[x].lo, pos[x].tp)
        },
{
    assert(node_inv(c, pos, aux, t));
    assert(node_inv(c, pos, aux, x));
    lemma_child(c, pos, aux, x, t);
    N::lemma_lazy_monoid(aux[x].acc, aux[x].acc, aux[x].acc);
    if ch0_of(c, x) is Some {
        lemma_children_differ(c, pos, aux, x);
    }
    if ch0_of(c, t) is Some {
        lemma_children_differ(c, pos, aux, t);
    }
    if is_child(c, t, x) {
        lemma_child(c, pos, aux, t, x);
    }
    if par_of(c, x) is Some {
        let y = par_of(c, x).unwrap();
        assert(node_inv(c, pos, aux, y));
        if is_child(c, y, x) {
            lemma_child(c, pos, aux, y, x);
            if ch_of(c, t, 1 - s) == Some(y) {
                lemma_child(c, pos, aux, t, y);
            }
        } else {
            assert(aux_root(c, x));
            assert(pos[x].ppar == Some(y));
            lemma_ppar_off_path(pos, x);
            if ch_of(c, t, 1 - s) == Some(y) {
                lemma_child(c, pos, aux, t, y);
            }
        }
    }
}

/// After a rotation the two rotated cells are fresh, and the new root of the
/// rotated subtree caches what the old one did if that was fresh.
#[verifier::rlimit(50)]
proof fn lemma_rotate_caches<N: Node>(
    c: Seq<Cell<N>>,
    pos: Seq<Pos>,
    aux: Seq<Aux<N::Lazy>>,
    c2: Seq<Cell<N>>,
    aux2: Seq<Aux<N::Lazy>>,
    t: int,
    x: int,
    s: int,
)
    requires
        rotation_ready(c, pos, aux, t, x, s),
        rotated_from(c, pos, aux, c2, aux2, t, x, s),
    ensures
        fresh(c2, aux2, x),
        fresh(c2, aux2, t),
        fresh(c, aux, x) ==> c2[t].node.size_spec() == c[x].node.size_spec() && c2[t].node.summary_spec()
            == c[x].node.summary_spec(),
{
    lemma_rotation_shape(c, pos, aux, t, x, s);
    assert(node_inv(c, pos, aux, t));
    assert(node_inv(c, pos, aux, x));
    let a = ch_of(c, t, s);
    let b = ch_of(c, t, 1 - s);
    let d = ch_of(c, x, 1 - s);
    let vt = c[t].node.value_spec();
    let vx = c[x].node.value_spec();
    if a is Some {
        let k = a.unwrap();
        lemma_child(c, pos, aux, t, k);
        assert(rotated_at(c, aux, c2, aux2, t, x, s, k));
        assert(c2[k].node == c[k].node);
        N::lemma_act_id(vt, c[k].node.summary_spec(), c[k].node.size_spec() as nat);
    }
    if b is Some {
        let k = b.unwrap();
        lemma_child(c, pos, aux, t, k);
        assert(rotated_at(c, aux, c2, aux2, t, x, s, k));
        assert(c2[k].node == c[k].node);
        N::lemma_act_id(vt, c[k].node.summary_spec(), c[k].node.size_spec() as nat);
    }
    if d is Some {
        let k = d.unwrap();
        lemma_child(c, pos, aux, x, k);
        if is_child(c, t, k) {
            lemma_child(c, pos, aux, t, k);
        }
        assert(rotated_at(c, aux, c2, aux2, t, x, s, k));
        assert(c2[k].node == c[k].node);
        N::lemma_act_id(vt, c[k].node.summary_spec(), c[k].node.size_spec() as nat);
    }
    let sa = child_sum(c, t, a);
    let sb = child_sum(c, t, b);
    let sd = child_sum(c, x, d);
    assert(child_sum(c2, t, a) == sa);
    assert(child_sum(c2, x, b) == sb);
    assert(child_sum(c2, x, d) == sd);
    N::lemma_act_id(vt, c2[x].node.summary_spec(), c2[x].node.size_spec() as nat);
    N::lemma_act_id(vt, c[t].node.summary_spec(), c[t].node.size_spec() as nat);
    let ot = N::sum_of(vt);
    let ox = N::sum_of(vx);
    if s == 0 {
        // old: ((sa . vt) . sb) . vx . sd     new: (sa . vt) . ((sb . vx) . sd)
        N::lemma_sum_monoid(N::sum_join(sa, ot), sb, ox);
        N::lemma_sum_monoid(N::sum_join(sa, ot), N::sum_join(sb, ox), sd);
    } else {
        // old: (sd . vx) . ((sb . vt) . sa)   new: ((sd . vx) . sb) . vt . sa
        N::lemma_sum_monoid(N::sum_join(sd, ox), N::sum_join(sb, ot), sa);
        N::lemma_sum_monoid(N::sum_join(sd, ox), sb, ot);
    }
}

/// The invariant of the two rotated cells after a rotation.
#[verifier::rlimit(50)]
proof fn lemma_rotate_pair<N: Node>(
    c: Seq<Cell<N>>,
    pos: Seq<Pos>,
    aux: Seq<Aux<N::Lazy>>,
    c2: Seq<Cell<N>>,
    aux2: Seq<Aux<N::Lazy>>,
    t: int,
    x: int,
    s: int,
)
    requires
        rotation_ready(c, pos, aux, t, x, s),
        rotated_from(c, pos, aux, c2, aux2, t, x, s),
    ensures
        node_inv(c2, pos, aux2, t),
        node_inv(c2, pos, aux2, x),
        aux_root(c2, t) == aux_root(c, x),
        !aux_root(c2, x),
{
    lemma_rotation_shape(c, pos, aux, t, x, s);
    lemma_rotate_caches(c, pos, aux, c2, aux2, t, x, s);
    assert(node_inv(c, pos, aux, t));
    assert(node_inv(c, pos, aux, x));
    let a = ch_of(c, t, s);
    let b = ch_of(c, t, 1 - s);
    let d = ch_of(c, x, 1 - s);
    let y = par_of(c, x);
    N::lemma_lazy_monoid(aux[x].acc, aux[x].acc, aux[x].acc);
    if a is Some {
        lemma_child(c, pos, aux, t, a.unwrap());
        assert(rotated_at(c, aux, c2, aux2, t, x, s, a.unwrap()));
    }
    if b is Some {
        lemma_child(c, pos, aux, t, b.unwrap());
        assert(rotated_at(c, aux, c2, aux2, t, x, s, b.unwrap()));
    }
    if d is Some {
        lemma_child(c, pos, aux, x, d.unwrap());
        if is_child(c, t, d.unwrap()) {
            lemma_child(c, pos, aux, t, d.unwrap());
        }
        assert(rotated_at(c, aux, c2, aux2, t, x, s, d.unwrap()));
    }
    if y is Some {
        assert(node_inv(c, pos, aux, y.unwrap()));
        assert(rotated_at(c, aux, c2, aux2, t, x, s, y.unwrap()));
        if is_child(c, y.unwrap(), x) {
            lemma_child(c, pos, aux, y.unwrap(), x);
            if ch0_of(c, y.unwrap()) is Some {
                lemma_children_differ(c, pos, aux, y.unwrap());
            }
        }
    }
    assert(aux_root(c2, t) == aux_root(c, x));
    assert(!aux_root(c2, x));
    assert(node_inv(c2, pos, aux2, x));
    assert(path_inv(pos, x));
    assert(path_inv(pos, t));
    assert(pos[x].path[pos[t].tp] == t);
    assert(pos[t].ppar == pos[x].ppar);
    assert(node_inv(c2, pos, aux2, t));
}

/// The invariant of the parent `y` of the rotated pair after a rotation, and
/// that its caches have not changed if they were fresh.
#[verifier::rlimit(50)]
proof fn lemma_rotate_above<N: Node>(
    c: Seq<Cell<N>>,
    pos: Seq<Pos>,
    aux: Seq<Aux<N::Lazy>>,
    c2: Seq<Cell<N>>,
    aux2: Seq<Aux<N::Lazy>>,
    t: int,
    x: int,
    s: int,
    y: int,
)
    requires
        rotation_ready(c, pos, aux, t, x, s),
        rotated_from(c, pos, aux, c2, aux2, t, x, s),
        par_of(c, x) == Some(y),
        is_child(c, y, x),
    ensures
        node_inv(c2, pos, aux2, y),
        aux_root(c2, y) == aux_root(c, y),
        fresh(c, aux, y) ==> c2[y].node.size_spec() == c[y].node.size_spec() && c2[y].node.summary_spec()
            == c[y].node.summary_spec(),
{
    lemma_rotation_shape(c, pos, aux, t, x, s);
    lemma_rotate_caches(c, pos, aux, c2, aux2, t, x, s);
    assert(node_inv(c, pos, aux, x));
    assert(node_inv(c, pos, aux, y));
    lemma_child(c, pos, aux, y, x);
    lemma_child(c, pos, aux, x, t);
    assert(rotated_at(c, aux, c2, aux2, t, x, s, y));
    if ch0_of(c, y) is Some {
        lemma_children_differ(c, pos, aux, y);
    }
    // the other child of y
    let k = if ch0_of(c, y) == Some(x) {
        ch1_of(c, y)
    } else {
        ch0_of(c, y)
    };
    if k is Some {
        lemma_child(c, pos, aux, y, k.unwrap());
        if is_child(c, t, k.unwrap()) {
            lemma_child(c, pos, aux, t, k.unwrap());
        }
        assert(rotated_at(c, aux, c2, aux2, t, x, s, k.unwrap()));
        assert(c2[k.unwrap()] == c[k.unwrap()]);
    }
    // the parent of y
    if par_of(c, y) is Some {
        let z = par_of(c, y).unwrap();
        assert(par_of(c2, y) == Some(z));
        if z == t {
            if is_child(c, t, y) {
                lemma_child(c, pos, aux, t, y);
            }
            assert(aux_root(c, y));
            assert(pos[y].ppar == Some(t));
            lemma_ppar_off_path(pos, y);
            assert(false);
        } else if z == x {
            if is_child(c, x, y) {
                lemma_child(c, pos, aux, x, y);
            }
            assert(aux_root(c, y));
            assert(pos[y].ppar == Some(x));
            lemma_ppar_off_path(pos, y);
            assert(false);
        } else {
            assert(rotated_at(c, aux, c2, aux2, t, x, s, z));
            if is_child(c, t, z) {
                lemma_child(c, pos, aux, t, z);
            }
            if is_child(c, z, y) {
                lemma_child(c, pos, aux, z, y);
            }
        }
    }
    assert(aux_root(c2, y) == aux_root(c, y));
    assert(child_sum(c2, y, Some(t)) == child_sum(c, y, Some(x)));
    assert(child_sum(c2, y, k) == child_sum(c, y, k));
    assert(node_inv(c2, pos, aux2, y));
}

/// The invariant of a cell that a rotation does not touch, or of which it
/// changes the parent link only.
#[verifier::rlimit(50)]
proof fn lemma_rotate_other<N: Node>(
    c: Seq<Cell<N>>,
    pos: Seq<Pos>,
    aux: Seq<Aux<N::Lazy>>,
    c2: Seq<Cell<N>>,
    aux2: Seq<Aux<N::Lazy>>,
    t: int,
    x: int,
    s: int,
    w: int,
)
    requires
        rotation_ready(c, pos, aux, t, x, s),
        rotated_from(c, pos, aux, c2, aux2, t, x, s),
        0 <= w < c.len(),
        w != t,
        w != x,
        !(par_of(c, x) == Some(w) && is_child(c, w, x)),
    ensures
        node_inv(c2, pos, aux2, w),
        aux_root(c2, w) == aux_root(c, w),
{
    lemma_rotation_shape(c, pos, aux, t, x, s);
    assert(node_inv(c, pos, aux, t));
    assert(node_inv(c, pos, aux, x));
    assert(node_inv(c, pos, aux, w));
    assert(rotated_at(c, aux, c2, aux2, t, x, s, w));
    let b = ch_of(c, t, 1 - s);
    let y = par_of(c, x);
    lemma_child(c, pos, aux, x, t);
    if y is Some && is_child(c, y.unwrap(), x) {
        lemma_rotate_above(c, pos, aux, c2, aux2, t, x, s, y.unwrap());
        lemma_child(c, pos, aux, y.unwrap(), x);
    }
    // the parent of w
    if b == Some(w) {
        lemma_child(c, pos, aux, t, w);
        assert(!aux_root(c2, w));
    } else {
        assert(par_of(c2, w) == par_of(c, w));
        if par_of(c, w) is Some {
            let p = par_of(c, w).unwrap();
            if p == t {
                if is_child(c, t, w) {
                    lemma_child(c, pos, aux, t, w);
                }
            } else if p == x {
                if is_child(c, x, w) {
                    lemma_child(c, pos, aux, x, w);
                }
            } else {
                assert(rotated_at(c, aux, c2, aux2, t, x, s, p));
                if is_child(c, t, p) {
                    lemma_child(c, pos, aux, t, p);
                }
            }
        }
    }
    // the children of w
    let g0 = ch0_of(c, w);
    let g1 = ch1_of(c, w);
    assert(ch0_of(c2, w) == g0);
    assert(ch1_of(c2, w) == g1);
    if g0 is Some {
        let g = g0.unwrap();
        lemma_child(c, pos, aux, w, g);
        if is_child(c, t, g) {
            lemma_child(c, pos, aux, t, g);
        }
        assert(g != t && g != x);
        assert(rotated_at(c, aux, c2, aux2, t, x, s, g));
    }
    if g1 is Some {
        let g = g1.unwrap();
        lemma_child(c, pos, aux, w, g);
        if is_child(c, t, g) {
            lemma_child(c, pos, aux, t, g);
        }
        assert(g != t && g != x);
        assert(rotated_at(c, aux, c2, aux2, t, x, s, g));
    }
    assert(child_sum(c2, w, g0) == child_sum(c, w, g0));
    assert(child_sum(c2, w, g1) == child_sum(c, w, g1));
    assert(node_inv(c2, pos, aux2, w));
}

/// A rotation keeps the invariant and the true values; the rotated cell takes the
/// place of its parent.
proof fn lemma_rotate_inv<N: Node>(
    c: Seq<Cell<N>>,
    pos: Seq<Pos>,
    aux: Seq<Aux<N::Lazy>>,
    c2: Seq<Cell<N>>,
    aux2: Seq<Aux<N::Lazy>>,
    t: int,
    x: int,
    s: int,
)
    requires
        rotation_ready(c, pos, aux, t, x, s),
        rotated_from(c, pos, aux, c2, aux2, t, x, s),
    ensures
        forest_inv(c2, pos, aux2),
        same_values(c, aux, c2, aux2),
        aux_root(c2, t) == aux_root(c, x),
        !aux_root(c2, x),
        fresh(c2, aux2, t),
        forall|w: int| 0 <= w < c.len() && w != t && w != x ==> aux_root(c2, w) == #[trigger] aux_root(c, w),
{
    lemma_rotate_caches(c, pos, aux, c2, aux2, t, x, s);
    lemma_rotate_pair(c, pos, aux, c2, aux2, t, x, s);
    let y = par_of(c, x);
    assert forall|w: int| 0 <= w < c.len() implies #[trigger] node_inv(c2, pos, aux2, w) by {
        if w == t || w == x {
        } else if y == Some(w) && is_child(c, w, x) {
            lemma_rotate_above(c, pos, aux, c2, aux2, t, x, s, w);
        } else {
            lemma_rotate_other(c, pos, aux, c2, aux2, t, x, s, w);
        }
    }
    assert forall|w: int| 0 <= w < c.len() && w != t && w != x implies aux_root(c2, w)
        == #[trigger] aux_root(c, w) by {
        if y == Some(w) && is_child(c, w, x) {
            lemma_rotate_above(c, pos, aux, c2, aux2, t, x, s, w);
        } else {
            lemma_rotate_other(c, pos, aux, c2, aux2, t, x, s, w);
        }
    }
    assert forall|w: int| 0 <= w < c.len() implies #[trigger] true_value(c2, aux2, w) == true_value(
        c,
        aux,
        w,
    ) by {
        if w != t && w != x {
            assert(rotated_at(c, aux, c2, aux2, t, x, s, w));
        } else {
            lemma_rotation_shape(c, pos, aux, t, x, s);
        }
    }
    assert forall|w: int| 0 <= w < c2.len() implies #[trigger] path_inv(pos, w) by {
        assert(path_inv(pos, w));
    }
    assert forall|w: int| 0 <= w < c2.len() implies #[trigger] rpath_inv(pos, w) by {
        assert(rpath_inv(pos, w));
    }
}

fn child<N: Node>(f: &Forest<N>, x: usize, dir: usize) -> (r: Link)
    requires
        x < f.cells@.len(),
        dir < 2,
    ensures
        link_int(r) == ch_of(f.cells@, x as int, dir as int),
{
    if dir == 0 {
        f.cells[x].ch0
    } else {
        f.cells[x].ch1
    }
}

fn set_child<N: Node>(f: &mut Forest<N>, x: usize, dir: usize, k: Link)
    requires
        x < old(f).cells@.len(),
        dir < 2,
    ensures
        final(f).pos@ == old(f).pos@,
        final(f).aux@ == old(f).aux@,
        final(f).cells@.len() == old(f).cells@.len(),
        forall|w: int| 0 <= w < old(f).cells@.len() && w != x ==> final(f).cells@[w] == old(f).cells@[w],
        ch_of(final(f).cells@, x as int, dir as int) == link_int(k),
        ch_of(final(f).cells@, x as int, 1 - dir) == ch_of(old(f).cells@, x as int, 1 - dir),
        final(f).cells@[x as int].par == old(f).cells@[x as int].par,
        final(f).cells@[x as int].rev == old(f).cells@[x as int].rev,
        final(f).cells@[x as int].node == old(f).cells@[x as int].node,
{
    if dir == 0 {
        f.cells[x].ch0 = k;
    } else {
        f.cells[x].ch1 = k;
    }
}

fn set_parent<N: Node>(f: &mut Forest<N>, x: usize, p: Link)
    requires
        x < old(f).cells@.len(),
    ensures
        final(f).pos@ == old(f).pos@,
        final(f).aux@ == old(f).aux@,
        final(f).cells@.len() == old(f).cells@.len(),
        forall|w: int| 0 <= w < old(f).cells@.len() && w != x ==> final(f).cells@[w] == old(f).cells@[w],
        final(f).cells@[x as int].ch0 == old(f).cells@[x as int].ch0,
        final(f).cells@[x as int].ch1 == old(f).cells@[x as int].ch1,
        final(f).cells@[x as int].par == p,
        final(f).cells@[x as int].rev == old(f).cells@[x as int].rev,
        final(f).cells@[x as int].node == old(f).cells@[x as int].node,
{
    f.cells[x].par = p;
}

/// The link surgery of a rotation of `t` over `x`: the child `b` of `t` on side
/// `dir` moves over to `x`, `x` becomes the child of `t` on side `dir`, and `t`
/// hangs where `x` hung: under `y`, on side `ydir` if `x` was a child there.
fn relink<N: Node>(f: &mut Forest<N>, t: usize, x: usize, dir: usize, b: Link, y: Link, ydir: Option<usize>)
    requires
        dir < 2,
        t < old(f).cells@.len(),
        x < old(f).cells@.len(),
        t != x,
        b != Some(t),
        b != Some(x),
        y != Some(t),
        y != Some(x),
        b is Some ==> b != y,
        match b {
            Some(k) => k < old(f).cells@.len(),
            None => true,
        },
        match y {
            Some(k) => k < old(f).cells@.len(),
            None => true,
        },
        match ydir {
            Some(k) => k < 2 && y is Some,
            None => true,
        },
    ensures
        final(f).pos@ == old(f).pos@,
        final(f).aux@ == old(f).aux@,
        final(f).cells@.len() == old(f).cells@.len(),
        forall|w: int|
            0 <= w < old(f).cells@.len() && w != t && w != x && Some(w) != link_int(b) && !(Some(w)
                == link_int(y) && ydir is Some) ==> final(f).cells@[w] == old(f).cells@[w],
        forall|w: int|
            0 <= w < old(f).cells@.len() ==> (#[trigger] final(f).cells@[w]).node == old(f).cells@[w].node
                && final(f).cells@[w].rev == old(f).cells@[w].rev,
        ch_of(final(f).cells@, x as int, 1 - dir) == link_int(b),
        ch_of(final(f).cells@, x as int, dir as int) == ch_of(old(f).cells@, x as int, dir as int),
        par_of(final(f).cells@, x as int) == Some(t as int),
        ch_of(final(f).cells@, t as int, dir as int) == Some(x as int),
        ch_of(final(f).cells@, t as int, 1 - dir) == ch_of(old(f).cells@, t as int, 1 - dir),
        par_of(final(f).cells@, t as int) == link_int(y),
        match b {
            Some(k) => {
                &&& par_of(final(f).cells@, k as int) == Some(x as int)
                &&& final(f).cells@[k as int].ch0 == old(f).cells@[k as int].ch0
                &&& final(f).cells@[k as int].ch1 == old(f).cells@[k as int].ch1
            },
            None => true,
        },
        match ydir {
            Some(yd) => {
                &&& final(f).cells@[y.unwrap() as int].par == old(f).cells@[y.unwrap() as int].par
                &&& ch_of(final(f).cells@, y.unwrap() as int, yd as int) == Some(t as int)
                &&& ch_of(final(f).cells@, y.unwrap() as int, 1 - yd) == ch_of(
                    old(f).cells@,
                    y.unwrap() as int,
                    1 - yd,
                )
            },
            None => true,
        },
{
    set_child(f, x, 1 - dir, b);
    if let Some(tr) = b {
        set_parent(f, tr, Some(x));
    }
    set_child(f, t, dir, Some(x));
    set_parent(f, x, Some(t));
    set_parent(f, t, y);
    if let Some(yy) = y {
        if let Some(xdir) = ydir {
            set_child(f, yy, xdir, Some(t));
        }
    }
}

/// Rotates `t` over its parent: `t` takes the place of the parent, the parent
/// becomes the child of `t` on side `dir`, and the child that `t` had there moves
/// over to the parent. The caches of the two are recomputed.
#[verifier::rlimit(60)]
fn rotate<N: Node>(f: &mut Forest<N>, t: usize, dir: usize)
    requires
        dir < 2,
        t < old(f).len(),
        old(f).parent_link(t as int) is Some,
        rotation_ready(
            old(f).cells@,
            old(f).pos@,
            old(f).aux@,
            t as int,
            old(f).parent_link(t as int).unwrap(),
            1 - dir,
        ),
    ensures
        final(f).wf(),
        final(f).pos@ == old(f).pos@,
        same_values(old(f).cells@, old(f).aux@, final(f).cells@, final(f).aux@),
        rotated_from(
            old(f).cells@,
            old(f).pos@,
            old(f).aux@,
            final(f).cells@,
            final(f).aux@,
            t as int,
            old(f).parent_link(t as int).unwrap(),
            1 - dir,
        ),
        final(f).is_aux_root(t as int) == old(f).is_aux_root(old(f).parent_link(t as int).unwrap()),
        final(f).is_fresh(t as int),
        forall|w: int|
            0 <= w < old(f).len() && w != t && w != old(f).parent_link(t as int).unwrap()
                ==> final(f).is_aux_root(w) == #[trigger] old(f).is_aux_root(w),
{
    let ghost c = f.cells@;
    let ghost aux = f.aux@;
    let ghost pos = f.pos@;
    // the arena is no longer than a machine integer can count
    let n = f.cells.len();
    let x = f.cells[t].par.unwrap();
    let ghost s = 1 - dir;
    proof {
        lemma_rotation_shape(c, pos, aux, t as int, x as int, s);
        assert(node_inv(c, pos, aux, t as int));
        assert(node_inv(c, pos, aux, x as int));
        assert(path_inv(pos, x as int));
        lemma_path_len(pos, x as int);
    }
    let y = f.cells[x].par;
    let ydir = parent_dir(f, y, x);
    let b = child(f, t, dir);
    let ghost a = ch_of(c, t as int, s);
    let ghost d = ch_of(c, x as int, dir as int);
    let ghost k = if ydir is Some {
        ch_of(c, y.unwrap() as int, 1 - ydir.unwrap())
    } else {
        None
    };
    proof {
        if a is Some {
            lemma_child(c, pos, aux, t as int, a.unwrap());
        }
        if b is Some {
            lemma_child(c, pos, aux, t as int, b.unwrap() as int);
        }
        if d is Some {
            lemma_child(c, pos, aux, x as int, d.unwrap());
            if is_child(c, t as int, d.unwrap()) {
                lemma_child(c, pos, aux, t as int, d.unwrap());
            }
        }
        if y is Some {
            assert(node_inv(c, pos, aux, y.unwrap() as int));
            assert(path_inv(pos, y.unwrap() as int));
            lemma_path_len(pos, y.unwrap() as int);
            if ch0_of(c, y.unwrap() as int) is Some {
                lemma_children_differ(c, pos, aux, y.unwrap() as int);
            }
            if is_child(c, y.unwrap() as int, x as int) {
                lemma_child(c, pos, aux, y.unwrap() as int, x as int);
            }
            if is_child(c, t as int, y.unwrap() as int) {
                lemma_child(c, pos, aux, t as int, y.unwrap() as int);
            }
            if k is Some {
                lemma_child(c, pos, aux, y.unwrap() as int, k.unwrap());
                if is_child(c, t as int, k.unwrap()) {
                    lemma_child(c, pos, aux, t as int, k.unwrap());
                }
            }
        }
    }
    relink(f, t, x, dir, b, y, ydir);
    let ghost c1 = f.cells@;
    proof {
        assert(size_at(c1, link_int(b)) == size_at(c, link_int(b)));
        assert(size_at(c1, d) == size_at(c, d));
        assert(size_at(c1, link_int(b)) + size_at(c1, d) + 1 <= aux[x as int].hi - aux[x as int].lo);
    }
    fix(f, x);
    let ghost c2 = f.cells@;
    proof {
        assert(size_at(c2, a) == size_at(c, a));
        assert(size_at(c2, Some(x as int)) == size_at(c, link_int(b)) + size_at(c, d) + 1);
        assert(size_at(c2, a) + size_at(c2, Some(x as int)) + 1 <= aux[x as int].hi - aux[x as int].lo);
    }
    fix(f, t);
    let ghost c3 = f.cells@;
    if let Some(yy) = y {
        if ydir.is_some() {
            proof {
                assert(size_at(c3, Some(t as int)) == aux[x as int].hi - aux[x as int].lo);
                assert(size_at(c3, k) == size_at(c, k));
                assert(size_at(c3, Some(t as int)) + size_at(c3, k) + 1 <= aux[yy as int].hi
                    - aux[yy as int].lo);
            }
            fix(f, yy);
        }
    }
    proof {
        let t_low = aux[t as int].hi <= pos[x as int].tp;
        let at = Aux {
            lo: aux[x as int].lo,
            hi: aux[x as int].hi,
            q: aux[x as int].q,
            acc: aux[x as int].acc,
        };
        let ax = Aux {
            lo: if t_low {
                pos[t as int].tp + 1
            } else {
                aux[x as int].lo
            },
            hi: if t_low {
                aux[x as int].hi
            } else {
                pos[t as int].tp
            },
            q: aux[x as int].q,
            acc: aux[x as int].acc,
        };
        let aux2 = aux.update(t as int, at).update(x as int, ax);
        f.aux@ = aux2;
        let c4 = f.cells@;
        assert forall|w: int| 0 <= w < c.len() && w != t && w != x implies #[trigger] rotated_at(
            c,
            aux,
            c4,
            aux2,
            t as int,
            x as int,
            s,
            w,
        ) by {
            assert(c1[w].node == c[w].node);
        }
        assert(fixed(c4, x as int));
        assert(fixed(c4, t as int));
        assert(rotated_from(c, pos, aux, c4, aux2, t as int, x as int, s));
        lemma_rotate_inv(c, pos, aux, c4, aux2, t as int, x as int, s);
    }
}

/// What a push at `p` leaves of a cell `w` that is neither `p` nor a child of
/// `p`: everything.
proof fn lemma_push_frame<N: Node>(
    c: Seq<Cell<N>>,
    pos: Seq<Pos>,
    aux: Seq<Aux<N::Lazy>>,
    c2: Seq<Cell<N>>,
    aux2: Seq<Aux<N::Lazy>>,
    p: int,
    w: int,
)
    requires
        forest_inv(c, pos, aux),
        0 <= p < c.len(),
        0 <= w < c.len(),
        pushed_from(c, aux, c2, aux2, p),
        w != p,
        par_of(c, w) != Some(p) || aux_root(c, w),
    ensures
        c2[w] == c[w],
        aux2[w] == aux[w],
{
    if is_child(c, p, w) {
        lemma_child(c, pos, aux, p, w);
    }
    assert(pushed_at(c, aux, c2, aux2, p, w));
}

/// What a push at `p` leaves of a child `w` of `p`: its place, and nothing
/// pending there if nothing was.
proof fn lemma_push_child<N: Node>(
    c: Seq<Cell<N>>,
    pos: Seq<Pos>,
    aux: Seq<Aux<N::Lazy>>,
    c2: Seq<Cell<N>>,
    aux2: Seq<Aux<N::Lazy>>,
    p: int,
    w: int,
)
    requires
        forest_inv(c, pos, aux),
        0 <= p < c.len(),
        pushed_from(c, aux, c2, aux2, p),
        is_child(c, p, w),
    ensures
        par_of(c2, w) == Some(p),
        is_child(c2, p, w),
        aux2[w].lo == aux[w].lo,
        aux2[w].hi == aux[w].hi,
{
    lemma_child(c, pos, aux, p, w);
    assert(pushed_at(c, aux, c2, aux2, p, w));
}

/// The cells that are not on the preferred path `path` are the same in the two
/// arenas.
spec fn same_off_path<N: Node>(
    pos: Seq<Pos>,
    path: Seq<int>,
    a: Seq<Cell<N>>,
    aa: Seq<Aux<N::Lazy>>,
    b: Seq<Cell<N>>,
    ba: Seq<Aux<N::Lazy>>,
) -> bool {
    forall|w: int| 0 <= w < a.len() && pos[w].path != path ==> #[trigger] same_at(a, aa, b, ba, w)
}

/// Cell `w` is the same in the two arenas.
spec fn same_at<N: Node>(
    a: Seq<Cell<N>>,
    aa: Seq<Aux<N::Lazy>>,
    b: Seq<Cell<N>>,
    ba: Seq<Aux<N::Lazy>>,
    w: int,
) -> bool {
    b[w] == a[w] && ba[w] == aa[w]
}

/// Being the same off a path carries over two steps.
proof fn lemma_off_path_trans<N: Node>(
    pos: Seq<Pos>,
    path: Seq<int>,
    a: Seq<Cell<N>>,
    aa: Seq<Aux<N::Lazy>>,
    b: Seq<Cell<N>>,
    ba: Seq<Aux<N::Lazy>>,
    c: Seq<Cell<N>>,
    ca: Seq<Aux<N::Lazy>>,
)
    requires
        a.len() == b.len(),
        same_off_path(pos, path, a, aa, b, ba),
        same_off_path(pos, path, b, ba, c, ca),
    ensures
        same_off_path(pos, path, a, aa, c, ca),
{
    assert forall|w: int| 0 <= w < a.len() && pos[w].path != path implies #[trigger] same_at(
        a,
        aa,
        c,
        ca,
        w,
    ) by {
        assert(same_at(a, aa, b, ba, w));
        assert(same_at(b, ba, c, ca, w));
    }
}

/// A push at `p` changes cells of the preferred path of `p` only.
proof fn lemma_push_off_path<N: Node>(
    c: Seq<Cell<N>>,
    pos: Seq<Pos>,
    aux: Seq<Aux<N::Lazy>>,
    c2: Seq<Cell<N>>,
    aux2: Seq<Aux<N::Lazy>>,
    p: int,
)
    requires
        forest_inv(c, pos, aux),
        0 <= p < c.len(),
        pushed_from(c, aux, c2, aux2, p),
    ensures
        same_off_path(pos, pos[p].path, c, aux, c2, aux2),
{
    assert forall|w: int| 0 <= w < c.len() && pos[w].path != pos[p].path implies #[trigger] same_at(
        c,
        aux,
        c2,
        aux2,
        w,
    ) by {
        if is_child(c, p, w) {
            lemma_child(c, pos, aux, p, w);
        }
        assert(pushed_at(c, aux, c2, aux2, p, w));
    }
}

/// A rotation of `t` changes cells of the preferred path of `t` only.
proof fn lemma_rotate_off_path<N: Node>(
    c: Seq<Cell<N>>,
    pos: Seq<Pos>,
    aux: Seq<Aux<N::Lazy>>,
    c2: Seq<Cell<N>>,
    aux2: Seq<Aux<N::Lazy>>,
    t: int,
    x: int,
    s: int,
)
    requires
        rotation_ready(c, pos, aux, t, x, s),
        rotated_from(c, pos, aux, c2, aux2, t, x, s),
    ensures
        same_off_path(pos, pos[t].path, c, aux, c2, aux2),
{
    lemma_rotation_shape(c, pos, aux, t, x, s);
    assert forall|w: int| 0 <= w < c.len() && pos[w].path != pos[t].path implies #[trigger] same_at(
        c,
        aux,
        c2,
        aux2,
        w,
    ) by {
        assert(rotated_at(c, aux, c2, aux2, t, x, s, w));
        if is_child(c, t, w) {
            lemma_child(c, pos, aux, t, w);
        }
        if is_child(c, w, x) {
            lemma_child(c, pos, aux, w, x);
        }
    }
}

/// Brings `t` to the root of its splay tree by rotations, two levels at a time,
/// after handing down whatever is pending on the way.
#[verifier::rlimit(50)]
fn splay<N: Node>(f: &mut Forest<N>, t: usize)
    requires
        old(f).wf(),
        t < old(f).len(),
    ensures
        final(f).wf(),
        final(f).pos@ == old(f).pos@,
        same_values(old(f).cells@, old(f).aux@, final(f).cells@, final(f).aux@),
        final(f).is_aux_root(t as int),
        final(f).pushed(t as int),
        old(f).is_fresh(t as int) || !old(f).is_aux_root(t as int) ==> final(f).is_fresh(t as int),
        same_off_path(
            old(f).pos@,
            old(f).pos@[t as int].path,
            old(f).cells@,
            old(f).aux@,
            final(f).cells@,
            final(f).aux@,
        ),
{
    let ghost c0 = f.cells@;
    let ghost aux0 = f.aux@;
    let ghost pos = f.pos@;
    proof {
        assert(node_inv(c0, pos, aux0, t as int));
    }
    push(f, t);
    proof {
        lemma_push_off_path(c0, pos, aux0, f.cells@, f.aux@, t as int);
    }
    while !is_root(f, t)
        invariant
            f.wf(),
            t < f.len(),
            f.cells@.len() == c0.len(),
            f.pos@ == pos,
            same_values(c0, aux0, f.cells@, f.aux@),
            f.pushed(t as int),
            fresh(c0, aux0, t as int) || !aux_root(c0, t as int) ==> f.is_fresh(t as int),
            same_off_path(pos, pos[t as int].path, c0, aux0, f.cells@, f.aux@),
        decreases pos[t as int].path.len() - (f.aux@[t as int].hi - f.aux@[t as int].lo),
    {
        let ghost c = f.cells@;
        let ghost aux = f.aux@;
        proof {
            assert(node_inv(c, pos, aux, t as int));
        }
        let q = f.cells[t].par.unwrap();
        proof {
            lemma_child(c, pos, aux, q as int, t as int);
            assert(node_inv(c, pos, aux, q as int));
        }
        if is_root(f, q) {
            push(f, q);
            let ghost c1 = f.cells@;
            let ghost aux1 = f.aux@;
            proof {
                lemma_push_child(c, pos, aux, c1, aux1, q as int, t as int);
            }
            push(f, t);
            let ghost c2 = f.cells@;
            let ghost aux2 = f.aux@;
            proof {
                lemma_child(c1, pos, aux1, q as int, t as int);
                assert(node_inv(c1, pos, aux1, q as int));
                if is_child(c1, t as int, q as int) {
                    lemma_child(c1, pos, aux1, t as int, q as int);
                }
                lemma_push_frame(c1, pos, aux1, c2, aux2, t as int, q as int);
            }
            let d = parent_dir(f, Some(q), t).unwrap();
            rotate(f, t, 1 - d);
            proof {
                let pt = pos[t as int].path;
                lemma_push_off_path(c, pos, aux, c1, aux1, q as int);
                lemma_push_off_path(c1, pos, aux1, c2, aux2, t as int);
                lemma_rotate_off_path(c2, pos, aux2, f.cells@, f.aux@, t as int, q as int, d as int);
                lemma_off_path_trans(pos, pt, c0, aux0, c, aux, c1, aux1);
                lemma_off_path_trans(pos, pt, c0, aux0, c1, aux1, c2, aux2);
                lemma_off_path_trans(pos, pt, c0, aux0, c2, aux2, f.cells@, f.aux@);
                assert(same_values(c0, aux0, f.cells@, f.aux@)) by {
                    assert forall|w: int| 0 <= w < c0.len() implies #[trigger] true_value(
                        f.cells@,
                        f.aux@,
                        w,
                    ) == true_value(c0, aux0, w) by {
                        assert(true_value(c, aux, w) == true_value(c0, aux0, w));
                        assert(true_value(c1, aux1, w) == true_value(c, aux, w));
                        assert(true_value(c2, aux2, w) == true_value(c1, aux1, w));
                    }
                }
            }
        } else {
            let r = f.cells[q].par.unwrap();
            proof {
                lemma_child(c, pos, aux, r as int, q as int);
                assert(node_inv(c, pos, aux, r as int));
            }
            push(f, r);
            let ghost c1 = f.cells@;
            let ghost aux1 = f.aux@;
            proof {
                lemma_push_child(c, pos, aux, c1, aux1, r as int, q as int);
                if is_child(c, r as int, t as int) {
                    lemma_child(c, pos, aux, r as int, t as int);
                }
                lemma_push_frame(c, pos, aux, c1, aux1, r as int, t as int);
                assert(is_child(c1, q as int, t as int));
            }
            push(f, q);
            let ghost c2 = f.cells@;
            let ghost aux2 = f.aux@;
            proof {
                lemma_child(c1, pos, aux1, r as int, q as int);
                if is_child(c1, q as int, r as int) {
                    lemma_child(c1, pos, aux1, q as int, r as int);
                }
                lemma_push_frame(c1, pos, aux1, c2, aux2, q as int, r as int);
                lemma_push_child(c1, pos, aux1, c2, aux2, q as int, t as int);
            }
            push(f, t);
            let ghost c3 = f.cells@;
            let ghost aux3 = f.aux@;
            proof {
                lemma_child(c2, pos, aux2, q as int, t as int);
                lemma_child(c2, pos, aux2, r as int, q as int);
                if is_child(c2, t as int, q as int) {
                    lemma_child(c2, pos, aux2, t as int, q as int);
                }
                if is_child(c2, t as int, r as int) {
                    lemma_child(c2, pos, aux2, t as int, r as int);
                }
                lemma_push_frame(c2, pos, aux2, c3, aux3, t as int, q as int);
                lemma_push_frame(c2, pos, aux2, c3, aux3, t as int, r as int);
                let pt = pos[t as int].path;
                lemma_push_off_path(c, pos, aux, c1, aux1, r as int);
                lemma_push_off_path(c1, pos, aux1, c2, aux2, q as int);
                lemma_push_off_path(c2, pos, aux2, c3, aux3, t as int);
                lemma_off_path_trans(pos, pt, c0, aux0, c, aux, c1, aux1);
                lemma_off_path_trans(pos, pt, c0, aux0, c1, aux1, c2, aux2);
                lemma_off_path_trans(pos, pt, c0, aux0, c2, aux2, c3, aux3);
                assert(same_values(c0, aux0, c3, aux3)) by {
                    assert forall|w: int| 0 <= w < c0.len() implies #[trigger] true_value(c3, aux3, w)
                        == true_value(c0, aux0, w) by {
                        assert(true_value(c, aux, w) == true_value(c0, aux0, w));
                        assert(true_value(c1, aux1, w) == true_value(c, aux, w));
                        assert(true_value(c2, aux2, w) == true_value(c1, aux1, w));
                    }
                }
            }
            let rq_dir = parent_dir(f, Some(r), q).unwrap();
            let qt_dir = parent_dir(f, Some(q), t).unwrap();
            proof {
                lemma_child(c3, pos, aux3, q as int, t as int);
                lemma_child(c3, pos, aux3, r as int, q as int);
                if ch0_of(c3, q as int) is Some {
                    lemma_children_differ(c3, pos, aux3, q as int);
                }
                if ch0_of(c3, r as int) is Some {
                    lemma_children_differ(c3, pos, aux3, r as int);
                }
            }
            if rq_dir == qt_dir {
                rotate(f, q, 1 - rq_dir);
                let ghost c4 = f.cells@;
                let ghost aux4 = f.aux@;
                proof {
                    assert(rotated_at(c3, aux3, c4, aux4, q as int, r as int, rq_dir as int, t as int));
                    assert(c4[t as int] == c3[t as int]);
                }
                rotate(f, t, 1 - qt_dir);
                proof {
                    let pt = pos[t as int].path;
                    lemma_rotate_off_path(c3, pos, aux3, c4, aux4, q as int, r as int, rq_dir as int);
                    lemma_rotate_off_path(c4, pos, aux4, f.cells@, f.aux@, t as int, q as int, qt_dir as int);
                    lemma_off_path_trans(pos, pt, c0, aux0, c3, aux3, c4, aux4);
                    lemma_off_path_trans(pos, pt, c0, aux0, c4, aux4, f.cells@, f.aux@);
                    assert(same_values(c0, aux0, f.cells@, f.aux@)) by {
                        assert forall|w: int| 0 <= w < c0.len() implies #[trigger] true_value(
                            f.cells@,
                            f.aux@,
                            w,
                        ) == true_value(c0, aux0, w) by {
                            assert(true_value(c3, aux3, w) == true_value(c0, aux0, w));
                            assert(true_value(c4, aux4, w) == true_value(c3, aux3, w));
                        }
                    }
                }
            } else {
                rotate(f, t, 1 - qt_dir);
                let ghost c4 = f.cells@;
                let ghost aux4 = f.aux@;
                proof {
                    assert(rotated_at(c3, aux3, c4, aux4, t as int, q as int, qt_dir as int, r as int));
                }
                rotate(f, t, 1 - rq_dir);
                proof {
                    let pt = pos[t as int].path;
                    lemma_rotate_off_path(c3, pos, aux3, c4, aux4, t as int, q as int, qt_dir as int);
                    lemma_rotate_off_path(c4, pos, aux4, f.cells@, f.aux@, t as int, r as int, rq_dir as int);
                    lemma_off_path_trans(pos, pt, c0, aux0, c3, aux3, c4, aux4);
                    lemma_off_path_trans(pos, pt, c0, aux0, c4, aux4, f.cells@, f.aux@);
                    assert(same_values(c0, aux0, f.cells@, f.aux@)) by {
                        assert forall|w: int| 0 <= w < c0.len() implies #[trigger] true_value(
                            f.cells@,
                            f.aux@,
                            w,
                        ) == true_value(c0, aux0, w) by {
                            assert(true_value(c3, aux3, w) == true_value(c0, aux0, w));
                            assert(true_value(c4, aux4, w) == true_value(c3, aux3, w));
                        }
                    }
                }
            }
        }
    }
}

/// A cell `w` on the preferred path of `top` whose index lies in the interval of
/// `top` is `top` itself or hangs below it, on the side of its index.
proof fn lemma_in_tree<N: Node>(c: Seq<Cell<N>>, pos: Seq<Pos>, aux: Seq<Aux<N::Lazy>>, top: int, w: int)
    requires
        forest_inv(c, pos, aux),
        0 <= top < c.len(),
        0 <= w < c.len(),
        pos[w].path == pos[top].path,
        aux[top].lo <= pos[w].tp < aux[top].hi,
        w != top,
    ensures
        !aux_root(c, w),
        aux[top].lo <= aux[w].lo,
        aux[w].hi <= aux[top].hi,
        pos[w].tp < pos[top].tp ==> aux[w].hi <= pos[top].tp,
        pos[w].tp > pos[top].tp ==> aux[w].lo > pos[top].tp,
        pos[w].tp != pos[top].tp,
    decreases aux[top].hi - aux[top].lo,
{
    assert(node_inv(c, pos, aux, top));
    assert(node_inv(c, pos, aux, w));
    assert(path_inv(pos, top));
    assert(path_inv(pos, w));
    if pos[w].tp == pos[top].tp {
        assert(pos[top].path[pos[top].tp] == top);
        assert(false);
    } else {
        let k = if pos[w].tp < pos[top].tp {
            low_child(c, aux, top)
        } else {
            high_child(c, aux, top)
        };
        assert(k is Some);
        lemma_child(c, pos, aux, top, k.unwrap());
        if k.unwrap() != w {
            lemma_in_tree(c, pos, aux, k.unwrap(), w);
        }
    }
}

/// The preferred paths after the cell `cc` has given up the part of its path
/// below it and taken the path of `r` in its place.
spec fn attach_pos(pos: Seq<Pos>, cc: int, r: Option<int>) -> Seq<Pos> {
    let p = pos[cc].path;
    let i = pos[cc].tp;
    let below = match r {
        Some(r) => pos[r].path,
        None => Seq::<int>::empty(),
    };
    Seq::new(
        pos.len(),
        |w: int|
            if pos[w].path == p {
                if pos[w].tp <= i {
                    Pos { path: p.take(i + 1) + below, tp: pos[w].tp, ppar: pos[w].ppar, rpath: pos[w].rpath }
                } else {
                    Pos {
                        path: p.skip(i + 1),
                        tp: pos[w].tp - (i + 1),
                        ppar: Some(cc),
                        rpath: pos[w].rpath,
                    }
                }
            } else if r is Some && pos[w].path == below {
                Pos {
                    path: p.take(i + 1) + below,
                    tp: pos[w].tp + i + 1,
                    ppar: pos[cc].ppar,
                    rpath: pos[w].rpath,
                }
            } else {
                pos[w]
            },
    )
}

/// The intervals after the same step.
spec fn attach_aux<L>(pos: Seq<Pos>, aux: Seq<Aux<L>>, cc: int, r: Option<int>) -> Seq<Aux<L>> {
    let p = pos[cc].path;
    let i = pos[cc].tp;
    let below = match r {
        Some(r) => pos[r].path,
        None => Seq::<int>::empty(),
    };
    Seq::new(
        aux.len(),
        |w: int|
            if w == cc {
                Aux { lo: 0, hi: i + 1 + below.len(), q: aux[w].q, acc: aux[w].acc }
            } else if pos[w].path == p {
                if pos[w].tp <= i {
                    aux[w]
                } else {
                    Aux { lo: aux[w].lo - (i + 1), hi: aux[w].hi - (i + 1), q: aux[w].q, acc: aux[w].acc }
                }
            } else if r is Some && pos[w].path == below {
                Aux { lo: aux[w].lo + i + 1, hi: aux[w].hi + i + 1, q: aux[w].q, acc: aux[w].acc }
            } else {
                aux[w]
            },
    )
}

/// What the step starts from: `cc` is the root of its splay tree with nothing
/// pending, and `r`, if there is one, is the root of the splay tree of a path
/// that hangs under `cc`, with fresh caches.
spec fn attach_ready<N: Node>(
    c: Seq<Cell<N>>,
    pos: Seq<Pos>,
    aux: Seq<Aux<N::Lazy>>,
    cc: int,
    r: Option<int>,
) -> bool {
    &&& forest_inv(c, pos, aux)
    &&& 0 <= cc < c.len()
    &&& aux_root(c, cc)
    &&& !rev_of(c, cc)
    &&& c[cc].node.lazy_spec() == N::lazy_id()
    &&& match r {
        Some(r) => {
            &&& 0 <= r < c.len()
            &&& aux_root(c, r)
            &&& pos[r].ppar == Some(cc)
            &&& fresh(c, aux, r)
        },
        None => true,
    }
}

/// What the step does to the cells: the right child of `cc` becomes `r` and the
/// caches of `cc` are recomputed.
spec fn attached_from<N: Node>(c: Seq<Cell<N>>, c2: Seq<Cell<N>>, cc: int, r: Option<int>) -> bool {
    &&& c2.len() == c.len()
    &&& forall|w: int| 0 <= w < c.len() && w != cc ==> #[trigger] c2[w] == c[w]
    &&& ch0_of(c2, cc) == ch0_of(c, cc)
    &&& ch1_of(c2, cc) == r
    &&& par_of(c2, cc) == par_of(c, cc)
    &&& rev_of(c2, cc) == rev_of(c, cc)
    &&& c2[cc].node.value_spec() == c[cc].node.value_spec()
    &&& c2[cc].node.lazy_spec() == c[cc].node.lazy_spec()
    &&& fixed(c2, cc)
}

/// The step keeps the invariants of the preferred paths and the paths from the
/// roots.
#[verifier::rlimit(50)]
proof fn lemma_attach_paths<N: Node>(
    c: Seq<Cell<N>>,
    pos: Seq<Pos>,
    aux: Seq<Aux<N::Lazy>>,
    cc: int,
    r: Option<int>,
)
    requires
        attach_ready(c, pos, aux, cc, r),
    ensures
        forall|w: int| 0 <= w < pos.len() ==> #[trigger] path_inv(attach_pos(pos, cc, r), w),
        forall|w: int| 0 <= w < pos.len() ==> #[trigger] rpath_inv(attach_pos(pos, cc, r), w),
        forall|w: int|
            0 <= w < pos.len() ==> real_parent(attach_pos(pos, cc, r), w) == #[trigger] real_parent(pos, w),
        r is Some ==> pos[r.unwrap()].path != pos[cc].path,
{
    let pos2 = attach_pos(pos, cc, r);
    let p = pos[cc].path;
    let i = pos[cc].tp;
    let below = match r {
        Some(r) => pos[r].path,
        None => Seq::<int>::empty(),
    };
    let merged = p.take(i + 1) + below;
    let rest = p.skip(i + 1);
    assert(path_inv(pos, cc));
    if r is Some {
        lemma_ppar_off_path(pos, r.unwrap());
        assert(path_inv(pos, r.unwrap()));
    }
    assert forall|w: int|
        #![trigger path_inv(pos2, w)]
        0 <= w < pos.len() implies path_inv(pos2, w) && real_parent(pos2, w) == real_parent(pos, w) by {
        assert(path_inv(pos, w));
        if pos[w].path == p {
            assert(pos[cc].path[pos[w].tp] == w);
            if pos[w].tp <= i {
                assert forall|j: int| 0 <= j < merged.len() implies {
                    let u = #[trigger] merged[j];
                    &&& 0 <= u < pos2.len()
                    &&& pos2[u].path == merged
                    &&& pos2[u].tp == j
                    &&& pos2[u].ppar == pos2[w].ppar
                } by {
                    if j <= i {
                        let u = p[j];
                        assert(merged[j] == u);
                        assert(pos[u].path == p);
                    } else {
                        let u = below[j - i - 1];
                        assert(merged[j] == u);
                        assert(pos[u].path == below);
                    }
                }
                if pos[w].tp > 0 {
                    assert(merged[pos[w].tp - 1] == p[pos[w].tp - 1]);
                }
            } else {
                assert forall|j: int| 0 <= j < rest.len() implies {
                    let u = #[trigger] rest[j];
                    &&& 0 <= u < pos2.len()
                    &&& pos2[u].path == rest
                    &&& pos2[u].tp == j
                    &&& pos2[u].ppar == pos2[w].ppar
                } by {
                    let u = p[j + i + 1];
                    assert(rest[j] == u);
                    assert(pos[u].path == p);
                }
                if pos[w].tp - (i + 1) > 0 {
                    assert(rest[pos[w].tp - (i + 1) - 1] == p[pos[w].tp - 1]);
                }
            }
        } else if r is Some && pos[w].path == below {
            let rr = r.unwrap();
            assert(pos[rr].path[pos[w].tp] == w);
            assert forall|j: int| 0 <= j < merged.len() implies {
                let u = #[trigger] merged[j];
                &&& 0 <= u < pos2.len()
                &&& pos2[u].path == merged
                &&& pos2[u].tp == j
                &&& pos2[u].ppar == pos2[w].ppar
            } by {
                if j <= i {
                    let u = p[j];
                    assert(merged[j] == u);
                    assert(pos[u].path == p);
                } else {
                    let u = below[j - i - 1];
                    assert(merged[j] == u);
                    assert(pos[u].path == below);
                }
            }
            assert(pos[w].ppar == Some(cc));
            if pos[w].tp > 0 {
                assert(merged[pos[w].tp + i] == below[pos[w].tp - 1]);
            } else {
                assert(merged[i] == p[i]);
            }
        } else {
            assert forall|j: int| 0 <= j < pos[w].path.len() implies {
                let u = #[trigger] pos2[w].path[j];
                &&& 0 <= u < pos2.len()
                &&& pos2[u].path == pos2[w].path
                &&& pos2[u].tp == j
                &&& pos2[u].ppar == pos2[w].ppar
            } by {
                let u = pos[w].path[j];
                assert(pos[u].path == pos[w].path);
            }
        }
    }
    assert forall|w: int| 0 <= w < pos.len() implies #[trigger] rpath_inv(pos2, w) by {
        assert(rpath_inv(pos, w));
        assert(path_inv(pos2, w));
        assert(real_parent(pos2, w) == real_parent(pos, w));
        assert(pos2[w].rpath == pos[w].rpath);
        if real_parent(pos, w) is Some {
            let u = real_parent(pos, w).unwrap();
            assert(path_inv(pos, w));
            lemma_real_parent(pos, w);
            assert(pos2[u].rpath == pos[u].rpath);
        }
    }
    assert forall|w: int| 0 <= w < pos.len() implies real_parent(pos2, w) == #[trigger] real_parent(
        pos,
        w,
    ) by {
        assert(path_inv(pos2, w));
        assert(real_parent(pos2, w) == real_parent(pos, w));
    }
}

/// The invariant of `cc` after the attaching step.
#[verifier::rlimit(50)]
proof fn lemma_attach_top<N: Node>(
    c: Seq<Cell<N>>,
    pos: Seq<Pos>,
    aux: Seq<Aux<N::Lazy>>,
    c2: Seq<Cell<N>>,
    cc: int,
    r: Option<int>,
)
    requires
        attach_ready(c, pos, aux, cc, r),
        attached_from(c, c2, cc, r),
    ensures
        node_inv(c2, attach_pos(pos, cc, r), attach_aux(pos, aux, cc, r), cc),
        fresh(c2, attach_aux(pos, aux, cc, r), cc),
        aux_root(c2, cc),
{
    let pos2 = attach_pos(pos, cc, r);
    let aux2 = attach_aux(pos, aux, cc, r);
    let i = pos[cc].tp;
    assert(node_inv(c, pos, aux, cc));
    assert(path_inv(pos, cc));
    N::lemma_lazy_monoid(N::lazy_id(), N::lazy_id(), N::lazy_id());
    let g = ch0_of(c, cc);
    if g is Some {
        let k = g.unwrap();
        lemma_child(c, pos, aux, cc, k);
        assert(node_inv(c, pos, aux, k));
        assert(c2[k] == c[k]);
        assert(aux2[k] == aux[k]);
        N::lemma_act_id(c[cc].node.value_spec(), c[k].node.summary_spec(), c[k].node.size_spec() as nat);
    }
    if r is Some {
        let rr = r.unwrap();
        lemma_ppar_off_path(pos, rr);
        assert(node_inv(c, pos, aux, rr));
        assert(path_inv(pos, rr));
        assert(c2[rr] == c[rr]);
        N::lemma_act_id(c[cc].node.value_spec(), c[rr].node.summary_spec(), c[rr].node.size_spec() as nat);
        assert(aux2[rr].lo == i + 1);
        assert(aux2[rr].hi == i + 1 + pos[rr].path.len());
    }
    if par_of(c, cc) is Some {
        let pw = par_of(c, cc).unwrap();
        assert(pw != cc) by {
            if pw == cc {
                lemma_ppar_off_path(pos, cc);
            }
        }
        assert(c2[pw] == c[pw]);
    }
    assert(aux_root(c2, cc));
    assert(child_ok(c2, pos2, aux2, cc, low_child(c2, aux2, cc), aux2[cc].lo, pos2[cc].tp));
    assert(child_ok(c2, pos2, aux2, cc, high_child(c2, aux2, cc), pos2[cc].tp + 1, aux2[cc].hi));
}

/// The invariant, after the attaching step, of a cell that was on the path of
/// `cc`, above or below it.
#[verifier::rlimit(50)]
proof fn lemma_attach_on_path<N: Node>(
    c: Seq<Cell<N>>,
    pos: Seq<Pos>,
    aux: Seq<Aux<N::Lazy>>,
    c2: Seq<Cell<N>>,
    cc: int,
    r: Option<int>,
    w: int,
)
    requires
        attach_ready(c, pos, aux, cc, r),
        attached_from(c, c2, cc, r),
        0 <= w < c.len(),
        w != cc,
        pos[w].path == pos[cc].path,
    ensures
        node_inv(c2, attach_pos(pos, cc, r), attach_aux(pos, aux, cc, r), w),
        Some(w) != ch1_of(c, cc) ==> !aux_root(c2, w),
        Some(w) != r,
{
    let pos2 = attach_pos(pos, cc, r);
    let aux2 = attach_aux(pos, aux, cc, r);
    assert(node_inv(c, pos, aux, cc));
    assert(node_inv(c, pos, aux, w));
    assert(path_inv(pos, cc));
    assert(path_inv(pos, w));
    lemma_in_tree(c, pos, aux, cc, w);
    N::lemma_lazy_monoid(N::lazy_id(), N::lazy_id(), N::lazy_id());
    if r is Some {
        lemma_ppar_off_path(pos, r.unwrap());
    }
    assert(c2[w] == c[w]);
    let g0 = ch0_of(c, w);
    let g1 = ch1_of(c, w);
    if g0 is Some {
        let k = g0.unwrap();
        lemma_child(c, pos, aux, w, k);
        assert(node_inv(c, pos, aux, k));
        assert(c2[k] == c[k]);
        assert(pos2[k].path == pos2[w].path);
    }
    if g1 is Some {
        let k = g1.unwrap();
        lemma_child(c, pos, aux, w, k);
        assert(node_inv(c, pos, aux, k));
        assert(c2[k] == c[k]);
        assert(pos2[k].path == pos2[w].path);
    }
    let pw = par_of(c, w).unwrap();
    if pw != cc {
        assert(c2[pw] == c[pw]);
    } else {
        lemma_child(c, pos, aux, cc, w);
        if ch0_of(c, cc) is Some {
            lemma_children_differ(c, pos, aux, cc);
        }
    }
    assert(child_ok(c2, pos2, aux2, w, low_child(c2, aux2, w), aux2[w].lo, pos2[w].tp));
    assert(child_ok(c2, pos2, aux2, w, high_child(c2, aux2, w), pos2[w].tp + 1, aux2[w].hi));
    if !aux_root(c2, w) {
        assert(child_sum(c2, w, g0) == child_sum(c, w, g0));
        assert(child_sum(c2, w, g1) == child_sum(c, w, g1));
        assert(fresh(c2, aux2, w));
    }
}

/// The invariant, after the attaching step, of a cell that was on the path of
/// `r`.
#[verifier::rlimit(50)]
proof fn lemma_attach_below<N: Node>(
    c: Seq<Cell<N>>,
    pos: Seq<Pos>,
    aux: Seq<Aux<N::Lazy>>,
    c2: Seq<Cell<N>>,
    cc: int,
    r: Option<int>,
    w: int,
)
    requires
        attach_ready(c, pos, aux, cc, r),
        attached_from(c, c2, cc, r),
        0 <= w < c.len(),
        r is Some,
        pos[w].path == pos[r.unwrap()].path,
    ensures
        node_inv(c2, attach_pos(pos, cc, r), attach_aux(pos, aux, cc, r), w),
        !aux_root(c2, w),
        w != cc,
        Some(w) != ch1_of(c, cc),
{
    let pos2 = attach_pos(pos, cc, r);
    let aux2 = attach_aux(pos, aux, cc, r);
    let rr = r.unwrap();
    lemma_ppar_off_path(pos, rr);
    assert(node_inv(c, pos, aux, cc));
    assert(node_inv(c, pos, aux, w));
    assert(node_inv(c, pos, aux, rr));
    assert(path_inv(pos, cc));
    assert(path_inv(pos, w));
    if w != rr {
        lemma_in_tree(c, pos, aux, rr, w);
    }
    if is_child(c, cc, w) {
        lemma_child(c, pos, aux, cc, w);
    }
    assert(c2[w] == c[w]);
    let g0 = ch0_of(c, w);
    let g1 = ch1_of(c, w);
    if g0 is Some {
        let k = g0.unwrap();
        lemma_child(c, pos, aux, w, k);
        assert(c2[k] == c[k]);
        assert(pos2[k].path == pos2[w].path);
    }
    if g1 is Some {
        let k = g1.unwrap();
        lemma_child(c, pos, aux, w, k);
        assert(c2[k] == c[k]);
        assert(pos2[k].path == pos2[w].path);
    }
    if w != rr {
        let pw = par_of(c, w).unwrap();
        lemma_child(c, pos, aux, pw, w);
        assert(c2[pw] == c[pw]);
    }
    assert(!aux_root(c2, w));
    assert(child_ok(c2, pos2, aux2, w, low_child(c2, aux2, w), aux2[w].lo, pos2[w].tp));
    assert(child_ok(c2, pos2, aux2, w, high_child(c2, aux2, w), pos2[w].tp + 1, aux2[w].hi));
    assert(child_sum(c2, w, g0) == child_sum(c, w, g0));
    assert(child_sum(c2, w, g1) == child_sum(c, w, g1));
    assert(fresh(c, aux, w));
    assert(fresh(c2, aux2, w));
}

/// The invariant, after the attaching step, of a cell on another path.
proof fn lemma_attach_other<N: Node>(
    c: Seq<Cell<N>>,
    pos: Seq<Pos>,
    aux: Seq<Aux<N::Lazy>>,
    c2: Seq<Cell<N>>,
    cc: int,
    r: Option<int>,
    w: int,
)
    requires
        attach_ready(c, pos, aux, cc, r),
        attached_from(c, c2, cc, r),
        0 <= w < c.len(),
        pos[w].path != pos[cc].path,
        r is Some ==> pos[w].path != pos[r.unwrap()].path,
    ensures
        node_inv(c2, attach_pos(pos, cc, r), attach_aux(pos, aux, cc, r), w),
        aux_root(c2, w) == aux_root(c, w),
        attach_pos(pos, cc, r)[w] == pos[w],
        attach_aux(pos, aux, cc, r)[w] == aux[w],
        c2[w] == c[w],
{
    let pos2 = attach_pos(pos, cc, r);
    let aux2 = attach_aux(pos, aux, cc, r);
    assert(node_inv(c, pos, aux, cc));
    assert(node_inv(c, pos, aux, w));
    if is_child(c, cc, w) {
        lemma_child(c, pos, aux, cc, w);
    }
    assert(c2[w] == c[w]);
    let g0 = ch0_of(c, w);
    let g1 = ch1_of(c, w);
    if g0 is Some {
        let k = g0.unwrap();
        lemma_child(c, pos, aux, w, k);
        assert(c2[k] == c[k]);
    }
    if g1 is Some {
        let k = g1.unwrap();
        lemma_child(c, pos, aux, w, k);
        assert(c2[k] == c[k]);
    }
    if par_of(c, w) is Some {
        let pw = par_of(c, w).unwrap();
        if pw != cc {
            assert(c2[pw] == c[pw]);
        }
    }
    assert(aux_root(c2, w) == aux_root(c, w));
    assert(child_ok(c2, pos2, aux2, w, low_child(c2, aux2, w), aux2[w].lo, pos2[w].tp));
    assert(child_ok(c2, pos2, aux2, w, high_child(c2, aux2, w), pos2[w].tp + 1, aux2[w].hi));
    assert(child_sum(c2, w, g0) == child_sum(c, w, g0));
    assert(child_sum(c2, w, g1) == child_sum(c, w, g1));
}

/// The attaching step keeps the invariant, the true values and the paths from
/// the roots.
proof fn lemma_attach_inv<N: Node>(
    c: Seq<Cell<N>>,
    pos: Seq<Pos>,
    aux: Seq<Aux<N::Lazy>>,
    c2: Seq<Cell<N>>,
    cc: int,
    r: Option<int>,
)
    requires
        attach_ready(c, pos, aux, cc, r),
        attached_from(c, c2, cc, r),
    ensures
        forest_inv(c2, attach_pos(pos, cc, r), attach_aux(pos, aux, cc, r)),
        same_values(c, aux, c2, attach_aux(pos, aux, cc, r)),
        fresh(c2, attach_aux(pos, aux, cc, r), cc),
        aux_root(c2, cc),
{
    let pos2 = attach_pos(pos, cc, r);
    let aux2 = attach_aux(pos, aux, cc, r);
    lemma_attach_paths(c, pos, aux, cc, r);
    lemma_attach_top(c, pos, aux, c2, cc, r);
    assert forall|w: int| 0 <= w < c.len() implies #[trigger] node_inv(c2, pos2, aux2, w) by {
        if w == cc {
        } else if pos[w].path == pos[cc].path {
            lemma_attach_on_path(c, pos, aux, c2, cc, r, w);
        } else if r is Some && pos[w].path == pos[r.unwrap()].path {
            lemma_attach_below(c, pos, aux, c2, cc, r, w);
        } else {
            lemma_attach_other(c, pos, aux, c2, cc, r, w);
        }
    }
    assert forall|w: int| 0 <= w < c.len() implies #[trigger] true_value(c2, aux2, w) == true_value(
        c,
        aux,
        w,
    ) by {
        if w != cc {
            assert(c2[w] == c[w]);
        }
    }
}

impl<N: Node> Forest<N> {
    /// The preferred path that `x` is on, from its top down.
    pub closed spec fn preferred_path(&self, x: int) -> Seq<int> {
        self.pos@[x].path
    }

    /// The forest parent of the top of the preferred path of `x`.
    pub closed spec fn path_parent(&self, x: int) -> Option<int> {
        self.pos@[x].ppar
    }
}

/// One step of `expose`: the part of the path of `cc` below `cc` is split off,
/// and the path whose splay tree has the root `rp` takes its place.
fn attach<N: Node>(f: &mut Forest<N>, cc: usize, rp: Link)
    requires
        attach_ready(old(f).cells@, old(f).pos@, old(f).aux@, cc as int, link_int(rp)),
    ensures
        final(f).wf(),
        final(f).cells@.len() == old(f).cells@.len(),
        final(f).pos@ == attach_pos(old(f).pos@, cc as int, link_int(rp)),
        final(f).aux@ == attach_aux(old(f).pos@, old(f).aux@, cc as int, link_int(rp)),
        attached_from(old(f).cells@, final(f).cells@, cc as int, link_int(rp)),
        same_values(old(f).cells@, old(f).aux@, final(f).cells@, final(f).aux@),
        final(f).is_fresh(cc as int),
        final(f).is_aux_root(cc as int),
        final(f).pushed(cc as int),
{
    let ghost c = f.cells@;
    let ghost pos = f.pos@;
    let ghost aux = f.aux@;
    let ghost r = link_int(rp);
    let ghost pos2 = attach_pos(pos, cc as int, r);
    // the arena is no longer than a machine integer can count
    let n = f.cells.len();
    proof {
        lemma_attach_paths(c, pos, aux, cc as int, r);
        assert(path_inv(pos2, cc as int));
        lemma_path_len(pos2, cc as int);
        assert(node_inv(c, pos, aux, cc as int));
        assert(path_inv(pos, cc as int));
        if ch0_of(c, cc as int) is Some {
            lemma_child(c, pos, aux, cc as int, ch0_of(c, cc as int).unwrap());
        }
        if r is Some {
            assert(node_inv(c, pos, aux, r.unwrap()));
            assert(path_inv(pos, r.unwrap()));
        }
    }
    set_child(f, cc, 1, rp);
    fix(f, cc);
    proof {
        f.pos@ = pos2;
        f.aux@ = attach_aux(pos, aux, cc as int, r);
        lemma_attach_inv(c, pos, aux, f.cells@, cc as int, r);
    }
}

/// On a preferred path that starts at a root of the forest, the path from the
/// root to a cell is the preferred path down to that cell.
proof fn lemma_top_path(pos: Seq<Pos>, x: int)
    requires
        0 <= x < pos.len(),
        forall|w: int| 0 <= w < pos.len() ==> #[trigger] path_inv(pos, w),
        forall|w: int| 0 <= w < pos.len() ==> #[trigger] rpath_inv(pos, w),
        pos[x].ppar is None,
    ensures
        pos[x].rpath == pos[x].path.take(pos[x].tp + 1),
{
    assert(path_inv(pos, x));
    let top = pos[x].path[0];
    assert(path_inv(pos, top));
    assert(rpath_inv(pos, top));
    lemma_depth_on_path(pos, x, pos[x].tp);
    assert(pos[x].rpath =~= pos[x].path.take(pos[x].tp + 1));
}

/// What the engine knows of the walk of `expose` from `t` up: `rp` is the root
/// of the splay tree of the path that ends at `t`, and that path hangs under
/// `cur`.
spec fn walk_inv<N: Node>(
    c: Seq<Cell<N>>,
    pos: Seq<Pos>,
    aux: Seq<Aux<N::Lazy>>,
    t: int,
    rp: Option<int>,
    cur: Option<int>,
) -> bool {
    &&& match cur {
        Some(cc) => 0 <= cc < c.len(),
        None => rp is Some,
    }
    &&& match rp {
        None => cur == Some(t),
        Some(r) => {
            &&& 0 <= r < c.len()
            &&& aux_root(c, r)
            &&& fresh(c, aux, r)
            &&& pos[r].ppar == cur
            &&& pos[t].path == pos[r].path
            &&& pos[t].tp == pos[t].path.len() - 1
        },
    }
}

/// The preferred paths that start at a root are as they were, and no other path
/// has come to start at a root.
spec fn tops_kept(pos0: Seq<Pos>, pos: Seq<Pos>) -> bool {
    &&& forall|x: int| 0 <= x < pos0.len() && (#[trigger] pos0[x]).ppar is None ==> pos[x] == pos0[x]
    &&& forall|x: int| 0 <= x < pos0.len() ==> (#[trigger] pos[x]) == pos0[x] || pos[x].ppar is Some
}

/// What `expose` hands back: a cell `w` that was on a preferred path starting at
/// a root, and that is followed, on the path that now ends at `t`, by a cell
/// that was not on that path with it.
spec fn entry_point(pos0: Seq<Pos>, pos: Seq<Pos>, t: int, w: int) -> bool {
    &&& 0 <= w < pos0.len()
    &&& pos0[w].ppar is None
    &&& pos[w].path == pos[t].path
    &&& pos[w].ppar is None
    &&& pos[w].tp + 1 < pos[w].path.len() ==> pos0[pos[w].path[pos[w].tp + 1]].path != pos0[w].path
}

/// Cell `w` with its place in the forest is the same in the two arenas.
spec fn kept_at<N: Node>(
    c0: Seq<Cell<N>>,
    pos0: Seq<Pos>,
    aux0: Seq<Aux<N::Lazy>>,
    c: Seq<Cell<N>>,
    pos: Seq<Pos>,
    aux: Seq<Aux<N::Lazy>>,
    w: int,
) -> bool {
    c[w] == c0[w] && pos[w] == pos0[w] && aux[w] == aux0[w]
}

/// The root of the tree that a cell is in.
spec fn root_of(pos: Seq<Pos>, x: int) -> int {
    pos[x].rpath[0]
}

/// The cells of one preferred path are in one tree, and the path from the root
/// to a cell ends at the cell.
proof fn lemma_path_root(pos: Seq<Pos>, x: int, y: int)
    requires
        0 <= x < pos.len(),
        0 <= y < pos.len(),
        forall|w: int| 0 <= w < pos.len() ==> #[trigger] path_inv(pos, w),
        forall|w: int| 0 <= w < pos.len() ==> #[trigger] rpath_inv(pos, w),
        pos[x].path == pos[y].path,
    ensures
        root_of(pos, x) == root_of(pos, y),
        pos[x].rpath.len() >= 1,
        pos[x].rpath.last() == x,
        pos[x].ppar is Some ==> root_of(pos, pos[x].ppar.unwrap()) == root_of(pos, x) && pos[pos[x].ppar.unwrap()].rpath.len()
            >= 1,
        pos[x].ppar is None ==> root_of(pos, x) == pos[x].path[0],
{
    assert(path_inv(pos, x));
    assert(path_inv(pos, y));
    assert(rpath_inv(pos, x));
    let top = pos[x].path[0];
    assert(path_inv(pos, top));
    assert(rpath_inv(pos, top));
    lemma_depth_on_path(pos, x, pos[x].tp);
    lemma_depth_on_path(pos, x, pos[y].tp);
    assert(pos[x].path[pos[x].tp] == x);
    assert(pos[x].path[pos[y].tp] == y);
    if pos[x].ppar is Some {
        let u = pos[x].ppar.unwrap();
        assert(rpath_inv(pos, u));
        assert(pos[top].rpath == pos[u].rpath.push(top));
    }
}

impl<N: Node> Forest<N> {
    /// The cell `w` is in this forest as it was in the forest `before`.
    pub closed spec fn same_cell(&self, before: &Self, w: int) -> bool {
        &&& self.cells@[w] == before.cells@[w]
        &&& self.pos@[w] == before.pos@[w]
        &&& self.aux@[w] == before.aux@[w]
    }

    /// `w` is where a walk from `t` up to the root, made in the forest `before`,
    /// reached the preferred path that started at the root: `w` was on that path,
    /// `w` lies on the path from the root to `t`, and the cell after `w` on the way
    /// to `t`, if there is one, was not on that preferred path.
    pub closed spec fn entered_at(&self, before: &Self, t: int, w: int) -> bool {
        entry_point(before.pos@, self.pos@, t, w)
    }
}

/// Makes the path from the root of its tree to `t` the preferred path that ends
/// at `t`, and `t` the root of the splay tree of that path. Hands back the cell
/// at which the walk up from `t` reached the path that started at the root
/// before.
#[verifier::rlimit(50)]
pub fn expose<N: Node>(f: &mut Forest<N>, t: usize) -> (r: Link)
    requires
        old(f).wf(),
        t < old(f).len(),
    ensures
        final(f).wf(),
        final(f).len() == old(f).len(),
        final(f).paths() == old(f).paths(),
        final(f).values() == old(f).values(),
        final(f).is_aux_root(t as int),
        final(f).pushed(t as int),
        final(f).is_fresh(t as int),
        final(f).preferred_path(t as int) == final(f).paths()[t as int],
        final(f).path_parent(t as int) is None,
        final(f).parent_link(t as int) is None,
        final(f).child_link(t as int, 1) is None,
        r is Some,
        r.unwrap() < old(f).len(),
        old(f).paths()[t as int].contains(r.unwrap() as int),
        final(f).entered_at(old(f), t as int, r.unwrap() as int),
        forall|w: int|
            0 <= w < old(f).len() && old(f).paths()[w][0] != old(f).paths()[t as int][0]
                ==> #[trigger] final(f).same_cell(old(f), w),
{
    let ghost c0 = f.cells@;
    let ghost pos0 = f.pos@;
    let ghost aux0 = f.aux@;
    let mut rp: Link = None;
    let mut cur: Link = Some(t);
    while cur.is_some()
        invariant
            f.wf(),
            t < f.len(),
            f.cells@.len() == c0.len(),
            forest_inv(c0, pos0, aux0),
            forall|w: int| 0 <= w < c0.len() ==> (#[trigger] f.pos@[w]).rpath == pos0[w].rpath,
            same_values(c0, aux0, f.cells@, f.aux@),
            walk_inv(f.cells@, f.pos@, f.aux@, t as int, link_int(rp), link_int(cur)),
            cur is Some ==> tops_kept(pos0, f.pos@),
            cur is None ==> entry_point(pos0, f.pos@, t as int, rp.unwrap() as int),
            cur is Some ==> root_of(pos0, cur.unwrap() as int) == root_of(pos0, t as int),
            forall|w: int|
                0 <= w < c0.len() && root_of(pos0, w) != root_of(pos0, t as int) ==> #[trigger] kept_at(
                    c0,
                    pos0,
                    aux0,
                    f.cells@,
                    f.pos@,
                    f.aux@,
                    w,
                ),
        decreases
            (match cur {
                Some(cc) => f.pos@[cc as int].rpath.len(),
                None => 0,
            }),
    {
        let cc = cur.unwrap();
        let ghost c1 = f.cells@;
        let ghost pos1 = f.pos@;
        let ghost aux1 = f.aux@;
        let ghost r = link_int(rp);
        proof {
            assert(node_inv(c1, pos1, aux1, cc as int));
            assert(path_inv(pos1, cc as int));
            if r is Some {
                lemma_ppar_off_path(pos1, r.unwrap());
                assert(node_inv(c1, pos1, aux1, r.unwrap()));
            }
        }
        splay(f, cc);
        let ghost c2 = f.cells@;
        let ghost aux2 = f.aux@;
        proof {
            if r is Some {
                let rr = r.unwrap();
                assert(same_at(c1, aux1, c2, aux2, rr));
                if is_child(c2, cc as int, rr) {
                    lemma_child(c2, pos1, aux2, cc as int, rr);
                }
                assert(node_inv(c2, pos1, aux2, rr));
                if ch0_of(c1, rr) is Some {
                    let k = ch0_of(c1, rr).unwrap();
                    lemma_child(c1, pos1, aux1, rr, k);
                    assert(same_at(c1, aux1, c2, aux2, k));
                }
                if ch1_of(c1, rr) is Some {
                    let k = ch1_of(c1, rr).unwrap();
                    lemma_child(c1, pos1, aux1, rr, k);
                    assert(same_at(c1, aux1, c2, aux2, k));
                }
                assert(fresh(c2, aux2, rr));
            }
            assert(attach_ready(c2, pos1, aux2, cc as int, r));
            lemma_attach_paths(c2, pos1, aux2, cc as int, r);
            lemma_depth_on_path(pos1, cc as int, pos1[cc as int].tp);
            assert(rpath_inv(pos1, pos1[cc as int].path[0]));
            assert(path_inv(pos1, pos1[cc as int].path[0]));
        }
        attach(f, cc, rp);
        let ghost pos3 = f.pos@;
        rp = cur;
        cur = f.cells[cc].par;
        proof {
            let c3 = f.cells@;
            let aux3 = f.aux@;
            assert(node_inv(c3, pos3, aux3, cc as int));
            assert(path_inv(pos3, cc as int));
            assert(path_inv(pos1, t as int));
            // the true values
            assert forall|w: int| 0 <= w < c0.len() implies #[trigger] true_value(c3, aux3, w)
                == true_value(c0, aux0, w) by {
                assert(true_value(c1, aux1, w) == true_value(c0, aux0, w));
                assert(true_value(c2, aux2, w) == true_value(c1, aux1, w));
            }
            // the paths from the roots
            assert forall|w: int| 0 <= w < c0.len() implies (#[trigger] pos3[w]).rpath
                == pos0[w].rpath by {
                assert(pos1[w].rpath == pos0[w].rpath);
            }
            // the walk
            assert(pos3[t as int].path == pos3[cc as int].path);
            assert(pos3[t as int].tp == pos3[t as int].path.len() - 1);
            // the other trees
            lemma_path_root(pos1, cc as int, cc as int);
            assert forall|w: int|
                0 <= w < c0.len() && root_of(pos0, w) != root_of(pos0, t as int) implies #[trigger] kept_at(
                c0,
                pos0,
                aux0,
                c3,
                pos3,
                aux3,
                w,
            ) by {
                assert(kept_at(c0, pos0, aux0, c1, pos1, aux1, w));
                assert(pos1[cc as int].rpath == pos0[cc as int].rpath);
                if pos1[w].path == pos1[cc as int].path {
                    lemma_path_root(pos1, w, cc as int);
                    assert(false);
                }
                assert(same_at(c1, aux1, c2, aux2, w));
                if r is Some {
                    let rr = r.unwrap();
                    assert(pos1[rr].rpath == pos0[rr].rpath);
                    if pos1[w].path == pos1[rr].path {
                        lemma_path_root(pos1, w, rr);
                        lemma_path_root(pos1, rr, rr);
                        assert(false);
                    }
                }
                lemma_attach_other(c2, pos1, aux2, c3, cc as int, r, w);
            }
            if cur is Some {
                assert(pos1[cur.unwrap() as int].rpath == pos0[cur.unwrap() as int].rpath);
            }
            // the preferred paths that start at a root
            if cur is Some {
                assert(pos1[cc as int].ppar is Some);
                assert forall|x: int| 0 <= x < pos0.len() && (#[trigger] pos0[x]).ppar is None implies pos3[x]
                    == pos0[x] by {
                    assert(pos1[x] == pos0[x]);
                    assert(path_inv(pos1, x));
                    if pos1[x].path == pos1[cc as int].path {
                        assert(pos1[cc as int].path[pos1[x].tp] == x);
                        assert(false);
                    }
                    if r is Some && pos1[x].path == pos1[r.unwrap()].path {
                        assert(path_inv(pos1, r.unwrap()));
                        assert(pos1[r.unwrap()].path[pos1[x].tp] == x);
                        assert(false);
                    }
                }
                assert forall|x: int| 0 <= x < pos0.len() implies (#[trigger] pos3[x]) == pos0[x]
                    || pos3[x].ppar is Some by {
                    assert(pos1[x] == pos0[x] || pos1[x].ppar is Some);
                    assert(path_inv(pos1, x));
                    if pos1[x].path == pos1[cc as int].path {
                        assert(pos1[cc as int].path[pos1[x].tp] == x);
                    }
                    if r is Some && pos1[x].path == pos1[r.unwrap()].path {
                        assert(path_inv(pos1, r.unwrap()));
                        assert(pos1[r.unwrap()].path[pos1[x].tp] == x);
                    }
                }
            } else {
                assert(pos1[cc as int] == pos0[cc as int] || pos1[cc as int].ppar is Some);
                assert(pos0[cc as int].ppar is None);
                if r is Some {
                    let rr = r.unwrap();
                    assert(path_inv(pos1, rr));
                    let u = pos1[rr].path[0];
                    assert(pos3[cc as int].path[pos3[cc as int].tp + 1] == u);
                    assert(path_inv(pos0, cc as int));
                    if pos0[u].path == pos0[cc as int].path {
                        assert(path_inv(pos0, u));
                        assert(pos0[cc as int].path[pos0[u].tp] == u);
                        assert(pos0[u].ppar is None);
                        assert(pos1[u] == pos0[u]);
                        assert(false);
                    }
                }
                assert(entry_point(pos0, pos3, t as int, cc as int));
            }
        }
    }
    let ghost c4 = f.cells@;
    let ghost pos4 = f.pos@;
    let ghost aux4 = f.aux@;
    proof {
        let w = rp.unwrap() as int;
        assert(node_inv(c4, pos4, aux4, w));
        assert(node_inv(c4, pos4, aux4, t as int));
        assert(path_inv(pos4, t as int));
        assert(path_inv(pos4, w));
        if w != t {
            lemma_in_tree(c4, pos4, aux4, w, t as int);
        }
    }
    splay(f, t);
    proof {
        let c5 = f.cells@;
        let aux5 = f.aux@;
        assert(node_inv(c5, pos4, aux5, t as int));
        assert(path_inv(pos4, t as int));
        assert(pos4[rp.unwrap() as int].path[pos4[t as int].tp] == t);
        assert(pos4[t as int].ppar is None);
        lemma_top_path(pos4, t as int);
        assert(pos4[t as int].path.take(pos4[t as int].tp + 1) =~= pos4[t as int].path);
        assert(f.paths() =~= old(f).paths());
        assert(old(f).paths()[t as int].contains(rp.unwrap() as int)) by {
            let w = rp.unwrap() as int;
            assert(path_inv(pos4, w));
            assert(pos4[t as int].path[pos4[w].tp] == w);
            assert(old(f).paths()[t as int] == pos4[t as int].path);
        }
        assert forall|w: int| 0 <= w < c0.len() implies #[trigger] true_value(c5, aux5, w)
            == true_value(c0, aux0, w) by {
            assert(true_value(c4, aux4, w) == true_value(c0, aux0, w));
            assert(true_value(c5, aux5, w) == true_value(c4, aux4, w));
        }
        assert(f.values() =~= old(f).values()) by {
            assert forall|w: int| 0 <= w < c0.len() implies f.values()[w] == old(f).values()[w] by {
                assert(true_value(c5, aux5, w) == true_value(c0, aux0, w));
            }
        }
        if ch1_of(c5, t as int) is Some {
            let k = ch1_of(c5, t as int).unwrap();
            lemma_child(c5, pos4, aux5, t as int, k);
            assert(node_inv(c5, pos4, aux5, k));
            assert(false);
        }
        assert forall|w: int|
            0 <= w < old(f).len() && old(f).paths()[w][0] != old(f).paths()[t as int][0] implies #[trigger] f.same_cell(
            old(f),
            w,
        ) by {
            assert(kept_at(c0, pos0, aux0, c4, pos4, aux4, w));
            assert(pos4[t as int].rpath == pos0[t as int].rpath);
            if pos4[w].path == pos4[t as int].path {
                lemma_path_root(pos4, w, t as int);
                assert(false);
            }
            assert(same_at(c4, aux4, c5, aux5, w));
        }
    }
    rp
}

/// Adds a cell that is a tree of its own and hands back its index.
pub fn lct_new<N: Node>(f: &mut Forest<N>, val: N::Value) -> (r: usize)
    requires
        old(f).wf(),
    ensures
        final(f).wf(),
        r == old(f).len(),
        final(f).len() == old(f).len() + 1,
        final(f).paths() == old(f).paths().push(seq![r as int]),
        final(f).values() == old(f).values().push(val),
        forall|w: int| 0 <= w < old(f).len() ==> #[trigger] final(f).same_cell(old(f), w),
{
    let ghost c = f.cells@;
    let ghost pos = f.pos@;
    let ghost aux = f.aux@;
    let r = f.cells.len();
    f.cells.push(Cell { ch0: None, ch1: None, par: None, rev: false, node: N::new(val) });
    proof {
        let x = r as int;
        let pos2 = pos.push(Pos { path: seq![x], tp: 0, ppar: None, rpath: seq![x] });
        let aux2 = aux.push(Aux { lo: 0, hi: 1, q: false, acc: N::lazy_id() });
        let c2 = f.cells@;
        f.pos@ = pos2;
        f.aux@ = aux2;
        N::lemma_act_id(val, N::sum_of(val), 1);
        assert forall|w: int| 0 <= w < c2.len() implies #[trigger] path_inv(pos2, w) by {
            if w < x {
                assert(path_inv(pos, w));
                assert forall|j: int| 0 <= j < pos2[w].path.len() implies {
                    let u = #[trigger] pos2[w].path[j];
                    &&& 0 <= u < pos2.len()
                    &&& pos2[u].path == pos2[w].path
                    &&& pos2[u].tp == j
                    &&& pos2[u].ppar == pos2[w].ppar
                } by {
                    let u = pos[w].path[j];
                    assert(0 <= u < pos.len());
                }
            }
        }
        assert forall|w: int| 0 <= w < c2.len() implies #[trigger] rpath_inv(pos2, w) by {
            if w < x {
                assert(rpath_inv(pos, w));
                assert(path_inv(pos, w));
                if pos[w].tp > 0 {
                    let u = pos[w].path[pos[w].tp - 1];
                    assert(0 <= u < pos.len());
                }
            }
        }
        assert forall|w: int| 0 <= w < c2.len() implies #[trigger] node_inv(c2, pos2, aux2, w) by {
            if w < x {
                assert(node_inv(c, pos, aux, w));
                assert(c2[w] == c[w]);
                if ch0_of(c, w) is Some {
                    lemma_child(c, pos, aux, w, ch0_of(c, w).unwrap());
                }
                if ch1_of(c, w) is Some {
                    lemma_child(c, pos, aux, w, ch1_of(c, w).unwrap());
                }
                assert(child_sum(c2, w, ch0_of(c, w)) == child_sum(c, w, ch0_of(c, w)));
                assert(child_sum(c2, w, ch1_of(c, w)) == child_sum(c, w, ch1_of(c, w)));
            }
        }
        assert(f.paths() =~= old(f).paths().push(seq![x]));
        assert(f.values() =~= old(f).values().push(val));
    }
    r
}

/// The value of `v`, with every action on it applied. The cell is exposed first.
pub fn value<N: Node>(f: &mut Forest<N>, v: usize) -> (r: &N::Value)
    requires
        old(f).wf(),
        v < old(f).len(),
    ensures
        final(f).wf(),
        final(f).len() == old(f).len(),
        final(f).paths() == old(f).paths(),
        final(f).values() == old(f).values(),
        *r == old(f).values()[v as int],
{
    expose(f, v);
    proof {
        assert(node_inv(f.cells@, f.pos@, f.aux@, v as int));
        N::lemma_act_id(f.cells@[v as int].node.value_spec(), N::sum_unit(), 0);
        assert(f.values()[v as int] == f.cells@[v as int].node.value_spec());
    }
    f.cells[v].node.value()
}

/// The arena `c2` is the arena `c` with other data in the cell `v`, of the same
/// size and with the same pending action.
spec fn swapped<N: Node>(c: Seq<Cell<N>>, c2: Seq<Cell<N>>, v: int) -> bool {
    &&& c2.len() == c.len()
    &&& forall|w: int| 0 <= w < c.len() && w != v ==> #[trigger] c2[w] == c[w]
    &&& c2[v].ch0 == c[v].ch0
    &&& c2[v].ch1 == c[v].ch1
    &&& c2[v].par == c[v].par
    &&& c2[v].rev == c[v].rev
    &&& c2[v].node.size_spec() == c[v].node.size_spec()
    &&& c2[v].node.lazy_spec() == c[v].node.lazy_spec()
}

/// The data of the root of a splay tree can be written to: whatever the value
/// becomes, the invariant holds and only the value of that cell has changed.
#[verifier::rlimit(50)]
proof fn lemma_root_swap<N: Node>(c: Seq<Cell<N>>, pos: Seq<Pos>, aux: Seq<Aux<N::Lazy>>, v: int)
    requires
        forest_inv(c, pos, aux),
        0 <= v < c.len(),
        aux_root(c, v),
    ensures
        forall|c2: Seq<Cell<N>>| swapped(c, c2, v) ==> #[trigger] forest_inv(c2, pos, aux),
        forall|c2: Seq<Cell<N>>|
            swapped(c, c2, v) ==> #[trigger] values_of(c2, aux) == values_of(c, aux).update(
                v,
                c2[v].node.value_spec(),
            ),
{
    assert(node_inv(c, pos, aux, v));
    assert forall|c2: Seq<Cell<N>>| swapped(c, c2, v) implies #[trigger] forest_inv(c2, pos, aux) by {
        assert forall|w: int| 0 <= w < c.len() implies #[trigger] node_inv(c2, pos, aux, w) by {
            assert(node_inv(c, pos, aux, w));
            if w != v {
                assert(c2[w] == c[w]);
                let g0 = ch0_of(c, w);
                let g1 = ch1_of(c, w);
                if g0 is Some {
                    lemma_child(c, pos, aux, w, g0.unwrap());
                    assert(c2[g0.unwrap()] == c[g0.unwrap()]);
                }
                if g1 is Some {
                    lemma_child(c, pos, aux, w, g1.unwrap());
                    assert(c2[g1.unwrap()] == c[g1.unwrap()]);
                }
                if par_of(c, w) is Some {
                    let pw = par_of(c, w).unwrap();
                    if pw != v {
                        assert(c2[pw] == c[pw]);
                    }
                }
                assert(child_sum(c2, w, g0) == child_sum(c, w, g0));
                assert(child_sum(c2, w, g1) == child_sum(c, w, g1));
            } else {
                let g0 = ch0_of(c, w);
                let g1 = ch1_of(c, w);
                if g0 is Some {
                    lemma_child(c, pos, aux, w, g0.unwrap());
                    assert(c2[g0.unwrap()] == c[g0.unwrap()]);
                }
                if g1 is Some {
                    lemma_child(c, pos, aux, w, g1.unwrap());
                    assert(c2[g1.unwrap()] == c[g1.unwrap()]);
                }
                if par_of(c, w) is Some {
                    let pw = par_of(c, w).unwrap();
                    if pw != v {
                        assert(c2[pw] == c[pw]);
                    }
                }
            }
        }
        assert forall|x: int| 0 <= x < c2.len() implies #[trigger] path_inv(pos, x) by {
            assert(path_inv(pos, x));
        }
        assert forall|x: int| 0 <= x < c2.len() implies #[trigger] rpath_inv(pos, x) by {
            assert(rpath_inv(pos, x));
        }
    }
    assert forall|c2: Seq<Cell<N>>| swapped(c, c2, v) implies #[trigger] values_of(c2, aux)
        == values_of(c, aux).update(v, c2[v].node.value_spec()) by {
        N::lemma_act_id(c2[v].node.value_spec(), N::sum_unit(), 0);
        assert forall|w: int| 0 <= w < c.len() implies values_of(c2, aux)[w] == values_of(c, aux).update(
            v,
            c2[v].node.value_spec(),
        )[w] by {
            if w != v {
                assert(c2[w] == c[w]);
            }
        }
        assert(values_of(c2, aux) =~= values_of(c, aux).update(v, c2[v].node.value_spec()));
    }
}

/// The value of `v` for writing. The cell is exposed first; the caches above
/// it are recomputed when the forest is next restructured.
pub fn value_mut<N: Node>(f: &mut Forest<N>, v: usize) -> (r: &mut N::Value)
    requires
        old(f).wf(),
        v < old(f).len(),
    ensures
        final(f).wf(),
        final(f).len() == old(f).len(),
        final(f).paths() == old(f).paths(),
        *r == old(f).values()[v as int],
        final(f).values() == old(f).values().update(v as int, *final(r)),
{
    expose(f, v);
    proof {
        assert(node_inv(f.cells@, f.pos@, f.aux@, v as int));
        N::lemma_act_id(f.cells@[v as int].node.value_spec(), N::sum_unit(), 0);
        assert(f.values()[v as int] == f.cells@[v as int].node.value_spec());
        lemma_root_swap(f.cells@, f.pos@, f.aux@, v as int);
    }
    f.cells[v].node.value_mut()
}

/// For each cell, the path from the root of its tree down to it.
spec fn rpaths(pos: Seq<Pos>) -> Seq<Seq<int>> {
    Seq::new(pos.len(), |x: int| pos[x].rpath)
}

/// The forest parent of a cell is a cell.
proof fn lemma_real_parent(pos: Seq<Pos>, w: int)
    requires
        0 <= w < pos.len(),
        path_inv(pos, w),
    ensures
        match real_parent(pos, w) {
            Some(p) => 0 <= p < pos.len(),
            None => true,
        },
{
    if pos[w].tp > 0 {
        let u = pos[w].path[pos[w].tp - 1];
        assert(0 <= u < pos.len());
    }
}

/// The path from the root to a cell is, down to any cell on it, the path from
/// the root to that cell.
proof fn lemma_rpath_prefix(pos: Seq<Pos>, w: int)
    requires
        0 <= w < pos.len(),
        forall|x: int| 0 <= x < pos.len() ==> #[trigger] path_inv(pos, x),
        forall|x: int| 0 <= x < pos.len() ==> #[trigger] rpath_inv(pos, x),
    ensures
        path_ok(rpaths(pos), w),
    decreases pos[w].rpath.len(),
{
    let paths = rpaths(pos);
    assert(path_inv(pos, w));
    assert(rpath_inv(pos, w));
    lemma_real_parent(pos, w);
    match real_parent(pos, w) {
        None => {
            assert forall|j: int| 0 <= j < paths[w].len() implies #[trigger] step_ok(paths, w, j) by {
                assert(paths[w].take(1) =~= paths[w]);
            }
        },
        Some(p) => {
            lemma_rpath_prefix(pos, p);
            assert(path_ok(paths, p));
            assert forall|j: int| 0 <= j < paths[w].len() implies #[trigger] step_ok(paths, w, j) by {
                if j < paths[p].len() {
                    assert(step_ok(paths, p, j));
                    assert(paths[w][j] == paths[p][j]);
                    assert(paths[w].take(j + 1) =~= paths[p].take(j + 1));
                } else {
                    assert(paths[w].take(j + 1) =~= paths[w]);
                }
            }
        },
    }
}

impl<N: Node> Forest<N> {
    /// The paths of a well-formed forest describe a forest.
    pub proof fn lemma_paths_wf(&self)
        requires
            self.wf(),
        ensures
            paths_wf(self.paths()),
            self.paths().len() == self.len(),
            self.values().len() == self.len(),
    {
        assert(self.paths() =~= rpaths(self.pos@));
        assert forall|w: int| 0 <= w < self.paths().len() implies #[trigger] path_ok(self.paths(), w) by {
            lemma_rpath_prefix(self.pos@, w);
        }
    }
}

/// The places in the forest after the root `child`, a path of its own, has been
/// hung under `parent`.
spec fn hang_pos(pos: Seq<Pos>, parent: int, child: int) -> Seq<Pos> {
    Seq::new(
        pos.len(),
        |w: int|
            Pos {
                path: pos[w].path,
                tp: pos[w].tp,
                ppar: if w == child {
                    Some(parent)
                } else {
                    pos[w].ppar
                },
                rpath: linked(rpaths(pos), parent, child)[w],
            },
    )
}

/// Hanging a root that is a path of its own under a cell of another tree keeps
/// the invariant.
#[verifier::rlimit(50)]
proof fn lemma_hang<N: Node>(
    c: Seq<Cell<N>>,
    pos: Seq<Pos>,
    aux: Seq<Aux<N::Lazy>>,
    c2: Seq<Cell<N>>,
    parent: int,
    child: int,
)
    requires
        forest_inv(c, pos, aux),
        0 <= parent < c.len(),
        0 <= child < c.len(),
        pos[child].path == seq![child],
        pos[child].rpath == seq![child],
        par_of(c, child) is None,
        root_of(pos, parent) != child,
        c2.len() == c.len(),
        forall|w: int| 0 <= w < c.len() && w != child ==> #[trigger] c2[w] == c[w],
        c2[child].ch0 == c[child].ch0,
        c2[child].ch1 == c[child].ch1,
        c2[child].rev == c[child].rev,
        c2[child].node == c[child].node,
        par_of(c2, child) == Some(parent),
    ensures
        forest_inv(c2, hang_pos(pos, parent, child), aux),
        same_values(c, aux, c2, aux),
        fresh(c, aux, child) ==> fresh(c2, aux, child),
        aux_root(c2, child),
        forall|w: int| 0 <= w < c.len() ==> aux_root(c2, w) == #[trigger] aux_root(c, w),
{
    let pos2 = hang_pos(pos, parent, child);
    assert(node_inv(c, pos, aux, child));
    assert(path_inv(pos, child));
    assert(rpath_inv(pos, child));
    if is_child(c, parent, child) {
        lemma_child(c, pos, aux, parent, child);
    }
    assert forall|w: int| 0 <= w < c.len() implies aux_root(c2, w) == #[trigger] aux_root(c, w) by {
        assert(node_inv(c, pos, aux, w));
        if w != child {
            if par_of(c, w) is Some {
                let pw = par_of(c, w).unwrap();
                if pw == child {
                    if is_child(c, child, w) {
                        lemma_child(c, pos, aux, child, w);
                    }
                }
            }
        }
    }
    assert forall|w: int| 0 <= w < c.len() implies #[trigger] path_inv(pos2, w) by {
        assert(path_inv(pos, w));
        assert forall|j: int| 0 <= j < pos2[w].path.len() implies {
            let u = #[trigger] pos2[w].path[j];
            &&& 0 <= u < pos2.len()
            &&& pos2[u].path == pos2[w].path
            &&& pos2[u].tp == j
            &&& pos2[u].ppar == pos2[w].ppar
        } by {
            let u = pos[w].path[j];
            assert(pos[u].path == pos[w].path);
            if u == child {
                assert(pos[w].path[pos[w].tp] == w);
            }
            if w == child {
                assert(u == child);
            }
        }
    }
    assert forall|w: int| 0 <= w < c.len() implies #[trigger] rpath_inv(pos2, w) by {
        assert(path_inv(pos, w));
        assert(rpath_inv(pos, w));
        lemma_real_parent(pos, w);
        lemma_path_root(pos, w, w);
        if w == child {
            lemma_path_root(pos, parent, parent);
            assert(pos2[child].rpath =~= pos2[parent].rpath.push(child));
        } else {
            assert(real_parent(pos2, w) == real_parent(pos, w)) by {
                if pos[w].tp == 0 {
                } else {
                    assert(pos2[w].path == pos[w].path);
                }
            }
            match real_parent(pos, w) {
                None => {},
                Some(u) => {
                    lemma_path_root(pos, u, u);
                    assert(pos[w].rpath[0] == pos[u].rpath[0]);
                    if pos[w].rpath[0] == child {
                        assert(pos2[w].rpath =~= pos2[u].rpath.push(w));
                    }
                },
            }
        }
    }
    assert forall|w: int| 0 <= w < c.len() implies #[trigger] node_inv(c2, pos2, aux, w) by {
        assert(node_inv(c, pos, aux, w));
        assert(aux_root(c2, w) == aux_root(c, w));
        let g0 = ch0_of(c, w);
        let g1 = ch1_of(c, w);
        if g0 is Some {
            lemma_child(c, pos, aux, w, g0.unwrap());
            assert(c2[g0.unwrap()] == c[g0.unwrap()]);
        }
        if g1 is Some {
            lemma_child(c, pos, aux, w, g1.unwrap());
            assert(c2[g1.unwrap()] == c[g1.unwrap()]);
        }
        assert(child_sum(c2, w, g0) == child_sum(c, w, g0));
        assert(child_sum(c2, w, g1) == child_sum(c, w, g1));
        assert(child_ok(c2, pos2, aux, w, low_child(c2, aux, w), aux[w].lo, pos2[w].tp));
        assert(child_ok(c2, pos2, aux, w, high_child(c2, aux, w), pos2[w].tp + 1, aux[w].hi));
    }
    assert forall|w: int| 0 <= w < c.len() implies #[trigger] true_value(c2, aux, w) == true_value(
        c,
        aux,
        w,
    ) by {
    }
}

/// Makes the root `child` a child of `parent`, a cell of another tree.
#[verifier::rlimit(50)]
pub fn lct_link<N: Node>(f: &mut Forest<N>, parent: usize, child: usize)
    requires
        old(f).wf(),
        parent < old(f).len(),
        child < old(f).len(),
        old(f).paths()[child as int] == seq![child as int],
        old(f).paths()[parent as int][0] != child,
    ensures
        final(f).wf(),
        final(f).len() == old(f).len(),
        final(f).paths() == linked(old(f).paths(), parent as int, child as int),
        final(f).values() == old(f).values(),
        final(f).parent_link(child as int) == Some(parent as int),
        final(f).child_link(parent as int, 1) == Some(child as int),
        final(f).is_aux_root(parent as int),
{
    expose(f, child);
    let ghost f1 = *f;
    expose(f, parent);
    let ghost c = f.cells@;
    let ghost pos = f.pos@;
    let ghost aux = f.aux@;
    proof {
        assert(f.same_cell(&f1, child as int));
        assert(f.paths() == old(f).paths());
        assert(pos[child as int].rpath == old(f).paths()[child as int]);
        assert(pos[parent as int].rpath == old(f).paths()[parent as int]);
        assert(node_inv(c, pos, aux, child as int));
        assert(node_inv(f1.cells@, f1.pos@, f1.aux@, child as int));
        if ch0_of(c, child as int) is Some {
            let k = ch0_of(c, child as int).unwrap();
            lemma_child(f1.cells@, f1.pos@, f1.aux@, child as int, k);
            assert(f.paths()[k] == f1.paths()[k]);
            lemma_path_root(f1.pos@, k, child as int);
            assert(f.same_cell(&f1, k));
        }
    }
    set_parent(f, child, Some(parent));
    proof {
        f.pos@ = hang_pos(pos, parent as int, child as int);
        lemma_hang(c, pos, aux, f.cells@, parent as int, child as int);
        assert(f.paths() =~= linked(old(f).paths(), parent as int, child as int)) by {
            assert(rpaths(pos) =~= old(f).paths());
        }
        assert(fresh(c, aux, child as int));
    }
    let ghost c2 = f.cells@;
    let ghost pos2 = f.pos@;
    attach(f, parent, Some(child));
    proof {
        assert(f.paths() =~= linked(old(f).paths(), parent as int, child as int)) by {
            assert forall|w: int| 0 <= w < c.len() implies f.pos@[w].rpath == pos2[w].rpath by {
            }
        }
        assert(f.values() =~= old(f).values()) by {
            assert forall|w: int| 0 <= w < c.len() implies f.values()[w] == old(f).values()[w] by {
                assert(true_value(c2, aux, w) == true_value(c, aux, w));
                assert(true_value(f.cells@, f.aux@, w) == true_value(c2, aux, w));
            }
        }
    }
}

/// The places in the forest after `v`, the bottom of a preferred path that
/// starts at a root, has been cut from the cell above it.
spec fn cut_pos(pos: Seq<Pos>, v: int) -> Seq<Pos> {
    let p = pos[v].path;
    Seq::new(
        pos.len(),
        |w: int|
            Pos {
                path: if w == v {
                    seq![v]
                } else if pos[w].path == p {
                    p.take(p.len() - 1)
                } else {
                    pos[w].path
                },
                tp: if w == v {
                    0
                } else {
                    pos[w].tp
                },
                ppar: pos[w].ppar,
                rpath: cut_off(rpaths(pos), v)[w],
            },
    )
}

/// The intervals after the same step.
spec fn cut_aux<L>(aux: Seq<Aux<L>>, v: int) -> Seq<Aux<L>> {
    aux.update(v, Aux { lo: 0, hi: 1, q: aux[v].q, acc: aux[v].acc })
}

/// What cutting starts from: `v` is exposed and has a cell above it.
spec fn cut_ready<N: Node>(c: Seq<Cell<N>>, pos: Seq<Pos>, aux: Seq<Aux<N::Lazy>>, v: int) -> bool {
    &&& forest_inv(c, pos, aux)
    &&& 0 <= v < c.len()
    &&& aux_root(c, v)
    &&& par_of(c, v) is None
    &&& !rev_of(c, v)
    &&& c[v].node.lazy_spec() == N::lazy_id()
    &&& pos[v].path == pos[v].rpath
    &&& pos[v].rpath.len() >= 2
    &&& ch1_of(c, v) is None
}

/// What cutting does to the cells: `v` gives up its left child, which loses its
/// parent link, and the caches of `v` are recomputed.
spec fn cut_from<N: Node>(c: Seq<Cell<N>>, c2: Seq<Cell<N>>, v: int) -> bool {
    let l = ch0_of(c, v).unwrap();
    &&& c2.len() == c.len()
    &&& forall|w: int| 0 <= w < c.len() && w != v && w != l ==> #[trigger] c2[w] == c[w]
    &&& ch0_of(c2, v) is None
    &&& ch1_of(c2, v) is None
    &&& par_of(c2, v) is None
    &&& rev_of(c2, v) == rev_of(c, v)
    &&& c2[v].node.value_spec() == c[v].node.value_spec()
    &&& c2[v].node.lazy_spec() == c[v].node.lazy_spec()
    &&& fixed(c2, v)
    &&& par_of(c2, l) is None
    &&& c2[l].ch0 == c[l].ch0
    &&& c2[l].ch1 == c[l].ch1
    &&& c2[l].rev == c[l].rev
    &&& c2[l].node == c[l].node
}

/// Sides of a cut: what is known of `v` and the cell `l` that heads the rest of
/// the path.
proof fn lemma_cut_shape<N: Node>(c: Seq<Cell<N>>, pos: Seq<Pos>, aux: Seq<Aux<N::Lazy>>, v: int)
    requires
        cut_ready(c, pos, aux, v),
    ensures
        ch0_of(c, v) is Some,
        0 <= ch0_of(c, v).unwrap() < c.len(),
        ch0_of(c, v).unwrap() != v,
        pos[v].tp == pos[v].path.len() - 1,
        pos[v].ppar is None,
        aux[v].lo == 0,
        aux[v].hi == pos[v].path.len(),
        !aux[v].q,
        aux[v].acc == N::lazy_id(),
        pos[ch0_of(c, v).unwrap()].path == pos[v].path,
        aux[ch0_of(c, v).unwrap()].lo == 0,
        aux[ch0_of(c, v).unwrap()].hi == pos[v].path.len() - 1,
        !aux[ch0_of(c, v).unwrap()].q,
        aux[ch0_of(c, v).unwrap()].acc == N::lazy_id(),
        par_of(c, ch0_of(c, v).unwrap()) == Some(v),
        fresh(c, aux, ch0_of(c, v).unwrap()),
{
    assert(node_inv(c, pos, aux, v));
    assert(path_inv(pos, v));
    assert(rpath_inv(pos, v));
    lemma_top_path(pos, v);
    N::lemma_lazy_monoid(N::lazy_id(), N::lazy_id(), N::lazy_id());
    assert(pos[v].path.take(pos[v].tp + 1).len() == pos[v].tp + 1);
    let l = ch0_of(c, v);
    assert(l is Some);
    lemma_child(c, pos, aux, v, l.unwrap());
}

/// The invariant of a cell after a cut.
#[verifier::rlimit(50)]
proof fn lemma_cut_node<N: Node>(
    c: Seq<Cell<N>>,
    pos: Seq<Pos>,
    aux: Seq<Aux<N::Lazy>>,
    c2: Seq<Cell<N>>,
    v: int,
    w: int,
)
    requires
        cut_ready(c, pos, aux, v),
        cut_from(c, c2, v),
        0 <= w < c.len(),
    ensures
        node_inv(c2, cut_pos(pos, v), cut_aux(aux, v), w),
        true_value(c2, cut_aux(aux, v), w) == true_value(c, aux, w),
{
    let pos2 = cut_pos(pos, v);
    let aux2 = cut_aux(aux, v);
    lemma_cut_shape(c, pos, aux, v);
    let l = ch0_of(c, v).unwrap();
    assert(node_inv(c, pos, aux, w));
    assert(path_inv(pos, w));
    if w == v {
        assert(pos2[v].path == seq![v]);
        assert(pos2[v].path.len() == 1);
        assert(pos2[v].ppar == pos[v].ppar);
        assert(pos2[v].tp == 0);
        assert(aux2[v].lo == 0 && aux2[v].hi == 1);
        assert(low_child(c2, aux2, v) is None);
        assert(high_child(c2, aux2, v) is None);
        assert(aux_root(c2, v));
        assert(node_inv(c2, pos2, aux2, w));
    } else {
        let g0 = ch0_of(c, w);
        let g1 = ch1_of(c, w);
        if g0 is Some {
            let k = g0.unwrap();
            lemma_child(c, pos, aux, w, k);
            assert(k != l) by {
                if k == l {
                    assert(w == v);
                }
            }
            assert(c2[k] == c[k]);
        }
        if g1 is Some {
            let k = g1.unwrap();
            lemma_child(c, pos, aux, w, k);
            assert(k != l) by {
                if k == l {
                    assert(w == v);
                }
            }
            assert(c2[k] == c[k]);
        }
        if w != l {
            assert(c2[w] == c[w]);
            if par_of(c, w) is Some {
                let pw = par_of(c, w).unwrap();
                if pw == v {
                    if is_child(c, v, w) {
                        lemma_child(c, pos, aux, v, w);
                    }
                } else if pw == l {
                } else {
                    assert(c2[pw] == c[pw]);
                }
            }
            assert(aux_root(c2, w) == aux_root(c, w));
        }
        if pos[w].path == pos[v].path {
            lemma_in_tree(c, pos, aux, v, w);
            assert(path_inv(pos, v));
            assert(pos[v].path[pos[w].tp] == w);
            assert(pos[w].ppar == pos[v].ppar);
        }
        assert(child_sum(c2, w, g0) == child_sum(c, w, g0));
        assert(child_sum(c2, w, g1) == child_sum(c, w, g1));
        assert(child_ok(c2, pos2, aux2, w, low_child(c2, aux2, w), aux2[w].lo, pos2[w].tp));
        assert(child_ok(c2, pos2, aux2, w, high_child(c2, aux2, w), pos2[w].tp + 1, aux2[w].hi));
        assert(node_inv(c2, pos2, aux2, w));
    }
}

/// The invariants of the paths after a cut.
#[verifier::rlimit(50)]
proof fn lemma_cut_paths<N: Node>(c: Seq<Cell<N>>, pos: Seq<Pos>, aux: Seq<Aux<N::Lazy>>, v: int)
    requires
        cut_ready(c, pos, aux, v),
    ensures
        forall|w: int| 0 <= w < pos.len() ==> #[trigger] path_inv(cut_pos(pos, v), w),
        forall|w: int| 0 <= w < pos.len() ==> #[trigger] rpath_inv(cut_pos(pos, v), w),
{
    let pos2 = cut_pos(pos, v);
    let p = pos[v].path;
    let rest = p.take(p.len() - 1);
    let paths = rpaths(pos);
    lemma_cut_shape(c, pos, aux, v);
    assert(path_inv(pos, v));
    assert forall|w: int| #![trigger path_inv(pos2, w)] 0 <= w < pos.len() implies path_inv(pos2, w)
        && (w != v ==> real_parent(pos2, w) == real_parent(pos, w)) by {
        assert(path_inv(pos, w));
        if w == v {
        } else if pos[w].path == p {
            assert(p[pos[w].tp] == w);
            assert forall|j: int| 0 <= j < rest.len() implies {
                let u = #[trigger] rest[j];
                &&& 0 <= u < pos2.len()
                &&& pos2[u].path == rest
                &&& pos2[u].tp == j
                &&& pos2[u].ppar == pos2[w].ppar
            } by {
                let u = p[j];
                assert(pos[u].path == p);
            }
            if pos[w].tp > 0 {
                assert(rest[pos[w].tp - 1] == p[pos[w].tp - 1]);
            }
        } else {
            assert forall|j: int| 0 <= j < pos[w].path.len() implies {
                let u = #[trigger] pos2[w].path[j];
                &&& 0 <= u < pos2.len()
                &&& pos2[u].path == pos2[w].path
                &&& pos2[u].tp == j
                &&& pos2[u].ppar == pos2[w].ppar
            } by {
                let u = pos[w].path[j];
                assert(pos[u].path == pos[w].path);
                if u == v {
                    assert(pos[w].path == p);
                }
            }
        }
    }
    assert forall|w: int| 0 <= w < pos.len() implies #[trigger] rpath_inv(pos2, w) by {
        assert(path_inv(pos2, w));
        assert(rpath_inv(pos, w));
        assert(path_inv(pos, w));
        lemma_real_parent(pos, w);
        lemma_path_root(pos, w, w);
        if w == v {
            assert(in_subtree(paths, v, v));
            assert(pos2[v].rpath =~= seq![v]);
        } else {
            assert(real_parent(pos2, w) == real_parent(pos, w));
            match real_parent(pos, w) {
                None => {
                    assert(!in_subtree(paths, w, v));
                },
                Some(u) => {
                    assert(pos[w].rpath == pos[u].rpath.push(w));
                    if in_subtree(paths, w, v) {
                        assert(in_subtree(paths, u, v));
                        assert(pos2[w].rpath =~= pos2[u].rpath.push(w));
                    } else {
                        assert(!in_subtree(paths, u, v));
                    }
                },
            }
        }
    }
}

/// Cuts `child` from its parent: `child` becomes the root of a tree of its own.
pub fn lct_cut<N: Node>(f: &mut Forest<N>, child: usize)
    requires
        old(f).wf(),
        child < old(f).len(),
        old(f).paths()[child as int].len() >= 2,
    ensures
        final(f).wf(),
        final(f).len() == old(f).len(),
        final(f).paths() == cut_off(old(f).paths(), child as int),
        final(f).values() == old(f).values(),
        final(f).parent_link(child as int) is None,
        final(f).child_link(child as int, 0) is None,
        final(f).child_link(child as int, 1) is None,
{
    expose(f, child);
    let ghost c = f.cells@;
    let ghost pos = f.pos@;
    let ghost aux = f.aux@;
    // the arena is no longer than a machine integer can count
    let n = f.cells.len();
    proof {
        assert(node_inv(c, pos, aux, child as int));
        assert(cut_ready(c, pos, aux, child as int));
        lemma_cut_shape(c, pos, aux, child as int);
        assert(rpaths(pos) =~= old(f).paths());
    }
    let parent = f.cells[child].ch0.unwrap();
    set_child(f, child, 0, None);
    set_parent(f, parent, None);
    fix(f, child);
    proof {
        let c2 = f.cells@;
        let pos2 = cut_pos(pos, child as int);
        let aux2 = cut_aux(aux, child as int);
        f.pos@ = pos2;
        f.aux@ = aux2;
        assert(cut_from(c, c2, child as int));
        lemma_cut_paths(c, pos, aux, child as int);
        assert forall|w: int| 0 <= w < c.len() implies #[trigger] node_inv(c2, pos2, aux2, w) by {
            lemma_cut_node(c, pos, aux, c2, child as int, w);
        }
        assert(f.paths() =~= cut_off(old(f).paths(), child as int));
        assert(f.values() =~= old(f).values()) by {
            assert forall|w: int| 0 <= w < c.len() implies f.values()[w] == old(f).values()[w] by {
                lemma_cut_node(c, pos, aux, c2, child as int, w);
            }
        }
    }
}

/// The places in the forest after the preferred path of `t`, which starts at a
/// root and ends at `t`, has been turned round.
spec fn evert_pos(pos: Seq<Pos>, t: int) -> Seq<Pos> {
    let p = pos[t].path;
    Seq::new(
        pos.len(),
        |w: int|
            Pos {
                path: if pos[w].path == p {
                    p.reverse()
                } else {
                    pos[w].path
                },
                tp: if pos[w].path == p {
                    p.len() - 1 - pos[w].tp
                } else {
                    pos[w].tp
                },
                ppar: pos[w].ppar,
                rpath: everted(rpaths(pos), t)[w],
            },
    )
}

/// The intervals after the same step.
spec fn evert_aux<L>(pos: Seq<Pos>, aux: Seq<Aux<L>>, t: int) -> Seq<Aux<L>> {
    let p = pos[t].path;
    Seq::new(
        aux.len(),
        |w: int|
            if pos[w].path == p {
                Aux {
                    lo: p.len() - aux[w].hi,
                    hi: p.len() - aux[w].lo,
                    q: if w == t {
                        aux[w].q
                    } else {
                        !aux[w].q
                    },
                    acc: aux[w].acc,
                }
            } else {
                aux[w]
            },
    )
}

/// What everting starts from: `t` is exposed.
spec fn evert_ready<N: Node>(c: Seq<Cell<N>>, pos: Seq<Pos>, aux: Seq<Aux<N::Lazy>>, t: int) -> bool {
    &&& forest_inv(c, pos, aux)
    &&& 0 <= t < c.len()
    &&& aux_root(c, t)
    &&& par_of(c, t) is None
    &&& !rev_of(c, t)
    &&& pos[t].path == pos[t].rpath
    &&& ch1_of(c, t) is None
}

/// What everting does to the cells: the children of `t` change sides and the
/// reversal is pending for them.
spec fn everted_from<N: Node>(c: Seq<Cell<N>>, c2: Seq<Cell<N>>, t: int) -> bool {
    &&& c2.len() == c.len()
    &&& forall|w: int| 0 <= w < c.len() && w != t ==> #[trigger] c2[w] == c[w]
    &&& c2[t].ch0 == c[t].ch1
    &&& c2[t].ch1 == c[t].ch0
    &&& c2[t].par == c[t].par
    &&& c2[t].rev
    &&& c2[t].node == c[t].node
}

/// The invariant of a cell after everting.
#[verifier::rlimit(50)]
proof fn lemma_evert_node<N: Node>(
    c: Seq<Cell<N>>,
    pos: Seq<Pos>,
    aux: Seq<Aux<N::Lazy>>,
    c2: Seq<Cell<N>>,
    t: int,
    w: int,
)
    requires
        evert_ready(c, pos, aux, t),
        everted_from(c, c2, t),
        0 <= w < c.len(),
    ensures
        node_inv(c2, evert_pos(pos, t), evert_aux(pos, aux, t), w),
        true_value(c2, evert_aux(pos, aux, t), w) == true_value(c, aux, w),
{
    let pos2 = evert_pos(pos, t);
    let aux2 = evert_aux(pos, aux, t);
    let p = pos[t].path;
    assert(node_inv(c, pos, aux, t));
    assert(node_inv(c, pos, aux, w));
    assert(path_inv(pos, t));
    assert(path_inv(pos, w));
    assert(rpath_inv(pos, t));
    lemma_top_path(pos, t);
    assert(p.take(pos[t].tp + 1).len() == pos[t].tp + 1);
    assert(p.reverse().len() == p.len());
    let g0 = ch0_of(c, w);
    let g1 = ch1_of(c, w);
    if g0 is Some {
        let k = g0.unwrap();
        lemma_child(c, pos, aux, w, k);
        assert(node_inv(c, pos, aux, k));
        assert(c2[k] == c[k]);
    }
    if g1 is Some {
        let k = g1.unwrap();
        lemma_child(c, pos, aux, w, k);
        assert(node_inv(c, pos, aux, k));
        assert(c2[k] == c[k]);
    }
    if w != t {
        assert(c2[w] == c[w]);
        if par_of(c, w) is Some {
            let pw = par_of(c, w).unwrap();
            if pw != t {
                assert(c2[pw] == c[pw]);
            }
        }
        assert(aux_root(c2, w) == aux_root(c, w));
        if pos[w].path == p {
            lemma_in_tree(c, pos, aux, t, w);
        }
    } else {
        assert(aux_root(c2, w));
    }
    if w != t {
        assert(child_sum(c2, w, g0) == child_sum(c, w, g0));
        assert(child_sum(c2, w, g1) == child_sum(c, w, g1));
    }
    assert(child_ok(c2, pos2, aux2, w, low_child(c2, aux2, w), aux2[w].lo, pos2[w].tp));
    assert(child_ok(c2, pos2, aux2, w, high_child(c2, aux2, w), pos2[w].tp + 1, aux2[w].hi));
    assert(node_inv(c2, pos2, aux2, w));
}

/// Turning the rest of a path round and putting the cell before it last.
proof fn lemma_reverse_step(p: Seq<int>, j: int)
    requires
        0 <= j < p.len(),
    ensures
        p.skip(j).reverse() == p.skip(j + 1).reverse().push(p[j]),
        p.skip(p.len() - 1).reverse() == seq![p.last()],
{
    assert(p.skip(j).reverse() =~= p.skip(j + 1).reverse().push(p[j]));
    assert(p.skip(p.len() - 1).reverse() =~= seq![p.last()]);
}

/// The invariants of the paths after everting.
#[verifier::rlimit(50)]
proof fn lemma_evert_paths<N: Node>(c: Seq<Cell<N>>, pos: Seq<Pos>, aux: Seq<Aux<N::Lazy>>, t: int)
    requires
        evert_ready(c, pos, aux, t),
    ensures
        forall|w: int| 0 <= w < pos.len() ==> #[trigger] path_inv(evert_pos(pos, t), w),
        forall|w: int| 0 <= w < pos.len() ==> #[trigger] rpath_inv(evert_pos(pos, t), w),
{
    let pos2 = evert_pos(pos, t);
    let p = pos[t].path;
    let len = p.len() as int;
    let rev = p.reverse();
    let paths = rpaths(pos);
    assert(node_inv(c, pos, aux, t));
    assert(path_inv(pos, t));
    lemma_top_path(pos, t);
    assert(p.take(pos[t].tp + 1).len() == pos[t].tp + 1);
    assert(pos[t].tp == len - 1);
    assert forall|w: int| 0 <= w < pos.len() implies #[trigger] path_inv(pos2, w) by {
        assert(path_inv(pos, w));
        if pos[w].path == p {
            assert(p[pos[w].tp] == w);
            assert forall|j: int| 0 <= j < rev.len() implies {
                let u = #[trigger] rev[j];
                &&& 0 <= u < pos2.len()
                &&& pos2[u].path == rev
                &&& pos2[u].tp == j
                &&& pos2[u].ppar == pos2[w].ppar
            } by {
                let u = p[len - 1 - j];
                assert(rev[j] == u);
                assert(pos[u].path == p);
            }
        } else {
            assert forall|j: int| 0 <= j < pos[w].path.len() implies {
                let u = #[trigger] pos2[w].path[j];
                &&& 0 <= u < pos2.len()
                &&& pos2[u].path == pos2[w].path
                &&& pos2[u].tp == j
                &&& pos2[u].ppar == pos2[w].ppar
            } by {
                let u = pos[w].path[j];
                assert(pos[u].path == pos[w].path);
            }
        }
    }
    assert forall|w: int| 0 <= w < pos.len() implies #[trigger] rpath_inv(pos2, w) by {
        assert(path_inv(pos, w));
        assert(rpath_inv(pos, w));
        assert(path_inv(pos2, w));
        lemma_real_parent(pos, w);
        lemma_path_root(pos, w, w);
        lemma_path_root(pos, t, t);
        if pos[w].path == p {
            let j = pos[w].tp;
            assert(p[j] == w);
            lemma_top_path(pos, w);
            assert(paths[w] == p.take(j + 1));
            assert(p.take(j + 1).take(j + 1) =~= p.take(j + 1));
            lemma_common_prefix_is(p, paths[w], j + 1);
            assert(paths[w].skip(j + 1) =~= Seq::<int>::empty());
            assert(pos2[w].rpath =~= p.skip(j).reverse());
            lemma_reverse_step(p, j);
            if j < len - 1 {
                let u = p[j + 1];
                assert(pos[u].path == p);
                assert(rev[len - 1 - j - 1] == u);
                assert(real_parent(pos2, w) == Some(u));
                lemma_top_path(pos, u);
                assert(paths[u] == p.take(j + 2));
                assert(p.take(j + 2).take(j + 2) =~= p.take(j + 2));
                lemma_common_prefix_is(p, paths[u], j + 2);
                assert(paths[u].skip(j + 2) =~= Seq::<int>::empty());
                assert(pos2[u].rpath =~= p.skip(j + 1).reverse());
            } else {
                assert(real_parent(pos2, w) is None);
            }
        } else {
            assert(real_parent(pos2, w) == real_parent(pos, w));
            match real_parent(pos, w) {
                None => {
                    if paths[w][0] == p[0] {
                        assert(w == p[0]);
                        assert(pos[p[0]].path == p);
                        assert(false);
                    }
                },
                Some(u) => {
                    lemma_path_root(pos, u, u);
                    assert(paths[w] == paths[u].push(w));
                    assert(paths[w][0] == paths[u][0]);
                    if paths[w][0] == p[0] {
                        let k = common_prefix(p, paths[u]) as int;
                        lemma_common_prefix(p, paths[u]);
                        assert(k >= 1) by {
                            assert(p[0] == paths[u][0]);
                        }
                        assert(paths[w].take(k) =~= paths[u].take(k));
                        if k < len && k == paths[u].len() {
                            let x = p[k];
                            assert(pos[x].path == p);
                        }
                        lemma_common_prefix_is(p, paths[w], k);
                        assert(paths[w].skip(k) =~= paths[u].skip(k).push(w));
                        assert(pos2[w].rpath =~= pos2[u].rpath.push(w));
                    }
                },
            }
        }
    }
}

/// Makes `t` the root of its tree.
pub fn lct_evert<N: Node>(f: &mut Forest<N>, t: usize)
    requires
        old(f).wf(),
        t < old(f).len(),
    ensures
        final(f).wf(),
        final(f).len() == old(f).len(),
        final(f).paths() == everted(old(f).paths(), t as int),
        final(f).values() == old(f).values(),
        final(f).is_aux_root(t as int),
        final(f).pushed(t as int),
{
    expose(f, t);
    let ghost c = f.cells@;
    let ghost pos = f.pos@;
    let ghost aux = f.aux@;
    proof {
        assert(evert_ready(c, pos, aux, t as int));
        assert(rpaths(pos) =~= old(f).paths());
    }
    reverse(f, t);
    proof {
        let c2 = f.cells@;
        let pos2 = evert_pos(pos, t as int);
        let aux2 = evert_aux(pos, aux, t as int);
        f.pos@ = pos2;
        f.aux@ = aux2;
        assert(everted_from(c, c2, t as int));
        lemma_evert_paths(c, pos, aux, t as int);
        assert forall|w: int| 0 <= w < c.len() implies #[trigger] node_inv(c2, pos2, aux2, w) by {
            lemma_evert_node(c, pos, aux, c2, t as int, w);
        }
        assert(f.paths() =~= everted(old(f).paths(), t as int));
        assert(f.values() =~= old(f).values()) by {
            assert forall|w: int| 0 <= w < c.len() implies f.values()[w] == old(f).values()[w] by {
                lemma_evert_node(c, pos, aux, c2, t as int, w);
            }
        }
    }
    let ghost c3 = f.cells@;
    let ghost aux3 = f.aux@;
    push(f, t);
    proof {
        assert(f.paths() =~= everted(old(f).paths(), t as int));
        assert(f.values() =~= old(f).values()) by {
            assert forall|w: int| 0 <= w < c.len() implies f.values()[w] == old(f).values()[w] by {
                assert(true_value(f.cells@, f.aux@, w) == true_value(c3, aux3, w));
            }
        }
    }
}

/// The root of the splay tree of the preferred path that starts at the root of
/// the tree of `u`: where following the parent links from `u` ends.
fn find_top<N: Node>(f: &Forest<N>, u: usize) -> (x: usize)
    requires
        f.wf(),
        u < f.len(),
    ensures
        x < f.len(),
        f.parent_link(x as int) is None,
        root_of(f.pos@, x as int) == root_of(f.pos@, u as int),
{
    let ghost c = f.cells@;
    let ghost pos = f.pos@;
    let ghost aux = f.aux@;
    let mut x = u;
    while f.cells[x].par.is_some()
        invariant
            f.wf(),
            f.cells@ == c,
            f.pos@ == pos,
            f.aux@ == aux,
            x < c.len(),
            root_of(pos, x as int) == root_of(pos, u as int),
        decreases pos[pos[x as int].path[0]].rpath.len(), pos[x as int].path.len() - (aux[x as int].hi - aux[x as int].lo),
    {
        let p = f.cells[x].par.unwrap();
        proof {
            assert(node_inv(c, pos, aux, x as int));
            assert(node_inv(c, pos, aux, p as int));
            assert(path_inv(pos, x as int));
            assert(path_inv(pos, p as int));
            if is_child(c, p as int, x as int) {
                lemma_child(c, pos, aux, p as int, x as int);
                lemma_path_root(pos, x as int, p as int);
            } else {
                lemma_path_root(pos, x as int, x as int);
                let top = pos[x as int].path[0];
                assert(path_inv(pos, top));
                assert(rpath_inv(pos, top));
                assert(pos[top].rpath == pos[p as int].rpath.push(top));
                lemma_depth_on_path(pos, p as int, pos[p as int].tp);
                assert(pos[p as int].path[pos[p as int].tp] == p);
            }
        }
        x = p;
    }
    x
}

/// The lowest common ancestor of `u` and `v`; none when they are in different
/// trees. Both are exposed, `v` last.
#[verifier::rlimit(50)]
pub fn lct_lca<N: Node>(f: &mut Forest<N>, u: usize, v: usize) -> (r: Link)
    requires
        old(f).wf(),
        u < old(f).len(),
        v < old(f).len(),
    ensures
        final(f).wf(),
        final(f).len() == old(f).len(),
        final(f).paths() == old(f).paths(),
        final(f).values() == old(f).values(),
        link_int(r) == lca_of(old(f).paths()[u as int], old(f).paths()[v as int]),
{
    expose(f, u);
    let ghost fa = *f;
    let ghost pa = f.pos@;
    let w = expose(f, v);
    let ghost pb = f.pos@;
    let ghost cb = f.cells@;
    let ghost ab = f.aux@;
    let top = find_top(f, u);
    proof {
        let pu = old(f).paths()[u as int];
        let pv = old(f).paths()[v as int];
        assert(forest_inv(fa.cells@, pa, fa.aux@));
        assert(fa.paths() == old(f).paths());
        assert(f.paths() == old(f).paths());
        assert(pa[u as int].rpath == pu);
        assert(pb[u as int].rpath == pu);
        assert(pb[v as int].rpath == pv);
        assert(pa[u as int].path == pu);
        assert(pb[v as int].path == pv);
        lemma_path_root(pa, u as int, u as int);
        lemma_path_root(pb, v as int, v as int);
        lemma_path_root(pb, u as int, u as int);
        lemma_path_root(pb, top as int, top as int);
        assert(node_inv(cb, pb, ab, top as int));
        assert(node_inv(cb, pb, ab, v as int));
        assert(path_inv(pb, top as int));
        assert(path_inv(pb, v as int));
        assert(path_inv(pa, u as int));
        if top == v {
            let ww = w.unwrap() as int;
            assert(entry_point(pa, pb, v as int, ww));
            let j = pb[ww].tp;
            assert(path_inv(pb, ww));
            assert(path_inv(pa, ww));
            lemma_top_path(pb, ww);
            lemma_path_root(pa, ww, ww);
            lemma_path_root(pb, ww, v as int);
            assert(pa[ww].rpath == pb[ww].rpath) by {
                assert(fa.paths()[ww] == f.paths()[ww]);
            }
            // in the forest before, `ww` was on the path from the root to `u`
            let rho = pu[0];
            assert(pa[ww].path[0] == rho);
            assert(pa[rho].path == pa[ww].path);
            assert(pa[rho].path == pa[u as int].path);
            lemma_top_path(pa, ww);
            let i = pa[ww].tp;
            assert(pu.take(i + 1).len() == i + 1);
            assert(pv.take(j + 1).len() == j + 1);
            assert(i == j);
            if j + 1 < pu.len() && j + 1 < pv.len() {
                let s = pv[j + 1];
                let s2 = pu[j + 1];
                assert(pa[s2].path == pu);
                assert(pa[s].path != pu);
            }
            lemma_common_prefix_is(pu, pv, j + 1);
            assert(pu[j] == ww) by {
                assert(pa[ww].path[i] == ww);
            }
        } else {
            if pu[0] == pv[0] {
                let rho = pu[0];
                assert(pb[top as int].path[0] == rho);
                assert(pb[v as int].path[0] == rho);
                assert(pb[rho].path == pb[top as int].path);
                assert(pb[rho].path == pb[v as int].path);
                lemma_in_tree(cb, pb, ab, v as int, top as int);
                assert(false);
            }
        }
    }
    if top == v {
        w
    } else {
        None
    }
}

/// The summary of the true values of the cells of `path` from index `a` up to
/// index `b`.
spec fn range_sum<N: Node>(c: Seq<Cell<N>>, aux: Seq<Aux<N::Lazy>>, path: Seq<int>, a: int, b: int) -> N::Summary
    decreases b - a,
{
    if b <= a {
        N::sum_unit()
    } else {
        N::sum_join(range_sum(c, aux, path, a, b - 1), N::sum_of(true_value(c, aux, path[b - 1])))
    }
}

/// The summary of a range is the join of the summaries of its two parts.
proof fn lemma_range_split<N: Node>(
    c: Seq<Cell<N>>,
    aux: Seq<Aux<N::Lazy>>,
    path: Seq<int>,
    a: int,
    m: int,
    b: int,
)
    requires
        a <= m <= b,
    ensures
        range_sum(c, aux, path, a, b) == N::sum_join(
            range_sum(c, aux, path, a, m),
            range_sum(c, aux, path, m, b),
        ),
    decreases b - m,
{
    let u = N::sum_unit();
    if b == m {
        N::lemma_sum_monoid(range_sum(c, aux, path, a, m), u, u);
    } else {
        lemma_range_split(c, aux, path, a, m, b - 1);
        N::lemma_sum_monoid(
            range_sum(c, aux, path, a, m),
            range_sum(c, aux, path, m, b - 1),
            N::sum_of(true_value(c, aux, path[b - 1])),
        );
    }
}

/// The cached summary of a fresh cell, under the action that has yet to reach
/// the cell, is the summary of the true values that its subtree covers.
#[verifier::rlimit(50)]
proof fn lemma_true_sum<N: Node>(c: Seq<Cell<N>>, pos: Seq<Pos>, aux: Seq<Aux<N::Lazy>>, x: int)
    requires
        forest_inv(c, pos, aux),
        0 <= x < c.len(),
        fresh(c, aux, x),
    ensures
        N::act_sum(aux[x].acc, c[x].node.summary_spec(), c[x].node.size_spec() as nat) == range_sum(
            c,
            aux,
            pos[x].path,
            aux[x].lo,
            aux[x].hi,
        ),
    decreases aux[x].hi - aux[x].lo,
{
    let path = pos[x].path;
    let acc = aux[x].acc;
    let lz = c[x].node.lazy_spec();
    let v = c[x].node.value_spec();
    let tp = pos[x].tp;
    assert(node_inv(c, pos, aux, x));
    assert(path_inv(pos, x));
    let g0 = ch0_of(c, x);
    let g1 = ch1_of(c, x);
    let s0 = child_sum(c, x, g0);
    let s1 = child_sum(c, x, g1);
    let n0: nat = match g0 {
        Some(k) => c[k].node.size_spec() as nat,
        None => 0,
    };
    let n1: nat = match g1 {
        Some(k) => c[k].node.size_spec() as nat,
        None => 0,
    };
    if g0 is Some {
        let k = g0.unwrap();
        lemma_child(c, pos, aux, x, k);
        lemma_true_sum(c, pos, aux, k);
        N::lemma_act_then(lz, acc, v, c[k].node.summary_spec(), c[k].node.size_spec() as nat);
        lemma_children_differ(c, pos, aux, x);
    }
    if g1 is Some {
        let k = g1.unwrap();
        lemma_child(c, pos, aux, x, k);
        lemma_true_sum(c, pos, aux, k);
        N::lemma_act_then(lz, acc, v, c[k].node.summary_spec(), c[k].node.size_spec() as nat);
    }
    N::lemma_act_distributes(acc, s0, n0, N::sum_of(v), 1, v);
    N::lemma_act_distributes(acc, N::sum_join(s0, N::sum_of(v)), n0 + 1, s1, n1, v);
    let t0 = N::act_sum(acc, s0, n0);
    let t1 = N::act_sum(acc, s1, n1);
    let tv = N::sum_of(true_value(c, aux, x));
    let lo = aux[x].lo;
    let hi = aux[x].hi;
    let below = range_sum(c, aux, path, lo, tp);
    let above = range_sum(c, aux, path, tp + 1, hi);
    assert(range_sum(c, aux, path, lo, tp + 1) == N::sum_join(below, tv));
    lemma_range_split(c, aux, path, lo, tp + 1, hi);
    if aux[x].q {
        assert(t0 == above);
        assert(t1 == below);
        N::lemma_sum_monoid(above, tv, below);
        N::lemma_sum_monoid(below, tv, above);
        N::lemma_sum_monoid(above, N::sum_join(tv, below), below);
        N::lemma_sum_monoid(tv, below, above);
        N::lemma_sum_monoid(N::sum_join(below, tv), above, tv);
    } else {
        assert(t0 == below);
        assert(t1 == above);
    }
}

/// The product behind the summary of a range is the product of the true values
/// in the range.
proof fn lemma_range_fold<N: EffectNode>(
    c: Seq<Cell<N>>,
    aux: Seq<Aux<N::Lazy>>,
    path: Seq<int>,
    b: int,
) where N::Value: Monoid
    requires
        0 <= b <= path.len(),
        forall|j: int| 0 <= j < path.len() ==> 0 <= #[trigger] path[j] < c.len(),
        c.len() == aux.len(),
    ensures
        N::fold_of(range_sum(c, aux, path, 0, b)) == fold_seq(values_on(path, values_of(c, aux)).take(b)),
    decreases b,
{
    let vals = values_on(path, values_of(c, aux));
    if b == 0 {
        N::lemma_fold_of(true_value(c, aux, 0), N::sum_unit(), N::sum_unit());
        assert(vals.take(0).len() == 0);
    } else {
        lemma_range_fold(c, aux, path, b - 1);
        let x = path[b - 1];
        N::lemma_fold_of(
            true_value(c, aux, x),
            range_sum(c, aux, path, 0, b - 1),
            N::sum_of(true_value(c, aux, x)),
        );
        assert(vals.take(b).drop_last() =~= vals.take(b - 1));
        assert(vals.take(b).last() == true_value(c, aux, x));
    }
}

/// The product of the values on the path from the root to `v`. The cell is
/// exposed first.
pub fn fold<N: EffectNode>(f: &mut Forest<N>, v: usize) -> (r: &N::Value) where N::Value: Monoid
    requires
        old(f).wf(),
        v < old(f).len(),
    ensures
        final(f).wf(),
        final(f).len() == old(f).len(),
        final(f).paths() == old(f).paths(),
        final(f).values() == old(f).values(),
        *r == fold_seq(values_on(old(f).paths()[v as int], old(f).values())),
{
    expose(f, v);
    proof {
        let c = f.cells@;
        let pos = f.pos@;
        let aux = f.aux@;
        let path = pos[v as int].path;
        assert(node_inv(c, pos, aux, v as int));
        assert(path_inv(pos, v as int));
        lemma_true_sum(c, pos, aux, v as int);
        N::lemma_act_id(c[v as int].node.value_spec(), c[v as int].node.summary_spec(), c[v as int].node.size_spec() as nat);
        assert forall|j: int| 0 <= j < path.len() implies 0 <= #[trigger] path[j] < c.len() by {
            let w = pos[v as int].path[j];
            assert(0 <= w < pos.len());
        }
        lemma_range_fold::<N>(c, aux, path, path.len() as int);
        let vals = values_on(path, values_of(c, aux));
        assert(vals.take(path.len() as int) =~= vals);
    }
    f.cells[v].node.fold()
}

/// The pending actions from above after the action `a` has been applied at the
/// root `v` of a splay tree: it has yet to reach every other cell of the tree.
spec fn act_aux<N: Node>(pos: Seq<Pos>, aux: Seq<Aux<N::Lazy>>, v: int, a: N::Lazy) -> Seq<Aux<N::Lazy>> {
    Seq::new(
        aux.len(),
        |w: int|
            if w != v && pos[w].path == pos[v].path {
                Aux { lo: aux[w].lo, hi: aux[w].hi, q: aux[w].q, acc: N::lazy_then(aux[w].acc, a) }
            } else {
                aux[w]
            },
    )
}

/// What applying `a` at `v` does to the cells.
spec fn acted_from<N: Node>(c: Seq<Cell<N>>, c2: Seq<Cell<N>>, v: int, a: N::Lazy) -> bool {
    &&& c2.len() == c.len()
    &&& forall|w: int| 0 <= w < c.len() && w != v ==> #[trigger] c2[w] == c[w]
    &&& c2[v].ch0 == c[v].ch0
    &&& c2[v].ch1 == c[v].ch1
    &&& c2[v].par == c[v].par
    &&& c2[v].rev == c[v].rev
    &&& c2[v].node.value_spec() == N::act(a, c[v].node.value_spec())
    &&& c2[v].node.lazy_spec() == N::lazy_then(c[v].node.lazy_spec(), a)
    &&& c2[v].node.size_spec() == c[v].node.size_spec()
}

/// The invariant and the true value of a cell after an action has been applied
/// at the root `v` of its splay tree.
#[verifier::rlimit(50)]
proof fn lemma_act_node<N: Node>(
    c: Seq<Cell<N>>,
    pos: Seq<Pos>,
    aux: Seq<Aux<N::Lazy>>,
    c2: Seq<Cell<N>>,
    v: int,
    a: N::Lazy,
    w: int,
)
    requires
        forest_inv(c, pos, aux),
        0 <= v < c.len(),
        0 <= w < c.len(),
        aux_root(c, v),
        c[v].node.lazy_spec() == N::lazy_id(),
        acted_from(c, c2, v, a),
    ensures
        node_inv(c2, pos, act_aux::<N>(pos, aux, v, a), w),
        true_value(c2, act_aux::<N>(pos, aux, v, a), w) == if pos[w].path == pos[v].path {
            N::act(a, true_value(c, aux, w))
        } else {
            true_value(c, aux, w)
        },
{
    let aux2 = act_aux::<N>(pos, aux, v, a);
    let id = N::lazy_id();
    assert(node_inv(c, pos, aux, v));
    assert(node_inv(c, pos, aux, w));
    N::lemma_lazy_monoid(a, id, id);
    N::lemma_lazy_monoid(id, id, a);
    N::lemma_act_id(c[v].node.value_spec(), N::sum_unit(), 0);
    N::lemma_act_id(c2[v].node.value_spec(), N::sum_unit(), 0);
    let g0 = ch0_of(c, w);
    let g1 = ch1_of(c, w);
    if g0 is Some {
        let k = g0.unwrap();
        lemma_child(c, pos, aux, w, k);
        assert(c2[k] == c[k]);
        N::lemma_lazy_monoid(c[w].node.lazy_spec(), aux[w].acc, a);
    }
    if g1 is Some {
        let k = g1.unwrap();
        lemma_child(c, pos, aux, w, k);
        assert(c2[k] == c[k]);
        N::lemma_lazy_monoid(c[w].node.lazy_spec(), aux[w].acc, a);
    }
    if w != v {
        assert(c2[w] == c[w]);
        if par_of(c, w) is Some {
            let pw = par_of(c, w).unwrap();
            if pw != v {
                assert(c2[pw] == c[pw]);
            }
        }
        assert(aux_root(c2, w) == aux_root(c, w));
        if pos[w].path == pos[v].path {
            lemma_in_tree(c, pos, aux, v, w);
            N::lemma_act_then(aux[w].acc, a, c[w].node.value_spec(), N::sum_unit(), 0);
        }
        assert(child_sum(c2, w, g0) == child_sum(c, w, g0));
        assert(child_sum(c2, w, g1) == child_sum(c, w, g1));
    } else {
        assert(aux_root(c2, w));
    }
    assert(child_ok(c2, pos, aux2, w, low_child(c2, aux2, w), aux2[w].lo, pos[w].tp));
    assert(child_ok(c2, pos, aux2, w, high_child(c2, aux2, w), pos[w].tp + 1, aux2[w].hi));
    assert(node_inv(c2, pos, aux2, w));
}

/// Applies the effect `e` to the value of every cell on the path from the root
/// to `v`. The cell is exposed first.
#[verifier::rlimit(50)]
pub fn lct_effect<N: EffectNode>(f: &mut Forest<N>, v: usize, e: N::Effector) where N::Value: Monoid
    requires
        old(f).wf(),
        v < old(f).len(),
    ensures
        final(f).wf(),
        final(f).len() == old(f).len(),
        final(f).paths() == old(f).paths(),
        final(f).values() == acted_on(
            old(f).values(),
            old(f).paths()[v as int],
            |t: N::Value| e.effect_spec(t, 1),
        ),
        final(f).is_aux_root(v as int),
        final(f).pushed(v as int),
{
    expose(f, v);
    let ghost c = f.cells@;
    let ghost pos = f.pos@;
    let ghost aux = f.aux@;
    let ghost a = N::lift(e);
    proof {
        assert(node_inv(c, pos, aux, v as int));
    }
    f.cells[v].node.effect(e);
    proof {
        let c2 = f.cells@;
        let aux2 = act_aux::<N>(pos, aux, v as int, a);
        f.aux@ = aux2;
        assert(acted_from(c, c2, v as int, a));
        assert forall|w: int| 0 <= w < c.len() implies #[trigger] node_inv(c2, pos, aux2, w) by {
            lemma_act_node(c, pos, aux, c2, v as int, a, w);
        }
        assert forall|x: int| 0 <= x < c2.len() implies #[trigger] path_inv(pos, x) by {
            assert(path_inv(pos, x));
        }
        assert forall|x: int| 0 <= x < c2.len() implies #[trigger] rpath_inv(pos, x) by {
            assert(rpath_inv(pos, x));
        }
    }
    let ghost c3 = f.cells@;
    let ghost aux3 = f.aux@;
    push(f, v);
    proof {
        let want = acted_on(old(f).values(), old(f).paths()[v as int], |t: N::Value| e.effect_spec(t, 1));
        let path = pos[v as int].path;
        assert(path_inv(pos, v as int));
        assert forall|w: int| 0 <= w < c.len() implies f.values()[w] == want[w] by {
            lemma_act_node(c, pos, aux, c3, v as int, a, w);
            assert(true_value(f.cells@, f.aux@, w) == true_value(c3, aux3, w));
            assert(path_inv(pos, w));
            N::lemma_lift(e, true_value(c, aux, w), N::sum_unit(), 0);
            if pos[w].path == path {
                assert(path[pos[w].tp] == w);
                assert(path.contains(w));
            } else {
                if path.contains(w) {
                    let j = choose|j: int| 0 <= j < path.len() && path[j] == w;
                    let u = pos[v as int].path[j];
                    assert(pos[u].path == path);
                    assert(false);
                }
            }
            assert(old(f).values()[w] == true_value(c, aux, w));
        }
        assert(f.values() =~= want);
    }
}

} // verus!
