//! The forest as mathematics: for every cell the path from the root of its tree
//! down to it, and what linking, cutting and everting do to these paths.
use vstd::prelude::*;

verus! {

/// The paths describe a forest: the path of a cell ends at the cell, runs
/// through cells of the forest, and down to any cell on it is the path of that
/// cell.
pub open spec fn paths_wf(paths: Seq<Seq<int>>) -> bool {
    forall|w: int| 0 <= w < paths.len() ==> #[trigger] path_ok(paths, w)
}

/// The path of `w` ends at `w`, runs through cells of the forest, and down to
/// any cell on it is the path of that cell.
pub open spec fn path_ok(paths: Seq<Seq<int>>, w: int) -> bool {
    &&& paths[w].len() >= 1
    &&& paths[w].last() == w
    &&& forall|j: int| 0 <= j < paths[w].len() ==> #[trigger] step_ok(paths, w, j)
}

/// The cell at index `j` of the path of `w` is a cell of the forest, and the
/// path of `w` down to it is its path.
pub open spec fn step_ok(paths: Seq<Seq<int>>, w: int, j: int) -> bool {
    0 <= paths[w][j] < paths.len() && paths[paths[w][j]] == paths[w].take(j + 1)
}

/// The forest parent of a cell, if it has one.
pub open spec fn parent_of(paths: Seq<Seq<int>>, w: int) -> Option<int> {
    if paths[w].len() >= 2 {
        Some(paths[w][paths[w].len() - 2])
    } else {
        None
    }
}

/// The number of leading cells that two paths have in common.
pub open spec fn common_prefix(a: Seq<int>, b: Seq<int>) -> nat
    decreases a.len(),
{
    if a.len() == 0 || b.len() == 0 || a[0] != b[0] {
        0
    } else {
        1 + common_prefix(a.skip(1), b.skip(1))
    }
}

/// The lowest common ancestor of the cells at the ends of two paths: the last
/// cell that the paths have in common, or none when they start at different
/// roots.
pub open spec fn lca_of(pu: Seq<int>, pv: Seq<int>) -> Option<int> {
    if common_prefix(pu, pv) == 0 {
        None
    } else {
        Some(pu[common_prefix(pu, pv) - 1])
    }
}

/// The paths after the root `child` has been linked under `parent`.
pub open spec fn linked(paths: Seq<Seq<int>>, parent: int, child: int) -> Seq<Seq<int>> {
    Seq::new(
        paths.len(),
        |w: int|
            if paths[w][0] == child {
                paths[parent] + paths[w]
            } else {
                paths[w]
            },
    )
}

/// `w` is `v` or lies below `v`.
pub open spec fn in_subtree(paths: Seq<Seq<int>>, w: int, v: int) -> bool {
    paths[w].len() >= paths[v].len() && paths[w][paths[v].len() - 1] == v
}

/// The paths after `v` has been cut from its parent.
pub open spec fn cut_off(paths: Seq<Seq<int>>, v: int) -> Seq<Seq<int>> {
    Seq::new(
        paths.len(),
        |w: int|
            if in_subtree(paths, w, v) {
                paths[w].skip(paths[v].len() - 1)
            } else {
                paths[w]
            },
    )
}

/// The paths after the tree of `v` has been given the root `v`.
pub open spec fn everted(paths: Seq<Seq<int>>, v: int) -> Seq<Seq<int>> {
    Seq::new(
        paths.len(),
        |w: int|
            if paths[w][0] == paths[v][0] {
                let k = common_prefix(paths[v], paths[w]);
                paths[v].skip(k - 1).reverse() + paths[w].skip(k as int)
            } else {
                paths[w]
            },
    )
}

/// The common prefix is a prefix of both, and it cannot be made longer.
pub proof fn lemma_common_prefix(a: Seq<int>, b: Seq<int>)
    ensures
        common_prefix(a, b) <= a.len(),
        common_prefix(a, b) <= b.len(),
        a.take(common_prefix(a, b) as int) == b.take(common_prefix(a, b) as int),
        common_prefix(a, b) < a.len() && common_prefix(a, b) < b.len() ==> a[common_prefix(a, b) as int]
            != b[common_prefix(a, b) as int],
    decreases a.len(),
{
    if a.len() == 0 || b.len() == 0 || a[0] != b[0] {
        assert(a.take(0) =~= b.take(0));
    } else {
        lemma_common_prefix(a.skip(1), b.skip(1));
        let k = common_prefix(a.skip(1), b.skip(1)) as int;
        assert(a.take(k + 1) =~= seq![a[0]] + a.skip(1).take(k));
        assert(b.take(k + 1) =~= seq![b[0]] + b.skip(1).take(k));
    }
}

/// A length up to which two paths agree and after which they part is their
/// common prefix.
pub proof fn lemma_common_prefix_is(a: Seq<int>, b: Seq<int>, n: int)
    requires
        0 <= n <= a.len(),
        n <= b.len(),
        a.take(n) == b.take(n),
        n == a.len() || n == b.len() || a[n] != b[n],
    ensures
        common_prefix(a, b) == n,
    decreases a.len(),
{
    if n == 0 {
        assert(a.len() == 0 || b.len() == 0 || a[0] != b[0]);
    } else {
        assert(a.take(n)[0] == a[0]);
        assert(b.take(n)[0] == b[0]);
        assert(a[0] == b[0]);
        assert(a.skip(1).take(n - 1) =~= a.take(n).skip(1));
        assert(b.skip(1).take(n - 1) =~= b.take(n).skip(1));
        if n < a.len() && n < b.len() {
            assert(a.skip(1)[n - 1] == a[n]);
            assert(b.skip(1)[n - 1] == b[n]);
        }
        lemma_common_prefix_is(a.skip(1), b.skip(1), n - 1);
        assert(common_prefix(a, b) == 1 + common_prefix(a.skip(1), b.skip(1)));
    }
}

/// After a root `c` has been linked under `p`, the forest parent of `c` is `p`;
/// after it has been cut again, `c` has no forest parent.
pub proof fn lemma_link_cut_parent(paths: Seq<Seq<int>>, p: int, c: int)
    requires
        paths_wf(paths),
        0 <= p < paths.len(),
        0 <= c < paths.len(),
        paths[c] == seq![c],
        paths[p][0] != c,
    ensures
        parent_of(linked(paths, p, c), c) == Some(p),
        parent_of(cut_off(linked(paths, p, c), c), c) is None,
{
    assert(path_ok(paths, p));
    lemma_link_cut_then_lca(paths, p, c);
}

/// Link/cut connectivity, first half: after a root `c` has been linked under
/// `p`, the lowest common ancestor of `c` and `p` is `p`.
pub proof fn lemma_link_then_lca(paths: Seq<Seq<int>>, p: int, c: int)
    requires
        paths_wf(paths),
        0 <= p < paths.len(),
        0 <= c < paths.len(),
        paths[c] == seq![c],
        paths[p][0] != c,
    ensures
        lca_of(linked(paths, p, c)[c], linked(paths, p, c)[p]) == Some(p),
{
    let a = paths[p] + paths[c];
    let b = paths[p];
    assert(path_ok(paths, p));
    assert(a.take(b.len() as int) =~= b.take(b.len() as int));
    lemma_common_prefix_is(a, b, b.len() as int);
}

/// Link/cut connectivity, second half: after the edge made by linking the root
/// `c` under `p` has been cut again, `c` and `p` have no common ancestor.
pub proof fn lemma_link_cut_then_lca(paths: Seq<Seq<int>>, p: int, c: int)
    requires
        paths_wf(paths),
        0 <= p < paths.len(),
        0 <= c < paths.len(),
        paths[c] == seq![c],
        paths[p][0] != c,
    ensures
        lca_of(cut_off(linked(paths, p, c), c)[c], cut_off(linked(paths, p, c), c)[p]) is None,
        cut_off(linked(paths, p, c), c)[c] == paths[c],
        cut_off(linked(paths, p, c), c)[p] == paths[p],
{
    let l = linked(paths, p, c);
    assert(path_ok(paths, p));
    assert(l[c] == paths[p] + paths[c]);
    assert(l[p] == paths[p]);
    let n = cut_off(l, c);
    assert(in_subtree(l, c, c));
    assert(n[c] =~= paths[c]);
    assert(!in_subtree(l, p, c));
    assert(n[p] == paths[p]);
}

/// Everting `v` where the path of `v` is `v` alone changes no path, provided that
/// every path has a first cell.
proof fn lemma_evert_at_root(paths: Seq<Seq<int>>, v: int)
    requires
        0 <= v < paths.len(),
        paths[v] == seq![v],
        forall|w: int| 0 <= w < paths.len() ==> (#[trigger] paths[w]).len() >= 1,
    ensures
        everted(paths, v) == paths,
{
    let e = everted(paths, v);
    assert forall|w: int| 0 <= w < paths.len() implies e[w] == paths[w] by {
        if paths[w][0] == paths[v][0] {
            let a = paths[v];
            let b = paths[w];
            assert(b.len() >= 1);
            assert(a.take(1) =~= b.take(1));
            lemma_common_prefix_is(a, b, 1);
            assert(a.skip(0).reverse() =~= seq![v]);
            assert(a.skip(0).reverse() + b.skip(1) =~= b);
        }
    }
    assert(e =~= paths);
}

/// Evert at a root: giving a tree the root it already has changes nothing, so
/// neither does doing it twice.
pub proof fn lemma_evert_root(paths: Seq<Seq<int>>, v: int)
    requires
        paths_wf(paths),
        0 <= v < paths.len(),
        paths[v] == seq![v],
    ensures
        everted(paths, v) == paths,
        everted(everted(paths, v), v) == paths,
{
    assert forall|w: int| 0 <= w < paths.len() implies (#[trigger] paths[w]).len() >= 1 by {
        assert(path_ok(paths, w));
    }
    lemma_evert_at_root(paths, v);
}

/// Evert inversion: after a tree has been given the root `v`, giving it the root
/// `v` again changes nothing.
pub proof fn lemma_evert_twice(paths: Seq<Seq<int>>, v: int)
    requires
        paths_wf(paths),
        0 <= v < paths.len(),
    ensures
        everted(paths, v)[v] == seq![v],
        everted(everted(paths, v), v) == everted(paths, v),
{
    let e = everted(paths, v);
    let pv = paths[v];
    assert(path_ok(paths, v));
    assert(pv.take(pv.len() as int) =~= pv);
    lemma_common_prefix_is(pv, pv, pv.len() as int);
    assert(pv.skip(pv.len() - 1).reverse() + pv.skip(pv.len() as int) =~= seq![v]);
    assert(e[v] == seq![v]);
    assert forall|w: int| 0 <= w < e.len() implies (#[trigger] e[w]).len() >= 1 by {
        assert(path_ok(paths, w));
        if paths[w][0] == paths[v][0] {
            lemma_common_prefix(pv, paths[w]);
            let k = common_prefix(pv, paths[w]) as int;
            assert(k >= 1);
            assert(pv.skip(k - 1).reverse().len() >= 1);
        }
    }
    lemma_evert_at_root(e, v);
}

/// The values of the cells of a path, in path order.
pub open spec fn values_on<V>(path: Seq<int>, values: Seq<V>) -> Seq<V> {
    Seq::new(path.len(), |j: int| values[path[j]])
}

/// The values after `act` has been applied to the value of every cell of `path`.
pub open spec fn acted_on<V>(values: Seq<V>, path: Seq<int>, act: spec_fn(V) -> V) -> Seq<V> {
    Seq::new(
        values.len(),
        |x: int|
            if path.contains(x) {
                act(values[x])
            } else {
                values[x]
            },
    )
}

} // verus!
