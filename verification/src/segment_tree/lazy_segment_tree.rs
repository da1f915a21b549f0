//! A segment tree with deferred effects: an effect on a range is recorded at the
//! cells that cover the range and handed down only when a later operation
//! passes.
use vstd::prelude::*;
use crate::algebra::{
    acted, duplicate, fold_seq, lemma_effect_fold, lemma_fold_concat, lemma_fold_one, Effector,
    LinearEffector, Magma, Monoid, Unital,
};
use crate::segment_tree::dynamic_segment_tree::{clip, doubled_up_to};

verus! {

/// The sequence with the effect `e` applied to the positions from `lo` up to
/// `hi`.
pub open spec fn range_acted<E: Effector>(e: E, s: Seq<E::Target>, lo: int, hi: int) -> Seq<E::Target> {
    Seq::new(
        s.len(),
        |k: int|
            if lo <= k < hi {
                e.effect_spec(s[k], 1)
            } else {
                s[k]
            },
    )
}

/// `w` is a power of two.
pub open spec fn is_pow2(w: int) -> bool
    decreases w,
{
    w == 1 || (w >= 2 && w % 2 == 0 && is_pow2(w / 2))
}

/// Cell `x` is cell `i` or lies below it in the implicit tree, in which the
/// children of cell `k` are the cells `2k` and `2k + 1`.
spec fn descends(x: int, i: int) -> bool
    decreases x,
{
    if i < 1 || x < i {
        false
    } else if x == i {
        true
    } else {
        descends(x / 2, i)
    }
}

/// Cell `i` covers the positions from `l` up to `r` in a tree over `sz`
/// positions.
spec fn shape(sz: int, i: int, l: int, r: int) -> bool {
    &&& 1 <= i
    &&& 0 <= l < r <= sz
    &&& is_pow2(r - l)
    &&& i * (r - l) == sz + l
}

/// The values at the positions that cell `i` covers, with the effects recorded
/// at `i` and below applied.
spec fn trues<E: Effector>(nd: Seq<E::Target>, lz: Seq<E>, i: int, l: int, r: int) -> Seq<E::Target>
    decreases r - l,
{
    if r <= l {
        Seq::empty()
    } else if l + 1 == r {
        seq![lz[i].effect_spec(nd[i], 1)]
    } else {
        let m = (l + r) / 2;
        acted(lz[i], trues(nd, lz, 2 * i, l, m) + trues(nd, lz, 2 * i + 1, m, r))
    }
}

/// Every cell at `i` and below that has children holds the product of what its
/// children stand for.
spec fn held<E: Effector>(nd: Seq<E::Target>, lz: Seq<E>, i: int, l: int, r: int) -> bool where
    E::Target: Monoid,

    decreases r - l,
{
    if r <= l + 1 {
        true
    } else {
        let m = (l + r) / 2;
        &&& nd[i] == fold_seq(trues(nd, lz, 2 * i, l, m) + trues(nd, lz, 2 * i + 1, m, r))
        &&& held(nd, lz, 2 * i, l, m)
        &&& held(nd, lz, 2 * i + 1, m, r)
    }
}

/// The two arenas agree at `i` and below.
spec fn same_below<E: Effector>(
    nd: Seq<E::Target>,
    lz: Seq<E>,
    nd2: Seq<E::Target>,
    lz2: Seq<E>,
    i: int,
) -> bool {
    forall|x: int| 0 <= x < nd.len() && #[trigger] descends(x, i) ==> nd2[x] == nd[x] && lz2[x] == lz[x]
}

/// The two arenas agree everywhere but at `i` and below.
spec fn same_beside<E: Effector>(
    nd: Seq<E::Target>,
    lz: Seq<E>,
    nd2: Seq<E::Target>,
    lz2: Seq<E>,
    i: int,
) -> bool {
    &&& nd2.len() == nd.len()
    &&& lz2.len() == lz.len()
    &&& forall|x: int| 0 <= x < nd.len() && !#[trigger] descends(x, i) ==> nd2[x] == nd[x] && lz2[x] == lz[x]
}

proof fn lemma_shape(sz: int, i: int, l: int, r: int)
    requires
        shape(sz, i, l, r),
    ensures
        i < 2 * sz,
        r - l >= 2 ==> {
            let m = (l + r) / 2;
            &&& l < m < r
            &&& shape(sz, 2 * i, l, m)
            &&& shape(sz, 2 * i + 1, m, r)
            &&& 2 * i + 1 < 2 * sz
        },
        r - l == 1 ==> i >= sz,
{
    let w = r - l;
    assert(i < 2 * sz) by (nonlinear_arith)
        requires
            i * w == sz + l,
            w >= 1,
            l < sz,
            i >= 1,
    ;
    if w >= 2 {
        let h = w / 2;
        let m = (l + r) / 2;
        assert(w == 2 * h);
        assert(m == l + h);
        assert((2 * i) * h == sz + l) by (nonlinear_arith)
            requires
                i * w == sz + l,
                w == 2 * h,
        ;
        assert((2 * i + 1) * h == sz + m) by (nonlinear_arith)
            requires
                i * w == sz + l,
                w == 2 * h,
                m == l + h,
        ;
        assert(2 * i + 1 < 2 * sz) by (nonlinear_arith)
            requires
                (2 * i + 1) * h == sz + m,
                h >= 1,
                m < sz,
                i >= 1,
        ;
    }
    if w == 1 {
        assert(i >= sz) by (nonlinear_arith)
            requires
                i * w == sz + l,
                w == 1,
                l >= 0,
        ;
    }
}

/// A cell is not below its own children, a cell below a child is below the
/// parent, and no cell is below both children.
proof fn lemma_descends(x: int, i: int)
    requires
        1 <= i,
    ensures
        descends(x, 2 * i) ==> descends(x, i) && !descends(x, 2 * i + 1) && x != i,
        descends(x, 2 * i + 1) ==> descends(x, i) && x != i,
        descends(x, i) ==> x >= i,
        descends(i, i),
        descends(2 * i, i),
        descends(2 * i + 1, i),
    decreases x,
{
    reveal_with_fuel(descends, 3);
    if x > 2 * i {
        lemma_descends(x / 2, i);
    }
}

/// What a cell stands for depends on the cells at and below it only.
proof fn lemma_frame<E: Effector>(
    nd: Seq<E::Target>,
    lz: Seq<E>,
    nd2: Seq<E::Target>,
    lz2: Seq<E>,
    sz: int,
    i: int,
    l: int,
    r: int,
) where E::Target: Monoid
    requires
        shape(sz, i, l, r),
        nd.len() == 2 * sz,
        same_below(nd, lz, nd2, lz2, i),
    ensures
        trues(nd2, lz2, i, l, r) == trues(nd, lz, i, l, r),
        held(nd2, lz2, i, l, r) == held(nd, lz, i, l, r),
    decreases r - l,
{
    lemma_shape(sz, i, l, r);
    lemma_descends(i, i);
    assert(descends(i, i));
    if r - l >= 2 {
        let m = (l + r) / 2;
        assert forall|x: int| 0 <= x < nd.len() && #[trigger] descends(x, 2 * i) implies nd2[x] == nd[x]
            && lz2[x] == lz[x] by {
            lemma_descends(x, i);
        }
        assert forall|x: int| 0 <= x < nd.len() && #[trigger] descends(x, 2 * i + 1) implies nd2[x]
            == nd[x] && lz2[x] == lz[x] by {
            lemma_descends(x, i);
        }
        lemma_frame(nd, lz, nd2, lz2, sz, 2 * i, l, m);
        lemma_frame(nd, lz, nd2, lz2, sz, 2 * i + 1, m, r);
    }
}

/// A cell stands for as many values as it covers positions.
proof fn lemma_trues_len<E: Effector>(nd: Seq<E::Target>, lz: Seq<E>, i: int, l: int, r: int)
    requires
        l <= r,
    ensures
        trues(nd, lz, i, l, r).len() == r - l,
    decreases r - l,
{
    if r - l >= 2 {
        let m = (l + r) / 2;
        lemma_trues_len(nd, lz, 2 * i, l, m);
        lemma_trues_len(nd, lz, 2 * i + 1, m, r);
    }
}

/// Two effects in turn on each value are their composite on each value; the
/// identity effect changes no value.
pub proof fn lemma_acted<E: LinearEffector>(e1: E, e2: E, s: Seq<E::Target>) where E::Target: Monoid
    ensures
        acted(e2, acted(e1, s)) == acted(e1.op_spec(e2), s),
        acted(E::identity_spec(), s) == s,
{
    assert forall|k: int| 0 <= k < s.len() implies acted(e2, acted(e1, s))[k] == acted(e1.op_spec(e2), s)[k] by {
        E::lemma_effect_composes(e1, e2, s[k], 1);
    }
    assert(acted(e2, acted(e1, s)) =~= acted(e1.op_spec(e2), s));
    assert forall|k: int| 0 <= k < s.len() implies acted(E::identity_spec(), s)[k] == s[k] by {
        E::lemma_identity_effect(s[k], 1);
    }
    assert(acted(E::identity_spec(), s) =~= s);
}

/// A cell to which nothing has happened but that the effect `e` was added to
/// what is recorded at it stands for what it stood for, with `e` applied.
proof fn lemma_received<E: LinearEffector>(
    nd: Seq<E::Target>,
    lz: Seq<E>,
    nd2: Seq<E::Target>,
    lz2: Seq<E>,
    sz: int,
    j: int,
    l: int,
    r: int,
    e: E,
) where E::Target: Monoid
    requires
        shape(sz, j, l, r),
        nd.len() == 2 * sz,
        lz.len() == 2 * sz,
        nd2.len() == 2 * sz,
        lz2.len() == 2 * sz,
        nd2[j] == nd[j],
        lz2[j] == lz[j].op_spec(e),
        forall|x: int| 0 <= x < nd.len() && x != j && #[trigger] descends(x, j) ==> nd2[x] == nd[x] && lz2[x]
            == lz[x],
    ensures
        trues(nd2, lz2, j, l, r) == acted(e, trues(nd, lz, j, l, r)),
        held(nd2, lz2, j, l, r) == held(nd, lz, j, l, r),
{
    lemma_shape(sz, j, l, r);
    if r - l >= 2 {
        let m = (l + r) / 2;
        assert forall|x: int| 0 <= x < nd.len() && #[trigger] descends(x, 2 * j) implies nd2[x] == nd[x]
            && lz2[x] == lz[x] by {
            lemma_descends(x, j);
        }
        assert forall|x: int| 0 <= x < nd.len() && #[trigger] descends(x, 2 * j + 1) implies nd2[x]
            == nd[x] && lz2[x] == lz[x] by {
            lemma_descends(x, j);
        }
        lemma_frame(nd, lz, nd2, lz2, sz, 2 * j, l, m);
        lemma_frame(nd, lz, nd2, lz2, sz, 2 * j + 1, m, r);
        let c = trues(nd, lz, 2 * j, l, m) + trues(nd, lz, 2 * j + 1, m, r);
        lemma_acted(lz[j], e, c);
    } else {
        E::lemma_effect_composes(lz[j], e, nd[j], 1);
        assert(trues(nd2, lz2, j, l, r) =~= acted(e, trues(nd, lz, j, l, r)));
    }
}

/// A cell with nothing recorded at it that is given the product of its two
/// children, which hold the products of what they stand for, stands for what
/// they stand for and holds the product.
proof fn lemma_pulled_up<E: LinearEffector>(
    nd: Seq<E::Target>,
    lz: Seq<E>,
    nd2: Seq<E::Target>,
    sz: int,
    i: int,
    l: int,
    r: int,
) where E::Target: Monoid
    requires
        shape(sz, i, l, r),
        r - l >= 2,
        nd.len() == 2 * sz,
        lz.len() == 2 * sz,
        held(nd, lz, 2 * i, l, (l + r) / 2),
        held(nd, lz, 2 * i + 1, (l + r) / 2, r),
        nd[2 * i] == fold_seq(trues(nd, lz, 2 * i, l, (l + r) / 2)),
        nd[2 * i + 1] == fold_seq(trues(nd, lz, 2 * i + 1, (l + r) / 2, r)),
        lz[i] == E::identity_spec(),
        nd2 == nd.update(i, nd[2 * i].op_spec(nd[2 * i + 1])),
    ensures
        held(nd2, lz, i, l, r),
        trues(nd2, lz, i, l, r) == trues(nd, lz, 2 * i, l, (l + r) / 2) + trues(
            nd,
            lz,
            2 * i + 1,
            (l + r) / 2,
            r,
        ),
        nd2[i] == fold_seq(trues(nd2, lz, i, l, r)),
{
    let m = (l + r) / 2;
    lemma_shape(sz, i, l, r);
    assert(same_below(nd, lz, nd2, lz, 2 * i)) by {
        assert forall|x: int| 0 <= x < nd.len() && #[trigger] descends(x, 2 * i) implies nd2[x] == nd[x] by {
            lemma_descends(x, i);
        }
    }
    assert(same_below(nd, lz, nd2, lz, 2 * i + 1)) by {
        assert forall|x: int| 0 <= x < nd.len() && #[trigger] descends(x, 2 * i + 1) implies nd2[x]
            == nd[x] by {
            lemma_descends(x, i);
        }
    }
    lemma_frame(nd, lz, nd2, lz, sz, 2 * i, l, m);
    lemma_frame(nd, lz, nd2, lz, sz, 2 * i + 1, m, r);
    let u0 = trues(nd, lz, 2 * i, l, m);
    let u1 = trues(nd, lz, 2 * i + 1, m, r);
    lemma_fold_concat(u0, u1);
    lemma_acted(E::identity_spec(), E::identity_spec(), u0 + u1);
}

/// An effect on a range of a concatenation is the effect on the parts of the
/// range in the two halves.
pub proof fn lemma_range_acted_concat<E: Effector>(
    e: E,
    x: Seq<E::Target>,
    y: Seq<E::Target>,
    a: int,
    b: int,
    l: int,
    m: int,
    r: int,
)
    requires
        l <= m <= r,
        x.len() == m - l,
        y.len() == r - m,
    ensures
        range_acted(e, x + y, clip(a, b, l, r).0, clip(a, b, l, r).1) == range_acted(
            e,
            x,
            clip(a, b, l, m).0,
            clip(a, b, l, m).1,
        ) + range_acted(e, y, clip(a, b, m, r).0, clip(a, b, m, r).1),
{
    assert(range_acted(e, x + y, clip(a, b, l, r).0, clip(a, b, l, r).1) =~= range_acted(
        e,
        x,
        clip(a, b, l, m).0,
        clip(a, b, l, m).1,
    ) + range_acted(e, y, clip(a, b, m, r).0, clip(a, b, m, r).1));
}

/// Where nothing is recorded at any cell, a cell stands for the values of the
/// positions that it covers.
proof fn lemma_plain<E: LinearEffector>(nd: Seq<E::Target>, lz: Seq<E>, sz: int, i: int, l: int, r: int) where
    E::Target: Monoid,

    requires
        shape(sz, i, l, r),
        nd.len() == 2 * sz,
        lz.len() == 2 * sz,
        forall|x: int| 0 <= x < 2 * sz ==> #[trigger] lz[x] == E::identity_spec(),
    ensures
        trues(nd, lz, i, l, r) == nd.subrange(sz + l, sz + r),
    decreases r - l,
{
    lemma_shape(sz, i, l, r);
    if r - l >= 2 {
        let m = (l + r) / 2;
        lemma_plain(nd, lz, sz, 2 * i, l, m);
        lemma_plain(nd, lz, sz, 2 * i + 1, m, r);
        let c = nd.subrange(sz + l, sz + m) + nd.subrange(sz + m, sz + r);
        lemma_acted(E::identity_spec(), E::identity_spec(), c);
        assert(c =~= nd.subrange(sz + l, sz + r));
    } else {
        E::lemma_identity_effect(nd[i], 1);
        assert(i == sz + l) by (nonlinear_arith)
            requires
                i * (r - l) == sz + l,
                r - l == 1,
        ;
        assert(trues(nd, lz, i, l, r) =~= nd.subrange(sz + l, sz + r));
    }
}

/// Cell `j`, if it covers the positions from `l` up to `r`, has been built: it
/// and the cells below hold the products of what they stand for.
spec fn built<E: Effector>(nd: Seq<E::Target>, lz: Seq<E>, sz: int, j: int, l: int, r: int) -> bool where
    E::Target: Monoid,
 {
    shape(sz, j, l, r) ==> held(nd, lz, j, l, r) && nd[j] == fold_seq(trues(nd, lz, j, l, r))
}

/// A bottom cell is built whatever it holds.
proof fn lemma_built_bottom<E: LinearEffector>(nd: Seq<E::Target>, lz: Seq<E>, sz: int, j: int, l: int, r: int) where
    E::Target: Monoid,

    requires
        sz <= j,
        nd.len() == 2 * sz,
        lz.len() == 2 * sz,
        forall|x: int| 0 <= x < 2 * sz ==> #[trigger] lz[x] == E::identity_spec(),
    ensures
        built(nd, lz, sz, j, l, r),
{
    if shape(sz, j, l, r) {
        lemma_shape(sz, j, l, r);
        let w = r - l;
        assert(w == 1) by (nonlinear_arith)
            requires
                j * w == sz + l,
                w >= 1,
                l < sz,
                j >= sz,
                sz >= 1,
        ;
        E::lemma_identity_effect(nd[j], 1);
        lemma_fold_one(nd[j]);
    }
}

/// A cell that is as it was and whose children stand for what they stood for
/// stands for what it stood for.
proof fn lemma_kept_above<E: LinearEffector>(
    nd: Seq<E::Target>,
    lz: Seq<E>,
    nd2: Seq<E::Target>,
    lz2: Seq<E>,
    i: int,
    l: int,
    r: int,
) where E::Target: Monoid
    requires
        r - l >= 2,
        held(nd, lz, i, l, r),
        held(nd2, lz2, 2 * i, l, (l + r) / 2),
        held(nd2, lz2, 2 * i + 1, (l + r) / 2, r),
        trues(nd2, lz2, 2 * i, l, (l + r) / 2) == trues(nd, lz, 2 * i, l, (l + r) / 2),
        trues(nd2, lz2, 2 * i + 1, (l + r) / 2, r) == trues(nd, lz, 2 * i + 1, (l + r) / 2, r),
        nd2[i] == nd[i],
        lz2[i] == lz[i],
    ensures
        held(nd2, lz2, i, l, r),
        trues(nd2, lz2, i, l, r) == trues(nd, lz, i, l, r),
{
}

/// The effect on each value of a concatenation.
pub proof fn lemma_acted_concat<E: Effector>(e: E, a: Seq<E::Target>, b: Seq<E::Target>)
    ensures
        acted(e, a + b) == acted(e, a) + acted(e, b),
{
    assert(acted(e, a + b) =~= acted(e, a) + acted(e, b));
}

/// A sequence with effects on ranges and folds of ranges.
#[verifier::reject_recursive_types(T)]
pub struct LazySegmentTree<T: Monoid, E: LinearEffector<Target = T>> {
    node: Vec<T>,
    lazy: Vec<E>,
    sz: usize,
}

impl<T: Monoid, E: LinearEffector<Target = T>> View for LazySegmentTree<T, E> {
    type V = Seq<T>;

    /// The values, with every recorded effect applied.
    closed spec fn view(&self) -> Seq<T> {
        trues(self.node@, self.lazy@, 1, 0, self.sz as int)
    }
}

impl<T: Monoid, E: LinearEffector<Target = T>> LazySegmentTree<T, E> {
    /// The cells are laid out for `sz` positions, a power of two.
    spec fn laid_out(&self) -> bool {
        &&& 1 <= self.sz
        &&& 4 * self.sz <= usize::MAX
        &&& is_pow2(self.sz as int)
        &&& self.node@.len() == 2 * self.sz
        &&& self.lazy@.len() == 2 * self.sz
    }

    /// The invariant: every cell with children holds the product of what its
    /// children stand for.
    pub closed spec fn wf(&self) -> bool {
        &&& self.laid_out()
        &&& held(self.node@, self.lazy@, 1, 0, self.sz as int)
    }

    /// The length of the sequence is the number of positions.
    pub proof fn lemma_len(&self)
        requires
            self.wf(),
        ensures
            self@.len() >= 1,
            is_pow2(self@.len() as int),
    {
        lemma_trues_len(self.node@, self.lazy@, 1, 0, self.sz as int);
    }

    /// The tree over the values of `vec`, followed by identities up to the least
    /// power of two that is not below their number.
    #[verifier::rlimit(50)]
    pub fn init(vec: Vec<T>) -> (r: Self)
        requires
            vec.len() <= usize::MAX / 16,
        ensures
            r.wf(),
            r@.len() == doubled_up_to(1, vec@.len()),
            r@.len() >= vec@.len(),
            forall|k: int|
                0 <= k < r@.len() ==> r@[k] == if k < vec@.len() {
                    vec@[k]
                } else {
                    T::identity_spec()
                },
    {
        let n = vec.len();
        let mut sz: usize = 1;
        while sz < n
            invariant
                1 <= sz,
                n <= usize::MAX / 16,
                sz < 2 * n || sz == 1,
                is_pow2(sz as int),
                doubled_up_to(sz as nat, n as nat) == doubled_up_to(1, n as nat),
            decreases (if sz < n { n - sz } else { 0 }),
        {
            sz = sz * 2;
        }
        let mut node: Vec<T> = Vec::new();
        let mut lazy: Vec<E> = Vec::new();
        let mut k: usize = 0;
        while k < sz * 2
            invariant
                k <= sz * 2,
                sz * 2 <= usize::MAX / 2,
                node@.len() == k,
                lazy@.len() == k,
                forall|x: int| 0 <= x < k ==> #[trigger] node@[x] == T::identity_spec(),
                forall|x: int| 0 <= x < k ==> #[trigger] lazy@[x] == E::identity_spec(),
            decreases sz * 2 - k,
        {
            node.push(T::identity());
            lazy.push(E::identity());
            k = k + 1;
        }
        let mut i: usize = 0;
        while i < n
            invariant
                i <= n,
                n <= sz,
                sz * 2 <= usize::MAX / 2,
                node@.len() == 2 * sz,
                vec@.len() == n,
                forall|x: int| 0 <= x < i ==> #[trigger] node@[sz + x] == vec@[x],
                forall|x: int| i <= x < sz ==> #[trigger] node@[sz + x] == T::identity_spec(),
            decreases n - i,
        {
            node[i + sz] = duplicate(&vec[i]);
            i = i + 1;
        }
        let ghost bottom = node@.subrange(sz as int, 2 * sz);
        let mut i: usize = sz - 1;
        proof {
            assert forall|j: int, l: int, r: int| i < j && #[trigger] shape(sz as int, j, l, r) implies built(
                node@,
                lazy@,
                sz as int,
                j,
                l,
                r,
            ) by {
                lemma_built_bottom(node@, lazy@, sz as int, j, l, r);
            }
        }
        while i >= 1
            invariant
                i < sz,
                1 <= sz,
                sz * 2 <= usize::MAX / 2,
                node@.len() == 2 * sz,
                lazy@.len() == 2 * sz,
                node@.subrange(sz as int, 2 * sz) == bottom,
                forall|x: int| 0 <= x < 2 * sz ==> #[trigger] lazy@[x] == E::identity_spec(),
                forall|j: int, l: int, r: int|
                    i < j && #[trigger] shape(sz as int, j, l, r) ==> built(node@, lazy@, sz as int, j, l, r),
            decreases i,
        {
            let ghost nd = node@;
            let ghost lz = lazy@;
            let v = node[i * 2].op(&node[i * 2 + 1]);
            node[i] = v;
            proof {
                let nd2 = node@;
                assert(nd2.subrange(sz as int, 2 * sz) =~= bottom);
                assert forall|j: int, l: int, r: int|
                    i - 1 < j && #[trigger] shape(sz as int, j, l, r) implies built(
                    nd2,
                    lz,
                    sz as int,
                    j,
                    l,
                    r,
                ) by {
                    lemma_shape(sz as int, j, l, r);
                    if j == i {
                        if r - l >= 2 {
                            let m = (l + r) / 2;
                            assert(shape(sz as int, 2 * j, l, m));
                            assert(shape(sz as int, 2 * j + 1, m, r));
                            assert(built(nd, lz, sz as int, 2 * j, l, m));
                            assert(built(nd, lz, sz as int, 2 * j + 1, m, r));
                            lemma_pulled_up(nd, lz, nd2, sz as int, j, l, r);
                        } else {
                            assert(false);
                        }
                    } else {
                        assert(built(nd, lz, sz as int, j, l, r));
                        assert(same_below(nd, lz, nd2, lz, j)) by {
                            assert forall|x: int| 0 <= x < nd.len() && #[trigger] descends(x, j) implies nd2[x]
                                == nd[x] by {
                                lemma_descends(x, j);
                            }
                        }
                        lemma_frame(nd, lz, nd2, lz, sz as int, j, l, r);
                        lemma_descends(j, j);
                    }
                }
            }
            i = i - 1;
        }
        let r = LazySegmentTree { node: node, lazy: lazy, sz: sz };
        proof {
            assert(shape(sz as int, 1, 0, sz as int)) by {
                assert(1 * (sz as int - 0) == sz as int + 0) by (nonlinear_arith);
            }
            assert(built(r.node@, r.lazy@, sz as int, 1, 0, sz as int));
            lemma_plain(r.node@, r.lazy@, sz as int, 1, 0, sz as int);
            assert(r@ == bottom);
            assert forall|k: int| 0 <= k < r@.len() implies r@[k] == if k < vec@.len() {
                vec@[k]
            } else {
                T::identity_spec()
            } by {
                assert(bottom[k] == r.node@[sz + k]);
            }
        }
        r
    }

    /// Applies the effect recorded at cell `i`, which covers `len` positions, to
    /// the cell, hands it to the children, and clears it.
    #[verifier::rlimit(50)]
    fn push(&mut self, i: usize, len: usize, Ghost(l): Ghost<int>, Ghost(r): Ghost<int>)
        requires
            old(self).laid_out(),
            shape(old(self).sz as int, i as int, l, r),
            len == r - l,
            held(old(self).node@, old(self).lazy@, i as int, l, r),
        ensures
            final(self).laid_out(),
            final(self).sz == old(self).sz,
            trues(final(self).node@, final(self).lazy@, i as int, l, r) == trues(
                old(self).node@,
                old(self).lazy@,
                i as int,
                l,
                r,
            ),
            held(final(self).node@, final(self).lazy@, i as int, l, r),
            final(self).lazy@[i as int] == E::identity_spec(),
            final(self).node@[i as int] == fold_seq(trues(old(self).node@, old(self).lazy@, i as int, l, r)),
            same_beside(old(self).node@, old(self).lazy@, final(self).node@, final(self).lazy@, i as int),
    {
        let ghost nd = self.node@;
        let ghost lz = self.lazy@;
        let ghost sz = self.sz as int;
        let ghost e = lz[i as int];
        let ghost m = (l + r) / 2;
        proof {
            lemma_shape(sz, i as int, l, r);
            lemma_descends(i as int, i as int);
            lemma_trues_len(nd, lz, 2 * i, l, m);
            lemma_trues_len(nd, lz, 2 * i + 1, m, r);
        }
        let v = self.lazy[i].effect(&self.node[i], len);
        self.node[i] = v;
        if i * 2 < self.node.len() {
            let left = self.lazy[i * 2].op(&self.lazy[i]);
            self.lazy[i * 2] = left;
            let right = self.lazy[i * 2 + 1].op(&self.lazy[i]);
            self.lazy[i * 2 + 1] = right;
        }
        self.lazy[i] = E::identity();
        proof {
            let nd2 = self.node@;
            let lz2 = self.lazy@;
            assert forall|x: int| 0 <= x < nd.len() && !#[trigger] descends(x, i as int) implies nd2[x]
                == nd[x] && lz2[x] == lz[x] by {
                lemma_descends(x, i as int);
            }
            if r - l >= 2 {
                let c = trues(nd, lz, 2 * i, l, m) + trues(nd, lz, 2 * i + 1, m, r);
                assert forall|x: int|
                    0 <= x < nd.len() && x != 2 * i && #[trigger] descends(x, 2 * i) implies nd2[x]
                    == nd[x] && lz2[x] == lz[x] by {
                    lemma_descends(x, i as int);
                }
                assert forall|x: int|
                    0 <= x < nd.len() && x != 2 * i + 1 && #[trigger] descends(x, 2 * i + 1) implies nd2[x]
                    == nd[x] && lz2[x] == lz[x] by {
                    lemma_descends(x, i as int);
                }
                lemma_received(nd, lz, nd2, lz2, sz, 2 * i, l, m, e);
                lemma_received(nd, lz, nd2, lz2, sz, 2 * i + 1, m, r, e);
                lemma_acted_concat(e, trues(nd, lz, 2 * i, l, m), trues(nd, lz, 2 * i + 1, m, r));
                lemma_acted(e, E::identity_spec(), c);
                lemma_acted(E::identity_spec(), e, acted(e, c));
                lemma_effect_fold(e, c);
            } else {
                E::lemma_identity_effect(e.effect_spec(nd[i as int], 1), 1);
                lemma_fold_one(e.effect_spec(nd[i as int], 1));
                assert(trues(nd2, lz2, i as int, l, r) =~= trues(nd, lz, i as int, l, r));
            }
        }
    }

    /// Applies the effect `e` to the positions from `a` up to `b` that cell `i`
    /// covers.
    #[verifier::rlimit(40)]
    fn update_raw(&mut self, i: usize, a: usize, b: usize, l: usize, r: usize, e: &E)
        requires
            old(self).laid_out(),
            shape(old(self).sz as int, i as int, l as int, r as int),
            held(old(self).node@, old(self).lazy@, i as int, l as int, r as int),
        ensures
            final(self).laid_out(),
            final(self).sz == old(self).sz,
            held(final(self).node@, final(self).lazy@, i as int, l as int, r as int),
            trues(final(self).node@, final(self).lazy@, i as int, l as int, r as int) == range_acted(
                *e,
                trues(old(self).node@, old(self).lazy@, i as int, l as int, r as int),
                clip(a as int, b as int, l as int, r as int).0,
                clip(a as int, b as int, l as int, r as int).1,
            ),
            final(self).lazy@[i as int] == E::identity_spec(),
            final(self).node@[i as int] == fold_seq(
                trues(final(self).node@, final(self).lazy@, i as int, l as int, r as int),
            ),
            same_beside(old(self).node@, old(self).lazy@, final(self).node@, final(self).lazy@, i as int),
        decreases r - l,
    {
        let ghost nd0 = self.node@;
        let ghost lz0 = self.lazy@;
        let ghost sz = self.sz as int;
        let ghost t = trues(nd0, lz0, i as int, l as int, r as int);
        let ghost c = clip(a as int, b as int, l as int, r as int);
        proof {
            lemma_shape(sz, i as int, l as int, r as int);
            lemma_trues_len(nd0, lz0, i as int, l as int, r as int);
        }
        self.push(i, r - l, Ghost(l as int), Ghost(r as int));
        let ghost nd1 = self.node@;
        let ghost lz1 = self.lazy@;
        if b <= l || r <= a {
            proof {
                assert(range_acted(*e, t, c.0, c.1) =~= t);
            }
            return ;
        } else if a <= l && r <= b {
            let composed = self.lazy[i].op(e);
            self.lazy[i] = composed;
            proof {
                let nd2 = self.node@;
                let lz2 = self.lazy@;
                E::lemma_identity(*e);
                assert(lz2[i as int] == *e);
                lemma_received(nd1, lz1, nd2, lz2, sz, i as int, l as int, r as int, *e);
                assert(acted(*e, t) =~= range_acted(*e, t, c.0, c.1));
            }
            let ghost nd2 = self.node@;
            let ghost lz2 = self.lazy@;
            self.push(i, r - l, Ghost(l as int), Ghost(r as int));
            proof {
                let nd3 = self.node@;
                let lz3 = self.lazy@;
                assert forall|x: int| 0 <= x < nd0.len() && !#[trigger] descends(x, i as int) implies nd3[x]
                    == nd0[x] && lz3[x] == lz0[x] by {
                    lemma_descends(i as int, i as int);
                    assert(nd1[x] == nd0[x] && lz1[x] == lz0[x]);
                    assert(nd2[x] == nd1[x] && lz2[x] == lz1[x]);
                    assert(nd3[x] == nd2[x] && lz3[x] == lz2[x]);
                }
            }
        } else {
            let m = (l + r) / 2;
            let ghost t0 = trues(nd1, lz1, 2 * i, l as int, m as int);
            let ghost t1 = trues(nd1, lz1, 2 * i + 1, m as int, r as int);
            proof {
                lemma_trues_len(nd1, lz1, 2 * i, l as int, m as int);
                lemma_trues_len(nd1, lz1, 2 * i + 1, m as int, r as int);
                lemma_acted(E::identity_spec(), E::identity_spec(), t0 + t1);
                assert(t == t0 + t1);
            }
            self.update_raw(i * 2, a, b, l, m, e);
            let ghost nd2 = self.node@;
            let ghost lz2 = self.lazy@;
            proof {
                assert forall|x: int| 0 <= x < nd1.len() && #[trigger] descends(x, 2 * i + 1) implies nd2[x]
                    == nd1[x] && lz2[x] == lz1[x] by {
                    lemma_descends(x, i as int);
                }
                lemma_frame(nd1, lz1, nd2, lz2, sz, 2 * i + 1, m as int, r as int);
            }
            self.update_raw(i * 2 + 1, a, b, m, r, e);
            let ghost nd3 = self.node@;
            let ghost lz3 = self.lazy@;
            proof {
                assert forall|x: int| 0 <= x < nd1.len() && #[trigger] descends(x, 2 * i) implies nd3[x]
                    == nd2[x] && lz3[x] == lz2[x] by {
                    lemma_descends(x, i as int);
                }
                lemma_frame(nd2, lz2, nd3, lz3, sz, 2 * i, l as int, m as int);
            }
            let v = self.node[i * 2].op(&self.node[i * 2 + 1]);
            self.node[i] = v;
            proof {
                let nd4 = self.node@;
                lemma_descends(i as int, i as int);
                assert(!descends(i as int, 2 * i));
                assert(!descends(i as int, 2 * i + 1));
                assert(lz3[i as int] == E::identity_spec());
                lemma_descends(2 * i, 2 * i);
                assert(descends(2 * i, 2 * i));
                assert(nd3[2 * i] == nd2[2 * i]);
                lemma_pulled_up(nd3, lz3, nd4, sz, i as int, l as int, r as int);
                lemma_range_acted_concat(*e, t0, t1, a as int, b as int, l as int, m as int, r as int);
                assert forall|x: int| 0 <= x < nd0.len() && !#[trigger] descends(x, i as int) implies nd4[x]
                    == nd0[x] && lz3[x] == lz0[x] by {
                    lemma_descends(x, i as int);
                    assert(nd1[x] == nd0[x] && lz1[x] == lz0[x]);
                    assert(!descends(x, 2 * i));
                    assert(!descends(x, 2 * i + 1));
                    assert(nd2[x] == nd1[x] && lz2[x] == lz1[x]);
                    assert(nd3[x] == nd2[x] && lz3[x] == lz2[x]);
                }
            }
        }
    }

    /// Applies the effect `e` to the positions from `l` up to `r`; positions that
    /// the sequence does not have are passed over.
    pub fn update_range(&mut self, l: usize, r: usize, e: E)
        requires
            old(self).wf(),
        ensures
            final(self).wf(),
            final(self)@ == range_acted(
                e,
                old(self)@,
                clip(l as int, r as int, 0, old(self)@.len() as int).0,
                clip(l as int, r as int, 0, old(self)@.len() as int).1,
            ),
    {
        proof {
            lemma_trues_len(self.node@, self.lazy@, 1, 0, self.sz as int);
        }
        let sz = self.sz;
        self.update_raw(1, l, r, 0, sz, &e);
    }

    /// The product of the positions from `a` up to `b` that cell `i` covers.
    #[verifier::rlimit(40)]
    fn fold_raw(&mut self, i: usize, a: usize, b: usize, l: usize, r: usize) -> (res: T)
        requires
            old(self).laid_out(),
            shape(old(self).sz as int, i as int, l as int, r as int),
            held(old(self).node@, old(self).lazy@, i as int, l as int, r as int),
        ensures
            final(self).laid_out(),
            final(self).sz == old(self).sz,
            held(final(self).node@, final(self).lazy@, i as int, l as int, r as int),
            trues(final(self).node@, final(self).lazy@, i as int, l as int, r as int) == trues(
                old(self).node@,
                old(self).lazy@,
                i as int,
                l as int,
                r as int,
            ),
            same_beside(old(self).node@, old(self).lazy@, final(self).node@, final(self).lazy@, i as int),
            res == fold_seq(
                trues(old(self).node@, old(self).lazy@, i as int, l as int, r as int).subrange(
                    clip(a as int, b as int, l as int, r as int).0,
                    clip(a as int, b as int, l as int, r as int).1,
                ),
            ),
        decreases r - l,
    {
        let ghost nd0 = self.node@;
        let ghost lz0 = self.lazy@;
        let ghost sz = self.sz as int;
        let ghost t = trues(nd0, lz0, i as int, l as int, r as int);
        let ghost c = clip(a as int, b as int, l as int, r as int);
        proof {
            lemma_shape(sz, i as int, l as int, r as int);
            lemma_trues_len(nd0, lz0, i as int, l as int, r as int);
        }
        self.push(i, r - l, Ghost(l as int), Ghost(r as int));
        let ghost nd1 = self.node@;
        let ghost lz1 = self.lazy@;
        if b <= l || r <= a {
            proof {
                assert(t.subrange(c.0, c.1) =~= Seq::<T>::empty());
            }
            T::identity()
        } else if a <= l && r <= b {
            proof {
                assert(t.subrange(c.0, c.1) =~= t);
            }
            duplicate(&self.node[i])
        } else {
            let m = (l + r) / 2;
            let ghost t0 = trues(nd1, lz1, 2 * i, l as int, m as int);
            let ghost t1 = trues(nd1, lz1, 2 * i + 1, m as int, r as int);
            proof {
                lemma_trues_len(nd1, lz1, 2 * i, l as int, m as int);
                lemma_trues_len(nd1, lz1, 2 * i + 1, m as int, r as int);
                lemma_acted(E::identity_spec(), E::identity_spec(), t0 + t1);
                assert(t == t0 + t1);
            }
            let lf = self.fold_raw(i * 2, a, b, l, m);
            let ghost nd2 = self.node@;
            let ghost lz2 = self.lazy@;
            proof {
                assert forall|x: int| 0 <= x < nd1.len() && #[trigger] descends(x, 2 * i + 1) implies nd2[x]
                    == nd1[x] && lz2[x] == lz1[x] by {
                    lemma_descends(x, i as int);
                }
                lemma_frame(nd1, lz1, nd2, lz2, sz, 2 * i + 1, m as int, r as int);
            }
            let rf = self.fold_raw(i * 2 + 1, a, b, m, r);
            proof {
                let nd3 = self.node@;
                let lz3 = self.lazy@;
                assert forall|x: int| 0 <= x < nd1.len() && #[trigger] descends(x, 2 * i) implies nd3[x]
                    == nd2[x] && lz3[x] == lz2[x] by {
                    lemma_descends(x, i as int);
                }
                lemma_frame(nd2, lz2, nd3, lz3, sz, 2 * i, l as int, m as int);
                lemma_descends(i as int, i as int);
                assert(!descends(i as int, 2 * i));
                assert(!descends(i as int, 2 * i + 1));
                assert(nd2[i as int] == nd1[i as int] && lz2[i as int] == lz1[i as int]);
                assert(nd3[i as int] == nd2[i as int] && lz3[i as int] == lz2[i as int]);
                lemma_kept_above(nd1, lz1, nd3, lz3, i as int, l as int, r as int);
                let cl = clip(a as int, b as int, l as int, m as int);
                let cr = clip(a as int, b as int, m as int, r as int);
                assert(t.subrange(c.0, c.1) =~= t0.subrange(cl.0, cl.1) + t1.subrange(cr.0, cr.1));
                lemma_fold_concat(t0.subrange(cl.0, cl.1), t1.subrange(cr.0, cr.1));
                assert forall|x: int| 0 <= x < nd0.len() && !#[trigger] descends(x, i as int) implies nd3[x]
                    == nd0[x] && lz3[x] == lz0[x] by {
                    lemma_descends(x, i as int);
                    assert(nd1[x] == nd0[x] && lz1[x] == lz0[x]);
                    assert(!descends(x, 2 * i));
                    assert(!descends(x, 2 * i + 1));
                    assert(nd2[x] == nd1[x] && lz2[x] == lz1[x]);
                }
            }
            lf.op(&rf)
        }
    }

    /// The product of the positions from `l` up to `r`; positions that the
    /// sequence does not have count for nothing. Effects on the way are handed
    /// down; the sequence stays as it is.
    pub fn fold(&mut self, l: usize, r: usize) -> (res: T)
        requires
            old(self).wf(),
        ensures
            final(self).wf(),
            final(self)@ == old(self)@,
            res == fold_seq(
                old(self)@.subrange(
                    clip(l as int, r as int, 0, old(self)@.len() as int).0,
                    clip(l as int, r as int, 0, old(self)@.len() as int).1,
                ),
            ),
    {
        proof {
            lemma_trues_len(self.node@, self.lazy@, 1, 0, self.sz as int);
        }
        let sz = self.sz;
        self.fold_raw(1, l, r, 0, sz)
    }
}

} // verus!
