//! A dense n-dimensional array stored in row-major order.
use itertools::Itertools;
use crate::report::append_copies;
use vstd::prelude::*;
use vstd::arithmetic::div_mod::lemma_fundamental_div_mod_converse;
use vstd::string::StringSliceAdditionalSpecFns;

verus! {

/// Product of the entries of `s`, multiplied from the front as `Iterator::product` does.
pub open spec fn shape_product(s: Seq<usize>) -> nat
    decreases s.len(),
{
    if s.len() == 0 {
        1
    } else {
        shape_product(s.drop_last()) * (s.last() as nat)
    }
}

/// Every running product of `s`, taken from the front, fits in a `usize`.
pub open spec fn product_fits(s: Seq<usize>) -> bool {
    forall|i: int| 0 <= i <= s.len() ==> #[trigger] shape_product(s.take(i)) <= usize::MAX
}

/// Product of the last `j` entries of `s`: the stride of the axis `j` places from the end.
pub open spec fn suffix_product(s: Seq<usize>, j: nat) -> nat
    decreases j,
{
    if j == 0 {
        1
    } else {
        suffix_product(s, (j - 1) as nat) * (s[s.len() - j] as nat)
    }
}

/// The multi-index of the `k`-th cell in row-major order (the last axis varies fastest).
pub open spec fn index_tuple(s: Seq<usize>, k: nat) -> Seq<usize> {
    Seq::new(
        s.len(),
        |i: int| ((k / suffix_product(s, (s.len() - 1 - i) as nat)) % (s[i] as nat)) as usize,
    )
}

/// How many strides the flattening pairs with indices: one per axis, and one for a shape
/// without axes.
pub open spec fn stride_count(s: Seq<usize>) -> nat {
    if s.len() == 0 {
        1
    } else {
        s.len()
    }
}

/// How many (index, stride) pairs the flattening sums: indices and strides are matched from
/// the last one backwards, as far as both go.
pub open spec fn term_count(ix: Seq<usize>, s: Seq<usize>) -> nat {
    if ix.len() < stride_count(s) {
        ix.len()
    } else {
        stride_count(s)
    }
}

/// Sum of the last `c` indices, each times the stride of its place from the end.
pub open spec fn strided_sum(ix: Seq<usize>, s: Seq<usize>, c: nat) -> int
    decreases c,
{
    if c == 0 {
        0
    } else {
        strided_sum(ix, s, (c - 1) as nat) + (ix[ix.len() - c] as int) * (suffix_product(
            s,
            (c - 1) as nat,
        ) as int)
    }
}

/// The flat position that a multi-index addresses in an array of shape `s`.
pub open spec fn flat_index(ix: Seq<usize>, s: Seq<usize>) -> int {
    strided_sum(ix, s, term_count(ix, s))
}

/// The flattening of `ix` can be computed without overflow: the strides it uses and the
/// result all fit in a `usize`.
pub open spec fn index_computable(ix: Seq<usize>, s: Seq<usize>) -> bool {
    &&& forall|j: nat| j < term_count(ix, s) ==> #[trigger] suffix_product(s, j) <= usize::MAX
    &&& flat_index(ix, s) <= usize::MAX
}

proof fn lemma_strided_sum_monotone(ix: Seq<usize>, s: Seq<usize>, c: nat, d: nat)
    requires
        c <= d,
        d <= ix.len(),
    ensures
        0 <= strided_sum(ix, s, c) <= strided_sum(ix, s, d),
    decreases d,
{
    if d > 0 {
        let a = ix[ix.len() - d] as int;
        let b = suffix_product(s, (d - 1) as nat) as int;
        assert(0 <= a * b) by (nonlinear_arith)
            requires
                0 <= a,
                0 <= b,
        ;
        if c < d {
            lemma_strided_sum_monotone(ix, s, c, (d - 1) as nat);
        } else {
            lemma_strided_sum_monotone(ix, s, (d - 1) as nat, (d - 1) as nat);
        }
    }
}

/// A square shape `[n, n]` has `n * n` cells, and its size can be computed.
pub proof fn lemma_square_shape(n: usize)
    requires
        n * n <= usize::MAX,
    ensures
        product_fits(seq![n, n]),
        shape_product(seq![n, n]) == n * n,
{
    let s = seq![n, n];
    let one = seq![n];
    let none = Seq::<usize>::empty();
    assert(one.drop_last() =~= none);
    assert(shape_product(none) == 1);
    assert(one.last() == n);
    assert(shape_product(one) == shape_product(none) * (n as nat));
    assert(shape_product(one) == n);
    assert(s.drop_last() =~= one);
    assert(s.last() == n);
    assert(shape_product(s) == shape_product(one) * (n as nat));
    assert(s.take(0) =~= none);
    assert(s.take(1) =~= one);
    assert(s.take(2) =~= s);
    assert forall|i: int| 0 <= i <= s.len() implies #[trigger] shape_product(s.take(i))
        <= usize::MAX by {
        if i == 1 {
            assert(n <= n * n) by (nonlinear_arith);
        }
    }
}

/// The cell `[i, j]` of a square array of side `n` lies at `i * n + j`.
pub proof fn lemma_square_index(i: usize, j: usize, n: usize)
    requires
        i < n,
        j < n,
        n * n <= usize::MAX,
    ensures
        index_computable(seq![i, j], seq![n, n]),
        flat_index(seq![i, j], seq![n, n]) == i * n + j,
        i * n + j < n * n,
{
    let ix = seq![i, j];
    let s = seq![n, n];
    assert(s.len() == 2 && s[1] == n && s[0] == n);
    assert(ix.len() == 2 && ix[1] == j && ix[0] == i);
    assert(term_count(ix, s) == 2);
    assert(suffix_product(s, 0) == 1);
    assert(suffix_product(s, 1) == suffix_product(s, 0) * (s[1] as nat));
    assert(suffix_product(s, 1) == n);
    assert(strided_sum(ix, s, 0) == 0);
    assert(strided_sum(ix, s, 1) == strided_sum(ix, s, 0) + (ix[1] as int) * (suffix_product(s, 0) as int));
    assert(strided_sum(ix, s, 1) == j);
    assert(strided_sum(ix, s, 2) == strided_sum(ix, s, 1) + (ix[0] as int) * (suffix_product(s, 1) as int));
    assert(strided_sum(ix, s, 2) == j + i * n);
    assert(i * n + j < n * n) by (nonlinear_arith)
        requires
            i < n,
            j < n,
    ;
    assert(i * n + j <= usize::MAX);
    assert forall|t: nat| t < term_count(ix, s) implies #[trigger] suffix_product(s, t) <= usize::MAX by {
        if t == 1 {
            assert(n <= n * n) by (nonlinear_arith)
                requires
                    j < n,
            ;
        }
    }
}

/// Product of the entries of `s` that lie `c + 1` to `d` places from the end.
pub open spec fn mid_product(s: Seq<usize>, c: nat, d: nat) -> nat
    decreases d,
{
    if d <= c {
        1
    } else {
        mid_product(s, c, (d - 1) as nat) * (s[s.len() - d] as nat)
    }
}

/// The indices `c + 1` to `d` places from the end, each times its stride divided by the
/// stride of the place `c` from the end.
pub open spec fn upper_sum(ix: Seq<usize>, s: Seq<usize>, c: nat, d: nat) -> int
    decreases d,
{
    if d <= c {
        0
    } else {
        upper_sum(ix, s, c, (d - 1) as nat) + (ix[ix.len() - d] as int) * (mid_product(
            s,
            c,
            (d - 1) as nat,
        ) as int)
    }
}

/// The multi-index lies within the shape: one index per axis, each below its axis' length.
pub open spec fn in_bounds(ix: Seq<usize>, s: Seq<usize>) -> bool {
    ix.len() == s.len() && forall|i: int| 0 <= i < s.len() ==> #[trigger] ix[i] < s[i]
}

/// A stride is the stride of a nearer place times the entries in between.
proof fn lemma_mid_product(s: Seq<usize>, c: nat, d: nat)
    requires
        c <= d <= s.len(),
    ensures
        suffix_product(s, d) == suffix_product(s, c) * mid_product(s, c, d),
    decreases d,
{
    if d > c {
        lemma_mid_product(s, c, (d - 1) as nat);
        let a = suffix_product(s, c) as int;
        let m = mid_product(s, c, (d - 1) as nat) as int;
        let x = s[s.len() - d] as int;
        let before = suffix_product(s, (d - 1) as nat) as int;
        let now = suffix_product(s, d) as int;
        let mid = mid_product(s, c, d) as int;
        assert(now == a * mid) by (nonlinear_arith)
            requires
                before == a * m,
                now == before * x,
                mid == m * x,
        ;
    } else {
        assert(mid_product(s, c, d) == 1);
        assert(suffix_product(s, c) * 1 == suffix_product(s, c));
    }
}

/// With every entry positive, the products in between are positive, so strides grow.
proof fn lemma_mid_product_positive(s: Seq<usize>, c: nat, d: nat)
    requires
        c <= d <= s.len(),
        forall|i: int| 0 <= i < s.len() ==> #[trigger] s[i] >= 1,
    ensures
        mid_product(s, c, d) >= 1,
    decreases d,
{
    if d > c {
        lemma_mid_product_positive(s, c, (d - 1) as nat);
        let m = mid_product(s, c, (d - 1) as nat) as int;
        let x = s[s.len() - d] as int;
        assert(x >= 1);
        assert(m * x >= 1) by (nonlinear_arith)
            requires
                m >= 1,
                x >= 1,
        ;
    }
}

/// The sum of the last `c` terms stays below the stride of the place `c` from the end.
proof fn lemma_strided_sum_below(ix: Seq<usize>, s: Seq<usize>, c: nat)
    requires
        in_bounds(ix, s),
        c <= s.len(),
    ensures
        0 <= strided_sum(ix, s, c) < suffix_product(s, c),
    decreases c,
{
    if c > 0 {
        lemma_strided_sum_below(ix, s, (c - 1) as nat);
        let n = s.len();
        let prev = strided_sum(ix, s, (c - 1) as nat);
        let p = suffix_product(s, (c - 1) as nat) as int;
        let x = ix[n - c] as int;
        let m = s[n - c] as int;
        assert(ix[n - c] < s[n - c]);
        assert(prev + x * p < p * m && 0 <= prev + x * p) by (nonlinear_arith)
            requires
                0 <= prev < p,
                0 <= x < m,
        ;
    }
}

/// The sum of the last `d` terms is that of the last `c`, plus the stride of the place `c`
/// from the end times the upper sum.
proof fn lemma_upper_sum(ix: Seq<usize>, s: Seq<usize>, c: nat, d: nat)
    requires
        ix.len() == s.len(),
        c <= d <= s.len(),
    ensures
        strided_sum(ix, s, d) == strided_sum(ix, s, c) + (suffix_product(s, c) as int) * upper_sum(
            ix,
            s,
            c,
            d,
        ),
        upper_sum(ix, s, c, d) >= 0,
    decreases d,
{
    if d > c {
        lemma_upper_sum(ix, s, c, (d - 1) as nat);
        lemma_mid_product(s, c, (d - 1) as nat);
        let a = suffix_product(s, c) as int;
        let u = upper_sum(ix, s, c, (d - 1) as nat);
        let x = ix[ix.len() - d] as int;
        let m = mid_product(s, c, (d - 1) as nat) as int;
        assert(x * (a * m) == a * (x * m) && a * u + a * (x * m) == a * (u + x * m)) by (nonlinear_arith);
        assert(x * m >= 0) by (nonlinear_arith)
            requires
                x >= 0,
                m >= 0,
        ;
    }
}

/// The stride of the place `j + 1` from the end is the last entry times the stride of the
/// place `j` from the end of the rest.
proof fn lemma_suffix_drop_last(s: Seq<usize>, j: nat)
    requires
        j + 1 <= s.len(),
    ensures
        suffix_product(s, j + 1) == (s.last() as nat) * suffix_product(s.drop_last(), j),
    decreases j,
{
    let n = s.len();
    let dl = s.drop_last();
    if j > 0 {
        lemma_suffix_drop_last(s, (j - 1) as nat);
        let a = s.last() as int;
        let b = suffix_product(dl, (j - 1) as nat) as int;
        let x = s[n - 1 - j] as int;
        assert(dl[dl.len() - j] == s[n - 1 - j]);
        let before = suffix_product(s, j) as int;
        let now = suffix_product(s, j + 1) as int;
        let rest = suffix_product(dl, j) as int;
        assert(now == before * x);
        assert(rest == b * x);
        assert(now == a * rest) by (nonlinear_arith)
            requires
                before == a * b,
                now == before * x,
                rest == b * x,
        ;
    } else {
        assert(suffix_product(s, 1) == suffix_product(s, 0) * (s[n - 1] as nat));
        assert(suffix_product(dl, 0) == 1);
        assert(s.last() == s[n - 1]);
        assert((s.last() as nat) * 1 == s.last() as nat);
        assert(1 * (s[n - 1] as nat) == s[n - 1] as nat);
    }
}

/// The stride past the first axis is the product of all entries.
proof fn lemma_suffix_all(s: Seq<usize>)
    ensures
        suffix_product(s, s.len()) == shape_product(s),
    decreases s.len(),
{
    if s.len() > 0 {
        lemma_suffix_drop_last(s, (s.len() - 1) as nat);
        lemma_suffix_all(s.drop_last());
        let a = s.last() as int;
        let b = shape_product(s.drop_last()) as int;
        assert(a * b == b * a) by (nonlinear_arith);
    }
}

/// Every in-range multi-index can be flattened without overflow, lands inside the array,
/// and is the multi-index of the cell it lands on. So the cell that `index` reads at `ix`
/// of an array that `from_fn` built is the one that `from_fn` filled by calling its function
/// on `ix`.
pub proof fn lemma_index_round_trip(ix: Seq<usize>, s: Seq<usize>)
    requires
        product_fits(s),
        in_bounds(ix, s),
    ensures
        index_computable(ix, s),
        0 <= flat_index(ix, s) < shape_product(s),
        index_tuple(s, flat_index(ix, s) as nat) == ix,
{
    let n = s.len();
    assert(s.take(n as int) =~= s);
    assert(shape_product(s) <= usize::MAX);
    lemma_suffix_all(s);
    lemma_strided_sum_below(ix, s, n);
    assert(term_count(ix, s) == n);
    let f = flat_index(ix, s);
    assert(forall|i: int| 0 <= i < s.len() ==> #[trigger] s[i] >= 1) by {
        assert forall|i: int| 0 <= i < s.len() implies #[trigger] s[i] >= 1 by {
            assert(ix[i] < s[i]);
        }
    }
    assert forall|j: nat| j < term_count(ix, s) implies #[trigger] suffix_product(s, j) <= usize::MAX by {
        lemma_mid_product(s, j, n);
        lemma_mid_product_positive(s, j, n);
        let a = suffix_product(s, j) as int;
        let m = mid_product(s, j, n) as int;
        assert(a <= a * m) by (nonlinear_arith)
            requires
                a >= 0,
                m >= 1,
        ;
    }
    assert forall|i: int| 0 <= i < n implies #[trigger] index_tuple(s, f as nat)[i] == ix[i] by {
        let c = (n - i) as nat;
        lemma_upper_sum(ix, s, c, n);
        lemma_strided_sum_below(ix, s, (c - 1) as nat);
        lemma_mid_product(s, (c - 1) as nat, c);
        let p = suffix_product(s, (c - 1) as nat) as int;
        let low = strided_sum(ix, s, (c - 1) as nat);
        let u = upper_sum(ix, s, c, n);
        let x = ix[i] as int;
        let m = s[i] as int;
        assert(mid_product(s, (c - 1) as nat, c) == mid_product(s, (c - 1) as nat, (c - 1) as nat) * (s[s.len() - c] as nat));
        assert(mid_product(s, (c - 1) as nat, (c - 1) as nat) == 1);
        assert(s[s.len() - c] == s[i]);
        assert(1 * (s[i] as nat) == s[i] as nat);
        assert(mid_product(s, (c - 1) as nat, c) == m);
        assert(suffix_product(s, c) == p * m);
        assert(strided_sum(ix, s, c) == low + x * p);
        let q = x + m * u;
        assert(f == q * p + low) by (nonlinear_arith)
            requires
                f == (low + x * p) + (p * m) * u,
                q == x + m * u,
        ;
        assert(p > 0);
        lemma_fundamental_div_mod_converse(f, p, q, low);
        assert(q == u * m + x) by (nonlinear_arith)
            requires
                q == x + m * u,
        ;
        lemma_fundamental_div_mod_converse(q, m, u, x);
        assert((n - 1 - i) as nat == (c - 1) as nat);
    }
    assert(index_tuple(s, f as nat) =~= ix);
}

/// The product of all entries of `shape`, as `shape.iter().product()` computes it.
pub fn shape_len(shape: &[usize]) -> (r: usize)
    requires
        product_fits(shape@),
    ensures
        r == shape_product(shape@),
{
    let mut acc: usize = 1;
    let mut i: usize = 0;
    assert(shape@.take(0) =~= Seq::<usize>::empty());
    while i < shape.len()
        invariant
            i <= shape@.len(),
            product_fits(shape@),
            acc == shape_product(shape@.take(i as int)),
        decreases shape@.len() - i,
    {
        assert(shape@.take(i + 1).drop_last() =~= shape@.take(i as int));
        assert(shape_product(shape@.take(i + 1)) <= usize::MAX);
        acc = acc * shape[i];
        i = i + 1;
    }
    assert(shape@.take(i as int) =~= shape@);
    acc
}

/// The flat position of `indices` in an array of shape `shape`.
fn indices_to_index(indices: &[usize], shape: &[usize]) -> (r: usize)
    requires
        index_computable(indices@, shape@),
    ensures
        r == flat_index(indices@, shape@),
{
    let m = indices.len();
    let n = shape.len();
    let strides: usize = if n == 0 {
        1
    } else {
        n
    };
    let terms: usize = if m < strides {
        m
    } else {
        strides
    };
    let mut sum: usize = 0;
    let mut stride: usize = 1;
    let mut c: usize = 0;
    while c < terms
        invariant
            m == indices@.len(),
            n == shape@.len(),
            terms == term_count(indices@, shape@),
            terms <= m,
            n > 0 ==> terms <= n,
            n == 0 ==> terms <= 1,
            c <= terms,
            index_computable(indices@, shape@),
            sum == strided_sum(indices@, shape@, c as nat),
            stride == suffix_product(
                shape@,
                if c == 0 {
                    0
                } else {
                    (c - 1) as nat
                },
            ),
        decreases terms - c,
    {
        if c > 0 {
            assert(suffix_product(shape@, c as nat) <= usize::MAX);
            stride = stride * shape[n - c];
        }
        proof {
            lemma_strided_sum_monotone(indices@, shape@, (c + 1) as nat, terms as nat);
            lemma_strided_sum_monotone(indices@, shape@, c as nat, c as nat);
        }
        sum = sum + indices[m - 1 - c] * stride;
        c = c + 1;
    }
    sum
}

/// Every multi-index of an array of shape `shape`, in row-major order.
///
/// Trusted: calls `itertools::Itertools::multi_cartesian_product` on the ranges `0..d` of the
/// axes and collects the result. Its documentation shows that it yields the tuples in
/// lexicographic order with the last position varying fastest, and a single empty tuple when
/// there are no axes; the contract states exactly that.
#[verifier::external_body]
fn cartesian_indices(shape: &[usize]) -> (r: Vec<Vec<usize>>)
    requires
        product_fits(shape@),
    ensures
        r@.len() == shape_product(shape@),
        forall|k: int| 0 <= k < r@.len() ==> (#[trigger] r@[k])@ == index_tuple(shape@, k as nat),
{
    shape.iter().map(|x| 0..*x).multi_cartesian_product().collect()
}

/// `cell` is what `func` returned for the `k`-th multi-index of `shape`.
pub open spec fn built_by<T, F: Fn(Vec<usize>) -> T>(
    func: F,
    shape: Seq<usize>,
    k: nat,
    cell: T,
) -> bool {
    exists|v: Vec<usize>| v@ == index_tuple(shape, k) && call_ensures(func, (v,), cell)
}

/// A dense array with an arbitrary number of axes, stored in row-major order.
pub struct Array<T> {
    shape: Vec<usize>,
    data: Vec<T>,
}

/// Distinct in-range multi-indices address distinct cells: flattening is one-to-one, and
/// each lands below the number of cells.
pub proof fn lemma_flat_index_injective(u: Seq<usize>, v: Seq<usize>, s: Seq<usize>)
    requires
        product_fits(s),
        in_bounds(u, s),
        in_bounds(v, s),
    ensures
        flat_index(u, s) < shape_product(s),
        flat_index(u, s) == flat_index(v, s) ==> u == v,
{
    lemma_index_round_trip(u, s);
    lemma_index_round_trip(v, s);
}

/// In an array that `from_fn` built, the cell that `index` reads at an in-range multi-index
/// `ix` is what the function returned when called on `ix`.
pub proof fn lemma_from_fn_index<T, F: Fn(Vec<usize>) -> T>(a: Array<T>, func: F, ix: Seq<usize>)
    requires
        product_fits(a.shape_view()),
        a.cells().len() == shape_product(a.shape_view()),
        forall|k: int|
            0 <= k < a.cells().len() ==> built_by(func, a.shape_view(), k as nat, #[trigger] a.cells()[k]),
        in_bounds(ix, a.shape_view()),
    ensures
        index_computable(ix, a.shape_view()),
        0 <= flat_index(ix, a.shape_view()) < a.cells().len(),
        exists|v: Vec<usize>|
            v@ == ix && call_ensures(func, (v,), #[trigger] a.cells()[flat_index(ix, a.shape_view())]),
{
    lemma_index_round_trip(ix, a.shape_view());
    let k = flat_index(ix, a.shape_view());
    assert(built_by(func, a.shape_view(), k as nat, a.cells()[k]));
}

impl<T> Array<T> {
    /// The length of each axis.
    pub closed spec fn shape_view(&self) -> Seq<usize> {
        self.shape@
    }

    /// The cells in row-major order.
    pub closed spec fn cells(&self) -> Seq<T> {
        self.data@
    }

    /// The length of each axis.
    pub fn shape(&self) -> (r: &[usize])
        ensures
            r@ == self.shape_view(),
    {
        self.shape.as_slice()
    }

    /// The cells in row-major order.
    pub fn data(&self) -> (r: &[T])
        ensures
            r@ == self.cells(),
    {
        self.data.as_slice()
    }

    /// An array of shape `shape` whose cells are taken, in order, from `data`; cells beyond
    /// the shape's size are kept.
    pub fn from_iter(shape: &[usize], data: Vec<T>) -> (r: Self)
        requires
            product_fits(shape@),
            data@.len() >= shape_product(shape@),
        ensures
            r.shape_view() == shape@,
            r.cells() == data@,
    {
        Array { data, shape: vstd::slice::slice_to_vec(shape) }
    }

    /// An array of shape `shape` whose cell at each multi-index `ix` is `func(ix)`.
    pub fn from_fn<F: Fn(Vec<usize>) -> T>(shape: &[usize], func: F) -> (r: Self)
        requires
            product_fits(shape@),
            forall|v: Vec<usize>| #[trigger] call_requires(func, (v,)),
        ensures
            r.shape_view() == shape@,
            r.cells().len() == shape_product(shape@),
            forall|k: int|
                0 <= k < r.cells().len() ==> built_by(func, shape@, k as nat, #[trigger] r.cells()[k]),
    {
        let elem_ct = shape_len(shape);
        let tuples = cartesian_indices(shape);
        let mut data: Vec<T> = Vec::with_capacity(elem_ct);
        let mut k: usize = 0;
        let ghost mut args: Seq<Vec<usize>> = Seq::empty();
        while k < tuples.len()
            invariant
                k <= tuples@.len(),
                tuples@.len() == shape_product(shape@),
                forall|v: Vec<usize>| #[trigger] call_requires(func, (v,)),
                forall|j: int|
                    0 <= j < tuples@.len() ==> (#[trigger] tuples@[j])@ == index_tuple(
                        shape@,
                        j as nat,
                    ),
                data@.len() == k,
                args.len() == k,
                forall|j: int|
                    0 <= j < k ==> (#[trigger] args[j])@ == index_tuple(shape@, j as nat)
                        && call_ensures(func, (args[j],), data@[j]),
            decreases tuples@.len() - k,
        {
            let v = tuples[k].clone();
            assert(v@ =~= tuples@[k as int]@);
            let ghost arg = v;
            let cell = func(v);
            data.push(cell);
            proof {
                args = args.push(arg);
            }
            k = k + 1;
        }
        let r = Array { data, shape: vstd::slice::slice_to_vec(shape) };
        assert forall|j: int| 0 <= j < r.cells().len() implies built_by(
            func,
            shape@,
            j as nat,
            #[trigger] r.cells()[j],
        ) by {
            assert(r.cells()[j] == data@[j]);
            assert(args[j]@ == index_tuple(shape@, j as nat) && call_ensures(func, (args[j],), data@[j]));
        }
        r
    }

    /// The cell that `indices` addresses.
    pub fn index(&self, indices: &[usize]) -> (r: &T)
        requires
            index_computable(indices@, self.shape_view()),
            flat_index(indices@, self.shape_view()) < self.cells().len(),
        ensures
            *r == self.cells()[flat_index(indices@, self.shape_view())],
    {
        let idx = indices_to_index(indices, self.shape.as_slice());
        &self.data[idx]
    }

    /// The cell that `indices` addresses, to change it.
    pub fn index_mut(&mut self, indices: &[usize]) -> (r: &mut T)
        requires
            index_computable(indices@, old(self).shape_view()),
            flat_index(indices@, old(self).shape_view()) < old(self).cells().len(),
        ensures
            *r == old(self).cells()[flat_index(indices@, old(self).shape_view())],
            final(self).shape_view() == old(self).shape_view(),
            final(self).cells() == old(self).cells().update(
                flat_index(indices@, old(self).shape_view()),
                *final(r),
            ),
    {
        let idx = indices_to_index(indices, self.shape.as_slice());
        &mut self.data[idx]
    }

    /// Replaces the cell that `indices` addresses by `value`.
    pub fn set(&mut self, indices: &[usize], value: T)
        requires
            index_computable(indices@, old(self).shape_view()),
            flat_index(indices@, old(self).shape_view()) < old(self).cells().len(),
        ensures
            final(self).shape_view() == old(self).shape_view(),
            final(self).cells() == old(self).cells().update(
                flat_index(indices@, old(self).shape_view()),
                value,
            ),
    {
        let idx = indices_to_index(indices, self.shape.as_slice());
        self.data.set(idx, value);
    }
}

/// The number of bytes of `c` in UTF-8, as the `usize` that `str::len` gives.
pub open spec fn byte_len(c: Seq<char>) -> nat {
    (vstd::utf8::encode_utf8(c).len() as usize) as nat
}

/// The largest byte length among `cells`, or zero when there are none.
pub open spec fn widest(cells: Seq<Seq<char>>) -> nat
    decreases cells.len(),
{
    if cells.len() == 0 {
        0
    } else {
        let w = widest(cells.drop_last());
        if byte_len(cells.last()) > w {
            byte_len(cells.last())
        } else {
            w
        }
    }
}

/// `s` preceded by spaces up to `width` characters, as `{:>width}` lays it out.
pub open spec fn pad_left(s: Seq<char>, width: nat) -> Seq<char> {
    if s.len() < width {
        Seq::new((width - s.len()) as nat, |_i: int| ' ') + s
    } else {
        s
    }
}

/// How many of the strides `suffix_product(shape, t)`, for `1 <= t <= j`, divide `i`.
pub open spec fn dividing_strides(shape: Seq<usize>, i: nat, j: nat) -> nat
    decreases j,
{
    if j == 0 {
        0
    } else {
        dividing_strides(shape, i, (j - 1) as nat) + if i % suffix_product(shape, j) == 0 {
            1nat
        } else {
            0nat
        }
    }
}

/// The line breaks before the cell at flat position `i`: one for each axis after the first
/// whose stride divides `i`, and none before the first cell.
pub open spec fn breaks_before(shape: Seq<usize>, i: nat) -> nat {
    if i == 0 || shape.len() == 0 {
        0
    } else {
        dividing_strides(shape, i, (shape.len() - 1) as nat)
    }
}

/// The text of the first `m` cells laid out as a grid: each cell padded on the left to
/// `width` and followed by a space, with line breaks between rows, planes and so on.
pub open spec fn grid_text(shape: Seq<usize>, cells: Seq<Seq<char>>, width: nat, m: nat) -> Seq<char>
    decreases m,
{
    if m == 0 {
        Seq::empty()
    } else {
        grid_text(shape, cells, width, (m - 1) as nat) + Seq::new(
            breaks_before(shape, (m - 1) as nat),
            |_i: int| '\n',
        ) + pad_left(cells[m - 1], width) + seq![' ']
    }
}

/// The strides of the axes after the first are nonzero and fit in a `usize`.
pub open spec fn strides_usable(shape: Seq<usize>) -> bool {
    forall|t: nat| 1 <= t < shape.len() ==> 0 < #[trigger] suffix_product(shape, t) <= usize::MAX
}

/// The texts of a sequence of strings.
pub open spec fn texts_of(v: Seq<String>) -> Seq<Seq<char>> {
    v.map_values(|s: String| s@)
}

/// Whether the strides of the axes after the first are nonzero and fit in a `usize`, as
/// `render` needs of an array with cells.
pub fn strides_fit(shape: &[usize]) -> (r: bool)
    ensures
        r == strides_usable(shape@),
{
    let len = shape.len();
    let mut stride: usize = 1;
    let mut t: usize = 1;
    assert(suffix_product(shape@, 0) == 1);
    while t < len
        invariant
            len == shape@.len(),
            1 <= t,
            t <= len || len == 0,
            stride == suffix_product(shape@, (t - 1) as nat),
            forall|u: nat| 1 <= u < t ==> 0 < #[trigger] suffix_product(shape@, u) <= usize::MAX,
        decreases len - t,
    {
        let d = shape[len - t];
        assert(suffix_product(shape@, t as nat) == suffix_product(shape@, (t - 1) as nat) * (shape@[len - t] as nat));
        match stride.checked_mul(d) {
            Some(v) => {
                if v == 0 {
                    assert(!(0 < suffix_product(shape@, t as nat)));
                    return false;
                }
                stride = v;
            },
            None => {
                assert(!(suffix_product(shape@, t as nat) <= usize::MAX));
                return false;
            },
        }
        t = t + 1;
    }
    true
}

/// The number of line breaks before the cell at flat position `i`.
fn count_breaks(shape: &Vec<usize>, i: usize) -> (r: usize)
    requires
        strides_usable(shape@),
    ensures
        r == breaks_before(shape@, i as nat),
{
    let len = shape.len();
    if i == 0 || len == 0 {
        return 0;
    }
    let mut count: usize = 0;
    let mut stride: usize = 1;
    let mut t: usize = 1;
    assert(suffix_product(shape@, 0) == 1);
    while t < len
        invariant
            len == shape@.len(),
            1 <= t <= len,
            strides_usable(shape@),
            stride == suffix_product(shape@, (t - 1) as nat),
            count == dividing_strides(shape@, i as nat, (t - 1) as nat),
            count < t,
        decreases len - t,
    {
        assert(0 < suffix_product(shape@, t as nat) <= usize::MAX);
        stride = stride * shape[len - t];
        if i % stride == 0 {
            count = count + 1;
        }
        t = t + 1;
    }
    count
}

impl<T> Array<T> {
    /// The text that lays out the cells, given as `cells` (one text per cell, in order), as
    /// a grid: each cell right-aligned to the byte length of the longest and followed by a
    /// space, with a line break wherever a row ends and one more for each higher axis that
    /// ends there.
    pub fn render(&self, cells: &Vec<String>) -> (r: String)
        requires
            cells@.len() == self.cells().len(),
            cells@.len() > 0 ==> strides_usable(self.shape_view()),
        ensures
            r@ == grid_text(
                self.shape_view(),
                texts_of(cells@),
                widest(texts_of(cells@)),
                cells@.len(),
            ),
    {
        proof {
            reveal_strlit(" ");
            reveal_strlit("\n");
        }
        let ghost texts = texts_of(cells@);
        let n = cells.len();
        let mut width: usize = 0;
        let mut i: usize = 0;
        while i < n
            invariant
                n == cells@.len(),
                texts == texts_of(cells@),
                i <= n,
                width == widest(texts.take(i as int)),
            decreases n - i,
        {
            assert(texts.take(i + 1).drop_last() =~= texts.take(i as int));
            assert(texts.take(i + 1).last() == cells@[i as int]@);
            let cell = cells[i].as_str();
            assert(byte_len(cell@) == cell.spec_bytes().len() as usize);
            let b = cell.len();
            if b > width {
                width = b;
            }
            i = i + 1;
        }
        assert(texts.take(n as int) =~= texts);
        let mut r = String::new();
        let mut i: usize = 0;
        while i < n
            invariant
                n == cells@.len(),
                texts == texts_of(cells@),
                n > 0 ==> strides_usable(self.shape_view()),
                self.shape_view() == self.shape@,
                width == widest(texts),
                i <= n,
                r@ == grid_text(self.shape@, texts, width as nat, i as nat),
            decreases n - i,
        {
            proof {
                reveal_strlit(" ");
                reveal_strlit("\n");
            }
            let breaks = count_breaks(&self.shape, i);
            append_copies(&mut r, "\n", breaks);
            let cell = cells[i].as_str();
            let chars = cell.unicode_len();
            if chars < width {
                append_copies(&mut r, " ", width - chars);
            }
            r.append(cell);
            r.append(" ");
            assert(r@ =~= grid_text(self.shape@, texts, width as nat, (i + 1) as nat));
            i = i + 1;
        }
        r
    }
}

impl<T: Clone> Array<T> {
    /// An array of shape `shape` whose cells are all clones of `elem`.
    pub fn from_elem(shape: &[usize], elem: T) -> (r: Self)
        requires
            product_fits(shape@),
        ensures
            r.shape_view() == shape@,
            r.cells().len() == shape_product(shape@),
            forall|k: int| 0 <= k < r.cells().len() ==> cloned(elem, #[trigger] r.cells()[k]),
    {
        let n = shape_len(shape);
        Array { data: vec![elem; n], shape: vstd::slice::slice_to_vec(shape) }
    }
}

impl<T: Default> Array<T> {
    /// An array of shape `shape` whose cells are all `T::default()`.
    pub fn from_default(shape: &[usize]) -> (r: Self)
        requires
            product_fits(shape@),
        ensures
            r.shape_view() == shape@,
            r.cells().len() == shape_product(shape@),
            forall|k: int|
                0 <= k < r.cells().len() ==> call_ensures(T::default, (), #[trigger] r.cells()[k]),
    {
        let elem_ct = shape_len(shape);
        let mut data: Vec<T> = Vec::with_capacity(elem_ct);
        let mut i: usize = 0;
        while i < elem_ct
            invariant
                i <= elem_ct,
                data@.len() == i,
                forall|k: int| 0 <= k < i ==> call_ensures(T::default, (), #[trigger] data@[k]),
            decreases elem_ct - i,
        {
            data.push(T::default());
            i = i + 1;
        }
        Array { data, shape: vstd::slice::slice_to_vec(shape) }
    }
}

impl<T: Default> Default for Array<T> {
    /// An array with a single axis of length zero and no cells.
    fn default() -> (r: Self)
        ensures
            r.shape_view() == seq![0usize],
            r.cells().len() == 0,
    {
        Array { shape: vec![0], data: Vec::new() }
    }
}

} // verus!
