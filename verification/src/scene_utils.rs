//! The algebra behind a scene: splitting systems into the combinations of
//! the factors of their equations, and eliminating a variable that a
//! univariate polynomial fixes by a resultant (a determinant of
//! coefficients).

use vstd::prelude::*;
use std::rc::Rc;
use crate::poly::{Poly, sv, sv_kids, lemma_kid_smaller, product_bound};
use crate::spoly::{lemma_max_abs, lemma_max_abs_least, lemma_bounded_mono};
use crate::spoly::{SPoly, above, bounded, eval, max_abs, ordered, canonical, cleaned, size, lemma_canonical_ordered, lemma_cleaned_canonical, lemma_size_pos};
use crate::poly_subst::checked_power;
use crate::poly_struct::{coef_tree, rc_tree};
use crate::poly_ops::{trees, coeffs_of, degrees_fit, gcd_upto, gcd_spec, leaf_div, trunc_div, no_min_coeff, ints, degree_in};

verus! {

/// The names in a Python expression, by how they are used.
#[derive(Debug, Clone, PartialEq)]
pub struct IdentifierExtraction {
    pub function_names: Vec<String>,
    pub object_names: Vec<String>,
    pub field_names: Vec<String>,
    pub method_names: Vec<String>,
}

/// The operations on the equations of a scene.
pub struct SceneUtils;

/// Each combination in `cs` extended by each entry of `fs`, the
/// combinations outermost.
pub open spec fn extend_all<T>(cs: Seq<Seq<T>>, fs: Seq<T>) -> Seq<Seq<T>> {
    if fs.len() == 0 {
        seq![]
    } else {
        Seq::new(cs.len() * fs.len(), |k: int| cs[k / (fs.len() as int)].push(fs[k % (fs.len() as int)]))
    }
}

/// Every choice of one entry from each of the first `n` lists, in
/// lexicographic order.
pub open spec fn choices_upto<T>(lists: Seq<Seq<T>>, n: int) -> Seq<Seq<T>>
    decreases n,
{
    if n <= 0 {
        seq![seq![]]
    } else {
        extend_all(choices_upto(lists, n - 1), lists[n - 1])
    }
}

/// The factors that stand for a polynomial in the combinations: those that
/// factoring gave, or the polynomial itself when factoring failed.
pub open spec fn factor_list(p: Rc<Poly>, f: Result<Vec<Poly>, String>) -> Seq<SPoly> {
    match f {
        Ok(fs) => Seq::new(fs@.len(), |i: int| sv(fs@[i])),
        Err(_) => seq![sv(*p)],
    }
}

/// The factor lists of all the polynomials.
pub open spec fn factor_lists(ps: Seq<Rc<Poly>>, fs: Seq<Result<Vec<Poly>, String>>) -> Seq<Seq<SPoly>> {
    Seq::new(ps.len(), |i: int| factor_list(ps[i], fs[i]))
}

/// The trees of a list of systems.
pub open spec fn systems_view(ss: Seq<Vec<Rc<Poly>>>) -> Seq<Seq<SPoly>> {
    Seq::new(ss.len(), |i: int| trees(ss[i]@))
}

impl SceneUtils {
    /// Every system made of one factor of each polynomial: `factored[i]`
    /// is what factoring `polys[i]` gave; a polynomial whose factoring
    /// failed stands for itself (see `factor_list`). No systems when there
    /// are no polynomials.
    pub fn split_into_irreducible_systems(polys: Vec<Rc<Poly>>, factored: Vec<Result<Vec<Poly>, String>>) -> (r: Vec<
        Vec<Rc<Poly>>,
    >)
        requires
            factored@.len() == polys@.len(),
        ensures
            polys@.len() == 0 ==> r@.len() == 0,
            polys@.len() > 0 ==> systems_view(r@) == choices_upto(
                factor_lists(polys@, factored@),
                polys@.len() as int,
            ),
    {
        if polys.len() == 0 {
            return Vec::new();
        }
        let ghost lists = factor_lists(polys@, factored@);
        let mut lists_exec: Vec<Vec<Rc<Poly>>> = Vec::new();
        let mut i: usize = 0;
        while i < polys.len()
            invariant
                i <= polys@.len(),
                factored@.len() == polys@.len(),
                lists == factor_lists(polys@, factored@),
                lists_exec@.len() == i,
                forall|k: int| 0 <= k < i ==> trees(#[trigger] lists_exec@[k]@) == lists[k],
            decreases polys@.len() - i,
        {
            let mut row: Vec<Rc<Poly>> = Vec::new();
            match &factored[i] {
                Ok(factors) => {
                    let mut j: usize = 0;
                    while j < factors.len()
                        invariant
                            j <= factors@.len(),
                            row@.len() == j,
                            forall|q: int| 0 <= q < j ==> sv(*#[trigger] row@[q]) == sv(factors@[q]),
                        decreases factors@.len() - j,
                    {
                        row.push(Rc::new(factors[j].copy()));
                        j = j + 1;
                    }
                    assert(trees(row@) =~= lists[i as int]);
                },
                Err(_) => {
                    row.push(Rc::clone(&polys[i]));
                    assert(trees(row@) =~= lists[i as int]);
                },
            }
            lists_exec.push(row);
            i = i + 1;
        }
        let mut combinations: Vec<Vec<Rc<Poly>>> = Vec::new();
        combinations.push(Vec::new());
        assert(trees(combinations@[0]@) =~= Seq::<SPoly>::empty());
        assert(systems_view(combinations@) =~~= choices_upto(lists, 0));
        let mut n: usize = 0;
        while n < lists_exec.len()
            invariant
                n <= lists_exec@.len(),
                lists_exec@.len() == lists.len(),
                forall|k: int| 0 <= k < lists.len() ==> trees(#[trigger] lists_exec@[k]@) == lists[k],
                systems_view(combinations@) == choices_upto(lists, n as int),
            decreases lists_exec@.len() - n,
        {
            let fs: &Vec<Rc<Poly>> = &lists_exec[n];
            let ghost fsv = lists[n as int];
            assert(trees(fs@) == fsv);
            let mut next: Vec<Vec<Rc<Poly>>> = Vec::new();
            let mut c: usize = 0;
            while c < combinations.len()
                invariant
                    c <= combinations@.len(),
                    trees(fs@) == fsv,
                    next@.len() == c * fs@.len(),
                    forall|k: int| 0 <= k < next@.len() ==> trees(#[trigger] next@[k]@) == systems_view(
                        combinations@,
                    )[k / (fs@.len() as int)].push(fsv[k % (fs@.len() as int)]),
                decreases combinations@.len() - c,
            {
                let mut f: usize = 0;
                while f < fs.len()
                    invariant
                        c < combinations@.len(),
                        f <= fs@.len(),
                        trees(fs@) == fsv,
                        next@.len() == c * fs@.len() + f,
                        forall|k: int| 0 <= k < next@.len() ==> trees(#[trigger] next@[k]@) == systems_view(
                            combinations@,
                        )[k / (fs@.len() as int)].push(fsv[k % (fs@.len() as int)]),
                    decreases fs@.len() - f,
                {
                    let base: &Vec<Rc<Poly>> = &combinations[c];
                    let mut ext: Vec<Rc<Poly>> = Vec::new();
                    let mut q: usize = 0;
                    while q < base.len()
                        invariant
                            q <= base@.len(),
                            ext@ == base@.take(q as int),
                        decreases base@.len() - q,
                    {
                        ext.push(Rc::clone(&base[q]));
                        assert(base@.take(q as int + 1) =~= base@.take(q as int).push(base@[q as int]));
                        q = q + 1;
                    }
                    assert(base@.take(q as int) =~= base@);
                    ext.push(Rc::clone(&fs[f]));
                    let ghost before = next@;
                    next.push(ext);
                    proof {
                        let m = fs@.len() as int;
                        let k = c * m + f;
                        assert(k / m == c && k % m == f) by (nonlinear_arith)
                            requires
                                0 <= f < m,
                                c >= 0,
                                k == c * m + f,
                        ;
                        assert(trees(next@[k]@) =~= systems_view(combinations@)[c as int].push(fsv[f as int]));
                        assert forall|j: int| 0 <= j < next@.len() implies trees(#[trigger] next@[j]@) == systems_view(
                            combinations@,
                        )[j / m].push(fsv[j % m]) by {
                            if j < before.len() {
                                assert(next@[j] == before[j]);
                            }
                        }
                    }
                    f = f + 1;
                }
                proof {
                    assert((c + 1) * fs@.len() == c * fs@.len() + fs@.len()) by (nonlinear_arith);
                }
                c = c + 1;
            }
            proof {
                let m = fs@.len() as int;
                let prev = choices_upto(lists, n as int);
                assert(systems_view(combinations@) == prev);
                assert(choices_upto(lists, n as int + 1) == extend_all(prev, fsv));
                if m == 0 {
                    assert(next@.len() == combinations@.len() * m);
                    assert(combinations@.len() * m == 0) by (nonlinear_arith)
                        requires
                            m == 0,
                    ;
                    assert(systems_view(next@) =~= choices_upto(lists, n as int + 1));
                } else {
                    let target = extend_all(prev, fsv);
                    assert(target.len() == prev.len() * m);
                    assert(next@.len() == prev.len() * m);
                    assert forall|k: int| 0 <= k < next@.len() implies #[trigger] systems_view(next@)[k] == target[k] by {
                        assert(trees(next@[k]@) == systems_view(combinations@)[k / m].push(fsv[k % m]));
                    }
                    assert(systems_view(next@) =~= target);
                }
            }
            combinations = next;
            n = n + 1;
        }
        combinations
    }
}

} // verus!

verus! {

/// Entry `k` of row `i` of the shifted copies of `cs`: `cs[k - i]`, zero
/// outside.
pub open spec fn shifted<T>(cs: Seq<T>, i: int, k: int, zero: T) -> T {
    if i <= k < i + cs.len() {
        cs[k - i]
    } else {
        zero
    }
}

/// The trees of a matrix of shared polynomials.
pub open spec fn matrix_view(m: Seq<Vec<Rc<Poly>>>) -> Seq<Seq<SPoly>> {
    Seq::new(m.len(), |i: int| trees(m[i]@))
}

/// Row or column `a` of a matrix from which row or column `r` was taken out.
pub open spec fn skip_index(a: int, r: int) -> int {
    if a < r {
        a
    } else {
        a + 1
    }
}

/// The values of the entries of a matrix at `env`.
pub open spec fn matrix_values(m: Seq<Seq<SPoly>>, env: spec_fn(u8) -> int) -> Seq<Seq<int>> {
    Seq::new(m.len(), |i: int| Seq::new(m[i].len(), |j: int| eval(m[i][j], env)))
}

/// A square matrix of numbers without row `r` and column `c`.
pub open spec fn minor_values(m: Seq<Seq<int>>, r: int, c: int) -> Seq<Seq<int>> {
    Seq::new((m.len() - 1) as nat, |a: int| Seq::new((m.len() - 1) as nat, |b: int| m[skip_index(a, r)][skip_index(b, c)]))
}

/// The sign of a cofactor in the first row.
pub open spec fn cofactor_sign(j: int) -> int {
    if j % 2 == 0 {
        1
    } else {
        -1
    }
}

/// The determinant of a square matrix of numbers, expanded along the first
/// row; zero for the empty matrix.
pub open spec fn det_value(m: Seq<Seq<int>>) -> int
    decreases m.len(), m.len() + 1,
{
    let n = m.len() as int;
    if n == 0 {
        0
    } else if n == 1 {
        m[0][0]
    } else if n == 2 {
        m[0][0] * m[1][1] - m[0][1] * m[1][0]
    } else {
        cofactor_sum(m, n)
    }
}

/// The first `j` terms of the expansion along the first row.
pub open spec fn cofactor_sum(m: Seq<Seq<int>>, j: int) -> int
    decreases m.len(), j,
{
    if j <= 0 || j > m.len() || m.len() == 0 {
        0
    } else {
        cofactor_sum(m, j - 1) + cofactor_sign(j - 1) * m[0][j - 1] * det_value(minor_values(m, 0, j - 1))
    }
}

/// Every row is at least as long as the matrix is high.
pub open spec fn square_enough(m: Seq<Vec<Rc<Poly>>>) -> bool {
    forall|i: int| 0 <= i < m.len() ==> (#[trigger] m[i])@.len() >= m.len()
}

/// Every entry is ordered.
pub open spec fn entries_ordered(m: Seq<Vec<Rc<Poly>>>) -> bool {
    forall|i: int, j: int| 0 <= i < m.len() && 0 <= j < m[i]@.len() ==> ordered(#[trigger] matrix_view(m)[i][j])
}

impl SceneUtils {
    /// The `d - 1` rows of `2d - 1` entries that hold the coefficients of a
    /// polynomial of degree `d` shifted by one place per row.
    pub fn get_i_matrix(uni_coeffs: &Vec<i64>) -> (r: Vec<Vec<i64>>)
        requires
            2 <= uni_coeffs@.len() <= usize::MAX / 2,
        ensures
            r@.len() == uni_coeffs@.len() - 2,
            forall|i: int| 0 <= i < r@.len() ==> (#[trigger] r@[i])@.len() == 2 * uni_coeffs@.len() - 3,
            forall|i: int, k: int|
                0 <= i < r@.len() && 0 <= k < r@[i]@.len() ==> #[trigger] r@[i]@[k] == shifted(uni_coeffs@, i, k, 0i64),
    {
        let d = uni_coeffs.len() - 1;
        let size = 2 * d - 1;
        let mut m: Vec<Vec<i64>> = Vec::new();
        let mut i: usize = 0;
        while i < d - 1
            invariant
                d == uni_coeffs@.len() - 1,
                size == 2 * d - 1,
                d >= 1,
                i <= d - 1,
                m@.len() == i,
                forall|a: int| 0 <= a < i ==> (#[trigger] m@[a])@.len() == size,
                forall|a: int, k: int| 0 <= a < i && 0 <= k < size ==> #[trigger] m@[a]@[k] == shifted(uni_coeffs@, a, k, 0i64),
            decreases d - 1 - i,
        {
            let mut row: Vec<i64> = Vec::new();
            let mut k: usize = 0;
            while k < size
                invariant
                    i < d,
                    d == uni_coeffs@.len() - 1,
                    k <= size,
                    row@.len() == k,
                    forall|q: int| 0 <= q < k ==> #[trigger] row@[q] == shifted(uni_coeffs@, i as int, q, 0i64),
                decreases size - k,
            {
                let x = if i <= k && k - i < uni_coeffs.len() {
                    uni_coeffs[k - i]
                } else {
                    0
                };
                row.push(x);
                k = k + 1;
            }
            m.push(row);
            i = i + 1;
        }
        m
    }

    /// The `d` rows of `2d - 1` entries that hold the `d` projections shifted
    /// by one place per row, zero elsewhere.
    pub fn get_p_matrix(projections: &Vec<Rc<Poly>>) -> (r: Vec<Vec<Rc<Poly>>>)
        requires
            1 <= projections@.len() <= usize::MAX / 2,
        ensures
            r@.len() == projections@.len(),
            forall|i: int| 0 <= i < r@.len() ==> (#[trigger] r@[i])@.len() == 2 * projections@.len() - 1,
            forall|i: int, k: int|
                0 <= i < r@.len() && 0 <= k < r@[i]@.len() ==> #[trigger] matrix_view(r@)[i][k] == shifted(
                    trees(projections@),
                    i,
                    k,
                    SPoly::Constant(0),
                ),
    {
        let d = projections.len();
        let size = 2 * d - 1;
        let ghost pv = trees(projections@);
        let mut m: Vec<Vec<Rc<Poly>>> = Vec::new();
        let mut i: usize = 0;
        while i < d
            invariant
                d == projections@.len(),
                pv == trees(projections@),
                size == 2 * d - 1,
                i <= d,
                m@.len() == i,
                forall|a: int| 0 <= a < i ==> (#[trigger] m@[a])@.len() == size,
                forall|a: int, k: int|
                    0 <= a < i && 0 <= k < size ==> #[trigger] matrix_view(m@)[a][k] == shifted(pv, a, k, SPoly::Constant(0)),
            decreases d - i,
        {
            let mut row: Vec<Rc<Poly>> = Vec::new();
            let mut k: usize = 0;
            while k < size
                invariant
                    i < d,
                    d == projections@.len(),
                    pv == trees(projections@),
                    k <= size,
                    row@.len() == k,
                    forall|q: int| 0 <= q < k ==> #[trigger] trees(row@)[q] == shifted(pv, i as int, q, SPoly::Constant(0)),
                decreases size - k,
            {
                let ghost before = row@;
                if i <= k && k - i < d {
                    row.push(Rc::clone(&projections[k - i]));
                } else {
                    row.push(Rc::new(Poly::Constant(0)));
                }
                proof {
                    assert forall|q: int| 0 <= q < k + 1 implies #[trigger] trees(row@)[q] == shifted(
                        pv,
                        i as int,
                        q,
                        SPoly::Constant(0),
                    ) by {
                        if q < k {
                            assert(row@[q] == before[q]);
                            assert(trees(before)[q] == shifted(pv, i as int, q, SPoly::Constant(0)));
                        }
                    }
                }
                k = k + 1;
            }
            let ghost before = m@;
            m.push(row);
            proof {
                assert forall|a: int, k: int| 0 <= a < i + 1 && 0 <= k < size implies #[trigger] matrix_view(m@)[a][k]
                    == shifted(pv, a, k, SPoly::Constant(0)) by {
                    if a < i {
                        assert(m@[a] == before[a]);
                        assert(matrix_view(before)[a][k] == shifted(pv, a, k, SPoly::Constant(0)));
                    }
                }
            }
            i = i + 1;
        }
        m
    }

    /// The transpose of a matrix whose rows are at least as long as the first.
    pub fn transpose_matrix(matrix: &Vec<Vec<Rc<Poly>>>) -> (r: Vec<Vec<Rc<Poly>>>)
        requires
            matrix@.len() >= 1,
            forall|i: int| 0 <= i < matrix@.len() ==> (#[trigger] matrix@[i])@.len() >= matrix@[0]@.len(),
        ensures
            r@.len() == matrix@[0]@.len(),
            forall|j: int| 0 <= j < r@.len() ==> (#[trigger] r@[j])@.len() == matrix@.len(),
            forall|j: int, i: int|
                0 <= j < r@.len() && 0 <= i < matrix@.len() ==> #[trigger] matrix_view(r@)[j][i] == matrix_view(
                    matrix@,
                )[i][j],
    {
        let rows = matrix.len();
        let cols = matrix[0].len();
        let mut t: Vec<Vec<Rc<Poly>>> = Vec::new();
        let mut j: usize = 0;
        while j < cols
            invariant
                rows == matrix@.len(),
                cols == matrix@[0]@.len(),
                forall|i: int| 0 <= i < matrix@.len() ==> (#[trigger] matrix@[i])@.len() >= cols,
                j <= cols,
                t@.len() == j,
                forall|a: int| 0 <= a < j ==> (#[trigger] t@[a])@.len() == rows,
                forall|a: int, i: int|
                    0 <= a < j && 0 <= i < rows ==> #[trigger] matrix_view(t@)[a][i] == matrix_view(matrix@)[i][a],
            decreases cols - j,
        {
            let mut col: Vec<Rc<Poly>> = Vec::new();
            let mut i: usize = 0;
            while i < rows
                invariant
                    rows == matrix@.len(),
                    j < cols,
                    forall|i: int| 0 <= i < matrix@.len() ==> (#[trigger] matrix@[i])@.len() >= cols,
                    i <= rows,
                    col@.len() == i,
                    forall|q: int| 0 <= q < i ==> #[trigger] trees(col@)[q] == matrix_view(matrix@)[q][j as int],
                decreases rows - i,
            {
                let row: &Vec<Rc<Poly>> = &matrix[i];
                assert(row@.len() >= cols);
                let ghost before = col@;
                col.push(Rc::clone(&row[j]));
                proof {
                    assert forall|q: int| 0 <= q < i + 1 implies #[trigger] trees(col@)[q] == matrix_view(matrix@)[q][j as int] by {
                        if q < i {
                            assert(col@[q] == before[q]);
                            assert(trees(before)[q] == matrix_view(matrix@)[q][j as int]);
                        }
                    }
                }
                i = i + 1;
            }
            let ghost before = t@;
            t.push(col);
            proof {
                assert forall|a: int, i: int| 0 <= a < j + 1 && 0 <= i < rows implies #[trigger] matrix_view(t@)[a][i]
                    == matrix_view(matrix@)[i][a] by {
                    if a < j {
                        assert(t@[a] == before[a]);
                        assert(matrix_view(before)[a][i] == matrix_view(matrix@)[i][a]);
                    }
                }
            }
            j = j + 1;
        }
        t
    }

    /// The matrix without row `row` and column `col`.
    pub fn compute_minor_poly(matrix: &Vec<Vec<Rc<Poly>>>, row: usize, col: usize) -> (r: Vec<Vec<Rc<Poly>>>)
        requires
            square_enough(matrix@),
        ensures
            r@.len() == (if row < matrix@.len() { matrix@.len() - 1 } else { matrix@.len() as int }),
            forall|a: int| 0 <= a < r@.len() ==> (#[trigger] r@[a])@.len() == (if col < matrix@.len() {
                matrix@.len() - 1
            } else {
                matrix@.len() as int
            }),
            forall|a: int, b: int|
                0 <= a < r@.len() && 0 <= b < r@[a]@.len() ==> #[trigger] matrix_view(r@)[a][b] == matrix_view(
                    matrix@,
                )[skip_index(a, row as int)][skip_index(b, col as int)],
    {
        let n = matrix.len();
        let ghost ncols: int = if col < n { n - 1 } else { n as int };
        let mut minor: Vec<Vec<Rc<Poly>>> = Vec::new();
        let mut i: usize = 0;
        while i < n
            invariant
                n == matrix@.len(),
                square_enough(matrix@),
                ncols == (if col < n { n - 1 } else { n as int }),
                i <= n,
                minor@.len() == (if row < i { i - 1 } else { i as int }),
                forall|a: int| 0 <= a < minor@.len() ==> (#[trigger] minor@[a])@.len() == ncols,
                forall|a: int, b: int|
                    0 <= a < minor@.len() && 0 <= b < ncols ==> #[trigger] matrix_view(minor@)[a][b] == matrix_view(
                        matrix@,
                    )[skip_index(a, row as int)][skip_index(b, col as int)],
            decreases n - i,
        {
            if i != row {
                let src: &Vec<Rc<Poly>> = &matrix[i];
                assert(src@.len() >= n);
                let mut minor_row: Vec<Rc<Poly>> = Vec::new();
                let mut j: usize = 0;
                while j < n
                    invariant
                        n == matrix@.len(),
                        src@.len() >= n,
                        src == matrix@[i as int],
                        j <= n,
                        minor_row@.len() == (if col < j { j - 1 } else { j as int }),
                        forall|b: int| 0 <= b < minor_row@.len() ==> #[trigger] trees(minor_row@)[b] == trees(src@)[skip_index(
                            b,
                            col as int,
                        )],
                    decreases n - j,
                {
                    if j != col {
                        let ghost before = minor_row@;
                        minor_row.push(Rc::clone(&src[j]));
                        proof {
                            assert forall|b: int| 0 <= b < minor_row@.len() implies #[trigger] trees(minor_row@)[b] == trees(
                                src@,
                            )[skip_index(b, col as int)] by {
                                if b < before.len() {
                                    assert(minor_row@[b] == before[b]);
                                    assert(trees(before)[b] == trees(src@)[skip_index(b, col as int)]);
                                }
                            }
                        }
                    }
                    j = j + 1;
                }
                let ghost before = minor@;
                minor.push(minor_row);
                proof {
                    assert forall|a: int, b: int| 0 <= a < minor@.len() && 0 <= b < ncols implies #[trigger] matrix_view(
                        minor@,
                    )[a][b] == matrix_view(matrix@)[skip_index(a, row as int)][skip_index(b, col as int)] by {
                        if a < before.len() {
                            assert(minor@[a] == before[a]);
                            assert(matrix_view(before)[a][b] == matrix_view(matrix@)[skip_index(a, row as int)][skip_index(
                                b,
                                col as int,
                            )]);
                        } else {
                            assert(skip_index(a, row as int) == i);
                        }
                    }
                }
            }
            i = i + 1;
        }
        minor
    }
}

} // verus!

verus! {

/// The values of the minor of a matrix of trees are the minor of its values.
proof fn lemma_minor_values(m: Seq<Vec<Rc<Poly>>>, r: Seq<Vec<Rc<Poly>>>, j: int, env: spec_fn(u8) -> int)
    requires
        square_enough(m),
        m.len() >= 1,
        0 <= j < m.len(),
        r.len() == m.len() - 1,
        forall|a: int| 0 <= a < r.len() ==> (#[trigger] r[a])@.len() == m.len() - 1,
        forall|a: int, b: int|
            0 <= a < r.len() && 0 <= b < r[a]@.len() ==> #[trigger] matrix_view(r)[a][b] == matrix_view(m)[skip_index(
                a,
                0,
            )][skip_index(b, j)],
    ensures
        matrix_values(matrix_view(r), env) == minor_values(matrix_values(matrix_view(m), env), 0, j),
{
    let lhs = matrix_values(matrix_view(r), env);
    let rhs = minor_values(matrix_values(matrix_view(m), env), 0, j);
    assert forall|a: int| 0 <= a < lhs.len() implies #[trigger] lhs[a] =~= rhs[a] by {
        assert forall|b: int| 0 <= b < lhs[a].len() implies lhs[a][b] == rhs[a][b] by {
            assert(matrix_view(r)[a][b] == matrix_view(m)[skip_index(a, 0)][skip_index(b, j)]);
            assert(m[skip_index(a, 0)]@.len() >= m.len());
        }
    }
    assert(lhs =~= rhs);
}

/// The bound that `multiply` keeps is not negative.
proof fn lemma_product_bound_nonneg(a: SPoly, b: SPoly)
    ensures
        product_bound(a, b) >= 0,
{
    lemma_size_pos(a);
    lemma_max_abs(a);
    lemma_max_abs(b);
    let (s, x, y) = (size(a), max_abs(a), max_abs(b));
    assert(s * x * y >= 0) by (nonlinear_arith)
        requires
            s >= 1,
            x >= 0,
            y >= 0,
    ;
}

impl SceneUtils {
    /// The determinant of a square matrix of polynomials, expanded along
    /// the first row (see `det_value`); `None` when a constant on the way
    /// could leave an `i64`.
    pub fn compute_determinant_poly(matrix: &Vec<Vec<Rc<Poly>>>) -> (r: Option<Rc<Poly>>)
        requires
            square_enough(matrix@),
            entries_ordered(matrix@),
        ensures
            r matches Some(d) ==> ordered(sv(*d)) && forall|env: spec_fn(u8) -> int| #[trigger] eval(sv(*d), env)
                == det_value(matrix_values(matrix_view(matrix@), env)),
            matrix@.len() == 0 ==> (r matches Some(d) && sv(*d) == SPoly::Constant(0)),
            matrix@.len() == 1 ==> (r matches Some(d) && sv(*d) == matrix_view(matrix@)[0][0]),
            matrix@.len() == 2 && product_bound(matrix_view(matrix@)[0][0], matrix_view(matrix@)[1][1]) + product_bound(
                matrix_view(matrix@)[0][1],
                matrix_view(matrix@)[1][0],
            ) <= i64::MAX ==> r is Some,
        decreases matrix@.len(),
    {
        let n = matrix.len();
        if n == 0 {
            return Some(Rc::new(Poly::Constant(0)));
        }
        proof {
            assert(matrix@[0]@.len() >= n);
            assert(ordered(matrix_view(matrix@)[0][0]));
        }
        if n == 1 {
            let e: &Rc<Poly> = &matrix[0][0];
            assert(sv(**e) == matrix_view(matrix@)[0][0]);
            return Some(Rc::clone(e));
        }
        if n == 2 {
            let a: &Poly = &matrix[0][0];
            let b: &Poly = &matrix[0][1];
            proof {
                assert(matrix@[1]@.len() >= n);
                assert(ordered(matrix_view(matrix@)[0][1]));
                assert(ordered(matrix_view(matrix@)[1][0]));
                assert(ordered(matrix_view(matrix@)[1][1]));
            }
            let c: &Poly = &matrix[1][0];
            let d: &Poly = &matrix[1][1];
            proof {
                assert(sv(*a) == matrix_view(matrix@)[0][0]);
                assert(sv(*b) == matrix_view(matrix@)[0][1]);
                assert(sv(*c) == matrix_view(matrix@)[1][0]);
                assert(sv(*d) == matrix_view(matrix@)[1][1]);
                lemma_product_bound_nonneg(sv(*a), sv(*d));
                lemma_product_bound_nonneg(sv(*b), sv(*c));
            }
            let ad = match a.try_multiply(d) {
                Some(x) => x,
                None => {
                    return None;
                },
            };
            let bc = match b.try_multiply(c) {
                Some(x) => x,
                None => {
                    return None;
                },
            };
            proof {
                lemma_product_bound_nonneg(sv(*a), sv(*d));
                lemma_product_bound_nonneg(sv(*b), sv(*c));
                lemma_max_abs_least(sv(ad), product_bound(sv(*a), sv(*d)));
                lemma_max_abs_least(sv(bc), product_bound(sv(*b), sv(*c)));
            }
            let mut result = ad;
            let ghost r0 = sv(result);
            if !result.try_add_poly_scaled(&bc, -1) {
                return None;
            }
            proof {
                lemma_canonical_ordered(sv(result));
                assert forall|env: spec_fn(u8) -> int| #[trigger] eval(sv(result), env) == det_value(
                    matrix_values(matrix_view(matrix@), env),
                ) by {
                    let mv = matrix_values(matrix_view(matrix@), env);
                    assert(mv[0][0] == eval(sv(*a), env));
                    assert(mv[0][1] == eval(sv(*b), env));
                    assert(mv[1][0] == eval(sv(*c), env));
                    assert(mv[1][1] == eval(sv(*d), env));
                }
            }
            return Some(Rc::new(result));
        }
        let mut determinant = Poly::Constant(0);
        let mut j: usize = 0;
        while j < n
            invariant
                n == matrix@.len(),
                n >= 3,
                square_enough(matrix@),
                entries_ordered(matrix@),
                j <= n,
                ordered(sv(determinant)),
                forall|env: spec_fn(u8) -> int| #[trigger] eval(sv(determinant), env) == cofactor_sum(
                    matrix_values(matrix_view(matrix@), env),
                    j as int,
                ),
            decreases n - j,
        {
            let cofactor: i64 = if j % 2 == 0 { 1 } else { -1 };
            let minor = SceneUtils::compute_minor_poly(matrix, 0, j);
            proof {
                assert(square_enough(minor@));
                assert forall|a: int, b: int| 0 <= a < minor@.len() && 0 <= b < minor@[a]@.len() implies ordered(
                    #[trigger] matrix_view(minor@)[a][b],
                ) by {
                    assert(matrix_view(minor@)[a][b] == matrix_view(matrix@)[skip_index(a, 0)][skip_index(b, j as int)]);
                    assert(matrix@[skip_index(a, 0)]@.len() >= n);
                }
            }
            let cofactor_poly = match SceneUtils::compute_determinant_poly(&minor) {
                Some(x) => x,
                None => {
                    return None;
                },
            };
            proof {
                assert(matrix@[0]@.len() >= n);
                assert(ordered(matrix_view(matrix@)[0][j as int]));
            }
            let entry: &Poly = &matrix[0][j];
            let cp: &Poly = &cofactor_poly;
            let term = match entry.try_multiply(cp) {
                Some(x) => x,
                None => {
                    return None;
                },
            };
            let ghost before = sv(determinant);
            if !determinant.try_add_poly_scaled(&term, cofactor) {
                return None;
            }
            proof {
                lemma_canonical_ordered(sv(determinant));
                assert forall|env: spec_fn(u8) -> int| #[trigger] eval(sv(determinant), env) == cofactor_sum(
                    matrix_values(matrix_view(matrix@), env),
                    j as int + 1,
                ) by {
                    let mv = matrix_values(matrix_view(matrix@), env);
                    lemma_minor_values(matrix@, minor@, j as int, env);
                    assert(mv[0][j as int] == eval(sv(*entry), env));
                    let x = mv[0][j as int];
                    let y = det_value(minor_values(mv, 0, j as int));
                    assert(eval(sv(term), env) == x * y);
                    assert(cofactor as int == cofactor_sign(j as int));
                    assert(cofactor * (x * y) == cofactor_sign(j as int) * x * y) by (nonlinear_arith)
                        requires
                            cofactor as int == cofactor_sign(j as int),
                    ;
                }
            }
            j = j + 1;
        }
        Some(Rc::new(determinant))
    }
}

} // verus!

verus! {

/// The divisor of two numbers is at most the second when that is positive.
proof fn lemma_gcd_le(a: nat, b: nat)
    requires
        b > 0,
    ensures
        gcd_spec(a, b) <= b,
    decreases b,
{
    assert(gcd_spec(a, b) == gcd_spec(b, a % b));
    if a % b != 0 {
        lemma_gcd_le(b, a % b);
    } else {
        assert(gcd_spec(b, 0) == b);
    }
}

/// The common divisor of a list of numbers is at most the largest absolute value.
proof fn lemma_gcd_upto_le(cs: Seq<int>, n: int, m: int)
    requires
        forall|i: int| 0 <= i < cs.len() ==> -m <= #[trigger] cs[i] <= m,
        n <= cs.len(),
    ensures
        !gcd_upto(cs, n).1 ==> gcd_upto(cs, n).0 <= m,
    decreases n,
{
    if n > 0 {
        lemma_gcd_upto_le(cs, n - 1, m);
        let c = cs[n - 1];
        let a: nat = (if c < 0 { -c } else { c }) as nat;
        if c != 0 && !gcd_upto(cs, n - 1).1 {
            lemma_gcd_le(gcd_upto(cs, n - 1).0, a);
        }
    }
}

/// The common divisor of the constants of a tree, zero when all are zero.
pub open spec fn coefficient_gcd(s: SPoly) -> int {
    let cs = coeffs_of(s);
    let (g, first) = gcd_upto(cs, cs.len() as int);
    if first {
        0
    } else {
        g as int
    }
}

impl Poly {
    /// The common divisor of the constants (see `coefficient_gcd`).
    pub fn get_coefficient_gcd(&self) -> (r: i64)
        requires
            no_min_coeff(sv(*self)),
        ensures
            r as int == coefficient_gcd(sv(*self)),
    {
        let cs = self.coefficients();
        let ghost cv = ints(cs@);
        proof {
            assert forall|i: int| 0 <= i < cv.len() implies -(i64::MAX as int) <= #[trigger] cv[i] <= i64::MAX by {
                assert(cv[i] == coeffs_of(sv(*self))[i]);
            }
            lemma_gcd_upto_le(cv, cv.len() as int, i64::MAX as int);
        }
        let mut g: u64 = 1;
        let mut first = true;
        let mut j: usize = 0;
        while j < cs.len()
            invariant
                cv == ints(cs@),
                j <= cs@.len(),
                (g as nat, first) == gcd_upto(cv, j as int),
                forall|i: int| 0 <= i < cv.len() ==> -(i64::MAX as int) <= #[trigger] cv[i] <= i64::MAX,
            decreases cs@.len() - j,
        {
            let x = cs[j];
            assert(cv[j as int] == x as int);
            if x != 0 {
                let a: u64 = if x < 0 { (-x) as u64 } else { x as u64 };
                if first {
                    g = a;
                    first = false;
                } else {
                    g = crate::poly_ops::gcd_u64(g, a);
                }
            }
            j = j + 1;
        }
        if first {
            0
        } else {
            proof {
                lemma_gcd_upto_le(cv, j as int, i64::MAX as int);
                assert(cv == coeffs_of(sv(*self)));
            }
            g as i64
        }
    }
}

/// The common divisor of the constants of the first `n` trees, as
/// `reduce_by_common_gcd` folds it: zero while all were zero.
pub open spec fn common_gcd_upto(ps: Seq<SPoly>, n: int) -> int
    decreases n,
{
    if n <= 0 {
        0
    } else {
        let c = common_gcd_upto(ps, n - 1);
        let g = coefficient_gcd(ps[n - 1]);
        if g == 0 {
            c
        } else if c == 0 {
            g
        } else {
            gcd_spec(c as nat, g as nat) as int
        }
    }
}

impl SceneUtils {
    /// Divides every constant of every polynomial by their common divisor
    /// (see `common_gcd_upto`), rounding towards zero, and brings each to its
    /// normal form, unless that divisor is 0 or 1.
    pub fn reduce_by_common_gcd(polys: &mut Vec<Rc<Poly>>)
        requires
            forall|i: int| 0 <= i < old(polys)@.len() ==> no_min_coeff(#[trigger] trees(old(polys)@)[i]),
        ensures
            ({
                let g = common_gcd_upto(trees(old(polys)@), old(polys)@.len() as int);
                if g == 0 || g == 1 {
                    final(polys)@ == old(polys)@
                } else {
                    final(polys)@.len() == old(polys)@.len() && forall|i: int| 0 <= i < final(polys)@.len()
                        ==> #[trigger] trees(final(polys)@)[i] == cleaned(leaf_div(trees(old(polys)@)[i], g))
                }
            }),
    {
        let ghost ps = trees(polys@);
        let mut common_gcd: i64 = 0;
        let mut i: usize = 0;
        while i < polys.len()
            invariant
                ps == trees(polys@),
                i <= polys@.len(),
                forall|k: int| 0 <= k < polys@.len() ==> no_min_coeff(#[trigger] trees(polys@)[k]),
                common_gcd as int == common_gcd_upto(ps, i as int),
                common_gcd >= 0,
            decreases polys@.len() - i,
        {
            let p: &Poly = &polys[i];
            assert(ps[i as int] == sv(*p));
            assert(no_min_coeff(trees(polys@)[i as int]));
            let poly_gcd = p.get_coefficient_gcd();
            if poly_gcd != 0 {
                if common_gcd == 0 {
                    common_gcd = poly_gcd;
                } else {
                    let g = crate::poly_ops::gcd_u64(common_gcd as u64, poly_gcd as u64);
                    proof {
                        lemma_gcd_le(common_gcd as nat, poly_gcd as nat);
                    }
                    common_gcd = g as i64;
                }
            }
            i = i + 1;
        }
        if common_gcd == 0 || common_gcd == 1 {
            return;
        }
        let ghost old_polys = polys@;
        let mut j: usize = 0;
        while j < polys.len()
            invariant
                old_polys == old(polys)@,
                ps == trees(old_polys),
                polys@.len() == old_polys.len(),
                j <= polys@.len(),
                common_gcd >= 2,
                forall|k: int| 0 <= k < j ==> #[trigger] trees(polys@)[k] == cleaned(leaf_div(ps[k], common_gcd as int)),
                forall|k: int| j <= k < polys@.len() ==> #[trigger] polys@[k] == old_polys[k],
            decreases polys@.len() - j,
        {
            let p: &Poly = &polys[j];
            assert(ps[j as int] == sv(*p));
            let mut d = p.divided_poly(common_gcd as u64);
            d.cleanup();
            let ghost before = polys@;
            polys.set(j, Rc::new(d));
            proof {
                assert forall|k: int| 0 <= k < j + 1 implies #[trigger] trees(polys@)[k] == cleaned(
                    leaf_div(ps[k], common_gcd as int),
                ) by {
                    if k < j {
                        assert(polys@[k] == before[k]);
                        assert(trees(before)[k] == cleaned(leaf_div(ps[k], common_gcd as int)));
                    }
                }
            }
            j = j + 1;
        }
    }
}

} // verus!

verus! {

/// A copy of a row of numbers.
fn copy_i64_row(v: &Vec<i64>) -> (r: Vec<i64>)
    ensures
        r@ == v@,
{
    let mut r: Vec<i64> = Vec::new();
    let mut i: usize = 0;
    while i < v.len()
        invariant
            i <= v@.len(),
            r@ == v@.take(i as int),
        decreases v@.len() - i,
    {
        r.push(v[i]);
        assert(v@.take(i as int + 1) =~= v@.take(i as int).push(v@[i as int]));
        i = i + 1;
    }
    assert(v@.take(i as int) =~= v@);
    r
}

/// A copy of a row of shared polynomials.
fn copy_poly_row(v: &Vec<Rc<Poly>>) -> (r: Vec<Rc<Poly>>)
    ensures
        r@ == v@,
{
    let mut r: Vec<Rc<Poly>> = Vec::new();
    let mut i: usize = 0;
    while i < v.len()
        invariant
            i <= v@.len(),
            r@ == v@.take(i as int),
        decreases v@.len() - i,
    {
        r.push(Rc::clone(&v[i]));
        assert(v@.take(i as int + 1) =~= v@.take(i as int).push(v@[i as int]));
        i = i + 1;
    }
    assert(v@.take(i as int) =~= v@);
    r
}

/// The number of `true` entries among the first `n`.
pub open spec fn count_true(s: Seq<bool>, n: int) -> int
    decreases n,
{
    if n <= 0 {
        0
    } else {
        count_true(s, n - 1) + (if s[n - 1] { 1int } else { 0int })
    }
}

/// Counting up to a longer prefix does not count less.
proof fn lemma_count_true_bounds(s: Seq<bool>, n: int)
    requires
        0 <= n <= s.len(),
    ensures
        0 <= count_true(s, n) <= n,
    decreases n,
{
    if n > 0 {
        lemma_count_true_bounds(s, n - 1);
    }
}

/// Setting one `true` entry to `false` lowers the count by one.
proof fn lemma_count_true_clear(s: Seq<bool>, k: int, n: int)
    requires
        0 <= k < s.len(),
        s[k],
        0 <= n <= s.len(),
    ensures
        count_true(s.update(k, false), n) == count_true(s, n) - (if k < n { 1int } else { 0int }),
    decreases n,
{
    if n > 0 {
        lemma_count_true_clear(s, k, n - 1);
    }
}

/// The rows of a matrix of polynomials are `len` long and their entries ordered.
pub open spec fn rows_ok(m: Seq<Vec<Rc<Poly>>>, len: int) -> bool {
    &&& forall|i: int| 0 <= i < m.len() ==> (#[trigger] m[i])@.len() == len
    &&& forall|i: int, j: int| 0 <= i < m.len() && 0 <= j < len ==> ordered(#[trigger] matrix_view(m)[i][j])
}

/// Some of the first `size` entries of the first row is not zero.
pub open spec fn first_row_nonzero(m: Seq<Vec<i64>>, size: int) -> bool {
    exists|q: int| 0 <= q < size && #[trigger] m[0]@[q] != 0
}

/// None of the first `size` entries of the first row is `i64::MIN`.
pub open spec fn first_row_no_min(m: Seq<Vec<i64>>, size: int) -> bool {
    forall|q: int| 0 <= q < size ==> #[trigger] m[0]@[q] != i64::MIN
}

impl SceneUtils {
    /// Gaussian elimination by whole columns: for each of the `d - 1` rows
    /// of `i_matrix` the non-zero entry of least absolute value among the
    /// columns left becomes the pivot and its column is taken out; every
    /// other column left with a non-zero entry in that row is replaced, in
    /// both matrices, by a combination with the pivot column that clears
    /// the entry. The columns of `p_matrix` that are left come back; none
    /// when a row has no non-zero entry left. `None` when a number would
    /// leave an `i64`.
    pub fn gauss_elimination(i_matrix: &mut Vec<Vec<i64>>, p_matrix: &mut Vec<Vec<Rc<Poly>>>) -> (r: Option<
        Vec<Vec<Rc<Poly>>>,
    >)
        requires
            1 <= old(p_matrix)@.len() <= usize::MAX / 4,
            old(i_matrix)@.len() == old(p_matrix)@.len() - 1,
            forall|i: int| 0 <= i < old(i_matrix)@.len() ==> (#[trigger] old(i_matrix)@[i])@.len() == 2 * old(
                p_matrix,
            )@.len() - 1,
            rows_ok(old(p_matrix)@, 2 * old(p_matrix)@.len() - 1),
        ensures
            r matches Some(m) ==> m@.len() == 0 || (m@.len() == old(p_matrix)@.len() && rows_ok(
                m@,
                old(p_matrix)@.len() as int,
            )),
            old(p_matrix)@.len() == 1 ==> (r matches Some(m) && m@.len() == 1 && matrix_view(m@)[0][0] == matrix_view(
                old(p_matrix)@,
            )[0][0]),
            old(p_matrix)@.len() >= 2 && (exists|j: int|
                0 <= j < 2 * old(p_matrix)@.len() - 1 && #[trigger] old(i_matrix)@[0]@[j] == i64::MIN) ==> r is None,
            old(p_matrix)@.len() >= 2 && (forall|j: int|
                0 <= j < 2 * old(p_matrix)@.len() - 1 ==> #[trigger] old(i_matrix)@[0]@[j] == 0) ==> (r matches Some(m)
                && m@.len() == 0),
    {
        let d = p_matrix.len();
        let size = 2 * d - 1;
        let mut remaining: Vec<bool> = Vec::new();
        let mut z: usize = 0;
        while z < size
            invariant
                z <= size,
                remaining@.len() == z,
                forall|q: int| 0 <= q < z ==> #[trigger] remaining@[q],
            decreases size - z,
        {
            remaining.push(true);
            z = z + 1;
        }
        proof {
            assert forall|n: int| 0 <= n <= size implies #[trigger] count_true(remaining@, n) == n by {
                lemma_count_all_true(remaining@, n);
            }
        }
        let mut i: usize = 0;
        while i + 1 < d
            invariant
                d == p_matrix@.len(),
                size == 2 * d - 1,
                d <= usize::MAX / 4,
                i_matrix@.len() == d - 1,
                forall|q: int| 0 <= q < i_matrix@.len() ==> (#[trigger] i_matrix@[q])@.len() == size,
                rows_ok(p_matrix@, size as int),
                remaining@.len() == size,
                i < d,
                count_true(remaining@, size as int) == size - i,
                i == 0 ==> i_matrix@ == old(i_matrix)@ && p_matrix@ == old(p_matrix)@,
                i == 0 ==> forall|q: int| 0 <= q < size ==> #[trigger] remaining@[q],
                d == old(p_matrix)@.len(),
                i >= 1 ==> first_row_nonzero(old(i_matrix)@, size as int) && first_row_no_min(old(i_matrix)@, size as int),
            decreases d - i,
        {
            let mut min_abs_val: i64 = i64::MAX;
            let mut pivot_col: usize = 0;
            let irow: &Vec<i64> = &i_matrix[i];
            let mut j: usize = 0;
            while j < size
                invariant
                    irow@.len() == size,
                    remaining@.len() == size,
                    j <= size,
                    pivot_col < size,
                    min_abs_val < i64::MAX ==> remaining@[pivot_col as int] && irow@[pivot_col as int] != 0,
                    irow == i_matrix@[i as int],
                    i == 0 ==> i_matrix@ == old(i_matrix)@,
                    i == 0 ==> forall|q: int| 0 <= q < size ==> #[trigger] remaining@[q],
                    i == 0 ==> forall|q: int| 0 <= q < j ==> #[trigger] irow@[q] != i64::MIN,
                    i == 0 && (forall|q: int| 0 <= q < size ==> #[trigger] old(i_matrix)@[0]@[q] == 0) ==> min_abs_val
                        == i64::MAX,
                    d == old(p_matrix)@.len(),
                    size == 2 * d - 1,
                    i + 1 < d,
                    i >= 1 ==> first_row_nonzero(old(i_matrix)@, size as int) && first_row_no_min(
                        old(i_matrix)@,
                        size as int,
                    ),
                decreases size - j,
            {
                let x = irow[j];
                if remaining[j] && x != 0 {
                    if x == i64::MIN {
                        return None;
                    }
                    let abs_val = if x < 0 { -x } else { x };
                    if abs_val < min_abs_val {
                        min_abs_val = abs_val;
                        pivot_col = j;
                    }
                }
                j = j + 1;
            }
            if min_abs_val == i64::MAX {
                proof {
                    if i == 0 {
                        assert forall|q: int| 0 <= q < size implies #[trigger] old(i_matrix)@[0]@[q] != i64::MIN by {
                            assert(irow@[q] != i64::MIN);
                        }
                    }
                }
                return Some(Vec::new());
            }
            proof {
                if i == 0 {
                    assert forall|q: int| 0 <= q < size implies #[trigger] old(i_matrix)@[0]@[q] != i64::MIN by {
                        assert(irow@[q] != i64::MIN);
                    }
                    assert(irow@[pivot_col as int] != 0);
                    assert(old(i_matrix)@[0]@[pivot_col as int] != 0);
                }
            }
            proof {
                lemma_count_true_clear(remaining@, pivot_col as int, size as int);
            }
            remaining.set(pivot_col, false);
            let mut k: usize = 0;
            while k < size
                invariant
                    d == p_matrix@.len(),
                    size == 2 * d - 1,
                    i + 1 < d,
                    d == old(p_matrix)@.len(),
                    first_row_nonzero(old(i_matrix)@, size as int),
                    first_row_no_min(old(i_matrix)@, size as int),
                    i_matrix@.len() == d - 1,
                    forall|q: int| 0 <= q < i_matrix@.len() ==> (#[trigger] i_matrix@[q])@.len() == size,
                    rows_ok(p_matrix@, size as int),
                    remaining@.len() == size,
                    pivot_col < size,
                    k <= size,
                    count_true(remaining@, size as int) == size - i - 1,
                decreases size - k,
            {
                let target_val = i_matrix[i][k];
                if remaining[k] && target_val != 0 {
                    let pivot_val = i_matrix[i][pivot_col];
                    if pivot_val == i64::MIN || target_val == i64::MIN || pivot_val == 0 {
                        return None;
                    }
                    let pa: u64 = if pivot_val < 0 { (-pivot_val) as u64 } else { pivot_val as u64 };
                    let ta: u64 = if target_val < 0 { (-target_val) as u64 } else { target_val as u64 };
                    let g = crate::poly_ops::gcd_u64(pa, ta);
                    proof {
                        lemma_gcd_le(pa as nat, ta as nat);
                        lemma_gcd_pos(pa as nat, ta as nat);
                    }
                    let gi = g as i64;
                    let pivot_mult = pivot_val / gi;
                    let target_mult = target_val / gi;
                    if target_mult == i64::MIN {
                        return None;
                    }
                    let mut l: usize = i + 1;
                    while l + 1 < d
                        invariant
                            d == p_matrix@.len(),
                            size == 2 * d - 1,
                            i_matrix@.len() == d - 1,
                            forall|q: int| 0 <= q < i_matrix@.len() ==> (#[trigger] i_matrix@[q])@.len() == size,
                            k < size,
                            pivot_col < size,
                            1 <= l <= d,
                            first_row_nonzero(old(i_matrix)@, size as int),
                            d == old(p_matrix)@.len(),
                            d >= 2,
                            first_row_no_min(old(i_matrix)@, size as int),
                        decreases d - l,
                    {
                        let a = i_matrix[l][k];
                        let b = i_matrix[l][pivot_col];
                        let x = match pivot_mult.checked_mul(a) {
                            Some(v) => v,
                            None => {
                                return None;
                            },
                        };
                        let y = match target_mult.checked_mul(b) {
                            Some(v) => v,
                            None => {
                                return None;
                            },
                        };
                        let z = match x.checked_sub(y) {
                            Some(v) => v,
                            None => {
                                return None;
                            },
                        };
                        let mut row = copy_i64_row(&i_matrix[l]);
                        row.set(k, z);
                        i_matrix.set(l, row);
                        l = l + 1;
                    }
                    let mut l: usize = 0;
                    while l < d
                        invariant
                            d == p_matrix@.len(),
                            size == 2 * d - 1,
                            rows_ok(p_matrix@, size as int),
                            k < size,
                            pivot_col < size,
                            target_mult > i64::MIN,
                            first_row_nonzero(old(i_matrix)@, size as int),
                            d == old(p_matrix)@.len(),
                            d >= 2,
                            first_row_no_min(old(i_matrix)@, size as int),
                        decreases d - l,
                    {
                        let prow: &Vec<Rc<Poly>> = &p_matrix[l];
                        proof {
                            assert(ordered(matrix_view(p_matrix@)[l as int][k as int]));
                            assert(ordered(matrix_view(p_matrix@)[l as int][pivot_col as int]));
                        }
                        let pk: &Poly = &prow[k];
                        let pp: &Poly = &prow[pivot_col];
                        let mut new_poly = Poly::Constant(0);
                        if !new_poly.try_add_poly_scaled(pk, pivot_mult) {
                            return None;
                        }
                        proof {
                            lemma_canonical_ordered(sv(new_poly));
                        }
                        if !new_poly.try_add_poly_scaled(pp, -target_mult) {
                            return None;
                        }
                        proof {
                            lemma_canonical_ordered(sv(new_poly));
                        }
                        let mut row = copy_poly_row(&p_matrix[l]);
                        row.set(k, Rc::new(new_poly));
                        let ghost before = p_matrix@;
                        p_matrix.set(l, row);
                        proof {
                            assert forall|a: int, b: int| 0 <= a < p_matrix@.len() && 0 <= b < size implies ordered(
                                #[trigger] matrix_view(p_matrix@)[a][b],
                            ) by {
                                if a != l {
                                    assert(p_matrix@[a] == before[a]);
                                    assert(ordered(matrix_view(before)[a][b]));
                                } else if b != k {
                                    assert(p_matrix@[a]@[b] == before[a]@[b]);
                                    assert(ordered(matrix_view(before)[a][b]));
                                }
                            }
                        }
                        l = l + 1;
                    }
                }
                k = k + 1;
            }
            i = i + 1;
        }
        let mut final_p: Vec<Vec<Rc<Poly>>> = Vec::new();
        let mut r: usize = 0;
        proof {
            lemma_count_true_bounds(remaining@, size as int);
        }
        proof {
            if d == 1 {
                assert(i == 0);
            }
        }
        while r < d
            invariant
                d == p_matrix@.len(),
                size == 2 * d - 1,
                d == old(p_matrix)@.len(),
                d == 1 ==> p_matrix@ == old(p_matrix)@ && remaining@[0],
                d == 1 && r == 1 ==> matrix_view(final_p@)[0][0] == matrix_view(old(p_matrix)@)[0][0],
                rows_ok(p_matrix@, size as int),
                remaining@.len() == size,
                count_true(remaining@, size as int) == d,
                r <= d,
                final_p@.len() == r,
                rows_ok(final_p@, d as int),
            decreases d - r,
        {
            let prow: &Vec<Rc<Poly>> = &p_matrix[r];
            let mut new_row: Vec<Rc<Poly>> = Vec::new();
            let mut j: usize = 0;
            while j < size
                invariant
                    d == p_matrix@.len(),
                    size == 2 * d - 1,
                    r < d,
                    prow == p_matrix@[r as int],
                    rows_ok(p_matrix@, size as int),
                    remaining@.len() == size,
                    j <= size,
                    new_row@.len() == count_true(remaining@, j as int),
                    forall|q: int| 0 <= q < new_row@.len() ==> ordered(#[trigger] trees(new_row@)[q]),
                    d == 1 ==> p_matrix@ == old(p_matrix)@ && remaining@[0],
                    d == 1 && j == 1 ==> trees(new_row@)[0] == matrix_view(old(p_matrix)@)[0][0],
                    d == old(p_matrix)@.len(),
                decreases size - j,
            {
                if remaining[j] {
                    proof {
                        assert(ordered(matrix_view(p_matrix@)[r as int][j as int]));
                    }
                    let ghost before = new_row@;
                    new_row.push(Rc::clone(&prow[j]));
                    proof {
                        assert forall|q: int| 0 <= q < new_row@.len() implies ordered(#[trigger] trees(new_row@)[q]) by {
                            if q < before.len() {
                                assert(new_row@[q] == before[q]);
                                assert(ordered(trees(before)[q]));
                            }
                        }
                    }
                }
                j = j + 1;
            }
            let ghost before = final_p@;
            final_p.push(new_row);
            proof {
                assert forall|a: int, b: int| 0 <= a < final_p@.len() && 0 <= b < d implies ordered(
                    #[trigger] matrix_view(final_p@)[a][b],
                ) by {
                    if a < before.len() {
                        assert(final_p@[a] == before[a]);
                        assert(ordered(matrix_view(before)[a][b]));
                    } else {
                        assert(ordered(trees(new_row@)[b]));
                    }
                }
            }
            r = r + 1;
        }
        Some(final_p)
    }
}

/// A sequence of `true` entries counts its length.
proof fn lemma_count_all_true(s: Seq<bool>, n: int)
    requires
        0 <= n <= s.len(),
        forall|q: int| 0 <= q < s.len() ==> #[trigger] s[q],
    ensures
        count_true(s, n) == n,
    decreases n,
{
    if n > 0 {
        lemma_count_all_true(s, n - 1);
    }
}

/// The divisor of two numbers, one of them positive, is positive.
proof fn lemma_gcd_pos(a: nat, b: nat)
    requires
        b > 0,
    ensures
        gcd_spec(a, b) > 0,
    decreases b,
{
    assert(gcd_spec(a, b) == gcd_spec(b, a % b));
    if a % b != 0 {
        lemma_gcd_pos(b, a % b);
    } else {
        assert(gcd_spec(b, 0) == b);
    }
}

} // verus!

verus! {

/// Dividing a non-negative number by a negative one gives the opposite of
/// dividing it by the divisor's absolute value.
proof fn lemma_div_negative(a: int, d: int)
    requires
        a >= 0,
        d < 0,
    ensures
        a / d == -(a / (-d)),
{
    let q = a / (-d);
    let r = a % (-d);
    assert(a == (-d) * q + r && 0 <= r < -d) by (nonlinear_arith)
        requires
            d < 0,
            q == a / (-d),
            r == a % (-d),
    ;
    assert(a == d * (-q) + r) by (nonlinear_arith)
        requires
            a == (-d) * q + r,
    ;
    assert(a / d == -q) by (nonlinear_arith)
        requires
            a == d * (-q) + r,
            0 <= r < -d,
            d < 0,
    ;
}

/// Dividing by a non-zero number, rounding towards zero, keeps a bound.
pub proof fn lemma_trunc_div_bounded(c: int, g: int, b: int)
    requires
        g != 0,
        -b <= c <= b,
    ensures
        -b <= trunc_div(c, g) <= b,
{
    let a = if g < 0 { -g } else { g };
    if c >= 0 {
        if g < 0 {
            lemma_div_negative(c, g);
        }
        let q = c / a;
        assert(0 <= q <= c) by (nonlinear_arith)
            requires
                c >= 0,
                a >= 1,
                q == c / a,
        ;
    } else {
        if g < 0 {
            lemma_div_negative(-c, g);
        }
        let q = (-c) / a;
        assert(0 <= q <= -c) by (nonlinear_arith)
            requires
                -c >= 0,
                a >= 1,
                q == (-c) / a,
        ;
    }
}

/// Dividing every constant by a non-zero number keeps a bound.
pub proof fn lemma_leaf_div_bounded(s: SPoly, g: int, b: int)
    requires
        g != 0,
        bounded(s, b),
    ensures
        bounded(leaf_div(s, g), b),
    decreases s,
{
    match s {
        SPoly::Constant(c) => {
            lemma_trunc_div_bounded(c, g, b);
        },
        SPoly::Nested(v, cs) => {
            let ds = leaf_div(s, g)->Nested_1;
            assert forall|i: int| 0 <= i < ds.len() implies bounded(#[trigger] ds[i], b) by {
                lemma_leaf_div_bounded(cs[i], g, b);
            }
        },
    }
}

/// Division rounding towards zero is what `checked_div` gives, and it fits
/// in an `i64` but for `i64::MIN / -1`.
proof fn lemma_trunc_div_fits(c: int, k: int)
    requires
        i64::MIN <= c <= i64::MAX,
        i64::MIN <= k <= i64::MAX,
        k != 0,
        !(k == -1 && c == i64::MIN),
    ensures
        i64::MIN <= trunc_div(c, k) <= i64::MAX,
        trunc_div(c, k) == (if c == 0 {
            0
        } else if c > 0 && k > 0 {
            c / k
        } else if c < 0 && k < 0 {
            (c * -1) / (k * -1)
        } else if c < 0 {
            ((c * -1) / k) * -1
        } else {
            (c / (k * -1)) * -1
        }),
{
    if c >= 0 && k < 0 {
        lemma_div_negative(c, k);
    }
    if c < 0 && k < 0 {
        lemma_div_negative(-c, k);
    }
    let a = if c < 0 { -c } else { c };
    let b = if k < 0 { -k } else { k };
    let q = a / b;
    assert(0 <= q <= a) by (nonlinear_arith)
        requires
            a >= 0,
            b >= 1,
            q == a / b,
    ;
    if b >= 2 {
        assert(q <= a / 2) by (nonlinear_arith)
            requires
                a >= 0,
                b >= 2,
                q == a / b,
        ;
    }
    if c == 0 {
        assert(0int / k == 0) by (nonlinear_arith)
            requires
                k != 0,
        ;
    }
}

/// Every constant divided by `k`, rounding towards zero, brought to the
/// normal form; `None` when `k` is zero or a quotient would not fit.
fn leaves_divided(p: &Poly, k: i64) -> (r: Option<Poly>)
    requires
        ordered(sv(*p)),
    ensures
        r is None <==> (k == 0 || (k == -1 && !bounded(sv(*p), i64::MAX as int))),
        r matches Some(q) ==> canonical(sv(q)) && sv(q) == cleaned(leaf_div(sv(*p), k as int)),
    decreases size(sv(*p)),
{
    let m = leaves_divided_raw(p, k);
    match m {
        Some(mut q) => {
            proof {
                lemma_cleaned_canonical(sv(q));
            }
            q.cleanup();
            Some(q)
        },
        None => None,
    }
}

/// Every constant divided by `k`, keeping the shape.
fn leaves_divided_raw(p: &Poly, k: i64) -> (r: Option<Poly>)
    requires
        ordered(sv(*p)),
    ensures
        r is None <==> (k == 0 || (k == -1 && !bounded(sv(*p), i64::MAX as int))),
        r matches Some(q) ==> ordered(sv(q)) && forall|u: u8| above(sv(*p), u) ==> #[trigger] above(sv(q), u),
        r matches Some(q) ==> sv(q) == leaf_div(sv(*p), k as int),
    decreases size(sv(*p)),
{
    match p {
        Poly::Constant(c) => {
            if k == 0 || (k == -1 && *c == i64::MIN) {
                None
            } else {
                proof {
                    lemma_trunc_div_fits(*c as int, k as int);
                }
                match c.checked_div(k) {
                    Some(d) => Some(Poly::Constant(d)),
                    None => None,
                }
            }
        },
        Poly::Nested(v, polys) => {
            let ghost kids = sv_kids(polys@);
            let mut ds: Vec<Rc<Poly>> = Vec::new();
            let mut i: usize = 0;
            while i < polys.len()
                invariant
                    *p == Poly::Nested(*v, *polys),
                    kids == sv_kids(polys@),
                    ordered(sv(*p)),
                    i <= polys@.len(),
                    ds@.len() == i,
                    forall|q: int| 0 <= q < i ==> ordered(#[trigger] trees(ds@)[q]) && above(trees(ds@)[q], *v),
                    forall|q: int| 0 <= q < i ==> #[trigger] trees(ds@)[q] == leaf_div(kids[q], k as int),
                    i > 0 ==> k != 0,
                    k == -1 ==> forall|q: int| 0 <= q < i ==> bounded(#[trigger] kids[q], i64::MAX as int),
                decreases polys@.len() - i,
            {
                proof {
                    lemma_kid_smaller(*p, i as int);
                }
                let child: &Poly = &polys[i];
                assert(kids[i as int] == sv(*child));
                let d = match leaves_divided_raw(child, k) {
                    Some(x) => x,
                    None => {
                        proof {
                            if k != 0 {
                                assert(!bounded(kids[i as int], i64::MAX as int));
                                assert(sv(*p)->Nested_1[i as int] == kids[i as int]);
                            }
                        }
                        return None;
                    },
                };
                let ghost before = ds@;
                ds.push(Rc::new(d));
                proof {
                    assert forall|q: int| 0 <= q < i + 1 implies ordered(#[trigger] trees(ds@)[q]) && above(trees(ds@)[q], *v)
                        && trees(ds@)[q] == leaf_div(kids[q], k as int) by {
                        if q < i {
                            assert(ds@[q] == before[q]);
                            assert(ordered(trees(before)[q]) && above(trees(before)[q], *v));
                            assert(trees(before)[q] == leaf_div(kids[q], k as int));
                        }
                    }
                }
                i = i + 1;
            }
            let r = Poly::Nested(*v, ds);
            proof {
                assert(sv_kids(ds@) =~= trees(ds@));
                assert(trees(ds@) =~= leaf_div(sv(*p), k as int)->Nested_1);
                assert(polys@.len() >= 1);
            }
            Some(r)
        },
    }
}

impl SceneUtils {
    /// The remainders of a polynomial in the basis `1, u, ..., u^(d-1)`
    /// modulo the univariate polynomial in `u` of degree `d` with
    /// coefficients `uni_coeffs` (leading `lc`): the polynomial is first
    /// multiplied by `lc^(e - d + 1)` when its degree `e` in `u` is at least
    /// `d`, then each `lc^(i - d + 1) u^i` with `i >= d` is replaced by its
    /// expression in the basis. `None` when a number would leave an `i64`.
    pub fn express_in_basis(poly: Rc<Poly>, uni_coeffs: &Vec<i64>, uni_var: u8) -> (r: Option<Vec<Rc<Poly>>>)
        requires
            2 <= uni_coeffs@.len() <= u32::MAX,
            canonical(sv(*poly)),
            degrees_fit(sv(*poly)),
        ensures
            r matches Some(ps) ==> ps@.len() <= uni_coeffs@.len() - 1 && forall|j: int| 0 <= j < ps@.len() ==> ordered(
                #[trigger] trees(ps@)[j],
            ),
            degree_in(sv(*poly), uni_var) < uni_coeffs@.len() - 1 && size(sv(*poly)) * max_abs(sv(*poly)) <= i64::MAX
                ==> (r matches Some(ps) && ps@.len() == degree_in(sv(*poly), uni_var) + 1 && (forall|j: int, env: spec_fn(u8) -> int|
                0 <= j < ps@.len() ==> #[trigger] eval(trees(ps@)[j], env) == eval(coef_tree(sv(*poly), uni_var, j), env))
                && forall|j: int| 0 <= j < ps@.len() ==> bounded(#[trigger] trees(ps@)[j], i64::MAX as int)),
    {
        let ghost pt = rc_tree(&poly);
        let ghost low = degree_in(pt, uni_var) < uni_coeffs@.len() - 1 && size(pt) * max_abs(pt)
            <= i64::MAX;
        let d: u32 = (uni_coeffs.len() - 1) as u32;
        let d_poly = poly.get_degree(uni_var);
        let lc = uni_coeffs[d as usize];
        let p0: &Poly = &poly;
        proof {
            lemma_canonical_ordered(sv(*p0));
        }
        let adjusted: Poly = if d_poly >= d {
            let multiplier = match checked_power(lc, d_poly - d + 1) {
                Some(x) => x,
                None => {
                    return None;
                },
            };
            let mut result = Poly::Constant(0);
            if !result.try_add_poly_scaled(p0, multiplier) {
                return None;
            }
            result
        } else {
            p0.copy()
        };
        proof {
            lemma_canonical_ordered(sv(adjusted));
            lemma_size_pos(sv(adjusted));
        }
        let mut u_power_coeffs: Vec<i64> = Vec::new();
        let mut z: usize = 0;
        while z < d as usize
            invariant
                d as int == uni_coeffs@.len() - 1,
                z <= d,
                u_power_coeffs@.len() == z,
            decreases d - z,
        {
            u_power_coeffs.push(uni_coeffs[z]);
            z = z + 1;
        }
        let n_adj = adjusted.node_count();
        let m_adj = adjusted.max_abs_coefficient();
        if !crate::poly_subst::product_fits(n_adj, m_adj, 1, Ghost(size(sv(adjusted)))) {
            return None;
        }
        assert(size(sv(adjusted)) * max_abs(sv(adjusted)) * 1 == size(sv(adjusted)) * max_abs(sv(adjusted)));
        let u_components = adjusted.decompose(uni_var);
        let mut projections: Vec<Rc<Poly>> = Vec::new();
        let mut i: usize = 0;
        while i < u_components.len()
            invariant
                low == (degree_in(pt, uni_var) < uni_coeffs@.len() - 1 && size(pt) * max_abs(pt)
                    <= i64::MAX),
                low ==> sv(adjusted) == pt,
                pt == rc_tree(&poly),
                u_components@.len() == degree_in(sv(adjusted), uni_var) + 1,
                forall|q: int, env: spec_fn(u8) -> int| 0 <= q < u_components@.len() ==> #[trigger] eval(
                    sv(*u_components@[q]),
                    env,
                ) == eval(coef_tree(sv(adjusted), uni_var, q), env),
                forall|q: int| 0 <= q < u_components@.len() ==> bounded(
                    sv(*#[trigger] u_components@[q]),
                    size(sv(adjusted)) * max_abs(sv(adjusted)),
                ),
                low ==> size(sv(adjusted)) * max_abs(sv(adjusted)) <= i64::MAX,
                low ==> forall|j: int| 0 <= j < projections@.len() ==> bounded(#[trigger] trees(projections@)[j], i64::MAX as int),
                low ==> projections@.len() == i && forall|j: int, env: spec_fn(u8) -> int| 0 <= j < i ==> #[trigger] eval(
                    trees(projections@)[j],
                    env,
                ) == eval(coef_tree(pt, uni_var, j), env),
                d as int == uni_coeffs@.len() - 1,
                d >= 1,
                u_power_coeffs@.len() == d,
                i <= u_components@.len(),
                forall|q: int| 0 <= q < u_components@.len() ==> ordered(sv(*#[trigger] u_components@[q])),
                projections@.len() == (if i < d { i as int } else { d as int }),
                forall|j: int| 0 <= j < projections@.len() ==> ordered(#[trigger] trees(projections@)[j]),
            decreases u_components@.len() - i,
        {
            let comp: &Rc<Poly> = &u_components[i];
            if (i as u64) < (d as u64) {
                let ghost before = projections@;
                projections.push(Rc::clone(comp));
                proof {
                    assert forall|j: int| 0 <= j < projections@.len() implies ordered(#[trigger] trees(projections@)[j]) by {
                        if j < before.len() {
                            assert(projections@[j] == before[j]);
                            assert(ordered(trees(before)[j]));
                        }
                    }
                    if low {
                        assert forall|j: int| 0 <= j < projections@.len() implies bounded(
                            #[trigger] trees(projections@)[j],
                            i64::MAX as int,
                        ) by {
                            if j < before.len() {
                                assert(projections@[j] == before[j]);
                                assert(trees(projections@)[j] == trees(before)[j]);
                            } else {
                                assert(trees(projections@)[j] == sv(*u_components@[i as int]));
                                lemma_bounded_mono(
                                    sv(*u_components@[i as int]),
                                    size(sv(adjusted)) * max_abs(sv(adjusted)),
                                    i64::MAX as int,
                                );
                            }
                        }
                        assert forall|j: int, env: spec_fn(u8) -> int| 0 <= j < i + 1 implies #[trigger] eval(
                            trees(projections@)[j],
                            env,
                        ) == eval(coef_tree(pt, uni_var, j), env) by {
                            if j < i {
                                assert(projections@[j] == before[j]);
                                assert(trees(projections@)[j] == trees(before)[j]);
                            } else {
                                assert(trees(projections@)[j] == sv(*u_components@[i as int]));
                            }
                        }
                    }
                }
            } else {
                assert(!low);
                if (i as u64) > (d as u64) {
                    let mut new_u: Vec<i64> = Vec::new();
                    let mut z: usize = 0;
                    while z < d as usize
                        invariant
                            !low,
                            low == (degree_in(pt, uni_var) < uni_coeffs@.len() - 1 && size(pt) * max_abs(pt) <= i64::MAX),
                            pt == rc_tree(&poly),
                            z <= d,
                            new_u@.len() == z,
                        decreases d - z,
                    {
                        new_u.push(0);
                        z = z + 1;
                    }
                    let mut j: usize = 0;
                    while j + 1 < d as usize
                        invariant
                            !low,
                            low == (degree_in(pt, uni_var) < uni_coeffs@.len() - 1 && size(pt) * max_abs(pt) <= i64::MAX),
                            pt == rc_tree(&poly),
                            j < d,
                            new_u@.len() == d,
                            u_power_coeffs@.len() == d,
                        decreases d - j,
                    {
                        let x = match u_power_coeffs[j].checked_mul(lc) {
                            Some(v) => v,
                            None => {
                                return None;
                            },
                        };
                        new_u.set(j + 1, x);
                        j = j + 1;
                    }
                    let top = u_power_coeffs[(d - 1) as usize];
                    let mut j: usize = 0;
                    while j < d as usize
                        invariant
                            !low,
                            low == (degree_in(pt, uni_var) < uni_coeffs@.len() - 1 && size(pt) * max_abs(pt) <= i64::MAX),
                            pt == rc_tree(&poly),
                            j <= d,
                            d as int == uni_coeffs@.len() - 1,
                            new_u@.len() == d,
                        decreases d - j,
                    {
                        let y = match top.checked_mul(uni_coeffs[j]) {
                            Some(v) => v,
                            None => {
                                return None;
                            },
                        };
                        let w = match new_u[j].checked_sub(y) {
                            Some(v) => v,
                            None => {
                                return None;
                            },
                        };
                        new_u.set(j, w);
                        j = j + 1;
                    }
                    u_power_coeffs = new_u;
                }
                if (i as u64) - (d as u64) + 1 > u32::MAX as u64 {
                    return None;
                }
                let lc_degree = match checked_power(lc, ((i as u64) - (d as u64) + 1) as u32) {
                    Some(x) => x,
                    None => {
                        return None;
                    },
                };
                let cp: &Poly = comp;
                assert(ordered(sv(*u_components@[i as int])));
                let scaled = match leaves_divided(cp, lc_degree) {
                    Some(x) => x,
                    None => {
                        return None;
                    },
                };
                proof {
                    lemma_canonical_ordered(sv(scaled));
                }
                let mut j: usize = 0;
                while j < d as usize
                    invariant
                        !low,
                        low == (degree_in(pt, uni_var) < uni_coeffs@.len() - 1 && size(pt) * max_abs(pt) <= i64::MAX),
                        pt == rc_tree(&poly),
                        j <= d,
                        d >= 1,
                        u_power_coeffs@.len() == d,
                        projections@.len() == d,
                        ordered(sv(scaled)),
                        forall|q: int| 0 <= q < projections@.len() ==> ordered(#[trigger] trees(projections@)[q]),
                    decreases d - j,
                {
                    let c = u_power_coeffs[j];
                    if c == i64::MIN {
                        return None;
                    }
                    let pj: &Poly = &projections[j];
                    assert(ordered(trees(projections@)[j as int]));
                    let mut updated = pj.copy();
                    if !updated.try_add_poly_scaled(&scaled, -c) {
                        return None;
                    }
                    proof {
                        lemma_canonical_ordered(sv(updated));
                    }
                    let ghost before = projections@;
                    projections.set(j, Rc::new(updated));
                    proof {
                        assert forall|q: int| 0 <= q < projections@.len() implies ordered(#[trigger] trees(projections@)[q]) by {
                            if q != j {
                                assert(projections@[q] == before[q]);
                                assert(ordered(trees(before)[q]));
                            }
                        }
                    }
                    j = j + 1;
                }
            }
            i = i + 1;
        }
        Some(projections)
    }
}

} // verus!

verus! {

/// Position `i` holds a projection other than the constant zero or a
/// non-zero coefficient.
pub open spec fn gap_present(ps: Seq<SPoly>, cs: Seq<i64>, i: int) -> bool {
    (i < ps.len() && ps[i] != SPoly::Constant(0)) || (i < cs.len() && cs[i] != 0)
}

/// The common divisor of the positions below `n` that are present, as
/// `remove_gaps` folds it: the first such position, then `gcd_spec` with
/// each next one; `-1` while there is none.
pub open spec fn gap_gcd_upto(ps: Seq<SPoly>, cs: Seq<i64>, n: int) -> int
    decreases n,
{
    if n <= 0 {
        -1
    } else {
        let g = gap_gcd_upto(ps, cs, n - 1);
        if gap_present(ps, cs, n - 1) {
            if g < 0 {
                n - 1
            } else {
                gcd_spec(g as nat, (n - 1) as nat) as int
            }
        } else {
            g
        }
    }
}

/// The folded divisor is below `n` once a position is present, and positive
/// once a positive position is.
pub(crate) proof fn lemma_gap_gcd_range(ps: Seq<SPoly>, cs: Seq<i64>, n: int)
    requires
        n >= 0,
    ensures
        -1 <= gap_gcd_upto(ps, cs, n) < (if n > 0 { n } else { 1 }),
        (exists|i: int| 1 <= i < n && #[trigger] gap_present(ps, cs, i)) ==> gap_gcd_upto(ps, cs, n) >= 1,
    decreases n,
{
    if n > 0 {
        lemma_gap_gcd_range(ps, cs, n - 1);
        let g = gap_gcd_upto(ps, cs, n - 1);
        if gap_present(ps, cs, n - 1) && g >= 0 {
            if n - 1 > 0 {
                lemma_gcd_le(g as nat, (n - 1) as nat);
                lemma_gcd_pos(g as nat, (n - 1) as nat);
            } else {
                assert(gcd_spec(g as nat, 0) == g);
            }
        }
        if exists|i: int| 1 <= i < n && #[trigger] gap_present(ps, cs, i) {
            if !(exists|i: int| 1 <= i < n - 1 && #[trigger] gap_present(ps, cs, i)) {
                assert(gap_present(ps, cs, n - 1) && n - 1 >= 1);
                if g >= 0 {
                    lemma_gcd_pos(g as nat, (n - 1) as nat);
                }
            }
        }
    }
}

impl SceneUtils {
    /// The entries at positions `0, step, 2 * step, ...`.
    fn every_nth_poly(v: &Vec<Rc<Poly>>, step: usize) -> (r: Vec<Rc<Poly>>)
        requires
            step >= 1,
            v@.len() + step <= usize::MAX,
        ensures
            r@.len() * step >= v@.len(),
            r@.len() > 0 ==> (r@.len() - 1) * step < v@.len(),
            forall|q: int| 0 <= q < r@.len() ==> #[trigger] trees(r@)[q] == trees(v@)[q * step],
    {
        let mut r: Vec<Rc<Poly>> = Vec::new();
        let mut k: usize = 0;
        assert(r@.len() * step == 0) by (nonlinear_arith)
            requires
                r@.len() == 0,
        ;
        while k < v.len()
            invariant
                step >= 1,
                v@.len() + step <= usize::MAX,
                k == r@.len() * step,
                k <= v@.len() + step,
                r@.len() > 0 ==> (r@.len() - 1) * step < v@.len(),
                forall|q: int| 0 <= q < r@.len() ==> #[trigger] trees(r@)[q] == trees(v@)[q * step],
            decreases v@.len() + step - k,
        {
            let ghost before = r@;
            r.push(Rc::clone(&v[k]));
            proof {
                assert forall|q: int| 0 <= q < r@.len() implies #[trigger] trees(r@)[q] == trees(v@)[q
                    * step] by {
                    if q < before.len() {
                        assert(r@[q] == before[q]);
                        assert(trees(before)[q] == trees(v@)[q * step]);
                    }
                }
                assert(r@.len() * step == before.len() * step + step) by (nonlinear_arith)
                    requires
                        r@.len() == before.len() + 1,
                ;
            }
            k = k + step;
        }
        r
    }

    /// The coefficients at positions `0, step, 2 * step, ...`.
    fn every_nth_coeff(v: &Vec<i64>, step: usize) -> (r: Vec<i64>)
        requires
            step >= 1,
            v@.len() + step <= usize::MAX,
        ensures
            r@.len() * step >= v@.len(),
            r@.len() > 0 ==> (r@.len() - 1) * step < v@.len(),
            forall|q: int| 0 <= q < r@.len() ==> #[trigger] r@[q] == v@[q * step],
    {
        let mut r: Vec<i64> = Vec::new();
        let mut k: usize = 0;
        assert(r@.len() * step == 0) by (nonlinear_arith)
            requires
                r@.len() == 0,
        ;
        while k < v.len()
            invariant
                step >= 1,
                v@.len() + step <= usize::MAX,
                k == r@.len() * step,
                k <= v@.len() + step,
                r@.len() > 0 ==> (r@.len() - 1) * step < v@.len(),
            forall|q: int| 0 <= q < r@.len() ==> #[trigger] r@[q] == v@[q * step],
            decreases v@.len() + step - k,
        {
            let ghost before = r@;
            r.push(v[k]);
            proof {
                assert forall|q: int| 0 <= q < r@.len() implies #[trigger] r@[q] == v@[q * step] by {
                    if q < before.len() {
                        assert(r@[q] == before[q]);
                    }
                }
                assert(r@.len() * step == before.len() * step + step) by (nonlinear_arith)
                    requires
                        r@.len() == before.len() + 1,
                ;
            }
            k = k + step;
        }
        r
    }
}

impl SceneUtils {
    /// When the positions that hold a projection other than zero or a
    /// non-zero coefficient have a common divisor `g` above one (see
    /// `gap_gcd_upto`), keeps only the positions that are multiples of `g`
    /// in both lists; otherwise returns them as they are.
    pub fn remove_gaps(projections: Vec<Rc<Poly>>, uni_coeffs: &Vec<i64>) -> (r: (Vec<Rc<Poly>>, Vec<i64>))
        requires
            projections@.len() <= usize::MAX / 2,
            uni_coeffs@.len() <= usize::MAX / 2,
            exists|i: int| 1 <= i < uni_coeffs@.len() && #[trigger] uni_coeffs@[i] != 0,
        ensures
            ({
                let ps = trees(projections@);
                let cs = uni_coeffs@;
                let n = if ps.len() >= cs.len() { ps.len() as int } else { cs.len() as int };
                let g = gap_gcd_upto(ps, cs, n);
                &&& g >= 1
                &&& g == 1 ==> r.0@ == projections@ && r.1@ == cs
                &&& g > 1 ==> {
                    &&& r.0@.len() * g >= ps.len()
                    &&& r.0@.len() > 0 ==> (r.0@.len() - 1) * g < ps.len()
                    &&& forall|k: int| 0 <= k < r.0@.len() ==> #[trigger] trees(r.0@)[k] == ps[k * g]
                    &&& r.1@.len() * g >= cs.len()
                    &&& r.1@.len() > 0 ==> (r.1@.len() - 1) * g < cs.len()
                    &&& forall|k: int| 0 <= k < r.1@.len() ==> #[trigger] r.1@[k] == cs[k * g]
                }
            }),
    {
        let ghost ps = trees(projections@);
        let ghost cs = uni_coeffs@;
        let lp = projections.len();
        let lc = uni_coeffs.len();
        let max_len = if lp >= lc { lp } else { lc };
        let mut g: i64 = -1;
        let mut i: usize = 0;
        while i < max_len
            invariant
                ps == trees(projections@),
                cs == uni_coeffs@,
                lp == ps.len(),
                lc == cs.len(),
                max_len == (if lp >= lc { lp } else { lc }),
                max_len <= usize::MAX / 2,
                i <= max_len,
                g as int == gap_gcd_upto(ps, cs, i as int),
            decreases max_len - i,
        {
            proof {
                lemma_gap_gcd_range(ps, cs, i as int);
            }
            let p_non_empty = if i < lp {
                let pi: &Poly = &projections[i];
                assert(ps[i as int] == sv(*pi));
                match pi {
                    Poly::Constant(c) => *c != 0,
                    Poly::Nested(_, _) => true,
                }
            } else {
                false
            };
            let c_non_zero = i < lc && uni_coeffs[i] != 0;
            if p_non_empty || c_non_zero {
                if g < 0 {
                    g = i as i64;
                } else {
                    let d = crate::poly_ops::gcd_u64(g as u64, i as u64);
                    proof {
                        lemma_gcd_le(g as nat, i as nat);
                    }
                    g = d as i64;
                }
            }
            i = i + 1;
        }
        proof {
            lemma_gap_gcd_range(ps, cs, max_len as int);
            let w = choose|w: int| 1 <= w < cs.len() && #[trigger] cs[w] != 0;
            assert(gap_present(ps, cs, w));
        }
        if g == 1 {
            let cc = copy_i64_row(uni_coeffs);
            return (projections, cc);
        }
        let step = g as usize;
        let new_projections = Self::every_nth_poly(&projections, step);
        let new_coeffs = Self::every_nth_coeff(uni_coeffs, step);
        (new_projections, new_coeffs)
    }
}

} // verus!
