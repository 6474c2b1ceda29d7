//! Elimination of a variable that a univariate polynomial fixes: the
//! projections of a polynomial on the basis `1, u, ..., u^(d-1)` are
//! reduced against the univariate polynomial and the determinant of what is
//! left is the eliminant.

use vstd::prelude::*;
use std::rc::Rc;
use crate::poly::{Poly, sv};
use crate::spoly::{SPoly, ordered, canonical, cleaned, lemma_canonical_ordered, lemma_cleaned_canonical};
use crate::poly_ops::{trees, degrees_fit, leaf_div, no_min_coeff, lemma_coeffs_bounded, degree_in};
use crate::spoly::{size, max_abs};
use crate::spoly::{bounded, lemma_cleaned_bounded};
use crate::scene_utils::lemma_leaf_div_bounded;
use crate::poly_subst::{min_coeff_free, lemma_leaf_div_shape};
use crate::scene_utils::{SceneUtils, matrix_view, rows_ok, common_gcd_upto, shifted, square_enough, entries_ordered};

verus! {

/// What `reduce_by_common_gcd` makes of a row: with `g` the common divisor
/// of its constants, the row itself when `g` is 0 or 1, else each entry
/// divided by `g` and brought to normal form.
pub open spec fn row_reduced(a: Seq<SPoly>, b: Seq<SPoly>) -> bool {
    let g = common_gcd_upto(a, a.len() as int);
    if g == 0 || g == 1 {
        b == a
    } else {
        b.len() == a.len() && forall|j: int| 0 <= j < b.len() ==> #[trigger] b[j] == cleaned(leaf_div(a[j], g))
    }
}

/// A copy of a row of shared polynomials.
fn copy_row(v: &Vec<Rc<Poly>>) -> (r: Vec<Rc<Poly>>)
    ensures
        r@ == v@,
{
    let mut r: Vec<Rc<Poly>> = Vec::new();
    let mut i: usize = 0;
    while i < v.len()
        invariant
            i <= v@.len(),
            r@ == v@.take(i as int),
        decreases v@.len() - i,
    {
        r.push(Rc::clone(&v[i]));
        assert(v@.take(i as int + 1) =~= v@.take(i as int).push(v@[i as int]));
        i = i + 1;
    }
    assert(v@.take(i as int) =~= v@);
    r
}

/// The first `rows` rows of a matrix of numbers, each cut to its first
/// `cols` entries.
fn leading_block(m: &Vec<Vec<i64>>, rows: usize, cols: usize) -> (r: Vec<Vec<i64>>)
    requires
        rows <= m@.len(),
        forall|i: int| 0 <= i < rows ==> (#[trigger] m@[i])@.len() >= cols,
    ensures
        r@.len() == rows,
        forall|i: int| 0 <= i < rows ==> (#[trigger] r@[i])@.len() == cols,
        forall|i: int, k: int| 0 <= i < rows && 0 <= k < cols ==> #[trigger] r@[i]@[k] == m@[i]@[k],
{
    let mut r: Vec<Vec<i64>> = Vec::new();
    let mut i: usize = 0;
    while i < rows
        invariant
            i <= rows,
            rows <= m@.len(),
            forall|a: int| 0 <= a < rows ==> (#[trigger] m@[a])@.len() >= cols,
            r@.len() == i,
            forall|a: int| 0 <= a < i ==> (#[trigger] r@[a])@.len() == cols,
            forall|a: int, k: int| 0 <= a < i && 0 <= k < cols ==> #[trigger] r@[a]@[k] == m@[a]@[k],
        decreases rows - i,
    {
        let src: &Vec<i64> = &m[i];
        let mut row: Vec<i64> = Vec::new();
        let mut k: usize = 0;
        while k < cols
            invariant
                k <= cols,
                src@.len() >= cols,
                row@.len() == k,
                forall|q: int| 0 <= q < k ==> #[trigger] row@[q] == src@[q],
            decreases cols - k,
        {
            row.push(src[k]);
            k = k + 1;
        }
        let ghost before = r@;
        r.push(row);
        proof {
            assert forall|a: int, k: int| 0 <= a < i + 1 && 0 <= k < cols implies #[trigger] r@[a]@[k] == m@[a]@[k] by {
                if a < i {
                    assert(r@[a] == before[a]);
                }
            }
        }
        i = i + 1;
    }
    r
}

impl SceneUtils {
    /// Each row divided by the common divisor of its constants (see
    /// `row_reduced`); `None` when some constant is `i64::MIN`.
    fn reduce_rows(m: Vec<Vec<Rc<Poly>>>, len: usize) -> (r: Option<Vec<Vec<Rc<Poly>>>>)
        requires
            rows_ok(m@, len as int),
        ensures
            match r {
                Some(n) => n@.len() == m@.len() && rows_ok(n@, len as int) && forall|i: int|
                    0 <= i < m@.len() ==> row_reduced(#[trigger] matrix_view(m@)[i], matrix_view(n@)[i]),
                None => exists|i: int, j: int|
                    0 <= i < m@.len() && 0 <= j < len && !no_min_coeff(#[trigger] matrix_view(m@)[i][j]),
            },
    {
        let mut out: Vec<Vec<Rc<Poly>>> = Vec::new();
        let mut i: usize = 0;
        while i < m.len()
            invariant
                rows_ok(m@, len as int),
                i <= m@.len(),
                out@.len() == i,
                rows_ok(out@, len as int),
                forall|a: int| 0 <= a < i ==> row_reduced(#[trigger] matrix_view(m@)[a], matrix_view(out@)[a]),
            decreases m@.len() - i,
        {
            let mut row = copy_row(&m[i]);
            assert(row@.len() == len);
            assert(trees(row@) == matrix_view(m@)[i as int]);
            let mut j: usize = 0;
            while j < row.len()
                invariant
                    j <= row@.len(),
                    i < m@.len(),
                    row@ == m@[i as int]@,
                    row@.len() == len,
                    forall|q: int| 0 <= q < j ==> no_min_coeff(#[trigger] trees(row@)[q]),
                decreases row@.len() - j,
            {
                if !min_coeff_free(&row[j]) {
                    proof {
                        assert(trees(row@)[j as int] == sv(*row@[j as int]));
                        assert(matrix_view(m@)[i as int] == trees(m@[i as int]@));
                        assert(!no_min_coeff(matrix_view(m@)[i as int][j as int]));
                    }
                    return None;
                }
                j = j + 1;
            }
            let ghost old_row = row@;
            Self::reduce_by_common_gcd(&mut row);
            proof {
                let a = trees(old_row);
                assert(a == matrix_view(m@)[i as int]);
                let g = common_gcd_upto(a, a.len() as int);
                if g == 0 || g == 1 {
                    assert(trees(row@) == a);
                } else {
                    assert forall|q: int| 0 <= q < trees(row@).len() implies #[trigger] trees(row@)[q] == cleaned(
                        leaf_div(a[q], g),
                    ) by {}
                }
                assert(row_reduced(a, trees(row@)));
                assert forall|q: int| 0 <= q < len implies ordered(#[trigger] trees(row@)[q]) by {
                    assert(ordered(matrix_view(m@)[i as int][q]));
                    if !(g == 0 || g == 1) {
                        lemma_leaf_div_shape(a[q], g);
                        lemma_cleaned_canonical(leaf_div(a[q], g));
                        lemma_canonical_ordered(cleaned(leaf_div(a[q], g)));
                    }
                }
            }
            let ghost before = out@;
            out.push(row);
            proof {
                assert(matrix_view(out@)[i as int] == trees(row@));
                assert forall|a: int| 0 <= a < i + 1 implies row_reduced(
                    #[trigger] matrix_view(m@)[a],
                    matrix_view(out@)[a],
                ) by {
                    if a < i {
                        assert(out@[a] == before[a]);
                        assert(matrix_view(out@)[a] == matrix_view(before)[a]);
                    }
                }
                assert forall|a: int, b: int| 0 <= a < out@.len() && 0 <= b < len implies ordered(
                    #[trigger] matrix_view(out@)[a][b],
                ) by {
                    if a < i {
                        assert(out@[a] == before[a]);
                        assert(matrix_view(out@)[a] == matrix_view(before)[a]);
                    }
                }
                assert forall|a: int| 0 <= a < out@.len() implies (#[trigger] out@[a])@.len() == len by {
                    if a < i {
                        assert(out@[a] == before[a]);
                    }
                }
            }
            i = i + 1;
        }
        Some(out)
    }
}

impl SceneUtils {
    /// The eliminant of the projections of a polynomial on `1, u, ...,
    /// u^(d-1)` (`d` the number of projections) and the univariate
    /// polynomial with coefficients `uni_coeffs`: the matrix of shifted
    /// coefficients and the matrix of shifted projections are reduced by
    /// `gauss_elimination`, the rows, then the columns, of what is left are
    /// divided by their common divisors, and the determinant comes back.
    /// `None` when the elimination meets a row without a pivot, when a
    /// constant is `i64::MIN` at a division, or when a number would leave an
    /// `i64`.
    pub fn reduce_using_projections(projections: Vec<Rc<Poly>>, uni_coeffs: Vec<i64>) -> (r: Option<Rc<Poly>>)
        requires
            1 <= projections@.len(),
            projections@.len() + 1 <= uni_coeffs@.len() <= usize::MAX / 4,
            forall|j: int| 0 <= j < projections@.len() ==> ordered(#[trigger] trees(projections@)[j]),
        ensures
            r matches Some(p) ==> ordered(sv(*p)),
            projections@.len() == 1 && bounded(trees(projections@)[0], i64::MAX as int) ==> r is Some,
    {
        let ghost one = projections@.len() == 1 && bounded(trees(projections@)[0], i64::MAX as int);
        let d = projections.len();
        let size = 2 * d - 1;
        let full = Self::get_i_matrix(&uni_coeffs);
        let mut i_matrix = leading_block(&full, d - 1, size);
        let mut p_matrix = Self::get_p_matrix(&projections);
        proof {
            assert forall|i: int, k: int| 0 <= i < p_matrix@.len() && 0 <= k < size implies ordered(
                #[trigger] matrix_view(p_matrix@)[i][k],
            ) by {
                assert(p_matrix@[i]@.len() == size);
                if i <= k < i + trees(projections@).len() {
                    assert(ordered(trees(projections@)[k - i]));
                }
            }
        }
        let ghost p0 = matrix_view(p_matrix@)[0][0];
        proof {
            if one {
                assert(p0 == shifted(trees(projections@), 0, 0, SPoly::Constant(0)));
                assert(p0 == trees(projections@)[0]);
            }
        }
        let reduced = match Self::gauss_elimination(&mut i_matrix, &mut p_matrix) {
            Some(m) => m,
            None => {
                return None;
            },
        };
        if reduced.len() == 0 {
            return None;
        }
        proof {
            if one {
                assert(matrix_view(reduced@)[0][0] == p0);
                lemma_coeffs_bounded(p0, i64::MAX as int);
                assert(no_min_coeff(p0));
            }
        }
        let ghost reduced_view = matrix_view(reduced@);
        let rows = match Self::reduce_rows(reduced, d) {
            Some(m) => m,
            None => {
                return None;
            },
        };
        proof {
            if one {
                let a = reduced_view[0];
                let b = matrix_view(rows@)[0];
                assert(row_reduced(a, b));
                let g = common_gcd_upto(a, a.len() as int);
                if g != 0 && g != 1 {
                    assert(b[0] == cleaned(leaf_div(a[0], g)));
                    lemma_leaf_div_bounded(a[0], g, i64::MAX as int);
                    lemma_cleaned_bounded(leaf_div(a[0], g), i64::MAX as int);
                }
                assert(bounded(b[0], i64::MAX as int));
            }
        }
        proof {
            assert(rows@[0]@.len() == d);
        }
        let columns = Self::transpose_matrix(&rows);
        proof {
            assert forall|j: int, i: int| 0 <= j < columns@.len() && 0 <= i < d implies ordered(
                #[trigger] matrix_view(columns@)[j][i],
            ) by {
                assert(matrix_view(columns@)[j][i] == matrix_view(rows@)[i][j]);
            }
        }
        proof {
            if one {
                assert(matrix_view(columns@)[0][0] == matrix_view(rows@)[0][0]);
                lemma_coeffs_bounded(matrix_view(columns@)[0][0], i64::MAX as int);
                assert(no_min_coeff(matrix_view(columns@)[0][0]));
            }
        }
        let square = match Self::reduce_rows(columns, d) {
            Some(m) => m,
            None => {
                return None;
            },
        };
        proof {
            assert forall|i: int| 0 <= i < square@.len() implies (#[trigger] square@[i])@.len() >= square@.len() by {}
            assert forall|i: int, j: int| 0 <= i < square@.len() && 0 <= j < square@[i]@.len() implies ordered(
                #[trigger] matrix_view(square@)[i][j],
            ) by {}
        }
        Self::compute_determinant_poly(&square)
    }
}

/// The coefficient that `eliminate_univariate` reads at a place of a
/// univariate polynomial: the constant there, 0 where something else stands.
pub open spec fn uni_coeff(c: SPoly) -> int {
    match c {
        SPoly::Constant(v) => v,
        SPoly::Nested(_, _) => 0,
    }
}

impl SceneUtils {
    /// Eliminates `u = uni_var` between a polynomial and a univariate
    /// polynomial in `u` of degree at least one: the coefficients of the
    /// univariate polynomial are read (see `uni_coeff`), the polynomial is
    /// expressed in the basis `1, u, ..., u^(d-1)` (`express_in_basis`),
    /// the gaps are removed (`remove_gaps`) and the projections are reduced
    /// (`reduce_using_projections`). `None` when a step returns `None`.
    pub fn eliminate_univariate(poly: Rc<Poly>, uni_poly: Rc<Poly>, uni_var: u8) -> (r: Option<Rc<Poly>>)
        requires
            canonical(sv(*poly)),
            degrees_fit(sv(*poly)),
            sv(*uni_poly) is Nested,
            2 <= sv(*uni_poly)->Nested_1.len() <= u32::MAX,
            sv(*uni_poly)->Nested_1.len() <= usize::MAX / 4,
            uni_coeff(sv(*uni_poly)->Nested_1.last()) != 0,
        ensures
            r matches Some(p) ==> ordered(sv(*p)),
            degree_in(sv(*poly), uni_var) == 0 && size(sv(*poly)) * max_abs(sv(*poly)) <= i64::MAX ==> r is Some,
    {
        let ghost pt = crate::poly_struct::rc_tree(&poly);
        let ghost free = degree_in(pt, uni_var) == 0 && size(pt) * max_abs(pt) <= i64::MAX;
        let up: &Poly = &uni_poly;
        let kids: &Vec<Rc<Poly>> = match up {
            Poly::Nested(_, cs) => cs,
            Poly::Constant(_) => {
                return None;
            },
        };
        let ghost ks = sv(*up)->Nested_1;
        assert(ks == crate::poly::sv_kids(kids@));
        let mut uni_coeffs: Vec<i64> = Vec::new();
        let mut i: usize = 0;
        while i < kids.len()
            invariant
                ks == crate::poly::sv_kids(kids@),
                i <= kids@.len(),
                uni_coeffs@.len() == i,
                forall|q: int| 0 <= q < i ==> #[trigger] uni_coeffs@[q] == uni_coeff(ks[q]),
            decreases kids@.len() - i,
        {
            let k: &Poly = &kids[i];
            assert(ks[i as int] == sv(*k));
            let v: i64 = match k {
                Poly::Constant(c) => *c,
                Poly::Nested(_, _) => 0,
            };
            uni_coeffs.push(v);
            i = i + 1;
        }
        let n = uni_coeffs.len();
        assert(uni_coeffs@[n - 1] != 0);
        let projections = match Self::express_in_basis(poly, &uni_coeffs, uni_var) {
            Some(ps) => ps,
            None => {
                return None;
            },
        };
        let ghost ps = trees(projections@);
        let (p2, c2) = Self::remove_gaps(projections, &uni_coeffs);
        proof {
            if free {
                let cs = uni_coeffs@;
                assert(ps.len() == 1);
                let nn = if ps.len() >= cs.len() { ps.len() as int } else { cs.len() as int };
                assert(nn == cs.len());
                let g = crate::scene_utils::gap_gcd_upto(ps, cs, nn);
                crate::scene_utils::lemma_gap_gcd_range(ps, cs, nn);
                if g > 1 {
                    let l = p2@.len() as int;
                    assert(l >= 1) by (nonlinear_arith)
                        requires
                            l * g >= 1,
                            g > 1,
                            l >= 0,
                    ;
                    assert(l == 1) by (nonlinear_arith)
                        requires
                            (l - 1) * g < 1,
                            g > 1,
                            l >= 1,
                    ;
                    let m = c2@.len() as int;
                    assert(m >= 2) by (nonlinear_arith)
                        requires
                            m * g >= cs.len(),
                            g < cs.len(),
                            g > 1,
                            m >= 0,
                    ;
                    assert(m <= cs.len()) by (nonlinear_arith)
                        requires
                            m > 0 ==> (m - 1) * g < cs.len(),
                            g > 1,
                            m >= 0,
                    ;
                    assert(trees(p2@)[0] == ps[0 * g]);
                }
                assert(trees(p2@)[0] == ps[0]);
            }
        }
        if p2.len() == 0 || p2.len() >= c2.len() || c2.len() > usize::MAX / 4 {
            return None;
        }
        proof {
            let cs = uni_coeffs@;
            let nn = if ps.len() >= cs.len() { ps.len() as int } else { cs.len() as int };
            let g = crate::scene_utils::gap_gcd_upto(ps, cs, nn);
            assert forall|k: int| 0 <= k < p2@.len() implies ordered(#[trigger] trees(p2@)[k]) by {
                if g == 1 {
                    assert(trees(p2@) == ps);
                } else {
                    let l = p2@.len() as int;
                    assert(k * g <= (l - 1) * g) by (nonlinear_arith)
                        requires
                            0 <= k <= l - 1,
                            g >= 1,
                    ;
                    assert(0 <= k * g) by (nonlinear_arith)
                        requires
                            0 <= k,
                            g >= 1,
                    ;
                    assert(trees(p2@)[k] == ps[k * g]);
                    assert(ordered(ps[k * g]));
                }
            }
        }
        Self::reduce_using_projections(p2, c2)
    }
}

} // verus!
