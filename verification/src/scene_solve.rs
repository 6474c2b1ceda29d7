//! Reducing a system of equations to the curve of two variables: the
//! variables that a univariate equation fixes are eliminated first, the
//! rest one at a time by `Elimination`, and the factors of what is left
//! are kept when they vanish on the curve.

use vstd::prelude::*;
use std::rc::Rc;
use crate::poly::{Poly, sv};
use crate::spoly::{SPoly, canonical, cleaned, ordered, lemma_cleaned_canonical};
use crate::poly_ops::{trees, degrees_fit, coeffs_of, gcd_upto, max_abs_upto, leaf_div, has_var_spec, mentions, no_min_coeff};
use crate::poly_expr::overflow_message;
use crate::elimination::{Elimination, system_ok, overflow_text, message_of, degree_message, only_xy, confirmed_with};
use crate::modular_poly::ModularPoly;
use crate::scene_factors::poly_trees;
use crate::spoly::{bounded, eval};
use crate::vanishing::{common_zero, lemma_reduction_keeps_zero};
use crate::text::{decimal, push_decimal, push_char, push_str};
use crate::poly_subst::{min_coeff_free, lemma_leaf_div_shape};
use crate::spoly::lemma_canonical_ordered;
use crate::scene_utils::SceneUtils;
use crate::scene_reduce::uni_coeff;

verus! {

/// A polynomial in one variable: a node whose coefficients are all constants.
pub open spec fn univariate_spec(s: SPoly) -> bool {
    match s {
        SPoly::Constant(_) => false,
        SPoly::Nested(_, cs) => forall|i: int| 0 <= i < cs.len() ==> (#[trigger] cs[i]) is Constant,
    }
}

/// A univariate polynomial in a variable other than `x` and `y`.
pub open spec fn fixes_other_var(s: SPoly, x: u8, y: u8) -> bool {
    univariate_spec(s) && s->Nested_0 != x && s->Nested_0 != y
}

impl Poly {
    /// Whether the polynomial is a node whose coefficients are all constants
    /// (see `univariate_spec`).
    pub fn is_univariate(&self) -> (r: bool)
        ensures
            r == univariate_spec(sv(*self)),
    {
        match self {
            Poly::Constant(_) => false,
            Poly::Nested(_, cs) => {
                let ghost ks = sv(*self)->Nested_1;
                let mut i: usize = 0;
                while i < cs.len()
                    invariant
                        ks == crate::poly::sv_kids(cs@),
                        sv(*self) == SPoly::Nested(sv(*self)->Nested_0, ks),
                        i <= cs@.len(),
                        forall|q: int| 0 <= q < i ==> (#[trigger] ks[q]) is Constant,
                    decreases cs@.len() - i,
                {
                    let k: &Poly = &cs[i];
                    assert(ks[i as int] == sv(*k));
                    match k {
                        Poly::Constant(_) => {},
                        Poly::Nested(_, _) => {
                            assert(!(ks[i as int] is Constant));
                            return false;
                        },
                    }
                    i = i + 1;
                }
                true
            },
        }
    }
}

/// Some prime and some polynomials for `x` and `y` confirm the factor (see
/// `check_factor_with`).
pub open spec fn confirmed(e: Elimination, factor: SPoly) -> bool {
    exists|p: u64, xp: ModularPoly, yp: ModularPoly| #[trigger] confirmed_with(e, factor, p, xp, yp)
}

impl SceneUtils {
    /// While some polynomial is univariate in a variable other than `x_var`
    /// and `y_var`, that polynomial is taken out and the variable is
    /// eliminated from each other polynomial that has it
    /// (`eliminate_univariate`, the result brought to normal form); the
    /// others stay. An error when a number would leave an `i64`.
    pub fn eliminate_univariate_vars(polys: Vec<Rc<Poly>>, x_var: u8, y_var: u8) -> (r: Result<Vec<Rc<Poly>>, String>)
        requires
            system_ok(polys@),
        ensures
            match r {
                Ok(ps) => system_ok(ps@) && forall|i: int|
                    0 <= i < ps@.len() ==> !fixes_other_var(#[trigger] trees(ps@)[i], x_var, y_var),
                Err(m) => m@ == overflow_message(),
            },
            (forall|i: int| 0 <= i < polys@.len() ==> !fixes_other_var(#[trigger] trees(polys@)[i], x_var, y_var))
                ==> (r matches Ok(ps) && ps@ == polys@),
            r matches Ok(ps) ==> ps@.len() <= polys@.len(),
            (exists|i: int| 0 <= i < polys@.len() && fixes_other_var(#[trigger] trees(polys@)[i], x_var, y_var))
                ==> (r matches Ok(ps) ==> ps@.len() < polys@.len()),
    {
        let ghost orig = polys@;
        let mut system = polys;
        loop
            invariant
                system_ok(system@),
                orig == polys@,
                system@.len() <= orig.len(),
                (forall|i: int| 0 <= i < orig.len() ==> !fixes_other_var(#[trigger] trees(orig)[i], x_var, y_var))
                    ==> system@ == orig,
                (exists|i: int| 0 <= i < orig.len() && fixes_other_var(#[trigger] trees(orig)[i], x_var, y_var))
                    ==> system@ == orig || system@.len() < orig.len(),
            decreases system@.len(),
        {
            let mut found: usize = system.len();
            let mut i: usize = 0;
            while i < system.len()
                invariant_except_break
                    found == system@.len(),
                invariant
                    i <= system@.len(),
                    forall|q: int| 0 <= q < i ==> !fixes_other_var(#[trigger] trees(system@)[q], x_var, y_var),
                    orig == polys@,
                    system@.len() <= orig.len(),
                    (forall|i: int| 0 <= i < orig.len() ==> !fixes_other_var(#[trigger] trees(orig)[i], x_var, y_var))
                        ==> system@ == orig,
                    (exists|i: int| 0 <= i < orig.len() && fixes_other_var(#[trigger] trees(orig)[i], x_var, y_var))
                        ==> system@ == orig || system@.len() < orig.len(),
                ensures
                    found <= system@.len(),
                    found == system@.len() ==> forall|q: int|
                        0 <= q < system@.len() ==> !fixes_other_var(#[trigger] trees(system@)[q], x_var, y_var),
                    found < system@.len() ==> fixes_other_var(trees(system@)[found as int], x_var, y_var),
                decreases system@.len() - i,
            {
                let p: &Poly = &system[i];
                assert(trees(system@)[i as int] == sv(*p));
                if p.is_univariate() {
                    match p {
                        Poly::Nested(v, _) => {
                            if *v != x_var && *v != y_var {
                                found = i;
                                break;
                            }
                        },
                        Poly::Constant(_) => {},
                    }
                }
                i = i + 1;
            }
            if found == system.len() {
                return Ok(system);
            }
            let uni: Rc<Poly> = Rc::clone(&system[found]);
            let ghost us = crate::poly_struct::rc_tree(&uni);
            assert(us == trees(system@)[found as int]);
            assert(fixes_other_var(us, x_var, y_var));
            proof {
                if system@ == orig {
                    assert(fixes_other_var(trees(orig)[found as int], x_var, y_var));
                }
            }
            let (uni_var, n_kids) = match &*uni {
                Poly::Nested(v, cs) => (*v, cs.len()),
                Poly::Constant(_) => {
                    return Err(overflow_text());
                },
            };
            if n_kids > usize::MAX / 4 {
                return Err(overflow_text());
            }
            proof {
                let ks = us->Nested_1;
                assert(ks.len() == n_kids);
                assert(canonical(us) && degrees_fit(us));
                assert(ks.last() is Constant);
                assert(ks.last() != SPoly::Constant(0));
                assert(uni_coeff(ks.last()) != 0);
            }
            let mut new_polys: Vec<Rc<Poly>> = Vec::new();
            let mut j: usize = 0;
            while j < system.len()
                invariant
                    system_ok(system@),
                    (found as int) < system@.len(),
                    j <= system@.len(),
                    new_polys@.len() <= j,
                    new_polys@.len() <= (if j > found { j - 1 } else { j as int }),
                    system_ok(new_polys@),
                    us == sv(*uni),
                    us is Nested,
                    us->Nested_0 == uni_var,
                    2 <= us->Nested_1.len() <= u32::MAX,
                    us->Nested_1.len() <= usize::MAX / 4,
                    uni_coeff(us->Nested_1.last()) != 0,
                    orig == polys@,
                    system@.len() <= orig.len(),
                    !(forall|i: int| 0 <= i < orig.len() ==> !fixes_other_var(#[trigger] trees(orig)[i], x_var, y_var)),
                    exists|i: int| 0 <= i < orig.len() && fixes_other_var(#[trigger] trees(orig)[i], x_var, y_var),
                decreases system@.len() - j,
            {
                if j != found {
                    let p: &Rc<Poly> = &system[j];
                    assert(trees(system@)[j as int] == sv(**p));
                    let ghost before = new_polys@;
                    if p.get_degree(uni_var) > 0 {
                        let e = match Self::eliminate_univariate(Rc::clone(p), Rc::clone(&uni), uni_var) {
                            Some(e) => e,
                            None => {
                                return Err(overflow_text());
                            },
                        };
                        let mut q = e.copy();
                        q.cleanup();
                        proof {
                            lemma_cleaned_canonical(crate::poly_struct::rc_tree(&e));
                        }
                        if !q.degrees_ok() {
                            return Err(overflow_text());
                        }
                        new_polys.push(Rc::new(q));
                    } else {
                        new_polys.push(Rc::clone(p));
                    }
                    proof {
                        assert forall|q: int| 0 <= q < new_polys@.len() implies canonical(
                            #[trigger] trees(new_polys@)[q],
                        ) && degrees_fit(trees(new_polys@)[q]) by {
                            if q < before.len() {
                                assert(new_polys@[q] == before[q]);
                                assert(trees(new_polys@)[q] == trees(before)[q]);
                            }
                        }
                    }
                }
                j = j + 1;
            }
            system = new_polys;
        }
    }
}

/// What `reduce_coefficients_if_above(threshold)` makes of a tree: the
/// tree divided by the common divisor of its constants and brought to
/// normal form when its largest constant is above `threshold` and that
/// divisor is not 1; the tree itself otherwise.
pub open spec fn reduced_above(t: SPoly, threshold: int) -> SPoly {
    let cs = coeffs_of(t);
    let g = gcd_upto(cs, cs.len() as int).0;
    if max_abs_upto(cs, cs.len() as int) <= threshold || g == 1 {
        t
    } else {
        cleaned(leaf_div(t, g as int))
    }
}

/// Reducing a canonical tree keeps it canonical.
proof fn lemma_reduced_above_canonical(t: SPoly, threshold: int)
    requires
        canonical(t),
    ensures
        canonical(reduced_above(t, threshold)),
{
    lemma_canonical_ordered(t);
    let cs = coeffs_of(t);
    let g = gcd_upto(cs, cs.len() as int).0;
    lemma_leaf_div_shape(t, g as int);
    lemma_cleaned_canonical(leaf_div(t, g as int));
}

/// The message when an elimination leaves other than one equation.
pub open spec fn count_message(n: nat) -> Seq<char> {
    "Expected exactly one equation after elimination, got "@ + decimal(n)
}

/// The letter that names variable `v` in the message for an equation left
/// with a variable other than `x` and `y`.
pub open spec fn var_letter(v: int) -> char {
    (((v + 97) % 256) as u8) as char
}

/// The message when the equation left has variable `v` besides `x` and `y`.
pub open spec fn extra_var_message(v: int) -> Seq<char> {
    "Remaining equation depends on variable "@.push(var_letter(v))
}

/// The message when the variable to eliminate occurs in one equation only.
pub open spec fn lone_var_message() -> Seq<char> {
    "The variable to eliminate occurs in one equation only"@
}

/// Whether a polynomial other than the one at `idx` has variable `v`.
fn other_has_var(polys: &Vec<Rc<Poly>>, idx: usize, v: u8) -> (r: bool)
    ensures
        r == exists|i: int| 0 <= i < polys@.len() && i != idx && has_var_spec(#[trigger] trees(polys@)[i], v),
{
    let mut i: usize = 0;
    while i < polys.len()
        invariant
            i <= polys@.len(),
            forall|q: int| 0 <= q < i && q != idx ==> !has_var_spec(#[trigger] trees(polys@)[q], v),
        decreases polys@.len() - i,
    {
        let p: &Poly = &polys[i];
        assert(trees(polys@)[i as int] == sv(*p));
        if i != idx && p.has_var(v) {
            return true;
        }
        i = i + 1;
    }
    false
}

impl SceneUtils {
    /// Reduces a system to one equation in `x_var` and `y_var`: the
    /// variables that univariate equations fix are eliminated
    /// (`eliminate_univariate_vars`), then the others one at a time by an
    /// `Elimination`, each time the one `get_var_to_eliminate` picks. The
    /// equation left, reduced by the common divisor of its constants when
    /// one of them is above 1 (see `reduced_above`), comes back with the
    /// elimination that traced it. An error when more or fewer than one
    /// equation is left (`count_message`), when it has another variable
    /// (`extra_var_message`, for the least such), when the variable to
    /// eliminate occurs in one equation only, or when an elimination step
    /// fails.
    pub fn eliminate_system(polys: Vec<Rc<Poly>>, x_var: u8, y_var: u8) -> (r: Result<(Elimination, Poly), String>)
        requires
            system_ok(polys@),
        ensures
            match r {
                Ok((e, p)) => {
                    &&& e.polys@.len() == 1
                    &&& e.x_var == x_var
                    &&& e.y_var == y_var
                    &&& e.steps_wf()
                    &&& system_ok(e.polys@)
                    &&& forall|u: int| 0 <= u < 256 && u != x_var && u != y_var ==> !#[trigger] mentions(
                        trees(e.polys@)[0],
                        u,
                    )
                    &&& sv(p) == reduced_above(trees(e.polys@)[0], 1)
                    &&& canonical(sv(p))
                    &&& forall|env: spec_fn(u8) -> int| #[trigger] common_zero(trees(e.initial_polys@), env) ==> eval(
                        sv(p),
                        env,
                    ) == 0
                    &&& ((forall|i: int| 0 <= i < polys@.len() ==> !fixes_other_var(#[trigger] trees(polys@)[i], x_var, y_var))
                        ==> e.initial_polys@ == polys@)
                },
                Err(m) => {
                    ||| m@ == overflow_message()
                    ||| m@ == degree_message()
                    ||| m@ == lone_var_message()
                    ||| exists|n: nat| m@ == count_message(n) && n != 1
                    ||| exists|u: int| 0 <= u < 256 && u != x_var && u != y_var && m@ == extra_var_message(u)
                },
            },
    {
        let ghost orig = polys@;
        let reduced = Self::eliminate_univariate_vars(polys, x_var, y_var)?;
        let mut elimination = Elimination::new(&reduced, x_var, y_var);
        proof {
            assert forall|env: spec_fn(u8) -> int| #[trigger] common_zero(trees(elimination.initial_polys@), env) implies common_zero(
                trees(elimination.polys@),
                env,
            ) by {}
        }
        loop
            invariant
                system_ok(elimination.polys@),
                elimination.x_var == x_var,
                elimination.y_var == y_var,
                elimination.steps_wf(),
                elimination.initial_polys@ == reduced@,
                (forall|i: int| 0 <= i < orig.len() ==> !fixes_other_var(#[trigger] trees(orig)[i], x_var, y_var))
                    ==> reduced@ == orig,
                forall|env: spec_fn(u8) -> int| #[trigger] common_zero(trees(elimination.initial_polys@), env)
                    ==> common_zero(trees(elimination.polys@), env),
            decreases elimination.polys@.len(),
        {
            proof {
                assert forall|i: int| 0 <= i < elimination.polys@.len() implies degrees_fit(
                    #[trigger] trees(elimination.polys@)[i],
                ) by {}
            }
            match elimination.get_var_to_eliminate() {
                None => {
                    break;
                },
                Some(res) => {
                    proof {
                        crate::poly_ops::lemma_least_var_index(trees(elimination.polys@), x_var, y_var, 256);
                    }
                    if !other_has_var(&elimination.polys, res.poly_index, res.var) {
                        return Err(message_of("The variable to eliminate occurs in one equation only"));
                    }
                    elimination.eliminate_var(res)?;
                },
            }
        }
        let n = elimination.polys.len();
        if n != 1 {
            let mut m = message_of("Expected exactly one equation after elimination, got ");
            push_decimal(&mut m, n as u64);
            assert(m@ == count_message(n as nat));
            return Err(m);
        }
        let last: &Poly = &elimination.polys[0];
        assert(trees(elimination.polys@)[0] == sv(*last));
        let mut vars = [false; 256];
        last.fill_in_variables(&mut vars);
        let mut u: usize = 0;
        while u < 256
            invariant
                u <= 256,
                vars@.len() == 256,
                forall|w: int| 0 <= w < 256 ==> #[trigger] vars@[w] == mentions(sv(*last), w),
                forall|w: int| 0 <= w < u && w != x_var && w != y_var ==> !#[trigger] mentions(sv(*last), w),
            decreases 256 - u,
        {
            assert(vars@[u as int] == mentions(sv(*last), u as int));
            if vars[u] && u != x_var as usize && u != y_var as usize {
                let mut m = message_of("Remaining equation depends on variable ");
                let code = (u as u8).wrapping_add(97u8);
                let uu = u as u8;
                assert(uu == u);
                assert(code == ((uu + 97) % 256) as u8) by (bit_vector)
                    requires
                        code == (uu as u8).wrapping_add(97u8),
                ;
                let letter = code as char;
                assert(letter == var_letter(u as int));
                push_char(&mut m, letter);
                assert(m@ == extra_var_message(u as int));
                return Err(m);
            }
            u = u + 1;
        }
        let mut result = last.copy();
        if !min_coeff_free(&result) {
            return Err(overflow_text());
        }
        result.reduce_coefficients_if_above(1);
        proof {
            lemma_reduced_above_canonical(sv(*last), 1);
            assert forall|env: spec_fn(u8) -> int| #[trigger] common_zero(trees(elimination.initial_polys@), env) implies eval(
                sv(result),
                env,
            ) == 0 by {
                assert(common_zero(trees(elimination.polys@), env));
                assert(eval(trees(elimination.polys@)[0], env) == 0);
                lemma_reduction_keeps_zero(sv(*last), env);
            }
        }
        Ok((elimination, result))
    }

    /// The factors of the final equation of an elimination that pass
    /// `check_factor`, in their order; the first error that a check gives.
    /// The factors are checked in order until a check fails, and what the
    /// checks answered decides the result as `keep_passed` does.
    pub fn select_factors(elimination: &Elimination, factors: Vec<Poly>) -> (r: Result<Vec<Poly>, String>)
        requires
            elimination.steps_wf(),
        ensures
            selected(*elimination, poly_trees(factors@), result_view(r)),
            r matches Ok(kept) ==> kept@.len() <= factors@.len(),
            r matches Ok(kept) ==> forall|j: int|
                0 <= j < kept@.len() ==> #[trigger] confirmed(*elimination, poly_trees(kept@)[j]),
            (exists|i: int|
                0 <= i < factors@.len() && !(only_xy(#[trigger] poly_trees(factors@)[i], elimination.x_var, elimination.y_var)
                    && bounded(poly_trees(factors@)[i], i64::MAX as int))) ==> r is Err,
            factors@.len() == 0 ==> (r matches Ok(kept) && kept@.len() == 0),
    {
        let ghost fs = poly_trees(factors@);
        let mut outcomes: Vec<Result<bool, String>> = Vec::new();
        let mut i: usize = 0;
        while i < factors.len()
            invariant_except_break
                forall|q: int| 0 <= q < outcomes@.len() ==> (#[trigger] outcomes@[q]) is Ok,
            invariant
                elimination.steps_wf(),
                fs == poly_trees(factors@),
                i <= factors@.len(),
                outcomes@.len() == i,
                forall|q: int| 0 <= q < outcomes@.len() ==> passes_contract(*elimination, #[trigger] fs[q], outcomes_view(outcomes@)[q]),
            ensures
                outcomes@.len() <= factors@.len(),
                outcomes@.len() < factors@.len() ==> outcomes@.len() > 0 && outcomes@.last() is Err,
                forall|q: int| 0 <= q < outcomes@.len() - 1 ==> (#[trigger] outcomes@[q]) is Ok,
                forall|q: int| 0 <= q < outcomes@.len() ==> passes_contract(*elimination, #[trigger] fs[q], outcomes_view(outcomes@)[q]),
            decreases factors@.len() - i,
        {
            let f: &Poly = &factors[i];
            assert(fs[i as int] == sv(*f));
            let res = elimination.check_factor(f);
            let failed = res.is_err();
            let ghost before = outcomes@;
            outcomes.push(res);
            proof {
                assert forall|q: int| 0 <= q < outcomes@.len() implies passes_contract(*elimination, #[trigger] fs[q], outcomes_view(outcomes@)[q]) by {
                    if q < i {
                        assert(outcomes@[q] == before[q]);
                        assert(outcomes_view(outcomes@)[q] == outcomes_view(before)[q]);
                    }
                }
            }
            i = i + 1;
            if failed {
                break;
            }
        }
        proof {
            let outs = outcomes_view(outcomes@);
            assert forall|q: int| 0 <= q < outs.len() implies #[trigger] passes_contract(*elimination, fs[q], outs[q]) by {}
            assert forall|q: int| 0 <= q < outs.len() - 1 implies (#[trigger] outs[q]) is Ok by {
                assert(outcomes@[q] is Ok);
            }
            if outs.len() < fs.len() {
                assert(outs.last() is Err);
            }
            assert(checked_outcomes(*elimination, fs, outs));
        }
        let r = keep_passed(factors, outcomes);
        proof {
            let outs = outcomes_view(outcomes@);
            assert(checked_outcomes(*elimination, fs, outs) && result_view(r) == kept_by(fs, outs));
            lemma_kept_by_props(*elimination, fs, outs);
        }
        r
    }
}

/// The plain values of the outcomes of checks.
pub open spec fn outcomes_view(v: Seq<Result<bool, String>>) -> Seq<Result<bool, Seq<char>>> {
    Seq::new(
        v.len(),
        |i: int|
            match v[i] {
                Ok(b) => Ok(b),
                Err(e) => Err(e@),
            },
    )
}

/// The plain value of a list of polynomials or a message.
pub open spec fn result_view(r: Result<Vec<Poly>, String>) -> Result<Seq<SPoly>, Seq<char>> {
    match r {
        Ok(ks) => Ok(poly_trees(ks@)),
        Err(e) => Err(e@),
    }
}

/// The first error among the outcomes; without one, the trees whose outcome
/// is `Ok(true)`, in order.
pub open spec fn kept_by(fs: Seq<SPoly>, outs: Seq<Result<bool, Seq<char>>>) -> Result<Seq<SPoly>, Seq<char>>
    decreases outs.len(),
{
    if outs.len() == 0 {
        Ok(Seq::empty())
    } else {
        match kept_by(fs, outs.drop_last()) {
            Err(e) => Err(e),
            Ok(ks) => match outs.last() {
                Err(e) => Err(e),
                Ok(b) => Ok(
                    if b {
                        ks.push(fs[outs.len() - 1])
                    } else {
                        ks
                    },
                ),
            },
        }
    }
}

/// What `check_factor` promises of its answer for the factor `f`.
pub open spec fn passes_contract(e: Elimination, f: SPoly, out: Result<bool, Seq<char>>) -> bool {
    &&& (!(only_xy(f, e.x_var, e.y_var) && bounded(f, i64::MAX as int)) ==> out is Err)
    &&& (out == Ok::<bool, Seq<char>>(true) ==> confirmed(e, f))
}

/// The outcomes of checking the factors in order until the first error.
pub open spec fn checked_outcomes(e: Elimination, fs: Seq<SPoly>, outs: Seq<Result<bool, Seq<char>>>) -> bool {
    &&& outs.len() <= fs.len()
    &&& outs.len() < fs.len() ==> outs.len() > 0 && outs.last() is Err
    &&& forall|q: int| 0 <= q < outs.len() - 1 ==> (#[trigger] outs[q]) is Ok
    &&& forall|q: int| 0 <= q < outs.len() ==> #[trigger] passes_contract(e, fs[q], outs[q])
}

/// The factors are checked in order until a check fails, and the result is
/// what `keep_passed` makes of the answers.
pub open spec fn selected(e: Elimination, fs: Seq<SPoly>, rv: Result<Seq<SPoly>, Seq<char>>) -> bool {
    exists|outs: Seq<Result<bool, Seq<char>>>| #[trigger] checked_outcomes(e, fs, outs) && rv == kept_by(fs, outs)
}

/// The factors kept are confirmed ones, in their order, and none is kept
/// past an error.
proof fn lemma_kept_by_props(e: Elimination, fs: Seq<SPoly>, outs: Seq<Result<bool, Seq<char>>>)
    requires
        outs.len() <= fs.len(),
        forall|q: int| 0 <= q < outs.len() ==> #[trigger] passes_contract(e, fs[q], outs[q]),
    ensures
        kept_by(fs, outs) matches Ok(ks) ==> ks.len() <= outs.len() && forall|j: int|
            0 <= j < ks.len() ==> #[trigger] confirmed(e, ks[j]),
        (exists|i: int| 0 <= i < outs.len() && !(only_xy(#[trigger] fs[i], e.x_var, e.y_var) && bounded(fs[i], i64::MAX as int)))
            ==> kept_by(fs, outs) is Err,
    decreases outs.len(),
{
    if outs.len() > 0 {
        let n = outs.len() - 1;
        let prev = outs.drop_last();
        assert forall|q: int| 0 <= q < prev.len() implies #[trigger] passes_contract(e, fs[q], prev[q]) by {
            assert(prev[q] == outs[q]);
        }
        lemma_kept_by_props(e, fs, prev);
        assert(passes_contract(e, fs[n], outs[n]));
        if exists|i: int| 0 <= i < outs.len() && !(only_xy(#[trigger] fs[i], e.x_var, e.y_var) && bounded(fs[i], i64::MAX as int)) {
            let i = choose|i: int| 0 <= i < outs.len() && !(only_xy(#[trigger] fs[i], e.x_var, e.y_var) && bounded(fs[i], i64::MAX as int));
            if i < n {
                assert(!(only_xy(fs[i], e.x_var, e.y_var) && bounded(fs[i], i64::MAX as int)));
            }
        }
    }
}

/// The factors whose check answered `Ok(true)`, in order, unless a check
/// failed: then the first failure's message.
pub fn keep_passed(factors: Vec<Poly>, passed: Vec<Result<bool, String>>) -> (r: Result<Vec<Poly>, String>)
    requires
        passed@.len() <= factors@.len(),
    ensures
        result_view(r) == kept_by(poly_trees(factors@), outcomes_view(passed@)),
{
    let ghost fs = poly_trees(factors@);
    let ghost outs = outcomes_view(passed@);
    let mut kept: Vec<Poly> = Vec::new();
    let mut i: usize = 0;
    assert(outs.take(0) =~= Seq::<Result<bool, Seq<char>>>::empty());
    assert(poly_trees(kept@) =~= Seq::<SPoly>::empty());
    while i < passed.len()
        invariant
            fs == poly_trees(factors@),
            outs == outcomes_view(passed@),
            passed@.len() <= factors@.len(),
            i <= passed@.len(),
            kept_by(fs, outs.take(i as int)) == Ok::<Seq<SPoly>, Seq<char>>(poly_trees(kept@)),
        decreases passed@.len() - i,
    {
        assert(outs.take(i as int + 1).drop_last() =~= outs.take(i as int));
        assert(outs.take(i as int + 1).last() == outs[i as int]);
        match &passed[i] {
            Err(e) => {
                let mut m = String::new();
                m.append(e.as_str());
                proof {
                    assert(m@ =~= e@);
                    assert(kept_by(fs, outs.take(i as int + 1)) == Err::<Seq<SPoly>, Seq<char>>(m@));
                    lemma_kept_by_err(fs, outs, i as int + 1);
                }
                return Err(m);
            },
            Ok(b) => {
                if *b {
                    let ghost before = kept@;
                    kept.push(factors[i].copy());
                    assert(poly_trees(kept@) =~= poly_trees(before).push(fs[i as int]));
                }
            },
        }
        i = i + 1;
    }
    assert(outs.take(i as int) =~= outs);
    Ok(kept)
}

/// Once the outcomes give an error, further outcomes keep it.
proof fn lemma_kept_by_err(fs: Seq<SPoly>, outs: Seq<Result<bool, Seq<char>>>, n: int)
    requires
        0 <= n <= outs.len(),
        kept_by(fs, outs.take(n)) is Err,
    ensures
        kept_by(fs, outs) == kept_by(fs, outs.take(n)),
    decreases outs.len() - n,
{
    if n < outs.len() {
        assert(outs.take(n + 1).drop_last() =~= outs.take(n));
        lemma_kept_by_err(fs, outs, n + 1);
    } else {
        assert(outs.take(n) =~= outs);
    }
}

} // verus!
