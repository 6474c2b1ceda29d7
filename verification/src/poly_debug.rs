//! The structure of a polynomial tree as text, and a test of its degrees.

use vstd::prelude::*;
use crate::poly::{Poly, sv, sv_kids, lemma_kid_smaller};
use crate::spoly::{SPoly, size};
use crate::poly_ops::degrees_fit;
use crate::text::{decimal, int_text, push_char, push_decimal, push_int, push_str};

verus! {

/// The trees of `cs[..n]` in structure form, separated by `, `.
pub open spec fn debug_list(cs: Seq<SPoly>, n: int) -> Seq<char>
    decreases cs, n,
{
    if n <= 0 || n > cs.len() {
        seq![]
    } else if n == 1 {
        debug_form(cs[0])
    } else {
        debug_list(cs, n - 1) + seq![',', ' '] + debug_form(cs[n - 1])
    }
}

/// A tree in structure form: `Constant(c)` or `Nested(v, [..])`, as the
/// derived `Debug` of `Poly` writes it.
pub open spec fn debug_form(s: SPoly) -> Seq<char>
    decreases s, 0int,
{
    match s {
        SPoly::Constant(c) => "Constant("@ + int_text(c) + seq![')'],
        SPoly::Nested(v, cs) => "Nested("@ + decimal(v as nat) + seq![',', ' ', '['] + debug_list(cs, cs.len() as int)
            + seq![']', ')'],
    }
}

impl Poly {
    /// The polynomial in structure form (see `debug_form`).
    pub fn debug_text(&self) -> (r: String)
        ensures
            r@ == debug_form(sv(*self)),
        decreases size(sv(*self)),
    {
        let mut s = String::new();
        match self {
            Poly::Constant(c) => {
                push_str(&mut s, "Constant(");
                push_int(&mut s, *c);
                push_char(&mut s, ')');
                assert(s@ =~= debug_form(sv(*self)));
            },
            Poly::Nested(v, polys) => {
                let ghost kids = sv_kids(polys@);
                push_str(&mut s, "Nested(");
                push_decimal(&mut s, *v as u64);
                push_char(&mut s, ',');
                push_char(&mut s, ' ');
                push_char(&mut s, '[');
                let ghost head = s@;
                let mut i: usize = 0;
                while i < polys.len()
                    invariant
                        *self == Poly::Nested(*v, *polys),
                        kids == sv_kids(polys@),
                        i <= polys@.len(),
                        s@ == head + debug_list(kids, i as int),
                    decreases polys@.len() - i,
                {
                    proof {
                        lemma_kid_smaller(*self, i as int);
                    }
                    if i > 0 {
                        push_char(&mut s, ',');
                        push_char(&mut s, ' ');
                    }
                    let child: &Poly = &polys[i];
                    let t = child.debug_text();
                    s.append(t.as_str());
                    proof {
                        assert(kids[i as int] == sv(*child));
                        assert(s@ =~= head + debug_list(kids, i as int + 1));
                    }
                    i = i + 1;
                }
                push_char(&mut s, ']');
                push_char(&mut s, ')');
                assert(s@ =~= debug_form(sv(*self)));
            },
        }
        s
    }

    /// Whether every node has between one and `u32::MAX` coefficients (see `degrees_fit`).
    pub fn degrees_ok(&self) -> (r: bool)
        ensures
            r == degrees_fit(sv(*self)),
        decreases size(sv(*self)),
    {
        match self {
            Poly::Constant(_) => {
                assert(degrees_fit(sv(*self)));
                true
            },
            Poly::Nested(v, polys) => {
                let ghost kids = sv_kids(polys@);
                assert(sv(*self) == SPoly::Nested(*v, kids));
                if polys.len() < 1 || polys.len() as u64 > u32::MAX as u64 {
                    return false;
                }
                let mut i: usize = 0;
                while i < polys.len()
                    invariant
                        *self == Poly::Nested(*v, *polys),
                        kids == sv_kids(polys@),
                        i <= polys@.len(),
                        1 <= polys@.len() <= u32::MAX,
                        forall|k: int| 0 <= k < i ==> degrees_fit(#[trigger] kids[k]),
                    decreases polys@.len() - i,
                {
                    proof {
                        lemma_kid_smaller(*self, i as int);
                    }
                    let child: &Poly = &polys[i];
                    if !child.degrees_ok() {
                        assert(kids[i as int] == sv(*child));
                        assert(!degrees_fit(kids[i as int]));
                        assert(!degrees_fit(sv(*self)));
                        return false;
                    }
                    assert(kids[i as int] == sv(*child));
                    i = i + 1;
                }
                assert(kids.len() == polys@.len());
                assert(sv(*self) == SPoly::Nested(*v, kids));
                assert(1 <= kids.len() <= u32::MAX);
                assert forall|k: int| 0 <= k < kids.len() implies degrees_fit(#[trigger] kids[k]) by {}
                assert(degrees_fit(SPoly::Nested(*v, kids)));
                true
            },
        }
    }
}

} // verus!
