//! Polynomial algebra for geometric constructions: multivariate integer
//! polynomials, univariate polynomials over Z/pZ, and variable elimination.

pub mod modular_poly;
pub mod division_unique;
pub mod vanishing;
pub mod conv_algebra;
pub mod modular_text;
pub mod modular_random;
pub mod spoly;
pub mod poly;
pub mod text;
pub mod poly_format;
pub mod poly_parse;
pub mod poly_ops;
pub mod scene_object;
pub mod poly_struct;
pub mod poly_subst;
pub mod coef_laws;
pub mod split_laws;
pub mod degree_laws;
pub mod poly_debug;
pub mod elimination;
pub mod scene_utils;
pub mod poly_equation;
pub mod poly_expr;
pub mod scene_reduce;
pub mod scene_solve;
pub mod scene_linear;
pub mod scene_factors;
pub mod poly_draw;
pub mod scene_expr;
pub mod scene_kinds;
pub mod pari_text;
pub mod scene_validate;
pub mod service;
pub mod python_output;
pub mod scene_deps;
pub mod format_laws;
pub mod python_laws;
pub mod validate_laws;
