//! Balancing of chemical equations with exact integer arithmetic.
//!
//! An equation such as `Fe + H2SO4 = Fe2(SO4)3 + SO2 + H2O` is parsed into a
//! tree of items, turned into an integer matrix with one row per element and
//! one column per reactant or product, reduced by fraction-free Gaussian
//! elimination, and rendered again with the smallest integer coefficients
//! that balance every element and the charge.
//!
//! The data: `element`, `group`, `entity`, `item`, `equation`, `matrix`, and
//! the two kinds of errors. The work: `regular_expression` and `parser` turn
//! a text into an equation, `balancer` turns an equation into its balanced
//! text, `text` reads and writes numerals, `arithmetic` holds divisors and
//! multiples.
//!
//! What the work yields is said by functions on plain values: `grammar` for
//! the parser, `matrix` for the elimination, `solution` for the balancer.
//! What holds of it is proved in `laws`, on the ground of `invariants` and
//! `canonical` for the parser, `echelon`, `kernel` and `fixed` for the
//! elimination, and `names`, `system`, `ratio`, `freedom` and `columns` for
//! the coefficients.

pub mod arithmetic;
pub mod balancer;
pub mod balancer_error;
pub mod canonical;
pub mod columns;
pub mod echelon;
pub mod element;
pub mod entity;
pub mod equation;
pub mod fixed;
pub mod freedom;
pub mod grammar;
pub mod group;
pub mod invariants;
pub mod item;
pub mod kernel;
pub mod laws;
pub mod matrix;
pub mod names;
pub mod parser;
pub mod parser_error;
pub mod ratio;
pub mod regular_expression;
pub mod solution;
pub mod system;
pub mod text;
