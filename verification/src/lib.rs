//! A p-adic number calculator: lazy, memoized arithmetic on infinite
//! base-p digit streams, with finite and purely-repeating literal sources,
//! carry/borrow-propagating addition and subtraction, convolution-based
//! multiplication, long division by units (prime base), an expression
//! parser for postfix input, and a digit-string renderer.

pub mod discrete;
pub mod model;
pub mod padic;
pub mod padic_add;
pub mod padic_sub;
pub mod padic_mul;
pub mod padic_div;
pub mod padic_lang;
pub mod repl;
pub mod laws;
pub mod padic_primitive;
