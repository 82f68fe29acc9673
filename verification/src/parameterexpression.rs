//! Symbolic expressions, as far as the store looks at them.

use vstd::prelude::*;

verus! {

/// A symbolic expression of the algebra system that parameters of
/// operations are written in. The expression itself lives with that
/// system; what is kept here is the address under which it is found
/// there, and two expressions are equal where that address is the same.
#[derive(Debug, PartialEq, Eq, Structural)]
pub struct ParameterExpression {
    pub expr_: usize,
}

} // verus!
