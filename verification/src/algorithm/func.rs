//! The numeric capabilities that a caller hands to the algorithms, and the
//! activation functions that need no rounding.
//!
//! A capability is a function value. The algorithms ask of it only that it
//! accepts every input; what they compute is stated over the relation between
//! its arguments and its results.
use vstd::prelude::*;
use crate::ieee::{less, is_less, ZERO, ONE, TWO, MINUS_TWO};

verus! {

/// The three rounded operations that the algorithms ask of the caller.
#[derive(Clone, Copy, Debug, PartialEq, Eq)]
pub enum Operation {
    /// The sum of the two operands.
    Add,
    /// The first operand minus the second.
    Sub,
    /// The product of the two operands.
    Mul,
}

/// A one-argument capability that accepts every input.
pub open spec fn unary_total<F: Fn(u32) -> u32>(f: F) -> bool {
    forall|x: u32| #[trigger] call_requires(f, (x,))
}

/// A two-argument capability that accepts every input.
pub open spec fn binary_total<F: Fn(u32, u32) -> u32>(f: F) -> bool {
    forall|x: u32, y: u32| #[trigger] call_requires(f, (x, y))
}

/// An arithmetic capability that accepts every operation on every pair of
/// operands.
pub open spec fn arithmetic_total<F: Fn(Operation, u32, u32) -> u32>(f: F) -> bool {
    forall|op: Operation, x: u32, y: u32| #[trigger] call_requires(f, (op, x, y))
}

/// The results that a one-argument capability may give: `(x, r)` is in the
/// relation when `f(x)` may return `r`.
pub open spec fn unary_relation<F: Fn(u32) -> u32>(f: F) -> spec_fn(u32, u32) -> bool {
    |x: u32, r: u32| call_ensures(f, (x,), r)
}

/// The results that a two-argument capability may give.
pub open spec fn binary_relation<F: Fn(u32, u32) -> u32>(f: F) -> spec_fn(u32, u32, u32) -> bool {
    |x: u32, y: u32, r: u32| call_ensures(f, (x, y), r)
}

/// The results that an arithmetic capability may give.
pub open spec fn arithmetic_relation<F: Fn(Operation, u32, u32) -> u32>(f: F) -> spec_fn(
    Operation,
    u32,
    u32,
    u32,
) -> bool {
    |op: Operation, x: u32, y: u32, r: u32| call_ensures(f, (op, x, y), r)
}

/// `r` is a result of `f` on `x`.
pub open spec fn maps(f: spec_fn(u32, u32) -> bool, x: u32, r: u32) -> bool {
    f(x, r)
}

/// `r` is a result of `f` on `(x, y)`.
pub open spec fn maps2(f: spec_fn(u32, u32, u32) -> bool, x: u32, y: u32, r: u32) -> bool {
    f(x, y, r)
}

/// `r` is a result of the operation `op` on `(x, y)`.
pub open spec fn rounds(
    ar: spec_fn(Operation, u32, u32, u32) -> bool,
    op: Operation,
    x: u32,
    y: u32,
    r: u32,
) -> bool {
    ar(op, x, y, r)
}

/// A relation that gives at most one result for each input.
pub open spec fn unary_functional(f: spec_fn(u32, u32) -> bool) -> bool {
    forall|x: u32, r: u32, s: u32| #[trigger] maps(f, x, r) && #[trigger] maps(f, x, s) ==> r == s
}

/// A relation that gives at most one result for each pair of inputs.
pub open spec fn binary_functional(f: spec_fn(u32, u32, u32) -> bool) -> bool {
    forall|x: u32, y: u32, r: u32, s: u32| #[trigger]
        maps2(f, x, y, r) && #[trigger] maps2(f, x, y, s) ==> r == s
}

/// An arithmetic relation that gives at most one result for each operation
/// and pair of operands.
pub open spec fn arithmetic_functional(ar: spec_fn(Operation, u32, u32, u32) -> bool) -> bool {
    forall|op: Operation, x: u32, y: u32, r: u32, s: u32| #[trigger]
        rounds(ar, op, x, y, r) && #[trigger] rounds(ar, op, x, y, s) ==> r == s
}

/// The step activation: zero below zero, the argument itself elsewhere.
pub open spec fn step(z: u32) -> u32 {
    if less(z, ZERO) {
        ZERO
    } else {
        z
    }
}

/// The slope of the step activation: zero below zero, one elsewhere.
pub open spec fn step_slope(z: u32) -> u32 {
    if less(z, ZERO) {
        ZERO
    } else {
        ONE
    }
}

/// `r` is a result of `-2 * reference + 2 * value`, rounded by `ar` after
/// each product and after the sum.
pub open spec fn squared_error_slope(
    ar: spec_fn(Operation, u32, u32, u32) -> bool,
    reference: u32,
    value: u32,
    r: u32,
) -> bool {
    exists|p: u32, q: u32|
        rounds(ar, Operation::Mul, MINUS_TWO, reference, p) && rounds(ar, Operation::Mul, TWO, value, q)
            && #[trigger] rounds(ar, Operation::Add, p, q, r)
}

/// One rounded operation.
pub fn compute<Ar: Fn(Operation, u32, u32) -> u32>(arith: &Ar, op: Operation, x: u32, y: u32) -> (r: u32)
    requires
        arithmetic_total(*arith),
    ensures
        rounds(arithmetic_relation(*arith), op, x, y, r),
{
    arith(op, x, y)
}

/// One call of a one-argument capability.
pub fn evaluate<F: Fn(u32) -> u32>(f: &F, x: u32) -> (r: u32)
    requires
        unary_total(*f),
    ensures
        maps(unary_relation(*f), x, r),
{
    f(x)
}

/// One call of a two-argument capability.
pub fn evaluate2<F: Fn(u32, u32) -> u32>(f: &F, x: u32, y: u32) -> (r: u32)
    requires
        binary_total(*f),
    ensures
        maps2(binary_relation(*f), x, y, r),
{
    f(x, y)
}

/// Step function.
pub fn activation_step(z: u32) -> (a: u32)
    ensures
        a == step(z),
{
    if is_less(z, ZERO) {
        ZERO
    } else {
        z
    }
}

/// The derivative of the step function by its argument.
pub fn activation_step_d(z: u32) -> (d: u32)
    ensures
        d == step_slope(z),
{
    if is_less(z, ZERO) {
        ZERO
    } else {
        ONE
    }
}

/// The derivative of the squared error by the factual output.
///
/// `reference` is the desired output, `value` the factual one.
pub fn cost_mse_d<Ar: Fn(Operation, u32, u32) -> u32>(reference: u32, value: u32, arith: &Ar) -> (d: u32)
    requires
        arithmetic_total(*arith),
    ensures
        squared_error_slope(arithmetic_relation(*arith), reference, value, d),
{
    let p = compute(arith, Operation::Mul, MINUS_TWO, reference);
    let q = compute(arith, Operation::Mul, TWO, value);
    compute(arith, Operation::Add, p, q)
}

} // verus!
