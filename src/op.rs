use crate::bits::Bits;
use crate::combination_iter::Combination;
use vstd::prelude::*;

verus! {

/// A set operation, applied one bucket at a time.
pub trait CombineOp<T: Bits> {
    /// Whether a member belongs to the result, given whether it belongs to the
    /// left and to the right operand.
    spec fn keeps(in_p: bool, in_q: bool) -> bool;

    /// A member of neither operand is no member of the result.
    proof fn lemma_keeps_neither()
        ensures
            !Self::keeps(false, false),
    ;

    /// Reduces the words of one base to the word of the result.
    fn combine(input: Combination<T>) -> (r: T)
        ensures
            forall|i: nat|
                i < T::width() ==> #[trigger] r.bit(i) == Self::keeps(
                    input.p_bit(i),
                    input.q_bit(i),
                ),
    ;
}

/// Members of either operand.
pub struct Union;

impl<T: Bits> CombineOp<T> for Union {
    open spec fn keeps(in_p: bool, in_q: bool) -> bool {
        in_p || in_q
    }

    proof fn lemma_keeps_neither() {
    }

    fn combine(input: Combination<T>) -> (r: T) {
        match input {
            Combination::PQ(p, q) => p.or(q),
            Combination::P(p) => p,
            Combination::Q(q) => q,
        }
    }
}

/// Members of both operands.
pub struct Intersection;

impl<T: Bits> CombineOp<T> for Intersection {
    open spec fn keeps(in_p: bool, in_q: bool) -> bool {
        in_p && in_q
    }

    proof fn lemma_keeps_neither() {
    }

    fn combine(input: Combination<T>) -> (r: T) {
        match input {
            Combination::PQ(p, q) => p.and(q),
            Combination::P(_) | Combination::Q(_) => T::zero(),
        }
    }
}

/// Members of the left operand that are not members of the right one.
pub struct Difference;

impl<T: Bits> CombineOp<T> for Difference {
    open spec fn keeps(in_p: bool, in_q: bool) -> bool {
        in_p && !in_q
    }

    proof fn lemma_keeps_neither() {
    }

    fn combine(input: Combination<T>) -> (r: T) {
        match input {
            Combination::PQ(p, q) => p.and(q.not()),
            Combination::P(p) => p,
            Combination::Q(_) => T::zero(),
        }
    }
}

} // verus!
