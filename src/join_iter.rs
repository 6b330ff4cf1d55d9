use crate::bits::Bits;
use crate::combination_iter::{
    combined, merge_step, BitCombinationIterator, BucketCombination, BucketCombinationIterator,
    Combination,
};
use crate::iter::{members_of, ordered_buckets, Bucket, RawRefIter};
use crate::op::CombineOp;
use vstd::prelude::*;

verus! {

/// Where one base occurs, in the merge of two bucket stores.
pub type Join<T> = Combination<T>;

/// Merges the bucket sequences of two stores by base, yielding each base with
/// what the two stores hold there.
pub struct BucketJoinIterator<'a, 'b, T> {
    inner: BucketCombinationIterator<'a, 'b, T>,
}

impl<'a, 'b, T: Bits> BucketJoinIterator<'a, 'b, T> {
    /// The left operand's buckets not yet merged.
    pub closed spec fn left(&self) -> Seq<Bucket<T>> {
        self.inner.left()
    }

    /// The right operand's buckets not yet merged.
    pub closed spec fn right(&self) -> Seq<Bucket<T>> {
        self.inner.right()
    }

    pub closed spec fn wf(&self) -> bool {
        self.inner.wf()
    }

    pub fn new(p: RawRefIter<'a, T>, q: RawRefIter<'b, T>) -> (r: Self)
        requires
            p.wf(),
            q.wf(),
            ordered_buckets(p.view()),
            ordered_buckets(q.view()),
        ensures
            r.wf(),
            r.left() == p.view(),
            r.right() == q.view(),
    {
        Self { inner: BucketCombinationIterator::new(p, q) }
    }

    /// The lowest base not yet merged, with what the two stores hold there.
    pub fn next(&mut self) -> (r: Option<(T, Join<T>)>)
        requires
            old(self).wf(),
        ensures
            final(self).wf(),
            ({
                let (c, l, rr) = merge_step(old(self).left(), old(self).right());
                &&& final(self).left() == l
                &&& final(self).right() == rr
                &&& match r {
                    None => c is None,
                    Some((base, join)) => c == Some(
                        BucketCombination { base: base, combination: join },
                    ),
                }
            }),
    {
        match self.inner.next() {
            Some(c) => Some((c.base, c.combination)),
            None => None,
        }
    }
}

/// The members of the result of `O` on two stores, lowest first.
pub struct BitJoinIterator<'a, 'b, T, O> {
    bit_iter: BitCombinationIterator<'a, 'b, T, O>,
}

impl<'a, 'b, T: Bits, O: CombineOp<T>> BitJoinIterator<'a, 'b, T, O> {
    /// The members not yet returned.
    pub closed spec fn view(&self) -> Set<nat> {
        self.bit_iter.view()
    }

    pub closed spec fn wf(&self) -> bool {
        self.bit_iter.wf()
    }

    pub fn new(bucket_join_iter: BucketJoinIterator<'a, 'b, T>, op: O) -> (r: Self)
        requires
            bucket_join_iter.wf(),
        ensures
            r.wf(),
            r.view() == combined::<T, O>(
                members_of(bucket_join_iter.left()),
                members_of(bucket_join_iter.right()),
            ),
    {
        Self { bit_iter: BitCombinationIterator::new(bucket_join_iter.inner, op) }
    }

    /// Returns the lowest member not yet returned, or `None` once none is left.
    pub fn next(&mut self) -> (r: Option<T>)
        requires
            old(self).wf(),
        ensures
            final(self).wf(),
            match r {
                None => old(self).view() == Set::<nat>::empty() && final(self).view() == old(
                    self,
                ).view(),
                Some(m) => {
                    &&& old(self).view().contains(m.value())
                    &&& forall|x: nat| old(self).view().contains(x) ==> m.value() <= x
                    &&& final(self).view() == old(self).view().remove(m.value())
                },
            },
    {
        self.bit_iter.next()
    }
}

} // verus!
