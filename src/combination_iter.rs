use crate::bits::Bits;
use crate::iter::{
    aligned, lemma_aligned_fits, lemma_aligned_gap, lemma_holds_range, lemma_members_above,
    lemma_members_empty, lemma_members_first, members_of, next_bucket, ordered_buckets, Bucket,
    BucketIterator, RawRefIter,
};
use crate::op::CombineOp;
use vstd::prelude::*;

verus! {

/// Where one base occurs: in both operands, in the left one only, or in the
/// right one only, with the words found there.
#[derive(Debug, PartialEq, Eq)]
pub enum Combination<T> {
    PQ(T, T),
    P(T),
    Q(T),
}

impl<T: Bits> Combination<T> {
    /// Bit `i` of the left operand's word; clear where the left operand has no bucket.
    pub open spec fn p_bit(self, i: nat) -> bool {
        match self {
            Combination::PQ(p, _) => p.bit(i),
            Combination::P(p) => p.bit(i),
            Combination::Q(_) => false,
        }
    }

    /// Bit `i` of the right operand's word; clear where the right operand has no bucket.
    pub open spec fn q_bit(self, i: nat) -> bool {
        match self {
            Combination::PQ(_, q) => q.bit(i),
            Combination::P(_) => false,
            Combination::Q(q) => q.bit(i),
        }
    }
}

/// A base and what the two operands hold there.
#[derive(Debug, PartialEq, Eq)]
pub struct BucketCombination<T> {
    pub base: T,
    pub combination: Combination<T>,
}

impl<T: Bits> BucketCombination<T> {
    pub fn new(base: T, combination: Combination<T>) -> (r: Self)
        ensures
            r.base == base,
            r.combination == combination,
    {
        Self { base, combination }
    }

    /// Whether `x` is a member of the result of `O` within this bucket.
    pub open spec fn holds<O: CombineOp<T>>(self, x: nat) -> bool {
        let i = (x - self.base.value()) as nat;
        &&& self.base.value() <= x < self.base.value() + T::width()
        &&& O::keeps(self.combination.p_bit(i), self.combination.q_bit(i))
    }

    /// The bucket of the result of `O` at this base.
    pub fn combine<O: CombineOp<T>>(self) -> (r: Bucket<T>)
        ensures
            r.base == self.base,
            forall|i: nat|
                i < T::width() ==> #[trigger] r.bits.bit(i) == O::keeps(
                    self.combination.p_bit(i),
                    self.combination.q_bit(i),
                ),
    {
        Bucket { base: self.base, bits: O::combine(self.combination) }
    }
}

/// One step of the merge of two ordered bucket sequences: what the lowest base
/// holds, and what is left of each side.
pub open spec fn merge_step<T: Bits>(l: Seq<Bucket<T>>, r: Seq<Bucket<T>>) -> (
    Option<BucketCombination<T>>,
    Seq<Bucket<T>>,
    Seq<Bucket<T>>,
) {
    if l.len() > 0 && r.len() > 0 && l[0].base.value() == r[0].base.value() {
        (
            Some(
                BucketCombination {
                    base: l[0].base,
                    combination: Combination::PQ(l[0].bits, r[0].bits),
                },
            ),
            l.drop_first(),
            r.drop_first(),
        )
    } else if l.len() > 0 && (r.len() == 0 || l[0].base.value() < r[0].base.value()) {
        (
            Some(BucketCombination { base: l[0].base, combination: Combination::P(l[0].bits) }),
            l.drop_first(),
            r,
        )
    } else if r.len() > 0 {
        (
            Some(BucketCombination { base: r[0].base, combination: Combination::Q(r[0].bits) }),
            l,
            r.drop_first(),
        )
    } else {
        (None, l, r)
    }
}

/// The result of `O` on two member sets.
pub open spec fn combined<T: Bits, O: CombineOp<T>>(a: Set<nat>, b: Set<nat>) -> Set<nat> {
    Set::new(|x: nat| O::keeps(a.contains(x), b.contains(x)))
}

/// A merge step splits the result of `O` into the members within the bucket
/// at the lowest base and the result on what is left, which lies wholly above.
pub proof fn lemma_merge_step<T: Bits, O: CombineOp<T>>(l: Seq<Bucket<T>>, r: Seq<Bucket<T>>)
    requires
        ordered_buckets(l),
        ordered_buckets(r),
        l.len() > 0 || r.len() > 0,
    ensures
        ({
            let (c, l2, r2) = merge_step(l, r);
            &&& c is Some
            &&& aligned(c.unwrap().base)
            &&& ordered_buckets(l2)
            &&& ordered_buckets(r2)
            &&& forall|k: int|
                0 <= k < l2.len() ==> c.unwrap().base.value() + T::width() <= (
                #[trigger] l2[k]).base.value()
            &&& forall|k: int|
                0 <= k < r2.len() ==> c.unwrap().base.value() + T::width() <= (
                #[trigger] r2[k]).base.value()
            &&& forall|x: nat|
                #[trigger] combined::<T, O>(members_of(l), members_of(r)).contains(x) == (
                c.unwrap().holds::<O>(x) || combined::<T, O>(members_of(l2), members_of(r2)).contains(
                    x,
                ))
        }),
{
    O::lemma_keeps_neither();
    T::lemma_width();
    let (c, l2, r2) = merge_step(l, r);
    let b = c.unwrap().base.value();
    let ml = members_of(l);
    let mr = members_of(r);
    let ml2 = members_of(l2);
    let mr2 = members_of(r2);
    if l.len() > 0 {
        lemma_members_first(l);
        assert(aligned(l[0].base));
        T::lemma_word(l[0].bits);
    } else {
        lemma_members_empty(l);
    }
    if r.len() > 0 {
        lemma_members_first(r);
        assert(aligned(r[0].base));
        T::lemma_word(r[0].bits);
    } else {
        lemma_members_empty(r);
    }
    if l.len() > 0 && r.len() > 0 && l[0].base.value() < r[0].base.value() {
        lemma_aligned_gap::<T>(l[0].base.value(), r[0].base.value());
    }
    if l.len() > 0 && r.len() > 0 && r[0].base.value() < l[0].base.value() {
        lemma_aligned_gap::<T>(r[0].base.value(), l[0].base.value());
    }
    assert forall|k: int| 0 <= k < l2.len() implies b + T::width() <= (#[trigger] l2[k]).base.value() by {
        if l2.len() < l.len() {
            assert(l2[k] == l[k + 1]);
            assert(l[0].base.value() + T::width() <= l[k + 1].base.value());
        } else {
            assert(l[0].base.value() + T::width() <= l[k].base.value() || k == 0);
        }
    }
    assert forall|k: int| 0 <= k < r2.len() implies b + T::width() <= (#[trigger] r2[k]).base.value() by {
        if r2.len() < r.len() {
            assert(r2[k] == r[k + 1]);
            assert(r[0].base.value() + T::width() <= r[k + 1].base.value());
        } else {
            assert(r[0].base.value() + T::width() <= r[k].base.value() || k == 0);
        }
    }
    assert forall|x: nat|
        #[trigger] combined::<T, O>(ml, mr).contains(x) == (c.unwrap().holds::<O>(x)
            || combined::<T, O>(ml2, mr2).contains(x)) by {
        if ml2.contains(x) {
            lemma_members_above(l2, x);
        }
        if mr2.contains(x) {
            lemma_members_above(r2, x);
        }
        if l.len() > 0 && l[0].holds(x) {
            lemma_holds_range(l[0], x);
        }
        if r.len() > 0 && r[0].holds(x) {
            lemma_holds_range(r[0], x);
        }
        if l.len() > 0 && l2.len() == l.len() && ml.contains(x) {
            lemma_members_above(l, x);
        }
        if r.len() > 0 && r2.len() == r.len() && mr.contains(x) {
            lemma_members_above(r, x);
        }
    }
}

/// Merges the bucket sequences of two stores by base.
pub struct BucketCombinationIterator<'a, 'b, T> {
    p: RawRefIter<'a, T>,
    q: RawRefIter<'b, T>,
    bucket_p: Option<Bucket<T>>,
    bucket_q: Option<Bucket<T>>,
}

impl<'a, 'b, T: Bits> BucketCombinationIterator<'a, 'b, T> {
    /// The left operand's buckets not yet merged.
    pub closed spec fn left(&self) -> Seq<Bucket<T>> {
        match self.bucket_p {
            Some(b) => seq![b] + self.p.view(),
            None => Seq::empty(),
        }
    }

    /// The right operand's buckets not yet merged.
    pub closed spec fn right(&self) -> Seq<Bucket<T>> {
        match self.bucket_q {
            Some(b) => seq![b] + self.q.view(),
            None => Seq::empty(),
        }
    }

    pub closed spec fn wf(&self) -> bool {
        &&& self.p.wf()
        &&& self.q.wf()
        &&& self.bucket_p is None ==> self.p.view().len() == 0
        &&& self.bucket_q is None ==> self.q.view().len() == 0
        &&& ordered_buckets(self.left())
        &&& ordered_buckets(self.right())
    }

    pub fn new(mut p: RawRefIter<'a, T>, mut q: RawRefIter<'b, T>) -> (r: Self)
        requires
            p.wf(),
            q.wf(),
            ordered_buckets(p.view()),
            ordered_buckets(q.view()),
        ensures
            r.wf(),
            r.left() == p.view(),
            r.right() == q.view(),
    {
        let ghost sp = p.view();
        let ghost sq = q.view();
        let bucket_p = next_bucket(&mut p);
        let bucket_q = next_bucket(&mut q);
        let r = Self { p, q, bucket_p, bucket_q };
        proof {
            if sp.len() > 0 {
                assert(r.left() =~= sp);
            } else {
                assert(r.left() =~= sp);
            }
            assert(r.right() =~= sq);
        }
        r
    }

    /// The combination at the lowest base not yet merged.
    pub fn next(&mut self) -> (r: Option<BucketCombination<T>>)
        requires
            old(self).wf(),
        ensures
            final(self).wf(),
            (r, final(self).left(), final(self).right()) == merge_step(
                old(self).left(),
                old(self).right(),
            ),
    {
        let ghost l = self.left();
        let ghost rr = self.right();
        proof {
            if l.len() > 0 {
                lemma_members_first(l);
            }
            if rr.len() > 0 {
                lemma_members_first(rr);
            }
        }
        match (self.bucket_p, self.bucket_q) {
            (Some(p), Some(q)) => {
                if p.base.equals(q.base) {
                    let item = BucketCombination::new(p.base, Combination::PQ(p.bits, q.bits));
                    self.bucket_p = next_bucket(&mut self.p);
                    self.bucket_q = next_bucket(&mut self.q);
                    assert(self.left() =~= l.drop_first());
                    assert(self.right() =~= rr.drop_first());
                    Some(item)
                } else if p.base.less_than(q.base) {
                    let item = BucketCombination::new(p.base, Combination::P(p.bits));
                    self.bucket_p = next_bucket(&mut self.p);
                    assert(self.left() =~= l.drop_first());
                    Some(item)
                } else {
                    let item = BucketCombination::new(q.base, Combination::Q(q.bits));
                    self.bucket_q = next_bucket(&mut self.q);
                    assert(self.right() =~= rr.drop_first());
                    Some(item)
                }
            },
            (Some(p), None) => {
                let item = BucketCombination::new(p.base, Combination::P(p.bits));
                self.bucket_p = next_bucket(&mut self.p);
                assert(self.left() =~= l.drop_first());
                Some(item)
            },
            (None, Some(q)) => {
                let item = BucketCombination::new(q.base, Combination::Q(q.bits));
                self.bucket_q = next_bucket(&mut self.q);
                assert(self.right() =~= rr.drop_first());
                Some(item)
            },
            (None, None) => None,
        }
    }
}

/// The members of the result of `O` on two stores, lowest first: merges the
/// buckets, reduces each base to one word, and unpacks it.
pub struct BitCombinationIterator<'a, 'b, T, O> {
    bucket_combination_iter: BucketCombinationIterator<'a, 'b, T>,
    bucket_iter: Option<BucketIterator<T>>,
    _op: O,
}

impl<'a, 'b, T: Bits, O: CombineOp<T>> BitCombinationIterator<'a, 'b, T, O> {
    /// The members not yet returned.
    pub closed spec fn view(&self) -> Set<nat> {
        match self.bucket_iter {
            Some(bi) => bi.view() + combined::<T, O>(
                members_of(self.bucket_combination_iter.left()),
                members_of(self.bucket_combination_iter.right()),
            ),
            None => Set::empty(),
        }
    }

    /// The bucket being unpacked lies wholly below the buckets still to merge.
    pub closed spec fn wf(&self) -> bool {
        let it = self.bucket_combination_iter;
        &&& it.wf()
        &&& match self.bucket_iter {
            Some(bi) => {
                &&& bi.wf()
                &&& forall|x: nat, k: int|
                    #![trigger bi.view().contains(x), it.left()[k]]
                    bi.view().contains(x) && 0 <= k < it.left().len() ==> x
                        < it.left()[k].base.value()
                &&& forall|x: nat, k: int|
                    #![trigger bi.view().contains(x), it.right()[k]]
                    bi.view().contains(x) && 0 <= k < it.right().len() ==> x
                        < it.right()[k].base.value()
            },
            None => it.left().len() == 0 && it.right().len() == 0,
        }
    }

    /// Reduces one base and starts to unpack its word.
    fn unpack(c: BucketCombination<T>) -> (r: BucketIterator<T>)
        requires
            aligned(c.base),
        ensures
            r.wf(),
            forall|x: nat| #[trigger] r.view().contains(x) == c.holds::<O>(x),
    {
        let b = c.combine::<O>();
        proof {
            lemma_aligned_fits(b);
            T::lemma_word(b.bits);
        }
        let r = BucketIterator::new(b);
        assert forall|x: nat| #[trigger] r.view().contains(x) == c.holds::<O>(x) by {
            assert(r.view().contains(x) == b.holds(x));
        }
        r
    }

    /// Advances the merge by one base and unpacks it, after the previous
    /// bucket ran out.
    fn refill(&mut self)
        requires
            old(self).bucket_combination_iter.wf(),
            old(self).bucket_iter is Some ==> old(self).bucket_iter.unwrap().view()
                == Set::<nat>::empty(),
        ensures
            final(self).wf(),
            final(self).view() == combined::<T, O>(
                members_of(old(self).bucket_combination_iter.left()),
                members_of(old(self).bucket_combination_iter.right()),
            ),
            final(self).bucket_combination_iter.left().len()
                + final(self).bucket_combination_iter.right().len() + 1 <= old(
                self,
            ).bucket_combination_iter.left().len() + old(self).bucket_combination_iter.right().len()
                || final(self).bucket_iter is None,
    {
        let ghost l = self.bucket_combination_iter.left();
        let ghost rr = self.bucket_combination_iter.right();
        proof {
            if l.len() > 0 || rr.len() > 0 {
                lemma_merge_step::<T, O>(l, rr);
            } else {
                lemma_members_empty(l);
                lemma_members_empty(rr);
            }
        }
        self.bucket_iter = match self.bucket_combination_iter.next() {
            Some(c) => Some(Self::unpack(c)),
            None => None,
        };
        proof {
            O::lemma_keeps_neither();
            let target = combined::<T, O>(members_of(l), members_of(rr));
            if l.len() > 0 || rr.len() > 0 {
                assert(self.view() =~= target);
            } else {
                assert(target =~= Set::<nat>::empty());
            }
        }
    }

    pub fn new(bucket_combination_iter: BucketCombinationIterator<'a, 'b, T>, op: O) -> (r: Self)
        requires
            bucket_combination_iter.wf(),
        ensures
            r.wf(),
            r.view() == combined::<T, O>(
                members_of(bucket_combination_iter.left()),
                members_of(bucket_combination_iter.right()),
            ),
    {
        let mut r = Self { bucket_combination_iter, bucket_iter: None, _op: op };
        r.refill();
        r
    }

    /// Returns the lowest member not yet returned, or `None` once none is left.
    pub fn next(&mut self) -> (r: Option<T>)
        requires
            old(self).wf(),
        ensures
            final(self).wf(),
            match r {
                None => old(self).view() == Set::<nat>::empty() && final(self).view() == old(
                    self,
                ).view(),
                Some(m) => {
                    &&& old(self).view().contains(m.value())
                    &&& forall|x: nat| old(self).view().contains(x) ==> m.value() <= x
                    &&& final(self).view() == old(self).view().remove(m.value())
                },
            },
    {
        loop
            invariant
                self.wf(),
                self.view() == old(self).view(),
            decreases self.bucket_combination_iter.left().len()
                + self.bucket_combination_iter.right().len() + if self.bucket_iter is Some {
                1int
            } else {
                0int
            },
        {
            let ghost before = *self;
            match &mut self.bucket_iter {
                None => {
                    return None;
                },
                Some(bucket_iter) => {
                    match bucket_iter.next() {
                        Some(bit) => {
                            proof {
                                O::lemma_keeps_neither();
                                let it = self.bucket_combination_iter;
                                let rest = combined::<T, O>(
                                    members_of(it.left()),
                                    members_of(it.right()),
                                );
                                assert forall|y: nat| rest.contains(y) implies bit.value()
                                    < y by {
                                    if members_of(it.left()).contains(y) {
                                        lemma_members_above(it.left(), y);
                                    } else {
                                        lemma_members_above(it.right(), y);
                                    }
                                }
                                assert(self.view() =~= before.view().remove(bit.value()));
                            }
                            return Some(bit);
                        },
                        None => {},
                    }
                },
            }
            self.refill();
        }
    }
}

} // verus!
