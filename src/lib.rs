use vstd::prelude::*;

pub mod bits;
pub mod combination_iter;
pub mod iter;
pub mod join_iter;
pub mod op;
pub mod render;

pub use bits::Bits;
use combination_iter::{combined, BitCombinationIterator, BucketCombinationIterator};
use iter::{
    aligned, lemma_aligned_gap, lemma_bucket_of, lemma_bucket_unique, lemma_holder,
    lemma_holds_range, lemma_member_absent, lemma_member_at, lemma_members_empty,
    lemma_members_first, members_of, ordered_buckets, Bucket, RawRefIter, RefIterator,
};
use op::CombineOp;
use render::{braces, render_set};

verus! {

/// A set of words kept as an ordered store of buckets: the bucket at base `b`
/// (a multiple of the width) holds a non-zero word whose bit `i` marks the
/// member `b + i`.
#[derive(Clone, PartialEq, Eq, PartialOrd, Ord, Hash, Debug)]
pub struct TreeBitSet<T: Bits = u64> {
    buckets: Vec<Bucket<T>>,
}

/// Buckets in canonical form: ordered, and none with a zero word.
pub open spec fn canonical<T: Bits>(s: Seq<Bucket<T>>) -> bool {
    &&& ordered_buckets(s)
    &&& forall|k: int| 0 <= k < s.len() ==> (#[trigger] s[k]).bits.value() != 0
}

/// Words in strictly ascending order of value.
pub open spec fn ascending<T: Bits>(s: Seq<T>) -> bool {
    forall|i: int, j: int| 0 <= i < j < s.len() ==> #[trigger] s[i].value() < #[trigger] s[j].value()
}

/// The values of a sequence of words.
pub open spec fn values_of<T: Bits>(s: Seq<T>) -> Set<nat> {
    Set::new(|x: nat| exists|i: int| 0 <= i < s.len() && #[trigger] s[i].value() == x)
}

impl<T: Bits> View for TreeBitSet<T> {
    type V = Set<nat>;

    /// The members, as integers.
    closed spec fn view(&self) -> Set<nat> {
        members_of(self.buckets@)
    }
}

impl<T: Bits> TreeBitSet<T> {
    /// The stored buckets, in ascending order of base.
    pub closed spec fn bucket_seq(&self) -> Seq<Bucket<T>> {
        self.buckets@
    }

    /// The store is in canonical form.
    pub closed spec fn wf(&self) -> bool {
        canonical(self.buckets@)
    }

    /// An empty set.
    pub fn new() -> (r: Self)
        ensures
            r.wf(),
            r@ == Set::<nat>::empty(),
    {
        let r = Self { buckets: Vec::new() };
        assert(r@ =~= Set::<nat>::empty());
        r
    }

    /// Index of the first bucket whose base is not below `base`.
    fn find(&self, base: T) -> (idx: usize)
        requires
            self.wf(),
        ensures
            idx <= self.buckets@.len(),
            forall|k: int| 0 <= k < idx ==> (#[trigger] self.buckets@[k]).base.value() < base.value(),
            forall|k: int|
                idx <= k < self.buckets@.len() ==> base.value() <= (
                #[trigger] self.buckets@[k]).base.value(),
    {
        let mut lo: usize = 0;
        let mut hi: usize = self.buckets.len();
        while lo < hi
            invariant
                self.wf(),
                lo <= hi <= self.buckets@.len(),
                forall|k: int|
                    0 <= k < lo ==> (#[trigger] self.buckets@[k]).base.value() < base.value(),
                forall|k: int|
                    hi <= k < self.buckets@.len() ==> base.value() <= (
                    #[trigger] self.buckets@[k]).base.value(),
            decreases hi - lo,
        {
            let mid = lo + (hi - lo) / 2;
            if self.buckets[mid].base.less_than(base) {
                assert forall|k: int| 0 <= k <= mid implies (
                #[trigger] self.buckets@[k]).base.value() < base.value() by {
                    if k < mid {
                        assert(self.buckets@[k].base.value() + T::width()
                            <= self.buckets@[mid as int].base.value());
                    }
                }
                lo = mid + 1;
            } else {
                assert forall|k: int| mid <= k < self.buckets@.len() implies base.value() <= (
                #[trigger] self.buckets@[k]).base.value() by {
                    if mid < k {
                        assert(self.buckets@[mid as int].base.value() + T::width()
                            <= self.buckets@[k].base.value());
                    }
                }
                hi = mid;
            }
        }
        lo
    }

    /// Whether `bit` is a member.
    pub fn contains(&self, bit: T) -> (r: bool)
        requires
            self.wf(),
        ensures
            r == self@.contains(bit.value()),
    {
        let base = bit.bucket_base();
        proof {
            lemma_bucket_of::<T>(bit.value());
            T::lemma_width();
        }
        let local = bit.sub(base);
        let idx = self.find(base);
        if idx < self.buckets.len() && self.buckets[idx].base.equals(base) {
            let word = self.buckets[idx].bits;
            let single = T::one().shl(local);
            let hit = word.and(single);
            proof {
                lemma_member_at(self.buckets@, bit.value(), idx as int);
                assert(hit.bit(local.value()) == word.bit(local.value()));
                if !word.bit(local.value()) {
                    assert forall|i: nat| !#[trigger] hit.bit(i) by {
                        assert(single.bit(i) == (i == local.value()));
                    }
                }
            }
            !hit.is_zero()
        } else {
            proof {
                self.lemma_no_bucket_at(base, idx);
                lemma_member_absent(self.buckets@, bit.value());
            }
            false
        }
    }

    /// Where `find` gives an index whose bucket does not start at `base`, no
    /// bucket does.
    proof fn lemma_no_bucket_at(&self, base: T, idx: usize)
        requires
            self.wf(),
            idx <= self.buckets@.len(),
            forall|k: int| 0 <= k < idx ==> (#[trigger] self.buckets@[k]).base.value() < base.value(),
            forall|k: int|
                idx <= k < self.buckets@.len() ==> base.value() <= (
                #[trigger] self.buckets@[k]).base.value(),
            idx < self.buckets@.len() ==> self.buckets@[idx as int].base.value() != base.value(),
        ensures
            forall|k: int|
                0 <= k < self.buckets@.len() ==> (#[trigger] self.buckets@[k]).base.value()
                    != base.value(),
    {
        assert forall|k: int| 0 <= k < self.buckets@.len() implies (
        #[trigger] self.buckets@[k]).base.value() != base.value() by {
            if idx < k {
                assert(self.buckets@[idx as int].base.value() + T::width()
                    <= self.buckets@[k].base.value());
            }
        }
    }

    /// Adds `bit`.
    pub fn insert(&mut self, bit: T)
        requires
            old(self).wf(),
        ensures
            final(self).wf(),
            final(self)@ == old(self)@.insert(bit.value()),
    {
        let ghost s = self.buckets@;
        let ghost x = bit.value();
        let base = bit.bucket_base();
        proof {
            lemma_bucket_of::<T>(x);
            T::lemma_width();
        }
        let local = bit.sub(base);
        let single = T::one().shl(local);
        assert forall|i: nat| #[trigger] single.bit(i) == (i == local.value()) by {}
        let idx = self.find(base);
        if idx < self.buckets.len() && self.buckets[idx].base.equals(base) {
            let old_bucket = self.buckets[idx];
            let word = old_bucket.bits.or(single);
            let nb = Bucket::new(old_bucket.base, word);
            self.buckets.set(idx, nb);
            proof {
                let t = self.buckets@;
                assert forall|y: nat| #[trigger] nb.holds(y) == (old_bucket.holds(y) || y == x) by {}
                T::lemma_zero_bits(word);
                assert(word.bit(local.value()));
                assert forall|j: int, k: int|
                    #![trigger t[j], t[k]]
                    0 <= j < k < t.len() implies t[j].base.value() + T::width()
                        <= t[k].base.value() by {
                    assert(s[j].base.value() + T::width() <= s[k].base.value());
                }
                assert forall|k: int| 0 <= k < t.len() implies #[trigger] aligned(t[k].base) by {
                    assert(aligned(s[k].base));
                }
                assert forall|k: int| 0 <= k < t.len() implies (#[trigger] t[k]).bits.value()
                    != 0 by {
                    assert(s[k].bits.value() != 0);
                }
                assert forall|y: nat| members_of(t).contains(y) == members_of(s).insert(x).contains(
                    y,
                ) by {
                    if members_of(s).contains(y) {
                        let j = choose|j: int| 0 <= j < s.len() && #[trigger] s[j].holds(y);
                        assert(t[j].holds(y));
                    }
                    if y == x {
                        assert(t[idx as int].holds(y));
                    }
                    if members_of(t).contains(y) {
                        let j = choose|j: int| 0 <= j < t.len() && #[trigger] t[j].holds(y);
                        if j != idx {
                            assert(s[j].holds(y));
                        } else if y != x {
                            assert(s[j].holds(y));
                        }
                    }
                }
                assert(members_of(t) =~= members_of(s).insert(x));
            }
        } else {
            proof {
                self.lemma_no_bucket_at(base, idx);
            }
            let nb = Bucket::new(base, single);
            self.buckets.insert(idx, nb);
            proof {
                let t = self.buckets@;
                let i = idx as int;
                assert(t == s.insert(i, nb));
                assert forall|y: nat| #[trigger] nb.holds(y) == (y == x) by {}
                assert(nb.bits.bit(local.value()));
                T::lemma_zero_bits(nb.bits);
                assert(aligned(nb.base));
                assert forall|k: int| 0 <= k < t.len() implies #[trigger] aligned(t[k].base) by {
                    if k < i {
                        assert(t[k] == s[k]);
                    } else if k > i {
                        assert(t[k] == s[k - 1]);
                    }
                }
                assert forall|k: int| 0 <= k < t.len() implies (#[trigger] t[k]).bits.value()
                    != 0 by {
                    if k < i {
                        assert(t[k] == s[k]);
                    } else if k > i {
                        assert(t[k] == s[k - 1]);
                    }
                }
                assert forall|j: int, k: int|
                    #![trigger t[j], t[k]]
                    0 <= j < k < t.len() implies t[j].base.value() + T::width()
                        <= t[k].base.value() by {
                    if k < i {
                        assert(s[j].base.value() + T::width() <= s[k].base.value());
                    } else if j > i {
                        assert(s[j - 1].base.value() + T::width() <= s[k - 1].base.value());
                    } else if k == i {
                        assert(aligned(s[j].base));
                        lemma_aligned_gap::<T>(s[j].base.value(), base.value());
                    } else if j == i {
                        assert(aligned(s[k - 1].base));
                        lemma_aligned_gap::<T>(base.value(), s[k - 1].base.value());
                    } else {
                        assert(s[j].base.value() + T::width() <= s[k - 1].base.value());
                    }
                }
                assert forall|y: nat| members_of(t).contains(y) == members_of(s).insert(x).contains(
                    y,
                ) by {
                    if members_of(s).contains(y) {
                        let j = choose|j: int| 0 <= j < s.len() && #[trigger] s[j].holds(y);
                        if j < i {
                            assert(t[j].holds(y));
                        } else {
                            assert(t[j + 1].holds(y));
                        }
                    }
                    if y == x {
                        assert(t[i].holds(y));
                    }
                    if members_of(t).contains(y) {
                        let j = choose|j: int| 0 <= j < t.len() && #[trigger] t[j].holds(y);
                        if j < i {
                            assert(s[j].holds(y));
                        } else if j > i {
                            assert(s[j - 1].holds(y));
                        }
                    }
                }
                assert(members_of(t) =~= members_of(s).insert(x));
            }
        }
    }

    /// Removes `bit`; a bucket left with a zero word is dropped.
    pub fn remove(&mut self, bit: T)
        requires
            old(self).wf(),
        ensures
            final(self).wf(),
            final(self)@ == old(self)@.remove(bit.value()),
    {
        let ghost s = self.buckets@;
        let ghost x = bit.value();
        let base = bit.bucket_base();
        proof {
            lemma_bucket_of::<T>(x);
            T::lemma_width();
        }
        let local = bit.sub(base);
        let idx = self.find(base);
        if idx < self.buckets.len() && self.buckets[idx].base.equals(base) {
            let old_bucket = self.buckets[idx];
            let single = T::one().shl(local);
            let word = old_bucket.bits.and(single.not());
            let ghost i = idx as int;
            assert forall|y: nat| #[trigger]
                Bucket { base: old_bucket.base, bits: word }.holds(y) == (old_bucket.holds(y) && y != x) by {
                if old_bucket.base.value() <= y {
                    let i = (y - base.value()) as nat;
                    T::lemma_word(old_bucket.bits);
                    assert(single.bit(i) == (i == local.value()));
                }
            }
            if word.is_zero() {
                self.buckets.remove(idx);
                proof {
                    let t = self.buckets@;
                    assert(t == s.remove(i));
                    assert forall|k: int| 0 <= k < t.len() implies #[trigger] aligned(t[k].base) by {
                        if k < i {
                            assert(t[k] == s[k]);
                        } else {
                            assert(t[k] == s[k + 1]);
                        }
                    }
                    assert forall|k: int| 0 <= k < t.len() implies (#[trigger] t[k]).bits.value()
                        != 0 by {
                        if k < i {
                            assert(t[k] == s[k]);
                        } else {
                            assert(t[k] == s[k + 1]);
                        }
                    }
                    assert forall|j: int, k: int|
                        #![trigger t[j], t[k]]
                        0 <= j < k < t.len() implies t[j].base.value() + T::width()
                            <= t[k].base.value() by {
                        if k < i {
                            assert(s[j].base.value() + T::width() <= s[k].base.value());
                        } else if j >= i {
                            assert(s[j + 1].base.value() + T::width() <= s[k + 1].base.value());
                        } else {
                            assert(s[j].base.value() + T::width() <= s[k + 1].base.value());
                        }
                    }
                    assert forall|y: nat| members_of(t).contains(y) == members_of(s).remove(
                        x,
                    ).contains(y) by {
                        if members_of(s).contains(y) && y != x {
                            let j = choose|j: int| 0 <= j < s.len() && #[trigger] s[j].holds(y);
                            if j == i {
                                assert(Bucket { base: old_bucket.base, bits: word }.holds(y));
                                assert(word.bit((y - base.value()) as nat));
                            } else if j < i {
                                assert(t[j].holds(y));
                            } else {
                                assert(t[j - 1].holds(y));
                            }
                        }
                        if members_of(t).contains(y) {
                            let j = choose|j: int| 0 <= j < t.len() && #[trigger] t[j].holds(y);
                            let sj = if j < i {
                                j
                            } else {
                                j + 1
                            };
                            assert(s[sj].holds(y));
                            if y == x {
                                lemma_holder(s, x, sj);
                                if sj < i {
                                    assert(s[sj].base.value() + T::width() <= s[i].base.value());
                                } else {
                                    assert(s[i].base.value() + T::width() <= s[sj].base.value());
                                }
                            }
                        }
                    }
                    assert(members_of(t) =~= members_of(s).remove(x));
                }
            } else {
                let nb = Bucket::new(old_bucket.base, word);
                self.buckets.set(idx, nb);
                proof {
                    let t = self.buckets@;
                    T::lemma_zero_bits(word);
                    assert forall|j: int, k: int|
                        #![trigger t[j], t[k]]
                        0 <= j < k < t.len() implies t[j].base.value() + T::width()
                            <= t[k].base.value() by {
                        assert(s[j].base.value() + T::width() <= s[k].base.value());
                    }
                    assert forall|k: int| 0 <= k < t.len() implies #[trigger] aligned(t[k].base) by {
                        assert(aligned(s[k].base));
                    }
                    assert forall|k: int| 0 <= k < t.len() implies (#[trigger] t[k]).bits.value()
                        != 0 by {
                        assert(s[k].bits.value() != 0);
                    }
                    assert forall|y: nat| members_of(t).contains(y) == members_of(s).remove(
                        x,
                    ).contains(y) by {
                        if members_of(s).contains(y) && y != x {
                            let j = choose|j: int| 0 <= j < s.len() && #[trigger] s[j].holds(y);
                            assert(t[j].holds(y));
                        }
                        if members_of(t).contains(y) {
                            let j = choose|j: int| 0 <= j < t.len() && #[trigger] t[j].holds(y);
                            assert(s[j].holds(y));
                            if y == x && j != i {
                                lemma_holder(s, x, j);
                                if j < i {
                                    assert(s[j].base.value() + T::width() <= s[i].base.value());
                                } else {
                                    assert(s[i].base.value() + T::width() <= s[j].base.value());
                                }
                            }
                        }
                    }
                    assert(members_of(t) =~= members_of(s).remove(x));
                }
            }
        } else {
            proof {
                self.lemma_no_bucket_at(base, idx);
                lemma_member_absent(s, x);
                assert(members_of(s).remove(x) =~= members_of(s));
            }
        }
    }

    /// Removes every member.
    pub fn clear(&mut self)
        ensures
            final(self).wf(),
            final(self)@ == Set::<nat>::empty(),
    {
        self.buckets.clear();
        assert(self@ =~= Set::<nat>::empty());
    }

    /// The stored buckets, in ascending order of base.
    pub fn bucket_iter(&self) -> (r: RawRefIter<'_, T>)
        requires
            self.wf(),
        ensures
            r.wf(),
            r.view() == self.bucket_seq(),
            canonical(r.view()),
    {
        RawRefIter::new(&self.buckets)
    }

    /// The members in ascending order, one by one.
    pub fn iter(&self) -> (r: RefIterator<'_, T>)
        requires
            self.wf(),
        ensures
            r.wf(),
            r.view() == self@,
    {
        RefIterator::new(RawRefIter::new(&self.buckets))
    }
}

impl<T: Bits> TreeBitSet<T> {
    /// A set of the given members; order and repetition do not matter.
    pub fn from_slice(bits: &[T]) -> (r: Self)
        ensures
            r.wf(),
            r@ == values_of(bits@),
    {
        let mut r = Self::new();
        r.extend(bits);
        assert(r@ =~= values_of(bits@));
        r
    }

    /// Adds each of `bits`.
    pub fn extend(&mut self, bits: &[T])
        requires
            old(self).wf(),
        ensures
            final(self).wf(),
            final(self)@ == old(self)@ + values_of(bits@),
    {
        let mut i: usize = 0;
        while i < bits.len()
            invariant
                self.wf(),
                i <= bits@.len(),
                self@ == old(self)@ + values_of(bits@.subrange(0, i as int)),
            decreases bits@.len() - i,
        {
            let ghost prefix = bits@.subrange(0, i as int);
            let ghost next = bits@.subrange(0, i + 1);
            self.insert(bits[i]);
            proof {
                assert forall|x: nat| values_of(next).contains(x) == values_of(prefix).insert(
                    bits@[i as int].value(),
                ).contains(x) by {
                    if values_of(next).contains(x) {
                        let j = choose|j: int| 0 <= j < next.len() && #[trigger] next[j].value() == x;
                        if j < i {
                            assert(prefix[j] == next[j]);
                        }
                    }
                    if values_of(prefix).contains(x) {
                        let j = choose|j: int| 0 <= j < prefix.len() && #[trigger] prefix[j].value()
                            == x;
                        assert(next[j] == prefix[j]);
                    }
                    if x == bits@[i as int].value() {
                        assert(next[i as int] == bits@[i as int]);
                    }
                }
                assert(values_of(next) =~= values_of(prefix).insert(bits@[i as int].value()));
            }
            i = i + 1;
            assert(self@ =~= old(self)@ + values_of(next));
        }
        assert(bits@.subrange(0, bits@.len() as int) =~= bits@);
    }

    /// The members in ascending order.
    pub fn to_vec(&self) -> (r: Vec<T>)
        requires
            self.wf(),
        ensures
            ascending(r@),
            values_of(r@) == self@,
    {
        let mut it = self.iter();
        let mut out: Vec<T> = Vec::new();
        let ghost mut lo: nat = 0;
        loop
            invariant
                it.wf(),
                ascending(out@),
                values_of(out@) + it.view() == self@,
                forall|y: nat| it.view().contains(y) ==> lo <= y,
                forall|k: int| 0 <= k < out@.len() ==> (#[trigger] out@[k]).value() < lo,
                lo <= T::modulus(),
            ensures
                ascending(out@),
                values_of(out@) == self@,
            decreases T::modulus() - lo,
        {
            let ghost before = it.view();
            match it.next() {
                None => {
                    assert(values_of(out@) + it.view() =~= values_of(out@));
                    break ;
                },
                Some(m) => {
                    let ghost old_out = out@;
                    out.push(m);
                    proof {
                        T::lemma_word(m);
                        lo = m.value() + 1;
                        assert forall|x: nat| values_of(out@).contains(x) == values_of(
                            old_out,
                        ).insert(m.value()).contains(x) by {
                            if values_of(out@).contains(x) {
                                let j = choose|j: int|
                                    0 <= j < out@.len() && #[trigger] out@[j].value() == x;
                                if j < old_out.len() {
                                    assert(old_out[j] == out@[j]);
                                }
                            }
                            if values_of(old_out).contains(x) {
                                let j = choose|j: int|
                                    0 <= j < old_out.len() && #[trigger] old_out[j].value() == x;
                                assert(out@[j] == old_out[j]);
                            }
                            if x == m.value() {
                                assert(out@[old_out.len() as int] == m);
                            }
                        }
                        assert(values_of(out@) + it.view() =~= self@);
                    }
                },
            }
        }
        out
    }

    /// The members in ascending order, in braces and separated by commas:
    /// `{42, 43, 887, 6666}`.
    pub fn debug_string(&self) -> (r: String)
        requires
            self.wf(),
        ensures
            exists|s: Seq<T>| ascending(s) && values_of(s) == self@ && r@ == braces(s),
    {
        let members = self.to_vec();
        render_set(members.as_slice())
    }

    /// Gathers the members that a set operation yields into a new set.
    fn collect_from<'a, 'b, O: CombineOp<T>>(mut it: BitCombinationIterator<'a, 'b, T, O>) -> (r:
        Self)
        requires
            it.wf(),
        ensures
            r.wf(),
            r@ == it.view(),
    {
        let ghost all = it.view();
        let mut r = Self::new();
        let ghost mut lo: nat = 0;
        loop
            invariant
                it.wf(),
                r.wf(),
                r@ + it.view() == all,
                forall|y: nat| it.view().contains(y) ==> lo <= y,
                lo <= T::modulus(),
            ensures
                r.wf(),
                r@ == all,
            decreases T::modulus() - lo,
        {
            match it.next() {
                None => {
                    assert(r@ + it.view() =~= r@);
                    break ;
                },
                Some(m) => {
                    let ghost before = r@;
                    r.insert(m);
                    proof {
                        T::lemma_word(m);
                        lo = m.value() + 1;
                        assert(r@ + it.view() =~= all);
                    }
                },
            }
        }
        r
    }

    /// The members of `self` or of `q`, lazily and in ascending order.
    pub fn union<'q>(&self, q: &'q TreeBitSet<T>) -> (r: Union<'_, 'q, T>)
        requires
            self.wf(),
            q.wf(),
        ensures
            r.wf(),
            r.view() == self@ + q@,
    {
        let bit_iter = BitCombinationIterator::new(
            BucketCombinationIterator::new(self.bucket_iter(), q.bucket_iter()),
            op::Union,
        );
        assert(combined::<T, op::Union>(self@, q@) =~= self@ + q@);
        Union { bit_iter }
    }

    /// The members of both `self` and `q`, lazily and in ascending order.
    pub fn intersection<'q>(&self, q: &'q TreeBitSet<T>) -> (r: Intersection<'_, 'q, T>)
        requires
            self.wf(),
            q.wf(),
        ensures
            r.wf(),
            r.view() == self@.intersect(q@),
    {
        let bit_iter = BitCombinationIterator::new(
            BucketCombinationIterator::new(self.bucket_iter(), q.bucket_iter()),
            op::Intersection,
        );
        assert(combined::<T, op::Intersection>(self@, q@) =~= self@.intersect(q@));
        Intersection { bit_iter }
    }

    /// The members of `self` that are not members of `q`, lazily and in
    /// ascending order.
    pub fn difference<'q>(&self, q: &'q TreeBitSet<T>) -> (r: Difference<'_, 'q, T>)
        requires
            self.wf(),
            q.wf(),
        ensures
            r.wf(),
            r.view() == self@.difference(q@),
    {
        let bit_iter = BitCombinationIterator::new(
            BucketCombinationIterator::new(self.bucket_iter(), q.bucket_iter()),
            op::Difference,
        );
        assert(combined::<T, op::Difference>(self@, q@) =~= self@.difference(q@));
        Difference { bit_iter }
    }
}

/// Canonical buckets are determined by the members they mark.
proof fn lemma_canonical_unique<T: Bits>(a: Seq<Bucket<T>>, b: Seq<Bucket<T>>)
    requires
        canonical(a),
        canonical(b),
        members_of(a) == members_of(b),
    ensures
        a == b,
    decreases a.len(),
{
    T::lemma_width();
    if a.len() == 0 || b.len() == 0 {
        if a.len() > 0 {
            lemma_members_empty(b);
            lemma_some_member(a);
        } else if b.len() > 0 {
            lemma_members_empty(a);
            lemma_some_member(b);
        }
        assert(a =~= b);
    } else {
        let xa = lemma_some_member(a);
        let xb = lemma_some_member(b);
        let ja = choose|j: int| 0 <= j < b.len() && #[trigger] b[j].holds(xa);
        let jb = choose|j: int| 0 <= j < a.len() && #[trigger] a[j].holds(xb);
        lemma_holder(a, xa, 0);
        lemma_holder(b, xa, ja);
        lemma_holder(b, xb, 0);
        lemma_holder(a, xb, jb);
        if ja > 0 {
            assert(b[0].base.value() + T::width() <= b[ja].base.value());
        }
        if jb > 0 {
            assert(a[0].base.value() + T::width() <= a[jb].base.value());
        }
        let base = a[0].base.value();
        assert(b[0].base.value() == base);
        assert forall|i: nat| i < T::width() implies a[0].bits.bit(i) == b[0].bits.bit(i) by {
            let x = base + i;
            assert(aligned(a[0].base));
            lemma_bucket_unique::<T>(x, base);
            lemma_member_at(a, x, 0);
            lemma_member_at(b, x, 0);
        }
        T::lemma_bits_injective(a[0].bits, b[0].bits);
        T::lemma_value_injective(a[0].base, b[0].base);
        lemma_members_first(a);
        lemma_members_first(b);
        let ta = a.drop_first();
        let tb = b.drop_first();
        assert forall|x: nat| members_of(ta).contains(x) == members_of(tb).contains(x) by {
            if members_of(ta).contains(x) {
                iter::lemma_members_above(ta, x);
                assert(ta[0] == a[1]);
                assert(a[0].base.value() + T::width() <= a[1].base.value());
                assert(members_of(b).contains(x));
                if b[0].holds(x) {
                    lemma_holds_range(b[0], x);
                }
            }
            if members_of(tb).contains(x) {
                iter::lemma_members_above(tb, x);
                assert(tb[0] == b[1]);
                assert(b[0].base.value() + T::width() <= b[1].base.value());
                assert(members_of(a).contains(x));
                if a[0].holds(x) {
                    lemma_holds_range(a[0], x);
                }
            }
        }
        assert(members_of(ta) =~= members_of(tb));
        assert forall|k: int| 0 <= k < ta.len() implies (#[trigger] ta[k]).bits.value() != 0 by {
            assert(ta[k] == a[k + 1]);
        }
        assert forall|k: int| 0 <= k < tb.len() implies (#[trigger] tb[k]).bits.value() != 0 by {
            assert(tb[k] == b[k + 1]);
        }
        lemma_canonical_unique(ta, tb);
        assert(a[0] == b[0]);
        assert forall|k: int| 0 <= k < a.len() implies a[k] == b[k] by {
            if k > 0 {
                assert(a[k] == ta[k - 1]);
                assert(b[k] == tb[k - 1]);
            }
        }
        assert(a =~= b);
    }
}

/// The first bucket of canonical buckets marks a member.
proof fn lemma_some_member<T: Bits>(s: Seq<Bucket<T>>) -> (x: nat)
    requires
        canonical(s),
        s.len() > 0,
    ensures
        s[0].holds(x),
        members_of(s).contains(x),
{
    T::lemma_zero_bits(s[0].bits);
    let i = choose|i: nat| #[trigger] s[0].bits.bit(i);
    let x = s[0].base.value() + i;
    assert(s[0].holds(x));
    x
}

/// Strictly ascending words are determined by their values.
pub proof fn lemma_ascending_unique<T: Bits>(a: Seq<T>, b: Seq<T>)
    requires
        ascending(a),
        ascending(b),
        values_of(a) == values_of(b),
    ensures
        a == b,
    decreases a.len(),
{
    if a.len() == 0 || b.len() == 0 {
        if a.len() > 0 {
            assert(values_of(a).contains(a[0].value()));
        } else if b.len() > 0 {
            assert(values_of(b).contains(b[0].value()));
        }
        assert(a =~= b);
    } else {
        assert(values_of(a).contains(a[0].value()));
        assert(values_of(b).contains(b[0].value()));
        let ja = choose|j: int| 0 <= j < b.len() && #[trigger] b[j].value() == a[0].value();
        let jb = choose|j: int| 0 <= j < a.len() && #[trigger] a[j].value() == b[0].value();
        if ja > 0 {
            assert(b[0].value() < b[ja].value());
        }
        if jb > 0 {
            assert(a[0].value() < a[jb].value());
        }
        T::lemma_value_injective(a[0], b[0]);
        let ta = a.drop_first();
        let tb = b.drop_first();
        assert forall|x: nat| values_of(ta).contains(x) == values_of(tb).contains(x) by {
            if values_of(ta).contains(x) {
                let j = choose|j: int| 0 <= j < ta.len() && #[trigger] ta[j].value() == x;
                assert(a[j + 1].value() == x);
                assert(a[0].value() < a[j + 1].value());
                assert(values_of(a).contains(x));
                let k = choose|k: int| 0 <= k < b.len() && #[trigger] b[k].value() == x;
                assert(k > 0);
                assert(tb[k - 1] == b[k]);
            }
            if values_of(tb).contains(x) {
                let j = choose|j: int| 0 <= j < tb.len() && #[trigger] tb[j].value() == x;
                assert(b[j + 1].value() == x);
                assert(b[0].value() < b[j + 1].value());
                assert(values_of(b).contains(x));
                let k = choose|k: int| 0 <= k < a.len() && #[trigger] a[k].value() == x;
                assert(k > 0);
                assert(ta[k - 1] == a[k]);
            }
        }
        assert(values_of(ta) =~= values_of(tb));
        lemma_ascending_unique(ta, tb);
        assert forall|k: int| 0 <= k < a.len() implies a[k] == b[k] by {
            if k > 0 {
                assert(a[k] == ta[k - 1]);
                assert(b[k] == tb[k - 1]);
            }
        }
        assert(a =~= b);
    }
}

impl<T: Bits> TreeBitSet<T> {
    /// Whatever inserts and removes led to a set, no stored bucket holds a
    /// zero word.
    pub proof fn lemma_no_zero_bucket(&self)
        requires
            self.wf(),
        ensures
            forall|k: int|
                0 <= k < self.bucket_seq().len() ==> (
                #[trigger] self.bucket_seq()[k]).bits.value() != 0,
    {
    }

    /// Two sets with the same members store the same buckets, so structural
    /// equality is equality of members.
    pub proof fn lemma_same_members_same_buckets(a: &Self, b: &Self)
        requires
            a.wf(),
            b.wf(),
            a@ == b@,
        ensures
            a.bucket_seq() == b.bucket_seq(),
    {
        lemma_canonical_unique(a.buckets@, b.buckets@);
    }

    /// Inserting a member twice leaves the same set, down to the stored
    /// buckets, as inserting it once.
    pub proof fn lemma_insert_idempotent(start: Set<nat>, x: nat, once: &Self, twice: &Self)
        requires
            once.wf(),
            twice.wf(),
            once@ == start.insert(x),
            twice@ == start.insert(x).insert(x),
        ensures
            once@ == twice@,
            once.bucket_seq() == twice.bucket_seq(),
    {
        assert(start.insert(x).insert(x) =~= start.insert(x));
        Self::lemma_same_members_same_buckets(once, twice);
    }

    /// Sets built from two orderings of the same members are equal, down to
    /// the stored buckets.
    pub proof fn lemma_order_independent(a: Seq<T>, b: Seq<T>, from_a: &Self, from_b: &Self)
        requires
            a.to_multiset() == b.to_multiset(),
            from_a.wf(),
            from_b.wf(),
            from_a@ == values_of(a),
            from_b@ == values_of(b),
        ensures
            from_a@ == from_b@,
            from_a.bucket_seq() == from_b.bucket_seq(),
    {
        a.to_multiset_ensures();
        b.to_multiset_ensures();
        assert forall|x: nat| values_of(a).contains(x) == values_of(b).contains(x) by {
            if values_of(a).contains(x) {
                let i = choose|i: int| 0 <= i < a.len() && #[trigger] a[i].value() == x;
                assert(a.contains(a[i]));
                assert(b.to_multiset().count(a[i]) > 0);
                let k = choose|k: int| 0 <= k < b.len() && b[k] == a[i];
                assert(b[k].value() == x);
            }
            if values_of(b).contains(x) {
                let i = choose|i: int| 0 <= i < b.len() && #[trigger] b[i].value() == x;
                assert(b.contains(b[i]));
                assert(a.to_multiset().count(b[i]) > 0);
                let k = choose|k: int| 0 <= k < a.len() && a[k] == b[i];
                assert(a[k].value() == x);
            }
        }
        assert(values_of(a) =~= values_of(b));
        Self::lemma_same_members_same_buckets(from_a, from_b);
    }

    /// A member inserted and then removed is no member afterwards, and is
    /// missing from the ascending listing.
    pub proof fn lemma_insert_then_remove(start: Set<nat>, m: T, after: &Self, listed: Seq<T>)
        requires
            after.wf(),
            after@ == start.insert(m.value()).remove(m.value()),
            values_of(listed) == after@,
        ensures
            !after@.contains(m.value()),
            forall|i: int| 0 <= i < listed.len() ==> (#[trigger] listed[i]).value() != m.value(),
    {
        assert forall|i: int| 0 <= i < listed.len() implies (#[trigger] listed[i]).value()
            != m.value() by {
            assert(values_of(listed).contains(listed[i].value()));
        }
    }
}

impl<T: Bits> Default for TreeBitSet<T> {
    fn default() -> (r: Self)
        ensures
            r.wf(),
            r@ == Set::<nat>::empty(),
    {
        Self::new()
    }
}

/// The members of the union of two sets, lowest first.
pub struct Union<'p, 'q, T> {
    bit_iter: BitCombinationIterator<'p, 'q, T, op::Union>,
}

impl<'p, 'q, T: Bits> Union<'p, 'q, T> {
    /// The members not yet returned.
    pub closed spec fn view(&self) -> Set<nat> {
        self.bit_iter.view()
    }

    pub closed spec fn wf(&self) -> bool {
        self.bit_iter.wf()
    }

    /// Returns the lowest member not yet returned, or `None` once none is left.
    pub fn next(&mut self) -> (r: Option<T>)
        requires
            old(self).wf(),
        ensures
            final(self).wf(),
            match r {
                None => old(self).view() == Set::<nat>::empty() && final(self).view() == old(
                    self,
                ).view(),
                Some(m) => {
                    &&& old(self).view().contains(m.value())
                    &&& forall|x: nat| old(self).view().contains(x) ==> m.value() <= x
                    &&& final(self).view() == old(self).view().remove(m.value())
                },
            },
    {
        self.bit_iter.next()
    }

    /// Gathers the members not yet returned into a new set.
    pub fn collect(self) -> (r: TreeBitSet<T>)
        requires
            self.wf(),
        ensures
            r.wf(),
            r@ == self.view(),
    {
        TreeBitSet::collect_from(self.bit_iter)
    }
}

/// The members of the intersection of two sets, lowest first.
pub struct Intersection<'p, 'q, T> {
    bit_iter: BitCombinationIterator<'p, 'q, T, op::Intersection>,
}

impl<'p, 'q, T: Bits> Intersection<'p, 'q, T> {
    /// The members not yet returned.
    pub closed spec fn view(&self) -> Set<nat> {
        self.bit_iter.view()
    }

    pub closed spec fn wf(&self) -> bool {
        self.bit_iter.wf()
    }

    /// Returns the lowest member not yet returned, or `None` once none is left.
    pub fn next(&mut self) -> (r: Option<T>)
        requires
            old(self).wf(),
        ensures
            final(self).wf(),
            match r {
                None => old(self).view() == Set::<nat>::empty() && final(self).view() == old(
                    self,
                ).view(),
                Some(m) => {
                    &&& old(self).view().contains(m.value())
                    &&& forall|x: nat| old(self).view().contains(x) ==> m.value() <= x
                    &&& final(self).view() == old(self).view().remove(m.value())
                },
            },
    {
        self.bit_iter.next()
    }

    /// Gathers the members not yet returned into a new set.
    pub fn collect(self) -> (r: TreeBitSet<T>)
        requires
            self.wf(),
        ensures
            r.wf(),
            r@ == self.view(),
    {
        TreeBitSet::collect_from(self.bit_iter)
    }
}

/// The members of the difference of two sets, lowest first.
pub struct Difference<'p, 'q, T> {
    bit_iter: BitCombinationIterator<'p, 'q, T, op::Difference>,
}

impl<'p, 'q, T: Bits> Difference<'p, 'q, T> {
    /// The members not yet returned.
    pub closed spec fn view(&self) -> Set<nat> {
        self.bit_iter.view()
    }

    pub closed spec fn wf(&self) -> bool {
        self.bit_iter.wf()
    }

    /// Returns the lowest member not yet returned, or `None` once none is left.
    pub fn next(&mut self) -> (r: Option<T>)
        requires
            old(self).wf(),
        ensures
            final(self).wf(),
            match r {
                None => old(self).view() == Set::<nat>::empty() && final(self).view() == old(
                    self,
                ).view(),
                Some(m) => {
                    &&& old(self).view().contains(m.value())
                    &&& forall|x: nat| old(self).view().contains(x) ==> m.value() <= x
                    &&& final(self).view() == old(self).view().remove(m.value())
                },
            },
    {
        self.bit_iter.next()
    }

    /// Gathers the members not yet returned into a new set.
    pub fn collect(self) -> (r: TreeBitSet<T>)
        requires
            self.wf(),
        ensures
            r.wf(),
            r@ == self.view(),
    {
        TreeBitSet::collect_from(self.bit_iter)
    }
}


} // verus!
