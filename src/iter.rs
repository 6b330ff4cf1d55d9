use crate::bits::Bits;
use vstd::prelude::*;

verus! {

/// One bucket: the word `bits`, whose bit `i` marks the member `base + i`.
#[derive(Clone, Copy, Debug, PartialEq, Eq, PartialOrd, Ord, Hash)]
pub struct Bucket<T> {
    pub base: T,
    pub bits: T,
}

impl<T> Bucket<T> {
    pub fn new(base: T, bits: T) -> (r: Self)
        ensures
            r.base == base,
            r.bits == bits,
    {
        Self { base, bits }
    }
}

impl<T: Bits> Bucket<T> {
    /// Whether `x` is one of the members that the bucket marks.
    pub open spec fn holds(self, x: nat) -> bool {
        &&& self.base.value() <= x
        &&& self.bits.bit((x - self.base.value()) as nat)
    }

    /// The members that the bucket marks.
    pub open spec fn members(self) -> Set<nat> {
        Set::new(|x: nat| self.holds(x))
    }

    /// Every member that the bucket marks is a value of the word type.
    pub open spec fn fits(self) -> bool {
        forall|i: nat| #[trigger] self.bits.bit(i) ==> self.base.value() + i < T::modulus()
    }
}

/// Whether `v` is a multiple of the word width, as a bucket base is.
pub open spec fn aligned<T: Bits>(v: T) -> bool {
    v.value() % T::width() == 0
}

/// Buckets in ascending order of base, each base aligned, so that no two
/// buckets share a member.
pub open spec fn ordered_buckets<T: Bits>(s: Seq<Bucket<T>>) -> bool {
    &&& forall|k: int| 0 <= k < s.len() ==> #[trigger] aligned(s[k].base)
    &&& forall|j: int, k: int|
        #![trigger s[j], s[k]]
        0 <= j < k < s.len() ==> s[j].base.value() + T::width() <= s[k].base.value()
}

/// The members that a sequence of buckets marks.
pub open spec fn members_of<T: Bits>(s: Seq<Bucket<T>>) -> Set<nat> {
    Set::new(|x: nat| exists|k: int| 0 <= k < s.len() && #[trigger] s[k].holds(x))
}

/// An aligned value leaves room for a whole bucket below the modulus.
pub proof fn lemma_aligned_fits<T: Bits>(b: Bucket<T>)
    requires
        aligned(b.base),
    ensures
        b.base.value() + T::width() <= T::modulus(),
        b.fits(),
{
    T::lemma_width();
    T::lemma_word(b.base);
    T::lemma_word(b.bits);
    let w = T::width() as int;
    let a = b.base.value() as int;
    let m = T::modulus() as int;
    vstd::arithmetic::div_mod::lemma_fundamental_div_mod(a, w);
    vstd::arithmetic::div_mod::lemma_fundamental_div_mod(m, w);
    let p = a / w;
    let q = m / w;
    assert(a == w * p);
    assert(m == w * q);
    assert(w * p + w <= w * q) by (nonlinear_arith)
        requires
            w > 1,
            w * p < w * q,
    ;
}

/// The bucket that holds `x` starts at `x - x % width`, an aligned value.
pub proof fn lemma_bucket_of<T: Bits>(x: nat)
    ensures
        x % T::width() < T::width(),
        (x - x % T::width()) as nat % T::width() == 0,
{
    T::lemma_width();
    let w = T::width() as int;
    let xi = x as int;
    vstd::arithmetic::div_mod::lemma_fundamental_div_mod(xi, w);
    vstd::arithmetic::div_mod::lemma_mod_pos_bound(xi, w);
    let q = xi / w;
    assert(xi - xi % w == q * w) by (nonlinear_arith)
        requires
            xi == w * q + xi % w,
    ;
    vstd::arithmetic::div_mod::lemma_mod_multiples_basic(q, w);
}

/// The one aligned value within a width at or below `x` is `x - x % width`.
pub proof fn lemma_bucket_unique<T: Bits>(x: nat, a: nat)
    requires
        a % T::width() == 0,
        a <= x < a + T::width(),
    ensures
        a == x - x % T::width(),
{
    T::lemma_width();
    let w = T::width() as int;
    let ai = a as int;
    vstd::arithmetic::div_mod::lemma_fundamental_div_mod(ai, w);
    let p = ai / w;
    assert(x == p * w + (x - ai)) by (nonlinear_arith)
        requires
            ai == w * p + 0,
    ;
    vstd::arithmetic::div_mod::lemma_fundamental_div_mod_converse(x as int, w, p, x - ai);
}

/// Two aligned values lie at least a width apart.
pub proof fn lemma_aligned_gap<T: Bits>(a: nat, b: nat)
    requires
        a % T::width() == 0,
        b % T::width() == 0,
        a < b,
    ensures
        a + T::width() <= b,
{
    T::lemma_width();
    let w = T::width() as int;
    vstd::arithmetic::div_mod::lemma_fundamental_div_mod(a as int, w);
    vstd::arithmetic::div_mod::lemma_fundamental_div_mod(b as int, w);
    let p = a as int / w;
    let q = b as int / w;
    assert(w * p + w <= w * q) by (nonlinear_arith)
        requires
            w > 1,
            w * p < w * q,
    ;
}

/// A bucket holds members only within a width above its base.
pub proof fn lemma_holds_range<T: Bits>(b: Bucket<T>, x: nat)
    requires
        b.holds(x),
    ensures
        b.base.value() <= x < b.base.value() + T::width(),
{
    T::lemma_word(b.bits);
}

/// In ordered buckets, a member is held only by the bucket whose base is the
/// member's own bucket base.
pub proof fn lemma_holder<T: Bits>(s: Seq<Bucket<T>>, x: nat, j: int)
    requires
        ordered_buckets(s),
        0 <= j < s.len(),
        s[j].holds(x),
    ensures
        s[j].base.value() == x - x % T::width(),
{
    lemma_holds_range(s[j], x);
    assert(aligned(s[j].base));
    lemma_bucket_unique::<T>(x, s[j].base.value());
}

/// In ordered buckets, a member belongs to the set exactly when the bucket
/// with the member's bucket base holds it.
pub proof fn lemma_member_at<T: Bits>(s: Seq<Bucket<T>>, x: nat, k: int)
    requires
        ordered_buckets(s),
        0 <= k < s.len(),
        s[k].base.value() == x - x % T::width(),
    ensures
        members_of(s).contains(x) == s[k].holds(x),
{
    T::lemma_width();
    if members_of(s).contains(x) {
        let j = choose|j: int| 0 <= j < s.len() && #[trigger] s[j].holds(x);
        lemma_holder(s, x, j);
        if j < k {
            assert(s[j].base.value() + T::width() <= s[k].base.value());
        } else if k < j {
            assert(s[k].base.value() + T::width() <= s[j].base.value());
        }
    }
}

/// In ordered buckets, a member whose bucket base starts no bucket is absent.
pub proof fn lemma_member_absent<T: Bits>(s: Seq<Bucket<T>>, x: nat)
    requires
        ordered_buckets(s),
        forall|k: int| 0 <= k < s.len() ==> (#[trigger] s[k]).base.value() != x - x % T::width(),
    ensures
        !members_of(s).contains(x),
{
    if members_of(s).contains(x) {
        let j = choose|j: int| 0 <= j < s.len() && #[trigger] s[j].holds(x);
        lemma_holder(s, x, j);
    }
}

/// The members of a non-empty sequence: those of its first bucket and those of the rest.
pub proof fn lemma_members_first<T: Bits>(s: Seq<Bucket<T>>)
    requires
        s.len() > 0,
    ensures
        members_of(s) == s[0].members() + members_of(s.drop_first()),
        ordered_buckets(s) ==> ordered_buckets(s.drop_first()),
{
    let t = s.drop_first();
    assert forall|x: nat| members_of(s).contains(x) == (s[0].members() + members_of(t)).contains(
        x,
    ) by {
        if members_of(s).contains(x) {
            let j = choose|j: int| 0 <= j < s.len() && #[trigger] s[j].holds(x);
            if j > 0 {
                assert(t[j - 1] == s[j]);
            }
        }
        if members_of(t).contains(x) {
            let j = choose|j: int| 0 <= j < t.len() && #[trigger] t[j].holds(x);
            assert(t[j] == s[j + 1]);
        }
        if s[0].members().contains(x) {
            assert(s[0].holds(x));
        }
    }
    assert(members_of(s) =~= s[0].members() + members_of(t));
    if ordered_buckets(s) {
        assert forall|j: int, k: int|
            #![trigger t[j], t[k]]
            0 <= j < k < t.len() implies t[j].base.value() + T::width() <= t[k].base.value() by {
            assert(t[j] == s[j + 1] && t[k] == s[k + 1]);
        }
        assert forall|k: int| 0 <= k < t.len() implies #[trigger] aligned(t[k].base) by {
            assert(t[k] == s[k + 1]);
        }
    }
}

/// The members of no buckets.
pub proof fn lemma_members_empty<T: Bits>(s: Seq<Bucket<T>>)
    requires
        s.len() == 0,
    ensures
        members_of(s) == Set::<nat>::empty(),
{
    assert(members_of(s) =~= Set::<nat>::empty());
}

/// Every member of an ordered sequence lies at or above the first base.
pub proof fn lemma_members_above<T: Bits>(s: Seq<Bucket<T>>, x: nat)
    requires
        ordered_buckets(s),
        members_of(s).contains(x),
    ensures
        s.len() > 0,
        s[0].base.value() <= x,
{
    let j = choose|j: int| 0 <= j < s.len() && #[trigger] s[j].holds(x);
    if j > 0 {
        assert(s[0].base.value() + T::width() <= s[j].base.value());
    }
}

/// A cursor over the buckets of a bucket store, in ascending order of base.
pub struct RawRefIter<'b, T> {
    buckets: &'b Vec<Bucket<T>>,
    pos: usize,
}

impl<'b, T> RawRefIter<'b, T> {
    /// The buckets not yet read.
    pub closed spec fn view(&self) -> Seq<Bucket<T>> {
        self.buckets@.subrange(self.pos as int, self.buckets@.len() as int)
    }

    pub closed spec fn wf(&self) -> bool {
        self.pos <= self.buckets@.len()
    }

    pub fn new(buckets: &'b Vec<Bucket<T>>) -> (r: Self)
        ensures
            r.wf(),
            r.view() == buckets@,
    {
        let r = RawRefIter { buckets, pos: 0 };
        assert(r.view() =~= buckets@);
        r
    }
}

/// Reads the next bucket, if any.
pub fn next_bucket<'b, T: Copy>(raw: &mut RawRefIter<'b, T>) -> (r: Option<Bucket<T>>)
    requires
        old(raw).wf(),
    ensures
        final(raw).wf(),
        old(raw).view().len() == 0 ==> r is None && final(raw).view() == old(raw).view(),
        old(raw).view().len() > 0 ==> r == Some(old(raw).view()[0]) && final(raw).view()
            == old(raw).view().drop_first(),
{
    if raw.pos < raw.buckets.len() {
        let b = raw.buckets[raw.pos];
        raw.pos = raw.pos + 1;
        proof {
            assert(final(raw).view() =~= old(raw).view().drop_first());
        }
        Some(b)
    } else {
        None
    }
}

/// Reads the next bucket, if any, and starts to unpack it.
pub fn next_bucket_iterator<'b, T: Bits>(raw: &mut RawRefIter<'b, T>) -> (r: Option<
    BucketIterator<T>,
>)
    requires
        old(raw).wf(),
        old(raw).view().len() > 0 ==> old(raw).view()[0].fits(),
    ensures
        final(raw).wf(),
        old(raw).view().len() == 0 ==> r is None && final(raw).view() == old(raw).view(),
        old(raw).view().len() > 0 ==> r is Some && r.unwrap().wf() && r.unwrap().view()
            == old(raw).view()[0].members() && final(raw).view() == old(raw).view().drop_first(),
{
    match next_bucket(raw) {
        Some(b) => Some(BucketIterator::new(b)),
        None => None,
    }
}

/// Unpacks one bucket into its members, lowest first.
pub struct BucketIterator<T> {
    cursor: T,
    remaining_bits: T,
}

impl<T: Bits> BucketIterator<T> {
    /// The members not yet returned: the set bits of `remaining_bits`,
    /// counted from `cursor`.
    pub closed spec fn view(&self) -> Set<nat> {
        Set::new(
            |x: nat|
                self.cursor.value() <= x && self.remaining_bits.bit(
                    (x - self.cursor.value()) as nat,
                ),
        )
    }

    /// Every member still to come is a value of the word type.
    pub closed spec fn wf(&self) -> bool {
        forall|i: nat| #[trigger]
            self.remaining_bits.bit(i) ==> self.cursor.value() + i < T::modulus()
    }

    pub fn new(bucket: Bucket<T>) -> (r: Self)
        requires
            bucket.fits(),
        ensures
            r.wf(),
            r.view() == bucket.members(),
    {
        let r = Self { cursor: bucket.base, remaining_bits: bucket.bits };
        assert(r.view() =~= bucket.members());
        r
    }

    /// Returns the lowest member not yet returned, or `None` once none is left.
    pub fn next(&mut self) -> (r: Option<T>)
        requires
            old(self).wf(),
        ensures
            final(self).wf(),
            match r {
                None => old(self).view() == Set::<nat>::empty() && final(self).view() == old(
                    self,
                ).view(),
                Some(m) => {
                    &&& old(self).view().contains(m.value())
                    &&& forall|x: nat| old(self).view().contains(x) ==> m.value() <= x
                    &&& final(self).view() == old(self).view().remove(m.value())
                },
            },
    {
        let ghost c = self.cursor.value();
        let ghost rem = self.remaining_bits;
        proof {
            T::lemma_width();
            T::lemma_word(rem);
        }
        if self.remaining_bits.is_zero() {
            assert(old(self).view() =~= Set::<nat>::empty());
            return None;
        }
        let trailing = self.remaining_bits.trailing_zeros();
        let ghost t = trailing.value();
        assert(rem.bit(t));
        let member = self.cursor.add(trailing);
        let one = T::one();
        // Two shifts, so that no shift reaches the width when the top bit is consumed.
        let shifted = self.remaining_bits.shr(trailing);
        let rest = shifted.shr(one);
        assert forall|i: nat| #[trigger] rest.bit(i) == rem.bit(i + t + 1) by {
            assert(shifted.bit(i + 1) == rem.bit(i + 1 + t));
        }
        self.remaining_bits = rest;
        let more = !rest.is_zero();
        if more {
            // The cursor moves only while bits remain, so it never passes the largest word.
            proof {
                let i = choose|i: nat| rest.bit(i);
                assert(rem.bit(i + t + 1));
            }
            self.cursor = member.add(one);
        }
        proof {
            let new_view = final(self).view();
            let old_view = old(self).view();
            assert forall|x: nat| new_view.contains(x) == old_view.remove(member.value()).contains(
                x,
            ) by {
                if old_view.contains(x) && x != member.value() {
                    assert(x - c > t) by {
                        if x - c < t {
                            assert(!rem.bit((x - c) as nat));
                        }
                    }
                    assert(rest.bit((x - c - t - 1) as nat));
                }
                if new_view.contains(x) {
                    assert(more);
                    assert(rem.bit((x - c) as nat));
                }
            }
            assert(new_view =~= old_view.remove(member.value()));
            assert forall|i: nat| #[trigger] rest.bit(i) implies final(self).cursor.value() + i
                < T::modulus() by {
                assert(rem.bit(i + t + 1));
            }
        }
        Some(member)
    }
}

/// Full ascending enumeration of one bucket store: unpacks each bucket in turn.
pub struct RefIterator<'b, T> {
    pub(crate) raw: RawRefIter<'b, T>,
    pub(crate) bucket_iter: Option<BucketIterator<T>>,
}

impl<'b, T: Bits> RefIterator<'b, T> {
    /// The members not yet returned.
    pub closed spec fn view(&self) -> Set<nat> {
        match self.bucket_iter {
            Some(bi) => bi.view() + members_of(self.raw.view()),
            None => Set::empty(),
        }
    }

    /// The buckets still to read are ordered, and the bucket being unpacked
    /// lies wholly below them.
    pub closed spec fn wf(&self) -> bool {
        &&& self.raw.wf()
        &&& ordered_buckets(self.raw.view())
        &&& match self.bucket_iter {
            Some(bi) => {
                &&& bi.wf()
                &&& forall|x: nat, k: int|
                    #![trigger bi.view().contains(x), self.raw.view()[k]]
                    bi.view().contains(x) && 0 <= k < self.raw.view().len() ==> x
                        < self.raw.view()[k].base.value()
            },
            None => self.raw.view().len() == 0,
        }
    }

    /// Starts the enumeration of ordered buckets.
    pub(crate) fn new(mut raw: RawRefIter<'b, T>) -> (r: Self)
        requires
            raw.wf(),
            ordered_buckets(raw.view()),
        ensures
            r.wf(),
            r.view() == members_of(raw.view()),
    {
        let ghost s = raw.view();
        proof {
            if s.len() > 0 {
                lemma_aligned_fits(s[0]);
                lemma_members_first(s);
            } else {
                lemma_members_empty(s);
            }
        }
        let bucket_iter = next_bucket_iterator(&mut raw);
        let r = RefIterator { raw, bucket_iter };
        proof {
            if s.len() > 0 {
                assert forall|x: nat, k: int|
                    #![trigger r.bucket_iter.unwrap().view().contains(x), r.raw.view()[k]]
                    r.bucket_iter.unwrap().view().contains(x) && 0 <= k < r.raw.view().len()
                        implies x < r.raw.view()[k].base.value() by {
                    assert(s[0].holds(x));
                    lemma_holds_range(s[0], x);
                    assert(r.raw.view()[k] == s[k + 1]);
                }
            }
        }
        r
    }

    /// Returns the lowest member not yet returned, or `None` once none is left.
    pub fn next(&mut self) -> (r: Option<T>)
        requires
            old(self).wf(),
        ensures
            final(self).wf(),
            match r {
                None => old(self).view() == Set::<nat>::empty() && final(self).view() == old(
                    self,
                ).view(),
                Some(m) => {
                    &&& old(self).view().contains(m.value())
                    &&& forall|x: nat| old(self).view().contains(x) ==> m.value() <= x
                    &&& final(self).view() == old(self).view().remove(m.value())
                },
            },
    {
        loop
            invariant
                self.wf(),
                self.view() == old(self).view(),
            decreases self.raw.view().len() + if self.bucket_iter is Some {
                1int
            } else {
                0int
            },
        {
            let ghost before = *self;
            match &mut self.bucket_iter {
                None => {
                    return None;
                },
                Some(bucket_iter) => {
                    match bucket_iter.next() {
                        Some(bit) => {
                            proof {
                                let bv = before.bucket_iter.unwrap().view();
                                let rest = members_of(self.raw.view());
                                assert forall|x: nat| before.view().contains(x) implies bit.value()
                                    <= x by {
                                    if rest.contains(x) {
                                        lemma_members_above(self.raw.view(), x);
                                    }
                                }
                                assert(!rest.contains(bit.value())) by {
                                    if rest.contains(bit.value()) {
                                        lemma_members_above(self.raw.view(), bit.value());
                                    }
                                }
                                assert(self.view() =~= before.view().remove(bit.value()));
                            }
                            return Some(bit);
                        },
                        None => {},
                    }
                },
            }
            let ghost s = self.raw.view();
            proof {
                if s.len() > 0 {
                    lemma_aligned_fits(s[0]);
                    lemma_members_first(s);
                } else {
                    lemma_members_empty(s);
                }
            }
            self.bucket_iter = next_bucket_iterator(&mut self.raw);
            proof {
                if s.len() > 0 {
                    assert forall|x: nat, k: int|
                        #![trigger self.bucket_iter.unwrap().view().contains(x), self.raw.view()[k]]
                        self.bucket_iter.unwrap().view().contains(x) && 0 <= k
                            < self.raw.view().len() implies x
                        < self.raw.view()[k].base.value() by {
                        assert(s[0].holds(x));
                        lemma_holds_range(s[0], x);
                        assert(self.raw.view()[k] == s[k + 1]);
                    }
                }
                assert(self.view() =~= before.view());
            }
        }
    }
}

} // verus!
