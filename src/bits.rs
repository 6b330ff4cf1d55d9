use vstd::prelude::*;

verus! {

broadcast use vstd::std_specs::bits::group_bits_axioms;

/// A fixed-width unsigned word: the unit both of bucket keys and of packed bits.
///
/// A word is seen two ways: as the integer `value()`, and as the bits `bit(i)`
/// for `i < width()`. Each operation states its result in the view that the
/// container logic reads.
pub trait Bits: Sized + Copy {
    /// Number of bit positions in a word (`MASK + 1`).
    spec fn width() -> nat;

    /// One more than the largest value of a word.
    spec fn modulus() -> nat;

    /// The unsigned integer that the word stands for.
    spec fn value(self) -> nat;

    /// Whether bit `i` (counted from the least significant one) is set.
    spec fn bit(self, i: nat) -> bool;

    /// The width exceeds one and divides the modulus.
    proof fn lemma_width()
        ensures
            Self::width() > 1,
            Self::modulus() % Self::width() == 0,
    ;

    /// A word's value is below the modulus, and no bit from the width on is set.
    proof fn lemma_word(w: Self)
        ensures
            w.value() < Self::modulus(),
            forall|i: nat| i >= Self::width() ==> !#[trigger] w.bit(i),
    ;

    /// A word is zero exactly when none of its bits is set.
    proof fn lemma_zero_bits(w: Self)
        ensures
            (w.value() == 0) == (forall|i: nat| !#[trigger] w.bit(i)),
    ;

    /// A word is determined by its value.
    proof fn lemma_value_injective(a: Self, b: Self)
        requires
            a.value() == b.value(),
        ensures
            a == b,
    ;

    /// A word is determined by its bits.
    proof fn lemma_bits_injective(a: Self, b: Self)
        requires
            forall|i: nat| i < Self::width() ==> a.bit(i) == b.bit(i),
        ensures
            a == b,
    ;

    /// `ZERO`.
    fn zero() -> (r: Self)
        ensures
            r.value() == 0,
            forall|i: nat| !#[trigger] r.bit(i),
    ;

    /// `ONE`.
    fn one() -> (r: Self)
        ensures
            r.value() == 1,
            forall|i: nat| #[trigger] r.bit(i) == (i == 0),
    ;

    /// Whether the word equals `ZERO`.
    fn is_zero(self) -> (r: bool)
        ensures
            r == (self.value() == 0),
            r == (forall|i: nat| !#[trigger] self.bit(i)),
    ;

    /// `self & !MASK`: the base of the bucket that holds the member `self`.
    fn bucket_base(self) -> (r: Self)
        ensures
            r.value() == self.value() - self.value() % Self::width(),
    ;

    /// Bitwise AND.
    fn and(self, o: Self) -> (r: Self)
        ensures
            forall|i: nat| #[trigger] r.bit(i) == (self.bit(i) && o.bit(i)),
    ;

    /// Bitwise OR.
    fn or(self, o: Self) -> (r: Self)
        ensures
            forall|i: nat| #[trigger] r.bit(i) == (self.bit(i) || o.bit(i)),
    ;

    /// Bitwise NOT.
    fn not(self) -> (r: Self)
        ensures
            forall|i: nat| #[trigger] r.bit(i) == (i < Self::width() && !self.bit(i)),
    ;

    /// Left shift by fewer places than the width.
    fn shl(self, n: Self) -> (r: Self)
        requires
            n.value() < Self::width(),
        ensures
            forall|i: nat| #[trigger]
                r.bit(i) == (n.value() <= i < Self::width() && self.bit((i - n.value()) as nat)),
    ;

    /// Right shift by fewer places than the width.
    fn shr(self, n: Self) -> (r: Self)
        requires
            n.value() < Self::width(),
        ensures
            forall|i: nat| #[trigger] r.bit(i) == self.bit(i + n.value()),
    ;

    /// Number of zero bits below the lowest set bit; the width for `ZERO`.
    fn trailing_zeros(self) -> (r: Self)
        ensures
            r.value() <= Self::width(),
            (r.value() == Self::width()) == (self.value() == 0),
            r.value() < Self::width() ==> self.bit(r.value()),
            forall|j: nat| j < r.value() ==> !#[trigger] self.bit(j),
    ;

    /// Addition that does not overflow.
    fn add(self, o: Self) -> (r: Self)
        requires
            self.value() + o.value() < Self::modulus(),
        ensures
            r.value() == self.value() + o.value(),
    ;

    /// Subtraction that does not underflow.
    fn sub(self, o: Self) -> (r: Self)
        requires
            o.value() <= self.value(),
        ensures
            r.value() == self.value() - o.value(),
    ;

    /// Whether `self` is below `o`.
    fn less_than(self, o: Self) -> (r: bool)
        ensures
            r == (self.value() < o.value()),
    ;

    /// Whether `self` equals `o`.
    fn equals(self, o: Self) -> (r: bool)
        ensures
            r == (self.value() == o.value()),
    ;

    /// The value, widened to 128 bits.
    fn to_u128(self) -> (r: u128)
        ensures
            r == self.value(),
    ;
}

/// Facts on 64-bit words that the bit-vector solver proves.
proof fn lemma_u64_bit_facts()
    by (bit_vector)
    ensures
        forall|a: u64, b: u64, j: u64|
            j < 64 ==> (#[trigger] ((a & b) >> j) & 1 == 1) == ((a >> j) & 1 == 1 && (b >> j) & 1
                == 1),
        forall|a: u64, b: u64, j: u64|
            j < 64 ==> (#[trigger] ((a | b) >> j) & 1 == 1) == ((a >> j) & 1 == 1 || (b >> j) & 1
                == 1),
        forall|a: u64, j: u64| j < 64 ==> (#[trigger] ((!a) >> j) & 1 == 1) == !((a >> j) & 1 == 1),
        forall|a: u64, n: u64, j: u64|
            n < 64 && j < 64 ==> (#[trigger] ((a << n) >> j) & 1 == 1) == (n <= j && (a >> ((j - n) as u64))
                & 1 == 1),
        forall|a: u64, n: u64, j: u64|
            n < 64 && j < 64 && j + n < 64 ==> (#[trigger] ((a >> n) >> j) & 1 == 1) == ((a >> ((j
                + n) as u64)) & 1 == 1),
        forall|a: u64, n: u64, j: u64|
            n < 64 && j < 64 && j + n >= 64 ==> !(#[trigger] ((a >> n) >> j) & 1 == 1),
        forall|j: u64| j < 64 ==> (#[trigger] (1u64 >> j) & 1 == 1) == (j == 0),
        forall|j: u64| j < 64 ==> !(#[trigger] (0u64 >> j) & 1 == 1),
        forall|a: u64, b: u64, j: u64|
            j < 64 && #[trigger] ((a ^ b) >> j) & 1 == 1 ==> ((a >> j) & 1 == 1) != ((b >> j) & 1
                == 1),
        forall|a: u64| #[trigger] (a & !0x3fu64) == a - a % 64,
{
}

impl Bits for u64 {
    open spec fn width() -> nat {
        64
    }

    open spec fn modulus() -> nat {
        u64::MAX as nat + 1
    }

    open spec fn value(self) -> nat {
        self as nat
    }

    open spec fn bit(self, i: nat) -> bool {
        i < 64 && (self >> (i as u64)) & 1 == 1
    }

    proof fn lemma_width() {
    }

    proof fn lemma_word(w: Self) {
    }

    proof fn lemma_zero_bits(w: Self) {
        lemma_u64_bit_facts();
        if w != 0 {
            let t = w.trailing_zeros() as u64;
            assert(w.bit(t as nat));
        }
    }

    proof fn lemma_value_injective(a: Self, b: Self) {
    }

    proof fn lemma_bits_injective(a: Self, b: Self) {
        if a != b {
            lemma_u64_bit_facts();
            let c = a ^ b;
            assert(c != 0) by (bit_vector)
                requires
                    a != b,
                    c == a ^ b,
            ;
            let t = c.trailing_zeros() as u64;
            assert(a.bit(t as nat) != b.bit(t as nat));
        }
    }

    fn zero() -> (r: Self) {
        proof {
            lemma_u64_bit_facts();
        }
        0
    }

    fn one() -> (r: Self) {
        proof {
            lemma_u64_bit_facts();
        }
        1
    }

    fn is_zero(self) -> (r: bool) {
        proof {
            lemma_u64_bit_facts();
            if self != 0 {
                let t = self.trailing_zeros() as u64;
                assert(self.bit(t as nat));
            }
        }
        self == 0
    }

    fn bucket_base(self) -> (r: Self) {
        proof {
            lemma_u64_bit_facts();
        }
        self & !0x3fu64
    }

    fn and(self, o: Self) -> (r: Self) {
        let r = self & o;
        proof {
            lemma_u64_bit_facts();
            assert forall|i: nat| #[trigger] r.bit(i) == (self.bit(i) && o.bit(i)) by {
                if i < 64 {
                    let j = i as u64;
                    assert(((self & o) >> j) & 1 == 1 <==> (self >> j) & 1 == 1 && (o >> j) & 1
                        == 1);
                }
            }
        }
        r
    }

    fn or(self, o: Self) -> (r: Self) {
        let r = self | o;
        proof {
            lemma_u64_bit_facts();
            assert forall|i: nat| #[trigger] r.bit(i) == (self.bit(i) || o.bit(i)) by {
                if i < 64 {
                    let j = i as u64;
                    assert(((self | o) >> j) & 1 == 1 <==> (self >> j) & 1 == 1 || (o >> j) & 1
                        == 1);
                }
            }
        }
        r
    }

    fn not(self) -> (r: Self) {
        let r = !self;
        proof {
            lemma_u64_bit_facts();
            assert forall|i: nat| #[trigger] r.bit(i) == (i < 64 && !self.bit(i)) by {
                if i < 64 {
                    let j = i as u64;
                    assert(((!self) >> j) & 1 == 1 <==> !((self >> j) & 1 == 1));
                }
            }
        }
        r
    }

    fn shl(self, n: Self) -> (r: Self) {
        let r = self << n;
        proof {
            lemma_u64_bit_facts();
            assert forall|i: nat| #[trigger]
                r.bit(i) == (n <= i < 64 && self.bit((i - n) as nat)) by {
                if i < 64 {
                    let j = i as u64;
                    assert(((self << n) >> j) & 1 == 1 <==> (n <= j && (self >> ((j - n) as u64)) & 1 == 1));
                }
            }
        }
        r
    }

    fn shr(self, n: Self) -> (r: Self) {
        let r = self >> n;
        proof {
            lemma_u64_bit_facts();
            assert forall|i: nat| #[trigger] r.bit(i) == self.bit((i + n) as nat) by {
                if i < 64 {
                    let j = i as u64;
                    if i + n < 64 {
                        assert(((self >> n) >> j) & 1 == 1 <==> (self >> (j + n) as u64) & 1 == 1);
                    } else {
                        assert(!(((self >> n) >> j) & 1 == 1));
                    }
                }
            }
        }
        r
    }

    fn trailing_zeros(self) -> (r: Self) {
        let r = self.trailing_zeros() as u64;
        proof {
            assert forall|j: nat| j < r implies !#[trigger] self.bit(j) by {
                let k = j as u64;
                assert((self >> k) & 1u64 == 0u64);
            }
        }
        r
    }

    fn add(self, o: Self) -> (r: Self) {
        self + o
    }

    fn sub(self, o: Self) -> (r: Self) {
        self - o
    }

    fn less_than(self, o: Self) -> (r: bool) {
        self < o
    }

    fn equals(self, o: Self) -> (r: bool) {
        self == o
    }

    fn to_u128(self) -> (r: u128) {
        self as u128
    }
}

/// Facts on 32-bit words that the bit-vector solver proves.
proof fn lemma_u32_bit_facts()
    by (bit_vector)
    ensures
        forall|a: u32, b: u32, j: u32|
            j < 32 ==> (#[trigger] ((a & b) >> j) & 1 == 1) == ((a >> j) & 1 == 1 && (b >> j) & 1
                == 1),
        forall|a: u32, b: u32, j: u32|
            j < 32 ==> (#[trigger] ((a | b) >> j) & 1 == 1) == ((a >> j) & 1 == 1 || (b >> j) & 1
                == 1),
        forall|a: u32, j: u32| j < 32 ==> (#[trigger] ((!a) >> j) & 1 == 1) == !((a >> j) & 1 == 1),
        forall|a: u32, n: u32, j: u32|
            n < 32 && j < 32 ==> (#[trigger] ((a << n) >> j) & 1 == 1) == (n <= j && (a >> ((j - n) as u32))
                & 1 == 1),
        forall|a: u32, n: u32, j: u32|
            n < 32 && j < 32 && j + n < 32 ==> (#[trigger] ((a >> n) >> j) & 1 == 1) == ((a >> ((j
                + n) as u32)) & 1 == 1),
        forall|a: u32, n: u32, j: u32|
            n < 32 && j < 32 && j + n >= 32 ==> !(#[trigger] ((a >> n) >> j) & 1 == 1),
        forall|j: u32| j < 32 ==> (#[trigger] (1u32 >> j) & 1 == 1) == (j == 0),
        forall|j: u32| j < 32 ==> !(#[trigger] (0u32 >> j) & 1 == 1),
        forall|a: u32, b: u32, j: u32|
            j < 32 && #[trigger] ((a ^ b) >> j) & 1 == 1 ==> ((a >> j) & 1 == 1) != ((b >> j) & 1
                == 1),
        forall|a: u32| #[trigger] (a & !0x1fu32) == a - a % 32,
{
}

impl Bits for u32 {
    open spec fn width() -> nat {
        32
    }

    open spec fn modulus() -> nat {
        u32::MAX as nat + 1
    }

    open spec fn value(self) -> nat {
        self as nat
    }

    open spec fn bit(self, i: nat) -> bool {
        i < 32 && (self >> (i as u32)) & 1 == 1
    }

    proof fn lemma_width() {
    }

    proof fn lemma_word(w: Self) {
    }

    proof fn lemma_zero_bits(w: Self) {
        lemma_u32_bit_facts();
        if w != 0 {
            let t = w.trailing_zeros() as u32;
            assert(w.bit(t as nat));
        }
    }

    proof fn lemma_value_injective(a: Self, b: Self) {
    }

    proof fn lemma_bits_injective(a: Self, b: Self) {
        if a != b {
            lemma_u32_bit_facts();
            let c = a ^ b;
            assert(c != 0) by (bit_vector)
                requires
                    a != b,
                    c == a ^ b,
            ;
            let t = c.trailing_zeros() as u32;
            assert(a.bit(t as nat) != b.bit(t as nat));
        }
    }

    fn zero() -> (r: Self) {
        proof {
            lemma_u32_bit_facts();
        }
        0
    }

    fn one() -> (r: Self) {
        proof {
            lemma_u32_bit_facts();
        }
        1
    }

    fn is_zero(self) -> (r: bool) {
        proof {
            lemma_u32_bit_facts();
            if self != 0 {
                let t = self.trailing_zeros() as u32;
                assert(self.bit(t as nat));
            }
        }
        self == 0
    }

    fn bucket_base(self) -> (r: Self) {
        proof {
            lemma_u32_bit_facts();
        }
        self & !0x1fu32
    }

    fn and(self, o: Self) -> (r: Self) {
        let r = self & o;
        proof {
            lemma_u32_bit_facts();
            assert forall|i: nat| #[trigger] r.bit(i) == (self.bit(i) && o.bit(i)) by {
                if i < 32 {
                    let j = i as u32;
                    assert(((self & o) >> j) & 1 == 1 <==> (self >> j) & 1 == 1 && (o >> j) & 1
                        == 1);
                }
            }
        }
        r
    }

    fn or(self, o: Self) -> (r: Self) {
        let r = self | o;
        proof {
            lemma_u32_bit_facts();
            assert forall|i: nat| #[trigger] r.bit(i) == (self.bit(i) || o.bit(i)) by {
                if i < 32 {
                    let j = i as u32;
                    assert(((self | o) >> j) & 1 == 1 <==> (self >> j) & 1 == 1 || (o >> j) & 1
                        == 1);
                }
            }
        }
        r
    }

    fn not(self) -> (r: Self) {
        let r = !self;
        proof {
            lemma_u32_bit_facts();
            assert forall|i: nat| #[trigger] r.bit(i) == (i < 32 && !self.bit(i)) by {
                if i < 32 {
                    let j = i as u32;
                    assert(((!self) >> j) & 1 == 1 <==> !((self >> j) & 1 == 1));
                }
            }
        }
        r
    }

    fn shl(self, n: Self) -> (r: Self) {
        let r = self << n;
        proof {
            lemma_u32_bit_facts();
            assert forall|i: nat| #[trigger]
                r.bit(i) == (n <= i < 32 && self.bit((i - n) as nat)) by {
                if i < 32 {
                    let j = i as u32;
                    assert(((self << n) >> j) & 1 == 1 <==> (n <= j && (self >> ((j - n) as u32)) & 1 == 1));
                }
            }
        }
        r
    }

    fn shr(self, n: Self) -> (r: Self) {
        let r = self >> n;
        proof {
            lemma_u32_bit_facts();
            assert forall|i: nat| #[trigger] r.bit(i) == self.bit((i + n) as nat) by {
                if i < 32 {
                    let j = i as u32;
                    if i + n < 32 {
                        assert(((self >> n) >> j) & 1 == 1 <==> (self >> (j + n) as u32) & 1 == 1);
                    } else {
                        assert(!(((self >> n) >> j) & 1 == 1));
                    }
                }
            }
        }
        r
    }

    fn trailing_zeros(self) -> (r: Self) {
        let r = self.trailing_zeros() as u32;
        proof {
            assert forall|j: nat| j < r implies !#[trigger] self.bit(j) by {
                let k = j as u32;
                assert((self >> k) & 1u32 == 0u32);
            }
        }
        r
    }

    fn add(self, o: Self) -> (r: Self) {
        self + o
    }

    fn sub(self, o: Self) -> (r: Self) {
        self - o
    }

    fn less_than(self, o: Self) -> (r: bool) {
        self < o
    }

    fn equals(self, o: Self) -> (r: bool) {
        self == o
    }

    fn to_u128(self) -> (r: u128) {
        self as u128
    }
}

/// Facts on 128-bit words that the bit-vector solver proves.
proof fn lemma_u128_bit_facts()
    by (bit_vector)
    ensures
        forall|a: u128, b: u128, j: u128|
            j < 128 ==> (#[trigger] ((a & b) >> j) & 1 == 1) == ((a >> j) & 1 == 1 && (b >> j) & 1
                == 1),
        forall|a: u128, b: u128, j: u128|
            j < 128 ==> (#[trigger] ((a | b) >> j) & 1 == 1) == ((a >> j) & 1 == 1 || (b >> j) & 1
                == 1),
        forall|a: u128, j: u128| j < 128 ==> (#[trigger] ((!a) >> j) & 1 == 1) == !((a >> j) & 1 == 1),
        forall|a: u128, n: u128, j: u128|
            n < 128 && j < 128 ==> (#[trigger] ((a << n) >> j) & 1 == 1) == (n <= j && (a >> ((j - n) as u128))
                & 1 == 1),
        forall|a: u128, n: u128, j: u128|
            n < 128 && j < 128 && j + n < 128 ==> (#[trigger] ((a >> n) >> j) & 1 == 1) == ((a >> ((j
                + n) as u128)) & 1 == 1),
        forall|a: u128, n: u128, j: u128|
            n < 128 && j < 128 && j + n >= 128 ==> !(#[trigger] ((a >> n) >> j) & 1 == 1),
        forall|j: u128| j < 128 ==> (#[trigger] (1u128 >> j) & 1 == 1) == (j == 0),
        forall|j: u128| j < 128 ==> !(#[trigger] (0u128 >> j) & 1 == 1),
        forall|a: u128, b: u128, j: u128|
            j < 128 && #[trigger] ((a ^ b) >> j) & 1 == 1 ==> ((a >> j) & 1 == 1) != ((b >> j) & 1
                == 1),
        forall|a: u128| #[trigger] (a & !0x7fu128) == a - a % 128,
{
}

/// Relies on `u128::trailing_zeros`: the number of zero bits below the lowest
/// set bit, and 128 for zero.
#[verifier::external_body]
fn u128_trailing_zeros(v: u128) -> (r: u32)
    ensures
        r <= 128,
        (r == 128) == (v == 0),
        r < 128 ==> (v >> (r as u128)) & 1 == 1,
        forall|j: u32| j < r ==> #[trigger] ((v >> (j as u128)) & 1) == 0,
{
    v.trailing_zeros()
}

/// Facts that find a set bit of a 128-bit word through its two 64-bit halves.
proof fn lemma_u128_halves()
    by (bit_vector)
    ensures
        forall|a: u128, t: u64|
            t < 64 && #[trigger] (((a as u64) >> t) & 1) == 1 ==> (a >> (t as u128)) & 1 == 1,
        forall|a: u128| a != 0 && #[trigger] (a as u64) == 0 ==> ((a >> 64) as u64) != 0,
        forall|a: u128, t: u64|
            t < 64 && #[trigger] ((((a >> 64) as u64) >> t) & 1) == 1 ==> (a >> ((t + 64) as u128))
                & 1 == 1,
{
}

/// A non-zero 128-bit word has a set bit.
proof fn lemma_u128_some_bit(a: u128) -> (i: nat)
    requires
        a != 0,
    ensures
        a.bit(i),
{
    lemma_u128_halves();
    let lo = a as u64;
    if lo != 0 {
        let t = lo.trailing_zeros() as u64;
        assert(((lo >> t) & 1) == 1);
        t as nat
    } else {
        let hi = (a >> 64) as u64;
        let t = hi.trailing_zeros() as u64;
        assert(((hi >> t) & 1) == 1);
        (t + 64) as nat
    }
}

impl Bits for u128 {
    open spec fn width() -> nat {
        128
    }

    open spec fn modulus() -> nat {
        u128::MAX as nat + 1
    }

    open spec fn value(self) -> nat {
        self as nat
    }

    open spec fn bit(self, i: nat) -> bool {
        i < 128 && (self >> (i as u128)) & 1 == 1
    }

    proof fn lemma_width() {
    }

    proof fn lemma_word(w: Self) {
    }

    proof fn lemma_zero_bits(w: Self) {
        lemma_u128_bit_facts();
        if w != 0 {
            let t = lemma_u128_some_bit(w);
            assert(w.bit(t));
        }
    }

    proof fn lemma_value_injective(a: Self, b: Self) {
    }

    proof fn lemma_bits_injective(a: Self, b: Self) {
        if a != b {
            lemma_u128_bit_facts();
            let c = a ^ b;
            assert(c != 0) by (bit_vector)
                requires
                    a != b,
                    c == a ^ b,
            ;
            let t = lemma_u128_some_bit(c);
            assert(a.bit(t) != b.bit(t));
        }
    }

    fn zero() -> (r: Self) {
        proof {
            lemma_u128_bit_facts();
        }
        0
    }

    fn one() -> (r: Self) {
        proof {
            lemma_u128_bit_facts();
        }
        1
    }

    fn is_zero(self) -> (r: bool) {
        proof {
            lemma_u128_bit_facts();
            if self != 0 {
                let t = lemma_u128_some_bit(self);
                assert(self.bit(t));
            }
        }
        self == 0
    }

    fn bucket_base(self) -> (r: Self) {
        proof {
            lemma_u128_bit_facts();
        }
        self & !0x7fu128
    }

    fn and(self, o: Self) -> (r: Self) {
        let r = self & o;
        proof {
            lemma_u128_bit_facts();
            assert forall|i: nat| #[trigger] r.bit(i) == (self.bit(i) && o.bit(i)) by {
                if i < 128 {
                    let j = i as u128;
                    assert(((self & o) >> j) & 1 == 1 <==> (self >> j) & 1 == 1 && (o >> j) & 1
                        == 1);
                }
            }
        }
        r
    }

    fn or(self, o: Self) -> (r: Self) {
        let r = self | o;
        proof {
            lemma_u128_bit_facts();
            assert forall|i: nat| #[trigger] r.bit(i) == (self.bit(i) || o.bit(i)) by {
                if i < 128 {
                    let j = i as u128;
                    assert(((self | o) >> j) & 1 == 1 <==> (self >> j) & 1 == 1 || (o >> j) & 1
                        == 1);
                }
            }
        }
        r
    }

    fn not(self) -> (r: Self) {
        let r = !self;
        proof {
            lemma_u128_bit_facts();
            assert forall|i: nat| #[trigger] r.bit(i) == (i < 128 && !self.bit(i)) by {
                if i < 128 {
                    let j = i as u128;
                    assert(((!self) >> j) & 1 == 1 <==> !((self >> j) & 1 == 1));
                }
            }
        }
        r
    }

    fn shl(self, n: Self) -> (r: Self) {
        let r = self << n;
        proof {
            lemma_u128_bit_facts();
            assert forall|i: nat| #[trigger]
                r.bit(i) == (n <= i < 128 && self.bit((i - n) as nat)) by {
                if i < 128 {
                    let j = i as u128;
                    assert(((self << n) >> j) & 1 == 1 <==> (n <= j && (self >> ((j - n) as u128)) & 1 == 1));
                }
            }
        }
        r
    }

    fn shr(self, n: Self) -> (r: Self) {
        let r = self >> n;
        proof {
            lemma_u128_bit_facts();
            assert forall|i: nat| #[trigger] r.bit(i) == self.bit((i + n) as nat) by {
                if i < 128 {
                    let j = i as u128;
                    if i + n < 128 {
                        assert(((self >> n) >> j) & 1 == 1 <==> (self >> (j + n) as u128) & 1 == 1);
                    } else {
                        assert(!(((self >> n) >> j) & 1 == 1));
                    }
                }
            }
        }
        r
    }

    fn trailing_zeros(self) -> (r: Self) {
        let r = u128_trailing_zeros(self) as u128;
        proof {
            assert forall|j: nat| j < r implies !#[trigger] self.bit(j) by {
                let k = j as u32;
                assert((self >> (k as u128)) & 1 == 0);
            }
        }
        r
    }

    fn add(self, o: Self) -> (r: Self) {
        self + o
    }

    fn sub(self, o: Self) -> (r: Self) {
        self - o
    }

    fn less_than(self, o: Self) -> (r: bool) {
        self < o
    }

    fn equals(self, o: Self) -> (r: bool) {
        self == o
    }

    fn to_u128(self) -> (r: u128) {
        self as u128
    }
}

} // verus!
