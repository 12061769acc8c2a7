//! Integer-valued quantities that can label an edge: capacities and costs.
use vstd::prelude::*;

verus! {

/// A machine number that stands for a mathematical integer.
///
/// Every value has an integer `value()`, and the representable integers form
/// an interval around zero.  Capacities and costs of a network are values of
/// types that implement this trait.
pub trait Scalar: Sized {
    /// The integer this value stands for.
    spec fn value(&self) -> int;

    /// The smallest representable integer.
    spec fn min_value() -> int;

    /// The largest representable integer.
    spec fn max_value() -> int;

    /// The value of every instance lies in the representable interval, which
    /// contains zero.
    proof fn lemma_bounds(&self)
        ensures
            Self::min_value() <= self.value() <= Self::max_value(),
            Self::min_value() <= 0 <= Self::max_value(),
    ;

    /// The magnitude of every value is within `u128`.
    proof fn lemma_wide(&self)
        ensures
            -(u128::MAX as int) <= self.value() <= u128::MAX as int,
    ;

    /// Every representable integer is the value of a number.
    proof fn lemma_every(v: int)
        requires
            Self::min_value() <= v <= Self::max_value(),
        ensures
            exists|x: Self| #[trigger] x.value() == v,
    ;

    /// The number zero.
    fn zero() -> (r: Self)
        ensures
            r.value() == 0,
    ;

    /// The smallest representable number.
    fn lowest() -> (r: Self)
        ensures
            r.value() == Self::min_value(),
    ;

    /// The largest representable number.
    fn highest() -> (r: Self)
        ensures
            r.value() == Self::max_value(),
    ;

    /// A copy with the same value.
    fn dup(&self) -> (r: Self)
        ensures
            r.value() == self.value(),
    ;

    /// The sum, which must be representable.
    fn plus(&self, rhs: &Self) -> (r: Self)
        requires
            Self::min_value() <= self.value() + rhs.value() <= Self::max_value(),
        ensures
            r.value() == self.value() + rhs.value(),
    ;

    /// The difference, which must be representable.
    fn minus(&self, rhs: &Self) -> (r: Self)
        requires
            Self::min_value() <= self.value() - rhs.value() <= Self::max_value(),
        ensures
            r.value() == self.value() - rhs.value(),
    ;

    /// The product, which must be representable.
    fn times(&self, rhs: &Self) -> (r: Self)
        requires
            Self::min_value() <= self.value() * rhs.value() <= Self::max_value(),
        ensures
            r.value() == self.value() * rhs.value(),
    ;

    /// Whether `self` is strictly smaller than `rhs`.
    fn less(&self, rhs: &Self) -> (r: bool)
        ensures
            r == (self.value() < rhs.value()),
    ;

    /// Whether both stand for the same integer.
    fn same(&self, rhs: &Self) -> (r: bool)
        ensures
            r == (self.value() == rhs.value()),
    ;

    /// Sign and magnitude: `(negative, m)` with `value() == if negative { -m } else { m }`.
    fn split(&self) -> (r: (bool, u128))
        ensures
            self.value() == signed(r.0, r.1),
            r.0 ==> r.1 > 0,
    ;

    /// The number with the given sign and magnitude, which must be representable.
    fn join(negative: bool, magnitude: u128) -> (r: Self)
        requires
            Self::min_value() <= signed(negative, magnitude) <= Self::max_value(),
        ensures
            r.value() == signed(negative, magnitude),
    ;
}

/// The integer with the given sign and magnitude.
pub open spec fn signed(negative: bool, magnitude: u128) -> int {
    if negative {
        -(magnitude as int)
    } else {
        magnitude as int
    }
}

/// Whether `v` can be held by a value of type `S`.
pub open spec fn fits<S: Scalar>(v: int) -> bool {
    S::min_value() <= v <= S::max_value()
}

/// The sum of `a` and `b`, if it is representable.
pub fn checked_plus<S: Scalar>(a: &S, b: &S) -> (r: Option<S>)
    ensures
        match r {
            Some(v) => v.value() == a.value() + b.value(),
            None => !fits::<S>(a.value() + b.value()),
        },
{
    proof {
        a.lemma_bounds();
        b.lemma_bounds();
    }
    let zero = S::zero();
    if zero.less(b) {
        // a + b <= max  <==>  a <= max - b
        let room = S::highest().minus(b);
        if room.less(a) {
            None
        } else {
            Some(a.plus(b))
        }
    } else {
        // a + b >= min  <==>  a >= min - b
        let room = S::lowest().minus(b);
        if a.less(&room) {
            None
        } else {
            Some(a.plus(b))
        }
    }
}

/// The difference of `a` and `b`, if it is representable.
pub fn checked_minus<S: Scalar>(a: &S, b: &S) -> (r: Option<S>)
    ensures
        match r {
            Some(v) => v.value() == a.value() - b.value(),
            None => !fits::<S>(a.value() - b.value()),
        },
{
    proof {
        a.lemma_bounds();
        b.lemma_bounds();
    }
    let zero = S::zero();
    if zero.less(b) {
        // a - b >= min  <==>  a >= min + b
        let room = S::lowest().plus(b);
        if a.less(&room) {
            None
        } else {
            Some(a.minus(b))
        }
    } else {
        // a - b <= max  <==>  a <= max + b
        let room = S::highest().plus(b);
        if room.less(a) {
            None
        } else {
            Some(a.minus(b))
        }
    }
}

/// The number of type `S` with the given sign and magnitude, if `S` can hold it.
pub fn try_join<S: Scalar>(negative: bool, magnitude: u128) -> (r: Option<S>)
    ensures
        match r {
            Some(x) => x.value() == signed(negative, magnitude),
            None => !fits::<S>(signed(negative, magnitude)),
        },
{
    let lowest = S::lowest();
    let (low_negative, low) = lowest.split();
    let (high_negative, high) = S::highest().split();
    proof {
        lowest.lemma_bounds();
    }
    let within = if negative {
        magnitude == 0 || (low_negative && magnitude <= low)
    } else {
        !high_negative && magnitude <= high
    };
    if within {
        Some(S::join(negative, magnitude))
    } else {
        None
    }
}

impl Scalar for u8 {
    open spec fn value(&self) -> int {
        *self as int
    }

    open spec fn min_value() -> int {
        u8::MIN as int
    }

    open spec fn max_value() -> int {
        u8::MAX as int
    }

    proof fn lemma_bounds(&self) {
    }

    proof fn lemma_wide(&self) {
    }

    proof fn lemma_every(v: int) {
        let x = v as u8;
        assert(x.value() == v);
    }

    fn zero() -> (r: Self) {
        0
    }

    fn lowest() -> (r: Self) {
        u8::MIN
    }

    fn highest() -> (r: Self) {
        u8::MAX
    }

    fn dup(&self) -> (r: Self) {
        *self
    }

    fn plus(&self, rhs: &Self) -> (r: Self) {
        *self + *rhs
    }

    fn minus(&self, rhs: &Self) -> (r: Self) {
        *self - *rhs
    }

    fn times(&self, rhs: &Self) -> (r: Self) {
        *self * *rhs
    }

    fn less(&self, rhs: &Self) -> (r: bool) {
        *self < *rhs
    }

    fn same(&self, rhs: &Self) -> (r: bool) {
        *self == *rhs
    }

    fn split(&self) -> (r: (bool, u128)) {
        (false, *self as u128)
    }

    fn join(negative: bool, magnitude: u128) -> (r: Self) {
        magnitude as u8
    }
}

impl Scalar for u16 {
    open spec fn value(&self) -> int {
        *self as int
    }

    open spec fn min_value() -> int {
        u16::MIN as int
    }

    open spec fn max_value() -> int {
        u16::MAX as int
    }

    proof fn lemma_bounds(&self) {
    }

    proof fn lemma_wide(&self) {
    }

    proof fn lemma_every(v: int) {
        let x = v as u16;
        assert(x.value() == v);
    }

    fn zero() -> (r: Self) {
        0
    }

    fn lowest() -> (r: Self) {
        u16::MIN
    }

    fn highest() -> (r: Self) {
        u16::MAX
    }

    fn dup(&self) -> (r: Self) {
        *self
    }

    fn plus(&self, rhs: &Self) -> (r: Self) {
        *self + *rhs
    }

    fn minus(&self, rhs: &Self) -> (r: Self) {
        *self - *rhs
    }

    fn times(&self, rhs: &Self) -> (r: Self) {
        *self * *rhs
    }

    fn less(&self, rhs: &Self) -> (r: bool) {
        *self < *rhs
    }

    fn same(&self, rhs: &Self) -> (r: bool) {
        *self == *rhs
    }

    fn split(&self) -> (r: (bool, u128)) {
        (false, *self as u128)
    }

    fn join(negative: bool, magnitude: u128) -> (r: Self) {
        magnitude as u16
    }
}

impl Scalar for u32 {
    open spec fn value(&self) -> int {
        *self as int
    }

    open spec fn min_value() -> int {
        u32::MIN as int
    }

    open spec fn max_value() -> int {
        u32::MAX as int
    }

    proof fn lemma_bounds(&self) {
    }

    proof fn lemma_wide(&self) {
    }

    proof fn lemma_every(v: int) {
        let x = v as u32;
        assert(x.value() == v);
    }

    fn zero() -> (r: Self) {
        0
    }

    fn lowest() -> (r: Self) {
        u32::MIN
    }

    fn highest() -> (r: Self) {
        u32::MAX
    }

    fn dup(&self) -> (r: Self) {
        *self
    }

    fn plus(&self, rhs: &Self) -> (r: Self) {
        *self + *rhs
    }

    fn minus(&self, rhs: &Self) -> (r: Self) {
        *self - *rhs
    }

    fn times(&self, rhs: &Self) -> (r: Self) {
        *self * *rhs
    }

    fn less(&self, rhs: &Self) -> (r: bool) {
        *self < *rhs
    }

    fn same(&self, rhs: &Self) -> (r: bool) {
        *self == *rhs
    }

    fn split(&self) -> (r: (bool, u128)) {
        (false, *self as u128)
    }

    fn join(negative: bool, magnitude: u128) -> (r: Self) {
        magnitude as u32
    }
}

impl Scalar for u64 {
    open spec fn value(&self) -> int {
        *self as int
    }

    open spec fn min_value() -> int {
        u64::MIN as int
    }

    open spec fn max_value() -> int {
        u64::MAX as int
    }

    proof fn lemma_bounds(&self) {
    }

    proof fn lemma_wide(&self) {
    }

    proof fn lemma_every(v: int) {
        let x = v as u64;
        assert(x.value() == v);
    }

    fn zero() -> (r: Self) {
        0
    }

    fn lowest() -> (r: Self) {
        u64::MIN
    }

    fn highest() -> (r: Self) {
        u64::MAX
    }

    fn dup(&self) -> (r: Self) {
        *self
    }

    fn plus(&self, rhs: &Self) -> (r: Self) {
        *self + *rhs
    }

    fn minus(&self, rhs: &Self) -> (r: Self) {
        *self - *rhs
    }

    fn times(&self, rhs: &Self) -> (r: Self) {
        *self * *rhs
    }

    fn less(&self, rhs: &Self) -> (r: bool) {
        *self < *rhs
    }

    fn same(&self, rhs: &Self) -> (r: bool) {
        *self == *rhs
    }

    fn split(&self) -> (r: (bool, u128)) {
        (false, *self as u128)
    }

    fn join(negative: bool, magnitude: u128) -> (r: Self) {
        magnitude as u64
    }
}

impl Scalar for u128 {
    open spec fn value(&self) -> int {
        *self as int
    }

    open spec fn min_value() -> int {
        u128::MIN as int
    }

    open spec fn max_value() -> int {
        u128::MAX as int
    }

    proof fn lemma_bounds(&self) {
    }

    proof fn lemma_wide(&self) {
    }

    proof fn lemma_every(v: int) {
        let x = v as u128;
        assert(x.value() == v);
    }

    fn zero() -> (r: Self) {
        0
    }

    fn lowest() -> (r: Self) {
        u128::MIN
    }

    fn highest() -> (r: Self) {
        u128::MAX
    }

    fn dup(&self) -> (r: Self) {
        *self
    }

    fn plus(&self, rhs: &Self) -> (r: Self) {
        *self + *rhs
    }

    fn minus(&self, rhs: &Self) -> (r: Self) {
        *self - *rhs
    }

    fn times(&self, rhs: &Self) -> (r: Self) {
        *self * *rhs
    }

    fn less(&self, rhs: &Self) -> (r: bool) {
        *self < *rhs
    }

    fn same(&self, rhs: &Self) -> (r: bool) {
        *self == *rhs
    }

    fn split(&self) -> (r: (bool, u128)) {
        (false, *self as u128)
    }

    fn join(negative: bool, magnitude: u128) -> (r: Self) {
        magnitude as u128
    }
}

impl Scalar for usize {
    open spec fn value(&self) -> int {
        *self as int
    }

    open spec fn min_value() -> int {
        usize::MIN as int
    }

    open spec fn max_value() -> int {
        usize::MAX as int
    }

    proof fn lemma_bounds(&self) {
    }

    proof fn lemma_wide(&self) {
    }

    proof fn lemma_every(v: int) {
        let x = v as usize;
        assert(x.value() == v);
    }

    fn zero() -> (r: Self) {
        0
    }

    fn lowest() -> (r: Self) {
        usize::MIN
    }

    fn highest() -> (r: Self) {
        usize::MAX
    }

    fn dup(&self) -> (r: Self) {
        *self
    }

    fn plus(&self, rhs: &Self) -> (r: Self) {
        *self + *rhs
    }

    fn minus(&self, rhs: &Self) -> (r: Self) {
        *self - *rhs
    }

    fn times(&self, rhs: &Self) -> (r: Self) {
        *self * *rhs
    }

    fn less(&self, rhs: &Self) -> (r: bool) {
        *self < *rhs
    }

    fn same(&self, rhs: &Self) -> (r: bool) {
        *self == *rhs
    }

    fn split(&self) -> (r: (bool, u128)) {
        (false, *self as u128)
    }

    fn join(negative: bool, magnitude: u128) -> (r: Self) {
        magnitude as usize
    }
}

impl Scalar for i8 {
    open spec fn value(&self) -> int {
        *self as int
    }

    open spec fn min_value() -> int {
        i8::MIN as int
    }

    open spec fn max_value() -> int {
        i8::MAX as int
    }

    proof fn lemma_bounds(&self) {
    }

    proof fn lemma_wide(&self) {
    }

    proof fn lemma_every(v: int) {
        let x = v as i8;
        assert(x.value() == v);
    }

    fn zero() -> (r: Self) {
        0
    }

    fn lowest() -> (r: Self) {
        i8::MIN
    }

    fn highest() -> (r: Self) {
        i8::MAX
    }

    fn dup(&self) -> (r: Self) {
        *self
    }

    fn plus(&self, rhs: &Self) -> (r: Self) {
        *self + *rhs
    }

    fn minus(&self, rhs: &Self) -> (r: Self) {
        *self - *rhs
    }

    fn times(&self, rhs: &Self) -> (r: Self) {
        *self * *rhs
    }

    fn less(&self, rhs: &Self) -> (r: bool) {
        *self < *rhs
    }

    fn same(&self, rhs: &Self) -> (r: bool) {
        *self == *rhs
    }

    fn split(&self) -> (r: (bool, u128)) {
        if *self < 0 {
            (true, (-(*self as i128)) as u128)
        } else {
            (false, *self as u128)
        }
    }

    fn join(negative: bool, magnitude: u128) -> (r: Self) {
        if negative {
            (-(magnitude as i128)) as i8
        } else {
            magnitude as i8
        }
    }
}

impl Scalar for i16 {
    open spec fn value(&self) -> int {
        *self as int
    }

    open spec fn min_value() -> int {
        i16::MIN as int
    }

    open spec fn max_value() -> int {
        i16::MAX as int
    }

    proof fn lemma_bounds(&self) {
    }

    proof fn lemma_wide(&self) {
    }

    proof fn lemma_every(v: int) {
        let x = v as i16;
        assert(x.value() == v);
    }

    fn zero() -> (r: Self) {
        0
    }

    fn lowest() -> (r: Self) {
        i16::MIN
    }

    fn highest() -> (r: Self) {
        i16::MAX
    }

    fn dup(&self) -> (r: Self) {
        *self
    }

    fn plus(&self, rhs: &Self) -> (r: Self) {
        *self + *rhs
    }

    fn minus(&self, rhs: &Self) -> (r: Self) {
        *self - *rhs
    }

    fn times(&self, rhs: &Self) -> (r: Self) {
        *self * *rhs
    }

    fn less(&self, rhs: &Self) -> (r: bool) {
        *self < *rhs
    }

    fn same(&self, rhs: &Self) -> (r: bool) {
        *self == *rhs
    }

    fn split(&self) -> (r: (bool, u128)) {
        if *self < 0 {
            (true, (-(*self as i128)) as u128)
        } else {
            (false, *self as u128)
        }
    }

    fn join(negative: bool, magnitude: u128) -> (r: Self) {
        if negative {
            (-(magnitude as i128)) as i16
        } else {
            magnitude as i16
        }
    }
}

impl Scalar for i32 {
    open spec fn value(&self) -> int {
        *self as int
    }

    open spec fn min_value() -> int {
        i32::MIN as int
    }

    open spec fn max_value() -> int {
        i32::MAX as int
    }

    proof fn lemma_bounds(&self) {
    }

    proof fn lemma_wide(&self) {
    }

    proof fn lemma_every(v: int) {
        let x = v as i32;
        assert(x.value() == v);
    }

    fn zero() -> (r: Self) {
        0
    }

    fn lowest() -> (r: Self) {
        i32::MIN
    }

    fn highest() -> (r: Self) {
        i32::MAX
    }

    fn dup(&self) -> (r: Self) {
        *self
    }

    fn plus(&self, rhs: &Self) -> (r: Self) {
        *self + *rhs
    }

    fn minus(&self, rhs: &Self) -> (r: Self) {
        *self - *rhs
    }

    fn times(&self, rhs: &Self) -> (r: Self) {
        *self * *rhs
    }

    fn less(&self, rhs: &Self) -> (r: bool) {
        *self < *rhs
    }

    fn same(&self, rhs: &Self) -> (r: bool) {
        *self == *rhs
    }

    fn split(&self) -> (r: (bool, u128)) {
        if *self < 0 {
            (true, (-(*self as i128)) as u128)
        } else {
            (false, *self as u128)
        }
    }

    fn join(negative: bool, magnitude: u128) -> (r: Self) {
        if negative {
            (-(magnitude as i128)) as i32
        } else {
            magnitude as i32
        }
    }
}

impl Scalar for i64 {
    open spec fn value(&self) -> int {
        *self as int
    }

    open spec fn min_value() -> int {
        i64::MIN as int
    }

    open spec fn max_value() -> int {
        i64::MAX as int
    }

    proof fn lemma_bounds(&self) {
    }

    proof fn lemma_wide(&self) {
    }

    proof fn lemma_every(v: int) {
        let x = v as i64;
        assert(x.value() == v);
    }

    fn zero() -> (r: Self) {
        0
    }

    fn lowest() -> (r: Self) {
        i64::MIN
    }

    fn highest() -> (r: Self) {
        i64::MAX
    }

    fn dup(&self) -> (r: Self) {
        *self
    }

    fn plus(&self, rhs: &Self) -> (r: Self) {
        *self + *rhs
    }

    fn minus(&self, rhs: &Self) -> (r: Self) {
        *self - *rhs
    }

    fn times(&self, rhs: &Self) -> (r: Self) {
        *self * *rhs
    }

    fn less(&self, rhs: &Self) -> (r: bool) {
        *self < *rhs
    }

    fn same(&self, rhs: &Self) -> (r: bool) {
        *self == *rhs
    }

    fn split(&self) -> (r: (bool, u128)) {
        if *self < 0 {
            (true, (-(*self as i128)) as u128)
        } else {
            (false, *self as u128)
        }
    }

    fn join(negative: bool, magnitude: u128) -> (r: Self) {
        if negative {
            (-(magnitude as i128)) as i64
        } else {
            magnitude as i64
        }
    }
}

impl Scalar for i128 {
    open spec fn value(&self) -> int {
        *self as int
    }

    open spec fn min_value() -> int {
        i128::MIN as int
    }

    open spec fn max_value() -> int {
        i128::MAX as int
    }

    proof fn lemma_bounds(&self) {
    }

    proof fn lemma_wide(&self) {
    }

    proof fn lemma_every(v: int) {
        let x = v as i128;
        assert(x.value() == v);
    }

    fn zero() -> (r: Self) {
        0
    }

    fn lowest() -> (r: Self) {
        i128::MIN
    }

    fn highest() -> (r: Self) {
        i128::MAX
    }

    fn dup(&self) -> (r: Self) {
        *self
    }

    fn plus(&self, rhs: &Self) -> (r: Self) {
        *self + *rhs
    }

    fn minus(&self, rhs: &Self) -> (r: Self) {
        *self - *rhs
    }

    fn times(&self, rhs: &Self) -> (r: Self) {
        *self * *rhs
    }

    fn less(&self, rhs: &Self) -> (r: bool) {
        *self < *rhs
    }

    fn same(&self, rhs: &Self) -> (r: bool) {
        *self == *rhs
    }

    fn split(&self) -> (r: (bool, u128)) {
        if *self == i128::MIN {
            (true, 0x8000_0000_0000_0000_0000_0000_0000_0000u128)
        } else if *self < 0 {
            (true, (-*self) as u128)
        } else {
            (false, *self as u128)
        }
    }

    fn join(negative: bool, magnitude: u128) -> (r: Self) {
        if !negative {
            magnitude as i128
        } else if magnitude == 0x8000_0000_0000_0000_0000_0000_0000_0000u128 {
            i128::MIN
        } else {
            -(magnitude as i128)
        }
    }
}

impl Scalar for isize {
    open spec fn value(&self) -> int {
        *self as int
    }

    open spec fn min_value() -> int {
        isize::MIN as int
    }

    open spec fn max_value() -> int {
        isize::MAX as int
    }

    proof fn lemma_bounds(&self) {
    }

    proof fn lemma_wide(&self) {
    }

    proof fn lemma_every(v: int) {
        let x = v as isize;
        assert(x.value() == v);
    }

    fn zero() -> (r: Self) {
        0
    }

    fn lowest() -> (r: Self) {
        isize::MIN
    }

    fn highest() -> (r: Self) {
        isize::MAX
    }

    fn dup(&self) -> (r: Self) {
        *self
    }

    fn plus(&self, rhs: &Self) -> (r: Self) {
        *self + *rhs
    }

    fn minus(&self, rhs: &Self) -> (r: Self) {
        *self - *rhs
    }

    fn times(&self, rhs: &Self) -> (r: Self) {
        *self * *rhs
    }

    fn less(&self, rhs: &Self) -> (r: bool) {
        *self < *rhs
    }

    fn same(&self, rhs: &Self) -> (r: bool) {
        *self == *rhs
    }

    fn split(&self) -> (r: (bool, u128)) {
        if *self < 0 {
            (true, (-(*self as i128)) as u128)
        } else {
            (false, *self as u128)
        }
    }

    fn join(negative: bool, magnitude: u128) -> (r: Self) {
        if negative {
            (-(magnitude as i128)) as isize
        } else {
            magnitude as isize
        }
    }
}

/// The unit type is a number type whose only value is zero: the cost of a
/// network without costs.
impl Scalar for () {
    open spec fn value(&self) -> int {
        0
    }

    open spec fn min_value() -> int {
        0
    }

    open spec fn max_value() -> int {
        0
    }

    proof fn lemma_bounds(&self) {
    }

    proof fn lemma_wide(&self) {
    }

    proof fn lemma_every(v: int) {
        assert(().value() == v);
    }

    fn zero() -> (r: Self) {
        ()
    }

    fn lowest() -> (r: Self) {
        ()
    }

    fn highest() -> (r: Self) {
        ()
    }

    fn dup(&self) -> (r: Self) {
        ()
    }

    fn plus(&self, rhs: &Self) -> (r: Self) {
        ()
    }

    fn minus(&self, rhs: &Self) -> (r: Self) {
        ()
    }

    fn times(&self, rhs: &Self) -> (r: Self) {
        ()
    }

    fn less(&self, rhs: &Self) -> (r: bool) {
        false
    }

    fn same(&self, rhs: &Self) -> (r: bool) {
        true
    }

    fn split(&self) -> (r: (bool, u128)) {
        (false, 0)
    }

    fn join(negative: bool, magnitude: u128) -> (r: Self) {
        ()
    }
}

} // verus!
