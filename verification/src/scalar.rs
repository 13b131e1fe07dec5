use vstd::prelude::*;
use vstd::arithmetic::div_mod::{lemma_small_mod, lemma_mod_multiples_vanish};

verus! {

/// The arithmetic that a matrix element must provide.
///
/// Every executable operation is pinned to a specification-level twin, so the
/// matrix and network contracts can state results exactly for any instance.
/// The crate ships a plain `i64` instance (wrapping arithmetic, total
/// division); callers may provide richer numeric instances of their own.
pub trait Scalar: Sized + Copy {
    /// The additive identity used to seed sums and accumulators.
    spec fn zero_spec() -> Self;

    /// The multiplicative identity; also the value a one-hot entry must equal.
    spec fn one_spec() -> Self;

    spec fn add_spec(self, rhs: Self) -> Self;

    spec fn sub_spec(self, rhs: Self) -> Self;

    spec fn mul_spec(self, rhs: Self) -> Self;

    spec fn div_spec(self, rhs: Self) -> Self;

    spec fn neg_spec(self) -> Self;

    spec fn exp_spec(self) -> Self;

    spec fn ln_spec(self) -> Self;

    /// Whether the value is strictly positive; decides the rectifier.
    spec fn is_pos_spec(self) -> bool;

    /// Whether the value marks the hot entry of a one-hot target.
    spec fn is_one_spec(self) -> bool;

    fn zero() -> (r: Self)
        ensures
            r == Self::zero_spec(),
    ;

    fn one() -> (r: Self)
        ensures
            r == Self::one_spec(),
    ;

    fn add(self, rhs: Self) -> (r: Self)
        ensures
            r == self.add_spec(rhs),
    ;

    fn sub(self, rhs: Self) -> (r: Self)
        ensures
            r == self.sub_spec(rhs),
    ;

    fn mul(self, rhs: Self) -> (r: Self)
        ensures
            r == self.mul_spec(rhs),
    ;

    fn div(self, rhs: Self) -> (r: Self)
        ensures
            r == self.div_spec(rhs),
    ;

    fn neg(self) -> (r: Self)
        ensures
            r == self.neg_spec(),
    ;

    fn exp(self) -> (r: Self)
        ensures
            r == self.exp_spec(),
    ;

    fn ln(self) -> (r: Self)
        ensures
            r == self.ln_spec(),
    ;

    fn is_pos(self) -> (r: bool)
        ensures
            r == self.is_pos_spec(),
    ;

    fn is_one(self) -> (r: bool)
        ensures
            r == self.is_one_spec(),
    ;
}

/// A plain integer instance: wrapping addition, subtraction and
/// multiplication, division that yields zero when the quotient is undefined,
/// and identity maps in place of the exponential and the logarithm. It
/// exercises every shape and data-flow contract of the crate.
impl Scalar for i64 {
    open spec fn zero_spec() -> i64 {
        0
    }

    open spec fn one_spec() -> i64 {
        1
    }

    open spec fn add_spec(self, rhs: i64) -> i64 {
        self.wrapping_add(rhs)
    }

    open spec fn sub_spec(self, rhs: i64) -> i64 {
        self.wrapping_sub(rhs)
    }

    open spec fn mul_spec(self, rhs: i64) -> i64 {
        self.wrapping_mul(rhs)
    }

    open spec fn div_spec(self, rhs: i64) -> i64 {
        match self.checked_div(rhs) {
            Some(q) => q,
            None => 0,
        }
    }

    open spec fn neg_spec(self) -> i64 {
        (0i64).wrapping_sub(self)
    }

    open spec fn exp_spec(self) -> i64 {
        self
    }

    open spec fn ln_spec(self) -> i64 {
        self
    }

    open spec fn is_pos_spec(self) -> bool {
        self > 0
    }

    open spec fn is_one_spec(self) -> bool {
        self == 1
    }

    fn zero() -> i64 {
        0
    }

    fn one() -> i64 {
        1
    }

    fn add(self, rhs: i64) -> i64 {
        self.wrapping_add(rhs)
    }

    fn sub(self, rhs: i64) -> i64 {
        self.wrapping_sub(rhs)
    }

    fn mul(self, rhs: i64) -> i64 {
        self.wrapping_mul(rhs)
    }

    fn div(self, rhs: i64) -> i64 {
        match self.checked_div(rhs) {
            Some(q) => q,
            None => 0,
        }
    }

    fn neg(self) -> i64 {
        (0i64).wrapping_sub(self)
    }

    fn exp(self) -> i64 {
        self
    }

    fn ln(self) -> i64 {
        self
    }

    fn is_pos(self) -> bool {
        self > 0
    }

    fn is_one(self) -> bool {
        self == 1
    }
}

/// The total of a sequence of scalars, accumulated left to right from zero:
/// the order in which every executable summation of the crate adds its terms.
pub open spec fn sum_of<T: Scalar>(s: Seq<T>) -> T
    decreases s.len(),
{
    if s.len() == 0 {
        T::zero_spec()
    } else {
        sum_of(s.drop_last()).add_spec(s.last())
    }
}


/// The identity laws a scalar instance may enjoy: one is neutral for
/// multiplication, zero absorbs multiplication and is neutral for addition
/// on either side. The wrapping integer instance satisfies them exactly;
/// rounding instances need not.
pub open spec fn scalar_identity_laws<T: Scalar>() -> bool {
    &&& forall|x: T| #[trigger] x.mul_spec(T::one_spec()) == x
    &&& forall|x: T| #[trigger] x.mul_spec(T::zero_spec()) == T::zero_spec()
    &&& forall|x: T| #[trigger] x.add_spec(T::zero_spec()) == x
    &&& forall|x: T| #[trigger] T::zero_spec().add_spec(x) == x
}

/// Cropping to the signed machine range leaves a value already in that range
/// untouched.
proof fn lemma_signed_crop_in_range(x: int)
    requires
        i64::MIN <= x <= i64::MAX,
    ensures
        vstd::wrapping::i64_specs::signed_crop(x) == x,
{
    let range: int = 0x1_0000_0000_0000_0000;
    if x >= 0 {
        lemma_small_mod(x as nat, range as nat);
    } else {
        lemma_mod_multiples_vanish(1, x, range);
        lemma_small_mod((x + range) as nat, range as nat);
    }
}

/// The wrapping integer instance satisfies the identity laws.
pub proof fn lemma_scalar_identity_laws_i64()
    ensures
        scalar_identity_laws::<i64>(),
{
    assert forall|x: i64| #[trigger] x.mul_spec(<i64 as Scalar>::one_spec()) == x by {
        assert((x as int) * 1 == x as int) by (nonlinear_arith);
        lemma_signed_crop_in_range(x as int);
    }
    assert forall|x: i64| #[trigger] x.mul_spec(<i64 as Scalar>::zero_spec())
        == <i64 as Scalar>::zero_spec() by {
        assert((x as int) * 0 == 0) by (nonlinear_arith);
        lemma_signed_crop_in_range(0);
    }
}

/// Adding a value and then subtracting it restores the original, exactly,
/// in the wrapping integer instance.
pub proof fn lemma_add_sub_cancel_i64(x: i64, y: i64)
    ensures
        x.add_spec(y).sub_spec(y) == x,
{
}

} // verus!
