use vstd::prelude::*;

verus! {

/// The algebra the weighted-count fold is parameterized by: a carrier with
/// an addition, a multiplication and their two units.  Callers outside this
/// crate may supply their own carriers (the real numbers, for instance);
/// what is proved about the fold then holds relative to that carrier's
/// operations.
pub trait Semiring: Sized + Copy {
    open spec fn sp_zero() -> Self {
        vstd::pervasive::arbitrary()
    }

    open spec fn sp_one() -> Self {
        vstd::pervasive::arbitrary()
    }

    open spec fn sp_add(self, o: Self) -> Self {
        vstd::pervasive::arbitrary()
    }

    open spec fn sp_mul(self, o: Self) -> Self {
        vstd::pervasive::arbitrary()
    }

    fn zero() -> (r: Self)
        ensures
            r == Self::sp_zero(),
    ;

    fn one() -> (r: Self)
        ensures
            r == Self::sp_one(),
    ;

    fn add(self, o: Self) -> (r: Self)
        ensures
            r == self.sp_add(o),
    ;

    fn mul(self, o: Self) -> (r: Self)
        ensures
            r == self.sp_mul(o),
    ;
}

/// The integers modulo `P`: exact model counting arithmetic.  A modulus of
/// zero degenerates to wrapping 64-bit arithmetic.
#[derive(Clone, Copy, PartialEq, Eq, Debug)]
pub struct FiniteField<const P: u64> {
    pub value: u64,
}

impl<const P: u64> FiniteField<P> {
    pub open spec fn spec_new(v: u64) -> FiniteField<P> {
        if P == 0 {
            FiniteField { value: v }
        } else {
            FiniteField { value: (v as int % P as int) as u64 }
        }
    }

    pub fn new(v: u64) -> (r: Self)
        ensures
            r == Self::spec_new(v),
    {
        if P == 0 {
            FiniteField { value: v }
        } else {
            FiniteField { value: v % P }
        }
    }

    pub fn value(&self) -> (r: u64)
        ensures
            r == self.value,
    {
        self.value
    }
}

impl<const P: u64> FiniteField<P> {
    pub open spec fn spec_add(self, o: Self) -> Self {
        if P == 0 {
            FiniteField { value: vstd::wrapping::u64_specs::wrapping_add(self.value, o.value) }
        } else {
            FiniteField { value: ((self.value + o.value) % (P as int)) as u64 }
        }
    }

    pub open spec fn spec_mul(self, o: Self) -> Self {
        if P == 0 {
            FiniteField { value: vstd::wrapping::u64_specs::wrapping_mul(self.value, o.value) }
        } else {
            FiniteField { value: ((self.value * o.value) % (P as int)) as u64 }
        }
    }
}

impl<const P: u64> Semiring for FiniteField<P> {
    open spec fn sp_zero() -> Self {
        FiniteField { value: 0 }
    }

    open spec fn sp_one() -> Self {
        Self::spec_new(1)
    }

    open spec fn sp_add(self, o: Self) -> Self {
        self.spec_add(o)
    }

    open spec fn sp_mul(self, o: Self) -> Self {
        self.spec_mul(o)
    }

    fn zero() -> (r: Self) {
        FiniteField { value: 0 }
    }

    fn one() -> (r: Self) {
        Self::new(1)
    }

    fn add(self, o: Self) -> (r: Self) {
        if P == 0 {
            FiniteField { value: self.value.wrapping_add(o.value) }
        } else {
            let s = (self.value as u128) + (o.value as u128);
            let m = s % (P as u128);
            proof {
                assert(P as u128 > 0);
                assert(m < P as u128);
                assert(m as int == ((self.value + o.value) % (P as int)));
            }
            FiniteField { value: m as u64 }
        }
    }

    fn mul(self, o: Self) -> (r: Self) {
        if P == 0 {
            FiniteField { value: self.value.wrapping_mul(o.value) }
        } else {
            proof {
                assert((self.value as int) * (o.value as int)
                    < 0x1_0000_0000_0000_0000_0000_0000_0000_0000) by (nonlinear_arith)
                    requires
                        0 <= self.value as int <= 0xffff_ffff_ffff_ffff,
                        0 <= o.value as int <= 0xffff_ffff_ffff_ffff,
                {}
            }
            let s = (self.value as u128) * (o.value as u128);
            let m = s % (P as u128);
            proof {
                assert(P as u128 > 0);
                assert(m < P as u128);
                assert(m as int == ((self.value * o.value) % (P as int)));
            }
            FiniteField { value: m as u64 }
        }
    }
}

} // verus!
