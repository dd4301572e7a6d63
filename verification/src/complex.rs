use vstd::prelude::*;
use std::ops::{Add, Mul, Sub};
use vstd::std_specs::ops::{AddSpec, AddSpecImpl, MulSpec, MulSpecImpl, SubSpec, SubSpecImpl};

verus! {

/// A complex number `re + im * i` over any number type.
#[derive(Clone, Copy, Debug)]
pub struct Complex<TNum> {
    pub re: TNum,
    pub im: TNum,
}

impl<TNum> Add for Complex<TNum> where TNum: Add<Output = TNum> + Copy {
    type Output = Complex<TNum>;

    fn add(self, rhs: Self) -> (r: Self::Output) {
        Complex { re: self.re + rhs.re, im: self.im + rhs.im }
    }
}

impl<TNum> AddSpecImpl for Complex<TNum> where TNum: Add<Output = TNum> + Copy {
    open spec fn obeys_add_spec() -> bool {
        <TNum as AddSpec>::obeys_add_spec()
    }

    open spec fn add_req(self, rhs: Self) -> bool {
        &&& self.re.add_req(rhs.re)
        &&& self.im.add_req(rhs.im)
    }

    open spec fn add_spec(self, rhs: Self) -> Self {
        Complex { re: self.re.add_spec(rhs.re), im: self.im.add_spec(rhs.im) }
    }
}

impl<TNum> Sub for Complex<TNum> where TNum: Sub<Output = TNum> + Copy {
    type Output = Complex<TNum>;

    fn sub(self, rhs: Self) -> (r: Self::Output) {
        Complex { re: self.re - rhs.re, im: self.im - rhs.im }
    }
}

impl<TNum> SubSpecImpl for Complex<TNum> where TNum: Sub<Output = TNum> + Copy {
    open spec fn obeys_sub_spec() -> bool {
        <TNum as SubSpec>::obeys_sub_spec()
    }

    open spec fn sub_req(self, rhs: Self) -> bool {
        &&& self.re.sub_req(rhs.re)
        &&& self.im.sub_req(rhs.im)
    }

    open spec fn sub_spec(self, rhs: Self) -> Self {
        Complex { re: self.re.sub_spec(rhs.re), im: self.im.sub_spec(rhs.im) }
    }
}

impl<TNum> Mul for Complex<TNum> where
    TNum: Add<Output = TNum> + Mul<Output = TNum> + Sub<Output = TNum> + Copy,
 {
    type Output = Complex<TNum>;

    fn mul(self, rhs: Self) -> (r: Self::Output) {
        Complex {
            re: (self.re * rhs.re) - (self.im * rhs.im),
            im: (self.re * rhs.im) + (self.im * rhs.re),
        }
    }
}

impl<TNum> MulSpecImpl for Complex<TNum> where
    TNum: Add<Output = TNum> + Mul<Output = TNum> + Sub<Output = TNum> + Copy,
 {
    open spec fn obeys_mul_spec() -> bool {
        &&& <TNum as AddSpec>::obeys_add_spec()
        &&& <TNum as SubSpec>::obeys_sub_spec()
        &&& <TNum as MulSpec>::obeys_mul_spec()
    }

    /// The four products, their difference and their sum can all be taken;
    /// the number type must follow its specification for the sums to be known.
    open spec fn mul_req(self, rhs: Self) -> bool {
        &&& <TNum as AddSpec>::obeys_add_spec()
        &&& <TNum as SubSpec>::obeys_sub_spec()
        &&& <TNum as MulSpec>::obeys_mul_spec()
        &&& self.re.mul_req(rhs.re)
        &&& self.im.mul_req(rhs.im)
        &&& self.re.mul_req(rhs.im)
        &&& self.im.mul_req(rhs.re)
        &&& self.re.mul_spec(rhs.re).sub_req(self.im.mul_spec(rhs.im))
        &&& self.re.mul_spec(rhs.im).add_req(self.im.mul_spec(rhs.re))
    }

    open spec fn mul_spec(self, rhs: Self) -> Self {
        Complex {
            re: self.re.mul_spec(rhs.re).sub_spec(self.im.mul_spec(rhs.im)),
            im: self.re.mul_spec(rhs.im).add_spec(self.im.mul_spec(rhs.re)),
        }
    }
}

/// Addition and subtraction work part by part in the number type's own
/// arithmetic: the real part of `a + b` is `a.re + b.re`, its imaginary part
/// `a.im + b.im`, and likewise for `a - b`.
pub proof fn lemma_add_sub_by_parts<TNum>(a: Complex<TNum>, b: Complex<TNum>)
    where TNum: Add<Output = TNum> + Sub<Output = TNum> + Copy,
    ensures
        <Complex<TNum> as AddSpec>::add_spec(a, b).re == a.re.add_spec(b.re),
        <Complex<TNum> as AddSpec>::add_spec(a, b).im == a.im.add_spec(b.im),
        <Complex<TNum> as SubSpec>::sub_spec(a, b).re == a.re.sub_spec(b.re),
        <Complex<TNum> as SubSpec>::sub_spec(a, b).im == a.im.sub_spec(b.im),
{
}

/// With integer parts: `a + b` and `a - b` add and subtract the parts,
/// `(a - b) + b` gives `a` back, and `a + b == b + a`.
pub proof fn lemma_i64_add_sub(a: Complex<i64>, b: Complex<i64>)
    ensures
        <Complex<i64> as AddSpec>::add_req(a, b) ==> {
            &&& <Complex<i64> as AddSpec>::add_spec(a, b).re == a.re + b.re
            &&& <Complex<i64> as AddSpec>::add_spec(a, b).im == a.im + b.im
            &&& <Complex<i64> as AddSpec>::add_req(b, a) && <Complex<i64> as AddSpec>::add_spec(b, a) == <Complex<i64> as AddSpec>::add_spec(a, b)
        },
        <Complex<i64> as SubSpec>::sub_req(a, b) ==> {
            &&& <Complex<i64> as SubSpec>::sub_spec(a, b).re == a.re - b.re
            &&& <Complex<i64> as SubSpec>::sub_spec(a, b).im == a.im - b.im
            &&& <Complex<i64> as AddSpec>::add_req(<Complex<i64> as SubSpec>::sub_spec(a, b), b)
            &&& <Complex<i64> as AddSpec>::add_spec(<Complex<i64> as SubSpec>::sub_spec(a, b), b) == a
        },
{
}

/// With integer parts: the product is `(a.re * b.re - a.im * b.im) +
/// (a.re * b.im + a.im * b.re) i`, and `a * b == b * a`.
pub proof fn lemma_i64_mul(a: Complex<i64>, b: Complex<i64>)
    requires
        <Complex<i64> as MulSpec>::mul_req(a, b),
    ensures
        <Complex<i64> as MulSpec>::mul_spec(a, b).re == a.re * b.re - a.im * b.im,
        <Complex<i64> as MulSpec>::mul_spec(a, b).im == a.re * b.im + a.im * b.re,
        <Complex<i64> as MulSpec>::mul_req(b, a),
        <Complex<i64> as MulSpec>::mul_spec(b, a) == <Complex<i64> as MulSpec>::mul_spec(a, b),
{
    assert(a.re * b.re == b.re * a.re) by (nonlinear_arith);
    assert(a.im * b.im == b.im * a.im) by (nonlinear_arith);
    assert(a.re * b.im == b.im * a.re) by (nonlinear_arith);
    assert(a.im * b.re == b.re * a.im) by (nonlinear_arith);
}

}
