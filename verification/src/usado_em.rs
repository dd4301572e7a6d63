use vstd::prelude::*;

verus! {

/// Passes a value to a function, written after the value: `x.used_in(f)` is `f(x)`.
pub trait UsadoEm: Sized {
    fn used_in<TRes: Sized, TFunc: Fn(Self) -> TRes>(self, func: TFunc) -> (r: TRes)
        requires
            call_requires(func, (self,)),
        ensures
            call_ensures(func, (self,), r),
    {
        func(self)
    }

    fn used_in_once<TRes: Sized, TFunc: FnOnce(Self) -> TRes>(self, func: TFunc) -> (r: TRes)
        requires
            call_requires(func, (self,)),
        ensures
            call_ensures(func, (self,), r),
    {
        func(self)
    }

    fn used_in_mut<TRes: Sized, TFunc: FnMut(Self) -> TRes>(self, func: &mut TFunc) -> (r: TRes)
        requires
            call_requires(*old(func), (self,)),
        ensures
            call_ensures(*old(func), (self,), r),
    {
        func(self)
    }
}

impl<T: Sized> UsadoEm for T {}

}
