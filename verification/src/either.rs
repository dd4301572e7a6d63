use vstd::prelude::*;

verus! {

/// A value of one of two types.
pub enum Either<T, U> {
    Left(T),
    Right(U),
}

impl<T, U> Either<T, U> {
    pub fn is_left(&self) -> (r: bool)
        ensures
            r == (*self is Left),
    {
        match self {
            Either::Left(_) => true,
            Either::Right(_) => false,
        }
    }

    pub fn l_val_ref<'a>(&'a self) -> (r: Option<&'a T>)
        ensures
            match *self {
                Either::Left(x) => r == Some(&x),
                Either::Right(_) => r is None,
            },
    {
        match self {
            Either::Left(x) => Some(x),
            Either::Right(_) => None,
        }
    }

    pub fn r_val_ref<'a>(&'a self) -> (r: Option<&'a U>)
        ensures
            match *self {
                Either::Right(x) => r == Some(&x),
                Either::Left(_) => r is None,
            },
    {
        match self {
            Either::Right(x) => Some(x),
            Either::Left(_) => None,
        }
    }

    pub fn l_val(self) -> (r: Option<T>)
        ensures
            match self {
                Either::Left(x) => r == Some(x),
                Either::Right(_) => r is None,
            },
    {
        match self {
            Either::Left(x) => Some(x),
            Either::Right(_) => None,
        }
    }

    pub fn r_val(self) -> (r: Option<U>)
        ensures
            match self {
                Either::Right(x) => r == Some(x),
                Either::Left(_) => r is None,
            },
    {
        match self {
            Either::Right(x) => Some(x),
            Either::Left(_) => None,
        }
    }

    pub fn as_ref<'a>(&'a self) -> (r: Either<&'a T, &'a U>)
        ensures
            match *self {
                Either::Left(x) => r == Either::<&T, &U>::Left(&x),
                Either::Right(x) => r == Either::<&T, &U>::Right(&x),
            },
    {
        match self {
            Either::Left(x) => Either::Left(x),
            Either::Right(x) => Either::Right(x),
        }
    }
}

}
