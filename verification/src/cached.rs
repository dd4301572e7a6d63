use vstd::prelude::*;

verus! {

/// A value computed on first use: a getter not yet run, or the value it gave.
/// (`Promise(None)` is a promise whose getter was taken and never replaced.)
pub enum Thunk<TVal, TGetter> {
    Promise(Option<TGetter>),
    Value(TVal),
}

/// Whether `after` is what loading `before` may give: a value stays as it is,
/// and a promise becomes a value that its getter may return.
pub open spec fn loaded_from<TVal, TGetter: FnOnce() -> TVal>(
    before: Thunk<TVal, TGetter>,
    after: TVal,
) -> bool {
    match before {
        Thunk::Value(v) => after == v,
        Thunk::Promise(Some(g)) => call_ensures(g, (), after),
        Thunk::Promise(None) => false,
    }
}

/// A thunk can be loaded: it holds a value, or a getter that can be called.
pub open spec fn can_load<TVal, TGetter: FnOnce() -> TVal>(t: Thunk<TVal, TGetter>) -> bool {
    match t {
        Thunk::Value(_) => true,
        Thunk::Promise(Some(g)) => call_requires(g, ()),
        Thunk::Promise(None) => false,
    }
}

impl<TVal, TGetter: FnOnce() -> TVal> Thunk<TVal, TGetter> {
    /// A thunk that will run `getter` on first use.
    pub fn new_getter(getter: TGetter) -> (r: Thunk<TVal, TGetter>)
        ensures
            r == Thunk::<TVal, TGetter>::Promise(Some(getter)),
    {
        Thunk::Promise(Some(getter))
    }

    /// Runs the getter, if it has not run yet, and keeps its value.
    pub fn load(&mut self)
        requires
            can_load(*old(self)),
        ensures
            *final(self) is Value,
            loaded_from(*old(self), (*final(self))->Value_0),
    {
        let taken = match self {
            Thunk::Promise(some_getter) => some_getter.take(),
            Thunk::Value(_) => None,
        };
        if let Some(getter) = taken {
            let val = getter();
            *self = Thunk::Value(val);
        }
    }

    /// The value, computing it first if needed.
    pub fn unwrap(self) -> (r: TVal)
        requires
            can_load(self),
        ensures
            loaded_from(self, r),
    {
        let mut this = self;
        this.load();
        match this {
            Thunk::Value(val) => val,
            Thunk::Promise(_) => vstd::pervasive::unreached(),
        }
    }

    /// A reference to the value, computing it first if needed.
    pub fn val_ref(&mut self) -> (r: &TVal)
        requires
            can_load(*old(self)),
        ensures
            *final(self) is Value,
            *r == (*final(self))->Value_0,
            loaded_from(*old(self), *r),
    {
        self.load();
        match self {
            Thunk::Value(val) => val,
            Thunk::Promise(_) => vstd::pervasive::unreached(),
        }
    }
}

/// A loaded thunk keeps its value: loading it again gives that same value, so
/// the getter runs at most once.
pub proof fn lemma_loaded_value_stays<TVal, TGetter: FnOnce() -> TVal>(v: TVal, x: TVal)
    ensures
        can_load(Thunk::<TVal, TGetter>::Value(v)),
        loaded_from(Thunk::<TVal, TGetter>::Value(v), x) <==> x == v,
{
}

}
