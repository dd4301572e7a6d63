use vstd::prelude::*;
use vstd::std_specs::iter::IteratorSpec;

verus! {

/// Takes items from several iterators in turn, one from each.
pub struct Interleaver<T: Iterator> {
    pub current: usize,
    pub iters: Option<Vec<T>>,
}

impl<T: Iterator> Interleaver<T> {
    /// An interleaver over no iterators: it yields nothing.
    pub fn new() -> (r: Self)
        ensures
            r.current == 0,
            r.iters is None,
    {
        Interleaver { current: 0, iters: None }
    }

    /// An interleaver that starts with the first of `sources`.
    pub fn from(sources: Vec<T>) -> (r: Self)
        ensures
            r.current == 0,
            r.iters == Some(sources),
    {
        Interleaver { current: 0, iters: Some(sources) }
    }

    /// The next item of the current iterator (nothing when that one is
    /// exhausted, or when there are no iterators); then the turn passes to the
    /// next iterator, after the last one back to the first.
    pub fn next_item(&mut self) -> (r: Option<T::Item>)
        requires
            old(self).iters matches Some(v) ==> v@.len() > 0 && old(self).current < usize::MAX,
        ensures
            old(self).iters is None ==> r is None && *final(self) == *old(self),
            old(self).iters matches Some(v) ==> {
                let c = old(self).current as int;
                &&& final(self).iters matches Some(w) && {
                    &&& w@.len() == v@.len()
                    &&& forall|j: int| 0 <= j < v@.len() && j != c ==> w@[j] == v@[j]
                    &&& 0 <= c < v@.len() && w@[c].obeys_prophetic_iter_laws() ==> {
                        if v@[c].remaining().len() > 0 {
                            &&& w@[c].remaining() == v@[c].remaining().drop_first()
                            &&& r == Some(v@[c].remaining()[0])
                        } else {
                            &&& w@[c].remaining() == v@[c].remaining()
                            &&& r is None
                        }
                    }
                }
                &&& c >= v@.len() ==> r is None
                &&& final(self).current == (c + 1) % (v@.len() as int)
            },
    {
        match &mut self.iters {
            None => None,
            Some(true_iters) => {
                let len = true_iters.len();
                let res = if self.current < len {
                    true_iters[self.current].next()
                } else {
                    None
                };
                self.current = (self.current + 1) % len;
                res
            },
        }
    }
}

impl<T: Iterator> Default for Interleaver<T> {
    fn default() -> (r: Self)
        ensures
            r.current == 0,
            r.iters is None,
    {
        Interleaver { current: 0, iters: None }
    }
}

}
