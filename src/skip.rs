use vstd::prelude::*;

use crate::source::{Source, drop_n, is_fold_trace, is_try_fold_trace, lemma_drop_drop};

verus! {

/// A source whose first `pending` items are still to be discarded.
/// The discarding is done lazily, by one bulk advance of the inner source,
/// the first time an item is asked for.
#[derive(Clone, Debug)]
pub struct Skip<I> {
    iter: I,
    n: usize,
}

impl<I: Source> Skip<I> {
    /// The wrapped source.
    pub closed spec fn inner(&self) -> I {
        self.iter
    }

    /// How many items are still to be discarded before the next one is yielded.
    pub closed spec fn pending(&self) -> usize {
        self.n
    }

    /// Wraps `iter`, deferring the discarding of its first `n` items.
    pub fn new(iter: I, n: usize) -> (r: Skip<I>)
        ensures
            r.inner() == iter,
            r.pending() == n,
            r.rest() == drop_n(iter.rest(), n as int),
    {
        Skip { iter, n }
    }

    /// Discards `k` more items, lazily: the count is added to the pending one
    /// and the inner source is not touched, unless the sum would not fit in
    /// a `usize`; then the old pending count is paid off first.
    pub fn defer(&mut self, k: usize)
        ensures
            final(self).rest() == drop_n(old(self).rest(), k as int),
            old(self).pending() + k <= usize::MAX ==> final(self).inner() == old(self).inner()
                && final(self).pending() == old(self).pending() + k,
            k == 0 ==> *final(self) == *old(self),
    {
        proof {
            lemma_drop_drop(self.iter.rest(), self.n as int, k as int);
        }
        if self.n <= usize::MAX - k {
            self.n = self.n + k;
        } else {
            let _ = self.iter.advance_by(self.n);
            self.n = k;
        }
    }

    /// Pays off the pending count with one bulk call on the inner source.
    /// Returns `false` when the inner source ran out while doing so.
    fn pay_off(&mut self) -> (ok: bool)
        ensures
            final(self).pending() == 0,
            final(self).rest() == old(self).rest(),
            final(self).inner().rest() == old(self).rest(),
            ok <==> old(self).pending() <= old(self).inner().rest().len(),
    {
        if self.n > 0 {
            let k = self.n;
            self.n = 0;
            let r = self.iter.nth(k - 1);
            r.is_some()
        } else {
            assert(drop_n(self.iter.rest(), 0) =~= self.iter.rest());
            true
        }
    }
}

impl<I: Source> Source for Skip<I> {
    type Item = I::Item;

    open spec fn rest(&self) -> Seq<I::Item> {
        drop_n(self.inner().rest(), self.pending() as int)
    }

    open spec fn hint(&self) -> (usize, Option<usize>) {
        let h = self.inner().hint();
        (
            h.0.saturating_sub(self.pending()),
            match h.1 {
                Some(u) => Some(u.saturating_sub(self.pending())),
                None => None,
            },
        )
    }

    fn next(&mut self) -> (r: Option<I::Item>)
        ensures
            final(self).pending() == 0,
            final(self).inner().rest() == drop_n(old(self).inner().rest(), old(self).pending() + 1),
    {
        self.pay_off();
        let r = self.iter.next();
        proof {
            let x = old(self).inner().rest();
            lemma_drop_drop(x, old(self).pending() as int, 1);
            assert(drop_n(drop_n(x, old(self).pending() as int), 1) =~= self.iter.rest());
        }
        r
    }

    fn nth(&mut self, n: usize) -> (r: Option<I::Item>)
        ensures
            final(self).pending() == 0,
            final(self).inner().rest() == drop_n(
                old(self).inner().rest(),
                old(self).pending() + n + 1,
            ),
    {
        proof {
            lemma_drop_drop(old(self).inner().rest(), old(self).pending() as int, n + 1);
        }
        if !self.pay_off() {
            return None;
        }
        self.iter.nth(n)
    }

    fn advance_by(&mut self, n: usize) -> (r: Result<(), usize>)
        ensures
            final(self).inner().rest() == drop_n(old(self).inner().rest(), old(self).pending() + n),
            final(self).pending() as int == if old(self).pending() <= old(self).inner().rest().len() {
                0
            } else {
                old(self).pending() - old(self).inner().rest().len()
            },
    {
        let pending = self.n;
        let step = pending.saturating_add(n);
        proof {
            lemma_drop_drop(self.iter.rest(), pending as int, n as int);
        }
        match self.iter.advance_by(step) {
            Ok(()) => {
                let rem = n - (step - pending);
                self.n = 0;
                if rem > 0 {
                    proof {
                        lemma_drop_drop(old(self).iter.rest(), step as int, rem as int);
                    }
                    match self.iter.advance_by(rem) {
                        Ok(()) => Ok(()),
                        Err(advanced) => Err(n - rem + advanced),
                    }
                } else {
                    Ok(())
                }
            },
            Err(advanced) => {
                self.n = pending.saturating_sub(advanced);
                if n == 0 {
                    Ok(())
                } else {
                    Err(advanced.saturating_sub(pending))
                }
            },
        }
    }

    fn size_hint(&self) -> (r: (usize, Option<usize>)) {
        let (lower, upper) = self.iter.size_hint();
        let lower = lower.saturating_sub(self.n);
        let upper = match upper {
            Some(x) => Some(x.saturating_sub(self.n)),
            None => None,
        };
        (lower, upper)
    }

    fn count(self) -> (r: usize) {
        let mut s = self;
        if !s.pay_off() {
            return 0;
        }
        s.iter.count()
    }

    fn last(self) -> (r: Option<I::Item>) {
        let mut s = self;
        if !s.pay_off() {
            return None;
        }
        s.iter.last()
    }

    fn fold<A, F: Fn(A, I::Item) -> A>(self, init: A, f: F) -> (r: A) {
        let mut s = self;
        if !s.pay_off() {
            assert(is_fold_trace(f, s.rest(), seq![init]));
            return init;
        }
        s.iter.fold(init, f)
    }

    fn try_fold<A, E, F: Fn(A, I::Item) -> Result<A, E>>(&mut self, init: A, f: F) -> (r: Result<A, E>)
        ensures
            final(self).pending() == 0,
    {
        if !self.pay_off() {
            assert(self.rest().take(0) =~= self.rest());
            assert(is_try_fold_trace::<A, E, I::Item, F>(f, self.rest().take(0), seq![init]));
            return Ok(init);
        }
        let r = self.iter.try_fold(init, f);
        assert(drop_n(self.iter.rest(), 0) =~= self.iter.rest());
        r
    }

    fn duplicate(&self) -> (r: Skip<I>) {
        Skip { iter: self.iter.duplicate(), n: self.n }
    }
}

} // verus!
