use vstd::prelude::*;

use std::collections::VecDeque;

use crate::skip::Skip;
use crate::source::{Source, drop_n, take_n};

verus! {

/// The items of one window, already produced, handed out front to back.
#[derive(Debug)]
pub struct SkakTaken<T> {
    items: VecDeque<T>,
}

impl<T> View for SkakTaken<T> {
    type V = Seq<T>;

    closed spec fn view(&self) -> Seq<T> {
        self.items@
    }
}

impl<T> SkakTaken<T> {
    /// Hands out the first item still held, or `None` when all are gone.
    pub fn next(&mut self) -> (r: Option<T>)
        ensures
            old(self)@.len() == 0 ==> r is None && final(self)@ == old(self)@,
            old(self)@.len() > 0 ==> r == Some(old(self)@[0]) && final(self)@ == old(self)@.drop_first(),
    {
        self.items.pop_front()
    }
}

/// Pulls up to `k` items out of `src` into a buffer.
fn take_into<S: Source>(src: S, k: usize) -> (r: VecDeque<S::Item>)
    ensures
        r@ == take_n(src.rest(), k as int),
{
    let ghost all = src.rest();
    let mut s = src;
    let mut out: VecDeque<S::Item> = VecDeque::new();
    let mut i: usize = 0;
    let mut done = false;
    while i < k && !done
        invariant
            i <= k,
            i <= all.len(),
            out@ == all.take(i as int),
            s.rest() == all.skip(i as int),
            done ==> i == all.len(),
        decreases k - i + (if done { 0int } else { 1int }),
    {
        match s.next() {
            Some(x) => {
                out.push_back(x);
                i = i + 1;
                assert(out@ =~= all.take(i as int));
                assert(s.rest() =~= all.skip(i as int));
            },
            None => {
                done = true;
            },
        }
    }
    assert(out@ =~= take_n(all, k as int));
    out
}

/// A sequence cut into consecutive windows: each request yields the next
/// window's items and a continuation placed after them.
#[derive(Clone, Debug)]
pub struct Skak<I> {
    iter: I,
}

impl<I: Source> Skak<I> {
    /// The source the continuation reads from.
    pub closed spec fn source(&self) -> I {
        self.iter
    }

    /// The items still to come after the windows already handed out.
    pub open spec fn rest(&self) -> Seq<I::Item> {
        self.source().rest()
    }

    /// The first window, of up to `index` items of `iter`, and a continuation
    /// that discards those items lazily.
    pub fn new(iter: I, index: usize) -> (r: (SkakTaken<I::Item>, Skak<Skip<I>>))
        ensures
            r.0@ == take_n(iter.rest(), index as int),
            r.1.rest() == drop_n(iter.rest(), index as int),
            r.1.source().inner() == iter,
            r.1.source().pending() == index,
    {
        let taken = take_into(iter.duplicate(), index);
        (SkakTaken { items: taken }, Skak { iter: Skip::new(iter, index) })
    }

    /// The next window, of up to `index` items after those already handed
    /// out, and the continuation after it. The skip is added to the pending
    /// count; no item is visited to move the continuation.
    pub fn skip(iter: Skak<Skip<I>>, index: usize) -> (r: (SkakTaken<I::Item>, Skak<Skip<I>>))
        ensures
            r.0@ == take_n(iter.rest(), index as int),
            r.1.rest() == drop_n(iter.rest(), index as int),
            iter.source().pending() + index <= usize::MAX ==> r.1.source().inner()
                == iter.source().inner() && r.1.source().pending() == iter.source().pending()
                + index,
            index == 0 ==> r.1 == iter,
    {
        let taken = take_into(iter.iter.duplicate(), index);
        let mut cont = iter.iter;
        cont.defer(index);
        (SkakTaken { items: taken }, Skak { iter: cont })
    }
}

impl<J: Source> Skak<Skip<J>> {
    /// Yields the next item after the windows handed out, paying off the
    /// items the windows skipped.
    pub fn next(&mut self) -> (r: Option<J::Item>)
        ensures
            old(self).rest().len() == 0 ==> r is None && final(self).rest() == old(self).rest(),
            old(self).rest().len() > 0 ==> r == Some(old(self).rest()[0])
                && final(self).rest() == old(self).rest().drop_first(),
            final(self).source().pending() == 0,
            final(self).source().inner().rest() == drop_n(
                old(self).source().inner().rest(),
                old(self).source().pending() + 1,
            ),
    {
        self.iter.next()
    }

    /// The size estimate of what is still to come: the source's, less the
    /// items skipped so far.
    pub fn size_hint(&self) -> (r: (usize, Option<usize>))
        ensures
            r == self.source().hint(),
            r.0 <= self.rest().len(),
            r.1 matches Some(u) ==> self.rest().len() <= u,
    {
        self.iter.size_hint()
    }
}

} // verus!
