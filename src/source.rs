use vstd::prelude::*;

verus! {

/// The sequence left after discarding the first `n` elements of `s`
/// (empty when `s` is shorter than `n`).
pub open spec fn drop_n<T>(s: Seq<T>, n: int) -> Seq<T> {
    if n <= s.len() {
        s.skip(n)
    } else {
        Seq::empty()
    }
}

/// The first `n` elements of `s`, or all of `s` when it is shorter.
pub open spec fn take_n<T>(s: Seq<T>, n: int) -> Seq<T> {
    if n <= s.len() {
        s.take(n)
    } else {
        s
    }
}

/// Discarding `a` items and then `b` more is discarding `a + b`.
pub proof fn lemma_drop_drop<T>(s: Seq<T>, a: int, b: int)
    requires
        0 <= a,
        0 <= b,
    ensures
        drop_n(drop_n(s, a), b) == drop_n(s, a + b),
{
    assert(drop_n(drop_n(s, a), b) =~= drop_n(s, a + b));
}

/// `accs` is the run of accumulators of a fold of `f` over `s`: one more
/// than there are items, each one a value `f` may return for the one before
/// and the item at its place.
pub open spec fn is_fold_trace<A, T, F: Fn(A, T) -> A>(f: F, s: Seq<T>, accs: Seq<A>) -> bool {
    &&& accs.len() == s.len() + 1
    &&& forall|j: int| 0 <= j < s.len() ==> #[trigger] f.ensures((accs[j], s[j]), accs[j + 1])
}

/// As `is_fold_trace`, for a fold whose every step `f` answers with `Ok`.
pub open spec fn is_try_fold_trace<A, E, T, F: Fn(A, T) -> Result<A, E>>(
    f: F,
    s: Seq<T>,
    accs: Seq<A>,
) -> bool {
    &&& accs.len() == s.len() + 1
    &&& forall|j: int|
        0 <= j < s.len() ==> #[trigger] f.ensures((accs[j], s[j]), Ok::<A, E>(accs[j + 1]))
}

/// `r` is a value with which folding `f` over `s`, from `acc`, can end.
pub open spec fn folds_to<A, T, F: Fn(A, T) -> A>(f: F, acc: A, s: Seq<T>, r: A) -> bool {
    exists|accs: Seq<A>|
        #[trigger] is_fold_trace(f, s, accs) && accs[0] == acc && accs.last() == r
}

/// `r` is a result with which a fold of `f` over `s`, from `acc`, that stops at
/// the first `Err` can end, and `left` is what is then still to come.
pub open spec fn try_folds_to<A, E, T, F: Fn(A, T) -> Result<A, E>>(
    f: F,
    acc: A,
    s: Seq<T>,
    r: Result<A, E>,
    left: Seq<T>,
) -> bool {
    exists|j: int, accs: Seq<A>|
        #[trigger] is_try_fold_trace(f, s.take(j), accs) && 0 <= j <= s.len()
            && accs[0] == acc && match r {
            Ok(a) => j == s.len() && a == accs.last() && left == s.skip(j),
            Err(e) => j < s.len() && f.ensures((accs.last(), s[j]), Err::<A, E>(e)) && left == s.skip(
                j + 1,
            ),
        }
}

/// A trace stays a trace when one more step of the fold is added to it.
pub proof fn lemma_trace_push<A, T, F: Fn(A, T) -> A>(f: F, s: Seq<T>, accs: Seq<A>, x: T, a: A)
    requires
        is_fold_trace(f, s, accs),
        f.ensures((accs.last(), x), a),
    ensures
        is_fold_trace(f, s.push(x), accs.push(a)),
{
    assert forall|j: int| 0 <= j < s.push(x).len() implies #[trigger] f.ensures(
        (accs.push(a)[j], s.push(x)[j]),
        accs.push(a)[j + 1],
    ) by {
        if j < s.len() {
            assert(f.ensures((accs[j], s[j]), accs[j + 1]));
        }
    }
}

/// A trace of `Ok` steps stays one when one more `Ok` step is added to it.
pub proof fn lemma_try_trace_push<A, E, T, F: Fn(A, T) -> Result<A, E>>(
    f: F,
    s: Seq<T>,
    accs: Seq<A>,
    x: T,
    a: A,
)
    requires
        is_try_fold_trace(f, s, accs),
        f.ensures((accs.last(), x), Ok::<A, E>(a)),
    ensures
        is_try_fold_trace(f, s.push(x), accs.push(a)),
{
    assert forall|j: int| 0 <= j < s.push(x).len() implies #[trigger] f.ensures(
        (accs.push(a)[j], s.push(x)[j]),
        Ok::<A, E>(accs.push(a)[j + 1]),
    ) by {
        if j < s.len() {
            assert(f.ensures((accs[j], s[j]), Ok::<A, E>(accs[j + 1])));
        }
    }
}

/// A producer of items whose remaining output is the finite sequence `rest()`.
pub trait Source: Sized {
    type Item;

    /// The items this source still yields, in order.
    spec fn rest(&self) -> Seq<Self::Item>;

    /// The size estimate `size_hint` reports.
    spec fn hint(&self) -> (usize, Option<usize>);

    /// Yields the first remaining item, or `None` when nothing is left.
    fn next(&mut self) -> (r: Option<Self::Item>)
        ensures
            old(self).rest().len() == 0 ==> r is None && final(self).rest() == old(self).rest(),
            old(self).rest().len() > 0 ==> r == Some(old(self).rest()[0])
                && final(self).rest() == old(self).rest().drop_first(),
    ;

    /// Discards `n` items and yields the following one.
    fn nth(&mut self, n: usize) -> (r: Option<Self::Item>)
        ensures
            n < old(self).rest().len() ==> r == Some(old(self).rest()[n as int]),
            n >= old(self).rest().len() ==> r is None,
            final(self).rest() == drop_n(old(self).rest(), n + 1),
    ;

    /// Discards up to `n` items: `Ok` when all `n` were there, else
    /// `Err(k)` with the `k` items that were.
    fn advance_by(&mut self, n: usize) -> (r: Result<(), usize>)
        ensures
            n <= old(self).rest().len() ==> r == Ok::<(), usize>(()),
            n > old(self).rest().len() ==> r == Err::<(), usize>(old(self).rest().len() as usize),
            final(self).rest() == drop_n(old(self).rest(), n as int),
    ;

    /// Lower bound and optional upper bound on the remaining length.
    fn size_hint(&self) -> (r: (usize, Option<usize>))
        ensures
            r == self.hint(),
            r.0 <= self.rest().len(),
            r.1 matches Some(u) ==> self.rest().len() <= u,
    ;

    /// The number of remaining items.
    fn count(self) -> (r: usize)
        requires
            self.rest().len() <= usize::MAX,
        ensures
            r == self.rest().len(),
    ;

    /// The final remaining item, if any.
    fn last(self) -> (r: Option<Self::Item>)
        ensures
            self.rest().len() == 0 ==> r is None,
            self.rest().len() > 0 ==> r == Some(self.rest().last()),
    ;

    /// Folds `f` over the remaining items, from `init`.
    fn fold<A, F: Fn(A, Self::Item) -> A>(self, init: A, f: F) -> (r: A)
        requires
            forall|a: A, x: Self::Item| f.requires((a, x)),
        ensures
            folds_to(f, init, self.rest(), r),
    ;

    /// Folds `f` over the remaining items, from `init`, and stops at the
    /// first `Err` that `f` returns, handing it back unchanged.
    fn try_fold<A, E, F: Fn(A, Self::Item) -> Result<A, E>>(&mut self, init: A, f: F) -> (r: Result<A, E>)
        requires
            forall|a: A, x: Self::Item| f.requires((a, x)),
        ensures
            try_folds_to(f, init, old(self).rest(), r, final(self).rest()),
    ;

    /// An independent source at the same position.
    fn duplicate(&self) -> (r: Self)
        ensures
            r.rest() == self.rest(),
            r.hint() == self.hint(),
    ;
}

/// A source over the items of a slice, from a position onward.
#[derive(Clone, Debug)]
pub struct Cursor<'a, T> {
    data: &'a [T],
    pos: usize,
}

impl<'a, T> Cursor<'a, T> {
    /// A cursor at the start of `data`.
    pub fn new(data: &'a [T]) -> (r: Cursor<'a, T>)
        ensures
            r.rest() == data@.map(|i: int, x: T| &x),
            r.hint() == (data@.len() as usize, Some(data@.len() as usize)),
    {
        let r = Cursor { data, pos: 0 };
        assert(r.rest() =~= data@.map(|i: int, x: T| &x));
        r
    }
}

impl<'a, T> Source for Cursor<'a, T> {
    type Item = &'a T;

    closed spec fn rest(&self) -> Seq<&'a T> {
        drop_n(self.data@, self.pos as int).map(|i: int, x: T| &x)
    }

    closed spec fn hint(&self) -> (usize, Option<usize>) {
        let k = if self.pos <= self.data@.len() {
            (self.data@.len() - self.pos) as usize
        } else {
            0usize
        };
        (k, Some(k))
    }

    fn next(&mut self) -> (r: Option<&'a T>) {
        if self.pos < self.data.len() {
            let r = &self.data[self.pos];
            self.pos = self.pos + 1;
            assert(self.rest() =~= old(self).rest().drop_first());
            Some(r)
        } else {
            None
        }
    }

    fn nth(&mut self, n: usize) -> (r: Option<&'a T>) {
        let len = self.data.len();
        if self.pos < len && n < len - self.pos {
            let r = &self.data[self.pos + n];
            self.pos = self.pos + n + 1;
            assert(self.rest() =~= drop_n(old(self).rest(), n + 1));
            Some(r)
        } else {
            if self.pos < len {
                self.pos = len;
            }
            assert(self.rest() =~= drop_n(old(self).rest(), n + 1));
            None
        }
    }

    fn advance_by(&mut self, n: usize) -> (r: Result<(), usize>) {
        let len = self.data.len();
        let avail: usize = if self.pos < len { len - self.pos } else { 0 };
        if n <= avail {
            self.pos = self.pos + n;
            assert(self.rest() =~= drop_n(old(self).rest(), n as int));
            Ok(())
        } else {
            if self.pos < len {
                self.pos = len;
            }
            assert(self.rest() =~= drop_n(old(self).rest(), n as int));
            Err(avail)
        }
    }

    fn size_hint(&self) -> (r: (usize, Option<usize>)) {
        let k: usize = if self.pos <= self.data.len() { self.data.len() - self.pos } else { 0 };
        (k, Some(k))
    }

    fn count(self) -> (r: usize) {
        if self.pos <= self.data.len() { self.data.len() - self.pos } else { 0 }
    }

    fn last(self) -> (r: Option<&'a T>) {
        let len = self.data.len();
        if self.pos < len {
            Some(&self.data[len - 1])
        } else {
            None
        }
    }

    fn fold<A, F: Fn(A, Self::Item) -> A>(self, init: A, f: F) -> (r: A) {
        let ghost all = self.rest();
        let mut s = self;
        let mut acc = init;
        let ghost mut accs: Seq<A> = seq![init];
        let ghost mut i: int = 0;
        loop
            invariant
                0 <= i <= all.len(),
                all == self.rest(),
                s.rest() == all.skip(i),
                is_fold_trace(f, all.take(i), accs),
                accs[0] == init,
                accs.last() == acc,
                forall|a: A, x: Self::Item| f.requires((a, x)),
            decreases s.rest().len(),
        {
            match s.next() {
                Some(x) => {
                    let ghost before = acc;
                    acc = f(acc, x);
                    proof {
                        assert(all.take(i + 1) =~= all.take(i).push(x));
                        lemma_trace_push(f, all.take(i), accs, x, acc);
                        accs = accs.push(acc);
                        i = i + 1;
                        assert(s.rest() =~= all.skip(i));
                    }
                },
                None => {
                    assert(all.take(i) =~= all);
                    assert(is_fold_trace(f, all, accs));
                    return acc;
                },
            }
        }
    }

    fn try_fold<A, E, F: Fn(A, Self::Item) -> Result<A, E>>(&mut self, init: A, f: F) -> (r: Result<A, E>) {
        let ghost all = self.rest();
        let mut acc = init;
        let ghost mut accs: Seq<A> = seq![init];
        let ghost mut i: int = 0;
        loop
            invariant
                0 <= i <= all.len(),
                all == old(self).rest(),
                self.rest() == all.skip(i),
                is_try_fold_trace::<A, E, Self::Item, F>(f, all.take(i), accs),
                accs[0] == init,
                accs.last() == acc,
                forall|a: A, x: Self::Item| f.requires((a, x)),
            decreases self.rest().len(),
        {
            match self.next() {
                Some(x) => {
                    let step = f(acc, x);
                    match step {
                        Ok(a) => {
                            proof {
                                assert(all.take(i + 1) =~= all.take(i).push(x));
                                lemma_try_trace_push::<A, E, Self::Item, F>(f, all.take(i), accs, x, a);
                                accs = accs.push(a);
                                i = i + 1;
                                assert(self.rest() =~= all.skip(i));
                            }
                            acc = a;
                        },
                        Err(e) => {
                            assert(self.rest() =~= all.skip(i + 1));
                            assert(is_try_fold_trace::<A, E, Self::Item, F>(f, all.take(i), accs));
                            return Err(e);
                        },
                    }
                },
                None => {
                    assert(all.take(i) =~= all);
                    assert(is_try_fold_trace::<A, E, Self::Item, F>(f, all.take(i), accs));
                    return Ok(acc);
                },
            }
        }
    }

    fn duplicate(&self) -> (r: Cursor<'a, T>) {
        Cursor { data: self.data, pos: self.pos }
    }
}

} // verus!
