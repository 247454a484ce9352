use vstd::prelude::*;

use crate::skip::Skip;
use crate::source::{Source, drop_n, take_n};
use crate::window::Skak;

verus! {

/// A deferred skip of `s` over a source of `L >= s` items yields exactly the
/// source's items at positions `s, s + 1, ..., L - 1`, in order.
pub proof fn lemma_skip_yields_suffix<I: Source>(k: Skip<I>)
    requires
        k.pending() <= k.inner().rest().len(),
    ensures
        k.rest().len() == k.inner().rest().len() - k.pending(),
        forall|i: int|
            0 <= i < k.rest().len() ==> #[trigger] k.rest()[i] == k.inner().rest()[k.pending() + i],
{
}

/// Deferring `s1` and then `s2` more is the same as deferring `s1 + s2` at
/// once: the same items are yielded, so as many are counted, and the same
/// size estimate is given, also when the sum is built as a skip over a skip.
pub proof fn lemma_deferred_skips_compose<I: Source>(x: I, s1: usize, s2: usize, a: Skip<I>, b: Skip<Skip<I>>)
    requires
        s1 + s2 <= usize::MAX,
        a.inner() == x,
        a.pending() == s1 + s2,
        b.inner().inner() == x,
        b.inner().pending() == s1,
        b.pending() == s2,
    ensures
        a.rest() == drop_n(drop_n(x.rest(), s1 as int), s2 as int),
        a.rest() == b.rest(),
        a.rest().len() == if s1 + s2 <= x.rest().len() {
            x.rest().len() - s1 - s2
        } else {
            0
        },
        a.hint() == b.hint(),
{
    crate::source::lemma_drop_drop(x.rest(), s1 as int, s2 as int);
}

/// After windows that delivered `d` items in all, the continuation's size
/// estimate is the original source's less `d`, saturating at zero.
pub proof fn lemma_window_size_estimate<I: Source>(x: I, c: Skak<Skip<I>>, d: usize)
    requires
        c.source().inner() == x,
        c.source().pending() == d,
    ensures
        c.source().hint().0 == x.hint().0.saturating_sub(d),
        x.hint().1 matches Some(u) ==> c.source().hint().1 == Some(u.saturating_sub(d)),
        x.hint().1 is None ==> c.source().hint().1 is None,
        c.rest() == drop_n(x.rest(), d as int),
{
}

/// A window followed by what its continuation yields is the whole of what
/// was still to come: nothing is lost, repeated or reordered.
pub proof fn lemma_window_then_rest<T>(s: Seq<T>, k: nat)
    ensures
        take_n(s, k as int) + drop_n(s, k as int) == s,
        take_n(s, k as int).len() == if k <= s.len() { k as int } else { s.len() as int },
{
    assert(take_n(s, k as int) + drop_n(s, k as int) =~= s);
}

} // verus!
