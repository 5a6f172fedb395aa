//! A class: the running mean of the points it has taken in, and their number.
use vstd::prelude::*;

verus! {

/// A running mean together with the number of points behind it.
#[derive(Clone, Copy, Debug)]
pub struct Class<P> {
    pub mean: P,
    pub n: usize,
}

/// The number of points held by all the classes of `s` together.
pub open spec fn total<P>(s: Seq<Class<P>>) -> nat
    decreases s.len(),
{
    if s.len() == 0 {
        0
    } else {
        total(s.drop_last()) + s.last().n as nat
    }
}

/// Every class of `s` holds at least one point.
pub open spec fn populated<P>(s: Seq<Class<P>>) -> bool {
    forall|i: int| 0 <= i < s.len() ==> (#[trigger] s[i]).n >= 1
}

/// Appending a class adds its points to the total.
pub proof fn lemma_total_push<P>(s: Seq<Class<P>>, c: Class<P>)
    ensures
        total(s.push(c)) == total(s) + c.n,
{
    assert(s.push(c).drop_last() =~= s);
}

/// Replacing the class at `i` changes the total by the difference of the two
/// counts, and no class holds more than the total.
pub proof fn lemma_total_update<P>(s: Seq<Class<P>>, i: int, c: Class<P>)
    requires
        0 <= i < s.len(),
    ensures
        s[i].n <= total(s),
        total(s.update(i, c)) == total(s) - s[i].n + c.n,
    decreases s.len(),
{
    let u = s.update(i, c);
    if i == s.len() - 1 {
        assert(u.drop_last() =~= s.drop_last());
    } else {
        lemma_total_update(s.drop_last(), i, c);
        assert(u.drop_last() =~= s.drop_last().update(i, c));
    }
}

/// The first `k` classes hold no more points than all of them, and one class
/// more adds its count.
pub proof fn lemma_total_take<P>(s: Seq<Class<P>>, k: int)
    requires
        0 <= k <= s.len(),
    ensures
        total(s.take(k)) <= total(s),
        k < s.len() ==> total(s.take(k + 1)) == total(s.take(k)) + s[k].n,
    decreases s.len() - k,
{
    if k < s.len() {
        assert(s.take(k + 1).drop_last() =~= s.take(k));
        lemma_total_take(s, k + 1);
    } else {
        assert(s.take(k) =~= s);
    }
}

impl<P: Copy> Class<P> {
    /// A class of the single point `m`.
    pub fn new(m: &P) -> (c: Class<P>)
        ensures
            c.mean == *m,
            c.n == 1,
    {
        Class { mean: *m, n: 1 }
    }

    /// Takes the point `m` in. The new mean is what `mean_of` makes of the old
    /// mean, the number of points behind it, and `m`.
    pub fn append<F: Fn(P, usize, P) -> P>(&mut self, m: &P, mean_of: &F)
        requires
            old(self).n < usize::MAX,
            call_requires(*mean_of, (old(self).mean, old(self).n, *m)),
        ensures
            call_ensures(*mean_of, (old(self).mean, old(self).n, *m), final(self).mean),
            final(self).n == old(self).n + 1,
    {
        self.mean = mean_of(self.mean, self.n, *m);
        self.n = self.n + 1;
    }

    /// Takes the class `m` in, with all its points. The new mean is what
    /// `mean_of` makes of the two means, each with its number of points.
    pub fn merge<F: Fn(P, usize, P, usize) -> P>(&mut self, m: &Class<P>, mean_of: &F)
        requires
            old(self).n + m.n <= usize::MAX,
            call_requires(*mean_of, (old(self).mean, old(self).n, m.mean, m.n)),
        ensures
            call_ensures(
                *mean_of,
                (old(self).mean, old(self).n, m.mean, m.n),
                final(self).mean,
            ),
            final(self).n == old(self).n + m.n,
    {
        self.mean = mean_of(self.mean, self.n, m.mean, m.n);
        self.n = self.n + m.n;
    }
}

} // verus!
