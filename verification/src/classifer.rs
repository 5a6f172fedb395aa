//! The classifier: a list of classes in the order of their founding, and the
//! distance below which a point joins a class or two classes become one.
use vstd::prelude::*;
use crate::choice::{lemma_placed_unique, place, placed, Placement};
use crate::class::{lemma_total_push, lemma_total_take, lemma_total_update, populated, total, Class};

verus! {

/// The classes found so far and the limit of nearness.
#[derive(Debug)]
pub struct Classifer<P> {
    pub list: Vec<Class<P>>,
    pub ncls_dist: u32,
}

/// `ds` holds, class by class, a distance that `dist` gave from `m` to the
/// mean of that class.
pub open spec fn measured<P, D: Fn(P, P) -> u32>(
    dist: D,
    m: P,
    s: Seq<Class<P>>,
    ds: Seq<u32>,
) -> bool {
    &&& ds.len() == s.len()
    &&& forall|i: int| 0 <= i < s.len() ==> call_ensures(dist, (m, s[i].mean), #[trigger] ds[i])
}

/// Carrying out the placement `p` of the point `m` turns `before` into
/// `after`.
pub open spec fn settled<P, A: Fn(P, usize, P) -> P>(
    mean_of: A,
    before: Seq<Class<P>>,
    m: P,
    p: Placement,
    after: Seq<Class<P>>,
) -> bool {
    match p {
        Placement::Join(i) => {
            &&& i < before.len()
            &&& after =~= before.update(i as int, after[i as int])
            &&& after[i as int].n == before[i as int].n + 1
            &&& call_ensures(
                mean_of,
                (before[i as int].mean, before[i as int].n, m),
                after[i as int].mean,
            )
        },
        Placement::Found => after =~= before.push(Class { mean: m, n: 1 }),
    }
}

/// Classifying the point `m` turns `before` into `after`: the point is
/// measured against every class, placed by those distances, and taken in.
pub open spec fn classified<P, D: Fn(P, P) -> u32, A: Fn(P, usize, P) -> P>(
    dist: D,
    mean_of: A,
    limit: u32,
    before: Seq<Class<P>>,
    m: P,
    after: Seq<Class<P>>,
) -> bool {
    exists|ds: Seq<u32>, p: Placement|
        #![trigger measured(dist, m, before, ds), placed(ds, limit, p)]
        measured(dist, m, before, ds) && placed(ds, limit, p) && settled(
            mean_of,
            before,
            m,
            p,
            after,
        )
}

/// Some measurement of `dist` finds `c` and `t` no nearer than `limit`.
pub open spec fn apart<P, D: Fn(P, P) -> u32>(dist: D, limit: u32, c: P, t: P) -> bool {
    exists|d: u32| #![trigger call_ensures(dist, (c, t), d)] call_ensures(dist, (c, t), d) && d >= limit
}

/// Some measurement of `dist` finds `c` and `t` nearer than `limit`.
pub open spec fn near<P, D: Fn(P, P) -> u32>(dist: D, limit: u32, c: P, t: P) -> bool {
    exists|d: u32| #![trigger call_ensures(dist, (c, t), d)] call_ensures(dist, (c, t), d) && d < limit
}

/// `k` is the place of the first class of `s` that was found near `c`, or the
/// length of `s` where every class was found apart from it.
pub open spec fn first_near<P, D: Fn(P, P) -> u32>(
    dist: D,
    limit: u32,
    s: Seq<Class<P>>,
    c: P,
    k: int,
) -> bool {
    &&& 0 <= k <= s.len()
    &&& forall|j: int| 0 <= j < k ==> apart(dist, limit, c, (#[trigger] s[j]).mean)
    &&& k < s.len() ==> near(dist, limit, c, s[k].mean)
}

/// Folding the class `c` into `acc` gives `out`: `c` goes into the first
/// class found near it, or to the end of the list where none is.
pub open spec fn folded_in<P, D: Fn(P, P) -> u32, M: Fn(P, usize, P, usize) -> P>(
    dist: D,
    mean_of: M,
    limit: u32,
    acc: Seq<Class<P>>,
    c: Class<P>,
    out: Seq<Class<P>>,
) -> bool {
    exists|k: int|
        #![trigger first_near(dist, limit, acc, c.mean, k)]
        first_near(dist, limit, acc, c.mean, k) && if k == acc.len() {
            out =~= acc.push(c)
        } else {
            &&& out =~= acc.update(k, out[k])
            &&& out[k].n == acc[k].n + c.n
            &&& call_ensures(mean_of, (acc[k].mean, acc[k].n, c.mean, c.n), out[k].mean)
        }
}

/// `stages` records a fold of `list` into an empty list: it starts empty, and
/// each class of `list`, folded into one stage, gives the next.
pub open spec fn fold_stages<P, D: Fn(P, P) -> u32, M: Fn(P, usize, P, usize) -> P>(
    dist: D,
    mean_of: M,
    limit: u32,
    list: Seq<Class<P>>,
    stages: Seq<Seq<Class<P>>>,
) -> bool {
    &&& stages.len() == list.len() + 1
    &&& stages[0].len() == 0
    &&& forall|k: int|
        0 <= k < list.len() ==> folded_in(
            dist,
            mean_of,
            limit,
            stages[k],
            #[trigger] list[k],
            stages[k + 1],
        )
}

/// Folding the classes of `list`, first to last, into an empty list gives
/// `out`.
pub open spec fn folded<P, D: Fn(P, P) -> u32, M: Fn(P, usize, P, usize) -> P>(
    dist: D,
    mean_of: M,
    limit: u32,
    list: Seq<Class<P>>,
    out: Seq<Class<P>>,
) -> bool {
    exists|stages: Seq<Seq<Class<P>>>|
        #![trigger fold_stages(dist, mean_of, limit, list, stages)]
        fold_stages(dist, mean_of, limit, list, stages) && stages.last() == out
}

/// Every measurement that `dist` can give between the means of two classes
/// of `list`, from the later to the earlier, is `limit` or more.
pub open spec fn all_apart<P, D: Fn(P, P) -> u32>(
    dist: D,
    limit: u32,
    list: Seq<Class<P>>,
) -> bool {
    forall|i: int, j: int, d: u32|
        0 <= i < j < list.len() && #[trigger] call_ensures(dist, (list[j].mean, list[i].mean), d)
            ==> d >= limit
}

/// In a fold of a list in which no two classes can be found near each
/// other, the stage after `k` classes is the first `k` classes of the list.
pub proof fn lemma_stages_apart<P, D: Fn(P, P) -> u32, M: Fn(P, usize, P, usize) -> P>(
    dist: D,
    mean_of: M,
    limit: u32,
    list: Seq<Class<P>>,
    stages: Seq<Seq<Class<P>>>,
    k: int,
)
    requires
        fold_stages(dist, mean_of, limit, list, stages),
        all_apart(dist, limit, list),
        0 <= k <= list.len(),
    ensures
        stages[k] == list.take(k),
    decreases k,
{
    if k == 0 {
        assert(stages[0] =~= list.take(0));
    } else {
        lemma_stages_apart(dist, mean_of, limit, list, stages, k - 1);
        let acc = stages[k - 1];
        let c = list[k - 1];
        let out = stages[k];
        assert(folded_in(dist, mean_of, limit, acc, c, out));
        let j = choose|j: int|
            #![trigger first_near(dist, limit, acc, c.mean, j)]
            first_near(dist, limit, acc, c.mean, j) && if j == acc.len() {
                out =~= acc.push(c)
            } else {
                &&& out =~= acc.update(j, out[j])
                &&& out[j].n == acc[j].n + c.n
                &&& call_ensures(mean_of, (acc[j].mean, acc[j].n, c.mean, c.n), out[j].mean)
            };
        if j < acc.len() {
            let d = choose|d: u32|
                #![trigger call_ensures(dist, (c.mean, acc[j].mean), d)]
                call_ensures(dist, (c.mean, acc[j].mean), d) && d < limit;
            assert(call_ensures(dist, (list[k - 1].mean, list[j].mean), d));
            assert(false);
        }
        assert(out =~= list.take(k));
    }
}

/// Folding a list in which no two classes can be found near each other
/// gives the same list back.
pub proof fn lemma_fold_apart<P, D: Fn(P, P) -> u32, M: Fn(P, usize, P, usize) -> P>(
    dist: D,
    mean_of: M,
    limit: u32,
    list: Seq<Class<P>>,
    out: Seq<Class<P>>,
)
    requires
        folded(dist, mean_of, limit, list, out),
        all_apart(dist, limit, list),
    ensures
        out == list,
{
    let stages = choose|stages: Seq<Seq<Class<P>>>|
        #![trigger fold_stages(dist, mean_of, limit, list, stages)]
        fold_stages(dist, mean_of, limit, list, stages) && stages.last() == out;
    lemma_stages_apart(dist, mean_of, limit, list, stages, list.len() as int);
    assert(list.take(list.len() as int) =~= list);
}

/// Where `dist` can give no other distances from `m` than `ds`, classifying
/// `m` carries out the one placement that `ds` has.
pub proof fn lemma_classified_by<P, D: Fn(P, P) -> u32, A: Fn(P, usize, P) -> P>(
    dist: D,
    mean_of: A,
    limit: u32,
    before: Seq<Class<P>>,
    m: P,
    after: Seq<Class<P>>,
    ds: Seq<u32>,
    p: Placement,
)
    requires
        classified(dist, mean_of, limit, before, m, after),
        ds.len() == before.len(),
        forall|i: int, d: u32|
            0 <= i < before.len() && #[trigger] call_ensures(dist, (m, before[i].mean), d) ==> d
                == ds[i],
        placed(ds, limit, p),
    ensures
        settled(mean_of, before, m, p, after),
{
    let (es, q) = choose|es: Seq<u32>, q: Placement|
        #![trigger measured(dist, m, before, es), placed(es, limit, q)]
        measured(dist, m, before, es) && placed(es, limit, q) && settled(
            mean_of,
            before,
            m,
            q,
            after,
        );
    assert(es =~= ds);
    lemma_placed_unique(ds, limit, p, q);
}

/// Where `dist` can find the first `k` classes of `acc` only apart from `c`,
/// and the class at `k`, if there is one, only near it, folding `c` in puts
/// it into the class at `k`, or at the end of the list.
pub proof fn lemma_folded_in_at<P, D: Fn(P, P) -> u32, M: Fn(P, usize, P, usize) -> P>(
    dist: D,
    mean_of: M,
    limit: u32,
    acc: Seq<Class<P>>,
    c: Class<P>,
    out: Seq<Class<P>>,
    k: int,
)
    requires
        folded_in(dist, mean_of, limit, acc, c, out),
        0 <= k <= acc.len(),
        forall|j: int, d: u32|
            0 <= j < k && #[trigger] call_ensures(dist, (c.mean, acc[j].mean), d) ==> d >= limit,
        forall|d: u32|
            k < acc.len() && #[trigger] call_ensures(dist, (c.mean, acc[k].mean), d) ==> d
                < limit,
    ensures
        k == acc.len() ==> out == acc.push(c),
        k < acc.len() ==> {
            &&& out == acc.update(k, out[k])
            &&& out[k].n == acc[k].n + c.n
            &&& call_ensures(mean_of, (acc[k].mean, acc[k].n, c.mean, c.n), out[k].mean)
        },
{
    let j = choose|j: int|
        #![trigger first_near(dist, limit, acc, c.mean, j)]
        first_near(dist, limit, acc, c.mean, j) && if j == acc.len() {
            out =~= acc.push(c)
        } else {
            &&& out =~= acc.update(j, out[j])
            &&& out[j].n == acc[j].n + c.n
            &&& call_ensures(mean_of, (acc[j].mean, acc[j].n, c.mean, c.n), out[j].mean)
        };
    if j < k {
        assert(near(dist, limit, c.mean, acc[j].mean));
        assert(false);
    } else if k < j {
        assert(apart(dist, limit, c.mean, acc[k].mean));
        assert(false);
    }
}

/// `stages` records the classifying of `points`, one after another, from no
/// class on: each point, classified into one stage, gives the next.
pub open spec fn classify_stages<P, D: Fn(P, P) -> u32, A: Fn(P, usize, P) -> P>(
    dist: D,
    mean_of: A,
    limit: u32,
    points: Seq<P>,
    stages: Seq<Seq<Class<P>>>,
) -> bool {
    &&& stages.len() == points.len() + 1
    &&& stages[0].len() == 0
    &&& forall|k: int|
        0 <= k < points.len() ==> classified(
            dist,
            mean_of,
            limit,
            stages[k],
            #[trigger] points[k],
            stages[k + 1],
        )
}

/// Every measurement that `dist` can give between two of `points`, from the
/// later to the earlier, is `limit` or more.
pub open spec fn far_apart<P, D: Fn(P, P) -> u32>(dist: D, limit: u32, points: Seq<P>) -> bool {
    forall|i: int, j: int, d: u32|
        0 <= i < j < points.len() && #[trigger] call_ensures(dist, (points[j], points[i]), d)
            ==> d >= limit
}

/// Points of which no two can be found near each other found a class each:
/// after `k` of them there are `k` classes, in the order of the points, each
/// with its point as the mean and a count of one.
pub proof fn lemma_far_points_found_classes<P, D: Fn(P, P) -> u32, A: Fn(P, usize, P) -> P>(
    dist: D,
    mean_of: A,
    limit: u32,
    points: Seq<P>,
    stages: Seq<Seq<Class<P>>>,
    k: int,
)
    requires
        classify_stages(dist, mean_of, limit, points, stages),
        far_apart(dist, limit, points),
        0 <= k <= points.len(),
    ensures
        stages[k].len() == k,
        forall|i: int| 0 <= i < k ==> #[trigger] stages[k][i] == (Class { mean: points[i], n: 1 }),
    decreases k,
{
    if k > 0 {
        lemma_far_points_found_classes(dist, mean_of, limit, points, stages, k - 1);
        let before = stages[k - 1];
        let m = points[k - 1];
        let after = stages[k];
        assert(classified(dist, mean_of, limit, before, m, after));
        let (ds, p) = choose|ds: Seq<u32>, p: Placement|
            #![trigger measured(dist, m, before, ds), placed(ds, limit, p)]
            measured(dist, m, before, ds) && placed(ds, limit, p) && settled(
                mean_of,
                before,
                m,
                p,
                after,
            );
        match p {
            Placement::Join(i) => {
                assert(call_ensures(dist, (points[k - 1], points[i as int]), ds[i as int]));
                assert(false);
            },
            Placement::Found => {},
        }
    }
}

/// Points of which each, but for the first, is found near the one class as
/// it then stands make one class that counts them all.
pub proof fn lemma_near_points_one_class<P, D: Fn(P, P) -> u32, A: Fn(P, usize, P) -> P>(
    dist: D,
    mean_of: A,
    limit: u32,
    points: Seq<P>,
    stages: Seq<Seq<Class<P>>>,
    k: int,
)
    requires
        classify_stages(dist, mean_of, limit, points, stages),
        forall|j: int, d: u32|
            1 <= j < points.len() && #[trigger] call_ensures(
                dist,
                (points[j], stages[j][0].mean),
                d,
            ) ==> d < limit,
        1 <= k <= points.len(),
    ensures
        stages[k].len() == 1,
        stages[k][0].n == k,
    decreases k,
{
    let before = stages[k - 1];
    let m = points[k - 1];
    let after = stages[k];
    assert(classified(dist, mean_of, limit, before, m, after));
    let (ds, p) = choose|ds: Seq<u32>, p: Placement|
        #![trigger measured(dist, m, before, ds), placed(ds, limit, p)]
        measured(dist, m, before, ds) && placed(ds, limit, p) && settled(
            mean_of,
            before,
            m,
            p,
            after,
        );
    if k > 1 {
        lemma_near_points_one_class(dist, mean_of, limit, points, stages, k - 1);
        assert(call_ensures(dist, (points[k - 1], stages[k - 1][0].mean), ds[0]));
        assert(p != Placement::Found);
    }
}

/// The distances from `m` to the mean of every class of `list`, in the order
/// of the list.
pub fn distances<P: Copy, D: Fn(P, P) -> u32>(
    list: &Vec<Class<P>>,
    m: &P,
    dist: &D,
) -> (ds: Vec<u32>)
    requires
        forall|a: P, b: P| call_requires(*dist, (a, b)),
    ensures
        measured(*dist, *m, list@, ds@),
{
    let mut ds: Vec<u32> = Vec::new();
    let mut k: usize = 0;
    while k < list.len()
        invariant
            k <= list.len(),
            forall|a: P, b: P| call_requires(*dist, (a, b)),
            measured(*dist, *m, list@.take(k as int), ds@),
        decreases list.len() - k,
    {
        let d: u32 = dist(*m, list[k].mean);
        ds.push(d);
        k = k + 1;
    }
    assert(list@.take(k as int) =~= list@);
    ds
}

/// The place of the first class of `list` whose mean is nearer to `c` than
/// `limit`. Classes after that one are not measured.
pub fn first_within<P: Copy, D: Fn(P, P) -> u32>(
    list: &Vec<Class<P>>,
    c: &P,
    dist: &D,
    limit: u32,
) -> (r: Option<usize>)
    requires
        forall|a: P, b: P| call_requires(*dist, (a, b)),
    ensures
        match r {
            Some(k) => k < list@.len() && first_near(*dist, limit, list@, *c, k as int),
            None => first_near(*dist, limit, list@, *c, list@.len() as int),
        },
{
    let mut k: usize = 0;
    while k < list.len()
        invariant
            k <= list.len(),
            forall|a: P, b: P| call_requires(*dist, (a, b)),
            forall|j: int| 0 <= j < k ==> apart(*dist, limit, *c, (#[trigger] list@[j]).mean),
        decreases list.len() - k,
    {
        let d: u32 = dist(*c, list[k].mean);
        if d < limit {
            return Some(k);
        }
        k = k + 1;
    }
    None
}

impl<P: Copy> Classifer<P> {
    /// Every class holds a point, and the number of points fits a `usize`.
    pub open spec fn wf(&self) -> bool {
        &&& populated(self.list@)
        &&& total(self.list@) <= usize::MAX
    }

    /// A classifier without classes, with `mdist` as its limit of nearness.
    pub fn new(mdist: u32) -> (c: Self)
        ensures
            c.list@.len() == 0,
            c.ncls_dist == mdist,
            c.wf(),
    {
        Classifer { list: Vec::new(), ncls_dist: mdist }
    }

    /// Takes in the point `m`: it joins the class whose mean `dist` finds
    /// nearest, the first of several equally near, where that distance is
    /// below the limit; otherwise it founds a class at the end of the list.
    /// The mean of the class that it joins becomes what `mean_of` makes of the
    /// old mean, the number of points behind it, and `m`.
    pub fn classificate<D: Fn(P, P) -> u32, A: Fn(P, usize, P) -> P>(
        &mut self,
        m: &P,
        dist: &D,
        mean_of: &A,
    )
        requires
            old(self).wf(),
            total(old(self).list@) < usize::MAX,
            forall|a: P, b: P| call_requires(*dist, (a, b)),
            forall|a: P, n: usize, b: P| call_requires(*mean_of, (a, n, b)),
        ensures
            final(self).ncls_dist == old(self).ncls_dist,
            classified(
                *dist,
                *mean_of,
                old(self).ncls_dist,
                old(self).list@,
                *m,
                final(self).list@,
            ),
            total(final(self).list@) == total(old(self).list@) + 1,
            final(self).wf(),
    {
        let ds = distances(&self.list, m, dist);
        let p = place(&ds, self.ncls_dist);
        match p {
            Placement::Join(i) => {
                let mut c: Class<P> = self.list[i];
                proof {
                    lemma_total_update(self.list@, i as int, c);
                }
                c.append(m, mean_of);
                proof {
                    lemma_total_update(self.list@, i as int, c);
                }
                self.list.set(i, c);
            },
            Placement::Found => {
                proof {
                    lemma_total_push(self.list@, Class { mean: *m, n: 1 });
                }
                self.list.push(Class::new(m));
            },
        }
        assert(settled(*mean_of, old(self).list@, *m, p, self.list@));
    }

    /// Folds the list into a new one, class by class in the order of the
    /// list: a class goes into the first class of the new list whose mean
    /// `dist` finds nearer than the limit, and to the end of the new list
    /// where there is none. The mean of a class that takes another in becomes
    /// what `mean_of` makes of the two means, each with its number of points.
    pub fn merge_classes<D: Fn(P, P) -> u32, M: Fn(P, usize, P, usize) -> P>(
        &mut self,
        dist: &D,
        mean_of: &M,
    )
        requires
            old(self).wf(),
            forall|a: P, b: P| call_requires(*dist, (a, b)),
            forall|a: P, n: usize, b: P, k: usize| call_requires(*mean_of, (a, n, b, k)),
        ensures
            final(self).ncls_dist == old(self).ncls_dist,
            folded(*dist, *mean_of, old(self).ncls_dist, old(self).list@, final(self).list@),
            total(final(self).list@) == total(old(self).list@),
            final(self).list@.len() <= old(self).list@.len(),
            final(self).wf(),
            all_apart(*dist, old(self).ncls_dist, old(self).list@) ==> final(self).list@ == old(
                self,
            ).list@,
    {
        let limit: u32 = self.ncls_dist;
        let mut uniq: Vec<Class<P>> = Vec::new();
        let mut idx: usize = 0;
        let ghost mut stages: Seq<Seq<Class<P>>> = seq![uniq@];
        assert(self.list@.take(0) =~= Seq::empty());
        while idx < self.list.len()
            invariant
                idx <= self.list.len(),
                uniq@.len() <= idx,
                limit == self.ncls_dist,
                self.wf(),
                populated(uniq@),
                total(uniq@) == total(self.list@.take(idx as int)),
                stages.len() == idx + 1,
                stages[0].len() == 0,
                stages[idx as int] == uniq@,
                forall|k: int|
                    0 <= k < idx ==> folded_in(
                        *dist,
                        *mean_of,
                        limit,
                        stages[k],
                        #[trigger] self.list@[k],
                        stages[k + 1],
                    ),
                forall|a: P, b: P| call_requires(*dist, (a, b)),
                forall|a: P, n: usize, b: P, k: usize| call_requires(*mean_of, (a, n, b, k)),
            decreases self.list.len() - idx,
        {
            let cls: Class<P> = self.list[idx];
            let ghost acc = uniq@;
            proof {
                lemma_total_take(self.list@, idx as int);
                lemma_total_take(self.list@, idx as int + 1);
            }
            match first_within(&uniq, &cls.mean, dist, limit) {
                Some(k) => {
                    let mut t: Class<P> = uniq[k];
                    proof {
                        lemma_total_update(acc, k as int, t);
                    }
                    t.merge(&cls, mean_of);
                    proof {
                        lemma_total_update(acc, k as int, t);
                    }
                    uniq.set(k, t);
                    assert(first_near(*dist, limit, acc, cls.mean, k as int));
                },
                None => {
                    proof {
                        lemma_total_push(acc, cls);
                    }
                    uniq.push(cls);
                    assert(first_near(*dist, limit, acc, cls.mean, acc.len() as int));
                },
            }
            assert(folded_in(*dist, *mean_of, limit, acc, cls, uniq@));
            proof {
                stages = stages.push(uniq@);
            }
            idx = idx + 1;
        }
        assert(self.list@.take(idx as int) =~= self.list@);
        assert(fold_stages(*dist, *mean_of, limit, self.list@, stages));
        assert(folded(*dist, *mean_of, limit, self.list@, uniq@));
        proof {
            if all_apart(*dist, limit, self.list@) {
                lemma_fold_apart(*dist, *mean_of, limit, self.list@, uniq@);
            }
        }
        self.list = uniq;
    }
}

} // verus!
