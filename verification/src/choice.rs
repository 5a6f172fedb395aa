//! Decisions over measured distances.
//!
//! A distance is an ordered key: the smaller key is the shorter distance.
use vstd::prelude::*;

verus! {

/// Where an incoming point goes.
#[derive(Clone, Copy, PartialEq, Eq, Structural, Debug)]
pub enum Placement {
    /// Into the existing class at this place in the list.
    Join(usize),
    /// Into a new class of its own, at the end of the list.
    Found,
}

/// `i` is the place of the least key of `ds`, the first one where several
/// keys are least.
pub open spec fn first_least(ds: Seq<u32>, i: int) -> bool {
    &&& 0 <= i < ds.len()
    &&& forall|j: int| 0 <= j < i ==> ds[j] > ds[i]
    &&& forall|j: int| i <= j < ds.len() ==> ds[j] >= ds[i]
}

/// `p` is the placement of a point whose distances to the classes are `ds`:
/// it joins the nearest class, the first of several equally near, where that
/// distance is below `limit`, and founds a class otherwise.
pub open spec fn placed(ds: Seq<u32>, limit: u32, p: Placement) -> bool {
    match p {
        Placement::Join(i) => first_least(ds, i as int) && ds[i as int] < limit,
        Placement::Found => forall|j: int| 0 <= j < ds.len() ==> ds[j] >= limit,
    }
}

/// At most one place is that of the first least key.
pub proof fn lemma_first_least_unique(ds: Seq<u32>, i: int, j: int)
    requires
        first_least(ds, i),
        first_least(ds, j),
    ensures
        i == j,
{
    if i < j {
        assert(ds[i] > ds[j]);
        assert(ds[j] >= ds[i]);
    } else if j < i {
        assert(ds[j] > ds[i]);
        assert(ds[i] >= ds[j]);
    }
}

/// A sequence of distances has exactly one placement.
pub proof fn lemma_placed_unique(ds: Seq<u32>, limit: u32, p: Placement, q: Placement)
    requires
        placed(ds, limit, p),
        placed(ds, limit, q),
    ensures
        p == q,
{
    match (p, q) {
        (Placement::Join(i), Placement::Join(j)) => {
            lemma_first_least_unique(ds, i as int, j as int);
        },
        _ => {},
    }
}

/// The place of the nearest class: `None` where there is no class.
pub fn nearest(ds: &Vec<u32>) -> (r: Option<usize>)
    ensures
        r is None <==> ds@.len() == 0,
        r matches Some(i) ==> first_least(ds@, i as int),
{
    if ds.len() == 0 {
        return None;
    }
    let mut best: usize = 0;
    let mut k: usize = 1;
    while k < ds.len()
        invariant
            1 <= k <= ds.len(),
            first_least(ds@.take(k as int), best as int),
        decreases ds.len() - k,
    {
        if ds[k] < ds[best] {
            best = k;
        }
        k = k + 1;
    }
    assert(ds@.take(k as int) =~= ds@);
    Some(best)
}

/// Decides where a point goes whose distances to the classes are `ds`.
pub fn place(ds: &Vec<u32>, limit: u32) -> (p: Placement)
    ensures
        placed(ds@, limit, p),
{
    match nearest(ds) {
        Some(i) => {
            if ds[i] < limit {
                Placement::Join(i)
            } else {
                Placement::Found
            }
        },
        None => Placement::Found,
    }
}

} // verus!
