//! Closest-hit selection over a list of primitives.
//!
//! A primitive's intersection test is handed in as a probe: given the primitive's
//! index, and for a scan the farthest distance still of interest, it answers with the
//! ordinal of the hit distance, or `None` on a miss.
use vstd::prelude::*;

verus! {

/// The answer that `f` gives for `i`.
pub open spec fn probe_answer<H: Fn(usize) -> Option<u32>>(f: H, i: usize) -> Option<u32> {
    choose|r: Option<u32>| call_ensures(f, (i,), r)
}

/// `f` can be asked about any index and answers as a function of it.
pub open spec fn is_probe<H: Fn(usize) -> Option<u32>>(f: H) -> bool {
    &&& forall|i: usize| call_requires(f, (i,))
    &&& forall|i: usize, r: Option<u32>| call_ensures(f, (i,), r) ==> r == probe_answer(f, i)
}

/// The answer that `f` gives for primitive `i` searched up to `bound`, where `None`
/// stands for the caller's own far limit.
pub open spec fn bounded_answer<H: Fn(usize, Option<u32>) -> Option<u32>>(
    f: H,
    i: usize,
    bound: Option<u32>,
) -> Option<u32> {
    choose|r: Option<u32>| call_ensures(f, (i, bound), r)
}

/// `f` can be asked about any primitive and bound, and answers as a function of them.
pub open spec fn is_bounded_probe<H: Fn(usize, Option<u32>) -> Option<u32>>(f: H) -> bool {
    &&& forall|i: usize, bound: Option<u32>| call_requires(f, (i, bound))
    &&& forall|i: usize, bound: Option<u32>, r: Option<u32>|
        call_ensures(f, (i, bound), r) ==> r == bounded_answer(f, i, bound)
}

/// The hit distance of a hit, if any.
pub open spec fn hit_distance(h: Option<(u32, usize)>) -> Option<u32> {
    match h {
        Some(p) => Some(p.0),
        None => None,
    }
}

/// What a scan of primitives `0 .. n` keeps, as (distance, index): each primitive is
/// searched up to the nearest hit kept so far, and a hit it reports replaces it.
pub open spec fn list_hit(hitf: spec_fn(usize, Option<u32>) -> Option<u32>, n: nat) -> Option<(
    u32,
    usize,
)>
    decreases n,
{
    if n == 0 {
        None
    } else {
        let prev = list_hit(hitf, (n - 1) as nat);
        match hitf((n - 1) as usize, hit_distance(prev)) {
            Some(t) => Some((t, (n - 1) as usize)),
            None => prev,
        }
    }
}

/// The nearest of `n` primitives, by a linear scan that asks each primitive for a
/// hit no farther than the nearest one found so far.
pub fn closest_hit<H: Fn(usize, Option<u32>) -> Option<u32>>(n: usize, hit: &H) -> (r: Option<(u32, usize)>)
    requires
        is_bounded_probe(*hit),
    ensures
        r == list_hit(|i: usize, bound: Option<u32>| bounded_answer(*hit, i, bound), n as nat),
{
    let ghost hitf = |i: usize, bound: Option<u32>| bounded_answer(*hit, i, bound);
    let mut best: Option<(u32, usize)> = None;
    let mut i: usize = 0;
    while i < n
        invariant
            i <= n,
            is_bounded_probe(*hit),
            hitf == (|i: usize, bound: Option<u32>| bounded_answer(*hit, i, bound)),
            best == list_hit(hitf, i as nat),
        decreases n - i,
    {
        let bound = match best {
            Some(p) => Some(p.0),
            None => None,
        };
        match hit(i, bound) {
            Some(t) => {
                best = Some((t, i));
            },
            None => {},
        }
        i = i + 1;
    }
    best
}

/// `bounded` is the primitives' hit test of `full` cut off at a bound: with no bound
/// it answers as `full`; a hit it reports is the full hit and lies within the bound;
/// and a full hit strictly within the bound is reported.
pub open spec fn narrows(
    bounded: spec_fn(usize, Option<u32>) -> Option<u32>,
    full: spec_fn(usize) -> Option<u32>,
) -> bool {
    &&& forall|i: usize| #[trigger] bounded(i, None) == full(i)
    &&& forall|i: usize, b: u32|
        (#[trigger] bounded(i, Some(b))) is Some ==> bounded(i, Some(b)) == full(i) && full(i)->0 <= b
    &&& forall|i: usize, b: u32|
        full(i) is Some && full(i)->0 < b ==> #[trigger] bounded(i, Some(b)) == full(i)
}

/// The scan keeps a hit of the list, and no primitive of the list is hit nearer.
pub proof fn lemma_list_hit_nearest(
    hitf: spec_fn(usize, Option<u32>) -> Option<u32>,
    full: spec_fn(usize) -> Option<u32>,
    n: nat,
)
    requires
        n <= usize::MAX + 1,
        narrows(hitf, full),
    ensures
        match list_hit(hitf, n) {
            Some(p) => p.1 < n && full(p.1) == Some(p.0),
            None => true,
        },
        forall|j: usize|
            j < n && (#[trigger] full(j)) is Some ==> list_hit(hitf, n) is Some && (list_hit(
                hitf,
                n,
            )->0).0 <= full(j)->0,
    decreases n,
{
    if n > 0 {
        lemma_list_hit_nearest(hitf, full, (n - 1) as nat);
        let prev = list_hit(hitf, (n - 1) as nat);
        let last = (n - 1) as usize;
        match prev {
            Some(p) => {
                if hitf(last, Some(p.0)) is None && full(last) is Some {
                    assert(!(full(last)->0 < p.0));
                }
            },
            None => {
                assert(hitf(last, None) == full(last));
            },
        }
    }
}

} // verus!
