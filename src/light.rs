//! Choices made among lights and among the triangles of a polygon light.
use crate::hitable::{is_probe, probe_answer};
use crate::random::choose_in_range;
use crate::sampler::{AreaSampler, Sampler, SamplerKind, NS2};
use vstd::prelude::*;

verus! {

/// The first light, in list order, that `hit` reports hit by the ray, with its hit
/// distance; later lights are not asked.
pub fn first_light_hit<H: Fn(usize) -> Option<u32>>(n: usize, hit: &H) -> (r: Option<(usize, u32)>)
    requires
        is_probe(*hit),
    ensures
        match r {
            Some((i, t)) => i < n && probe_answer(*hit, i) == Some(t) && forall|j: usize|
                j < i ==> (#[trigger] probe_answer(*hit, j)) is None,
            None => forall|j: usize| j < n ==> (#[trigger] probe_answer(*hit, j)) is None,
        },
{
    let mut i: usize = 0;
    while i < n
        invariant
            i <= n,
            is_probe(*hit),
            forall|j: usize| j < i ==> (#[trigger] probe_answer(*hit, j)) is None,
        decreases n - i,
    {
        match hit(i) {
            Some(t) => {
                return Some((i, t));
            },
            None => {},
        }
        i = i + 1;
    }
    None
}

/// One of `n` items, drawn uniformly at random; `None` when there is none.
pub fn choose_index(n: usize) -> (r: Option<usize>)
    ensures
        n == 0 ==> r is None,
        n > 0 ==> r is Some && r->0 < n,
{
    choose_in_range(n)
}

/// The sampler for a disk light's next query: the current one while it still has
/// points, else a fresh one of strategy `kind` for `NS2` points over the disk.
pub fn disk_light_sampler(current: Option<Sampler>, kind: SamplerKind) -> (r: Sampler)
    ensures
        match current {
            Some(s) => if s.remaining() > 0 {
                r == s
            } else {
                r.is_fresh(kind, NS2, true)
            },
            None => r.is_fresh(kind, NS2, true),
        },
{
    match current {
        Some(s) => {
            if s.has_next() {
                s
            } else {
                Sampler::new(kind, NS2, true)
            }
        },
        None => Sampler::new(kind, NS2, true),
    }
}

} // verus!
