//! Generators of 2D sample points over a square, or over the disk inscribed in it.
//!
//! A point is kept as exact fractions of the square's side; the caller scales it by
//! the side length it samples over.
use crate::random::random_below;
use vstd::arithmetic::div_mod::{
    lemma_fundamental_div_mod, lemma_fundamental_div_mod_converse, lemma_mod_bound,
    lemma_multiply_divide_lt,
};
use vstd::prelude::*;

verus! {

/// Number of evenly spaced values that a random coordinate takes along one side:
/// 2^24, the resolution of a uniformly drawn `f32` in `[0, 1)`.
pub const RANDOM_STEPS: u64 = 16777216;

/// Largest denominator a sample point may carry (2^62): it keeps the disk test
/// within `i128`.
pub const MAX_DEN: u64 = 4611686018427387904;

/// Draws allowed for one rejection-sampled point before the draw is given up.
pub const MAX_DRAWS: u64 = 1000000;

/// Points drawn at a time for a rejection-sampled point: `MAX_DRAWS` is
/// `DISK_BATCH * MAX_BATCHES`.
pub const DISK_BATCH: u64 = 8;

/// Batches drawn for one rejection-sampled point before the draw is given up.
pub const MAX_BATCHES: u64 = 125000;

/// Samples taken for each pixel.
pub const NS: i32 = 10;

/// Samples taken over an area light for each query.
pub const NS2: i32 = 9;

/// Attempts at a whole blue-noise sequence before construction gives up.
pub const MAX_ROUNDS: u64 = 1000000;

/// Candidates tried for one blue-noise point before the sequence is started over.
pub const MAX_TRIES: u64 = 11;

/// `std::io::Error`, carried opaquely as the error of `SamplerKind::from_int`.
#[verifier::external_type_specification]
#[verifier::external_body]
pub struct ExIoError(std::io::Error);

/// Relies on `std::io::Error::new`, which builds an error of kind `Other` carrying
/// the message.
#[verifier::external_body]
fn unexpected_integer() -> (r: std::io::Error) {
    std::io::Error::new(std::io::ErrorKind::Other, "unexpected integer")
}

/// The four sampling strategies.
#[derive(Clone, Copy, Debug, PartialEq, Eq, Structural)]
pub enum SamplerKind {
    WhiteNoise,
    BlueNoise,
    Jittered,
    Uniform,
}

/// The strategy numbered `i` on the command line, if any.
pub open spec fn kind_of_int(i: i32) -> Option<SamplerKind> {
    if i == 1 {
        Some(SamplerKind::WhiteNoise)
    } else if i == 2 {
        Some(SamplerKind::Uniform)
    } else if i == 3 {
        Some(SamplerKind::Jittered)
    } else if i == 4 {
        Some(SamplerKind::BlueNoise)
    } else {
        None
    }
}

impl SamplerKind {
    /// Maps 1, 2, 3, 4 to white noise, uniform, jittered and blue noise; any other
    /// integer is an error.
    pub fn from_int(i: i32) -> (r: std::io::Result<SamplerKind>)
        ensures
            match r {
                Ok(k) => kind_of_int(i) == Some(k),
                Err(_) => kind_of_int(i) is None,
            },
    {
        match i {
            1 => Ok(SamplerKind::WhiteNoise),
            2 => Ok(SamplerKind::Uniform),
            3 => Ok(SamplerKind::Jittered),
            4 => Ok(SamplerKind::BlueNoise),
            _ => Err(unexpected_integer()),
        }
    }
}

/// The point `(x / den, y / den)` of the unit square; the sampler's user scales it
/// by the side of the square it samples.
#[derive(Clone, Copy, Debug, PartialEq, Eq, Structural)]
pub struct SamplePoint {
    pub x: u64,
    pub y: u64,
    pub den: u64,
}

impl SamplePoint {
    /// The point lies in the half-open square `[0, 1) x [0, 1)`, with a denominator
    /// small enough for exact arithmetic.
    pub open spec fn wf(self) -> bool {
        0 < self.den <= MAX_DEN && self.x < self.den && self.y < self.den
    }

    /// Four times the squared distance to the square's centre, over `den * den`.
    pub open spec fn centre_dist4(self) -> int {
        let dx = 2 * self.x - self.den;
        let dy = 2 * self.y - self.den;
        dx * dx + dy * dy
    }

    /// The point lies strictly inside the disk inscribed in the square.
    pub open spec fn in_disk(self) -> bool {
        self.centre_dist4() < self.den as int * self.den as int
    }

    pub fn is_in_disk(&self) -> (r: bool)
        requires
            self.wf(),
        ensures
            r == self.in_disk(),
    {
        let den = self.den as i128;
        let dx = 2 * (self.x as i128) - den;
        let dy = 2 * (self.y as i128) - den;
        assert(-den <= dx <= den && -den <= dy <= den);
        assert(0 <= dx * dx <= den * den && 0 <= dy * dy <= den * den) by (nonlinear_arith)
            requires
                -den <= dx <= den,
                -den <= dy <= den,
        ;
        assert(den * den <= 0x1000_0000_0000_0000_0000_0000_0000_0000) by (nonlinear_arith)
            requires
                0 < den <= 0x4000_0000_0000_0000,
        ;
        dx * dx + dy * dy < den * den
    }
}

/// A bounded stream of points over the square.
pub trait AreaSampler {
    /// An upper bound on the number of points still to come.
    spec fn remaining(&self) -> nat;

    /// The next point, or `None` once the stream is exhausted.
    fn sample(&mut self) -> (r: Option<SamplePoint>)
        ensures
            old(self).remaining() > 0 ==> r is Some,
            match r {
                Some(p) => p.wf() && final(self).remaining() < old(self).remaining(),
                None => final(self).remaining() <= old(self).remaining(),
            },
    ;

    /// Whether `sample` has a point to give.
    fn has_next(&self) -> (r: bool)
        ensures
            r == (self.remaining() > 0),
    ;

    /// The next point inside the inscribed disk, or `None` once exhausted: points
    /// outside the disk are drawn and passed over.
    fn sample_in_disk(&mut self) -> (r: Option<SamplePoint>)
        ensures
            match r {
                Some(p) => p.wf() && p.in_disk(),
                None => true,
            },
    ;
}

fn square(x: u64) -> (r: u64)
    requires
        x <= 46341,
    ensures
        r == x * x,
{
    assert(x * x <= 46341 * 46341) by (nonlinear_arith)
        requires
            x <= 46341,
    ;
    x * x
}

/// The largest `e` with `e * e <= n`, or 0 for a negative `n`.
pub fn grid_edge(n: i32) -> (e: u64)
    ensures
        e * e <= if n < 0 { 0 } else { n as int },
        (if n < 0 { 0 } else { n as int }) < (e + 1) * (e + 1),
{
    if n <= 0 {
        return 0;
    }
    let mut e: u64 = 0;
    while e < 46340
        invariant
            e * e <= n as int,
            e <= 46340,
        decreases 46340 - e,
    {
        if square(e + 1) > n as u64 {
            return e;
        }
        e = e + 1;
    }
    assert(46341 * 46341 > 0x7fff_ffff);
    e
}

/// The centre of cell `k` of an `edge` by `edge` grid, cells taken row by row.
pub open spec fn cell_centre(edge: nat, k: nat) -> SamplePoint
    recommends
        edge > 0,
{
    SamplePoint { x: (2 * (k % edge) + 1) as u64, y: (2 * (k / edge) + 1) as u64, den: (2 * edge) as u64 }
}

/// Cell centres of a regular grid, row by row.
pub struct UniformSampler {
    edge: u64,
    next: u64,
}

impl UniformSampler {
    /// Cells along one side.
    pub closed spec fn edge(&self) -> nat {
        self.edge as nat
    }

    /// Index of the next cell to hand out.
    pub closed spec fn next(&self) -> nat {
        self.next as nat
    }

    #[verifier::type_invariant]
    spec fn wf(&self) -> bool {
        self.edge <= 46341 && self.next <= self.edge * self.edge
    }

    /// A grid of `e * e` cells, where `e * e` is the largest square not above
    /// `ref_rate`.
    pub fn new(ref_rate: i32) -> (r: Self)
        ensures
            r.next() == 0,
            r.edge() * r.edge() <= if ref_rate < 0 { 0 } else { ref_rate as int },
            (if ref_rate < 0 { 0 } else { ref_rate as int }) < (r.edge() + 1) * (r.edge() + 1),
    {
        let edge = grid_edge(ref_rate);
        assert(edge <= 46341) by (nonlinear_arith)
            requires
                edge * edge <= 0x7fff_ffff,
        ;
        UniformSampler { edge, next: 0 }
    }
}

proof fn lemma_cell_centre_wf(edge: nat, k: nat)
    requires
        0 < edge <= 46341,
        k < edge * edge,
    ensures
        cell_centre(edge, k).wf(),
        cell_centre(edge, k).x == 2 * (k % edge) + 1,
        cell_centre(edge, k).y == 2 * (k / edge) + 1,
        cell_centre(edge, k).den == 2 * edge,
{
    lemma_mod_bound(k as int, edge as int);
    lemma_multiply_divide_lt(k as int, edge as int, edge as int);
}

/// One draw from the grid sampler `a`, leaving `b`: the centre of the next cell, row
/// by row, until all cells are handed out.
pub open spec fn uniform_sample_post(a: UniformSampler, b: UniformSampler, r: Option<SamplePoint>) -> bool {
    &&& b.edge() == a.edge()
    &&& if a.next() < a.edge() * a.edge() {
        r == Some(cell_centre(a.edge(), a.next())) && b.next() == a.next() + 1
    } else {
        r is None && b.next() == a.next()
    }
}

/// The first cell from `k` on whose centre lies strictly inside the disk; `edge * edge`
/// when there is none.
pub open spec fn first_disk_cell(edge: nat, k: nat) -> nat
    decreases edge * edge - k,
{
    if k >= edge * edge {
        edge * edge
    } else if cell_centre(edge, k).in_disk() {
        k
    } else {
        first_disk_cell(edge, k + 1)
    }
}

/// One draw inside the disk from the grid sampler `a`, leaving `b`: the centre of the
/// first cell from `a`'s next one that lies inside the disk, the cells before it
/// passed over; `None` once no such cell is left, with every cell handed out.
pub open spec fn uniform_disk_post(a: UniformSampler, b: UniformSampler, r: Option<SamplePoint>) -> bool {
    let j = first_disk_cell(a.edge(), a.next());
    &&& b.edge() == a.edge()
    &&& if j < a.edge() * a.edge() {
        r == Some(cell_centre(a.edge(), j)) && b.next() == j + 1
    } else {
        r is None && b.next() == a.edge() * a.edge()
    }
}

impl AreaSampler for UniformSampler {
    open spec fn remaining(&self) -> nat {
        (self.edge() * self.edge() - self.next()) as nat
    }

    fn has_next(&self) -> (r: bool) {
        proof {
            use_type_invariant(self);
        }
        self.next < square(self.edge)
    }

    /// The centre of the next cell, row by row, until all cells are handed out.
    fn sample(&mut self) -> (r: Option<SamplePoint>)
        ensures
            uniform_sample_post(*old(self), *final(self), r),
    {
        proof {
            use_type_invariant(&*self);
        }
        if self.next < square(self.edge) {
            let k = self.next;
            let e = self.edge;
            proof {
                lemma_cell_centre_wf(e as nat, k as nat);
            }
            let p = SamplePoint { x: 2 * (k % e) + 1, y: 2 * (k / e) + 1, den: 2 * e };
            self.next = k + 1;
            assert(self.remaining() < old(self).remaining());
            Some(p)
        } else {
            None
        }
    }

    fn sample_in_disk(&mut self) -> (r: Option<SamplePoint>)
        ensures
            uniform_disk_post(*old(self), *final(self), r),
    {
        loop
            invariant
                self.edge() == old(self).edge(),
                old(self).next() <= self.next(),
                first_disk_cell(self.edge(), self.next()) == first_disk_cell(
                    old(self).edge(),
                    old(self).next(),
                ),
            decreases self.remaining(),
        {
            proof {
                use_type_invariant(&*self);
            }
            match self.sample() {
                Some(p) => {
                    if p.is_in_disk() {
                        return Some(p);
                    }
                },
                None => {
                    proof {
                        use_type_invariant(&*self);
                    }
                    return None;
                },
            }
        }
    }
}

/// A coordinate drawn uniformly from the `RANDOM_STEPS` values `0 .. RANDOM_STEPS`.
fn random_step() -> (r: u64)
    ensures
        r < RANDOM_STEPS,
{
    random_below(RANDOM_STEPS)
}

/// `p` lies in the jitter span of the cell centred at `c`: each coordinate lies past
/// the centre by `u / RANDOM_STEPS` of half a cell width, for some `u` below
/// `RANDOM_STEPS`.
pub open spec fn jittered_from(c: SamplePoint, p: SamplePoint) -> bool {
    &&& p.den == c.den * RANDOM_STEPS
    &&& c.x * RANDOM_STEPS <= p.x < c.x * RANDOM_STEPS + RANDOM_STEPS
    &&& c.y * RANDOM_STEPS <= p.y < c.y * RANDOM_STEPS + RANDOM_STEPS
}

/// Stratified sampling: each cell centre of a regular grid moved by a random offset
/// of up to half a cell width along each axis.
pub struct JitteredSampler {
    uniform_sampler: UniformSampler,
}

impl JitteredSampler {
    /// The grid of `UniformSampler::new(ref_rate)`.
    pub closed spec fn grid(&self) -> UniformSampler {
        self.uniform_sampler
    }

    pub fn new(ref_rate: i32) -> (r: Self)
        ensures
            r.grid().next() == 0,
            r.grid().edge() * r.grid().edge() <= if ref_rate < 0 { 0 } else { ref_rate as int },
            (if ref_rate < 0 { 0 } else { ref_rate as int }) < (r.grid().edge() + 1) * (r.grid().edge() + 1),
    {
        JitteredSampler { uniform_sampler: UniformSampler::new(ref_rate) }
    }
}

/// One draw from the jittered sampler `a`, leaving `b`: a random point of the next
/// cell's jitter span, until all cells are handed out.
pub open spec fn jittered_sample_post(a: JitteredSampler, b: JitteredSampler, r: Option<SamplePoint>) -> bool {
    let e = a.grid().edge();
    &&& b.grid().edge() == e
    &&& if a.grid().next() < e * e {
        r is Some && jittered_from(cell_centre(e, a.grid().next()), r->0) && b.grid().next() == a.grid().next() + 1
    } else {
        r is None && b.grid().next() == a.grid().next()
    }
}

/// One draw inside the disk from the jittered sampler `a`, leaving `b`: a jittered
/// point of some cell from `a`'s next one on, inside the disk, the cells before it
/// passed over; `None` once every cell is handed out.
pub open spec fn jittered_disk_post(a: JitteredSampler, b: JitteredSampler, r: Option<SamplePoint>) -> bool {
    let e = a.grid().edge();
    &&& b.grid().edge() == e
    &&& match r {
        Some(p) => p.in_disk() && a.grid().next() < b.grid().next() && jittered_from(
            cell_centre(e, (b.grid().next() - 1) as nat),
            p,
        ),
        None => b.grid().next() == e * e,
    }
}

impl AreaSampler for JitteredSampler {
    open spec fn remaining(&self) -> nat {
        self.grid().remaining()
    }

    fn has_next(&self) -> (r: bool) {
        self.uniform_sampler.has_next()
    }

    /// The next cell of the grid, with a random point of its jitter span.
    fn sample(&mut self) -> (r: Option<SamplePoint>)
        ensures
            jittered_sample_post(*old(self), *final(self), r),
    {
        match self.uniform_sampler.sample() {
            Some(c) => {
                proof {
                    use_type_invariant(&self.uniform_sampler);
                }
                let u = random_step();
                let v = random_step();
                assert(c.den * RANDOM_STEPS <= MAX_DEN) by (nonlinear_arith)
                    requires
                        c.den <= 2 * 46341,
                ;
                assert(c.x * RANDOM_STEPS + u < c.den * RANDOM_STEPS && c.y * RANDOM_STEPS + v
                    < c.den * RANDOM_STEPS) by (nonlinear_arith)
                    requires
                        c.x < c.den,
                        c.y < c.den,
                        u < RANDOM_STEPS,
                        v < RANDOM_STEPS,
                ;
                assert(self.remaining() < old(self).remaining());
                Some(
                    SamplePoint {
                        x: c.x * RANDOM_STEPS + u,
                        y: c.y * RANDOM_STEPS + v,
                        den: c.den * RANDOM_STEPS,
                    },
                )
            },
            None => None,
        }
    }

    fn sample_in_disk(&mut self) -> (r: Option<SamplePoint>)
        ensures
            jittered_disk_post(*old(self), *final(self), r),
    {
        loop
            invariant
                self.grid().edge() == old(self).grid().edge(),
                old(self).grid().next() <= self.grid().next(),
            decreases self.remaining(),
        {
            proof {
                use_type_invariant(&self.uniform_sampler);
            }
            match self.sample() {
                Some(p) => {
                    if p.is_in_disk() {
                        return Some(p);
                    }
                },
                None => {
                    proof {
                        use_type_invariant(&self.uniform_sampler);
                    }
                    return None;
                },
            }
        }
    }
}

/// Independent uniform draws, a fixed number of them.
pub struct WhiteNoiseSampler {
    rate: i32,
}

/// A point drawn uniformly from the `RANDOM_STEPS` by `RANDOM_STEPS` grid.
fn random_point() -> (r: SamplePoint)
    ensures
        r.wf(),
        r.den == RANDOM_STEPS,
{
    let x = random_step();
    let y = random_step();
    SamplePoint { x, y, den: RANDOM_STEPS }
}

impl WhiteNoiseSampler {
    /// Draws still to come.
    pub closed spec fn rate(&self) -> int {
        self.rate as int
    }

    pub fn new(rate: i32) -> (r: Self)
        ensures
            r.rate() == rate,
    {
        WhiteNoiseSampler { rate }
    }
}

/// The first point of `s` strictly inside the disk.
pub open spec fn first_in_disk_of(s: Seq<SamplePoint>) -> Option<SamplePoint>
    decreases s.len(),
{
    if s.len() == 0 {
        None
    } else if s[0].in_disk() {
        Some(s[0])
    } else {
        first_in_disk_of(s.drop_first())
    }
}

proof fn lemma_first_in_disk_concat(a: Seq<SamplePoint>, b: Seq<SamplePoint>)
    requires
        first_in_disk_of(a) is None,
    ensures
        first_in_disk_of(a + b) == first_in_disk_of(b),
    decreases a.len(),
{
    if a.len() == 0 {
        assert(a + b =~= b);
    } else {
        assert((a + b)[0] == a[0]);
        assert((a + b).drop_first() =~= a.drop_first() + b);
        lemma_first_in_disk_concat(a.drop_first(), b);
    }
}

proof fn lemma_first_in_disk_member(s: Seq<SamplePoint>)
    ensures
        match first_in_disk_of(s) {
            Some(p) => p.in_disk() && exists|i: int| 0 <= i < s.len() && s[i] == p,
            None => true,
        },
    decreases s.len(),
{
    if s.len() > 0 && !s[0].in_disk() {
        lemma_first_in_disk_member(s.drop_first());
        match first_in_disk_of(s.drop_first()) {
            Some(p) => {
                let i = choose|i: int| 0 <= i < s.drop_first().len() && s.drop_first()[i] == p;
                assert(s[i + 1] == p);
            },
            None => {},
        }
    }
}

/// The first of `draws` strictly inside the disk; `None` when none is.
pub fn first_in_disk(draws: &Vec<SamplePoint>) -> (r: Option<SamplePoint>)
    requires
        forall|i: int| 0 <= i < draws.len() ==> (#[trigger] draws[i]).wf(),
    ensures
        r == first_in_disk_of(draws@),
{
    let mut i: usize = 0;
    assert(draws@.subrange(0, draws.len() as int) =~= draws@);
    while i < draws.len()
        invariant
            i <= draws.len(),
            forall|j: int| 0 <= j < draws.len() ==> (#[trigger] draws[j]).wf(),
            first_in_disk_of(draws@) == first_in_disk_of(draws@.subrange(i as int, draws.len() as int)),
        decreases draws.len() - i,
    {
        let ghost rest = draws@.subrange(i as int, draws.len() as int);
        assert(rest[0] == draws@[i as int]);
        assert(rest.drop_first() =~= draws@.subrange(i + 1, draws.len() as int));
        if draws[i].is_in_disk() {
            return Some(draws[i]);
        }
        i = i + 1;
    }
    assert(draws@.subrange(i as int, draws.len() as int).len() == 0);
    None
}

/// `DISK_BATCH` random points.
fn random_batch() -> (r: Vec<SamplePoint>)
    ensures
        r.len() == DISK_BATCH,
        forall|i: int| 0 <= i < r.len() ==> (#[trigger] r[i]).wf() && r[i].den == RANDOM_STEPS,
{
    let mut r: Vec<SamplePoint> = Vec::new();
    let mut k: u64 = 0;
    while k < DISK_BATCH
        invariant
            k <= DISK_BATCH,
            r.len() == k,
            forall|i: int| 0 <= i < r.len() ==> (#[trigger] r[i]).wf() && r[i].den == RANDOM_STEPS,
        decreases DISK_BATCH - k,
    {
        r.push(random_point());
        k = k + 1;
    }
    r
}

/// One draw from the white-noise sampler `a`, leaving `b`: a random point while
/// draws are left.
pub open spec fn white_sample_post(a: WhiteNoiseSampler, b: WhiteNoiseSampler, r: Option<SamplePoint>) -> bool {
    if a.rate() > 0 {
        r is Some && r->0.den == RANDOM_STEPS && b.rate() == a.rate() - 1
    } else {
        r is None && b.rate() == a.rate()
    }
}

/// One draw inside the disk from the white-noise sampler `a`, leaving `b`: while draws
/// are left, one is spent, and the result is the first inside the disk of up to
/// `MAX_DRAWS` random points; `None` when all `MAX_DRAWS` of them fall outside.
pub open spec fn white_disk_post(a: WhiteNoiseSampler, b: WhiteNoiseSampler, r: Option<SamplePoint>) -> bool {
    if a.rate() > 0 {
        &&& b.rate() == a.rate() - 1
        &&& exists|draws: Seq<SamplePoint>|
            {
                &&& draws.len() <= MAX_DRAWS
                &&& forall|i: int| 0 <= i < draws.len() ==> (#[trigger] draws[i]).wf() && draws[i].den == RANDOM_STEPS
                &&& r == first_in_disk_of(draws)
                &&& r is None ==> draws.len() == MAX_DRAWS
            }
    } else {
        r is None && b.rate() == a.rate()
    }
}

impl AreaSampler for WhiteNoiseSampler {
    open spec fn remaining(&self) -> nat {
        if self.rate() > 0 {
            self.rate() as nat
        } else {
            0
        }
    }

    fn has_next(&self) -> (r: bool) {
        self.rate > 0
    }

    /// A random point while draws are left.
    fn sample(&mut self) -> (r: Option<SamplePoint>)
        ensures
            white_sample_post(*old(self), *final(self), r),
    {
        if self.rate > 0 {
            self.rate = self.rate - 1;
            Some(random_point())
        } else {
            None
        }
    }

    /// A random point of the disk while draws are left, one draw spent for each call:
    /// random points are drawn, `DISK_BATCH` at a time, until one lies inside the disk.
    fn sample_in_disk(&mut self) -> (r: Option<SamplePoint>)
        ensures
            white_disk_post(*old(self), *final(self), r),
    {
        if self.rate <= 0 {
            return None;
        }
        self.rate = self.rate - 1;
        let ghost mut draws: Seq<SamplePoint> = Seq::empty();
        let mut batches: u64 = 0;
        while batches < MAX_BATCHES
            invariant
                old(self).rate() > 0,
                self.rate() == old(self).rate() - 1,
                batches <= MAX_BATCHES,
                draws.len() == batches * DISK_BATCH,
                forall|i: int| 0 <= i < draws.len() ==> (#[trigger] draws[i]).wf() && draws[i].den == RANDOM_STEPS,
                first_in_disk_of(draws) is None,
            decreases MAX_BATCHES - batches,
        {
            let batch = random_batch();
            proof {
                lemma_first_in_disk_concat(draws, batch@);
                let old_draws = draws;
                draws = draws + batch@;
                assert forall|i: int| 0 <= i < draws.len() implies (#[trigger] draws[i]).wf()
                    && draws[i].den == RANDOM_STEPS by {
                    if i < old_draws.len() {
                        assert(draws[i] == old_draws[i]);
                    } else {
                        assert(draws[i] == batch@[i - old_draws.len()]);
                    }
                }
            }
            match first_in_disk(&batch) {
                Some(p) => {
                    proof {
                        lemma_first_in_disk_member(batch@);
                        assert(draws.len() <= MAX_DRAWS) by (nonlinear_arith)
                            requires
                                draws.len() == (batches + 1) * DISK_BATCH,
                                batches < MAX_BATCHES,
                        ;
                        assert(first_in_disk_of(draws) == Some(p));
                    }
                    return Some(p);
                },
                None => {},
            }
            batches = batches + 1;
        }
        assert(draws.len() == MAX_DRAWS);
        assert(first_in_disk_of(draws) is None);
        None
    }
}

/// Points `a` and `b`, both over `RANDOM_STEPS`, lie closer than `0.55 / sqrt(rate)`
/// of the side.
///
/// The sampler's radius is `1.1 / sqrt(rate)` of the side, a tenth above the spacing
/// of `rate` points on a square grid. Keeping whole disks of that radius apart
/// (points twice the radius apart) cannot be met by more than two points in the
/// square, so points are kept half the radius apart: a spacing that dart throwing
/// reaches for `rate` points both in the square and in its inscribed disk.
pub open spec fn too_close(a: SamplePoint, b: SamplePoint, rate: int) -> bool {
    let dx = a.x - b.x;
    let dy = a.y - b.y;
    400 * rate * (dx * dx + dy * dy) < 121 * (RANDOM_STEPS * RANDOM_STEPS)
}

/// `s` is a blue-noise sequence for `rate`: points over `RANDOM_STEPS`, inside the
/// inscribed disk when `disk` holds, and no two of them too close.
pub open spec fn blue_noise_ok(s: Seq<SamplePoint>, rate: int, disk: bool) -> bool {
    &&& forall|i: int|
        0 <= i < s.len() ==> (#[trigger] s[i]).wf() && s[i].den == RANDOM_STEPS && (disk
            ==> s[i].in_disk())
    &&& forall|i: int, j: int| 0 <= i < j < s.len() ==> !too_close(#[trigger] s[i], #[trigger] s[j], rate)
}

fn is_too_close(a: SamplePoint, b: SamplePoint, rate: i32) -> (r: bool)
    requires
        a.x < RANDOM_STEPS,
        a.y < RANDOM_STEPS,
        b.x < RANDOM_STEPS,
        b.y < RANDOM_STEPS,
        rate >= 0,
    ensures
        r == too_close(a, b, rate as int),
{
    let dx = a.x as i128 - b.x as i128;
    let dy = a.y as i128 - b.y as i128;
    let rt = rate as i128;
    assert(0 <= dx * dx < 0x1_0000_0000_0000 && 0 <= dy * dy < 0x1_0000_0000_0000) by (nonlinear_arith)
        requires
            -0x100_0000 < dx < 0x100_0000,
            -0x100_0000 < dy < 0x100_0000,
    ;
    let d2 = dx * dx + dy * dy;
    assert(0 <= 400 * rt * d2 < 0x1_0000_0000_0000_0000_0000_0000) by (nonlinear_arith)
        requires
            0 <= rt < 0x8000_0000,
            0 <= d2 < 0x2_0000_0000_0000,
    ;
    400 * rt * d2 < 121 * 0x1_0000_0000_0000
}

/// Whether `p` lies too close to some point of `seq`.
pub fn conflict(seq: &Vec<SamplePoint>, p: SamplePoint, rate: i32) -> (r: bool)
    requires
        forall|i: int| 0 <= i < seq.len() ==> (#[trigger] seq[i]).wf() && seq[i].den == RANDOM_STEPS,
        p.wf(),
        p.den == RANDOM_STEPS,
        rate >= 0,
    ensures
        r == exists|i: int| 0 <= i < seq.len() && too_close(#[trigger] seq[i], p, rate as int),
{
    let mut i: usize = 0;
    while i < seq.len()
        invariant
            i <= seq.len(),
            forall|j: int| 0 <= j < seq.len() ==> (#[trigger] seq[j]).wf() && seq[j].den == RANDOM_STEPS,
            p.wf(),
            p.den == RANDOM_STEPS,
            rate >= 0,
            forall|j: int| 0 <= j < i ==> !too_close(#[trigger] seq[j], p, rate as int),
        decreases seq.len() - i,
    {
        if is_too_close(seq[i], p, rate) {
            return true;
        }
        i = i + 1;
    }
    false
}

/// Every point of `c` is a random point over `RANDOM_STEPS`.
pub open spec fn candidates_ok(c: Seq<SamplePoint>) -> bool {
    forall|i: int| 0 <= i < c.len() ==> (#[trigger] c[i]).wf() && c[i].den == RANDOM_STEPS
}

/// `p` may join the points `placed` of a blue-noise sequence: it is too close to none
/// of them, and lies inside the disk when `disk` holds.
pub open spec fn fits(placed: Seq<SamplePoint>, p: SamplePoint, rate: int, disk: bool) -> bool {
    &&& forall|j: int| 0 <= j < placed.len() ==> !too_close(#[trigger] placed[j], p, rate)
    &&& disk ==> p.in_disk()
}

/// Dart throwing over the candidates `c`, with `placed` kept so far after `misses`
/// misfits in a row: a candidate that fits is kept; the throw gives up at the
/// `MAX_TRIES`-th misfit in a row, or when the candidates run out, and succeeds once
/// `rate` points are kept.
pub open spec fn darts_from(
    c: Seq<SamplePoint>,
    placed: Seq<SamplePoint>,
    misses: nat,
    rate: int,
    disk: bool,
) -> Option<Seq<SamplePoint>>
    decreases c.len(),
{
    if placed.len() >= rate {
        Some(placed)
    } else if c.len() == 0 {
        None
    } else if fits(placed, c[0], rate, disk) {
        darts_from(c.drop_first(), placed.push(c[0]), 0, rate, disk)
    } else if misses + 1 >= MAX_TRIES {
        None
    } else {
        darts_from(c.drop_first(), placed, misses + 1, rate, disk)
    }
}

/// The blue-noise sequence that dart throwing makes of the candidates `c`.
pub open spec fn darts(c: Seq<SamplePoint>, rate: int, disk: bool) -> Option<Seq<SamplePoint>> {
    darts_from(c, Seq::empty(), 0, rate, disk)
}

/// The points of a vector, if any.
pub open spec fn seq_of(r: Option<Vec<SamplePoint>>) -> Option<Seq<SamplePoint>> {
    match r {
        Some(v) => Some(v@),
        None => None,
    }
}

/// Dart throwing keeps a blue-noise sequence of exactly `rate` points.
pub proof fn lemma_darts_ok(
    c: Seq<SamplePoint>,
    placed: Seq<SamplePoint>,
    misses: nat,
    rate: int,
    disk: bool,
)
    requires
        candidates_ok(c),
        blue_noise_ok(placed, rate, disk),
        placed.len() <= rate,
    ensures
        match darts_from(c, placed, misses, rate, disk) {
            Some(v) => v.len() == rate && blue_noise_ok(v, rate, disk),
            None => true,
        },
    decreases c.len(),
{
    if placed.len() < rate && c.len() > 0 {
        assert(candidates_ok(c.drop_first())) by {
            assert forall|i: int| 0 <= i < c.drop_first().len() implies (#[trigger] c.drop_first()[i]).wf()
                && c.drop_first()[i].den == RANDOM_STEPS by {
                assert(c.drop_first()[i] == c[i + 1]);
            }
        }
        if fits(placed, c[0], rate, disk) {
            lemma_placed_push(placed, c[0], rate, disk);
            lemma_darts_ok(c.drop_first(), placed.push(c[0]), 0, rate, disk);
        } else {
            lemma_darts_ok(c.drop_first(), placed, misses + 1, rate, disk);
        }
    }
}

proof fn lemma_placed_push(placed: Seq<SamplePoint>, p: SamplePoint, rate: int, disk: bool)
    requires
        blue_noise_ok(placed, rate, disk),
        fits(placed, p, rate, disk),
        p.wf(),
        p.den == RANDOM_STEPS,
    ensures
        blue_noise_ok(placed.push(p), rate, disk),
{
    let s = placed.push(p);
    assert forall|a: int, b: int| 0 <= a < b < s.len() implies !too_close(
        #[trigger] s[a],
        #[trigger] s[b],
        rate,
    ) by {
        assert(s[a] == placed[a]);
        if b < placed.len() {
            assert(s[b] == placed[b]);
        }
    }
    assert forall|a: int| 0 <= a < s.len() implies (#[trigger] s[a]).wf() && s[a].den == RANDOM_STEPS
        && (disk ==> s[a].in_disk()) by {
        if a < placed.len() {
            assert(s[a] == placed[a]);
        }
    }
}

/// Whether `p` may join `placed`.
fn dart_fits(placed: &Vec<SamplePoint>, p: SamplePoint, rate: i32, disk: bool) -> (r: bool)
    requires
        blue_noise_ok(placed@, rate as int, disk),
        p.wf(),
        p.den == RANDOM_STEPS,
        rate >= 0,
    ensures
        r == fits(placed@, p, rate as int, disk),
{
    let close = conflict(placed, p, rate);
    assert(close == !(forall|j: int| 0 <= j < placed@.len() ==> !too_close(#[trigger] placed@[j], p, rate as int)));
    !close && (!disk || p.is_in_disk())
}

/// Dart throwing over the given candidates, in order: the blue-noise sequence of
/// `rate` points it makes, or `None` when it gives up.
pub fn throw_darts(candidates: &Vec<SamplePoint>, rate: i32, disk: bool) -> (r: Option<Vec<SamplePoint>>)
    requires
        candidates_ok(candidates@),
        rate >= 0,
    ensures
        seq_of(r) == darts(candidates@, rate as int, disk),
{
    let mut placed: Vec<SamplePoint> = Vec::new();
    let mut misses: u64 = 0;
    let mut i: usize = 0;
    assert(candidates@.subrange(0, candidates.len() as int) =~= candidates@);
    while i < candidates.len()
        invariant
            i <= candidates.len(),
            candidates_ok(candidates@),
            rate >= 0,
            misses < MAX_TRIES,
            placed.len() <= rate,
            blue_noise_ok(placed@, rate as int, disk),
            darts(candidates@, rate as int, disk) == darts_from(
                candidates@.subrange(i as int, candidates.len() as int),
                placed@,
                misses as nat,
                rate as int,
                disk,
            ),
        decreases candidates.len() - i,
    {
        if placed.len() >= rate as usize {
            return Some(placed);
        }
        let ghost rest = candidates@.subrange(i as int, candidates.len() as int);
        assert(rest[0] == candidates@[i as int]);
        assert(rest.drop_first() =~= candidates@.subrange(i + 1, candidates.len() as int));
        let p = candidates[i];
        if dart_fits(&placed, p, rate, disk) {
            proof {
                lemma_placed_push(placed@, p, rate as int, disk);
            }
            placed.push(p);
            misses = 0;
        } else {
            if misses + 1 >= MAX_TRIES {
                return None;
            }
            misses = misses + 1;
        }
        i = i + 1;
    }
    if placed.len() >= rate as usize {
        Some(placed)
    } else {
        None
    }
}

/// Dart throwing over `drawn` followed by any further candidates goes on as dart
/// throwing from `placed` after `misses` misfits.
pub open spec fn replays(
    drawn: Seq<SamplePoint>,
    placed: Seq<SamplePoint>,
    misses: nat,
    rate: int,
    disk: bool,
) -> bool {
    forall|rest: Seq<SamplePoint>|
        #![trigger darts(drawn + rest, rate, disk)]
        darts(drawn + rest, rate, disk) == darts_from(rest, placed, misses, rate, disk)
}

/// Dart throwing over `drawn` ends with `outcome`, whatever candidates follow.
pub open spec fn settles(drawn: Seq<SamplePoint>, outcome: Option<Seq<SamplePoint>>, rate: int, disk: bool) -> bool {
    forall|rest: Seq<SamplePoint>|
        #![trigger darts(drawn + rest, rate, disk)]
        darts(drawn + rest, rate, disk) == outcome
}

proof fn lemma_replay_step(
    drawn: Seq<SamplePoint>,
    placed: Seq<SamplePoint>,
    misses: nat,
    p: SamplePoint,
    rate: int,
    disk: bool,
)
    requires
        replays(drawn, placed, misses, rate, disk),
        placed.len() < rate,
    ensures
        fits(placed, p, rate, disk) ==> replays(drawn.push(p), placed.push(p), 0, rate, disk),
        !fits(placed, p, rate, disk) && misses + 1 >= MAX_TRIES ==> settles(drawn.push(p), None, rate, disk),
        !fits(placed, p, rate, disk) && misses + 1 < MAX_TRIES ==> replays(
            drawn.push(p),
            placed,
            misses + 1,
            rate,
            disk,
        ),
{
    assert forall|rest: Seq<SamplePoint>|
        #![trigger darts(drawn.push(p) + rest, rate, disk)]
        darts(drawn.push(p) + rest, rate, disk) == darts_from(seq![p] + rest, placed, misses, rate, disk) by {
        assert(drawn.push(p) + rest =~= drawn + (seq![p] + rest));
        assert(darts(drawn + (seq![p] + rest), rate, disk) == darts_from(
            seq![p] + rest,
            placed,
            misses,
            rate,
            disk,
        ));
    }
    assert forall|rest: Seq<SamplePoint>| #[trigger] (seq![p] + rest).drop_first() == rest && (seq![p]
        + rest)[0] == p by {
        assert((seq![p] + rest).drop_first() =~= rest);
    }
    let e = Seq::<SamplePoint>::empty();
    assert(drawn.push(p) + e =~= drawn.push(p));
    assert((seq![p] + e).drop_first() == e);
}

/// One attempt at a blue-noise sequence of `rate` points: dart throwing over random
/// candidates, drawn one at a time as long as the throw goes on.
fn generate_seq(rate: i32, disk: bool) -> (r: Option<Vec<SamplePoint>>)
    requires
        rate >= 0,
    ensures
        exists|drawn: Seq<SamplePoint>| candidates_ok(drawn) && settles(drawn, seq_of(r), rate as int, disk),
        rate == 0 ==> seq_of(r) == Some(Seq::<SamplePoint>::empty()),
{
    let mut placed: Vec<SamplePoint> = Vec::new();
    let mut misses: u64 = 0;
    let ghost mut drawn: Seq<SamplePoint> = Seq::empty();
    assert forall|rest: Seq<SamplePoint>| #![trigger darts(drawn + rest, rate as int, disk)]
        darts(drawn + rest, rate as int, disk) == darts_from(rest, placed@, misses as nat, rate as int, disk) by {
        assert(drawn + rest =~= rest);
        assert(placed@ =~= Seq::<SamplePoint>::empty());
    }
    while placed.len() < rate as usize
        invariant
            rate >= 0,
            misses < MAX_TRIES,
            placed.len() <= rate,
            candidates_ok(drawn),
            blue_noise_ok(placed@, rate as int, disk),
            replays(drawn, placed@, misses as nat, rate as int, disk),
        decreases rate - placed.len(), MAX_TRIES - misses,
    {
        let p = random_point();
        let ghost before = drawn;
        proof {
            lemma_replay_step(drawn, placed@, misses as nat, p, rate as int, disk);
            drawn = drawn.push(p);
            assert forall|i: int| 0 <= i < drawn.len() implies (#[trigger] drawn[i]).wf() && drawn[i].den
                == RANDOM_STEPS by {
                if i < before.len() {
                    assert(drawn[i] == before[i]);
                }
            }
        }
        if dart_fits(&placed, p, rate, disk) {
            proof {
                lemma_placed_push(placed@, p, rate as int, disk);
            }
            placed.push(p);
            misses = 0;
        } else {
            if misses + 1 >= MAX_TRIES {
                let r: Option<Vec<SamplePoint>> = None;
                assert(candidates_ok(drawn) && settles(drawn, seq_of(r), rate as int, disk));
                return r;
            }
            misses = misses + 1;
        }
    }
    assert(settles(drawn, Some(placed@), rate as int, disk));
    assert(rate == 0 ==> placed@ =~= Seq::<SamplePoint>::empty());
    Some(placed)
}

/// A precomputed blue-noise sequence, handed out from its end.
pub struct BlueNoiseSampler {
    rate: i32,
    points: Vec<SamplePoint>,
    is_disk: bool,
    left: usize,
}

impl BlueNoiseSampler {
    #[verifier::type_invariant]
    spec fn wf(&self) -> bool {
        self.left <= self.points.len() && blue_noise_ok(self.points@, self.rate as int, self.is_disk)
    }

    /// Points still to hand out, the last one first.
    pub closed spec fn points(&self) -> Seq<SamplePoint> {
        self.points@.take(self.left as int)
    }

    /// Throws darts for a sequence of `rate` points over the square, or over its
    /// inscribed disk when `disk` holds, starting over with fresh candidates whenever
    /// a throw gives up; after `MAX_ROUNDS` throws that all gave up the sequence stays
    /// empty.
    pub fn new(rate: i32, disk: bool) -> (r: Self)
        ensures
            blue_noise_ok(r.points(), rate as int, disk),
            r.points().len() == 0 || r.points().len() == rate,
            rate <= 0 ==> r.points().len() == 0,
            r.points().len() > 0 ==> exists|drawn: Seq<SamplePoint>|
                candidates_ok(drawn) && settles(drawn, Some(r.points()), rate as int, disk),
            rate > 0 && r.points().len() == 0 ==> exists|throws: Seq<Seq<SamplePoint>>|
                throws.len() == MAX_ROUNDS && forall|k: int|
                    0 <= k < throws.len() ==> candidates_ok(#[trigger] throws[k]) && settles(
                        throws[k],
                        None,
                        rate as int,
                        disk,
                    ),
    {
        if rate <= 0 {
            return BlueNoiseSampler { rate, points: Vec::new(), is_disk: disk, left: 0 };
        }
        let ghost mut throws: Seq<Seq<SamplePoint>> = Seq::empty();
        let mut rounds: u64 = 0;
        while rounds < MAX_ROUNDS
            invariant
                rate > 0,
                rounds <= MAX_ROUNDS,
                throws.len() == rounds,
                forall|k: int|
                    0 <= k < throws.len() ==> candidates_ok(#[trigger] throws[k]) && settles(
                        throws[k],
                        None,
                        rate as int,
                        disk,
                    ),
            decreases MAX_ROUNDS - rounds,
        {
            let attempt = generate_seq(rate, disk);
            let ghost drawn = choose|drawn: Seq<SamplePoint>|
                candidates_ok(drawn) && settles(drawn, seq_of(attempt), rate as int, disk);
            match attempt {
                Some(points) => {
                    proof {
                        let e = Seq::<SamplePoint>::empty();
                        assert(drawn + e =~= drawn);
                        assert(darts(drawn + e, rate as int, disk) == Some(points@));
                        lemma_darts_ok(drawn, e, 0, rate as int, disk);
                    }
                    let left = points.len();
                    assert(points@.take(left as int) == points@);
                    return BlueNoiseSampler { rate, points, is_disk: disk, left };
                },
                None => {
                    proof {
                        let before = throws;
                        throws = throws.push(drawn);
                        assert forall|k: int| 0 <= k < throws.len() implies candidates_ok(
                            #[trigger] throws[k],
                        ) && settles(throws[k], None, rate as int, disk) by {
                            if k < before.len() {
                                assert(throws[k] == before[k]);
                            }
                        }
                    }
                },
            }
            rounds = rounds + 1;
        }
        let r = BlueNoiseSampler { rate, points: Vec::new(), is_disk: disk, left: 0 };
        assert(r.points().len() == 0);
        assert(throws.len() == MAX_ROUNDS);
        r
    }
}

/// One draw from the blue-noise sampler `a`, leaving `b`: the last point of the
/// sequence, removed from it.
pub open spec fn blue_sample_post(a: BlueNoiseSampler, b: BlueNoiseSampler, r: Option<SamplePoint>) -> bool {
    if a.points().len() > 0 {
        r == Some(a.points().last()) && b.points() == a.points().drop_last()
    } else {
        r is None && b.points() == a.points()
    }
}

/// Index of the last of the first `n` points of `s` inside the disk; -1 when none is.
pub open spec fn last_disk_index(s: Seq<SamplePoint>, n: int) -> int
    decreases n,
{
    if n <= 0 {
        -1
    } else if s[n - 1].in_disk() {
        n - 1
    } else {
        last_disk_index(s, n - 1)
    }
}

/// One draw inside the disk from the blue-noise sampler `a`, leaving `b`: the last
/// point of the sequence inside the disk, removed together with the points after
/// it; `None` once no point inside the disk is left, the sequence then used up.
pub open spec fn blue_disk_post(a: BlueNoiseSampler, b: BlueNoiseSampler, r: Option<SamplePoint>) -> bool {
    let j = last_disk_index(a.points(), a.points().len() as int);
    if j >= 0 {
        r == Some(a.points()[j]) && b.points() == a.points().take(j)
    } else {
        r is None && b.points().len() == 0
    }
}

impl AreaSampler for BlueNoiseSampler {
    open spec fn remaining(&self) -> nat {
        self.points().len()
    }

    fn has_next(&self) -> (r: bool) {
        proof {
            use_type_invariant(self);
        }
        self.left > 0
    }

    /// The last point of the sequence, removed from it.
    fn sample(&mut self) -> (r: Option<SamplePoint>)
        ensures
            blue_sample_post(*old(self), *final(self), r),
    {
        proof {
            use_type_invariant(&*self);
        }
        if self.left == 0 {
            return None;
        }
        self.left = self.left - 1;
        let p = self.points[self.left];
        assert(p.wf());
        assert(self.points() =~= old(self).points().drop_last());
        assert(self.remaining() < old(self).remaining());
        Some(p)
    }

    fn sample_in_disk(&mut self) -> (r: Option<SamplePoint>)
        ensures
            blue_disk_post(*old(self), *final(self), r),
    {
        let ghost all = old(self).points();
        loop
            invariant
                all == old(self).points(),
                self.points() == all.take(self.points().len() as int),
                self.points().len() <= all.len(),
                last_disk_index(all, self.points().len() as int) == last_disk_index(all, all.len() as int),
            decreases self.remaining(),
        {
            let ghost n = self.points().len() as int;
            match self.sample() {
                Some(p) => {
                    assert(p == all[n - 1]);
                    assert(self.points() =~= all.take(n - 1));
                    if p.is_in_disk() {
                        return Some(p);
                    }
                },
                None => {
                    return None;
                },
            }
        }
    }
}

/// The cell centres of an `edge` by `edge` grid lie in the square, one cell width
/// `1 / edge` apart: the next cell of a row lies one width further along `x`, and the
/// cell of the next row one width further along `y`.
pub proof fn lemma_grid_spacing(edge: nat, k: nat)
    requires
        0 < edge <= 46341,
        k < edge * edge,
    ensures
        cell_centre(edge, k).wf(),
        (k + 1) % edge != 0 ==> cell_centre(edge, k + 1).x == cell_centre(edge, k).x + 2
            && cell_centre(edge, k + 1).y == cell_centre(edge, k).y,
        k + edge < edge * edge ==> cell_centre(edge, k + edge).x == cell_centre(edge, k).x
            && cell_centre(edge, k + edge).y == cell_centre(edge, k).y + 2,
{
    let e = edge as int;
    let q = k as int / e;
    let m = k as int % e;
    lemma_cell_centre_wf(edge, k);
    lemma_fundamental_div_mod(k as int, e);
    lemma_mod_bound(k as int, e);
    if m + 1 < e {
        lemma_fundamental_div_mod_converse(k + 1 as int, e, q, m + 1);
    } else {
        assert(k + 1 == e * (q + 1) + 0) by (nonlinear_arith)
            requires
                k == e * q + m,
                m + 1 == e,
        ;
        lemma_fundamental_div_mod_converse(k + 1 as int, e, q + 1, 0);
    }
    assert(k + e == e * (q + 1) + m) by (nonlinear_arith)
        requires
            k == e * q + m,
    ;
    lemma_fundamental_div_mod_converse(k as int + e, e, q + 1, m);
    if k + edge < edge * edge {
        lemma_cell_centre_wf(edge, k + edge);
    }
    if (k + 1) % edge != 0 && k + 1 < edge * edge {
        lemma_cell_centre_wf(edge, k + 1);
    }
}

/// A sampler of any of the four strategies.
pub enum Sampler {
    WhiteNoise(WhiteNoiseSampler),
    Uniform(UniformSampler),
    Jittered(JitteredSampler),
    BlueNoise(BlueNoiseSampler),
}

impl Sampler {
    pub open spec fn kind(&self) -> SamplerKind {
        match self {
            Sampler::WhiteNoise(_) => SamplerKind::WhiteNoise,
            Sampler::Uniform(_) => SamplerKind::Uniform,
            Sampler::Jittered(_) => SamplerKind::Jittered,
            Sampler::BlueNoise(_) => SamplerKind::BlueNoise,
        }
    }

    /// A sampler of strategy `kind` as it stands right after construction for `rate`
    /// points, over the disk when `disk` holds.
    pub open spec fn is_fresh(&self, kind: SamplerKind, rate: i32, disk: bool) -> bool {
        let n = if rate < 0 {
            0
        } else {
            rate as int
        };
        &&& self.kind() == kind
        &&& match self {
            Sampler::WhiteNoise(s) => s.rate() == rate,
            Sampler::Uniform(s) => s.next() == 0 && s.edge() * s.edge() <= n && n < (s.edge() + 1) * (
            s.edge() + 1),
            Sampler::Jittered(s) => s.grid().next() == 0 && s.grid().edge() * s.grid().edge() <= n && n
                < (s.grid().edge() + 1) * (s.grid().edge() + 1),
            Sampler::BlueNoise(s) => blue_noise_ok(s.points(), rate as int, disk) && (s.points().len()
                == 0 || s.points().len() == rate),
        }
    }

    /// A fresh sampler of strategy `kind` for `rate` points; the blue-noise sequence
    /// is thrown over the inscribed disk when `disk` holds.
    pub fn new(kind: SamplerKind, rate: i32, disk: bool) -> (r: Self)
        ensures
            r.is_fresh(kind, rate, disk),
    {
        match kind {
            SamplerKind::WhiteNoise => Sampler::WhiteNoise(WhiteNoiseSampler::new(rate)),
            SamplerKind::Uniform => Sampler::Uniform(UniformSampler::new(rate)),
            SamplerKind::Jittered => Sampler::Jittered(JitteredSampler::new(rate)),
            SamplerKind::BlueNoise => Sampler::BlueNoise(BlueNoiseSampler::new(rate, disk)),
        }
    }
}

/// One draw from `a`, leaving `b`, by `a`'s own strategy.
pub open spec fn sample_post(a: Sampler, b: Sampler, r: Option<SamplePoint>) -> bool {
    match (a, b) {
        (Sampler::WhiteNoise(x), Sampler::WhiteNoise(y)) => white_sample_post(x, y, r),
        (Sampler::Uniform(x), Sampler::Uniform(y)) => uniform_sample_post(x, y, r),
        (Sampler::Jittered(x), Sampler::Jittered(y)) => jittered_sample_post(x, y, r),
        (Sampler::BlueNoise(x), Sampler::BlueNoise(y)) => blue_sample_post(x, y, r),
        _ => false,
    }
}

/// One draw inside the disk from `a`, leaving `b`, by `a`'s own strategy.
pub open spec fn disk_post(a: Sampler, b: Sampler, r: Option<SamplePoint>) -> bool {
    match (a, b) {
        (Sampler::WhiteNoise(x), Sampler::WhiteNoise(y)) => white_disk_post(x, y, r),
        (Sampler::Uniform(x), Sampler::Uniform(y)) => uniform_disk_post(x, y, r),
        (Sampler::Jittered(x), Sampler::Jittered(y)) => jittered_disk_post(x, y, r),
        (Sampler::BlueNoise(x), Sampler::BlueNoise(y)) => blue_disk_post(x, y, r),
        _ => false,
    }
}

impl AreaSampler for Sampler {
    open spec fn remaining(&self) -> nat {
        match self {
            Sampler::WhiteNoise(s) => s.remaining(),
            Sampler::Uniform(s) => s.remaining(),
            Sampler::Jittered(s) => s.remaining(),
            Sampler::BlueNoise(s) => s.remaining(),
        }
    }

    fn has_next(&self) -> (r: bool) {
        match self {
            Sampler::WhiteNoise(s) => s.has_next(),
            Sampler::Uniform(s) => s.has_next(),
            Sampler::Jittered(s) => s.has_next(),
            Sampler::BlueNoise(s) => s.has_next(),
        }
    }

    fn sample(&mut self) -> (r: Option<SamplePoint>)
        ensures
            final(self).kind() == old(self).kind(),
            sample_post(*old(self), *final(self), r),
    {
        match self {
            Sampler::WhiteNoise(s) => s.sample(),
            Sampler::Uniform(s) => s.sample(),
            Sampler::Jittered(s) => s.sample(),
            Sampler::BlueNoise(s) => s.sample(),
        }
    }

    fn sample_in_disk(&mut self) -> (r: Option<SamplePoint>)
        ensures
            final(self).kind() == old(self).kind(),
            disk_post(*old(self), *final(self), r),
    {
        match self {
            Sampler::WhiteNoise(s) => s.sample_in_disk(),
            Sampler::Uniform(s) => s.sample_in_disk(),
            Sampler::Jittered(s) => s.sample_in_disk(),
            Sampler::BlueNoise(s) => s.sample_in_disk(),
        }
    }
}

} // verus!
