//! The triangular distribution of stay durations: its discrete density and
//! its continuous sampler.

use crate::probability::Probability;
use crate::random_generator::{RandomSource, DRAW_RANGE};
use crate::roots::{
    cube_root_floor, lemma_cube_root_floor_unique, lemma_nearest_root_ties_down_unique,
    lemma_nearest_root_ties_up_unique, nearest_root_ties_down, nearest_root_ties_up,
    rounded_cube_root, rounded_root_ties_down, rounded_root_ties_up,
};
use vstd::prelude::*;

verus! {

/// Why a distribution could not be built.
#[derive(Clone, Copy, Debug, PartialEq, Eq, Structural)]
pub enum DistributionError {
    /// The parameters do not satisfy `a < c < b`.
    MalformedParameters,
}

/// Two fractions, each a pair of numerator and denominator, stand for the
/// same number.
pub open spec fn same_value(p: (int, int), q: (int, int)) -> bool {
    p.0 * q.1 == q.0 * p.1
}

/// The discrete triangular density with minimum `a`, mode `c` and maximum
/// `b`.
#[derive(Clone, Copy, Debug)]
pub struct TriangularPdf {
    a: u32,
    c: u32,
    b: u32,
    ba: u32,
    ca: u32,
    bc: u32,
}

impl TriangularPdf {
    /// The invariant of a density: `a < c < b`, so that no edge is
    /// degenerate.
    #[verifier::type_invariant]
    pub closed spec fn wf(self) -> bool {
        &&& self.a < self.c < self.b
        &&& self.ba == self.b - self.a
        &&& self.ca == self.c - self.a
        &&& self.bc == self.b - self.c
    }

    /// The minimum.
    pub closed spec fn a(self) -> int {
        self.a as int
    }

    /// The mode.
    pub closed spec fn c(self) -> int {
        self.c as int
    }

    /// The maximum.
    pub closed spec fn b(self) -> int {
        self.b as int
    }

    /// The rising edge `2 (x - a) / ((b - a) (c - a))`.
    pub open spec fn rising_edge(self, x: int) -> (int, int) {
        (2 * (x - self.a()), (self.b() - self.a()) * (self.c() - self.a()))
    }

    /// The peak `2 / (b - a)`.
    pub open spec fn peak(self) -> (int, int) {
        (2, self.b() - self.a())
    }

    /// The falling edge `2 (b - x) / ((b - a) (b - c))`.
    pub open spec fn falling_edge(self, x: int) -> (int, int) {
        (2 * (self.b() - x), (self.b() - self.a()) * (self.b() - self.c()))
    }

    /// The density at `x`, as numerator and denominator.
    pub open spec fn density(self, x: int) -> (int, int) {
        if x < self.a() {
            (0, 1)
        } else if x < self.c() {
            self.rising_edge(x)
        } else if x == self.c() {
            self.peak()
        } else if x <= self.b() {
            self.falling_edge(x)
        } else {
            (0, 1)
        }
    }

    /// A well-formed density satisfies `a < c < b`.
    pub proof fn lemma_ordered(self)
        requires
            self.wf(),
        ensures
            0 <= self.a() < self.c() < self.b(),
    {
    }

    /// Builds the density, or reports malformed parameters when `a < c < b`
    /// does not hold.
    pub fn new(a: u32, c: u32, b: u32) -> (r: Result<Self, DistributionError>)
        ensures
            r.is_ok() <==> a < c < b,
            r matches Ok(d) ==> d.wf() && d.a() == a && d.c() == c && d.b() == b,
            r matches Err(e) ==> e == DistributionError::MalformedParameters,
    {
        if a < c && c < b {
            Ok(Self { a, c, b, ba: b - a, ca: c - a, bc: b - c })
        } else {
            Err(DistributionError::MalformedParameters)
        }
    }

    /// The density at `x`. It is zero exactly at and outside the ends of the
    /// support.
    pub fn pdf(&self, x: u32) -> (p: Probability)
        ensures
            p.wf(),
            (p.num() as int, p.den() as int) == self.density(x as int),
            p.num() == 0 <==> x <= self.a() || x >= self.b(),
    {
        proof {
            use_type_invariant(self);
        }
        if x < self.a {
            return Probability::zero();
        }
        if x < self.c {
            proof {
                assert(self.ba * self.ca <= 0xffff_ffff * 0xffff_ffff) by (nonlinear_arith)
                    requires
                        self.ba <= 0xffff_ffff,
                        self.ca <= 0xffff_ffff,
                ;
                assert(self.ba * self.ca > 0) by (nonlinear_arith)
                    requires
                        self.ba > 0,
                        self.ca > 0,
                ;
            }
            let num: u64 = 2 * ((x - self.a) as u64);
            let den: u64 = (self.ba as u64) * (self.ca as u64);
            return Probability::new(num, den).unwrap();
        }
        if x == self.c {
            return Probability::new(2, self.ba as u64).unwrap();
        }
        if x <= self.b {
            proof {
                assert(self.ba * self.bc <= 0xffff_ffff * 0xffff_ffff) by (nonlinear_arith)
                    requires
                        self.ba <= 0xffff_ffff,
                        self.bc <= 0xffff_ffff,
                ;
                assert(self.ba * self.bc > 0) by (nonlinear_arith)
                    requires
                        self.ba > 0,
                        self.bc > 0,
                ;
            }
            let num: u64 = 2 * ((self.b - x) as u64);
            let den: u64 = (self.ba as u64) * (self.bc as u64);
            return Probability::new(num, den).unwrap();
        }
        Probability::zero()
    }

    /// The density is continuous at the mode: the rising edge and the falling
    /// edge, both evaluated at `c`, stand for the same number as the peak,
    /// `2 / (b - a)`.
    pub proof fn lemma_edges_meet_at_mode(self)
        requires
            self.wf(),
        ensures
            same_value(self.rising_edge(self.c()), self.peak()),
            same_value(self.falling_edge(self.c()), self.peak()),
            same_value(self.density(self.c()), (2, self.b() - self.a())),
    {
        let ba = self.b() - self.a();
        let ca = self.c() - self.a();
        let bc = self.b() - self.c();
        assert((2 * ca) * ba == 2 * (ba * ca)) by (nonlinear_arith);
        assert((2 * bc) * ba == 2 * (ba * bc)) by (nonlinear_arith);
    }
}

/// The factor by which a draw is scaled before its cube root is taken, so
/// that the root is again a draw: `DRAW_RANGE` squared.
pub const SKEW_SCALE: u64 = 0x1_0000_0000_0000;

/// The cube root of a draw, as a draw: for `u = draw / DRAW_RANGE` the value
/// `t` with `t / DRAW_RANGE <= cbrt(u) < (t + 1) / DRAW_RANGE`.
pub open spec fn skewed_spec(draw: int) -> int {
    let m = draw * SKEW_SCALE;
    choose|t: int| #[trigger] cube_root_floor(t, m)
}

/// Transforms a draw by the cube root, which moves it towards one.
pub fn skew_draw(draw: u32) -> (t: u32)
    requires
        draw < DRAW_RANGE,
    ensures
        t == skewed_spec(draw as int),
        cube_root_floor(t as int, draw * SKEW_SCALE),
        draw <= t < DRAW_RANGE,
{
    proof {
        assert(draw * SKEW_SCALE < DRAW_RANGE * DRAW_RANGE * DRAW_RANGE) by (nonlinear_arith)
            requires
                draw < DRAW_RANGE,
                DRAW_RANGE == 0x100_0000,
                SKEW_SCALE == 0x1_0000_0000_0000,
        ;
        assert(DRAW_RANGE * DRAW_RANGE * DRAW_RANGE == 0x100_0000 * 0x100_0000 * 0x100_0000);
    }
    let m: u128 = (draw as u128) * (SKEW_SCALE as u128);
    let t: u32 = rounded_cube_root(m);
    proof {
        lemma_cube_root_floor_unique(t as int, skewed_spec(draw as int), m as int);
        if t < draw {
            assert((t + 1) * (t + 1) * (t + 1) <= draw * SKEW_SCALE) by (nonlinear_arith)
                requires
                    0 <= t,
                    t + 1 <= draw,
                    draw < 0x100_0000,
                    SKEW_SCALE == 0x100_0000 * 0x100_0000,
            ;
        }
    }
    t
}

/// The continuous triangular sampler with minimum `a`, mode `c` and maximum
/// `b`, which inverts the cumulative distribution at a uniform draw.
#[derive(Clone, Copy, Debug)]
pub struct TriangularPdfSampler {
    a: u32,
    c: u32,
    b: u32,
    ba: u32,
    ca: u32,
    bc: u32,
    skew: bool,
}

impl TriangularPdfSampler {
    /// The invariant of a sampler: `a < c < b`, so that no edge is
    /// degenerate.
    #[verifier::type_invariant]
    pub closed spec fn wf(self) -> bool {
        &&& self.a < self.c < self.b
        &&& self.ba == self.b - self.a
        &&& self.ca == self.c - self.a
        &&& self.bc == self.b - self.c
    }

    /// The minimum.
    pub closed spec fn a(self) -> int {
        self.a as int
    }

    /// The mode.
    pub closed spec fn c(self) -> int {
        self.c as int
    }

    /// The maximum.
    pub closed spec fn b(self) -> int {
        self.b as int
    }

    /// Whether draws are transformed by the cube root before inversion.
    pub closed spec fn skew(self) -> bool {
        self.skew
    }

    /// Whether the draw `t` lies below `(c - a) / (b - a)`, the probability
    /// mass of the rising edge.
    pub open spec fn on_rising_edge(self, t: int) -> bool {
        t * (self.b() - self.a()) < (self.c() - self.a()) * DRAW_RANGE
    }

    /// `r` is the inverse of the cumulative distribution at `u = t /
    /// DRAW_RANGE`, rounded to the nearest integer with a tie going up:
    /// `a + sqrt(u (b - a) (c - a))` on the rising edge and
    /// `b - sqrt((1 - u) (b - a) (b - c))` on the falling edge.
    pub open spec fn is_quantile(self, t: int, r: int) -> bool {
        if self.on_rising_edge(t) {
            nearest_root_ties_up(
                r - self.a(),
                t * (self.b() - self.a()) * (self.c() - self.a()),
                DRAW_RANGE as int,
            )
        } else {
            nearest_root_ties_down(
                self.b() - r,
                (DRAW_RANGE - t) * (self.b() - self.a()) * (self.b() - self.c()),
                DRAW_RANGE as int,
            )
        }
    }

    /// The draw that is inverted: `draw` itself, or its cube root.
    pub open spec fn transformed(self, draw: int) -> int {
        if self.skew() {
            skewed_spec(draw)
        } else {
            draw
        }
    }

    /// `r` is the duration sampled from the uniform draw `draw`.
    pub open spec fn is_sample(self, draw: int, r: int) -> bool {
        self.is_quantile(self.transformed(draw), r)
    }

    /// A well-formed sampler satisfies `a < c < b`.
    pub proof fn lemma_ordered(self)
        requires
            self.wf(),
        ensures
            0 <= self.a() < self.c() < self.b(),
    {
    }

    /// Builds the sampler, or reports malformed parameters when `a < c < b`
    /// does not hold.
    pub fn new(a: u32, c: u32, b: u32, skew: bool) -> (r: Result<Self, DistributionError>)
        ensures
            r.is_ok() <==> a < c < b,
            r matches Ok(s) ==> s.wf() && s.a() == a && s.c() == c && s.b() == b && s.skew()
                == skew,
            r matches Err(e) ==> e == DistributionError::MalformedParameters,
    {
        if a < c && c < b {
            Ok(Self { a, c, b, ba: b - a, ca: c - a, bc: b - c, skew })
        } else {
            Err(DistributionError::MalformedParameters)
        }
    }

    /// Inverts the cumulative distribution at the draw `t`. Draws on the
    /// rising edge give durations from `a` to `c`, the others durations from
    /// `c` to `b`.
    pub fn quantile(&self, t: u32) -> (r: u32)
        requires
            t < DRAW_RANGE,
        ensures
            self.is_quantile(t as int, r as int),
            self.a() <= r <= self.b(),
            self.on_rising_edge(t as int) ==> r <= self.c(),
            !self.on_rising_edge(t as int) ==> r >= self.c(),
    {
        proof {
            use_type_invariant(self);
            assert(t * self.ba <= 0x100_0000 * 0xffff_ffff) by (nonlinear_arith)
                requires
                    t < 0x100_0000,
                    self.ba <= 0xffff_ffff,
            ;
            assert(self.ca * DRAW_RANGE <= 0xffff_ffff * 0x100_0000) by (nonlinear_arith)
                requires
                    self.ca <= 0xffff_ffff,
                    DRAW_RANGE == 0x100_0000,
            ;
        }
        let left: u64 = (t as u64) * (self.ba as u64);
        let right: u64 = (self.ca as u64) * (DRAW_RANGE as u64);
        if left < right {
            proof {
                assert(left * self.ca <= self.ca * self.ca * DRAW_RANGE) by (nonlinear_arith)
                    requires
                        left <= self.ca * DRAW_RANGE,
                        self.ca >= 0,
                ;
                assert(self.ca * self.ca * DRAW_RANGE <= 0xffff_ffff * 0xffff_ffff * 0x100_0000)
                    by (nonlinear_arith)
                    requires
                        self.ca <= 0xffff_ffff,
                        DRAW_RANGE == 0x100_0000,
                ;
                assert(left * self.ca == t * (self.b() - self.a()) * (self.c() - self.a()));
            }
            let n: u128 = (left as u128) * (self.ca as u128);
            let root: u32 = rounded_root_ties_up(n, self.ca);
            self.a + root
        } else {
            proof {
                assert((DRAW_RANGE - t) * self.ba <= 0x100_0000 * 0xffff_ffff) by (nonlinear_arith)
                    requires
                        0 <= t < DRAW_RANGE,
                        DRAW_RANGE == 0x100_0000,
                        self.ba <= 0xffff_ffff,
                ;
            }
            let rest: u64 = ((DRAW_RANGE - t) as u64) * (self.ba as u64);
            proof {
                assert(rest == DRAW_RANGE * self.ba - t * self.ba) by (nonlinear_arith)
                    requires
                        rest == (DRAW_RANGE - t) * self.ba,
                ;
                assert(DRAW_RANGE * self.ba - self.ca * DRAW_RANGE == self.bc * DRAW_RANGE)
                    by (nonlinear_arith)
                    requires
                        self.ba == self.bc + self.ca,
                ;
                assert(rest * self.bc <= self.bc * self.bc * DRAW_RANGE) by (nonlinear_arith)
                    requires
                        rest <= self.bc * DRAW_RANGE,
                        self.bc >= 0,
                ;
                assert(self.bc * self.bc * DRAW_RANGE <= 0xffff_ffff * 0xffff_ffff * 0x100_0000)
                    by (nonlinear_arith)
                    requires
                        self.bc <= 0xffff_ffff,
                        DRAW_RANGE == 0x100_0000,
                ;
                assert(rest * self.bc == (DRAW_RANGE - t) * (self.b() - self.a()) * (self.b()
                    - self.c()));
            }
            let n: u128 = (rest as u128) * (self.bc as u128);
            let root: u32 = rounded_root_ties_down(n, self.bc);
            self.b - root
        }
    }

    /// The duration sampled from the uniform draw `draw`: the draw is
    /// transformed by the cube root when the sampler is skewed, and the
    /// cumulative distribution is inverted at the outcome.
    pub fn sample_from_draw(&self, draw: u32) -> (r: u32)
        requires
            draw < DRAW_RANGE,
        ensures
            self.is_sample(draw as int, r as int),
            self.a() <= r <= self.b(),
    {
        let t: u32 = if self.skew {
            skew_draw(draw)
        } else {
            draw
        };
        self.quantile(t)
    }

    /// Samples a duration: draws once from `rng` and inverts the cumulative
    /// distribution at the draw, as `sample_from_draw` says for each draw.
    pub fn sample(&self, rng: &mut RandomSource) -> (r: u32)
        ensures
            exists|draw: int| 0 <= draw < DRAW_RANGE && #[trigger] self.is_sample(draw, r as int),
            self.a() <= r <= self.b(),
    {
        let draw: u32 = rng.draw();
        let r: u32 = self.sample_from_draw(draw);
        assert(self.is_sample(draw as int, r as int));
        r
    }

    /// A draw has at most one sample.
    pub proof fn lemma_sample_unique(self, draw: int, r: int, s: int)
        requires
            self.wf(),
            self.is_sample(draw, r),
            self.is_sample(draw, s),
        ensures
            r == s,
    {
        let t = self.transformed(draw);
        let d = DRAW_RANGE as int;
        if self.on_rising_edge(t) {
            lemma_nearest_root_ties_up_unique(
                r - self.a(),
                s - self.a(),
                t * (self.b() - self.a()) * (self.c() - self.a()),
                d,
            );
        } else {
            lemma_nearest_root_ties_down_unique(
                self.b() - r,
                self.b() - s,
                (d - t) * (self.b() - self.a()) * (self.b() - self.c()),
                d,
            );
        }
    }

    /// A sampler that is not skewed, given a draw that stands exactly for
    /// `(c - a) / (b - a)`, returns the mode.
    pub proof fn lemma_draw_at_mode_fraction(self, draw: int, r: int)
        requires
            self.wf(),
            !self.skew(),
            0 <= draw < DRAW_RANGE,
            draw * (self.b() - self.a()) == (self.c() - self.a()) * DRAW_RANGE,
            self.is_sample(draw, r),
        ensures
            r == self.c(),
    {
        let ba = self.b() - self.a();
        let ca = self.c() - self.a();
        let bc = self.b() - self.c();
        let d = DRAW_RANGE as int;
        let n = (d - draw) * ba * bc;
        assert((d - draw) * ba == d * bc) by (nonlinear_arith)
            requires
                draw * ba == ca * d,
                ba == bc + ca,
        ;
        assert(n == d * bc * bc);
        assert(nearest_root_ties_down(bc, n, d)) by {
            assert((2 * bc - 1) * (2 * bc - 1) * d < 4 * (d * bc * bc)) by (nonlinear_arith)
                requires
                    bc >= 1,
                    d > 0,
            ;
            assert(4 * (d * bc * bc) <= (2 * bc + 1) * (2 * bc + 1) * d) by (nonlinear_arith)
                requires
                    bc >= 1,
                    d > 0,
            ;
        }
        lemma_nearest_root_ties_down_unique(self.b() - r, bc, n, d);
    }
}

} // verus!
