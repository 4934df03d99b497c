//! Exact rational quantities: configured rates and per-tick probabilities.

use crate::random_generator::DRAW_RANGE;
use vstd::prelude::*;

verus! {

/// Number of ticks (seconds) in one hour.
pub const TICKS_PER_HOUR: u32 = 3600;

/// A non-negative rational quantity `num / den` supplied by configuration,
/// such as an hourly arrival rate or an acceptance threshold.
#[derive(Clone, Copy, Debug)]
pub struct Ratio {
    num: u32,
    den: u32,
}

impl Ratio {
    /// The invariant of a ratio: its denominator is not zero.
    #[verifier::type_invariant]
    pub closed spec fn wf(self) -> bool {
        self.den > 0
    }

    /// The numerator.
    pub closed spec fn num(self) -> nat {
        self.num as nat
    }

    /// The denominator.
    pub closed spec fn den(self) -> nat {
        self.den as nat
    }

    /// The quantity `num / den`; `None` exactly when `den` is zero.
    pub fn new(num: u32, den: u32) -> (r: Option<Ratio>)
        ensures
            r.is_some() <==> den != 0,
            r.is_some() ==> r.unwrap().wf() && r.unwrap().num() == num && r.unwrap().den() == den,
    {
        if den == 0 {
            None
        } else {
            Some(Ratio { num, den })
        }
    }

    /// The numerator.
    pub fn numerator(&self) -> (n: u32)
        ensures
            n == self.num(),
    {
        self.num
    }

    /// The denominator, which is never zero.
    pub fn denominator(&self) -> (d: u32)
        ensures
            d == self.den(),
            d > 0,
    {
        proof {
            use_type_invariant(self);
        }
        self.den
    }

    /// Whether the quantity is strictly greater than zero.
    pub fn is_positive(&self) -> (p: bool)
        ensures
            p == (self.num() > 0),
    {
        self.num > 0
    }
}

/// A probability per tick, held as the exact fraction `num / den`. A value
/// of one or more stands for a certain event.
#[derive(Clone, Copy, Debug)]
pub struct Probability {
    num: u64,
    den: u64,
}

impl Probability {
    /// The invariant of a probability: its denominator is not zero.
    #[verifier::type_invariant]
    pub closed spec fn wf(self) -> bool {
        self.den > 0
    }

    /// The numerator.
    pub closed spec fn num(self) -> nat {
        self.num as nat
    }

    /// The denominator.
    pub closed spec fn den(self) -> nat {
        self.den as nat
    }

    /// Whether a uniform draw `draw`, standing for `draw / DRAW_RANGE`, lies
    /// strictly below this probability.
    pub open spec fn covers_spec(self, draw: u32) -> bool {
        draw * self.den() < self.num() * DRAW_RANGE
    }

    /// The probability `num / den`; `None` exactly when `den` is zero.
    pub fn new(num: u64, den: u64) -> (r: Option<Probability>)
        ensures
            r.is_some() <==> den != 0,
            r.is_some() ==> r.unwrap().wf() && r.unwrap().num() == num && r.unwrap().den() == den,
    {
        if den == 0 {
            None
        } else {
            Some(Probability { num, den })
        }
    }

    /// The probability zero.
    pub fn zero() -> (r: Probability)
        ensures
            r.wf(),
            r.num() == 0,
            r.den() == 1,
    {
        Probability { num: 0, den: 1 }
    }

    /// The per-tick probability of an arrival for an hourly rate: the rate
    /// divided by the number of ticks in an hour.
    pub fn per_second(cars_per_hour: &Ratio) -> (r: Probability)
        ensures
            r.wf(),
            r.num() == cars_per_hour.num(),
            r.den() == cars_per_hour.den() * TICKS_PER_HOUR,
    {
        let den: u64 = cars_per_hour.denominator() as u64;
        Probability { num: cars_per_hour.numerator() as u64, den: den * (TICKS_PER_HOUR as u64) }
    }

    /// The numerator.
    pub fn numerator(&self) -> (n: u64)
        ensures
            n == self.num(),
    {
        self.num
    }

    /// The denominator, which is never zero.
    pub fn denominator(&self) -> (d: u64)
        ensures
            d == self.den(),
            d > 0,
    {
        proof {
            use_type_invariant(self);
        }
        self.den
    }

    /// A probability of zero covers no draw, and a probability of one or
    /// more covers every draw below `DRAW_RANGE`.
    pub proof fn lemma_certain_and_impossible(self, draw: u32)
        requires
            self.wf(),
            draw < DRAW_RANGE,
        ensures
            self.num() == 0 ==> !self.covers_spec(draw),
            self.num() >= self.den() ==> self.covers_spec(draw),
    {
        if self.num() >= self.den() {
            assert(draw * self.den() < self.num() * DRAW_RANGE) by (nonlinear_arith)
                requires
                    draw < DRAW_RANGE,
                    self.num() >= self.den(),
                    self.den() > 0,
            ;
        }
        if self.num() == 0 {
            assert(self.num() * DRAW_RANGE == 0) by (nonlinear_arith)
                requires
                    self.num() == 0,
            ;
            assert(draw * self.den() >= 0) by (nonlinear_arith);
        }
    }

    /// Decides a Bernoulli event from a uniform draw: the event occurs when
    /// `draw / DRAW_RANGE` is strictly below the probability.
    pub fn covers(&self, draw: u32) -> (hit: bool)
        ensures
            hit == self.covers_spec(draw),
    {
        assert(draw * self.den <= 0xffff_ffff * 0xffff_ffff_ffff_ffff) by (nonlinear_arith)
            requires
                draw <= 0xffff_ffff,
                self.den <= 0xffff_ffff_ffff_ffff,
        ;
        assert(self.num * DRAW_RANGE <= 0xffff_ffff_ffff_ffff * 0x100_0000) by (nonlinear_arith)
            requires
                self.num <= 0xffff_ffff_ffff_ffff,
                DRAW_RANGE == 0x100_0000,
        ;
        let left: u128 = (draw as u128) * (self.den as u128);
        let right: u128 = (self.num as u128) * (DRAW_RANGE as u128);
        left < right
    }
}

} // verus!
