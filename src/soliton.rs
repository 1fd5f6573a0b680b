//! The degree sampler: how many chunks go into one droplet.
use vstd::prelude::*;
use rand::rngs::StdRng;
use crate::sampling::draw_u32;

verus! {

/// Draws are read as fractions of this denominator: 24 bits, as rand turns a
/// 32-bit draw into an `f32` in `[0, 1)`.
pub const FRACTION_ONE: u32 = 0x100_0000;

/// The degree that the ideal soliton gives over `k` chunks for the draw `y = m /
/// 2^24` in `[0, 1)`: `ceil(1 / y)` when `y >= 1 / k`, else `1`.
pub open spec fn ideal_degree(k: nat, m: nat) -> nat {
    if m * k >= FRACTION_ONE {
        ((FRACTION_ONE + m - 1) / (m as int)) as nat
    } else {
        1
    }
}

/// `d` is a degree that the ideal soliton over `k` chunks gives for some 24-bit draw.
pub open spec fn ideal_outcome(k: nat, d: usize) -> bool {
    exists|m: nat| m < FRACTION_ONE && d == ideal_degree(k, m)
}

/// Degree distributions. The robust soliton is not offered: no crate available
/// to this library provides that distribution, and its parameters are real numbers.
#[derive(Debug, Clone, Copy, PartialEq, Eq, Structural)]
pub enum Soliton {
    /// The ideal soliton over `k` chunks, sampled by its closed-form inverse.
    Ideal { k: usize },
}

impl Soliton {
    pub open spec fn chunks(self) -> nat {
        match self {
            Soliton::Ideal { k } => k as nat,
        }
    }

    /// The ideal soliton distribution over `k` chunks.
    pub fn ideal(k: usize) -> (r: Self)
        requires
            k >= 1,
        ensures
            r == (Soliton::Ideal { k }),
    {
        Soliton::Ideal { k }
    }

    /// The degree for the 32-bit draw `draw`: its top 24 bits are the fraction.
    pub fn degree_for_draw(&self, draw: u32) -> (r: usize)
        requires
            self.chunks() >= 1,
        ensures
            r == ideal_degree(self.chunks(), (draw >> 8u32) as nat),
            1 <= r <= self.chunks(),
    {
        match self {
            Soliton::Ideal { k } => {
                let m: u32 = draw >> 8u32;
                proof {
                    assert(draw >> 8u32 < 0x100_0000u32) by (bit_vector);
                }
                if m == 0 {
                    proof {
                        assert(m as nat * *k as nat == 0);
                    }
                    1
                } else {
                    let d: u32 = (FRACTION_ONE + m - 1) / m;
                    proof {
                        let mi = m as int;
                        let ki = *k as int;
                        let di = d as int;
                        let n = FRACTION_ONE as int;
                        vstd::arithmetic::div_mod::lemma_fundamental_div_mod(n + mi - 1, mi);
                        let r = (n + mi - 1) % mi;
                        assert(di >= 1) by (nonlinear_arith)
                            requires
                                n + mi - 1 == mi * di + r,
                                0 <= r < mi,
                                n >= mi,
                                mi > 0,
                        ;
                        assert(mi * ki >= n <==> di <= ki) by (nonlinear_arith)
                            requires
                                n + mi - 1 == mi * di + r,
                                0 <= r < mi,
                                mi > 0,
                                ki >= 1,
                        ;
                    }
                    if (d as usize) <= *k {
                        d as usize
                    } else {
                        1
                    }
                }
            },
        }
    }

    /// Samples a degree in `[1, k]`.
    pub fn sample(&self, rng: &mut StdRng) -> (r: usize)
        requires
            self.chunks() >= 1,
        ensures
            1 <= r <= self.chunks(),
            ideal_outcome(self.chunks(), r),
    {
        let draw = draw_u32(rng);
        proof {
            assert(draw >> 8u32 < 0x100_0000u32) by (bit_vector);
        }
        let r = self.degree_for_draw(draw);
        proof {
            assert(((draw >> 8u32) as nat) < FRACTION_ONE && r == ideal_degree(self.chunks(), (draw >> 8u32) as nat));
        }
        r
    }
}

} // verus!
