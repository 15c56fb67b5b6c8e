//! Conversion between formats.
use crate::number::binary::{absolute, Binary};
use crate::number::reals::lemma_positive_product;
use crate::number::rounding::round_scaled;
use crate::number::scale::{lemma_power_adds, lemma_power_positive, power};
use vstd::arithmetic::power2::{
    lemma2_to64_rest, lemma_pow2_pos, lemma_pow2_strictly_increases, pow2,
};
use vstd::prelude::*;

verus! {

impl<const F: u32, const TOP: u32> Binary<F, TOP> {
    /// The number of another format that is nearest to this one.
    pub fn convert<const G: u32, const LAST: u32>(self) -> (r: Binary<G, LAST>)
        requires
            Self::standard(),
            Binary::<G, LAST>::standard(),
        ensures
            r == self.converted::<G, LAST>(),
    {
        let top: u64 = Self::top_position();
        if self.magnitude > top {
            return Binary::<G, LAST>::make_nan();
        }
        if self.magnitude == top {
            return Binary {
                negative: self.negative,
                magnitude: Binary::<G, LAST>::top_position(),
            };
        }
        if self.magnitude == 0 {
            return Binary { negative: self.negative, magnitude: 0 };
        }
        let (k, s) = self.parts();
        let from: i64 = F as i64 + TOP as i64 / 2 - 1;
        let to: i64 = G as i64 + LAST as i64 / 2 - 1;
        let e: i64 = s as i64 - from + to;
        let ghost x = absolute(self.value()) * power(to as int);
        proof {
            Self::lemma_limits();
            Binary::<G, LAST>::lemma_limits();
            lemma2_to64_rest();
            lemma_pow2_strictly_increases(53, 127);
            Self::lemma_unit();
            let (a, p, u, g) = (
                k as real,
                pow2(s as nat) as real,
                power(-(from as int)),
                power(to as int),
            );
            assert((k * pow2(s as nat)) as real == a * p) by (nonlinear_arith)
                requires
                    a == k as real,
                    p == pow2(s as nat) as real,
            ;
            lemma_pow2_pos(s as nat);
            lemma_positive_product(a, p, u);
            lemma_power_adds(s as int, -(from as int));
            lemma_power_adds(s - from, to as int);
            let w = power(e as int);
            lemma_power_positive(e as int);
            assert(((a * p) * u) * g == a * w) by (nonlinear_arith)
                requires
                    w == (p * u) * g,
            ;
            assert((a + 1real) * w > a * w) by (nonlinear_arith)
                requires
                    w > 0real,
            ;
        }
        let magnitude: u64 = round_scaled(G, LAST, k as u128, e, false, Ghost(x));
        Binary { negative: self.negative, magnitude }
    }
}

} // verus!
