//! Shuffle configuration and its builder.

use vstd::arithmetic::power2::{lemma_pow2_strictly_increases, lemma2_to64, pow2};
use vstd::prelude::*;

verus! {

/// Configuration for [`crate::jigshuffle`].
///
/// `chunk_po2` is the maximum block level: blocks of side `2^chunk_po2` down
/// to single cells may be formed.  `flip` enables the axis-mirroring block
/// transforms, `rotate` the quarter-turn ones.
#[derive(Debug, Clone, Copy)]
pub struct Config {
    pub chunk_po2: usize,
    pub flip: bool,
    pub rotate: bool,
}

impl Config {
    /// A block level of 64 or more would name block sides that no 64-bit
    /// machine can address; such a configuration is rejected.
    pub open spec fn wf(self) -> bool {
        self.chunk_po2 < 64
    }
}

/// Builder for [`Config`].
pub struct ConfigBuilder(pub Config);

impl ConfigBuilder {
    /// Create a new [`ConfigBuilder`]: level 0, no flips, no rotations.
    pub fn new() -> (b: ConfigBuilder)
        ensures
            b.0.chunk_po2 == 0,
            !b.0.flip,
            !b.0.rotate,
            b.0.wf(),
    {
        ConfigBuilder(Config { chunk_po2: 0, flip: false, rotate: false })
    }

    /// Set the chunk size as a power of two.
    pub fn chunk_po2(self, v: usize) -> (b: ConfigBuilder)
        requires
            v < 64,
        ensures
            b.0.chunk_po2 == v,
            b.0.flip == self.0.flip,
            b.0.rotate == self.0.rotate,
            b.0.wf(),
    {
        let mut b = self;
        b.0.chunk_po2 = v;
        b
    }

    /// Set the chunk size; the value is rounded down to a power of two.
    pub fn chunk(self, v: u64) -> (b: ConfigBuilder)
        requires
            v >= 1,
        ensures
            pow2(b.0.chunk_po2 as nat) <= v < pow2(b.0.chunk_po2 as nat + 1),
            b.0.flip == self.0.flip,
            b.0.rotate == self.0.rotate,
            b.0.wf(),
    {
        let e = floor_log2(v);
        self.chunk_po2(e)
    }

    /// Choose whether blocks may be rotated.
    pub fn rotate(self, v: bool) -> (b: ConfigBuilder)
        ensures
            b.0.rotate == v,
            b.0.flip == self.0.flip,
            b.0.chunk_po2 == self.0.chunk_po2,
    {
        let mut b = self;
        b.0.rotate = v;
        b
    }

    /// Choose whether blocks may be flipped.
    pub fn flip(self, v: bool) -> (b: ConfigBuilder)
        ensures
            b.0.flip == v,
            b.0.rotate == self.0.rotate,
            b.0.chunk_po2 == self.0.chunk_po2,
    {
        let mut b = self;
        b.0.flip = v;
        b
    }

    /// Build the configuration.
    pub fn build(self) -> (c: Config)
        ensures
            c == self.0,
    {
        self.0
    }
}

/// The exponent of the largest power of two that is at most `v`.
pub fn floor_log2(v: u64) -> (e: usize)
    requires
        v >= 1,
    ensures
        pow2(e as nat) <= v < pow2(e as nat + 1),
        e < 64,
{
    let mut x = v;
    let mut e: usize = 0;
    proof {
        lemma2_to64();
    }
    while x >= 2
        invariant
            x >= 1,
            e <= 63,
            pow2(e as nat) * x <= v,
            v < pow2(e as nat) * (x + 1),
        decreases x,
    {
        proof {
            assert(e < 63) by {
                if e >= 63 {
                    vstd::arithmetic::power2::lemma2_to64_rest();
                    assert(pow2(63) <= pow2(e as nat)) by {
                        if e > 63 {
                            lemma_pow2_strictly_increases(63, e as nat);
                        }
                    }
                    assert(pow2(e as nat) * x > u64::MAX) by (nonlinear_arith)
                        requires
                            pow2(e as nat) >= pow2(63),
                            pow2(63) == 0x8000000000000000,
                            x >= 2,
                    ;
                }
            }
            assert(pow2(e as nat + 1) == 2 * pow2(e as nat)) by {
                vstd::arithmetic::power2::lemma_pow2_unfold(e as nat + 1);
            }
            assert(pow2(e as nat) >= 1) by {
                vstd::arithmetic::power2::lemma_pow2_pos(e as nat);
            }
            assert(pow2(e as nat + 1) * (x / 2) <= v && v < pow2(e as nat + 1) * ((x / 2) + 1))
                by (nonlinear_arith)
                requires
                    pow2(e as nat + 1) == 2 * pow2(e as nat),
                    pow2(e as nat) >= 1,
                    pow2(e as nat) * x <= v,
                    v < pow2(e as nat) * (x + 1),
                    x == 2 * (x / 2) + (x % 2),
                    0 <= x % 2 < 2,
                    x >= 2,
            ;
        }
        x = x / 2;
        e = e + 1;
    }
    proof {
        assert(x == 1);
        assert(pow2(e as nat + 1) == 2 * pow2(e as nat)) by {
            vstd::arithmetic::power2::lemma_pow2_unfold(e as nat + 1);
        }
        assert(pow2(e as nat) * 1 == pow2(e as nat)) by (nonlinear_arith);
        assert(pow2(e as nat) * 2 == 2 * pow2(e as nat)) by (nonlinear_arith);
    }
    e
}

} // verus!
