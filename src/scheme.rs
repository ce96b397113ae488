use vstd::prelude::*;
use vstd::arithmetic::power2::{pow2, lemma2_to64};
use crate::error::GraphError;

verus! {

/// The number of bits in a machine word.
pub const WORD_BITS: usize = 64;

/// The partition scheme of a graph: how many bits each adjacency slot takes.
/// `SAME` records presence only; the others keep the slot's low bits for a
/// weight.
#[derive(Debug, Clone, Copy, PartialEq, Eq, Structural)]
pub enum EdgeScale {
    SAME,
    BINARY,
    U4,
    U8,
    U16,
    U32,
}

/// The slot width, in bits, of a scheme.
pub open spec fn scale_width(scale: EdgeScale) -> usize {
    match scale {
        EdgeScale::SAME => 1,
        EdgeScale::BINARY => 2,
        EdgeScale::U4 => 4,
        EdgeScale::U8 => 8,
        EdgeScale::U16 => 16,
        EdgeScale::U32 => 32,
    }
}

/// A slot width that one of the schemes uses.
pub open spec fn valid_width(p: usize) -> bool {
    p == 1 || p == 2 || p == 4 || p == 8 || p == 16 || p == 32
}

/// The largest weight a slot of width `p` can hold: nothing for a
/// presence-only slot, else every bit below the presence bit.
pub open spec fn max_weight_of(p: usize) -> nat {
    if p == 1 {
        0
    } else {
        (pow2((p - 1) as nat) - 1) as nat
    }
}

/// The largest weight of each slot width, as numbers.
pub proof fn lemma_max_weight_values()
    ensures
        max_weight_of(1) == 0,
        max_weight_of(2) == 1,
        max_weight_of(4) == 7,
        max_weight_of(8) == 127,
        max_weight_of(16) == 32_767,
        max_weight_of(32) == 2_147_483_647,
{
    lemma2_to64();
}

impl EdgeScale {
    /// Slot width of the scheme, in bits.
    pub fn width(&self) -> (r: usize)
        ensures
            r == scale_width(*self),
    {
        match self {
            EdgeScale::SAME => 1,
            EdgeScale::BINARY => 2,
            EdgeScale::U4 => 4,
            EdgeScale::U8 => 8,
            EdgeScale::U16 => 16,
            EdgeScale::U32 => 32,
        }
    }

    /// Largest weight an edge can carry under the scheme.
    pub fn max_weight(&self) -> (r: usize)
        ensures
            r == max_weight_of(scale_width(*self)),
    {
        let r: usize = match self {
            EdgeScale::SAME => 0,
            EdgeScale::BINARY => 1,
            EdgeScale::U4 => 7,
            EdgeScale::U8 => 127,
            EdgeScale::U16 => 32_767,
            EdgeScale::U32 => 2_147_483_647,
        };
        proof {
            lemma_max_weight_values();
        }
        r
    }
}

/// Checks that a scheme's slots fit in a word of `bits` bits.
pub fn verify_partition_size(scale: &EdgeScale, bits: &usize) -> (r: Result<(), GraphError>)
    ensures
        r is Ok <==> scale_width(*scale) <= *bits,
        r is Err ==> r == Err::<(), GraphError>(GraphError::Configuration),
{
    if scale.width() <= *bits {
        Ok(())
    } else {
        Err(GraphError::Configuration)
    }
}

} // verus!
