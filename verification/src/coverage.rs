use vstd::prelude::*;

verus! {

/// Intensity bucket for a raw hit counter: saturated counters map to 16,
/// small counts map to themselves, larger counts to a logarithmic bucket.
pub open spec fn spec_score_from_counter(counter: u16) -> u8 {
    if counter == 0xffff {
        16
    } else if counter <= 3 {
        counter as u8
    } else {
        (17 - vstd::std_specs::bits::u16_leading_zeros(counter)) as u8
    }
}

/// Bucket a raw counter into an intensity: 16 for a saturated counter, the
/// count itself up to 3, and a logarithmic bucket beyond.
pub fn score_from_counter(counter: u16) -> (r: u8)
    ensures
        r == spec_score_from_counter(counter),
{
    proof {
        broadcast use vstd::std_specs::bits::axiom_u16_leading_zeros;

    }
    if counter == 0xffff {
        16
    } else if counter <= 3 {
        counter as u8
    } else {
        (16 - counter.leading_zeros() + 1) as u8
    }
}

/// Number of set bits in the low `width` bits of a word.
pub open spec fn spec_ones(x: u64, width: nat) -> int
    decreases width,
{
    if width == 0 {
        0
    } else {
        (x & 1) + spec_ones(x >> 1u64, (width - 1) as nat)
    }
}

proof fn lemma_ones_bound(x: u64, width: nat)
    ensures
        0 <= spec_ones(x, width) <= width,
    decreases width,
{
    if width > 0 {
        lemma_ones_bound(x >> 1u64, (width - 1) as nat);
        assert(x & 1 <= 1) by (bit_vector);
    }
}

/// Population count of a word.
pub fn count_set_bits(x: u64) -> (r: u8)
    ensures
        r as int == spec_ones(x, 64),
        r <= 64,
{
    let mut v = x;
    let mut c: u8 = 0;
    let mut i: usize = 0;
    proof {
        lemma_ones_bound(x, 64);
    }
    while i < 64
        invariant
            0 <= i <= 64,
            c as int + spec_ones(v, (64 - i) as nat) == spec_ones(x, 64),
            0 <= spec_ones(x, 64) <= 64,
            c <= i,
        decreases 64 - i,
    {
        proof {
            lemma_ones_bound(v >> 1u64, (64 - i - 1) as nat);
            assert(v & 1 <= 1) by (bit_vector);
        }
        c = c + (v & 1) as u8;
        v = v >> 1u64;
        i += 1;
    }
    c
}

/// A unit of edge coverage: a program point and how intensely it was hit.
#[derive(PartialEq, Eq, Clone, Copy, Structural, Debug)]
pub struct EdgeFeature {
    pub pc_guard: usize,
    pub intensity: u8,
}

impl EdgeFeature {
    pub fn new(pc_guard: usize, counter: u16) -> (r: EdgeFeature)
        ensures
            r.pc_guard == pc_guard,
            r.intensity == spec_score_from_counter(counter),
    {
        EdgeFeature { pc_guard, intensity: score_from_counter(counter) }
    }
}

/// A unit of comparison coverage: a program point and the bucketed Hamming
/// distance between the compared operands (the popcount of their XOR).
#[derive(PartialEq, Eq, Clone, Copy, Structural, Debug)]
pub struct ComparisonFeature {
    pub pc: usize,
    pub id: u8,
}

impl ComparisonFeature {
    pub fn new(pc: usize, arg1: u64, arg2: u64) -> (r: ComparisonFeature)
        ensures
            r.pc == pc,
            r.id == spec_score_from_counter(spec_ones(arg1 ^ arg2, 64) as u16),
    {
        let diff = arg1 ^ arg2;
        let ones = count_set_bits(diff);
        ComparisonFeature { pc, id: score_from_counter(ones as u16) }
    }
}

/// A unit of observed coverage, as the sensor reports it.
#[derive(PartialEq, Eq, Clone, Copy, Structural, Debug)]
pub enum Feature {
    Edge(EdgeFeature),
    Comparison(ComparisonFeature),
}

impl Feature {
    /// The base weight of this kind of feature, in fixed-point score units.
    pub fn score(&self) -> (r: u64)
        ensures
            r == match *self {
                Feature::Edge(_) => crate::pool::SCORE_UNIT,
                Feature::Comparison(_) => crate::pool::SCORE_UNIT / 2,
            },
    {
        match self {
            Feature::Edge(_) => crate::pool::SCORE_UNIT,
            Feature::Comparison(_) => crate::pool::SCORE_UNIT / 2,
        }
    }
}

/// Index of an input in the simple pool: a corpus position or the favored
/// input.
#[derive(Clone, Copy, Debug)]
pub enum InputPoolIndex {
    Normal(usize),
    Favored,
}

} // verus!
