//! The strategy oracle: sample-based heuristics.  None of these decisions
//! affects losslessness; they only steer the layout the codec picks.

use vstd::prelude::*;

verus! {

/// How many of the first `min(len, 4096)` bytes are control bytes
/// (below 9, or strictly between 13 and 32).
pub open spec fn control_count(s: Seq<u8>, n: int) -> nat
    decreases n,
{
    if n <= 0 {
        0
    } else {
        control_count(s, n - 1) + (if s[n - 1] < 9 || (s[n - 1] > 13 && s[n - 1] < 32) {
            1nat
        } else {
            0
        })
    }
}

/// The binary guard: more than 1% control bytes in the leading sample.
pub open spec fn is_likely_binary_spec(s: Seq<u8>) -> bool {
    let limit = if s.len() <= 4096 {
        s.len() as int
    } else {
        4096
    };
    control_count(s, limit) * 100 > limit
}

/// Inspects up to 4096 leading bytes and reports binary-looking input.
pub fn is_likely_binary(data: &Vec<u8>) -> (r: bool)
    ensures
        r == is_likely_binary_spec(data@),
{
    let len = data.len();
    let limit = if len <= 4096 {
        len
    } else {
        4096
    };
    let mut count: usize = 0;
    let mut i: usize = 0;
    while i < limit
        invariant
            i <= limit,
            limit <= data@.len(),
            limit <= 4096,
            count == control_count(data@, i as int),
            count <= i,
        decreases limit - i,
    {
        let b = data[i];
        if b < 9 || (b > 13 && b < 32) {
            count = count + 1;
        }
        i = i + 1;
    }
    count * 100 > limit
}

/// Whether the sampled Strict tokenization suggests Aggressive mode: more
/// than one distinct skeleton per ten lines.
pub fn prefers_aggressive(distinct: usize, line_count: usize) -> (r: bool)
    ensures
        r == (distinct * 10 > line_count),
{
    if distinct > usize::MAX / 10 {
        // More templates than any sample can hold; treat as high entropy.
        return true;
    }
    distinct * 10 > line_count
}

/// Whether the sampled variable cells compress worse than 3:1, which makes
/// the Split layout (independent streams) preferable to Unified remapping.
pub fn prefers_split(sample_len: usize, compressed_len: usize) -> (r: bool)
    ensures
        r == (sample_len < 3 * compressed_len),
{
    compressed_len > sample_len / 3
}

} // verus!
