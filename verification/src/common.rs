//! Constants of the frame format and small byte-buffer helpers.

use vstd::prelude::*;

verus! {

/// Length in bytes of one data block: content followed by its error-correction suffix.
pub const BLOCK_SIZE: usize = 128;

/// Version of the frame format written into every header and required on decode.
pub const ENCODING_VERSION: u16 = 3;

/// The sequence of `n` zero bytes.
pub open spec fn zeros(n: nat) -> Seq<u8> {
    Seq::new(n, |i: int| 0u8)
}

/// The first `n` chunks of `chunks`, laid end to end.
pub open spec fn joined(chunks: Seq<Vec<u8>>, n: int) -> Seq<u8>
    decreases n,
{
    if n <= 0 {
        Seq::empty()
    } else {
        joined(chunks, n - 1) + chunks[n - 1]@
    }
}

/// Laying more chunks end to end never gives fewer bytes.
pub proof fn lemma_joined_grows(chunks: Seq<Vec<u8>>, m: int, n: int)
    requires
        0 <= m <= n,
    ensures
        joined(chunks, m).len() <= joined(chunks, n).len(),
    decreases n - m,
{
    if m < n {
        lemma_joined_grows(chunks, m, n - 1);
    }
}

/// Returns a buffer of `size` zero bytes.
pub fn zero_vec(size: usize) -> (v: Vec<u8>)
    ensures
        v@ == zeros(size as nat),
{
    let mut v: Vec<u8> = Vec::with_capacity(size);
    let mut i: usize = 0;
    while i < size
        invariant
            i <= size,
            v@ == zeros(i as nat),
        decreases size - i,
    {
        v.push(0);
        i += 1;
    }
    v
}

} // verus!
