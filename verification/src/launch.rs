//! Host-side checks and launch geometry of the two device kernels
//! (element-wise vector add and a 256-bin privatized histogram). The device
//! calls themselves are made by the caller.
use vstd::prelude::*;

verus! {

/// Number of histogram bins: the `u8` bin domain.
pub const BIN_COUNT: usize = 256;

/// Threads per block of the histogram launch.
pub const HISTOGRAM_BLOCK: u32 = 256;

/// Why a launch's inputs were refused before any device work.
#[derive(Debug, Clone, Copy, PartialEq, Eq, Structural)]
pub enum LaunchInputError {
    /// The two vector-add operands differ in length.
    LengthMismatch { a_len: usize, b_len: usize },
    /// A bin index at or above [`BIN_COUNT`].
    BinOutOfRange(u8),
}

/// Check the vector-add operands: equal lengths give the element count.
pub fn check_vector_add(a_len: usize, b_len: usize) -> (r: Result<usize, LaunchInputError>)
    ensures
        r is Ok <==> a_len == b_len,
        r matches Ok(n) ==> n == a_len,
        r matches Err(e) ==> e == (LaunchInputError::LengthMismatch { a_len, b_len }),
{
    if a_len != b_len {
        return Err(LaunchInputError::LengthMismatch { a_len, b_len });
    }
    Ok(a_len)
}

/// The first bin index at or above [`BIN_COUNT`], if any. Every `u8` is
/// below 256, so there is none.
pub fn first_out_of_range_bin(bins: &Vec<u8>) -> (r: Option<u8>)
    ensures
        r is None <==> forall|k: int| 0 <= k < bins@.len() ==> (#[trigger] bins@[k] as usize) < BIN_COUNT,
        r matches Some(b) ==> exists|k: int|
            0 <= k < bins@.len() && bins@[k] == b && b as usize >= BIN_COUNT && (forall|j: int|
                0 <= j < k ==> (#[trigger] bins@[j] as usize) < BIN_COUNT),
{
    let mut i: usize = 0;
    while i < bins.len()
        invariant
            i <= bins@.len(),
            forall|k: int| 0 <= k < i ==> (#[trigger] bins@[k] as usize) < BIN_COUNT,
        decreases bins@.len() - i,
    {
        if bins[i] as usize >= BIN_COUNT {
            return Some(bins[i]);
        }
        i = i + 1;
    }
    None
}

/// Blocks of the histogram launch for `n` bins: `ceil(n32 / 256)`, at least
/// one, where `n32` is `n` reduced to 32 bits as the launch computes it.
pub fn histogram_blocks(n: usize) -> (r: u32)
    ensures
        r == if (n as u32) == 0 { 1 } else { ((n as u32) as nat + 255) / 256 },
{
    let m = n as u32;
    let blocks = ((m as u64 + 255) / 256) as u32;
    if blocks < 1 { 1 } else { blocks }
}

} // verus!
