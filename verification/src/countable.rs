//! The countable alphabet: symbols are `u32` code points with a total order,
//! an immediate successor and an immediate predecessor.  The successor and
//! predecessor are undefined at the edges of the alphabet; asking for them
//! there reports `AlphabetBound`.

use vstd::prelude::*;

verus! {

/// Error raised when the successor or predecessor of a symbol is requested
/// at the boundary of the alphabet.
#[derive(Clone, Copy, PartialEq, Eq, Structural, Debug)]
pub enum AlphabetError {
    AlphabetBound,
}

/// The immediate successor of a symbol, or `AlphabetBound` at the top of the
/// alphabet.
pub fn successor(symbol: u32) -> (r: Result<u32, AlphabetError>)
    ensures
        symbol < u32::MAX ==> r == Ok::<u32, AlphabetError>((symbol + 1) as u32),
        symbol == u32::MAX ==> r == Err::<u32, AlphabetError>(AlphabetError::AlphabetBound),
{
    if symbol < u32::MAX {
        Ok(symbol + 1)
    } else {
        Err(AlphabetError::AlphabetBound)
    }
}

/// The immediate predecessor of a symbol, or `AlphabetBound` at the bottom of
/// the alphabet.
pub fn predecessor(symbol: u32) -> (r: Result<u32, AlphabetError>)
    ensures
        symbol > 0 ==> r == Ok::<u32, AlphabetError>((symbol - 1) as u32),
        symbol == 0 ==> r == Err::<u32, AlphabetError>(AlphabetError::AlphabetBound),
{
    if symbol > 0 {
        Ok(symbol - 1)
    } else {
        Err(AlphabetError::AlphabetBound)
    }
}

} // verus!
