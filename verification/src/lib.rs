//! Analysis of DEFLATE token streams: which back-references were open to an
//! encoder at each position, how the encoder's choice ranks among them, and
//! how the token stream is rebuilt from the data and those ranks.

use vstd::prelude::*;

pub mod all_refs;
pub mod bestguess;
pub mod bit;
pub mod circles;
pub mod guess;
pub mod huffman;
pub mod parse;
pub mod serialise;
pub mod wams;

verus! {

/// One token of a compressed block.
#[derive(Debug, Clone, Copy, PartialEq, Eq, Structural)]
pub enum Code {
    Literal(u8),
    Reference { dist: u16, run_minus_3: u8 },
}

/// One block of a compressed stream.
#[derive(Debug, PartialEq, Eq)]
pub enum Block {
    Uncompressed(Vec<u8>),
    FixedHuffman(Vec<Code>),
    DynamicHuffman { trees: Vec<bool>, codes: Vec<Code> },
}

/// Why a stream could not be read or analysed.
#[derive(Debug, Clone, Copy, PartialEq, Eq, Structural)]
pub enum Error {
    Truncated,
    ReservedBlockType,
    InvalidCodeTable,
    InvalidSymbol,
    InvalidDistance,
    NotInCandidates,
    Inconsistent,
    IoError,
}

/// The number of bytes a token stands for.
pub open spec fn emitted(code: Code) -> int {
    match code {
        Code::Literal(_) => 1,
        Code::Reference { dist, run_minus_3 } => run_minus_3 as int + 3,
    }
}

impl Code {
    /// The number of bytes this token stands for: 1 for a literal, the run
    /// for a reference.
    pub fn emitted_bytes(&self) -> (n: u16)
        ensures
            n as int == emitted(*self),
            1 <= n <= 258,
    {
        match *self {
            Code::Literal(_) => 1,
            Code::Reference { dist, run_minus_3 } => run_minus_3 as u16 + 3,
        }
    }
}

/// A run as it is stored in a token: `run - 3`, with runs beyond 258
/// stored as 258.
pub open spec fn packed_run(run: int) -> u8
    recommends
        3 <= run,
{
    if run >= 258 {
        255u8
    } else {
        (run - 3) as u8
    }
}

/// Packs a run of 3 or more into the eight-bit field of a token, saturating
/// at 258.
pub fn pack_run(run: u16) -> (r: u8)
    requires
        run >= 3,
    ensures
        r == packed_run(run as int),
        run <= 258 ==> r as int + 3 == run as int,
{
    if run >= 258 {
        255
    } else {
        (run - 3) as u8
    }
}

/// Widens a sixteen-bit value.
pub fn usize_from(val: u16) -> (r: usize)
    ensures
        r as int == val as int,
{
    val as usize
}

/// Narrows a value known to fit in sixteen bits.
pub fn u16_from(val: usize) -> (r: u16)
    requires
        val <= 65535,
    ensures
        r as int == val as int,
{
    val as u16
}

} // verus!
