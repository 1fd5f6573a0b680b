//! Droplets: the encoded units that travel from encoder to decoder.
use vstd::prelude::*;

verus! {

/// How a droplet names the chunks that were XORed into it.
#[derive(Debug, Clone, Copy, PartialEq, Eq, Structural)]
pub enum DropType {
    /// First is seed, second degree: the chunk indices are drawn again from the seed.
    Seeded(u64, usize),
    /// A single chunk, named by its index.
    Edges(usize),
}

/// A Droplet is created by the Encoder.
#[derive(Debug, Clone)]
pub struct Droplet {
    /// The droptype names its chunks by a seed, or names a single chunk by its index
    pub droptype: DropType,
    /// The payload of the Droplet
    pub data: Vec<u8>,
}

impl Droplet {
    pub fn new(droptype: DropType, data: Vec<u8>) -> (r: Droplet)
        ensures
            r.droptype == droptype,
            r.data@ == data@,
    {
        Droplet { droptype, data }
    }
}

/// A droplet inside the decoder: the chunks it still depends on, and its payload.
#[derive(Debug, Clone)]
pub struct RxDroplet {
    pub edges_idx: Vec<usize>,
    pub data: Vec<u8>,
}

/// Why a droplet could not be turned into bytes, or bytes into a droplet.
#[derive(Debug, Clone, Copy, PartialEq, Eq, Structural)]
pub enum BincodeError {
    DecodeError,
    EncodeError,
}

} // verus!
