use vstd::prelude::*;

verus! {

/// How the tracer resolves a vertex where two filled regions touch diagonally.
#[derive(Clone, Copy, Debug, PartialEq, Eq, Structural)]
pub enum TurnPolicy {
    /// Always turn counter-clockwise (keeps diagonal neighbours joined).
    Black,
    /// Never turn counter-clockwise (keeps diagonal neighbours apart).
    White,
    /// Turn counter-clockwise when most of the neighbourhood is filled.
    Majority,
    /// Turn counter-clockwise when most of the neighbourhood is empty.
    Minority,
}

/// What the traced outline follows.
#[derive(Clone, Copy, Debug, PartialEq, Eq, Structural)]
pub enum TraceMode {
    Outline,
    Centerline,
}

/// One chunk of a PNG stream: its length field, four-byte type, payload
/// and checksum field, as they stand in the stream.
#[derive(Clone, Debug)]
pub struct Chunk {
    pub length: u32,
    pub chunk_type: [u8; 4],
    pub data: Vec<u8>,
    pub crc: u32,
}

impl View for Chunk {
    type V = (u32, Seq<u8>, Seq<u8>, u32);

    open spec fn view(&self) -> (u32, Seq<u8>, Seq<u8>, u32) {
        (self.length, self.chunk_type@, self.data@, self.crc)
    }
}

/// The fields of a PNG header chunk.
#[allow(non_camel_case_types, clippy::upper_case_acronyms)]
#[derive(Clone, Copy, Debug, PartialEq, Eq, Structural)]
pub struct IHDR {
    pub width: u32,
    pub height: u32,
    pub bit_depth: u8,
    pub color_type: u8,
    pub compression_method: u8,
    pub filter_method: u8,
    pub interlace_method: u8,
}

} // verus!
