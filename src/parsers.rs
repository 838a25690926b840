//! Reading the chunk structure of a PNG stream.
use vstd::prelude::*;
use vstd::slice::{slice_subrange, slice_to_vec};

use crate::structs::{Chunk, IHDR};

verus! {

/// The big-endian unsigned number in `b[i..i + 4]`.
pub open spec fn be_u32(b: Seq<u8>, i: int) -> int {
    b[i] * 16777216 + b[i + 1] * 65536 + b[i + 2] * 256 + b[i + 3]
}

/// The chunks of `buf` from position `off` on, each a length field, a
/// four-byte type, that many bytes of payload and a checksum field; `None`
/// where the last chunk runs past the end.
pub open spec fn chunks_from(buf: Seq<u8>, off: int) -> Option<Seq<(u32, Seq<u8>, Seq<u8>, u32)>>
    decreases buf.len() - off,
{
    if off < 0 || off >= buf.len() {
        Some(seq![])
    } else if off + 8 > buf.len() {
        None
    } else {
        let end = off + 8 + be_u32(buf, off);
        if end + 4 > buf.len() {
            None
        } else {
            match chunks_from(buf, end + 4) {
                Some(rest) => Some(
                    seq![
                        (
                            be_u32(buf, off) as u32,
                            buf.subrange(off + 4, off + 8),
                            buf.subrange(off + 8, end),
                            be_u32(buf, end) as u32,
                        ),
                    ] + rest,
                ),
                None => None,
            }
        }
    }
}

/// The chunks of a PNG stream: the stream after its eight-byte signature.
pub open spec fn png_chunks(buf: Seq<u8>) -> Option<Seq<(u32, Seq<u8>, Seq<u8>, u32)>> {
    chunks_from(buf, 8)
}

pub open spec fn prepend<A>(a: Seq<A>, o: Option<Seq<A>>) -> Option<Seq<A>> {
    match o {
        Some(r) => Some(a + r),
        None => None,
    }
}

pub open spec fn chunk_views(cs: Seq<Chunk>) -> Seq<(u32, Seq<u8>, Seq<u8>, u32)> {
    cs.map_values(|c: Chunk| c@)
}

fn read_be_u32(b: &[u8], i: usize) -> (r: u32)
    requires
        i + 4 <= b@.len(),
    ensures
        r == be_u32(b@, i as int),
{
    (b[i] as u32) * 16777216 + (b[i + 1] as u32) * 65536 + (b[i + 2] as u32) * 256 + (b[i
        + 3] as u32)
}

/// Splits a PNG stream, signature skipped, into its chunks; `None` where a
/// chunk runs past the end of the stream.
pub fn parse_chunks(buffer: &[u8]) -> (r: Option<Vec<Chunk>>)
    ensures
        r is Some <==> png_chunks(buffer@) is Some,
        r is Some ==> png_chunks(buffer@) == Some(chunk_views(r.unwrap()@)),
{
    let mut chunks: Vec<Chunk> = Vec::new();
    let mut offset: usize = 8;
    while offset < buffer.len()
        invariant
            offset >= 8,
            png_chunks(buffer@) == prepend(chunk_views(chunks@), chunks_from(buffer@, offset as int)),
        decreases buffer@.len() - offset,
    {
        let rem = buffer.len() - offset;
        if rem < 8 {
            return None;
        }
        let length = read_be_u32(buffer, offset);
        if (length as usize) > rem - 8 || rem - 8 - (length as usize) < 4 {
            return None;
        }
        let chunk_type: [u8; 4] = [
            buffer[offset + 4],
            buffer[offset + 5],
            buffer[offset + 6],
            buffer[offset + 7],
        ];
        let data_start = offset + 8;
        let data_end = data_start + length as usize;
        let data = slice_to_vec(slice_subrange(buffer, data_start, data_end));
        let crc = read_be_u32(buffer, data_end);
        let chunk = Chunk { length, chunk_type, data, crc };
        let ghost before = chunks@;
        proof {
            assert(chunk_type@ =~= buffer@.subrange(offset + 4, offset + 8));
        }
        chunks.push(chunk);
        proof {
            assert(chunk_views(chunks@) =~= chunk_views(before) + seq![chunk@]);
        }
        offset = data_end + 4;
    }
    proof {
        assert(chunk_views(chunks@) + seq![] =~= chunk_views(chunks@));
    }
    Some(chunks)
}

/// The type code `PLTE`.
pub open spec fn plte_type() -> Seq<u8> {
    seq![80u8, 76u8, 84u8, 69u8]
}

/// The type code `tRNS`.
pub open spec fn trns_type() -> Seq<u8> {
    seq![116u8, 82u8, 78u8, 83u8]
}

/// The position of the first chunk of type `t` at or after `i`.
pub open spec fn first_of_type(cs: Seq<Chunk>, t: Seq<u8>, i: int) -> Option<int>
    decreases cs.len() - i,
{
    if i < 0 || i >= cs.len() {
        None
    } else if cs[i].chunk_type@ == t {
        Some(i)
    } else {
        first_of_type(cs, t, i + 1)
    }
}

/// The payload bytes taken three at a time; a short group at the end is
/// left out.
pub open spec fn rgb_triples(d: Seq<u8>) -> Seq<(u8, u8, u8)> {
    Seq::new(d.len() / 3, |k: int| (d[3 * k], d[3 * k + 1], d[3 * k + 2]))
}

fn find_type(chunks: &[Chunk], t: [u8; 4]) -> (r: Option<usize>)
    ensures
        match r {
            Some(i) => first_of_type(chunks@, t@, 0) == Some(i as int),
            None => first_of_type(chunks@, t@, 0) is None,
        },
        r is Some ==> r.unwrap() < chunks@.len(),
{
    let mut i: usize = 0;
    while i < chunks.len()
        invariant
            i <= chunks@.len(),
            first_of_type(chunks@, t@, 0) == first_of_type(chunks@, t@, i as int),
        decreases chunks@.len() - i,
    {
        let c = &chunks[i];
        if c.chunk_type[0] == t[0] && c.chunk_type[1] == t[1] && c.chunk_type[2] == t[2]
            && c.chunk_type[3] == t[3] {
            proof {
                assert(chunks@[i as int].chunk_type@ =~= t@);
            }
            return Some(i);
        }
        proof {
            assert(chunks@[i as int].chunk_type@ != t@) by {
                if chunks@[i as int].chunk_type@ == t@ {
                    assert(chunks@[i as int].chunk_type@[0] == t@[0]);
                    assert(chunks@[i as int].chunk_type@[1] == t@[1]);
                    assert(chunks@[i as int].chunk_type@[2] == t@[2]);
                    assert(chunks@[i as int].chunk_type@[3] == t@[3]);
                }
            }
        }
        i += 1;
    }
    None
}

/// The palette: the payload of the first `PLTE` chunk as colour triples,
/// empty where there is none.
pub fn parse_plte(chunks: &[Chunk]) -> (r: Vec<(u8, u8, u8)>)
    ensures
        r@ == match first_of_type(chunks@, plte_type(), 0) {
            Some(i) => rgb_triples(chunks@[i].data@),
            None => seq![],
        },
{
    let t: [u8; 4] = [80, 76, 84, 69];
    proof {
        assert(t@ =~= plte_type());
    }
    let mut out: Vec<(u8, u8, u8)> = Vec::new();
    match find_type(chunks, t) {
        Some(i) => {
            let data = &chunks[i].data;
            let dlen = data.len();
            let n = dlen / 3;
            let mut k: usize = 0;
            while k < n
                invariant
                    dlen == data@.len(),
                    n == data@.len() / 3,
                    k <= n,
                    out@ =~= rgb_triples(data@).take(k as int),
                decreases n - k,
            {
                assert(3 * k + 2 < data@.len()) by (nonlinear_arith)
                    requires
                        k < n,
                        n == data@.len() / 3,
                ;
                out.push((data[3 * k], data[3 * k + 1], data[3 * k + 2]));
                k += 1;
            }
            proof {
                assert(out@ =~= rgb_triples(data@));
            }
        },
        None => {},
    }
    out
}

/// The transparency table: the payload of the first `tRNS` chunk, empty
/// where there is none.
pub fn parse_trns(chunks: &[Chunk]) -> (r: Vec<u8>)
    ensures
        r@ == match first_of_type(chunks@, trns_type(), 0) {
            Some(i) => chunks@[i].data@,
            None => seq![],
        },
{
    let t: [u8; 4] = [116, 82, 78, 83];
    proof {
        assert(t@ =~= trns_type());
    }
    match find_type(chunks, t) {
        Some(i) => slice_to_vec(chunks[i].data.as_slice()),
        None => Vec::new(),
    }
}

/// Reads the thirteen bytes of a header chunk's payload.
pub fn parse_ihdr(data: &[u8]) -> (r: IHDR)
    requires
        data@.len() >= 13,
    ensures
        r.width == be_u32(data@, 0),
        r.height == be_u32(data@, 4),
        r.bit_depth == data@[8],
        r.color_type == data@[9],
        r.compression_method == data@[10],
        r.filter_method == data@[11],
        r.interlace_method == data@[12],
{
    IHDR {
        width: read_be_u32(data, 0),
        height: read_be_u32(data, 4),
        bit_depth: data[8],
        color_type: data[9],
        compression_method: data[10],
        filter_method: data[11],
        interlace_method: data[12],
    }
}

/// The eight bytes every PNG stream starts with.
pub open spec fn png_signature() -> Seq<u8> {
    seq![137u8, 80u8, 78u8, 71u8, 13u8, 10u8, 26u8, 10u8]
}

/// The stream starts with the PNG signature.
pub fn has_png_signature(buffer: &[u8]) -> (r: bool)
    ensures
        r <==> buffer@.len() >= 8 && buffer@.subrange(0, 8) == png_signature(),
{
    if buffer.len() < 8 {
        return false;
    }
    let r = buffer[0] == 137 && buffer[1] == 80 && buffer[2] == 78 && buffer[3] == 71 && buffer[4]
        == 13 && buffer[5] == 10 && buffer[6] == 26 && buffer[7] == 10;
    proof {
        if r {
            assert(buffer@.subrange(0, 8) =~= png_signature());
        } else if buffer@.subrange(0, 8) == png_signature() {
            assert(buffer@.subrange(0, 8)[0] == png_signature()[0]);
            assert(buffer@.subrange(0, 8)[1] == png_signature()[1]);
            assert(buffer@.subrange(0, 8)[2] == png_signature()[2]);
            assert(buffer@.subrange(0, 8)[3] == png_signature()[3]);
            assert(buffer@.subrange(0, 8)[4] == png_signature()[4]);
            assert(buffer@.subrange(0, 8)[5] == png_signature()[5]);
            assert(buffer@.subrange(0, 8)[6] == png_signature()[6]);
            assert(buffer@.subrange(0, 8)[7] == png_signature()[7]);
        }
    }
    r
}

} // verus!
