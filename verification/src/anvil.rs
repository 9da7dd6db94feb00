//! The region reader: the 4 KiB-sector location table, per-chunk framing,
//! and the dispatch to the decompressors that feed the tag codec.

use vstd::prelude::*;
use crate::chunk_format::{chunk_matches, chunk_ok, Chunk};
use crate::de;
use crate::de::dec_document;
use crate::nbt::owned::{u32_be, TagView};

verus! {

/// The errors of region reading.
#[derive(Debug)]
pub enum Error {
    /// The file ends before the addressed data.
    Truncated,
    /// The chunk has no entry in the location table.
    ChunkAbsent,
    /// A compression byte that names no supported scheme.
    UnknownCompression(u8),
    /// The compressed payload does not inflate.
    Decompress,
    /// The inflated payload is not a valid chunk document.
    Decode(de::Error),
}

/// What a gzip stream inflates to; a function of the bytes alone.
pub uninterp spec fn gunzip_of(b: Seq<u8>) -> Seq<u8>;

/// Whether a gzip stream inflates at all; a function of the bytes alone.
pub uninterp spec fn gunzip_ok(b: Seq<u8>) -> bool;

/// What a zlib stream inflates to; a function of the bytes alone.
pub uninterp spec fn zlib_inflate_of(b: Seq<u8>) -> Seq<u8>;

/// Whether a zlib stream inflates at all; a function of the bytes alone.
pub uninterp spec fn zlib_inflate_ok(b: Seq<u8>) -> bool;

/// What an lz4 frame decodes to; a function of the bytes alone.
pub uninterp spec fn lz4_frame_of(b: Seq<u8>) -> Seq<u8>;

/// Whether an lz4 frame decodes at all; a function of the bytes alone.
pub uninterp spec fn lz4_frame_ok(b: Seq<u8>) -> bool;

/// Relies on flate2's gzip decoder over a byte slice: whether a gzip
/// stream inflates, and to which bytes, depends on the bytes alone.
#[verifier::external_body]
fn gzip_decode(data: &[u8]) -> (r: Option<Vec<u8>>)
    ensures
        r is Some <==> gunzip_ok(data@),
        r is Some ==> r->0@ == gunzip_of(data@),
{
    let mut out = Vec::new();
    let mut dec = flate2::bufread::GzDecoder::new(data);
    match std::io::Read::read_to_end(&mut dec, &mut out) {
        Ok(_) => Some(out),
        Err(_) => None,
    }
}

/// Relies on flate2's zlib decoder over a byte slice: whether a zlib
/// stream inflates, and to which bytes, depends on the bytes alone.
#[verifier::external_body]
fn zlib_decode(data: &[u8]) -> (r: Option<Vec<u8>>)
    ensures
        r is Some <==> zlib_inflate_ok(data@),
        r is Some ==> r->0@ == zlib_inflate_of(data@),
{
    let mut out = Vec::new();
    let mut dec = flate2::bufread::ZlibDecoder::new(data);
    match std::io::Read::read_to_end(&mut dec, &mut out) {
        Ok(_) => Some(out),
        Err(_) => None,
    }
}

/// Relies on lz4_flex's frame decoder over a byte slice: whether an lz4
/// frame decodes, and to which bytes, depends on the bytes alone.
#[verifier::external_body]
fn lz4_decode(data: &[u8]) -> (r: Option<Vec<u8>>)
    ensures
        r is Some <==> lz4_frame_ok(data@),
        r is Some ==> r->0@ == lz4_frame_of(data@),
{
    let mut out = Vec::new();
    let mut dec = lz4_flex::frame::FrameDecoder::new(data);
    match std::io::Read::read_to_end(&mut dec, &mut out) {
        Ok(_) => Some(out),
        Err(_) => None,
    }
}

/// The frame of a stored chunk: its 32-bit payload length counts the
/// compression byte plus the compressed bytes that follow it.
pub open spec fn frame_of(d: Seq<u8>, pos: int) -> Option<(u8, Seq<u8>)> {
    if pos + 5 <= d.len() {
        let len = u32_be(d[pos], d[pos + 1], d[pos + 2], d[pos + 3]) as int;
        if len >= 1 && pos + 4 + len <= d.len() {
            Some((d[pos + 4], d.subrange(pos + 5, pos + 4 + len)))
        } else {
            None
        }
    } else {
        None
    }
}

/// What a compressed payload becomes for each compression byte: 1 is gzip,
/// 2 is zlib, 3 is stored as it is, 4 is an lz4 frame.
pub open spec fn decompressed(comp: u8, b: Seq<u8>) -> Option<Seq<u8>> {
    if comp == 1 {
        if gunzip_ok(b) {
            Some(gunzip_of(b))
        } else {
            None
        }
    } else if comp == 2 {
        if zlib_inflate_ok(b) {
            Some(zlib_inflate_of(b))
        } else {
            None
        }
    } else if comp == 3 {
        Some(b)
    } else if comp == 4 {
        if lz4_frame_ok(b) {
            Some(lz4_frame_of(b))
        } else {
            None
        }
    } else {
        None
    }
}

/// How the result of reading one stored chunk at byte position `pos`
/// relates to the bytes: exact on every path, except that a document that
/// is not a chunk compound yields some decode error.
pub open spec fn chunk_read_outcome(d: Seq<u8>, pos: int, r: Result<Chunk, Error>) -> bool {
    match frame_of(d, pos) {
        None => r == Result::<Chunk, Error>::Err(Error::Truncated),
        Some((comp, payload)) => {
            if !(comp == 1 || comp == 2 || comp == 3 || comp == 4) {
                r == Result::<Chunk, Error>::Err(Error::UnknownCompression(comp))
            } else {
                match decompressed(comp, payload) {
                    None => r == Result::<Chunk, Error>::Err(Error::Decompress),
                    Some(bytes) => match dec_document(bytes) {
                        Err(e) => r == Result::<Chunk, Error>::Err(Error::Decode(e)),
                        Ok(p) => {
                            if p.1 matches TagView::Compound(es) && chunk_ok(es) {
                                r is Ok && chunk_matches(r->Ok_0, p.1->Compound_0)
                            } else {
                                r matches Err(Error::Decode(_))
                            }
                        },
                    },
                }
            }
        },
    }
}

/// Whether the bytes at `pos` read as one stored chunk: the frame is
/// whole, the compression byte is known, the payload decompresses, and
/// the decompressed document is a well-formed chunk compound.
pub open spec fn chunk_read_ok(d: Seq<u8>, pos: int) -> bool {
    match frame_of(d, pos) {
        None => false,
        Some((comp, payload)) => {
            &&& comp == 1 || comp == 2 || comp == 3 || comp == 4
            &&& match decompressed(comp, payload) {
                None => false,
                Some(bytes) => match dec_document(bytes) {
                    Err(_) => false,
                    Ok(p) => p.1 is Compound && chunk_ok(p.1->Compound_0),
                },
            }
        },
    }
}

/// A read's outcome succeeds exactly when the bytes read as a chunk.
pub proof fn lemma_chunk_read_outcome_ok(d: Seq<u8>, pos: int, r: Result<Chunk, Error>)
    requires
        chunk_read_outcome(d, pos, r),
    ensures
        r is Ok <==> chunk_read_ok(d, pos),
{
    match frame_of(d, pos) {
        None => {},
        Some((comp, payload)) => {
            if comp == 1 || comp == 2 || comp == 3 || comp == 4 {
                match decompressed(comp, payload) {
                    None => {},
                    Some(bytes) => {
                        match dec_document(bytes) {
                            Err(_) => {},
                            Ok(p) => {},
                        }
                    },
                }
            }
        },
    }
}

/// Reads and decodes the chunk stored at byte position `pos`.
pub fn parse_chunk(data: &[u8], pos: usize) -> (r: Result<Chunk, Error>)
    ensures
        chunk_read_outcome(data@, pos as int, r),
{
    let n = data.len();
    if pos >= n || n - pos < 5 {
        return Err(Error::Truncated);
    }
    let b0 = data[pos];
    let b1 = data[pos + 1];
    let b2 = data[pos + 2];
    let b3 = data[pos + 3];
    let length = ((b0 as u32) << 24u32) | ((b1 as u32) << 16u32) | ((b2 as u32) << 8u32) | (
    b3 as u32);
    let compression = data[pos + 4];
    if length < 1 {
        return Err(Error::Truncated);
    }
    if (length as u64) > (n - pos - 4) as u64 {
        return Err(Error::Truncated);
    }
    let payload = vstd::slice::slice_subrange(data, pos + 5, pos + 4 + (length as usize));
    let ghost payload_view = payload@;
    let decompressed_bytes: Vec<u8> = if compression == 1 {
        match gzip_decode(payload) {
            Some(v) => v,
            None => {
                return Err(Error::Decompress);
            },
        }
    } else if compression == 2 {
        match zlib_decode(payload) {
            Some(v) => v,
            None => {
                return Err(Error::Decompress);
            },
        }
    } else if compression == 3 {
        vstd::slice::slice_to_vec(payload)
    } else if compression == 4 {
        match lz4_decode(payload) {
            Some(v) => v,
            None => {
                return Err(Error::Decompress);
            },
        }
    } else {
        return Err(Error::UnknownCompression(compression));
    };
    let tag = match de::from_slice(decompressed_bytes.as_slice()) {
        Ok(t) => t,
        Err(e) => {
            return Err(Error::Decode(e));
        },
    };
    match Chunk::from_tag(&tag) {
        Ok(c) => Ok(c),
        Err(e) => Err(Error::Decode(e)),
    }
}

/// The location-table entry for chunk (x, z): its sector offset, from a
/// 24-bit big-endian value.
pub open spec fn location_at(d: Seq<u8>, x: int, z: int) -> u32 {
    u32_be(0, d[(z * 32 + x) * 4], d[(z * 32 + x) * 4 + 1], d[(z * 32 + x) * 4 + 2])
}

/// Reads and decodes the chunk at region-relative chunk coordinates
/// (x, z). A zero location-table entry means the chunk is absent; a
/// nonzero entry addresses the chunk's frame at that sector, and the
/// result is exactly the frame read at that byte position.
pub fn parse_chunk_at(data: &[u8], x: u8, z: u8) -> (r: Result<Chunk, Error>)
    requires
        x < 32,
        z < 32,
    ensures
        data@.len() < 4096 ==> r == Result::<Chunk, Error>::Err(Error::Truncated),
        data@.len() >= 4096 ==> ({
            let loc = location_at(data@, x as int, z as int);
            if loc == 0 {
                r == Result::<Chunk, Error>::Err(Error::ChunkAbsent)
            } else if loc * 4096 > usize::MAX {
                r == Result::<Chunk, Error>::Err(Error::Truncated)
            } else {
                chunk_read_outcome(data@, loc * 4096, r)
            }
        }),
{
    let n = data.len();
    if n < 4096 {
        return Err(Error::Truncated);
    }
    let offset = ((z as usize) * 32 + (x as usize)) * 4;
    let loc = ((data[offset] as u32) << 16u32) | ((data[offset + 1] as u32) << 8u32) | (
    data[offset + 2] as u32);
    proof {
        let d = data@;
        let xi = x as int;
        let zi = z as int;
        let l0 = d[(zi * 32 + xi) * 4];
        let l1 = d[(zi * 32 + xi) * 4 + 1];
        let l2 = d[(zi * 32 + xi) * 4 + 2];
        assert(((l0 as u32) << 16) | ((l1 as u32) << 8) | (l2 as u32) == u32_be(0, l0, l1, l2))
            by (bit_vector);
    }
    if loc == 0 {
        return Err(Error::ChunkAbsent);
    }
    let byte_pos = (loc as u64) * 4096u64;
    if byte_pos > usize::MAX as u64 {
        return Err(Error::Truncated);
    }
    parse_chunk(data, byte_pos as usize)
}

/// The byte positions of the chunks the first `k` location-table entries
/// say are present, in table order (row-major, `z` then `x`).
pub open spec fn present_positions(d: Seq<u8>, k: int) -> Seq<int>
    decreases k,
{
    if k <= 0 {
        Seq::empty()
    } else {
        let prev = present_positions(d, k - 1);
        let loc = location_at(d, (k - 1) % 32, (k - 1) / 32);
        if loc != 0 {
            prev.push(loc * 4096)
        } else {
            prev
        }
    }
}

/// Earlier table prefixes list a prefix of the same positions.
proof fn lemma_present_positions_prefix(d: Seq<u8>, k1: int, k2: int)
    requires
        0 <= k1 <= k2,
    ensures
        present_positions(d, k1).len() <= present_positions(d, k2).len(),
        present_positions(d, k1) == present_positions(d, k2).take(
            present_positions(d, k1).len() as int,
        ),
    decreases k2 - k1,
{
    if k1 == k2 {
        assert(present_positions(d, k2).take(present_positions(d, k1).len() as int)
            =~= present_positions(d, k1));
    } else {
        lemma_present_positions_prefix(d, k1, k2 - 1);
        let prev = present_positions(d, k2 - 1);
        let cur = present_positions(d, k2);
        let l1 = present_positions(d, k1).len() as int;
        assert(cur == prev || cur == prev.push(location_at(d, (k2 - 1) % 32, (k2 - 1) / 32)
            * 4096));
        assert(cur.take(l1) =~= prev.take(l1));
    }
}

/// Whether every chunk the table lists is within the address space and
/// reads as a chunk.
pub open spec fn region_read_ok(d: Seq<u8>) -> bool {
    forall|i: int|
        0 <= i < present_positions(d, 1024).len() ==> (#[trigger] present_positions(d, 1024)[i])
            <= usize::MAX && chunk_read_ok(d, present_positions(d, 1024)[i])
}

/// Reads every chunk the location table lists, in table order (row-major,
/// `z` then `x`). The read succeeds exactly when every listed chunk reads
/// as a chunk; the first failing chunk fails the whole read with its own
/// error, and nothing is skipped.
#[verifier::loop_isolation(false)]
pub fn parse_region(data: &[u8]) -> (r: Result<Vec<Chunk>, Error>)
    ensures
        data@.len() < 8192 ==> r == Result::<Vec<Chunk>, Error>::Err(Error::Truncated),
        data@.len() >= 8192 ==> (r is Ok <==> region_read_ok(data@)),
        r is Ok ==> r->Ok_0@.len() == present_positions(data@, 1024).len() && (forall|i: int|
            0 <= i < r->Ok_0@.len() ==> chunk_read_outcome(
                data@,
                #[trigger] present_positions(data@, 1024)[i],
                Result::<Chunk, Error>::Ok(r->Ok_0@[i]),
            )),
        data@.len() >= 8192 && r is Err ==> (exists|i: int|
            0 <= i < present_positions(data@, 1024).len() && (forall|h: int|
                0 <= h < i ==> (#[trigger] present_positions(data@, 1024)[h]) <= usize::MAX
                    && chunk_read_ok(data@, present_positions(data@, 1024)[h])) && (if (
            #[trigger] present_positions(data@, 1024)[i]) > usize::MAX {
                r == Result::<Vec<Chunk>, Error>::Err(Error::Truncated)
            } else {
                chunk_read_outcome(
                    data@,
                    present_positions(data@, 1024)[i],
                    Result::<Chunk, Error>::Err(r->Err_0),
                )
            })),
{
    let n = data.len();
    if n < 8192 {
        return Err(Error::Truncated);
    }
    let ghost full = present_positions(data@, 1024);
    let mut chunks: Vec<Chunk> = Vec::new();
    let mut k: usize = 0;
    while k < 1024
        invariant
            k <= 1024,
            chunks@.len() == present_positions(data@, k as int).len(),
            forall|i: int|
                0 <= i < chunks@.len() ==> (#[trigger] full[i]) <= usize::MAX && chunk_read_ok(
                    data@,
                    full[i],
                ) && chunk_read_outcome(data@, full[i], Result::<Chunk, Error>::Ok(
                    chunks@[i],
                )),
        decreases 1024 - k,
    {
        proof {
            lemma_present_positions_prefix(data@, k as int, 1024);
            lemma_present_positions_prefix(data@, k + 1, 1024);
        }
        let z = k / 32;
        let x = k % 32;
        let offset = (z * 32 + x) * 4;
        proof {
            assert(z * 32 + x == k) by (nonlinear_arith)
                requires
                    z == k as int / 32,
                    x == k as int % 32,
            ;
            assert(offset + 3 <= 4096) by (nonlinear_arith)
                requires
                    offset == k * 4,
                    k < 1024,
            ;
        }
        let loc = ((data[offset] as u32) << 16u32) | ((data[offset + 1] as u32) << 8u32) | (
        data[offset + 2] as u32);
        proof {
            let d = data@;
            let l0 = d[offset as int];
            let l1 = d[offset as int + 1];
            let l2 = d[offset as int + 2];
            assert(((l0 as u32) << 16) | ((l1 as u32) << 8) | (l2 as u32) == u32_be(0, l0, l1,
                l2)) by (bit_vector);
            assert(location_at(d, x as int, z as int) == u32_be(0, l0, l1, l2));
        }
        if loc != 0 {
            let ghost idx = chunks@.len() as int;
            proof {
                assert(present_positions(data@, k + 1) == present_positions(
                    data@,
                    k as int,
                ).push(loc * 4096));
                assert(idx < present_positions(data@, k + 1).len());
                assert(full[idx] == present_positions(data@, k + 1)[idx]);
                assert(full[idx] == loc * 4096);
            }
            let byte_pos = (loc as u64) * 4096u64;
            if byte_pos > usize::MAX as u64 {
                proof {
                    assert(!region_read_ok(data@));
                }
                return Err(Error::Truncated);
            }
            let c = match parse_chunk(data, byte_pos as usize) {
                Ok(c) => c,
                Err(e) => {
                    proof {
                        lemma_chunk_read_outcome_ok(data@, loc * 4096, Result::<
                            Chunk,
                            Error,
                        >::Err(e));
                        assert(!region_read_ok(data@));
                    }
                    return Err(e);
                },
            };
            proof {
                lemma_chunk_read_outcome_ok(data@, loc * 4096, Result::<Chunk, Error>::Ok(c));
            }
            chunks.push(c);
        } else {
            proof {
                assert(present_positions(data@, k + 1) == present_positions(data@, k as int));
            }
        }
        k += 1;
    }
    proof {
        assert(chunks@.len() == full.len());
        assert(region_read_ok(data@));
    }
    Ok(chunks)
}

} // verus!
