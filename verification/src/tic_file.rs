//! The cartridge container: a sequence of chunks, each a header byte (type in
//! the low five bits, bank above), a 16-bit little-endian length, one reserved
//! byte, and the payload. A trailing chunk may omit everything after the
//! header byte when its payload is empty.

use vstd::prelude::*;

use crate::PackError;

verus! {

/// One cartridge chunk.
#[derive(Debug)]
pub struct Chunk {
    pub type_: u8,
    pub bank: u8,
    pub data: Vec<u8>,
}

/// The chunks read from `b[i..]`.
pub open spec fn chunks_of(b: Seq<u8>, i: int) -> Seq<(u8, u8, Seq<u8>)>
    decreases b.len() - i,
    when 0 <= i
{
    if b.len() - i <= 1 {
        Seq::empty()
    } else {
        let hdr = b[i];
        let t = hdr & 31;
        let bank = hdr >> 5;
        let i1 = i + 1;
        let len: int = if b.len() - i1 >= 2 {
            b[i1] + 256 * b[i1 + 1]
        } else {
            0
        };
        let i2: int = if b.len() - i1 >= 2 {
            i1 + 2
        } else {
            i1
        };
        if b.len() - i2 >= 1 + len {
            seq![(t, bank, b.subrange(i2 + 1, i2 + 1 + len))] + chunks_of(b, i2 + 1 + len)
        } else {
            seq![(t, bank, Seq::<u8>::empty())]
        }
    }
}

pub open spec fn chunk_views(cs: Seq<Chunk>) -> Seq<(u8, u8, Seq<u8>)> {
    Seq::new(cs.len(), |i: int| (cs[i].type_, cs[i].bank, cs[i].data@))
}

/// Parses a cartridge image into its chunks.
#[verifier::loop_isolation(false)]
#[verifier::rlimit(60)]
pub fn parse_chunks(b: &[u8]) -> (r: Vec<Chunk>)
    ensures
        chunk_views(r@) == chunks_of(b@, 0),
{
    let mut out: Vec<Chunk> = Vec::new();
    let mut i: usize = 0;
    proof {
        assert(chunk_views(out@) =~= Seq::<(u8, u8, Seq<u8>)>::empty());
        assert(chunk_views(out@) + chunks_of(b@, 0) =~= chunks_of(b@, 0));
    }
    loop
        invariant
            i <= b@.len(),
            chunk_views(out@) + chunks_of(b@, i as int) == chunks_of(b@, 0),
        decreases b@.len() - i,
    {
        if b.len() - i <= 1 {
            proof {
                assert(chunks_of(b@, i as int) =~= Seq::<(u8, u8, Seq<u8>)>::empty());
                assert(chunk_views(out@) =~= chunk_views(out@) + Seq::<(u8, u8, Seq<u8>)>::empty());
            }
            return out;
        }
        let ghost i0 = i as int;
        let hdr = b[i];
        let t = hdr & 31;
        let bank = hdr >> 5;
        let i1 = i + 1;
        let (len, i2): (usize, usize) = if b.len() - i1 >= 2 {
            ((b[i1] as usize) + 256 * (b[i1 + 1] as usize), i1 + 2)
        } else {
            (0, i1)
        };
        if b.len() - i2 >= 1 + len {
            let data = crate::tokenizer::copy_byte_range(b, i2 + 1, i2 + 1 + len);
            out.push(Chunk { type_: t, bank, data });
            i = i2 + 1 + len;
        } else {
            out.push(Chunk { type_: t, bank, data: Vec::new() });
            i = b.len();
            proof {
                assert(chunks_of(b@, i as int) =~= Seq::<(u8, u8, Seq<u8>)>::empty());
            }
        }
        proof {
            let v = chunk_views(out@);
            assert(v =~= chunk_views(out@.drop_last()).push(
                (out@.last().type_, out@.last().bank, out@.last().data@),
            ));
            assert(chunk_views(out@) + chunks_of(b@, i as int) =~= chunks_of(b@, 0));
        }
    }
}

/// The bytes a chunk list writes: the length and reserved byte are omitted
/// for a last, empty chunk unless it is the new-palette marker.
pub open spec fn chunks_bytes(cs: Seq<(u8, u8, Seq<u8>)>, i: int) -> Seq<u8>
    decreases cs.len() - i,
{
    if i < 0 || i >= cs.len() {
        Seq::empty()
    } else {
        let (t, bank, data) = cs[i];
        let hdr = seq![(t | (bank << 5)) as u8];
        let with_len: Seq<u8> = if i + 1 < cs.len() || data.len() > 0 || t != 0x11 {
            hdr + seq![(data.len() as u8), ((data.len() as int / 256) as u8)]
        } else {
            hdr
        };
        let full: Seq<u8> = if i + 1 < cs.len() || data.len() > 0 {
            with_len + seq![0u8] + data
        } else {
            with_len
        };
        full + chunks_bytes(cs, i + 1)
    }
}

/// Serialises a chunk list to a cartridge image.
#[verifier::loop_isolation(false)]
#[verifier::rlimit(60)]
pub fn serialize_chunks(cs: &Vec<Chunk>) -> (r: Vec<u8>)
    requires
        forall|i: int| 0 <= i < cs@.len() ==> (#[trigger] cs@[i]).data@.len() <= 0xFFFF,
    ensures
        r@ == chunks_bytes(chunk_views(cs@), 0),
{
    let ghost v = chunk_views(cs@);
    let mut out: Vec<u8> = Vec::new();
    let mut i: usize = 0;
    proof {
        assert(out@ =~= Seq::<u8>::empty());
        assert(out@ + chunks_bytes(v, 0) =~= chunks_bytes(v, 0));
    }
    while i < cs.len()
        invariant
            i <= cs@.len(),
            out@ + chunks_bytes(v, i as int) == chunks_bytes(v, 0),
        decreases cs@.len() - i,
    {
        let ghost ii = i as int;
        let ghost out0 = out@;
        let c = &cs[i];
        proof {
            assert(v[ii] == (c.type_, c.bank, c.data@));
        }
        out.push(c.type_ | (c.bank << 5));
        let dlen = c.data.len();
        if i + 1 < cs.len() || dlen > 0 || c.type_ != 0x11 {
            out.push((dlen % 256) as u8);
            out.push((dlen / 256) as u8);
            proof {
                let d = dlen;
                assert((d % 256) as u8 == d as u8) by (bit_vector);
            }
        }
        if i + 1 < cs.len() || dlen > 0 {
            out.push(0);
            let mut k: usize = 0;
            let ghost outk = out@;
            while k < dlen
                invariant
                    k <= c.data@.len(),
                    dlen == c.data@.len(),
                    out@ == outk + c.data@.subrange(0, k as int),
                decreases c.data@.len() - k,
            {
                out.push(c.data[k]);
                proof {
                    assert(outk + c.data@.subrange(0, k + 1) =~= (outk + c.data@.subrange(
                        0,
                        k as int,
                    )).push(c.data@[k as int]));
                }
                k = k + 1;
            }
            proof {
                assert(c.data@.subrange(0, c.data@.len() as int) =~= c.data@);
            }
        }
        proof {
            assert(out@ =~= out0 + (out@.subrange(out0.len() as int, out@.len() as int)));
            assert(out@ + chunks_bytes(v, ii + 1) =~= chunks_bytes(v, 0));
        }
        i = i + 1;
    }
    proof {
        assert(chunks_bytes(v, cs@.len() as int) =~= Seq::<u8>::empty());
        assert(out@ =~= out@ + Seq::<u8>::empty());
    }
    out
}

/// The chunk list of an empty cartridge: an empty code chunk, and the
/// new-palette marker when asked for.
pub fn empty_cart_chunks(new_palette: bool) -> (r: Vec<Chunk>)
    ensures
        r@.len() == if new_palette {
            2int
        } else {
            1int
        },
        r@[0].type_ == 0x05 && r@[0].bank == 0 && r@[0].data@.len() == 0,
        new_palette ==> r@[1].type_ == 0x11 && r@[1].bank == 0 && r@[1].data@.len() == 0,
{
    let mut out: Vec<Chunk> = Vec::new();
    out.push(Chunk { type_: 0x05, bank: 0, data: Vec::new() });
    if new_palette {
        out.push(Chunk { type_: 0x11, bank: 0, data: Vec::new() });
    }
    out
}


/// The code a cartridge holds: the first uncompressed code chunk, or the
/// first compressed one inflated (its two zlib header bytes stripped).
/// Decoding failures and a missing code chunk are errors.
pub open spec fn code_choice(cs: Seq<(u8, u8, Seq<u8>)>, i: int) -> Option<(u8, Seq<u8>)>
    decreases cs.len() - i,
{
    if i < 0 || i >= cs.len() {
        None
    } else {
        let (t, bank, data) = cs[i];
        if t == 0x05 {
            Some((t, data))
        } else if t == 0x10 {
            Some((t, data))
        } else {
            code_choice(cs, i + 1)
        }
    }
}

/// Extracts the cartridge's code: chunk kind 5 as it stands, kind 16
/// inflated. `MissingCode` exactly when no code chunk exists; `Decompress`
/// exactly when the first code chunk is compressed and will not inflate.
#[verifier::loop_isolation(false)]
pub fn code_from_chunks(cs: &Vec<Chunk>) -> (r: Result<Vec<u8>, PackError>)
    ensures
        match code_choice(chunk_views(cs@), 0) {
            Some((t, data)) => {
                if t == 0x05 {
                    r matches Ok(code) && code@ == data
                } else if data.len() >= 2 {
                    match crate::compress::inflate_opt(data.subrange(2, data.len() as int)) {
                        Some(un) => r matches Ok(code) && code@ == un,
                        None => r == Err::<Vec<u8>, PackError>(PackError::Decompress),
                    }
                } else {
                    r == Err::<Vec<u8>, PackError>(PackError::Decompress)
                }
            },
            None => r == Err::<Vec<u8>, PackError>(PackError::MissingCode),
        },
{
    let ghost v = chunk_views(cs@);
    let mut i: usize = 0;
    while i < cs.len()
        invariant
            i <= cs@.len(),
            code_choice(v, i as int) == code_choice(v, 0),
        decreases cs@.len() - i,
    {
        let ghost ii = i as int;
        let c = &cs[i];
        proof {
            assert(v[ii] == (c.type_, c.bank, c.data@));
        }
        if c.type_ == 0x05 {
            let mut out: Vec<u8> = Vec::new();
            let mut k: usize = 0;
            while k < c.data.len()
                invariant
                    k <= c.data@.len(),
                    out@ == c.data@.subrange(0, k as int),
                decreases c.data@.len() - k,
            {
                out.push(c.data[k]);
                proof {
                    assert(c.data@.subrange(0, k + 1) =~= c.data@.subrange(0, k as int).push(
                        c.data@[k as int],
                    ));
                }
                k = k + 1;
            }
            proof {
                assert(out@ =~= c.data@);
            }
            return Ok(out);
        }
        if c.type_ == 0x10 {
            if c.data.len() < 2 {
                return Err(PackError::Decompress);
            }
            let body = crate::tokenizer::copy_byte_range(
                c.data.as_slice(),
                2,
                c.data.len(),
            );
            match crate::compress::inflate(body.as_slice()) {
                Some(un) => {
                    return Ok(un);
                },
                None => {
                    return Err(PackError::Decompress);
                },
            }
        }
        i = i + 1;
    }
    Err(PackError::MissingCode)
}

} // verus!
