use vstd::prelude::*;
use crate::error::Error;
use vstd::slice::slice_to_vec as vslice_to_vec;

verus! {

/// Size of the physical record header: checksum (4), length (2), kind (1).
pub const HEADER_SIZE: usize = 7;

/// Rest of the block is padding.
pub const R_KIND_ZERO: u8 = 0x0;
/// A whole logical record in a single fragment.
pub const R_KIND_FULL: u8 = 0x1;
/// First fragment of a logical record.
pub const R_KIND_FIRST: u8 = 0x2;
/// Middle fragment of a logical record.
pub const R_KIND_MIDDLE: u8 = 0x3;
/// Final fragment of a logical record.
pub const R_KIND_LAST: u8 = 0x4;

/// The CRC-32 (IEEE) of a byte sequence.
pub uninterp spec fn crc32_of(s: Seq<u8>) -> u32;

/// Relies on crc32fast::hash: the CRC-32 of the bytes, a function of them alone.
#[verifier::external_body]
fn checksum(buf: &[u8]) -> (r: u32)
    ensures
        r == crc32_of(buf@),
{
    crc32fast::hash(buf)
}

/// Little-endian bytes of a 16-bit integer.
pub open spec fn le16(x: u16) -> Seq<u8> {
    seq![x as u8, (x >> 8u16) as u8]
}

/// Little-endian bytes of a 32-bit integer.
pub open spec fn le32(x: u32) -> Seq<u8> {
    seq![x as u8, (x >> 8u32) as u8, (x >> 16u32) as u8, (x >> 24u32) as u8]
}

/// The 16-bit little-endian integer stored at `i`.
pub open spec fn u16_at(b: Seq<u8>, i: int) -> u16 {
    (b[i] as u16) | ((b[i + 1] as u16) << 8u16)
}

/// The 32-bit little-endian integer stored at `i`.
pub open spec fn u32_at(b: Seq<u8>, i: int) -> u32 {
    (b[i] as u32) | ((b[i + 1] as u32) << 8u32) | ((b[i + 2] as u32) << 16u32) | ((b[i
        + 3] as u32) << 24u32)
}

/// What the checksum of a physical record covers: its kind, then its payload.
pub open spec fn checksum_input(kind: u8, frag: Seq<u8>) -> Seq<u8> {
    seq![kind] + frag
}

/// The bytes of a physical record: checksum, length, kind, payload.
pub open spec fn record_bytes(kind: u8, frag: Seq<u8>) -> Seq<u8> {
    le32(crc32_of(checksum_input(kind, frag))) + le16(frag.len() as u16) + seq![kind] + frag
}

/// The payload length declared by the header at `pos`.
pub open spec fn declared_len(b: Seq<u8>, pos: int) -> int {
    u16_at(b, pos + 4) as int
}

/// The physical record at `pos`, as the header there describes it: its kind and
/// payload, or why it cannot be read.
pub open spec fn decode_at(b: Seq<u8>, pos: int) -> Result<(u8, Seq<u8>), Error> {
    if pos + HEADER_SIZE > b.len() {
        Err(Error::Truncated)
    } else if pos + HEADER_SIZE + declared_len(b, pos) > b.len() {
        Err(Error::Truncated)
    } else {
        let kind = b[pos + 6];
        let frag = b.subrange(pos + HEADER_SIZE, pos + HEADER_SIZE + declared_len(b, pos));
        if u32_at(b, pos) != crc32_of(checksum_input(kind, frag)) {
            Err(Error::ChecksumMismatch)
        } else {
            Ok((kind, frag))
        }
    }
}

proof fn lemma_le16(x: u16)
    ensures
        u16_at(le16(x), 0) == x,
{
    let b0 = x as u8;
    let b1 = (x >> 8u16) as u8;
    assert(((b0 as u16) | ((b1 as u16) << 8u16)) == x) by (bit_vector)
        requires
            b0 == x as u8,
            b1 == (x >> 8u16) as u8,
    ;
}

proof fn lemma_le32(x: u32)
    ensures
        u32_at(le32(x), 0) == x,
{
    let b0 = x as u8;
    let b1 = (x >> 8u32) as u8;
    let b2 = (x >> 16u32) as u8;
    let b3 = (x >> 24u32) as u8;
    assert(((b0 as u32) | ((b1 as u32) << 8u32) | ((b2 as u32) << 16u32) | ((b3 as u32)
        << 24u32)) == x) by (bit_vector)
        requires
            b0 == x as u8,
            b1 == (x >> 8u32) as u8,
            b2 == (x >> 16u32) as u8,
            b3 == (x >> 24u32) as u8,
    ;
}

/// A physical record stored at `pos` of `b` decodes to its kind and payload.
pub proof fn lemma_decode_record_at(b: Seq<u8>, pos: int, kind: u8, frag: Seq<u8>)
    requires
        0 <= pos,
        frag.len() <= u16::MAX,
        pos + HEADER_SIZE + frag.len() <= b.len(),
        b.subrange(pos, pos + HEADER_SIZE + frag.len()) == record_bytes(kind, frag),
    ensures
        decode_at(b, pos) == Ok::<(u8, Seq<u8>), Error>((kind, frag)),
{
    let r = record_bytes(kind, frag);
    let n = frag.len() as u16;
    lemma_le16(n);
    lemma_le32(crc32_of(checksum_input(kind, frag)));
    assert(b[pos] == r[0] && b[pos + 1] == r[1] && b[pos + 2] == r[2] && b[pos + 3] == r[3]);
    assert(b[pos + 4] == r[4] && b[pos + 5] == r[5] && b[pos + 6] == r[6]);
    assert(u32_at(b, pos) == u32_at(r, 0));
    assert(u16_at(b, pos + 4) == u16_at(le16(n), 0));
    assert(b.subrange(pos + HEADER_SIZE, pos + HEADER_SIZE + frag.len()) =~= frag) by {
        assert forall|i: int| 0 <= i < frag.len() implies b[pos + HEADER_SIZE + i] == frag[i] by {
            assert(b[pos + HEADER_SIZE + i] == r[HEADER_SIZE + i]);
        }
    }
}

/// Decoding an encoded physical record gives back its kind and payload.
pub proof fn lemma_record_round_trip(kind: u8, frag: Seq<u8>)
    requires
        frag.len() <= u16::MAX,
    ensures
        decode_at(record_bytes(kind, frag), 0) == Ok::<(u8, Seq<u8>), Error>((kind, frag)),
{
    let r = record_bytes(kind, frag);
    assert(r.subrange(0, r.len() as int) =~= r);
    lemma_decode_record_at(r, 0, kind, frag);
}

/// Appends `src` to `out`.
pub(crate) fn append_bytes(out: &mut Vec<u8>, src: &[u8])
    ensures
        final(out)@ == old(out)@ + src@,
{
    let mut i: usize = 0;
    while i < src.len()
        invariant
            0 <= i <= src@.len(),
            out@ == old(out)@ + src@.subrange(0, i as int),
        decreases src@.len() - i,
    {
        out.push(src[i]);
        i = i + 1;
        assert(src@.subrange(0, i as int) =~= src@.subrange(0, i - 1) + seq![src@[i - 1]]);
    }
    assert(src@.subrange(0, i as int) =~= src@);
}

/// A physical record: one fragment of a logical record, with its header.
#[derive(Debug)]
pub struct Record {
    pub crc32: u32,
    pub size: u16,
    pub kind: u8,
    pub payload: Vec<u8>,
}

impl Record {
    /// The header agrees with the payload: its length, and the checksum of kind and payload.
    pub open spec fn wf(&self) -> bool {
        &&& self.size as int == self.payload@.len()
        &&& self.crc32 == crc32_of(checksum_input(self.kind, self.payload@))
    }

    /// Frames `payload` as a physical record of the given kind.
    pub fn new(kind: u8, payload: &[u8]) -> (r: Record)
        requires
            payload@.len() <= u16::MAX,
        ensures
            r.wf(),
            r.kind == kind,
            r.payload@ == payload@,
    {
        let mut input: Vec<u8> = Vec::new();
        input.push(kind);
        append_bytes(&mut input, payload);
        assert(input@ =~= checksum_input(kind, payload@));
        let crc = checksum(input.as_slice());
        Record { crc32: crc, size: payload.len() as u16, kind, payload: vslice_to_vec(payload) }
    }

    /// Appends the record's bytes to `out`.
    pub fn encode_into(&self, out: &mut Vec<u8>)
        requires
            self.wf(),
        ensures
            final(out)@ == old(out)@ + record_bytes(self.kind, self.payload@),
    {
        let c = self.crc32;
        out.push(c as u8);
        out.push((c >> 8) as u8);
        out.push((c >> 16) as u8);
        out.push((c >> 24) as u8);
        out.push(self.size as u8);
        out.push((self.size >> 8) as u8);
        out.push(self.kind);
        append_bytes(out, self.payload.as_slice());
        assert(out@ =~= old(out)@ + record_bytes(self.kind, self.payload@));
    }

    /// The bytes of the record.
    pub fn encode(&self) -> (r: Vec<u8>)
        requires
            self.wf(),
        ensures
            r@ == record_bytes(self.kind, self.payload@),
    {
        let mut out: Vec<u8> = Vec::new();
        self.encode_into(&mut out);
        assert(out@ =~= record_bytes(self.kind, self.payload@));
        out
    }

    /// Reads the physical record that starts at `pos` of `buf`, checking its
    /// length and checksum.
    pub fn decode(buf: &[u8], pos: usize) -> (r: Result<Record, Error>)
        ensures
            match decode_at(buf@, pos as int) {
                Ok((kind, frag)) => r matches Ok(rec) && rec.wf() && rec.kind == kind
                    && rec.payload@ == frag,
                Err(e) => r matches Err(e2) && e2 == e,
            },
    {
        if buf.len() < HEADER_SIZE || pos > buf.len() - HEADER_SIZE {
            return Err(Error::Truncated);
        }
        let crc = (buf[pos] as u32) | ((buf[pos + 1] as u32) << 8) | ((buf[pos + 2] as u32)
            << 16) | ((buf[pos + 3] as u32) << 24);
        let size = (buf[pos + 4] as u16) | ((buf[pos + 5] as u16) << 8);
        let kind = buf[pos + 6];
        let start = pos + HEADER_SIZE;
        if size as usize > buf.len() - start {
            return Err(Error::Truncated);
        }
        let end = start + size as usize;
        let frag = vstd::slice::slice_subrange(buf, start, end);
        let mut input: Vec<u8> = Vec::new();
        input.push(kind);
        append_bytes(&mut input, frag);
        assert(input@ =~= checksum_input(kind, frag@));
        if checksum(input.as_slice()) != crc {
            return Err(Error::ChecksumMismatch);
        }
        Ok(Record { crc32: crc, size, kind, payload: vslice_to_vec(frag) })
    }
}

} // verus!
