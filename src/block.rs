use vstd::prelude::*;
use vstd::arithmetic::div_mod::lemma_fundamental_div_mod_converse;
use crate::error::Error;
use crate::record::{HEADER_SIZE, R_KIND_FULL, R_KIND_LAST, R_KIND_FIRST, R_KIND_MIDDLE, record_bytes, decode_at, lemma_decode_record_at, Record, append_bytes, declared_len, u32_at};

verus! {

/// Size of a block: physical records never cross a block boundary.
pub const BLOCK_SIZE: usize = 32768;

/// `n` zero bytes.
pub open spec fn zeros(n: int) -> Seq<u8> {
    Seq::new(n as nat, |i: int| 0u8)
}

/// Zero bytes that close the block before the next record, when the block
/// cursor stands at `off`: the rest of the block if a header no longer fits.
pub open spec fn padding(off: int) -> int {
    if BLOCK_SIZE - off < HEADER_SIZE {
        BLOCK_SIZE - off
    } else {
        0
    }
}

/// Where in its block the next record starts, when the cursor stands at `off`.
pub open spec fn record_start(off: int) -> int {
    if padding(off) > 0 {
        0
    } else {
        off
    }
}

/// Payload bytes that the next record can hold, when the cursor stands at `off`.
pub open spec fn room(off: int) -> int {
    BLOCK_SIZE - record_start(off) - HEADER_SIZE
}

/// The physical records (kind and payload) that a payload is cut into, when
/// the cursor stands at `off`: `first` tells whether the payload is a whole
/// logical record or the rest of one.
pub open spec fn fragments(off: int, p: Seq<u8>, first: bool) -> Seq<(u8, Seq<u8>)>
    decreases p.len(), off,
{
    let a = room(off);
    if p.len() <= a || a < 0 || off < 0 {
        seq![(if first { R_KIND_FULL } else { R_KIND_LAST }, p)]
    } else {
        seq![(if first { R_KIND_FIRST } else { R_KIND_MIDDLE }, p.subrange(0, a))] + fragments(
            0,
            p.subrange(a, p.len() as int),
            false,
        )
    }
}

/// The bytes of physical records laid back to back.
pub open spec fn records_bytes(fs: Seq<(u8, Seq<u8>)>) -> Seq<u8>
    decreases fs.len(),
{
    if fs.len() == 0 {
        Seq::empty()
    } else {
        record_bytes(fs[0].0, fs[0].1) + records_bytes(fs.drop_first())
    }
}

/// The payloads of physical records, joined.
pub open spec fn joined_payloads(fs: Seq<(u8, Seq<u8>)>) -> Seq<u8>
    decreases fs.len(),
{
    if fs.len() == 0 {
        Seq::empty()
    } else {
        fs[0].1 + joined_payloads(fs.drop_first())
    }
}

/// The bytes written for a payload when the cursor stands at `off`.
#[verifier::opaque]
pub open spec fn frame(off: int, p: Seq<u8>, first: bool) -> Seq<u8> {
    zeros(padding(off)) + records_bytes(fragments(off, p, first))
}

/// A frame is padding, one physical record, and the frame of what is left.
proof fn lemma_frame_unfold(off: int, p: Seq<u8>, first: bool)
    requires
        0 <= off < BLOCK_SIZE,
    ensures
        p.len() <= room(off) ==> frame(off, p, first) == zeros(padding(off)) + record_bytes(
            if first { R_KIND_FULL } else { R_KIND_LAST },
            p,
        ),
        p.len() > room(off) ==> frame(off, p, first) == zeros(padding(off)) + record_bytes(
            if first { R_KIND_FIRST } else { R_KIND_MIDDLE },
            p.subrange(0, room(off)),
        ) + frame(0, p.subrange(room(off), p.len() as int), false),
{
    reveal(frame);
    let a = room(off);
    let fs = fragments(off, p, first);
    assert(fs.drop_first().len() == 0 ==> records_bytes(fs.drop_first()) == Seq::<u8>::empty());
    if p.len() <= a {
        assert(fs.drop_first() =~= Seq::<(u8, Seq<u8>)>::empty());
        assert(records_bytes(fs) =~= record_bytes(fs[0].0, fs[0].1));
    } else {
        let rest = fragments(0, p.subrange(a, p.len() as int), false);
        assert(fs.drop_first() =~= rest);
        assert(zeros(padding(0)) =~= Seq::<u8>::empty());
        assert(frame(0, p.subrange(a, p.len() as int), false) =~= records_bytes(rest));
        assert(frame(off, p, first) =~= zeros(padding(off)) + record_bytes(fs[0].0, fs[0].1)
            + records_bytes(rest));
    }
}

/// Moving `k` bytes forward within a block moves the cursor by `k`, or to the
/// start of the next block when the block is full.
proof fn lemma_block_advance(n: int, k: int)
    requires
        0 <= n,
        0 <= k,
        n % (BLOCK_SIZE as int) + k <= BLOCK_SIZE,
    ensures
        (n + k) % (BLOCK_SIZE as int) == if n % (BLOCK_SIZE as int) + k == BLOCK_SIZE {
            0
        } else {
            n % (BLOCK_SIZE as int) + k
        },
{
    let b = BLOCK_SIZE as int;
    let q = n / b;
    let r = n % b;
    assert(n == q * b + r) by {
        vstd::arithmetic::div_mod::lemma_fundamental_div_mod(n, b);
    }
    if r + k == b {
        assert(n + k == (q + 1) * b + 0) by (nonlinear_arith)
            requires
                n == q * b + r,
                r + k == b,
        ;
        lemma_fundamental_div_mod_converse(n + k, b, q + 1, 0);
    } else {
        lemma_fundamental_div_mod_converse(n + k, b, q, r + k);
    }
}

/// What reading a logical record from `pos` of segment bytes `b` gives: the
/// payload and the position after it, or the fault met. `acc` holds the
/// payload gathered so far; `first` tells that no First fragment was seen.
pub open spec fn parse_from(b: Seq<u8>, pos: int, acc: Seq<u8>, first: bool) -> Result<
    (Seq<u8>, int),
    Error,
>
    decreases b.len() - pos,
{
    if pos < 0 || pos > b.len() {
        Err(Error::Truncated)
    } else {
        let start = pos + padding(pos % (BLOCK_SIZE as int));
        match decode_at(b, start) {
            Err(e) => Err(e),
            Ok((kind, frag)) => {
                let next = start + HEADER_SIZE + frag.len();
                if kind == R_KIND_FULL {
                    if first {
                        Ok((frag, next))
                    } else {
                        Err(Error::FramingError)
                    }
                } else if kind == R_KIND_FIRST {
                    if first {
                        parse_from(b, next, frag, false)
                    } else {
                        Err(Error::FramingError)
                    }
                } else if kind == R_KIND_MIDDLE {
                    if first {
                        Err(Error::FramingError)
                    } else {
                        parse_from(b, next, acc + frag, false)
                    }
                } else if kind == R_KIND_LAST {
                    if first {
                        Err(Error::FramingError)
                    } else {
                        Ok((acc + frag, next))
                    }
                } else {
                    Err(Error::FramingError)
                }
            },
        }
    }
}

/// The logical record read from `pos` of `b`.
pub open spec fn read_at(b: Seq<u8>, pos: int) -> Result<(Seq<u8>, int), Error> {
    parse_from(b, pos, Seq::empty(), true)
}

/// `b` holds the frame of payload `p` at `pos`.
pub open spec fn frame_at(b: Seq<u8>, pos: int, p: Seq<u8>, first: bool) -> bool {
    let f = frame(pos % (BLOCK_SIZE as int), p, first);
    &&& 0 <= pos
    &&& pos + f.len() <= b.len()
    &&& b.subrange(pos, pos + f.len()) == f
}

/// Reading a frame back gives its payload, and stops right after the frame.
pub proof fn lemma_frame_parses(b: Seq<u8>, pos: int, p: Seq<u8>, acc: Seq<u8>, first: bool)
    requires
        frame_at(b, pos, p, first),
    ensures
        parse_from(b, pos, acc, first) == Ok::<(Seq<u8>, int), Error>(
            ((if first { Seq::empty() } else { acc }) + p, pos + frame(pos % (BLOCK_SIZE as int), p, first).len()),
        ),
    decreases p.len(), pos % (BLOCK_SIZE as int),
{
    let bs = BLOCK_SIZE as int;
    let off = pos % bs;
    let f = frame(off, p, first);
    let pad = padding(off);
    let start = pos + pad;
    let a = room(off);
    lemma_frame_unfold(off, p, first);
    lemma_block_advance(pos, pad);
    assert(start % bs == record_start(off));
    if p.len() <= a {
        let kind = if first { R_KIND_FULL } else { R_KIND_LAST };
        let r = record_bytes(kind, p);
        assert(f == zeros(pad) + r);
        assert(b.subrange(start, start + HEADER_SIZE + p.len()) =~= r) by {
            assert forall|i: int| 0 <= i < r.len() implies b.subrange(start, start + HEADER_SIZE + p.len())[i] == r[i] by {
                assert(b.subrange(pos, pos + f.len())[pad + i] == f[pad + i]);
            }
        }
        lemma_decode_record_at(b, start, kind, p);
        assert(Seq::<u8>::empty() + p =~= p);
    } else {
        let kind = if first { R_KIND_FIRST } else { R_KIND_MIDDLE };
        let head = p.subrange(0, a);
        let tail = p.subrange(a, p.len() as int);
        let r = record_bytes(kind, head);
        let next = start + HEADER_SIZE + a;
        let g = frame(0, tail, false);
        assert(f == zeros(pad) + r + g);
        assert(b.subrange(start, start + HEADER_SIZE + head.len()) =~= r) by {
            assert forall|i: int| 0 <= i < r.len() implies b.subrange(start, start + HEADER_SIZE + head.len())[i] == r[i] by {
                assert(b.subrange(pos, pos + f.len())[pad + i] == f[pad + i]);
            }
        }
        lemma_decode_record_at(b, start, kind, head);
        lemma_block_advance(start, HEADER_SIZE + a);
        assert(next % bs == 0);
        assert(b.subrange(next, next + g.len()) =~= g) by {
            assert forall|i: int| 0 <= i < g.len() implies b.subrange(next, next + g.len())[i] == g[i] by {
                assert(b.subrange(pos, pos + f.len())[pad + r.len() + i] == f[pad + r.len() + i]);
            }
        }
        let acc2 = (if first { Seq::empty() } else { acc }) + head;
        lemma_frame_parses(b, next, tail, acc2, false);
        assert(acc2 + tail =~= (if first { Seq::empty() } else { acc }) + p);
    }
}

/// Reading back what `Block::write_payload` appended to segment bytes `seg`
/// gives the payload, and stops where the appended bytes end, whatever follows.
pub proof fn lemma_block_round_trip(seg: Seq<u8>, p: Seq<u8>, suffix: Seq<u8>)
    ensures
        ({
            let w = seg + frame(seg.len() as int % (BLOCK_SIZE as int), p, true);
            read_at(w + suffix, seg.len() as int) == Ok::<(Seq<u8>, int), Error>((p, w.len() as int))
        }),
{
    let f = frame(seg.len() as int % (BLOCK_SIZE as int), p, true);
    let b = seg + f + suffix;
    assert(b.subrange(seg.len() as int, seg.len() + f.len() as int) =~= f);
    lemma_frame_parses(b, seg.len() as int, p, Seq::empty(), true);
    assert(Seq::<u8>::empty() + p =~= p);
}

proof fn lemma_fragment_count(q: Seq<u8>, first: bool, n: int)
    requires
        n >= 1,
        (n - 1) * (BLOCK_SIZE - HEADER_SIZE) < q.len() <= n * (BLOCK_SIZE - HEADER_SIZE),
    ensures
        fragments(0, q, first).len() == n,
        n == 1 ==> fragments(0, q, first)[0].0 == if first { R_KIND_FULL } else { R_KIND_LAST },
        n > 1 ==> fragments(0, q, first)[0].0 == if first { R_KIND_FIRST } else { R_KIND_MIDDLE },
        n > 1 ==> fragments(0, q, first)[n - 1].0 == R_KIND_LAST,
        forall|i: int| 0 < i < n - 1 ==> #[trigger] fragments(0, q, first)[i].0 == R_KIND_MIDDLE,
        joined_payloads(fragments(0, q, first)) == q,
    decreases n,
{
    let c = BLOCK_SIZE - HEADER_SIZE;
    let fs = fragments(0, q, first);
    assert(room(0) == c);
    if n == 1 {
        assert(q.len() <= c) by (nonlinear_arith)
            requires
                n == 1,
                q.len() <= n * c,
        ;
        assert(fs.drop_first().len() == 0);
        assert(joined_payloads(fs.drop_first()) == Seq::<u8>::empty());
        assert(joined_payloads(fs) =~= q);
    } else {
        assert((n - 1) * c >= c) by (nonlinear_arith)
            requires
                n >= 2,
                c > 0,
        ;
        let tail = q.subrange(c as int, q.len() as int);
        assert((n - 2) * c < tail.len() <= (n - 1) * c) by (nonlinear_arith)
            requires
                tail.len() == q.len() - c,
                (n - 1) * c < q.len() <= n * c,
        ;
        lemma_fragment_count(tail, false, n - 1);
        let rest = fragments(0, tail, false);
        assert(fs.drop_first() =~= rest);
        assert forall|i: int| 0 < i < n - 1 implies #[trigger] fs[i].0 == R_KIND_MIDDLE by {
            assert(fs[i] == rest[i - 1]);
        }
        assert(fs[n - 1] == rest[n - 2]);
        assert(joined_payloads(fs) =~= q.subrange(0, c as int) + tail);
    }
}

/// A payload of `k * BLOCK_SIZE + r` bytes written at the start of a block,
/// with `k >= 1` and room in `k + 1` blocks for it and its headers
/// (`r + HEADER_SIZE * (k + 1) <= BLOCK_SIZE`), is cut into one First, `k - 1`
/// Middle and one Last record, in that order; their payloads join to it, and
/// the bytes written are those records back to back.
pub proof fn lemma_fragmentation(p: Seq<u8>, k: int, r: int)
    requires
        k >= 1,
        0 <= r,
        p.len() == k * BLOCK_SIZE + r,
        r + HEADER_SIZE * (k + 1) <= BLOCK_SIZE,
    ensures
        fragments(0, p, true).len() == k + 1,
        fragments(0, p, true)[0].0 == R_KIND_FIRST,
        forall|i: int| 0 < i < k ==> #[trigger] fragments(0, p, true)[i].0 == R_KIND_MIDDLE,
        fragments(0, p, true)[k].0 == R_KIND_LAST,
        joined_payloads(fragments(0, p, true)) == p,
        frame(0, p, true) == records_bytes(fragments(0, p, true)),
{
    let c = BLOCK_SIZE - HEADER_SIZE;
    assert(k * c < p.len() <= (k + 1) * c) by (nonlinear_arith)
        requires
            k >= 1,
            0 <= r,
            c == BLOCK_SIZE - HEADER_SIZE,
            p.len() == k * BLOCK_SIZE + r,
            r + HEADER_SIZE * (k + 1) <= BLOCK_SIZE,
    ;
    lemma_fragment_count(p, true, k + 1);
    reveal(frame);
    assert(zeros(padding(0)) =~= Seq::<u8>::empty());
    assert(frame(0, p, true) =~= records_bytes(fragments(0, p, true)));
}

/// A logical record that reads back from `b` ends within `b`, and reads back
/// the same once more bytes are appended.
pub proof fn lemma_read_extends(b: Seq<u8>, s: Seq<u8>, pos: int, acc: Seq<u8>, first: bool)
    requires
        parse_from(b, pos, acc, first) is Ok,
    ensures
        0 <= pos <= parse_from(b, pos, acc, first)->Ok_0.1 <= b.len(),
        parse_from(b + s, pos, acc, first) == parse_from(b, pos, acc, first),
    decreases b.len() - pos,
{
    let bs = b + s;
    let start = pos + padding(pos % (BLOCK_SIZE as int));
    assert(decode_at(b, start) is Ok);
    let n = declared_len(b, start);
    assert(bs[start + 4] == b[start + 4] && bs[start + 5] == b[start + 5]);
    assert(declared_len(bs, start) == n);
    assert(bs.subrange(start + HEADER_SIZE, start + HEADER_SIZE + n) =~= b.subrange(
        start + HEADER_SIZE,
        start + HEADER_SIZE + n,
    ));
    assert(u32_at(bs, start) == u32_at(b, start));
    assert(bs[start + 6] == b[start + 6]);
    assert(decode_at(bs, start) == decode_at(b, start));
    let (kind, frag) = decode_at(b, start)->Ok_0;
    let next = start + HEADER_SIZE + frag.len();
    if kind == R_KIND_FIRST {
        lemma_read_extends(b, s, next, frag, false);
    } else if kind == R_KIND_MIDDLE {
        lemma_read_extends(b, s, next, acc + frag, false);
    }
}

/// A logical record that reads back from `b` reads back the same from any
/// prefix of `b` that holds it.
pub proof fn lemma_read_prefix(b: Seq<u8>, k: int, pos: int, acc: Seq<u8>, first: bool)
    requires
        parse_from(b, pos, acc, first) is Ok,
        parse_from(b, pos, acc, first)->Ok_0.1 <= k <= b.len(),
    ensures
        parse_from(b.subrange(0, k), pos, acc, first) == parse_from(b, pos, acc, first),
    decreases b.len() - pos,
{
    lemma_read_extends(b, Seq::empty(), pos, acc, first);
    let c = b.subrange(0, k);
    lemma_prefix_ok(b, k, pos, acc, first);
    lemma_read_extends(c, b.subrange(k, b.len() as int), pos, acc, first);
    assert(c + b.subrange(k, b.len() as int) =~= b);
}

proof fn lemma_prefix_ok(b: Seq<u8>, k: int, pos: int, acc: Seq<u8>, first: bool)
    requires
        parse_from(b, pos, acc, first) is Ok,
        parse_from(b, pos, acc, first)->Ok_0.1 <= k <= b.len(),
    ensures
        parse_from(b.subrange(0, k), pos, acc, first) is Ok,
    decreases b.len() - pos,
{
    let c = b.subrange(0, k);
    let start = pos + padding(pos % (BLOCK_SIZE as int));
    lemma_read_extends(b, Seq::empty(), pos, acc, first);
    let (kind, frag) = decode_at(b, start)->Ok_0;
    let n = declared_len(b, start);
    let next = start + HEADER_SIZE + frag.len();
    if kind == R_KIND_FIRST {
        lemma_read_extends(b, Seq::empty(), next, frag, false);
        lemma_prefix_ok(b, k, next, frag, false);
    } else if kind == R_KIND_MIDDLE {
        lemma_read_extends(b, Seq::empty(), next, acc + frag, false);
        lemma_prefix_ok(b, k, next, acc + frag, false);
    }
    assert(next <= k);
    assert(c[start + 4] == b[start + 4] && c[start + 5] == b[start + 5]);
    assert(declared_len(c, start) == n);
    assert(c.subrange(start + HEADER_SIZE, start + HEADER_SIZE + n) =~= b.subrange(
        start + HEADER_SIZE,
        start + HEADER_SIZE + n,
    ));
    assert(u32_at(c, start) == u32_at(b, start));
    assert(c[start + 6] == b[start + 6]);
    assert(decode_at(c, start) == decode_at(b, start));
}

/// Appends `n` zero bytes to `out`.
fn push_zeros(out: &mut Vec<u8>, n: usize)
    ensures
        final(out)@ == old(out)@ + zeros(n as int),
{
    let mut i: usize = 0;
    while i < n
        invariant
            i <= n,
            out@ == old(out)@ + zeros(i as int),
        decreases n - i,
    {
        out.push(0u8);
        i = i + 1;
        assert(zeros(i as int) =~= zeros(i - 1) + seq![0u8]);
    }
}

/// The block format: logical records cut into physical records that never
/// cross a block boundary.
#[derive(Debug)]
pub struct Block {}

impl Block {
    /// Appends `payload` as one logical record to the segment bytes `seg`: padding
    /// where a header no longer fits in the block, then one Full record, or a
    /// First, Middles and a Last.
    pub fn write_payload(seg: &mut Vec<u8>, payload: &[u8])
        ensures
            final(seg)@ == old(seg)@ + frame((old(seg)@.len() as int) % (BLOCK_SIZE as int), payload@, true),
    {
        let ghost off0 = (old(seg)@.len() as int) % (BLOCK_SIZE as int);
        let mut off: usize = seg.len() % BLOCK_SIZE;
        let mut done: usize = 0;
        let mut first = true;
        assert(payload@.subrange(0, payload@.len() as int) =~= payload@);
        loop
            invariant_except_break
                off < BLOCK_SIZE,
                off as int == (seg@.len() as int) % (BLOCK_SIZE as int),
                done <= payload@.len(),
                old(seg)@ + frame(off0, payload@, true) == seg@ + frame(
                    off as int,
                    payload@.subrange(done as int, payload@.len() as int),
                    first,
                ),
            ensures
                old(seg)@ + frame(off0, payload@, true) == seg@,
            decreases payload@.len() - done, off,
        {
            let ghost rest = payload@.subrange(done as int, payload@.len() as int);
            let ghost s0 = seg@;
            let ghost s0_off = off as int;
            let ghost old_first = first;
            proof {
                lemma_frame_unfold(off as int, rest, first);
            }
            let left = BLOCK_SIZE - off;
            if left < HEADER_SIZE {
                push_zeros(seg, left);
                proof {
                    lemma_block_advance(s0.len() as int, left as int);
                }
                off = 0;
            }
            let avail = BLOCK_SIZE - off - HEADER_SIZE;
            let ghost s1 = seg@;
            let ghost a = avail as int;
            assert(s1 == s0 + zeros(padding(s0_off))) by {
                if left >= HEADER_SIZE {
                    assert(s1 =~= s0 + zeros(0));
                }
            }
            assert(a == room(s0_off));
            if payload.len() - done <= avail {
                let kind = if first { R_KIND_FULL } else { R_KIND_LAST };
                let rec = Record::new(kind, vstd::slice::slice_subrange(payload, done, payload.len()));
                rec.encode_into(seg);
                assert(seg@ == s1 + record_bytes(kind, rest));
                assert(s0 + frame(s0_off, rest, first) =~= seg@);
                break;
            } else {
                let kind = if first { R_KIND_FIRST } else { R_KIND_MIDDLE };
                let rec = Record::new(kind, vstd::slice::slice_subrange(payload, done, done + avail));
                rec.encode_into(seg);
                assert(seg@ == s1 + record_bytes(kind, rest.subrange(0, a))) by {
                    assert(rest.subrange(0, a) =~= payload@.subrange(done as int, done + a));
                }
                proof {
                    lemma_block_advance(s1.len() as int, HEADER_SIZE + a);
                    assert(rest.subrange(a, rest.len() as int) =~= payload@.subrange(
                        done + a,
                        payload@.len() as int,
                    ));
                    assert(rest.subrange(0, a) =~= payload@.subrange(done as int, done + a));
                }
                done = done + avail;
                off = 0;
                first = false;
                assert(s0 + frame(s0_off, rest, old_first) =~= seg@ + frame(
                    off as int,
                    payload@.subrange(done as int, payload@.len() as int),
                    first,
                ));
            }
        }
    }

    /// Reads the logical record that starts at `pos` of the segment bytes `seg`,
    /// skipping block padding and joining fragments. Returns the payload and the
    /// position after the record.
    pub fn read_payload(seg: &[u8], pos: usize) -> (r: Result<(Vec<u8>, usize), Error>)
        ensures
            match read_at(seg@, pos as int) {
                Ok((p, end)) => r matches Ok((v, e)) && v@ == p && e as int == end,
                Err(e) => r matches Err(e2) && e2 == e,
            },
    {
        if pos > seg.len() {
            return Err(Error::Truncated);
        }
        let mut acc: Vec<u8> = Vec::new();
        let mut first = true;
        let mut cur = pos;
        loop
            invariant
                cur <= seg@.len(),
                read_at(seg@, pos as int) == parse_from(seg@, cur as int, acc@, first),
            decreases seg@.len() - cur,
        {
            let left = BLOCK_SIZE - cur % BLOCK_SIZE;
            let mut start = cur;
            if left < HEADER_SIZE {
                if left > seg.len() - cur {
                    return Err(Error::Truncated);
                }
                start = cur + left;
            }
            let rec = match Record::decode(seg, start) {
                Ok(rec) => rec,
                Err(e) => {
                    return Err(e);
                },
            };
            let total = seg.len();
            assert(start + HEADER_SIZE + rec.payload@.len() <= total) by {
                assert(decode_at(seg@, start as int) is Ok);
            }
            let next = start + HEADER_SIZE + rec.payload.len();
            if rec.kind == R_KIND_FULL {
                if first {
                    return Ok((rec.payload, next));
                }
                return Err(Error::FramingError);
            } else if rec.kind == R_KIND_FIRST {
                if !first {
                    return Err(Error::FramingError);
                }
                acc = rec.payload;
                first = false;
            } else if rec.kind == R_KIND_MIDDLE {
                if first {
                    return Err(Error::FramingError);
                }
                append_bytes(&mut acc, rec.payload.as_slice());
            } else if rec.kind == R_KIND_LAST {
                if first {
                    return Err(Error::FramingError);
                }
                append_bytes(&mut acc, rec.payload.as_slice());
                return Ok((acc, next));
            } else {
                return Err(Error::FramingError);
            }
            cur = next;
        }
    }
}

} // verus!
