//! The offset log: an append-only sequence of self-delimiting frames, each
//! addressed by the byte offset at which it starts.
//!
//! A frame is the payload length (big-endian, 32 bits), the payload, the length
//! again, and the offset of the frame that follows (big-endian, 32 bits).
use crate::error::Error;
use vstd::prelude::*;

verus! {

/// Bytes of framing around each payload: two length words and the next-offset word.
pub const FRAME_OVERHEAD: u64 = 12;

/// The largest size a log can reach while its next-offset words stay exact.
pub const MAX_LOG_LEN: u64 = 0xffff_ffff;

/// Four big-endian bytes of `n`.
pub open spec fn be32(n: int) -> Seq<u8> {
    seq![
        (n / 0x1000000) as u8,
        ((n / 0x10000) % 0x100) as u8,
        ((n / 0x100) % 0x100) as u8,
        (n % 0x100) as u8,
    ]
}

/// The big-endian 32-bit number that starts at `b[i]`.
pub open spec fn be32_at(b: Seq<u8>, i: int) -> int {
    b[i] as int * 0x1000000 + b[i + 1] as int * 0x10000 + b[i + 2] as int * 0x100 + b[i + 3] as int
}

/// The frame that holds `payload` when written at `offset`.
pub open spec fn frame_bytes(offset: int, payload: Seq<u8>) -> Seq<u8> {
    be32(payload.len() as int) + payload + be32(payload.len() as int) + be32(
        offset + payload.len() + 12,
    )
}

/// Whether a complete, self-consistent frame starts at `off` in `b`.
pub open spec fn frame_valid(b: Seq<u8>, off: int) -> bool {
    let n = be32_at(b, off);
    &&& 0 <= off
    &&& off + 4 <= b.len()
    &&& off + 12 + n <= b.len()
    &&& be32_at(b, off + 4 + n) == n
    &&& be32_at(b, off + 8 + n) >= off + 12 + n
}

/// The payload of the frame at `off`.
pub open spec fn frame_payload(b: Seq<u8>, off: int) -> Seq<u8> {
    b.subrange(off + 4, off + 4 + be32_at(b, off))
}

/// The offset that the frame at `off` names as the next one.
pub open spec fn frame_next(b: Seq<u8>, off: int) -> int {
    be32_at(b, off + 8 + be32_at(b, off))
}

/// What a forward read of `b` from `off` yields: each valid frame in turn, as
/// (offset, payload), up to the first position that holds no valid frame.
pub open spec fn entries_from(b: Seq<u8>, off: int) -> Seq<(int, Seq<u8>)>
    decreases b.len() - off,
{
    if frame_valid(b, off) {
        let next = frame_next(b, off);
        // a next offset past the end holds no frame
        let rest = if next <= b.len() {
            entries_from(b, next)
        } else {
            Seq::empty()
        };
        seq![(off, frame_payload(b, off))] + rest
    } else {
        Seq::empty()
    }
}

proof fn lemma_be32(n: int)
    requires
        0 <= n < 0x1_0000_0000,
    ensures
        be32_at(be32(n), 0) == n,
{
    let a = n / 0x1000000;
    let r1 = n % 0x1000000;
    let b = r1 / 0x10000;
    let r2 = r1 % 0x10000;
    let c = r2 / 0x100;
    let d = r2 % 0x100;
    assert(n == a * 0x1000000 + r1 && 0 <= r1 < 0x1000000) by (nonlinear_arith)
        requires a == n / 0x1000000, r1 == n % 0x1000000, 0 <= n;
    assert(r1 == b * 0x10000 + r2 && 0 <= r2 < 0x10000) by (nonlinear_arith)
        requires b == r1 / 0x10000, r2 == r1 % 0x10000, 0 <= r1;
    assert(r2 == c * 0x100 + d && 0 <= d < 0x100) by (nonlinear_arith)
        requires c == r2 / 0x100, d == r2 % 0x100, 0 <= r2;
    assert((n / 0x10000) % 0x100 == b) by (nonlinear_arith)
        requires n == a * 0x1000000 + b * 0x10000 + r2, 0 <= r2 < 0x10000, 0 <= b < 0x100, 0 <= a;
    assert((n / 0x100) % 0x100 == c) by (nonlinear_arith)
        requires n == a * 0x1000000 + b * 0x10000 + c * 0x100 + d, 0 <= d < 0x100, 0 <= c < 0x100,
            0 <= b < 0x100, 0 <= a;
    assert(n % 0x100 == d) by (nonlinear_arith)
        requires n == a * 0x1000000 + b * 0x10000 + c * 0x100 + d, 0 <= d < 0x100, 0 <= c, 0 <= b, 0 <= a;
    assert(0 <= a < 0x100) by (nonlinear_arith)
        requires a == n / 0x1000000, 0 <= n < 0x1_0000_0000;
    assert(0 <= b < 0x100) by (nonlinear_arith)
        requires b == r1 / 0x10000, 0 <= r1 < 0x1000000;
    assert(0 <= c < 0x100) by (nonlinear_arith)
        requires c == r2 / 0x100, 0 <= r2 < 0x10000;
}

/// A frame written at `off` reads back: it is valid, holds `p`, and names the
/// offset right after it as the next one.
pub proof fn lemma_frame_reads_back(b: Seq<u8>, off: int, p: Seq<u8>)
    requires
        0 <= off,
        off + 12 + p.len() < 0x1_0000_0000,
        off + 12 + p.len() <= b.len(),
        b.subrange(off, off + 12 + p.len()) == frame_bytes(off, p),
    ensures
        frame_valid(b, off),
        frame_payload(b, off) == p,
        frame_next(b, off) == off + 12 + p.len(),
{
    let n = p.len() as int;
    let f = frame_bytes(off, p);
    lemma_be32(n);
    lemma_be32(off + 12 + n);
    assert forall|i: int| 0 <= i < 12 + n implies #[trigger] b[off + i] == f[i] by {
        assert(b.subrange(off, off + 12 + n)[i] == b[off + i]);
    }
    assert(f.subrange(0, 4) == be32(n));
    assert(f.subrange(4 + n, 8 + n) == be32(n));
    assert(f.subrange(8 + n, 12 + n) == be32(off + 12 + n));
    assert(be32_at(b, off) == be32_at(f, 0));
    assert(be32_at(b, off) == n) by {
        assert(be32_at(f, 0) == be32_at(be32(n), 0));
    }
    assert(be32_at(b, off + 4 + n) == n) by {
        let s = f.subrange(4 + n, 8 + n);
        assert(be32_at(b, off + 4 + n) == be32_at(s, 0));
    }
    assert(be32_at(b, off + 8 + n) == off + 12 + n) by {
        let s = f.subrange(8 + n, 12 + n);
        assert(be32_at(b, off + 8 + n) == be32_at(s, 0));
    }
    assert(frame_payload(b, off) =~= p) by {
        assert forall|i: int| 0 <= i < n implies frame_payload(b, off)[i] == p[i] by {
            assert(b[off + 4 + i] == f[4 + i]);
        }
    }
}

/// Total size of the frames that hold `ps`.
pub open spec fn batch_size(ps: Seq<Seq<u8>>) -> int
    decreases ps.len(),
{
    if ps.len() == 0 {
        0
    } else {
        batch_size(ps.drop_last()) + 12 + ps.last().len()
    }
}

/// The frames that hold `ps`, one after the other, the first written at `start`.
pub open spec fn batch_bytes(start: int, ps: Seq<Seq<u8>>) -> Seq<u8>
    decreases ps.len(),
{
    if ps.len() == 0 {
        Seq::empty()
    } else {
        let prev = ps.drop_last();
        batch_bytes(start, prev) + frame_bytes(start + batch_size(prev), ps.last())
    }
}

/// The offset at which the `i`th frame of a batch written at `start` begins.
pub open spec fn batch_offset(start: int, ps: Seq<Seq<u8>>, i: int) -> int {
    start + batch_size(ps.take(i))
}

pub proof fn lemma_batch_len(start: int, ps: Seq<Seq<u8>>)
    ensures
        batch_bytes(start, ps).len() == batch_size(ps),
        batch_size(ps) >= 0,
    decreases ps.len(),
{
    if ps.len() > 0 {
        lemma_batch_len(start, ps.drop_last());
    }
}

proof fn lemma_batch_size_prefix(ps: Seq<Seq<u8>>, i: int)
    requires
        0 <= i <= ps.len(),
    ensures
        0 <= batch_size(ps.take(i)) <= batch_size(ps),
    decreases ps.len(),
{
    lemma_batch_len(0, ps.take(i));
    if i < ps.len() {
        assert(ps.drop_last().take(i) == ps.take(i));
        lemma_batch_size_prefix(ps.drop_last(), i);
    } else {
        assert(ps.take(i) == ps);
    }
}

/// Each frame of a batch stands at its batch offset, whole.
proof fn lemma_batch_frame(pre: Seq<u8>, ps: Seq<Seq<u8>>, i: int)
    requires
        0 <= i < ps.len(),
    ensures
        ({
            let o = batch_offset(pre.len() as int, ps, i);
            let b = pre + batch_bytes(pre.len() as int, ps);
            &&& pre.len() <= o
            &&& o + 12 + ps[i].len() <= b.len()
            &&& b.subrange(o, o + 12 + ps[i].len()) == frame_bytes(o, ps[i])
        }),
    decreases ps.len(),
{
    let start = pre.len() as int;
    let prev = ps.drop_last();
    let o = batch_offset(start, ps, i);
    lemma_batch_len(start, prev);
    lemma_batch_len(start, ps);
    lemma_batch_size_prefix(ps, i);
    let f = frame_bytes(start + batch_size(prev), ps.last());
    assert(batch_bytes(start, ps) == batch_bytes(start, prev) + f);
    let b = pre + batch_bytes(start, ps);
    let bp = pre + batch_bytes(start, prev);
    assert(b == bp + f);
    if i < ps.len() - 1 {
        assert(prev.take(i) == ps.take(i));
        lemma_batch_frame(pre, prev, i);
        assert(b.subrange(o, o + 12 + ps[i].len()) == bp.subrange(o, o + 12 + ps[i].len()));
    } else {
        assert(ps.take(i) == prev);
        assert(b.subrange(o, o + 12 + ps[i].len()) =~= f);
    }
}

/// Whatever a forward read of a log yields, it still yields once more bytes
/// are appended: the entries come first, unchanged.
pub proof fn lemma_entries_extend(b1: Seq<u8>, b2: Seq<u8>, off: int)
    requires
        b1.len() <= b2.len(),
        b2.subrange(0, b1.len() as int) == b1,
    ensures
        entries_from(b1, off).len() <= entries_from(b2, off).len(),
        entries_from(b2, off).take(entries_from(b1, off).len() as int) == entries_from(b1, off),
    decreases b1.len() - off,
{
    assert forall|i: int| 0 <= i < b1.len() implies b1[i] == #[trigger] b2[i] by {
        assert(b2.subrange(0, b1.len() as int)[i] == b2[i]);
    }
    if frame_valid(b1, off) {
        let n = be32_at(b1, off);
        assert(be32_at(b2, off) == n);
        assert(be32_at(b2, off + 4 + n) == be32_at(b1, off + 4 + n));
        assert(be32_at(b2, off + 8 + n) == be32_at(b1, off + 8 + n));
        assert(frame_payload(b1, off) =~= frame_payload(b2, off));
        let next = frame_next(b1, off);
        if next <= b1.len() {
            lemma_entries_extend(b1, b2, next);
            assert(entries_from(b2, off).take(entries_from(b1, off).len() as int) =~= entries_from(
                b1,
                off,
            ));
        } else {
            assert(entries_from(b2, off).take(1) =~= entries_from(b1, off));
        }
    } else {
        assert(entries_from(b2, off).take(0) =~= entries_from(b1, off));
    }
}

proof fn lemma_seq_append_empty<A>(s: Seq<A>)
    ensures
        s + Seq::<A>::empty() == s,
{
    assert(s + Seq::<A>::empty() =~= s);
}

/// One step of a forward read: a valid frame, then whatever follows its next offset.
proof fn lemma_entries_step(b: Seq<u8>, off: int)
    requires
        frame_valid(b, off),
    ensures
        entries_from(b, off) == seq![(off, frame_payload(b, off))] + entries_from(
            b,
            frame_next(b, off),
        ),
{
    if frame_next(b, off) > b.len() {
        assert(!frame_valid(b, frame_next(b, off)));
        assert(entries_from(b, frame_next(b, off)) == Seq::<(int, Seq<u8>)>::empty());
    }
}

/// A forward read yields valid frames, with their payloads, at offsets that start
/// at `off` and ascend strictly.
pub proof fn lemma_entries_ascending(b: Seq<u8>, off: int)
    ensures
        forall|i: int|
            0 <= i < entries_from(b, off).len() ==> {
                let e = #[trigger] entries_from(b, off)[i];
                &&& off <= e.0
                &&& frame_valid(b, e.0)
                &&& e.1 == frame_payload(b, e.0)
            },
        forall|i: int, j: int|
            0 <= i < j < entries_from(b, off).len() ==> #[trigger] entries_from(b, off)[i].0
                < #[trigger] entries_from(b, off)[j].0,
    decreases b.len() - off,
{
    let es = entries_from(b, off);
    if frame_valid(b, off) {
        let next = frame_next(b, off);
        lemma_entries_step(b, off);
        let rest = entries_from(b, next);
        if next <= b.len() {
            lemma_entries_ascending(b, next);
        }
        assert(es == seq![(off, frame_payload(b, off))] + rest);
        assert forall|i: int| 0 <= i < es.len() implies {
            let e = #[trigger] es[i];
            &&& off <= e.0
            &&& frame_valid(b, e.0)
            &&& e.1 == frame_payload(b, e.0)
        } by {
            if i > 0 {
                assert(es[i] == rest[i - 1]);
            }
        }
        assert forall|i: int, j: int| 0 <= i < j < es.len() implies #[trigger] es[i].0
            < #[trigger] es[j].0 by {
            assert(es[j] == rest[j - 1]);
            if i > 0 {
                assert(es[i] == rest[i - 1]);
            }
        }
    }
}

/// Reading forward from the offset of any entry yields the rest of the read.
pub proof fn lemma_entries_suffix(b: Seq<u8>, off: int, p: int)
    requires
        0 <= p < entries_from(b, off).len(),
    ensures
        entries_from(b, entries_from(b, off)[p].0) == entries_from(b, off).skip(p),
    decreases b.len() - off,
{
    let es = entries_from(b, off);
    lemma_entries_step(b, off);
    let next = frame_next(b, off);
    let rest = entries_from(b, next);
    assert(es == seq![(off, frame_payload(b, off))] + rest);
    if p == 0 {
        assert(es.skip(0) == es);
    } else {
        assert(es[p] == rest[p - 1]);
        lemma_entries_suffix(b, next, p - 1);
        assert(es.skip(p) =~= rest.skip(p - 1));
    }
}

/// One entry read from the log: the offset of its frame and its payload.
#[derive(Debug)]
pub struct LogEntry {
    pub offset: u64,
    pub data: Vec<u8>,
}

impl View for LogEntry {
    type V = (int, Seq<u8>);

    open spec fn view(&self) -> (int, Seq<u8>) {
        (self.offset as int, self.data@)
    }
}

/// Relies on flumedb::offset_log::encode with a 32-bit next-offset word: it writes
/// the payload length, the payload, the length again and the end offset of the frame,
/// each number big-endian.
#[verifier::external_body]
fn encode_frame(offset: u64, payload: &[u8]) -> (r: Vec<u8>)
    requires
        offset + 12 + payload@.len() <= MAX_LOG_LEN,
    ensures
        r@ == frame_bytes(offset as int, payload@),
{
    let mut dest = Default::default();
    let _ = flumedb::offset_log::encode::<u32>(offset, payload, &mut dest);
    dest.to_vec()
}

/// Relies on flumedb::offset_log::read_next over a byte slice, with a 32-bit
/// next-offset word: it reads the frame at `offset`, checks that both length words
/// agree and that the next offset lies past the frame, and returns the payload and
/// that next offset.
#[verifier::external_body]
fn read_frame(bytes: &[u8], offset: u64) -> (r: Option<(Vec<u8>, u64)>)
    requires
        // read_next allocates as many bytes as the length word names; only frames
        // that fit in the log are handed to it
        offset + 4 <= bytes@.len(),
        offset + 12 + be32_at(bytes@, offset as int) <= bytes@.len(),
    ensures
        r.is_some() == frame_valid(bytes@, offset as int),
        r matches Some((d, next)) ==> d@ == frame_payload(bytes@, offset as int) && next as int
            == frame_next(bytes@, offset as int),
{
    flumedb::offset_log::read_next::<u32, &[u8]>(offset, &bytes).ok().map(|r| (r.entry.data, r.next))
}

/// Whether a frame that starts at `offset` fits in `bytes`, by its length word.
fn frame_fits(bytes: &[u8], offset: u64) -> (r: bool)
    ensures
        r == (offset + 4 <= bytes@.len() && offset + 12 + be32_at(bytes@, offset as int)
            <= bytes@.len()),
{
    let len = bytes.len() as u64;
    if offset > len || 4 > len - offset {
        return false;
    }
    let o = offset as usize;
    let n = bytes[o] as u64 * 0x1000000 + bytes[o + 1] as u64 * 0x10000 + bytes[o + 2] as u64
        * 0x100 + bytes[o + 3] as u64;
    n + 12 <= len - offset
}

/// An offset log held in memory: the exact bytes of the log file.
pub struct OffsetLog {
    bytes: Vec<u8>,
}

impl View for OffsetLog {
    type V = Seq<u8>;

    closed spec fn view(&self) -> Seq<u8> {
        self.bytes@
    }
}

impl OffsetLog {
    /// An empty log.
    pub fn new() -> (r: OffsetLog)
        ensures
            r@ == Seq::<u8>::empty(),
    {
        OffsetLog { bytes: Vec::new() }
    }

    /// The log whose file holds `bytes`.
    pub fn from_bytes(bytes: Vec<u8>) -> (r: OffsetLog)
        ensures
            r@ == bytes@,
    {
        OffsetLog { bytes }
    }

    /// The bytes of the log file.
    pub fn as_bytes(&self) -> (r: &[u8])
        ensures
            r@ == self@,
    {
        self.bytes.as_slice()
    }

    /// The size of the log in bytes: where the next frame will be written.
    pub fn end(&self) -> (r: u64)
        ensures
            r == self@.len(),
    {
        self.bytes.len() as u64
    }

    /// The payload of the frame at `offset`.
    pub fn get(&self, offset: u64) -> (r: Result<Vec<u8>, Error>)
        ensures
            r matches Ok(d) ==> frame_valid(self@, offset as int) && d@ == frame_payload(
                self@,
                offset as int,
            ),
            r matches Err(e) ==> !frame_valid(self@, offset as int) && e == Error::OffsetGetError,
    {
        if !frame_fits(self.bytes.as_slice(), offset) {
            return Err(Error::OffsetGetError);
        }
        match read_frame(self.bytes.as_slice(), offset) {
            Some((d, _)) => Ok(d),
            None => Err(Error::OffsetGetError),
        }
    }

    /// Every entry from `offset` on, in order, up to the first position that holds
    /// no valid frame; a torn last frame ends the sequence cleanly.
    pub fn iter_at_offset(&self, offset: u64) -> (r: Vec<LogEntry>)
        ensures
            r@.map_values(|e: LogEntry| e@) == entries_from(self@, offset as int),
    {
        let mut out: Vec<LogEntry> = Vec::new();
        let mut cur: u64 = offset;
        let end = self.end();
        loop
            invariant
                end == self@.len(),
                out@.map_values(|e: LogEntry| e@) + entries_from(self@, cur as int) == entries_from(
                    self@,
                    offset as int,
                ),
            decreases if cur <= end {
                end - cur + 1
            } else {
                0
            },
        {
            if !frame_fits(self.bytes.as_slice(), cur) {
                proof {
                    lemma_seq_append_empty(out@.map_values(|e: LogEntry| e@));
                }
                return out;
            }
            match read_frame(self.bytes.as_slice(), cur) {
                None => {
                    proof {
                        lemma_seq_append_empty(out@.map_values(|e: LogEntry| e@));
                    }
                    return out;
                },
                Some((data, next)) => {
                    let ghost before = out@.map_values(|e: LogEntry| e@);
                    proof {
                        lemma_entries_step(self@, cur as int);
                    }
                    out.push(LogEntry { offset: cur, data });
                    proof {
                        let after = out@.map_values(|e: LogEntry| e@);
                        assert(after =~= before.push((cur as int, data@)));
                        let rest = entries_from(self@, next as int);
                        assert(after + rest =~= before + (seq![(cur as int, data@)] + rest));
                    }
                    cur = next;
                },
            }
        }
    }

    /// Appends one frame holding `payload` at the end of the log and returns its
    /// offset; the log is left unchanged if it would outgrow its 32-bit offsets.
    pub fn append(&mut self, payload: &[u8]) -> (r: Result<u64, Error>)
        ensures
            r is Ok <==> old(self)@.len() + 12 + payload@.len() <= MAX_LOG_LEN,
            r matches Ok(o) ==> o == old(self)@.len() && final(self)@ == old(self)@ + frame_bytes(
                o as int,
                payload@,
            ),
            r matches Err(e) ==> e == Error::OffsetAppendError && final(self)@ == old(self)@,
    {
        let end = self.end();
        if end > MAX_LOG_LEN || payload.len() as u64 > MAX_LOG_LEN - end || 12 > MAX_LOG_LEN - end
            - payload.len() as u64 {
            return Err(Error::OffsetAppendError);
        }
        let frame = encode_frame(end, payload);
        self.bytes.extend_from_slice(frame.as_slice());
        Ok(end)
    }

    /// Appends one frame per payload, contiguously, and returns their offsets. Either
    /// every frame is written or, if the log would outgrow its 32-bit offsets, none.
    pub fn append_batch(&mut self, payloads: &[Vec<u8>]) -> (r: Result<Vec<u64>, Error>)
        ensures
            r is Ok <==> old(self)@.len() + batch_size(payloads@.map_values(|p: Vec<u8>| p@))
                <= MAX_LOG_LEN,
            r matches Ok(offs) ==> {
                let ps = payloads@.map_values(|p: Vec<u8>| p@);
                &&& final(self)@ == old(self)@ + batch_bytes(old(self)@.len() as int, ps)
                &&& offs@.len() == ps.len()
                &&& forall|i: int|
                    0 <= i < ps.len() ==> offs@[i] == batch_offset(old(self)@.len() as int, ps, i)
            },
            r matches Err(e) ==> e == Error::OffsetAppendError && final(self)@ == old(self)@,
    {
        let ghost ps = payloads@.map_values(|p: Vec<u8>| p@);
        let end = self.end();
        proof {
            lemma_batch_len(end as int, ps);
        }
        if end > MAX_LOG_LEN {
            return Err(Error::OffsetAppendError);
        }
        // size the whole batch first, so that a batch that does not fit writes nothing
        let mut total: u64 = end;
        let mut i: usize = 0;
        while i < payloads.len()
            invariant
                i <= payloads@.len(),
                ps == payloads@.map_values(|p: Vec<u8>| p@),
                end == old(self)@.len(),
                total <= MAX_LOG_LEN,
                total == end + batch_size(ps.take(i as int)),
            decreases payloads@.len() - i,
        {
            let n = payloads[i].len() as u64;
            assert(ps.take(i as int + 1).drop_last() == ps.take(i as int));
            if n > MAX_LOG_LEN || 12 > MAX_LOG_LEN - n || total > MAX_LOG_LEN - 12 - n {
                proof {
                    lemma_batch_size_prefix(ps, i as int + 1);
                }
                return Err(Error::OffsetAppendError);
            }
            total = total + 12 + n;
            i = i + 1;
        }
        assert(ps.take(i as int) == ps);
        let mut offs: Vec<u64> = Vec::new();
        let mut j: usize = 0;
        while j < payloads.len()
            invariant
                j <= payloads@.len(),
                ps == payloads@.map_values(|p: Vec<u8>| p@),
                end == old(self)@.len(),
                end + batch_size(ps) <= MAX_LOG_LEN,
                self@ == old(self)@ + batch_bytes(end as int, ps.take(j as int)),
                offs@.len() == j,
                forall|k: int| 0 <= k < j ==> offs@[k] == batch_offset(end as int, ps, k),
            decreases payloads@.len() - j,
        {
            proof {
                lemma_batch_len(end as int, ps.take(j as int));
                lemma_batch_size_prefix(ps, j as int + 1);
                assert(ps.take(j as int + 1).drop_last() == ps.take(j as int));
                assert(ps.take(j as int + 1).take(j as int) == ps.take(j as int));
            }
            let o = self.end();
            let frame = encode_frame(o, payloads[j].as_slice());
            self.bytes.extend_from_slice(frame.as_slice());
            offs.push(o);
            proof {
                assert(ps.take(j as int + 1).last() == ps[j as int]);
                assert(self@ =~= old(self)@ + batch_bytes(end as int, ps.take(j as int + 1)));
            }
            j = j + 1;
        }
        assert(ps.take(j as int) == ps);
        Ok(offs)
    }
}

/// Where a forward read from `off` stops: the first position that holds no valid frame.
pub open spec fn chain_end(b: Seq<u8>, off: int) -> int
    decreases b.len() - off,
{
    if frame_valid(b, off) && frame_next(b, off) <= b.len() {
        chain_end(b, frame_next(b, off))
    } else {
        off
    }
}

/// The log's frames chain from offset 0 exactly to its end: no torn or stray bytes.
pub open spec fn log_tidy(b: Seq<u8>) -> bool {
    chain_end(b, 0) == b.len()
}

/// The entries that a batch written at `start` adds: each payload with its offset.
pub open spec fn batch_entries(start: int, ps: Seq<Seq<u8>>) -> Seq<(int, Seq<u8>)> {
    Seq::new(ps.len(), |i: int| (batch_offset(start, ps, i), ps[i]))
}

/// Reading a tidy prefix of a log, then on: the prefix's entries, then what follows it.
proof fn lemma_entries_through(b1: Seq<u8>, b2: Seq<u8>, off: int)
    requires
        b1.len() <= b2.len(),
        b2.subrange(0, b1.len() as int) == b1,
        chain_end(b1, off) == b1.len(),
        0 <= off <= b1.len(),
    ensures
        entries_from(b2, off) == entries_from(b1, off) + entries_from(b2, b1.len() as int),
    decreases b1.len() - off,
{
    assert forall|i: int| 0 <= i < b1.len() implies b1[i] == #[trigger] b2[i] by {
        assert(b2.subrange(0, b1.len() as int)[i] == b2[i]);
    }
    if frame_valid(b1, off) && frame_next(b1, off) <= b1.len() {
        let n = be32_at(b1, off);
        assert(be32_at(b2, off) == n);
        assert(be32_at(b2, off + 4 + n) == be32_at(b1, off + 4 + n));
        assert(be32_at(b2, off + 8 + n) == be32_at(b1, off + 8 + n));
        assert(frame_payload(b1, off) =~= frame_payload(b2, off));
        let next = frame_next(b1, off);
        lemma_entries_through(b1, b2, next);
        lemma_entries_step(b1, off);
        lemma_entries_step(b2, off);
        assert(entries_from(b2, off) =~= entries_from(b1, off) + entries_from(b2, b1.len() as int));
    } else {
        assert(off == b1.len());
        assert(!frame_valid(b1, off));
        assert(entries_from(b1, off) =~= Seq::<(int, Seq<u8>)>::empty());
        assert(entries_from(b2, off) + Seq::<(int, Seq<u8>)>::empty() =~= entries_from(b2, off));
        assert(entries_from(b1, off) + entries_from(b2, b1.len() as int) =~= entries_from(b2, off));
    }
}

/// Reading a freshly written batch from its `i`th frame yields the rest of the batch.
proof fn lemma_batch_entries_from(pre: Seq<u8>, ps: Seq<Seq<u8>>, i: int)
    requires
        pre.len() + batch_size(ps) <= MAX_LOG_LEN,
        0 <= i <= ps.len(),
    ensures
        ({
            let b = pre + batch_bytes(pre.len() as int, ps);
            &&& entries_from(b, batch_offset(pre.len() as int, ps, i)) == batch_entries(
                pre.len() as int,
                ps,
            ).skip(i)
            &&& chain_end(b, batch_offset(pre.len() as int, ps, i)) == b.len()
        }),
    decreases ps.len() - i,
{
    let start = pre.len() as int;
    let b = pre + batch_bytes(start, ps);
    lemma_batch_len(start, ps);
    let o = batch_offset(start, ps, i);
    if i == ps.len() {
        assert(ps.take(i) == ps);
        assert(!frame_valid(b, o));
        assert(batch_entries(start, ps).skip(i) =~= Seq::<(int, Seq<u8>)>::empty());
    } else {
        lemma_batch_frame(pre, ps, i);
        lemma_batch_size_prefix(ps, i + 1);
        lemma_frame_reads_back(b, o, ps[i]);
        assert(ps.take(i + 1).drop_last() == ps.take(i));
        assert(ps.take(i + 1).last() == ps[i]);
        assert(batch_offset(start, ps, i + 1) == o + 12 + ps[i].len());
        lemma_batch_entries_from(pre, ps, i + 1);
        lemma_entries_step(b, o);
        assert(batch_entries(start, ps).skip(i) =~= seq![(o, ps[i])] + batch_entries(start, ps).skip(
            i + 1,
        ));
    }
}

/// Appending a batch to a tidy log keeps it tidy, and a forward read then yields the
/// old entries followed by one entry per payload of the batch, in order.
pub proof fn lemma_append_to_tidy(before: Seq<u8>, ps: Seq<Seq<u8>>)
    requires
        before.len() + batch_size(ps) <= MAX_LOG_LEN,
        log_tidy(before),
    ensures
        ({
            let after = before + batch_bytes(before.len() as int, ps);
            &&& entries_from(after, 0) == entries_from(before, 0) + batch_entries(
                before.len() as int,
                ps,
            )
            &&& log_tidy(after)
        }),
{
    let start = before.len() as int;
    let after = before + batch_bytes(start, ps);
    lemma_batch_len(start, ps);
    assert(after.subrange(0, start) =~= before);
    lemma_batch_entries_from(before, ps, 0);
    assert(ps.take(0) =~= Seq::<Seq<u8>>::empty());
    assert(batch_entries(start, ps).skip(0) == batch_entries(start, ps));
    lemma_entries_through(before, after, 0);
    lemma_chain_through(before, after, 0);
}

/// A tidy prefix's chain leads on into what follows it.
proof fn lemma_chain_through(b1: Seq<u8>, b2: Seq<u8>, off: int)
    requires
        b1.len() <= b2.len(),
        b2.subrange(0, b1.len() as int) == b1,
        chain_end(b1, off) == b1.len(),
        0 <= off <= b1.len(),
    ensures
        chain_end(b2, off) == chain_end(b2, b1.len() as int),
    decreases b1.len() - off,
{
    assert forall|i: int| 0 <= i < b1.len() implies b1[i] == #[trigger] b2[i] by {
        assert(b2.subrange(0, b1.len() as int)[i] == b2[i]);
    }
    if frame_valid(b1, off) && frame_next(b1, off) <= b1.len() {
        let n = be32_at(b1, off);
        assert(be32_at(b2, off) == n);
        assert(be32_at(b2, off + 4 + n) == be32_at(b1, off + 4 + n));
        assert(be32_at(b2, off + 8 + n) == be32_at(b1, off + 8 + n));
        lemma_chain_through(b1, b2, frame_next(b1, off));
    }
}

/// Every payload of a batch reads back from the offset at which it was written.
pub proof fn lemma_log_round_trip(before: Seq<u8>, ps: Seq<Seq<u8>>, i: int)
    requires
        before.len() + batch_size(ps) <= MAX_LOG_LEN,
        0 <= i < ps.len(),
    ensures
        ({
            let after = before + batch_bytes(before.len() as int, ps);
            let o = batch_offset(before.len() as int, ps, i);
            &&& frame_valid(after, o)
            &&& frame_payload(after, o) == ps[i]
        }),
{
    let after = before + batch_bytes(before.len() as int, ps);
    let o = batch_offset(before.len() as int, ps, i);
    lemma_batch_frame(before, ps, i);
    lemma_batch_len(before.len() as int, ps);
    lemma_frame_reads_back(after, o, ps[i]);
}

} // verus!
