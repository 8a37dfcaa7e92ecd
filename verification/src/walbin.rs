//! The binary write-ahead log: record framing and segment scanning.
//!
//! A record is a fixed header, a body and a trailer, integers big-endian:
//!
//! ```text
//! magic "ASTW" (4) | ver u8 | type u8 | ns_hash u64 | seq u64 | ts_unix u64 | len u32 | body[len] | crc32c u32
//! ```
//!
//! The checksum covers header and body. `ns_hash` is reserved and zero.

use vstd::prelude::*;
use vstd::slice::*;

verus! {

/// The format version written into every header.
pub const VERSION: u8 = 1;

/// The length of a record header in bytes.
pub const HEADER_LEN: usize = 34;

/// The length of a record trailer in bytes.
pub const TRAILER_LEN: usize = 4;

/// The four bytes every record starts with: `ASTW`.
pub open spec fn magic() -> Seq<u8> {
    seq![0x41u8, 0x53u8, 0x54u8, 0x57u8]
}

/// The CRC-32C (Castagnoli) checksum of `data`.
pub uninterp spec fn crc32c_of(data: Seq<u8>) -> u32;

/// Computes the checksum with `crc32c::crc32c`. It depends on the bytes
/// alone.
#[verifier::external_body]
fn checksum(data: &[u8]) -> (crc: u32)
    ensures
        crc == crc32c_of(data@),
{
    crc32c::crc32c(data)
}

/// The kind of a log record.
#[derive(Debug, Clone, Copy, PartialEq, Eq, Structural)]
pub enum RecType {
    Put,
    Delete,
    LeaseAcquire,
    LeaseRenew,
    LeaseRelease,
    Idempotency,
}

impl RecType {
    /// The byte that stands for this kind in a header.
    pub open spec fn code_of(self) -> u8 {
        match self {
            RecType::Put => 1,
            RecType::Delete => 2,
            RecType::LeaseAcquire => 3,
            RecType::LeaseRenew => 4,
            RecType::LeaseRelease => 5,
            RecType::Idempotency => 6,
        }
    }

    /// The byte that stands for this kind in a header.
    pub fn code(self) -> (c: u8)
        ensures
            c == self.code_of(),
    {
        match self {
            RecType::Put => 1,
            RecType::Delete => 2,
            RecType::LeaseAcquire => 3,
            RecType::LeaseRenew => 4,
            RecType::LeaseRelease => 5,
            RecType::Idempotency => 6,
        }
    }

    /// The kind that `c` stands for, if any.
    pub fn from_code(c: u8) -> (kind: Option<RecType>)
        ensures
            match kind {
                Some(k) => k.code_of() == c,
                None => c == 0 || c > 6,
            },
    {
        match c {
            1 => Some(RecType::Put),
            2 => Some(RecType::Delete),
            3 => Some(RecType::LeaseAcquire),
            4 => Some(RecType::LeaseRenew),
            5 => Some(RecType::LeaseRelease),
            6 => Some(RecType::Idempotency),
            _ => None,
        }
    }
}

/// The four bytes of `x`, most significant first.
pub open spec fn be_u32(x: u32) -> Seq<u8> {
    seq![
        ((x >> 24) & 0xff) as u8,
        ((x >> 16) & 0xff) as u8,
        ((x >> 8) & 0xff) as u8,
        (x & 0xff) as u8,
    ]
}

/// The eight bytes of `x`, most significant first.
pub open spec fn be_u64(x: u64) -> Seq<u8> {
    seq![
        ((x >> 56) & 0xff) as u8,
        ((x >> 48) & 0xff) as u8,
        ((x >> 40) & 0xff) as u8,
        ((x >> 32) & 0xff) as u8,
        ((x >> 24) & 0xff) as u8,
        ((x >> 16) & 0xff) as u8,
        ((x >> 8) & 0xff) as u8,
        (x & 0xff) as u8,
    ]
}

/// The number whose big-endian bytes are the four at `at` in `b`.
pub open spec fn u32_at(b: Seq<u8>, at: int) -> u32 {
    ((b[at] as u32) << 24) | ((b[at + 1] as u32) << 16) | ((b[at + 2] as u32) << 8) | (b[at
        + 3] as u32)
}

/// The number whose big-endian bytes are the eight at `at` in `b`.
pub open spec fn u64_at(b: Seq<u8>, at: int) -> u64 {
    ((b[at] as u64) << 56) | ((b[at + 1] as u64) << 48) | ((b[at + 2] as u64) << 40) | ((b[at
        + 3] as u64) << 32) | ((b[at + 4] as u64) << 24) | ((b[at + 5] as u64) << 16) | ((b[at
        + 6] as u64) << 8) | (b[at + 7] as u64)
}

/// Reading back the big-endian bytes of a `u32` gives the number.
pub proof fn lemma_be_u32_round_trip(x: u32)
    ensures
        be_u32(x).len() == 4,
        u32_at(be_u32(x), 0) == x,
{
    let b0 = ((x >> 24) & 0xff) as u8;
    let b1 = ((x >> 16) & 0xff) as u8;
    let b2 = ((x >> 8) & 0xff) as u8;
    let b3 = (x & 0xff) as u8;
    assert(((b0 as u32) << 24) | ((b1 as u32) << 16) | ((b2 as u32) << 8) | (b3 as u32) == x)
        by (bit_vector)
        requires
            b0 == ((x >> 24) & 0xff) as u8,
            b1 == ((x >> 16) & 0xff) as u8,
            b2 == ((x >> 8) & 0xff) as u8,
            b3 == (x & 0xff) as u8,
    ;
}

/// Reading back the big-endian bytes of a `u64` gives the number.
pub proof fn lemma_be_u64_round_trip(x: u64)
    ensures
        be_u64(x).len() == 8,
        u64_at(be_u64(x), 0) == x,
{
    let b0 = ((x >> 56) & 0xff) as u8;
    let b1 = ((x >> 48) & 0xff) as u8;
    let b2 = ((x >> 40) & 0xff) as u8;
    let b3 = ((x >> 32) & 0xff) as u8;
    let b4 = ((x >> 24) & 0xff) as u8;
    let b5 = ((x >> 16) & 0xff) as u8;
    let b6 = ((x >> 8) & 0xff) as u8;
    let b7 = (x & 0xff) as u8;
    assert(((b0 as u64) << 56) | ((b1 as u64) << 48) | ((b2 as u64) << 40) | ((b3 as u64) << 32)
        | ((b4 as u64) << 24) | ((b5 as u64) << 16) | ((b6 as u64) << 8) | (b7 as u64) == x)
        by (bit_vector)
        requires
            b0 == ((x >> 56) & 0xff) as u8,
            b1 == ((x >> 48) & 0xff) as u8,
            b2 == ((x >> 40) & 0xff) as u8,
            b3 == ((x >> 32) & 0xff) as u8,
            b4 == ((x >> 24) & 0xff) as u8,
            b5 == ((x >> 16) & 0xff) as u8,
            b6 == ((x >> 8) & 0xff) as u8,
            b7 == (x & 0xff) as u8,
    ;
}

/// Appends the big-endian bytes of `x` to `out`.
fn push_be_u32(out: &mut Vec<u8>, x: u32)
    ensures
        final(out)@ == old(out)@ + be_u32(x),
{
    out.push(((x >> 24) & 0xff) as u8);
    out.push(((x >> 16) & 0xff) as u8);
    out.push(((x >> 8) & 0xff) as u8);
    out.push((x & 0xff) as u8);
    assert(out@ =~= old(out)@ + be_u32(x));
}

/// Appends the big-endian bytes of `x` to `out`.
fn push_be_u64(out: &mut Vec<u8>, x: u64)
    ensures
        final(out)@ == old(out)@ + be_u64(x),
{
    out.push(((x >> 56) & 0xff) as u8);
    out.push(((x >> 48) & 0xff) as u8);
    out.push(((x >> 40) & 0xff) as u8);
    out.push(((x >> 32) & 0xff) as u8);
    out.push(((x >> 24) & 0xff) as u8);
    out.push(((x >> 16) & 0xff) as u8);
    out.push(((x >> 8) & 0xff) as u8);
    out.push((x & 0xff) as u8);
    assert(out@ =~= old(out)@ + be_u64(x));
}

/// Reads the big-endian `u32` at `at`.
fn read_be_u32(b: &[u8], at: usize) -> (x: u32)
    requires
        at + 4 <= b@.len(),
    ensures
        x == u32_at(b@, at as int),
{
    ((b[at] as u32) << 24) | ((b[at + 1] as u32) << 16) | ((b[at + 2] as u32) << 8) | (b[at
        + 3] as u32)
}

/// Reads the big-endian `u64` at `at`.
fn read_be_u64(b: &[u8], at: usize) -> (x: u64)
    requires
        at + 8 <= b@.len(),
    ensures
        x == u64_at(b@, at as int),
{
    ((b[at] as u64) << 56) | ((b[at + 1] as u64) << 48) | ((b[at + 2] as u64) << 40) | ((b[at
        + 3] as u64) << 32) | ((b[at + 4] as u64) << 24) | ((b[at + 5] as u64) << 16) | ((b[at
        + 6] as u64) << 8) | (b[at + 7] as u64)
}

/// One record as it stands in a segment, header fields decoded.
#[derive(Debug)]
pub struct WalFrame {
    /// The byte that stands for the record's kind.
    pub rtype: u8,
    /// The sequence number the writer gave.
    pub seq: u64,
    /// The writer's clock, in seconds since the Unix epoch.
    pub ts: u64,
    /// The encoded body.
    pub body: Vec<u8>,
}

/// A record, as plain mathematical values.
pub struct FrameView {
    pub rtype: u8,
    pub seq: u64,
    pub ts: u64,
    pub body: Seq<u8>,
}

impl View for WalFrame {
    type V = FrameView;

    open spec fn view(&self) -> FrameView {
        FrameView { rtype: self.rtype, seq: self.seq, ts: self.ts, body: self.body@ }
    }
}

/// The views of a list of records.
pub open spec fn frame_views(v: Seq<WalFrame>) -> Seq<FrameView> {
    v.map_values(|f: WalFrame| f@)
}

/// The 34 header bytes of a record with a body of `len` bytes.
#[verifier::opaque]
pub open spec fn header_bytes(rtype: u8, seq: u64, ts: u64, len: u32) -> Seq<u8> {
    magic() + seq![VERSION, rtype] + be_u64(0) + be_u64(seq) + be_u64(ts) + be_u32(len)
}

/// What the checksum of a record covers: header and body.
pub open spec fn covered_bytes(f: FrameView) -> Seq<u8> {
    header_bytes(f.rtype, f.seq, f.ts, f.body.len() as u32) + f.body
}

/// The bytes of a record on disk: header, body, checksum.
pub open spec fn frame_bytes(f: FrameView) -> Seq<u8>
    recommends
        f.body.len() <= u32::MAX,
{
    covered_bytes(f) + be_u32(crc32c_of(covered_bytes(f)))
}

/// The record at the start of `b` and the number of bytes it takes, if `b`
/// starts with a whole record: magic, a body of the announced length, and a
/// trailer that equals the checksum of header and body.
#[verifier::opaque]
pub open spec fn parse_one(b: Seq<u8>) -> Option<(FrameView, int)> {
    if b.len() < HEADER_LEN {
        None
    } else if b.subrange(0, 4) != magic() {
        None
    } else {
        let len = u32_at(b, 30) as int;
        let total = HEADER_LEN + len + TRAILER_LEN;
        if b.len() < total {
            None
        } else if crc32c_of(b.subrange(0, HEADER_LEN + len)) != u32_at(b, HEADER_LEN + len) {
            None
        } else {
            Some(
                (
                    FrameView {
                        rtype: b[5],
                        seq: u64_at(b, 14),
                        ts: u64_at(b, 22),
                        body: b.subrange(HEADER_LEN as int, HEADER_LEN + len),
                    },
                    total,
                ),
            )
        }
    }
}

/// The records of a segment: those read from its start up to the first
/// place where no whole record stands. What follows that place is ignored.
pub open spec fn scan(b: Seq<u8>) -> Seq<FrameView>
    decreases b.len(),
{
    match parse_one(b) {
        Some((f, n)) => {
            proof {
                reveal(parse_one);
            }
            seq![f] + scan(b.skip(n))
        },
        None => Seq::empty(),
    }
}

/// Frames one record for the log. `None` where the body is too long for the
/// length field.
pub fn encode_record(rtype: RecType, seq: u64, ts: i64, body: &[u8]) -> (out: Option<Vec<u8>>)
    ensures
        match out {
            Some(bytes) => body@.len() <= u32::MAX && bytes@ == frame_bytes(
                FrameView { rtype: rtype.code_of(), seq, ts: ts as u64, body: body@ },
            ),
            None => body@.len() > u32::MAX,
        },
{
    if body.len() > 0xffff_ffff {
        return None;
    }
    let len: u32 = body.len() as u32;
    let mut rec: Vec<u8> = Vec::new();
    rec.push(0x41);
    rec.push(0x53);
    rec.push(0x54);
    rec.push(0x57);
    rec.push(VERSION);
    rec.push(rtype.code());
    push_be_u64(&mut rec, 0);
    push_be_u64(&mut rec, seq);
    push_be_u64(&mut rec, ts as u64);
    push_be_u32(&mut rec, len);
    rec.extend_from_slice(body);
    let ghost f = FrameView { rtype: rtype.code_of(), seq, ts: ts as u64, body: body@ };
    assert(rec@ =~= covered_bytes(f)) by {
        reveal(header_bytes);
    }
    let crc = checksum(rec.as_slice());
    push_be_u32(&mut rec, crc);
    Some(rec)
}

/// Reads the records of one segment, stopping without error at the first
/// place where no whole record stands: a short read, a wrong magic, or a
/// checksum that does not match.
pub fn scan_segment(bytes: &[u8]) -> (out: Vec<WalFrame>)
    ensures
        frame_views(out@) == scan(bytes@),
{
    let mut out: Vec<WalFrame> = Vec::new();
    let mut pos: usize = 0;
    let n: usize = bytes.len();
    assert(bytes@.skip(0) =~= bytes@);
    assert(frame_views(out@) + scan(bytes@) =~= scan(bytes@));
    loop
        invariant
            n == bytes@.len(),
            pos <= n,
            scan(bytes@) == frame_views(out@) + scan(bytes@.skip(pos as int)),
        ensures
            parse_one(bytes@.skip(pos as int)) is None,
        decreases n - pos,
    {
        reveal(parse_one);
        let ghost rest = bytes@.skip(pos as int);
        if n - pos < HEADER_LEN {
            assert(parse_one(rest) is None);
            break;
        }
        if bytes[pos] != 0x41 || bytes[pos + 1] != 0x53 || bytes[pos + 2] != 0x54 || bytes[pos + 3]
            != 0x57 {
            assert(rest.subrange(0, 4) != magic()) by {
                let m = rest.subrange(0, 4);
                assert(m[0] == bytes@[pos as int]);
                assert(m[1] == bytes@[pos + 1]);
                assert(m[2] == bytes@[pos + 2]);
                assert(m[3] == bytes@[pos + 3]);
            }
            break;
        }
        assert(rest.subrange(0, 4) =~= magic());
        let len32: u32 = read_be_u32(bytes, pos + 30);
        assert(len32 == u32_at(rest, 30));
        let len: u64 = len32 as u64;
        let avail: u64 = (n - pos) as u64;
        if avail < len + 38 {
            assert(parse_one(rest) is None);
            break;
        }
        let body_end: usize = pos + HEADER_LEN + len32 as usize;
        let crc = checksum(slice_subrange(bytes, pos, body_end));
        assert(bytes@.subrange(pos as int, body_end as int) =~= rest.subrange(
            0,
            HEADER_LEN + len,
        ));
        let got: u32 = read_be_u32(bytes, body_end);
        assert(got == u32_at(rest, HEADER_LEN + len));
        if crc != got {
            assert(parse_one(rest) is None);
            break;
        }
        let seq: u64 = read_be_u64(bytes, pos + 14);
        let ts: u64 = read_be_u64(bytes, pos + 22);
        let body = slice_to_vec(slice_subrange(bytes, pos + HEADER_LEN, body_end));
        let frame = WalFrame { rtype: bytes[pos + 5], seq, ts, body };
        proof {
            assert(frame.body@ =~= rest.subrange(HEADER_LEN as int, HEADER_LEN + len));
            assert(seq == u64_at(rest, 14));
            assert(ts == u64_at(rest, 22));
            assert(parse_one(rest) == Some((frame@, HEADER_LEN + len + TRAILER_LEN)));
            assert(rest.skip(HEADER_LEN + len + TRAILER_LEN) =~= bytes@.skip(
                body_end + TRAILER_LEN,
            ));
            assert(frame_views(out@.push(frame)) =~= frame_views(out@) + seq![frame@]);
        }
        out.push(frame);
        pos = body_end + TRAILER_LEN;
    }
    assert(frame_views(out@) + scan(bytes@.skip(pos as int)) =~= frame_views(out@));
    out
}

/// The bytes of a segment that holds the records `fs` one after another.
pub open spec fn log_bytes(fs: Seq<FrameView>) -> Seq<u8>
    decreases fs.len(),
{
    if fs.len() == 0 {
        Seq::empty()
    } else {
        frame_bytes(fs[0]) + log_bytes(fs.skip(1))
    }
}

/// Whether every body in `fs` fits the length field.
pub open spec fn bodies_fit(fs: Seq<FrameView>) -> bool {
    forall|i: int| 0 <= i < fs.len() ==> (#[trigger] fs[i]).body.len() <= u32::MAX
}

/// A framed record, whatever follows it, reads back as itself.
pub proof fn lemma_parse_frame(f: FrameView, rest: Seq<u8>)
    requires
        f.body.len() <= u32::MAX,
    ensures
        frame_bytes(f).len() == HEADER_LEN + f.body.len() + TRAILER_LEN,
        parse_one(frame_bytes(f) + rest) == Some((f, frame_bytes(f).len() as int)),
{
    reveal(header_bytes);
    reveal(parse_one);
    let len = f.body.len() as u32;
    let head = header_bytes(f.rtype, f.seq, f.ts, len);
    let crc = crc32c_of(covered_bytes(f));
    let b = frame_bytes(f) + rest;
    lemma_be_u32_round_trip(len);
    lemma_be_u32_round_trip(crc);
    lemma_be_u64_round_trip(f.seq);
    lemma_be_u64_round_trip(f.ts);
    lemma_be_u64_round_trip(0);
    assert(head.len() == HEADER_LEN);
    assert(b.subrange(0, 4) =~= magic());
    assert(b.subrange(0, HEADER_LEN as int) =~= head);
    assert(b.subrange(14, 22) =~= be_u64(f.seq));
    assert(b.subrange(22, 30) =~= be_u64(f.ts));
    assert(b.subrange(30, 34) =~= be_u32(len));
    assert(u32_at(b, 30) == u32_at(be_u32(len), 0)) by {
        let e = be_u32(len);
        assert(b[30] == e[0] && b[31] == e[1] && b[32] == e[2] && b[33] == e[3]);
    }
    assert(u64_at(b, 14) == u64_at(be_u64(f.seq), 0)) by {
        let e = be_u64(f.seq);
        assert(b[14] == e[0] && b[15] == e[1] && b[16] == e[2] && b[17] == e[3]);
        assert(b[18] == e[4] && b[19] == e[5] && b[20] == e[6] && b[21] == e[7]);
    }
    assert(u64_at(b, 22) == u64_at(be_u64(f.ts), 0)) by {
        let e = be_u64(f.ts);
        assert(b[22] == e[0] && b[23] == e[1] && b[24] == e[2] && b[25] == e[3]);
        assert(b[26] == e[4] && b[27] == e[5] && b[28] == e[6] && b[29] == e[7]);
    }
    assert(b[5] == f.rtype);
    assert(b.subrange(0, HEADER_LEN + len) =~= covered_bytes(f));
    assert(b.subrange(HEADER_LEN as int, HEADER_LEN + len) =~= f.body);
    assert(u32_at(b, HEADER_LEN + len) == u32_at(be_u32(crc), 0)) by {
        let e = be_u32(crc);
        let at = HEADER_LEN + len;
        assert(b[at] == e[0] && b[at + 1] == e[1] && b[at + 2] == e[2] && b[at + 3] == e[3]);
    }
}

/// Records written one after another are read back in order, and reading
/// goes on into whatever follows them.
pub proof fn lemma_scan_log(fs: Seq<FrameView>, tail: Seq<u8>)
    requires
        bodies_fit(fs),
    ensures
        scan(log_bytes(fs) + tail) == fs + scan(tail),
    decreases fs.len(),
{
    if fs.len() == 0 {
        assert(log_bytes(fs) + tail =~= tail);
        assert(fs + scan(tail) =~= scan(tail));
    } else {
        let f = fs[0];
        let later = fs.skip(1);
        let rest = log_bytes(later) + tail;
        assert(f.body.len() <= u32::MAX);
        lemma_parse_frame(f, rest);
        assert(bodies_fit(later)) by {
            assert forall|i: int| 0 <= i < later.len() implies (#[trigger] later[i]).body.len()
                <= u32::MAX by {
                assert(later[i] == fs[i + 1]);
            }
        }
        lemma_scan_log(later, tail);
        let b = log_bytes(fs) + tail;
        assert(b =~= frame_bytes(f) + rest);
        assert(b.skip(frame_bytes(f).len() as int) =~= rest);
        assert(seq![f] + (later + scan(tail)) =~= fs + scan(tail));
    }
}

/// Durability of the format: a segment that holds the records `fs`, each
/// written whole, is read back as exactly `fs`, in order.
pub proof fn lemma_replay_returns_what_was_written(fs: Seq<FrameView>)
    requires
        bodies_fit(fs),
    ensures
        scan(log_bytes(fs)) == fs,
{
    lemma_scan_log(fs, Seq::empty());
    assert(log_bytes(fs) + Seq::<u8>::empty() =~= log_bytes(fs));
    assert(parse_one(Seq::<u8>::empty()) is None) by {
        reveal(parse_one);
    }
    assert(fs + scan(Seq::<u8>::empty()) =~= fs);
}

/// No whole record stands where only the beginning of one was written.
pub proof fn lemma_torn_record_is_rejected(f: FrameView, torn: Seq<u8>)
    requires
        f.body.len() <= u32::MAX,
        torn.len() < frame_bytes(f).len(),
        torn == frame_bytes(f).take(torn.len() as int),
    ensures
        parse_one(torn) is None,
{
    reveal(parse_one);
    if torn.len() >= HEADER_LEN {
        let len = f.body.len() as u32;
        lemma_parse_frame(f, Seq::empty());
        let whole = frame_bytes(f) + Seq::<u8>::empty();
        assert(whole =~= frame_bytes(f));
        assert(torn[30] == whole[30] && torn[31] == whole[31] && torn[32] == whole[32]
            && torn[33] == whole[33]);
        assert(u32_at(torn, 30) == u32_at(whole, 30));
    }
}

/// Torn-tail recovery: where the last record of a segment was cut short, by
/// however many bytes, reading yields every record before it and drops the
/// torn one.
pub proof fn lemma_torn_tail_is_dropped(fs: Seq<FrameView>, last: FrameView, torn: Seq<u8>)
    requires
        bodies_fit(fs),
        last.body.len() <= u32::MAX,
        torn.len() < frame_bytes(last).len(),
        torn == frame_bytes(last).take(torn.len() as int),
    ensures
        scan(log_bytes(fs) + torn) == fs,
{
    lemma_scan_log(fs, torn);
    lemma_torn_record_is_rejected(last, torn);
    assert(fs + scan(torn) =~= fs);
}

/// A record whose body was altered in place: the header and trailer of
/// `f`, around `body`.
pub open spec fn altered_bytes(f: FrameView, body: Seq<u8>) -> Seq<u8> {
    header_bytes(f.rtype, f.seq, f.ts, f.body.len() as u32) + body + be_u32(
        crc32c_of(covered_bytes(f)),
    )
}

/// No whole record stands where the body of one was altered in place so
/// that its checksum no longer matches.
pub proof fn lemma_altered_record_is_rejected(f: FrameView, body: Seq<u8>, after: Seq<u8>)
    requires
        f.body.len() <= u32::MAX,
        body.len() == f.body.len(),
        crc32c_of(header_bytes(f.rtype, f.seq, f.ts, f.body.len() as u32) + body) != crc32c_of(
            covered_bytes(f),
        ),
    ensures
        parse_one(altered_bytes(f, body) + after) is None,
{
    reveal(header_bytes);
    reveal(parse_one);
    let len = f.body.len() as u32;
    let head = header_bytes(f.rtype, f.seq, f.ts, len);
    let crc = crc32c_of(covered_bytes(f));
    let b = altered_bytes(f, body) + after;
    lemma_be_u32_round_trip(len);
    lemma_be_u32_round_trip(crc);
    assert(head.len() == HEADER_LEN);
    assert(u32_at(b, 30) == u32_at(be_u32(len), 0)) by {
        let e = be_u32(len);
        assert(b[30] == e[0] && b[31] == e[1] && b[32] == e[2] && b[33] == e[3]);
    }
    assert(b.subrange(0, HEADER_LEN + len) =~= head + body);
    assert(u32_at(b, HEADER_LEN + len) == u32_at(be_u32(crc), 0)) by {
        let e = be_u32(crc);
        let at = HEADER_LEN + len;
        assert(b[at] == e[0] && b[at + 1] == e[1] && b[at + 2] == e[2] && b[at + 3] == e[3]);
    }
}

/// Checksum robustness: where the body of a record was altered in place so
/// that its checksum no longer matches, reading yields the records before
/// it and skips the altered record and everything after it in the segment.
pub proof fn lemma_altered_record_ends_the_scan(
    fs: Seq<FrameView>,
    f: FrameView,
    body: Seq<u8>,
    after: Seq<u8>,
)
    requires
        bodies_fit(fs),
        f.body.len() <= u32::MAX,
        body.len() == f.body.len(),
        crc32c_of(header_bytes(f.rtype, f.seq, f.ts, f.body.len() as u32) + body) != crc32c_of(
            covered_bytes(f),
        ),
    ensures
        scan(log_bytes(fs) + (altered_bytes(f, body) + after)) == fs,
{
    let b = altered_bytes(f, body) + after;
    lemma_scan_log(fs, b);
    lemma_altered_record_is_rejected(f, body, after);
    assert(fs + scan(b) =~= fs);
}

/// The records of the segments `segments`, read one segment after
/// another. A torn or altered place ends the reading of its segment only.
pub open spec fn scan_all(segments: Seq<Seq<u8>>) -> Seq<FrameView>
    decreases segments.len(),
{
    if segments.len() == 0 {
        Seq::empty()
    } else {
        scan_all(segments.drop_last()) + scan(segments.last())
    }
}

/// The bytes of a list of segments.
pub open spec fn segment_bytes(v: Seq<Vec<u8>>) -> Seq<Seq<u8>> {
    v.map_values(|s: Vec<u8>| s@)
}

/// Reads the records of a log from the bytes of its segments, given in the
/// order in which the manifest lists them.
pub fn replay(segments: &Vec<Vec<u8>>) -> (out: Vec<WalFrame>)
    ensures
        frame_views(out@) == scan_all(segment_bytes(segments@)),
{
    let ghost all = segment_bytes(segments@);
    let mut out: Vec<WalFrame> = Vec::new();
    let mut i: usize = 0;
    assert(all.take(0) =~= Seq::<Seq<u8>>::empty());
    assert(frame_views(out@) =~= Seq::<FrameView>::empty());
    while i < segments.len()
        invariant
            i <= segments@.len(),
            all == segment_bytes(segments@),
            frame_views(out@) == scan_all(all.take(i as int)),
        decreases segments@.len() - i,
    {
        let mut frames = scan_segment(segments[i].as_slice());
        let ghost before = out@;
        let ghost added = frames@;
        out.append(&mut frames);
        proof {
            assert(all.take(i + 1).drop_last() =~= all.take(i as int));
            assert(all.take(i + 1).last() == segments@[i as int]@);
            assert(frame_views(before + added) =~= frame_views(before) + frame_views(added));
        }
        i += 1;
    }
    assert(all.take(i as int) =~= all);
    out
}

/// The records `parts`, one list after another.
pub open spec fn all_records(parts: Seq<Seq<FrameView>>) -> Seq<FrameView>
    decreases parts.len(),
{
    if parts.len() == 0 {
        Seq::empty()
    } else {
        all_records(parts.drop_last()) + parts.last()
    }
}

/// Durability across segments: where every segment of a log holds records
/// written whole, the log is read back as those records, segment after
/// segment, in order.
pub proof fn lemma_replay_returns_every_segment(parts: Seq<Seq<FrameView>>)
    requires
        forall|i: int| 0 <= i < parts.len() ==> bodies_fit(#[trigger] parts[i]),
    ensures
        scan_all(parts.map_values(|fs: Seq<FrameView>| log_bytes(fs))) == all_records(parts),
    decreases parts.len(),
{
    let segments = parts.map_values(|fs: Seq<FrameView>| log_bytes(fs));
    if parts.len() > 0 {
        let front = parts.drop_last();
        assert forall|i: int| 0 <= i < front.len() implies bodies_fit(#[trigger] front[i]) by {
            assert(front[i] == parts[i]);
        }
        lemma_replay_returns_every_segment(front);
        assert(segments.drop_last() =~= front.map_values(|fs: Seq<FrameView>| log_bytes(fs)));
        assert(segments.last() == log_bytes(parts.last()));
        lemma_replay_returns_what_was_written(parts.last());
    }
}

} // verus!
