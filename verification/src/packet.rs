//! The plotter's serial protocol: a trajectory becomes a list of relative
//! motion segments, and each segment a ten-byte packet
//! `AA 55 kind sx_lo sx_hi sy_lo sy_hi dt_lo dt_hi crc`, where `crc` is the
//! XOR of the seven bytes from `kind` to `dt_hi`.

use vstd::prelude::*;
use crate::trajectory::Point;

verus! {

pub const PACKET_HEADER_1: u8 = 0xAA;

pub const PACKET_HEADER_2: u8 = 0x55;

/// A pen-up move to an absolute position (the first segment).
pub const PACKET_KIND_MOVE: u8 = 0;

/// A pen-down draw by a relative offset.
pub const PACKET_KIND_DRAW: u8 = 1;

/// Length of an encoded packet.
pub const PACKET_LEN: usize = 10;

/// One motion of the plotter, in canvas pixels.
#[derive(Clone, Copy, Debug, PartialEq, Eq, Structural)]
pub struct MotionSegment {
    pub kind: u8,
    pub dx_px: i32,
    pub dy_px: i32,
    /// Time the motion takes, in milliseconds (saturated at `u16::MAX`).
    pub dt_ms: u16,
}

/// The fields that go on the wire, with the motion in motor steps.
#[derive(Clone, Copy, Debug, PartialEq, Eq, Structural)]
pub struct Packet {
    pub kind: u8,
    pub steps_x: i16,
    pub steps_y: i16,
    pub dt_ms: u16,
}

/// XOR of all the bytes, folded from the left starting at 0.
pub open spec fn xor_all(bytes: Seq<u8>) -> u8
    decreases bytes.len(),
{
    if bytes.len() == 0 {
        0
    } else {
        xor_all(bytes.drop_last()) ^ bytes.last()
    }
}

/// The two bytes of `v`, least significant first.
pub open spec fn le_bytes(v: u16) -> Seq<u8> {
    seq![#[verifier::truncate] ((v % 256) as u8), #[verifier::truncate] ((v / 256) as u8)]
}

/// The seven bytes the checksum covers: kind, then the three fields in
/// little-endian order, the step counts in two's complement.
pub open spec fn packet_body(p: Packet) -> Seq<u8> {
    seq![p.kind] + le_bytes(p.steps_x as u16) + le_bytes(p.steps_y as u16) + le_bytes(p.dt_ms)
}

/// The ten bytes of an encoded packet.
pub open spec fn packet_bytes(p: Packet) -> Seq<u8> {
    seq![PACKET_HEADER_1, PACKET_HEADER_2] + packet_body(p) + seq![xor_all(packet_body(p))]
}

/// The segment from sample `prev` to sample `cur`: the pixel offset and the time
/// between them, the time clamped to `0..=u16::MAX`.
pub open spec fn segment_between(prev: Point, cur: Point) -> MotionSegment {
    MotionSegment {
        kind: PACKET_KIND_DRAW,
        dx_px: (cur.x - prev.x) as i32,
        dy_px: (cur.y - prev.y) as i32,
        dt_ms: if cur.timestamp_ms <= prev.timestamp_ms {
            0
        } else if cur.timestamp_ms - prev.timestamp_ms >= u16::MAX {
            u16::MAX
        } else {
            (cur.timestamp_ms - prev.timestamp_ms) as u16
        },
    }
}

/// The first segment: a move to the first sample's absolute position.
pub open spec fn first_segment(first: Point) -> MotionSegment {
    MotionSegment { kind: PACKET_KIND_MOVE, dx_px: first.x, dy_px: first.y, dt_ms: 0 }
}

/// Offsets between consecutive samples fit in `i32`.
pub open spec fn offsets_fit(points: Seq<Point>) -> bool {
    forall|m: int|
        0 < m < points.len() ==> i32::MIN <= (#[trigger] points[m]).x - points[m - 1].x
            <= i32::MAX && i32::MIN <= points[m].y - points[m - 1].y <= i32::MAX
}

/// Whether the offsets between consecutive samples fit in `i32`.
pub fn offsets_fit_check(points: &[Point]) -> (r: bool)
    ensures
        r == offsets_fit(points@),
{
    let mut m: usize = 1;
    while m < points.len()
        invariant
            1 <= m,
            m <= points@.len() || points@.len() == 0,
            forall|k: int|
                0 < k < m && k < points@.len() ==> i32::MIN <= (#[trigger] points@[k]).x
                    - points@[k - 1].x <= i32::MAX && i32::MIN <= points@[k].y - points@[k
                    - 1].y <= i32::MAX,
        decreases points@.len() - m,
    {
        let dx = points[m].x as i64 - points[m - 1].x as i64;
        let dy = points[m].y as i64 - points[m - 1].y as i64;
        if dx < i32::MIN as i64 || dx > i32::MAX as i64 || dy < i32::MIN as i64 || dy
            > i32::MAX as i64 {
            proof {
                assert(!(i32::MIN <= points@[m as int].x - points@[m - 1].x <= i32::MAX
                    && i32::MIN <= points@[m as int].y - points@[m - 1].y <= i32::MAX));
            }
            return false;
        }
        m += 1;
    }
    true
}

/// XOR-checksum of `bytes`.
pub fn crc8(bytes: &[u8]) -> (crc: u8)
    ensures
        crc == xor_all(bytes@),
{
    let mut acc: u8 = 0;
    let mut i: usize = 0;
    while i < bytes.len()
        invariant
            i <= bytes@.len(),
            acc == xor_all(bytes@.take(i as int)),
        decreases bytes@.len() - i,
    {
        proof {
            assert(bytes@.take(i + 1).drop_last() =~= bytes@.take(i as int));
        }
        acc = acc ^ bytes[i];
        i += 1;
    }
    proof {
        assert(bytes@.take(i as int) =~= bytes@);
    }
    acc
}

/// Encodes a packet into its ten wire bytes.
pub fn encode_packet(packet: &Packet) -> (out: [u8; 10])
    ensures
        out@ == packet_bytes(*packet),
{
    let sx = packet.steps_x as u16;
    let sy = packet.steps_y as u16;
    let mut out = [0u8; 10];
    out[0] = PACKET_HEADER_1;
    out[1] = PACKET_HEADER_2;
    out[2] = packet.kind;
    out[3] = (sx % 256) as u8;
    out[4] = (sx / 256) as u8;
    out[5] = (sy % 256) as u8;
    out[6] = (sy / 256) as u8;
    out[7] = (packet.dt_ms % 256) as u8;
    out[8] = (packet.dt_ms / 256) as u8;
    let ghost before = out@;
    let body = &out[2..9];
    proof {
        assert(body@ =~= before.subrange(2, 9));
        assert(body@ =~= packet_body(*packet));
    }
    let crc = crc8(body);
    out[9] = crc;
    proof {
        assert(out@ =~= packet_bytes(*packet));
    }
    out
}

/// Turns a trajectory into plotter motions: a move to the first sample, then
/// one draw per following sample, by the offset from the sample before it and
/// over the time between them.
pub fn build_segments(points: &[Point]) -> (segments: Vec<MotionSegment>)
    requires
        points@.len() >= 1,
        offsets_fit(points@),
    ensures
        segments@.len() == points@.len(),
        segments@[0] == first_segment(points@[0]),
        forall|m: int|
            0 < m < points@.len() ==> #[trigger] segments@[m] == segment_between(
                points@[m - 1],
                points@[m],
            ),
{
    let mut segments: Vec<MotionSegment> = Vec::new();
    let first = &points[0];
    segments.push(
        MotionSegment { kind: PACKET_KIND_MOVE, dx_px: first.x, dy_px: first.y, dt_ms: 0 },
    );
    let mut i: usize = 1;
    while i < points.len()
        invariant
            1 <= i <= points@.len(),
            offsets_fit(points@),
            segments@.len() == i,
            segments@[0] == first_segment(points@[0]),
            forall|m: int|
                0 < m < i ==> #[trigger] segments@[m] == segment_between(points@[m - 1], points@[m]),
        decreases points@.len() - i,
    {
        let prev = &points[i - 1];
        let cur = &points[i];
        proof {
            assert(i32::MIN <= points@[i as int].x - points@[i - 1].x <= i32::MAX);
        }
        let dx_px = cur.x - prev.x;
        let dy_px = cur.y - prev.y;
        let dt_full = cur.timestamp_ms.saturating_sub(prev.timestamp_ms);
        let dt_ms: u16 = if dt_full >= 65535 { 65535 } else { dt_full as u16 };
        segments.push(MotionSegment { kind: PACKET_KIND_DRAW, dx_px, dy_px, dt_ms });
        i += 1;
    }
    segments
}

/// XOR distributes over concatenation.
pub proof fn lemma_xor_all_concat(a: Seq<u8>, b: Seq<u8>)
    ensures
        xor_all(a + b) == xor_all(a) ^ xor_all(b),
    decreases b.len(),
{
    if b.len() == 0 {
        assert(a + b =~= a);
        let x = xor_all(a);
        assert(x ^ 0u8 == x) by (bit_vector);
    } else {
        assert((a + b).drop_last() =~= a + b.drop_last());
        lemma_xor_all_concat(a, b.drop_last());
        let x = xor_all(a);
        let y = xor_all(b.drop_last());
        let z = b.last();
        assert((x ^ y) ^ z == x ^ (y ^ z)) by (bit_vector);
    }
}

/// Appending its checksum to any byte string gives a string whose checksum is 0.
pub proof fn lemma_append_checksum(a: Seq<u8>)
    ensures
        xor_all(a.push(xor_all(a))) == 0,
{
    let c = xor_all(a);
    assert(a.push(c).drop_last() =~= a);
    assert(c ^ c == 0u8) by (bit_vector);
}

/// The checksum does not depend on the order of the bytes: strings with the
/// same bytes, counted with multiplicity, have the same checksum.
pub proof fn lemma_xor_all_permutation(a: Seq<u8>, b: Seq<u8>)
    requires
        a.to_multiset() == b.to_multiset(),
    ensures
        xor_all(a) == xor_all(b),
    decreases a.len(),
{
    broadcast use vstd::multiset::group_multiset_axioms;

    vstd::seq_lib::to_multiset_len(a);
    vstd::seq_lib::to_multiset_len(b);
    if a.len() == 0 {
        assert(b =~= Seq::<u8>::empty());
    } else {
        let x = a.last();
        let rest = a.drop_last();
        assert(a =~= rest.push(x));
        vstd::seq_lib::to_multiset_build(rest, x);
        vstd::seq_lib::to_multiset_contains(a, x);
        vstd::seq_lib::to_multiset_contains(b, x);
        assert(a[a.len() - 1] == x);
        assert(a.contains(x));
        assert(b.contains(x));
        let i = choose|i: int| 0 <= i < b.len() && b[i] == x;
        let b2 = b.remove(i);
        vstd::seq_lib::to_multiset_remove(b, i);
        assert(rest.to_multiset() =~= b2.to_multiset());
        lemma_xor_all_permutation(rest, b2);
        let pre = b.subrange(0, i);
        let post = b.subrange(i + 1, b.len() as int);
        assert(b =~= pre + seq![x] + post);
        assert(b2 =~= pre + post);
        lemma_xor_all_concat(pre + seq![x], post);
        lemma_xor_all_concat(pre, seq![x]);
        lemma_xor_all_concat(pre, post);
        assert(seq![x].drop_last() =~= Seq::<u8>::empty());
        assert(xor_all(seq![x]) == xor_all(Seq::<u8>::empty()) ^ x);
        let p = xor_all(pre);
        let q = xor_all(post);
        assert(0u8 ^ x == x && (p ^ x) ^ q == (p ^ q) ^ x) by (bit_vector);
    }
}

/// The receiver's check: the XOR of everything after the header, checksum
/// included, is zero for every encoded packet.
pub proof fn lemma_packet_checksum(p: Packet)
    ensures
        packet_bytes(p).len() == PACKET_LEN,
        xor_all(packet_bytes(p).subrange(2, PACKET_LEN as int)) == 0,
{
    let body = packet_body(p);
    let c = xor_all(body);
    assert(packet_bytes(p).subrange(2, PACKET_LEN as int) =~= body.push(c));
    assert(body.push(c).drop_last() =~= body);
    assert(xor_all(body.push(c)) == xor_all(body) ^ c);
    assert(c ^ c == 0u8) by (bit_vector);
}

/// The checksum catches any single corrupted byte.
pub proof fn lemma_crc_detects_single_error(s: Seq<u8>, i: int, b: u8)
    requires
        0 <= i < s.len(),
        b != s[i],
    ensures
        xor_all(s.update(i, b)) != xor_all(s),
{
    let pre = s.subrange(0, i);
    let post = s.subrange(i + 1, s.len() as int);
    assert(s =~= pre + seq![s[i]] + post);
    assert(s.update(i, b) =~= pre + seq![b] + post);
    lemma_xor_all_concat(pre + seq![s[i]], post);
    lemma_xor_all_concat(pre, seq![s[i]]);
    lemma_xor_all_concat(pre + seq![b], post);
    lemma_xor_all_concat(pre, seq![b]);
    assert(seq![s[i]].drop_last() =~= Seq::<u8>::empty());
    assert(seq![b].drop_last() =~= Seq::<u8>::empty());
    assert(xor_all(seq![s[i]]) == xor_all(Seq::<u8>::empty()) ^ s[i]);
    assert(xor_all(seq![b]) == xor_all(Seq::<u8>::empty()) ^ b);
    let x = xor_all(pre);
    let z = xor_all(post);
    let a = s[i];
    assert(0u8 ^ a == a && 0u8 ^ b == b) by (bit_vector);
    assert(a != b ==> (x ^ a) ^ z != (x ^ b) ^ z) by (bit_vector);
}

proof fn lemma_le_bytes_injective(u: u16, v: u16)
    requires
        (u % 256) as u8 == (v % 256) as u8,
        (u / 256) as u8 == (v / 256) as u8,
    ensures
        u == v,
{
    assert(((u % 256) as u8 == (v % 256) as u8 && (u / 256) as u8 == (v / 256) as u8) ==> u == v)
        by (bit_vector);
}

/// Distinct packets have distinct encodings: every field can be read back
/// from the bytes.
pub proof fn lemma_packet_injective(p: Packet, q: Packet)
    requires
        packet_bytes(p) == packet_bytes(q),
    ensures
        p == q,
{
    let bp = packet_bytes(p);
    let bq = packet_bytes(q);
    assert(bp[2] == bq[2]);
    assert(bp[3] == bq[3] && bp[4] == bq[4]);
    assert(bp[5] == bq[5] && bp[6] == bq[6]);
    assert(bp[7] == bq[7] && bp[8] == bq[8]);
    lemma_le_bytes_injective(p.steps_x as u16, q.steps_x as u16);
    lemma_le_bytes_injective(p.steps_y as u16, q.steps_y as u16);
    lemma_le_bytes_injective(p.dt_ms, q.dt_ms);
    let (a, b) = (p.steps_x, q.steps_x);
    assert((a as u16) == (b as u16) ==> a == b) by (bit_vector);
    let (c, d) = (p.steps_y, q.steps_y);
    assert((c as u16) == (d as u16) ==> c == d) by (bit_vector);
}

/// Where the pen is after the motions `segs`, starting from the origin: the
/// first (absolute) offset plus all the relative ones.
pub open spec fn pen_position(segs: Seq<MotionSegment>) -> (int, int)
    decreases segs.len(),
{
    if segs.len() == 0 {
        (0, 0)
    } else {
        let p = pen_position(segs.drop_last());
        (p.0 + segs.last().dx_px, p.1 + segs.last().dy_px)
    }
}

/// Following the segments built from a trajectory puts the pen on each sample
/// in turn: after the first `m + 1` motions it is at sample `m`.
pub proof fn lemma_segments_track_points(points: Seq<Point>, segs: Seq<MotionSegment>, m: int)
    requires
        points.len() >= 1,
        offsets_fit(points),
        segs.len() == points.len(),
        segs[0] == first_segment(points[0]),
        forall|k: int| 0 < k < points.len() ==> #[trigger] segs[k] == segment_between(
            points[k - 1],
            points[k],
        ),
        0 <= m < points.len(),
    ensures
        pen_position(segs.take(m + 1)) == (points[m].x as int, points[m].y as int),
    decreases m,
{
    let s = segs.take(m + 1);
    assert(s.drop_last() =~= segs.take(m));
    assert(s.last() == segs[m]);
    if m == 0 {
        assert(segs.take(0) =~= Seq::<MotionSegment>::empty());
        assert(pen_position(segs.take(0)) == (0int, 0int));
    } else {
        lemma_segments_track_points(points, segs, m - 1);
        assert(segs[m] == segment_between(points[m - 1], points[m]));
        assert(i32::MIN <= points[m].x - points[m - 1].x <= i32::MAX);
        assert(i32::MIN <= points[m].y - points[m - 1].y <= i32::MAX);
        assert(segs[m].dx_px == points[m].x - points[m - 1].x);
    }
}

/// The time of a draw segment is the time elapsed between its two samples,
/// saturated to the `u16` range: `min(max(cur - prev, 0), 65535)`. Its offset
/// is the difference of the positions.
pub proof fn lemma_segment_time(prev: Point, cur: Point)
    requires
        i32::MIN <= cur.x - prev.x <= i32::MAX,
        i32::MIN <= cur.y - prev.y <= i32::MAX,
    ensures
        prev.timestamp_ms <= cur.timestamp_ms && cur.timestamp_ms - prev.timestamp_ms <= 65535
            ==> segment_between(prev, cur).dt_ms as int == cur.timestamp_ms - prev.timestamp_ms,
        cur.timestamp_ms - prev.timestamp_ms >= 65535 ==> segment_between(prev, cur).dt_ms
            == 65535,
        cur.timestamp_ms <= prev.timestamp_ms ==> segment_between(prev, cur).dt_ms == 0,
        segment_between(prev, cur).dx_px == cur.x - prev.x,
        segment_between(prev, cur).dy_px == cur.y - prev.y,
        segment_between(prev, cur).kind == PACKET_KIND_DRAW,
{
}

/// Total time of the motions `segs`.
pub open spec fn total_time(segs: Seq<MotionSegment>) -> int
    decreases segs.len(),
{
    if segs.len() == 0 {
        0
    } else {
        total_time(segs.drop_last()) + segs.last().dt_ms
    }
}

/// For a trajectory whose timestamps never decrease and whose gaps fit in a
/// segment, the segments take exactly the recorded time: after the first
/// `m + 1` motions, the time from the first sample to sample `m`.
pub proof fn lemma_segments_keep_time(points: Seq<Point>, segs: Seq<MotionSegment>, m: int)
    requires
        points.len() >= 1,
        offsets_fit(points),
        segs.len() == points.len(),
        segs[0] == first_segment(points[0]),
        forall|k: int| 0 < k < points.len() ==> #[trigger] segs[k] == segment_between(
            points[k - 1],
            points[k],
        ),
        forall|k: int|
            0 < k < points.len() ==> points[k - 1].timestamp_ms <= (#[trigger] points[k]).timestamp_ms
                <= points[k - 1].timestamp_ms + 65535,
        0 <= m < points.len(),
    ensures
        total_time(segs.take(m + 1)) == points[m].timestamp_ms - points[0].timestamp_ms,
    decreases m,
{
    let t = segs.take(m + 1);
    assert(t.drop_last() =~= segs.take(m));
    assert(t.last() == segs[m]);
    if m == 0 {
        assert(segs.take(0) =~= Seq::<MotionSegment>::empty());
        assert(total_time(segs.take(0)) == 0);
    } else {
        lemma_segments_keep_time(points, segs, m - 1);
        assert(points[m - 1].timestamp_ms <= points[m].timestamp_ms);
        assert(i32::MIN <= points[m].x - points[m - 1].x <= i32::MAX);
        lemma_segment_time(points[m - 1], points[m]);
    }
}

} // verus!
