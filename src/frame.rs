//! The fixed 47-byte frame layout and its decoder.
use vstd::prelude::*;
use crate::checksum::{checksum, crc_of, lemma_bit_flip_detected};

verus! {

/// The first byte of every frame.
pub const FRAME_START: u8 = 0x54;

/// The version/length byte of a frame of twelve points.
pub const VER_LEN: u8 = 0x2C;

/// The size of one frame on the wire, in bytes.
pub const FRAME_SIZE: usize = 47;

/// The number of points in one frame.
pub const POINT_PER_PACK: usize = 12;

/// Offset of the speed field.
pub const SPEED_OFFSET: usize = 2;

/// Offset of the start angle field.
pub const START_ANGLE_OFFSET: usize = 4;

/// Offset of the first point.
pub const POINTS_OFFSET: usize = 6;

/// Size of one point: a distance (two bytes) and an intensity (one byte).
pub const POINT_SIZE: usize = 3;

/// Offset of the end angle field.
pub const END_ANGLE_OFFSET: usize = 42;

/// Offset of the timestamp field.
pub const TIMESTAMP_OFFSET: usize = 44;

/// Offset of the checksum byte; every byte before it is covered by it.
pub const CRC_OFFSET: usize = 46;

/// One angular sample.
#[derive(Debug, Clone, Copy, PartialEq, Eq, Structural)]
pub struct Point {
    /// Distance in millimetres.
    pub distance: u16,
    /// Strength of the reflected signal.
    pub intensity: u8,
}

/// One decoded frame.
#[derive(Debug, Clone, Copy)]
pub struct Frame {
    pub header: u8,
    pub ver_len: u8,
    /// Rotational speed of the motor.
    pub speed: u16,
    /// Angle of the first point, in hundredths of a degree.
    pub start_angle: u16,
    /// The samples, in angular order from `start_angle` to `end_angle`.
    pub points: [Point; POINT_PER_PACK],
    /// Angle of the last point, in hundredths of a degree.
    pub end_angle: u16,
    /// Device-relative time.
    pub timestamp: u16,
    /// Checksum over the 46 bytes before it.
    pub crc8: u8,
}

/// What a frame holds, with its points as a sequence.
pub struct FrameView {
    pub header: u8,
    pub ver_len: u8,
    pub speed: u16,
    pub start_angle: u16,
    pub points: Seq<Point>,
    pub end_angle: u16,
    pub timestamp: u16,
    pub crc8: u8,
}

impl View for Frame {
    type V = FrameView;

    open spec fn view(&self) -> FrameView {
        FrameView {
            header: self.header,
            ver_len: self.ver_len,
            speed: self.speed,
            start_angle: self.start_angle,
            points: self.points@,
            end_angle: self.end_angle,
            timestamp: self.timestamp,
            crc8: self.crc8,
        }
    }
}

/// Why a window of bytes is not a frame.
#[derive(Debug, Clone, Copy, PartialEq, Eq, Structural)]
pub enum DecodeError {
    /// The window does not begin with the start byte and the version/length
    /// byte of a frame.
    MisalignedByte,
    /// The trailing checksum does not match the bytes before it.
    ChecksumMismatch,
    /// The window is not exactly one frame long.
    MalformedLayout,
}

/// The little-endian 16-bit value of two bytes.
pub open spec fn le_u16(lo: u8, hi: u8) -> u16 {
    (lo as int + 256 * hi as int) as u16
}

/// The low byte of a 16-bit value.
pub open spec fn low_byte(x: u16) -> u8 {
    (x % 256) as u8
}

/// The high byte of a 16-bit value.
pub open spec fn high_byte(x: u16) -> u8 {
    (x / 256) as u8
}

/// The point at index `k` of a frame's bytes.
pub open spec fn point_at(w: Seq<u8>, k: int) -> Point {
    let o = POINTS_OFFSET as int + POINT_SIZE as int * k;
    Point { distance: le_u16(w[o], w[o + 1]), intensity: w[o + 2] }
}

/// The fields that a 47-byte window holds at their fixed offsets.
pub open spec fn frame_fields(w: Seq<u8>) -> FrameView {
    FrameView {
        header: w[0],
        ver_len: w[1],
        speed: le_u16(w[2], w[3]),
        start_angle: le_u16(w[4], w[5]),
        points: Seq::new(POINT_PER_PACK as nat, |k: int| point_at(w, k)),
        end_angle: le_u16(w[42], w[43]),
        timestamp: le_u16(w[44], w[45]),
        crc8: w[46],
    }
}

/// The bytes that the checksum covers.
pub open spec fn frame_body(w: Seq<u8>) -> Seq<u8> {
    w.take(CRC_OFFSET as int)
}

/// What decoding a window gives: the window must be one frame long, carry
/// the checksum of its body, and open with the start and version/length bytes.
pub open spec fn decode_spec(w: Seq<u8>) -> Result<FrameView, DecodeError> {
    if w.len() != FRAME_SIZE {
        Err(DecodeError::MalformedLayout)
    } else if crc_of(frame_body(w)) != w[CRC_OFFSET as int] {
        Err(DecodeError::ChecksumMismatch)
    } else if w[0] != FRAME_START || w[1] != VER_LEN {
        Err(DecodeError::MisalignedByte)
    } else {
        Ok(frame_fields(w))
    }
}

/// The view of a decoding result.
pub open spec fn result_view(r: Result<Frame, DecodeError>) -> Result<FrameView, DecodeError> {
    match r {
        Ok(f) => Ok(f@),
        Err(e) => Err(e),
    }
}

fn read_u16(buf: &[u8], at: usize) -> (r: u16)
    requires
        at + 1 < buf@.len(),
    ensures
        r == le_u16(buf@[at as int], buf@[at as int + 1]),
{
    buf[at] as u16 + buf[at + 1] as u16 * 256
}

/// Decodes one aligned window of bytes into a frame.
pub fn decode(buf: &[u8]) -> (r: Result<Frame, DecodeError>)
    ensures
        result_view(r) == decode_spec(buf@),
{
    if buf.len() != FRAME_SIZE {
        return Err(DecodeError::MalformedLayout);
    }
    let body = &buf[0..CRC_OFFSET];
    assert(body@ =~= frame_body(buf@));
    if checksum(body) != buf[CRC_OFFSET] {
        return Err(DecodeError::ChecksumMismatch);
    }
    if buf[0] != FRAME_START || buf[1] != VER_LEN {
        return Err(DecodeError::MisalignedByte);
    }
    let mut points = [Point { distance: 0, intensity: 0 }; POINT_PER_PACK];
    let mut k: usize = 0;
    while k < POINT_PER_PACK
        invariant
            buf@.len() == FRAME_SIZE,
            k <= POINT_PER_PACK,
            forall|j: int| 0 <= j < k ==> points@[j] == point_at(buf@, j),
        decreases POINT_PER_PACK - k,
    {
        let o = POINTS_OFFSET + POINT_SIZE * k;
        points[k] = Point { distance: read_u16(buf, o), intensity: buf[o + 2] };
        k = k + 1;
    }
    let frame = Frame {
        header: buf[0],
        ver_len: buf[1],
        speed: read_u16(buf, SPEED_OFFSET),
        start_angle: read_u16(buf, START_ANGLE_OFFSET),
        points,
        end_angle: read_u16(buf, END_ANGLE_OFFSET),
        timestamp: read_u16(buf, TIMESTAMP_OFFSET),
        crc8: buf[CRC_OFFSET],
    };
    assert(frame@.points =~= frame_fields(buf@).points);
    Ok(frame)
}

/// The three bytes of one point on the wire.
pub open spec fn point_bytes(p: Point) -> Seq<u8> {
    seq![low_byte(p.distance), high_byte(p.distance), p.intensity]
}

/// The bytes of a sequence of points, one after another.
pub open spec fn points_bytes(ps: Seq<Point>) -> Seq<u8>
    decreases ps.len(),
{
    if ps.len() == 0 {
        Seq::empty()
    } else {
        points_bytes(ps.drop_last()) + point_bytes(ps.last())
    }
}

/// The bytes of a frame on the wire, every field at its fixed offset.
pub open spec fn frame_bytes(f: FrameView) -> Seq<u8> {
    seq![
        f.header,
        f.ver_len,
        low_byte(f.speed),
        high_byte(f.speed),
        low_byte(f.start_angle),
        high_byte(f.start_angle),
    ] + points_bytes(f.points) + seq![
        low_byte(f.end_angle),
        high_byte(f.end_angle),
        low_byte(f.timestamp),
        high_byte(f.timestamp),
        f.crc8,
    ]
}

/// A frame as the sensor sends it: twelve points, the start and
/// version/length bytes, and the checksum of its body.
pub open spec fn frame_is_valid(f: FrameView) -> bool {
    &&& f.points.len() == POINT_PER_PACK
    &&& f.header == FRAME_START
    &&& f.ver_len == VER_LEN
    &&& f.crc8 == crc_of(frame_body(frame_bytes(f)))
}

proof fn lemma_points_bytes(ps: Seq<Point>)
    ensures
        points_bytes(ps).len() == POINT_SIZE * ps.len(),
        forall|k: int|
            0 <= k < ps.len() ==> {
                &&& #[trigger] ps[k].intensity == points_bytes(ps)[3 * k + 2]
                &&& ps[k].distance == le_u16(points_bytes(ps)[3 * k], points_bytes(ps)[3 * k + 1])
            },
    decreases ps.len(),
{
    if ps.len() > 0 {
        lemma_points_bytes(ps.drop_last());
        let d = ps.last().distance;
        assert(le_u16(low_byte(d), high_byte(d)) == d);
        assert forall|k: int| 0 <= k < ps.len() - 1 implies ps[k] == ps.drop_last()[k] by {}
    }
}

proof fn lemma_le_u16_bytes(x: u16)
    ensures
        le_u16(low_byte(x), high_byte(x)) == x,
{
}

/// Serialising a frame and decoding the bytes gives every field back, for
/// every valid frame.
pub proof fn lemma_decode_serialize(f: FrameView)
    requires
        frame_is_valid(f),
    ensures
        decode_spec(frame_bytes(f)) == Ok::<FrameView, DecodeError>(f),
{
    let w = frame_bytes(f);
    lemma_points_bytes(f.points);
    let pb = points_bytes(f.points);
    assert(w.len() == FRAME_SIZE);
    lemma_le_u16_bytes(f.speed);
    lemma_le_u16_bytes(f.start_angle);
    lemma_le_u16_bytes(f.end_angle);
    lemma_le_u16_bytes(f.timestamp);
    assert forall|j: int| 0 <= j < pb.len() implies w[6 + j] == pb[j] by {}
    let g = frame_fields(w);
    assert forall|k: int| 0 <= k < POINT_PER_PACK implies g.points[k] == f.points[k] by {
        assert(f.points[k].intensity == pb[3 * k + 2]);
    }
    assert(g.points =~= f.points);
}

/// Flipping any single bit in the body of a frame that decodes makes the
/// decoder report a checksum mismatch.
pub proof fn lemma_corrupted_frame_rejected(w: Seq<u8>, i: int, bit: u8)
    requires
        decode_spec(w) is Ok,
        0 <= i < CRC_OFFSET,
        bit < 8,
    ensures
        decode_spec(w.update(i, w[i] ^ (1u8 << bit))) == Err::<FrameView, DecodeError>(
            DecodeError::ChecksumMismatch,
        ),
{
    let v = w.update(i, w[i] ^ (1u8 << bit));
    let body = frame_body(w);
    lemma_bit_flip_detected(body, i, bit);
    assert(frame_body(v) =~= body.update(i, body[i] ^ (1u8 << bit)));
}

fn push_u16(v: &mut Vec<u8>, x: u16)
    ensures
        final(v)@ == old(v)@ + seq![low_byte(x), high_byte(x)],
{
    v.push((x % 256) as u8);
    v.push((x / 256) as u8);
}

/// The bytes of a frame on the wire.
pub fn serialize(frame: &Frame) -> (r: Vec<u8>)
    ensures
        r@ == frame_bytes(frame@),
{
    let mut v: Vec<u8> = Vec::new();
    v.push(frame.header);
    v.push(frame.ver_len);
    push_u16(&mut v, frame.speed);
    push_u16(&mut v, frame.start_angle);
    let ghost head = v@;
    let mut k: usize = 0;
    while k < POINT_PER_PACK
        invariant
            k <= POINT_PER_PACK,
            v@ == head + points_bytes(frame.points@.take(k as int)),
        decreases POINT_PER_PACK - k,
    {
        let p = frame.points[k];
        assert(frame.points@.take(k as int + 1).drop_last() =~= frame.points@.take(k as int));
        push_u16(&mut v, p.distance);
        v.push(p.intensity);
        k = k + 1;
        proof {
            assert(v@ =~= head + points_bytes(frame.points@.take(k as int)));
        }
    }
    assert(frame.points@.take(POINT_PER_PACK as int) =~= frame.points@);
    push_u16(&mut v, frame.end_angle);
    push_u16(&mut v, frame.timestamp);
    v.push(frame.crc8);
    assert(v@ =~= frame_bytes(frame@));
    v
}

} // verus!
