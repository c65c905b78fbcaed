//! Recovering frame alignment from a raw byte stream.
//!
//! The synchronizer is fed one byte at a time. While scanning it discards
//! every byte that is not the start byte; once aligned it collects the rest
//! of the window and hands it to the decoder.
use vstd::prelude::*;
use crate::frame::{decode, decode_spec, frame_fields, result_view, DecodeError, Frame, FrameView, FRAME_SIZE, FRAME_START};

verus! {

/// What feeding one byte to the synchronizer did.
pub enum SyncEvent {
    /// Bytes were dropped: the byte itself, while scanning for a start byte,
    /// or the first byte of a full window that does not begin a frame,
    /// together with the bytes after it up to the next start byte.
    Discarded,
    /// The byte was added to the window, which is not full yet.
    Pending,
    /// The byte completed a window that holds a frame, or one whose checksum
    /// does not match. After a mismatch the synchronizer goes on from the next
    /// start byte inside that window.
    Completed(Result<Frame, DecodeError>),
}

/// The state of the resynchronisation loop: scanning while the window is
/// empty, aligned once it holds the start byte.
pub struct Synchronizer {
    window: Vec<u8>,
}

impl View for Synchronizer {
    type V = Seq<u8>;

    closed spec fn view(&self) -> Seq<u8> {
        self.window@
    }
}

/// What is left of a rejected window: the bytes after its first byte, from
/// the next start byte on.
pub open spec fn resync_rest(w: Seq<u8>) -> Seq<u8> {
    let t = w.drop_first();
    t.skip(leading_noise(t) as int)
}

/// Drops the first byte of `w` and every byte after it up to the next start
/// byte.
fn resync(w: &Vec<u8>) -> (r: Vec<u8>)
    requires
        w@.len() > 0,
    ensures
        r@ == resync_rest(w@),
{
    let mut j: usize = 1;
    while j < w.len() && w[j] != FRAME_START
        invariant
            1 <= j <= w@.len(),
            forall|k: int| 1 <= k < j ==> w@[k] != FRAME_START,
        decreases w@.len() - j,
    {
        j = j + 1;
    }
    let ghost t = w@.drop_first();
    proof {
        assert forall|k: int| 0 <= k < j - 1 implies t[k] != FRAME_START by {
            assert(t[k] == w@[k + 1]);
        }
        lemma_leading_noise(t, j - 1);
    }
    let mut r: Vec<u8> = Vec::new();
    let mut k: usize = j;
    while k < w.len()
        invariant
            j <= k <= w@.len(),
            r@ == w@.subrange(j as int, k as int),
        decreases w@.len() - k,
    {
        r.push(w[k]);
        k = k + 1;
        assert(r@ =~= w@.subrange(j as int, k as int));
    }
    assert(r@ =~= t.skip(j - 1));
    r
}

impl Synchronizer {
    /// The window is shorter than a frame and, when not empty, opens with the
    /// start byte.
    pub open spec fn wf(&self) -> bool {
        &&& self@.len() < FRAME_SIZE
        &&& self@.len() > 0 ==> self@[0] == FRAME_START
    }

    /// A synchronizer that is scanning.
    pub fn new() -> (r: Self)
        ensures
            r.wf(),
            r@ == Seq::<u8>::empty(),
    {
        Synchronizer { window: Vec::new() }
    }

    /// Whether a start byte has been seen and the window is being filled.
    pub fn is_aligned(&self) -> (r: bool)
        ensures
            r == (self@.len() > 0),
    {
        self.window.len() > 0
    }

    /// How many bytes the next read should ask for: one while scanning, the
    /// rest of the window once aligned.
    pub fn bytes_wanted(&self) -> (r: usize)
        requires
            self.wf(),
        ensures
            r == if self@.len() == 0 {
                1
            } else {
                FRAME_SIZE - self@.len()
            },
            1 <= r <= FRAME_SIZE,
    {
        if self.window.len() == 0 {
            1
        } else {
            FRAME_SIZE - self.window.len()
        }
    }

    /// Feeds one byte of the stream.
    pub fn push_byte(&mut self, b: u8) -> (r: SyncEvent)
        requires
            old(self).wf(),
        ensures
            final(self).wf(),
            old(self)@.len() == 0 && b != FRAME_START ==> r is Discarded && final(self)@
                == Seq::<u8>::empty(),
            old(self)@.len() == 0 && b == FRAME_START ==> r is Pending && final(self)@ == seq![b],
            old(self)@.len() > 0 && old(self)@.len() + 1 < FRAME_SIZE ==> r is Pending
                && final(self)@ == old(self)@.push(b),
            old(self)@.len() + 1 == FRAME_SIZE ==> ({
                let w = old(self)@.push(b);
                match decode_spec(w) {
                    Ok(f) => r is Completed && result_view(r->Completed_0) == Ok::<
                        FrameView,
                        DecodeError,
                    >(f) && final(self)@ == Seq::<u8>::empty(),
                    Err(DecodeError::MisalignedByte) => r is Discarded && final(self)@
                        == resync_rest(w),
                    Err(e) => r is Completed && result_view(r->Completed_0) == Err::<
                        FrameView,
                        DecodeError,
                    >(e) && final(self)@ == resync_rest(w),
                }
            }),
            !(r matches SyncEvent::Completed(Err(DecodeError::MisalignedByte))),
    {
        if self.window.len() == 0 {
            if b != FRAME_START {
                return SyncEvent::Discarded;
            }
            self.window.push(b);
            assert(self.window@ =~= seq![b]);
            return SyncEvent::Pending;
        }
        self.window.push(b);
        if self.window.len() < FRAME_SIZE {
            return SyncEvent::Pending;
        }
        let r = decode(self.window.as_slice());
        proof {
            lemma_leading_noise_bounds(self.window@.drop_first());
        }
        match r {
            Ok(f) => {
                self.window = Vec::new();
                SyncEvent::Completed(Ok(f))
            },
            Err(DecodeError::MisalignedByte) => {
                self.window = resync(&self.window);
                SyncEvent::Discarded
            },
            Err(e) => {
                self.window = resync(&self.window);
                SyncEvent::Completed(Err(e))
            },
        }
    }
}

/// The number of bytes before the first start byte of a stream (all of it
/// when it has none).
pub open spec fn leading_noise(s: Seq<u8>) -> nat
    decreases s.len(),
{
    if s.len() == 0 || s[0] == FRAME_START {
        0
    } else {
        1 + leading_noise(s.drop_first())
    }
}

/// Whether a whole frame that decodes begins at position `p` of a stream.
pub open spec fn frame_at(s: Seq<u8>, p: int) -> bool {
    0 <= p && p + FRAME_SIZE <= s.len() && decode_spec(s.subrange(p, p + FRAME_SIZE)) is Ok
}

/// Whether `p` is the first position of a stream at which a frame begins.
pub open spec fn is_first_frame(s: Seq<u8>, p: int) -> bool {
    &&& frame_at(s, p)
    &&& forall|q: int| 0 <= q < p ==> !frame_at(s, q)
}

/// The outcome of synchronising on a stream.
pub struct SyncResult {
    /// Bytes dropped before the frame began; the whole stream when it holds
    /// no frame.
    pub discarded: usize,
    /// The first frame of the stream, if there is one.
    pub frame: Option<Frame>,
}

/// The leading noise of a stream is exactly the run of bytes, none of them the
/// start byte, that ends at the stream's end or at a start byte.
pub proof fn lemma_leading_noise(s: Seq<u8>, d: int)
    requires
        0 <= d <= s.len(),
        forall|j: int| 0 <= j < d ==> s[j] != FRAME_START,
        d < s.len() ==> s[d] == FRAME_START,
    ensures
        leading_noise(s) == d,
    decreases d,
{
    if d > 0 {
        assert forall|j: int| 0 <= j < d - 1 implies s.drop_first()[j] != FRAME_START by {
            assert(s.drop_first()[j] == s[j + 1]);
        }
        lemma_leading_noise(s.drop_first(), d - 1);
    }
}

/// The leading noise lies within the stream, holds no start byte, and is
/// followed by one unless it is the whole stream.
pub proof fn lemma_leading_noise_bounds(s: Seq<u8>)
    ensures
        leading_noise(s) <= s.len(),
        forall|j: int| 0 <= j < leading_noise(s) ==> s[j] != FRAME_START,
        leading_noise(s) < s.len() ==> s[leading_noise(s) as int] == FRAME_START,
    decreases s.len(),
{
    if s.len() > 0 && s[0] != FRAME_START {
        lemma_leading_noise_bounds(s.drop_first());
        assert forall|j: int| 0 <= j < leading_noise(s) implies s[j] != FRAME_START by {
            if j > 0 {
                assert(s[j] == s.drop_first()[j - 1]);
            }
        }
    }
}

/// A window that does not open with the start byte never decodes.
proof fn lemma_frame_needs_start(s: Seq<u8>, p: int)
    requires
        0 <= p < s.len(),
        s[p] != FRAME_START,
    ensures
        !frame_at(s, p),
{
    if p + FRAME_SIZE <= s.len() {
        assert(s.subrange(p, p + FRAME_SIZE)[0] == s[p]);
    }
}

/// Feeds a stream to a synchronizer until it yields a frame: every byte
/// before the first position at which a frame begins is dropped, and that
/// frame is decoded.
pub fn sync_stream(stream: &[u8]) -> (r: SyncResult)
    ensures
        r.frame is Some <==> exists|p: int| frame_at(stream@, p),
        r.frame is None ==> r.discarded == stream@.len(),
        r.frame is Some ==> is_first_frame(stream@, r.discarded as int) && r.frame->Some_0@
            == frame_fields(stream@.subrange(r.discarded as int, r.discarded + FRAME_SIZE)),
{
    let mut s = Synchronizer::new();
    let ghost mut q: int = 0;
    let mut i: usize = 0;
    while i < stream.len()
        invariant
            s.wf(),
            i <= stream@.len(),
            0 <= q <= i,
            i - q < FRAME_SIZE,
            forall|p: int| 0 <= p < q ==> !frame_at(stream@, p),
            s@ == stream@.subrange(q, i as int),
        decreases stream@.len() - i,
    {
        let ghost before = s@;
        let ghost w = before.push(stream@[i as int]);
        assert(w =~= stream@.subrange(q, i + 1));
        let completes = s.is_aligned() && s.bytes_wanted() == 1;
        let ev = s.push_byte(stream[i]);
        if completes {
            assert(w =~= stream@.subrange(q, q + FRAME_SIZE));
            if let SyncEvent::Completed(Ok(f)) = ev {
                proof {
                    assert(frame_at(stream@, q));
                }
                return SyncResult { discarded: i + 1 - FRAME_SIZE, frame: Some(f) };
            }
            proof {
                let t = w.drop_first();
                lemma_leading_noise_bounds(t);
                let q2 = q + 1 + leading_noise(t);
                assert forall|p: int| 0 <= p < q2 implies !frame_at(stream@, p) by {
                    if q < p {
                        assert(t[p - q - 1] == stream@[p]);
                        lemma_frame_needs_start(stream@, p);
                    }
                }
                q = q2;
                assert(s@ =~= stream@.subrange(q, i + 1));
            }
        } else {
            proof {
                if before.len() == 0 && stream@[i as int] != FRAME_START {
                    lemma_frame_needs_start(stream@, i as int);
                    q = i + 1;
                }
                assert(s@ =~= stream@.subrange(q, i + 1));
            }
        }
        i = i + 1;
    }
    proof {
        assert forall|p: int| !frame_at(stream@, p) by {
            if p >= q {
                assert(p + FRAME_SIZE > stream@.len());
            }
        }
    }
    SyncResult { discarded: i, frame: None }
}

/// A valid frame after noise in which no frame begins is recovered and
/// decoded exactly, whatever follows it; the noise may hold start bytes.
pub proof fn lemma_recovers_frame(noise: Seq<u8>, frame: Seq<u8>, rest: Seq<u8>)
    requires
        forall|j: int| 0 <= j < noise.len() ==> !frame_at(noise + frame + rest, j),
        decode_spec(frame) is Ok,
    ensures
        is_first_frame(noise + frame + rest, noise.len() as int),
        (noise + frame + rest).subrange(noise.len() as int, noise.len() + FRAME_SIZE) == frame,
{
    let s = noise + frame + rest;
    assert(s.subrange(noise.len() as int, noise.len() + FRAME_SIZE) =~= frame);
}

/// Noise bytes that are not the start byte are discarded one for one: a
/// stream of `k` such bytes followed by a valid frame has its first frame at
/// position `k`.
pub proof fn lemma_resync_bound(noise: Seq<u8>, frame: Seq<u8>, rest: Seq<u8>)
    requires
        forall|j: int| 0 <= j < noise.len() ==> noise[j] != FRAME_START,
        decode_spec(frame) is Ok,
    ensures
        is_first_frame(noise + frame + rest, noise.len() as int),
{
    let s = noise + frame + rest;
    assert forall|j: int| 0 <= j < noise.len() implies !frame_at(s, j) by {
        assert(s[j] == noise[j]);
        lemma_frame_needs_start(s, j);
    }
    lemma_recovers_frame(noise, frame, rest);
}

} // verus!
