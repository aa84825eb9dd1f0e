//! The log as bytes: one frame per entry, each with its length, its tag and
//! a checksum of its payload.

use vstd::bytes::{
    lemma_auto_spec_u16_to_from_le_bytes, lemma_auto_spec_u32_to_from_le_bytes,
    spec_u16_from_le_bytes, spec_u16_to_le_bytes, spec_u32_from_le_bytes, spec_u32_to_le_bytes,
    u16_from_le_bytes, u16_to_le_bytes, u32_from_le_bytes, u32_to_le_bytes,
};
use vstd::prelude::*;
use vstd::slice::{slice_subrange, slice_to_vec};

verus! {

/// Bytes of a frame before its payload: length, tag, and two reserved bytes.
pub const FRAME_HEADER: usize = 8;

/// Bytes of a frame after its payload: the checksum.
pub const FRAME_TRAILER: usize = 4;

/// The checksum `crc` after `n` more shifts, each folding in the polynomial
/// where the low bit is set.
pub open spec fn crc_shift(crc: u32, n: nat) -> u32
    decreases n,
{
    if n == 0 {
        crc
    } else {
        let c = crc_shift(crc, (n - 1) as nat);
        if c & 1 == 1 {
            (c >> 1) ^ 0xEDB8_8320
        } else {
            c >> 1
        }
    }
}

/// The running checksum `crc` once `bytes` are taken in.
pub open spec fn crc_update(crc: u32, bytes: Seq<u8>) -> u32
    decreases bytes.len(),
{
    if bytes.len() == 0 {
        crc
    } else {
        crc_shift(crc_update(crc, bytes.drop_last()) ^ (bytes.last() as u32), 8)
    }
}

/// The 32-bit cyclic redundancy check of `bytes`, with the reflected
/// polynomial `0xEDB88320`, all bits set at the start and flipped at the end.
pub open spec fn crc32(bytes: Seq<u8>) -> u32 {
    crc_update(0xFFFF_FFFF, bytes) ^ 0xFFFF_FFFF
}

/// Computes [`crc32`].
pub fn checksum(bytes: &[u8]) -> (r: u32)
    ensures
        r == crc32(bytes@),
{
    let mut crc: u32 = 0xFFFF_FFFF;
    let mut i: usize = 0;
    assert(bytes@.take(0) =~= Seq::empty());
    while i < bytes.len()
        invariant
            i <= bytes.len(),
            crc == crc_update(0xFFFF_FFFF, bytes@.take(i as int)),
        decreases bytes.len() - i,
    {
        proof {
            assert(bytes@.take(i + 1).drop_last() =~= bytes@.take(i as int));
            assert(bytes@.take(i + 1).last() == bytes@[i as int]);
        }
        let ghost start = crc ^ (bytes@[i as int] as u32);
        crc = crc ^ (bytes[i] as u32);
        let mut k: u32 = 0;
        while k < 8
            invariant
                k <= 8,
                crc == crc_shift(start, k as nat),
            decreases 8 - k,
        {
            if crc & 1 == 1 {
                crc = (crc >> 1) ^ 0xEDB8_8320;
            } else {
                crc = crc >> 1;
            }
            k += 1;
        }
        i += 1;
    }
    assert(bytes@.take(i as int) =~= bytes@);
    crc ^ 0xFFFF_FFFF
}

/// The bytes of the frame that holds `payload` under `tag`: the length of
/// the payload in four bytes, the tag in two, two reserved bytes, the
/// payload, and its checksum in four bytes; numbers low byte first.
pub open spec fn frame_bytes(tag: u16, payload: Seq<u8>) -> Seq<u8> {
    spec_u32_to_le_bytes(payload.len() as u32) + spec_u16_to_le_bytes(tag) + seq![0u8, 0u8]
        + payload + spec_u32_to_le_bytes(crc32(payload))
}

/// Mathematical value of a [`Frame`].
pub struct FrameView {
    /// Index of the first byte of the frame in the log.
    pub offset: int,
    pub tag: u16,
    pub payload: Seq<u8>,
}

/// The frame that starts at byte `from` of `bytes`, if a whole frame with a
/// matching checksum starts there.
pub open spec fn frame_at(bytes: Seq<u8>, from: int) -> Option<FrameView> {
    if from < 0 || from + 8 > bytes.len() {
        None
    } else {
        let len = spec_u32_from_le_bytes(bytes.subrange(from, from + 4)) as int;
        let tag = spec_u16_from_le_bytes(bytes.subrange(from + 4, from + 6));
        if from + 8 + len + 4 > bytes.len() {
            None
        } else {
            let payload = bytes.subrange(from + 8, from + 8 + len);
            let crc = spec_u32_from_le_bytes(bytes.subrange(from + 8 + len, from + 12 + len));
            if crc != crc32(payload) {
                None
            } else {
                Some(FrameView { offset: from, tag, payload })
            }
        }
    }
}

/// The frames of `bytes` from byte `from` on, up to the first place where
/// no whole frame with a matching checksum starts.
pub open spec fn frames_of(bytes: Seq<u8>, from: int) -> Seq<FrameView>
    decreases bytes.len() - from,
{
    match frame_at(bytes, from) {
        None => Seq::empty(),
        Some(f) => seq![f] + frames_of(bytes, from + 12 + f.payload.len()),
    }
}

/// Index of the byte after the last frame of `bytes` from byte `from` on.
pub open spec fn frames_end(bytes: Seq<u8>, from: int) -> int
    decreases bytes.len() - from,
{
    match frame_at(bytes, from) {
        None => from,
        Some(f) => frames_end(bytes, from + 12 + f.payload.len()),
    }
}

/// One frame read from a log.
#[derive(Debug)]
pub struct Frame {
    /// Index of the first byte of the frame in the log.
    pub offset: u64,
    pub tag: u16,
    pub payload: Vec<u8>,
}

impl View for Frame {
    type V = FrameView;

    open spec fn view(&self) -> FrameView {
        FrameView { offset: self.offset as int, tag: self.tag, payload: self.payload@ }
    }
}

/// Values of a sequence of frames, one for one.
pub open spec fn frames_view(s: Seq<Frame>) -> Seq<FrameView> {
    s.map_values(|f: Frame| f@)
}

/// The frame for `payload` under `tag`; none for a payload whose length does
/// not fit four bytes.
pub fn encode_frame(tag: u16, payload: &Vec<u8>) -> (r: Option<Vec<u8>>)
    ensures
        r is Some <==> payload@.len() <= u32::MAX,
        r matches Some(bytes) ==> bytes@ == frame_bytes(tag, payload@),
{
    if payload.len() > u32::MAX as usize {
        return None;
    }
    let mut bytes = u32_to_le_bytes(payload.len() as u32);
    let mut part = u16_to_le_bytes(tag);
    bytes.append(&mut part);
    bytes.push(0);
    bytes.push(0);
    let mut copy = payload.clone();
    assert(copy@ =~= payload@);
    bytes.append(&mut copy);
    let mut crc = u32_to_le_bytes(checksum(payload.as_slice()));
    bytes.append(&mut crc);
    assert(bytes@ =~= frame_bytes(tag, payload@));
    Some(bytes)
}

/// Reads the frames of a log from its first byte on, and stops at the first
/// place where the bytes end before a frame does or a checksum does not
/// match.
pub fn read_frames(bytes: &Vec<u8>) -> (r: Vec<Frame>)
    ensures
        frames_view(r@) == frames_of(bytes@, 0),
{
    let all = bytes.as_slice();
    let mut r: Vec<Frame> = Vec::new();
    let mut from: usize = 0;
    assert(frames_view(r@) + frames_of(bytes@, 0) =~= frames_of(bytes@, 0));
    loop
        invariant
            all@ == bytes@,
            from <= bytes@.len(),
            frames_view(r@) + frames_of(bytes@, from as int) == frames_of(bytes@, 0),
        ensures
            frames_view(r@) == frames_of(bytes@, 0),
        decreases bytes@.len() - from,
    {
        let ghost done = frames_view(r@);
        if bytes.len() - from < FRAME_HEADER {
            assert(frame_at(bytes@, from as int) is None);
            assert(done + frames_of(bytes@, from as int) =~= done);
            break ;
        }
        let len: usize = u32_from_le_bytes(slice_subrange(all, from, from + 4)) as usize;
        let tag: u16 = u16_from_le_bytes(slice_subrange(all, from + 4, from + 6));
        let left: usize = bytes.len() - from - FRAME_HEADER;
        if left < FRAME_TRAILER || left - FRAME_TRAILER < len {
            assert(frame_at(bytes@, from as int) is None);
            assert(done + frames_of(bytes@, from as int) =~= done);
            break ;
        }
        let start: usize = from + FRAME_HEADER;
        let payload = slice_subrange(all, start, start + len);
        let crc: u32 = u32_from_le_bytes(slice_subrange(all, start + len, start + len + 4));
        if crc != checksum(payload) {
            assert(frame_at(bytes@, from as int) is None);
            assert(done + frames_of(bytes@, from as int) =~= done);
            break ;
        }
        let frame = Frame { offset: from as u64, tag, payload: slice_to_vec(payload) };
        proof {
            assert(frame_at(bytes@, from as int) == Some(frame@));
            let next = from + 12 + len;
            assert(frames_view(r@.push(frame)) =~= done.push(frame@));
            assert(done.push(frame@) + frames_of(bytes@, next) =~= done + (seq![frame@]
                + frames_of(bytes@, next)));
        }
        r.push(frame);
        from = start + len + FRAME_TRAILER;
    }
    r
}

/// Writing a frame after a log that ends with a frame adds that frame to
/// what is read, and the log ends with a frame again.
pub proof fn lemma_append_frame(log: Seq<u8>, from: int, tag: u16, payload: Seq<u8>)
    requires
        0 <= from <= log.len(),
        frames_end(log, from) == log.len(),
        payload.len() <= u32::MAX,
    ensures
        frames_of(log + frame_bytes(tag, payload), from) == frames_of(log, from).push(
            FrameView { offset: log.len() as int, tag, payload },
        ),
        frames_end(log + frame_bytes(tag, payload), from) == log.len() + frame_bytes(
            tag,
            payload,
        ).len(),
    decreases log.len() - from,
{
    let frame = frame_bytes(tag, payload);
    let all = log + frame;
    lemma_auto_spec_u32_to_from_le_bytes();
    lemma_auto_spec_u16_to_from_le_bytes();
    let n = payload.len() as int;
    assert(frame.len() == 12 + n);
    match frame_at(log, from) {
        None => {
            assert(from == log.len());
            assert(all.subrange(from, from + 4) =~= spec_u32_to_le_bytes(payload.len() as u32));
            assert(all.subrange(from + 4, from + 6) =~= spec_u16_to_le_bytes(tag));
            assert(all.subrange(from + 8, from + 8 + n) =~= payload);
            assert(all.subrange(from + 8 + n, from + 12 + n) =~= spec_u32_to_le_bytes(
                crc32(payload),
            ));
            let f = FrameView { offset: from, tag, payload };
            assert(frame_at(all, from) == Some(f));
            assert(frame_at(all, from + 12 + n) is None);
            assert(frames_of(all, from + 12 + n) =~= Seq::empty());
            assert(frames_of(log, from) =~= Seq::empty());
            assert(frames_of(all, from) =~= Seq::<FrameView>::empty().push(f));
            assert(frames_end(all, from + 12 + n) == from + 12 + n);
            assert(frames_end(all, from) == frames_end(all, from + 12 + f.payload.len()));
        },
        Some(f) => {
            let len = f.payload.len() as int;
            assert(all.subrange(from, from + 4) =~= log.subrange(from, from + 4));
            assert(all.subrange(from + 4, from + 6) =~= log.subrange(from + 4, from + 6));
            assert(all.subrange(from + 8, from + 8 + len) =~= log.subrange(
                from + 8,
                from + 8 + len,
            ));
            assert(all.subrange(from + 8 + len, from + 12 + len) =~= log.subrange(
                from + 8 + len,
                from + 12 + len,
            ));
            assert(frame_at(all, from) == Some(f));
            lemma_append_frame(log, from + 12 + len, tag, payload);
            let added = FrameView { offset: log.len() as int, tag, payload };
            assert(seq![f] + frames_of(log, from + 12 + len).push(added) =~= (seq![f] + frames_of(
                log,
                from + 12 + len,
            )).push(added));
            assert(frames_end(all, from) == frames_end(all, from + 12 + len));
        },
    }
}

} // verus!
