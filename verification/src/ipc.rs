//! The frame in which the animation program hands its serialized project to
//! the runtime over a pipe: the payload length as 8 little-endian bytes, then
//! the payload.
use vstd::prelude::*;
use vstd::bytes::{
    lemma_auto_spec_u64_to_from_le_bytes, spec_u64_from_le_bytes, spec_u64_to_le_bytes,
    u64_from_le_bytes, u64_to_le_bytes,
};

verus! {

/// Why a received frame cannot be read.
#[derive(Debug, Clone, Copy, PartialEq, Eq, Structural)]
pub enum FrameError {
    /// Fewer than 8 bytes arrived: there is no length.
    NoData,
    /// The length does not fit in memory addresses of this machine.
    TooLarge,
    /// Fewer payload bytes arrived than the length announces.
    Incomplete,
}

/// The bytes of a frame that carries `payload`.
pub open spec fn frame_spec(payload: Seq<u8>) -> Seq<u8> {
    spec_u64_to_le_bytes(payload.len() as u64) + payload
}

/// What reading a frame from `data` gives: the announced number of bytes
/// after the 8-byte length (later bytes are ignored), or why there are none.
pub open spec fn read_frame_spec(data: Seq<u8>) -> Result<Seq<u8>, FrameError> {
    if data.len() < 8 {
        Err(FrameError::NoData)
    } else {
        let len = spec_u64_from_le_bytes(data.take(8));
        if len > usize::MAX {
            Err(FrameError::TooLarge)
        } else if data.len() - 8 < len {
            Err(FrameError::Incomplete)
        } else {
            Ok(data.subrange(8, 8 + len))
        }
    }
}

/// Frame a serialized project for the runtime.
pub fn write_frame(payload: &[u8]) -> (frame: Vec<u8>)
    ensures
        frame@ == frame_spec(payload@),
{
    let len = payload.len() as u64;
    let mut frame = u64_to_le_bytes(len);
    let mut i: usize = 0;
    let ghost head = frame@;
    while i < payload.len()
        invariant
            i <= payload@.len(),
            frame@ == head + payload@.take(i as int),
        decreases payload@.len() - i,
    {
        frame.push(payload[i]);
        assert(payload@.take(i + 1) =~= payload@.take(i as int).push(payload@[i as int]));
        i = i + 1;
    }
    assert(payload@.take(payload@.len() as int) =~= payload@);
    frame
}

/// Read the serialized project out of the bytes that the animation program wrote.
pub fn read_frame(data: &[u8]) -> (r: Result<Vec<u8>, FrameError>)
    ensures
        match (r, read_frame_spec(data@)) {
            (Ok(v), Ok(s)) => v@ == s,
            (Err(e), Err(f)) => e == f,
            _ => false,
        },
{
    if data.len() < 8 {
        return Err(FrameError::NoData);
    }
    let mut head: Vec<u8> = Vec::new();
    let mut i: usize = 0;
    while i < 8
        invariant
            i <= 8 <= data@.len(),
            head@ == data@.take(i as int),
        decreases 8 - i,
    {
        head.push(data[i]);
        assert(data@.take(i + 1) =~= data@.take(i as int).push(data@[i as int]));
        i = i + 1;
    }
    let len64 = u64_from_le_bytes(head.as_slice());
    if len64 > usize::MAX as u64 {
        return Err(FrameError::TooLarge);
    }
    let len = len64 as usize;
    if data.len() - 8 < len {
        return Err(FrameError::Incomplete);
    }
    let mut payload: Vec<u8> = Vec::new();
    let mut j: usize = 0;
    while j < len
        invariant
            j <= len,
            8 + len <= data@.len(),
            data@.len() <= usize::MAX,
            payload@ == data@.subrange(8, 8 + j),
        decreases len - j,
    {
        payload.push(data[8 + j]);
        assert(data@.subrange(8, 8 + j + 1) =~= data@.subrange(8, 8 + j).push(data@[8 + j]));
        j = j + 1;
    }
    Ok(payload)
}

/// Reading a written frame gives back the payload, whatever follows the frame.
pub proof fn lemma_frame_round_trip(payload: Seq<u8>, rest: Seq<u8>)
    requires
        payload.len() <= usize::MAX,
    ensures
        read_frame_spec(frame_spec(payload) + rest) == Ok::<Seq<u8>, FrameError>(payload),
{
    lemma_auto_spec_u64_to_from_le_bytes();
    let data = frame_spec(payload) + rest;
    let head = spec_u64_to_le_bytes(payload.len() as u64);
    assert(head.len() == 8);
    assert(data.take(8) =~= head);
    assert(data.subrange(8, 8 + payload.len() as int) =~= payload);
}

} // verus!
