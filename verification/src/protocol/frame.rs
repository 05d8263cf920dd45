//! The frames of the wire protocol: a type marker of one byte, the length
//! of the payload in four bytes, and the payload.

use crate::bytes::{
    get_u32, le_bytes, le_value, lemma_le_bytes_len, lemma_le_value_of_bytes, lemma_limits,
    put_u32,
};
use crate::protocol::error::ProtocolError;
use vstd::prelude::*;
use vstd::slice::*;
use vstd::string::*;

verus! {

/// The most bytes that the payload of a frame that is read may have: one
/// mebibyte.
pub const MAX_PAYLOAD: usize = 1048576;

/// What a frame carries.
#[derive(Debug, Clone, Copy, PartialEq, Eq, Structural)]
pub enum FrameType {
    /// A command in its binary form.
    Command,
    /// A command as a line of text.
    RawCommand,
    /// A response.
    Response,
}

impl FrameType {
    /// The byte that marks the type in a frame.
    pub open spec fn marker(self) -> u8 {
        match self {
            FrameType::Command => 1,
            FrameType::RawCommand => 2,
            FrameType::Response => 3,
        }
    }
}

/// A frame.
#[derive(Debug)]
pub struct Frame {
    pub frame_type: FrameType,
    pub length: u32,
    pub payload: Vec<u8>,
}

/// The mathematical content of a [`Frame`].
pub struct FrameView {
    pub frame_type: FrameType,
    pub length: u32,
    pub payload: Seq<u8>,
}

impl View for Frame {
    type V = FrameView;

    open spec fn view(&self) -> FrameView {
        FrameView { frame_type: self.frame_type, length: self.length, payload: self.payload@ }
    }
}

impl FrameView {
    /// The bytes of the frame: the type marker, the length little-endian,
    /// and the payload.
    pub open spec fn encode(self) -> Seq<u8> {
        seq![self.frame_type.marker()] + le_bytes(self.length as nat, 4) + self.payload
    }

    /// The frame at the start of `bytes`: a known type marker, a length of
    /// `MAX_PAYLOAD` at most, and as many bytes of payload as the length
    /// says. `None` where the bytes start with no such frame.
    pub open spec fn decode(bytes: Seq<u8>) -> Option<FrameView> {
        if bytes.len() < 5 {
            None
        } else if bytes[0] != 1 && bytes[0] != 2 && bytes[0] != 3 {
            None
        } else {
            let length = le_value(bytes.subrange(1, 5));
            if length > MAX_PAYLOAD || bytes.len() < 5 + length {
                None
            } else {
                Some(
                    FrameView {
                        frame_type: if bytes[0] == 1 {
                            FrameType::Command
                        } else if bytes[0] == 2 {
                            FrameType::RawCommand
                        } else {
                            FrameType::Response
                        },
                        length: length as u32,
                        payload: bytes.subrange(5, 5 + length as int),
                    },
                )
            }
        }
    }
}

/// The length of the payload that the first five bytes of a frame
/// announce; `None` where there are fewer bytes than five, or where the
/// length is more than `MAX_PAYLOAD`.
pub open spec fn announced(header: Seq<u8>) -> Option<nat> {
    if header.len() < 5 {
        None
    } else if le_value(header.subrange(1, 5)) > MAX_PAYLOAD {
        None
    } else {
        Some(le_value(header.subrange(1, 5)))
    }
}

impl Frame {
    /// The length of the payload that the first five bytes of a frame
    /// announce: the number of bytes to wait for behind them.
    pub fn payload_length(header: &[u8]) -> (res: Result<usize, ProtocolError>)
        ensures
            match announced(header@) {
                Some(n) => res == Ok::<usize, ProtocolError>(n as usize),
                None => res matches Err(ProtocolError::InvalidFrame(_)),
            },
    {
        if header.len() < 5 {
            return Err(ProtocolError::InvalidFrame(String::from_str("Invalid frame: too short")));
        }
        let length = get_u32(header, 1);
        if length as u64 > MAX_PAYLOAD as u64 {
            return Err(ProtocolError::InvalidFrame(String::from_str("Payload too large")));
        }
        Ok(length as usize)
    }

    /// A frame of the given type around the payload.
    pub fn new(frame_type: FrameType, payload: Vec<u8>) -> (frame: Self)
        requires
            payload@.len() <= u32::MAX,
        ensures
            frame@ == (FrameView { frame_type, length: payload@.len() as u32, payload: payload@ }),
    {
        let length = payload.len() as u32;
        Self { frame_type, length, payload }
    }

    /// The bytes of the frame.
    pub fn serialize(&self) -> (buffer: Vec<u8>)
        ensures
            buffer@ == self@.encode(),
    {
        let mut buffer: Vec<u8> = Vec::new();
        buffer.push(
            match self.frame_type {
                FrameType::Command => 1,
                FrameType::RawCommand => 2,
                FrameType::Response => 3,
            },
        );
        put_u32(&mut buffer, self.length);
        let ghost head = buffer@;
        let mut i: usize = 0;
        while i < self.payload.len()
            invariant
                i <= self.payload@.len(),
                buffer@ == head + self.payload@.take(i as int),
            decreases self.payload@.len() - i,
        {
            buffer.push(self.payload[i]);
            i += 1;
            assert(self.payload@.take(i as int) =~= self.payload@.take(i - 1).push(
                self.payload@[i - 1],
            ));
        }
        assert(self.payload@.take(i as int) =~= self.payload@);
        buffer
    }

    /// Reads the frame at the start of `data`. Bytes behind the frame are
    /// not looked at.
    pub fn deserialize(data: &[u8]) -> (res: Result<Self, ProtocolError>)
        ensures
            match FrameView::decode(data@) {
                Some(f) => res matches Ok(frame) && frame@ == f,
                None => res matches Err(ProtocolError::InvalidFrame(_)),
            },
    {
        if data.len() < 5 {
            return Err(ProtocolError::InvalidFrame(String::from_str("Invalid frame: too short")));
        }
        let frame_type = if data[0] == 1 {
            FrameType::Command
        } else if data[0] == 2 {
            FrameType::RawCommand
        } else if data[0] == 3 {
            FrameType::Response
        } else {
            return Err(ProtocolError::InvalidFrame(String::from_str("Invalid frame type")));
        };
        let length = get_u32(data, 1);
        if length as u64 > MAX_PAYLOAD as u64 {
            return Err(ProtocolError::InvalidFrame(String::from_str("Payload too large")));
        }
        let count = length as usize;
        if data.len() - 5 < count {
            return Err(ProtocolError::InvalidFrame(String::from_str("Invalid frame: truncated")));
        }
        let payload = slice_to_vec(slice_subrange(data, 5, 5 + count));
        Ok(Self { frame_type, length, payload })
    }
}

/// A frame whose length is that of its payload, and `MAX_PAYLOAD` at most,
/// is read back from its bytes, whatever follows them.
pub proof fn lemma_frame_round_trip(frame: FrameView, rest: Seq<u8>)
    requires
        frame.length == frame.payload.len(),
        frame.payload.len() <= MAX_PAYLOAD,
    ensures
        FrameView::decode(frame.encode() + rest) == Some(frame),
{
    let bytes = frame.encode() + rest;
    lemma_limits();
    lemma_le_bytes_len(frame.length as nat, 4);
    lemma_le_value_of_bytes(frame.length as nat, 4);
    assert(bytes.subrange(1, 5) =~= le_bytes(frame.length as nat, 4));
    assert(bytes.subrange(5, 5 + frame.length as int) =~= frame.payload);
}

/// A frame that is read from bytes has the payload that its first five
/// bytes announce.
pub proof fn lemma_announced(bytes: Seq<u8>)
    requires
        FrameView::decode(bytes) is Some,
    ensures
        announced(bytes.take(5)) == Some(FrameView::decode(bytes).unwrap().payload.len()),
{
    assert(bytes.take(5).subrange(1, 5) =~= bytes.subrange(1, 5));
}

} // verus!
