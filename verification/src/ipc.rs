//! The envelopes that travel between a client and the local broker, and the
//! framing of the loopback transport: a little-endian `u32` length followed
//! by that many bytes of payload.

use crate::config;
use crate::protocol::{Patch, PatchView};
use crate::strmap::StrMap;
use vstd::bytes::{
    lemma_auto_spec_u32_to_from_le_bytes, spec_u32_from_le_bytes, spec_u32_to_le_bytes,
    u32_from_le_bytes, u32_to_le_bytes,
};
use vstd::prelude::*;
use vstd::slice::slice_subrange;

verus! {

/// What a client sends to the broker.
#[derive(Clone, Debug)]
pub enum Upstream {
    Init,
    Track { icao: String, track: bool },
    Control { icao: String, control: bool },
    Patch { icao: String, patch: Patch },
    Scenery { icao: String, scenery: StrMap<bool> },
}

/// What an `Upstream` message says.
pub enum UpstreamView {
    Init,
    Track { icao: Seq<char>, track: bool },
    Control { icao: Seq<char>, control: bool },
    Patch { icao: Seq<char>, patch: PatchView },
    Scenery { icao: Seq<char>, scenery: Map<Seq<char>, bool> },
}

impl View for Upstream {
    type V = UpstreamView;

    open spec fn view(&self) -> UpstreamView {
        match *self {
            Upstream::Init => UpstreamView::Init,
            Upstream::Track { icao, track } => UpstreamView::Track { icao: icao@, track },
            Upstream::Control { icao, control } => UpstreamView::Control { icao: icao@, control },
            Upstream::Patch { icao, patch } => UpstreamView::Patch { icao: icao@, patch: patch@ },
            Upstream::Scenery { icao, scenery } => UpstreamView::Scenery {
                icao: icao@,
                scenery: scenery@,
            },
        }
    }
}

impl Upstream {
    /// The maps of the message are well formed.
    pub open spec fn wf(&self) -> bool {
        match *self {
            Upstream::Patch { icao, patch } => patch.wf(),
            Upstream::Scenery { icao, scenery } => scenery.wf(),
            _ => true,
        }
    }

    /// The text of the aerodrome that the message is about, empty for `Init`.
    pub open spec fn spec_icao(&self) -> Seq<char> {
        match *self {
            Upstream::Init => Seq::empty(),
            Upstream::Track { icao, .. } => icao@,
            Upstream::Control { icao, .. } => icao@,
            Upstream::Patch { icao, .. } => icao@,
            Upstream::Scenery { icao, .. } => icao@,
        }
    }

    /// The aerodrome that the message is about; `Init` is about none.
    pub fn icao(&self) -> (r: Option<&String>)
        ensures
            match *self {
                Upstream::Init => r is None,
                Upstream::Track { icao, .. } => r == Some(&icao),
                Upstream::Control { icao, .. } => r == Some(&icao),
                Upstream::Patch { icao, .. } => r == Some(&icao),
                Upstream::Scenery { icao, .. } => r == Some(&icao),
            },
    {
        match self {
            Upstream::Track { icao, .. } => Some(icao),
            Upstream::Control { icao, .. } => Some(icao),
            Upstream::Patch { icao, .. } => Some(icao),
            Upstream::Scenery { icao, .. } => Some(icao),
            Upstream::Init => None,
        }
    }
}

/// What the broker sends to a client.
#[derive(Clone, Debug)]
pub enum Downstream {
    Config { data: config::Aerodrome },
    Control { icao: String, control: bool },
    Patch { icao: String, patch: Patch },
    Aircraft { icao: String, aircraft: Vec<String> },
    Error { icao: String, message: Option<String>, disconnect: bool },
}

impl Downstream {
    /// The maps of the message are well formed.
    pub open spec fn wf(&self) -> bool {
        match *self {
            Downstream::Patch { icao, patch } => patch.wf(),
            _ => true,
        }
    }

    /// The aerodrome that the message is about.
    pub open spec fn spec_icao(&self) -> Seq<char> {
        match *self {
            Downstream::Config { data } => data.icao@,
            Downstream::Control { icao, .. } => icao@,
            Downstream::Patch { icao, .. } => icao@,
            Downstream::Aircraft { icao, .. } => icao@,
            Downstream::Error { icao, .. } => icao@,
        }
    }

    /// The aerodrome that the message is about.
    pub fn icao(&self) -> (r: &String)
        ensures
            r@ == self.spec_icao(),
    {
        match self {
            Downstream::Config { data } => &data.icao,
            Downstream::Control { icao, .. } => icao,
            Downstream::Patch { icao, .. } => icao,
            Downstream::Aircraft { icao, .. } => icao,
            Downstream::Error { icao, .. } => icao,
        }
    }
}

/// The largest payload that a frame may carry: 16 MiB.
pub const MAX_FRAME: usize = 0x100_0000;

/// Why a frame is refused.
#[derive(Clone, Copy, Debug, PartialEq, Eq, Structural)]
pub enum FrameError {
    /// The length is above `MAX_FRAME`.
    Oversized,
}

/// What the start of a byte stream holds.
#[derive(Debug)]
pub enum Frame {
    /// Not all of the next frame has arrived.
    Incomplete,
    /// The next frame announces a payload above `MAX_FRAME`.
    Oversized,
    /// A whole frame: its payload, and the number of bytes it took.
    Complete { payload: Vec<u8>, consumed: usize },
}

/// The frame that carries `payload`.
pub open spec fn framed(payload: Seq<u8>) -> Seq<u8> {
    spec_u32_to_le_bytes(payload.len() as u32) + payload
}

/// What a reader finds at the start of `bytes`.
pub open spec fn parsed(bytes: Seq<u8>) -> Option<Option<(Seq<u8>, int)>> {
    if bytes.len() < 4 {
        Some(None)
    } else {
        let len = spec_u32_from_le_bytes(bytes.subrange(0, 4)) as int;
        if len > MAX_FRAME {
            None
        } else if bytes.len() < 4 + len {
            Some(None)
        } else {
            Some(Some((bytes.subrange(4, 4 + len), 4 + len)))
        }
    }
}

/// Reads the length that a frame header announces.
pub fn frame_len(header: &[u8; 4]) -> (r: Result<usize, FrameError>)
    ensures
        match r {
            Ok(len) => len == spec_u32_from_le_bytes(header@) && len <= MAX_FRAME,
            Err(e) => e == FrameError::Oversized && spec_u32_from_le_bytes(header@) > MAX_FRAME,
        },
{
    let n = u32_from_le_bytes(header.as_slice());
    if n > 0x100_0000 {
        Err(FrameError::Oversized)
    } else {
        Ok(n as usize)
    }
}

/// Puts `payload` into a frame; a payload above `MAX_FRAME` is refused.
pub fn encode_frame(payload: &Vec<u8>) -> (r: Result<Vec<u8>, FrameError>)
    ensures
        match r {
            Ok(bytes) => payload.len() <= MAX_FRAME && bytes@ == framed(payload@),
            Err(e) => e == FrameError::Oversized && payload.len() > MAX_FRAME,
        },
{
    if payload.len() > MAX_FRAME {
        return Err(FrameError::Oversized);
    }
    let mut bytes = u32_to_le_bytes(payload.len() as u32);
    let mut i: usize = 0;
    while i < payload.len()
        invariant
            i <= payload.len(),
            payload.len() <= MAX_FRAME,
            bytes@ == spec_u32_to_le_bytes(payload.len() as u32) + payload@.take(i as int),
        decreases payload.len() - i,
    {
        bytes.push(payload[i]);
        assert(payload@.take(i as int).push(payload@[i as int]) =~= payload@.take(i as int + 1));
        assert(bytes@ =~= spec_u32_to_le_bytes(payload.len() as u32) + payload@.take(i as int + 1));
        i += 1;
    }
    assert(payload@.take(payload.len() as int) =~= payload@);
    Ok(bytes)
}

/// Takes the first frame off `bytes`, if all of it is there.
pub fn decode_frame(bytes: &Vec<u8>) -> (r: Frame)
    ensures
        match r {
            Frame::Incomplete => parsed(bytes@) == Some(None::<(Seq<u8>, int)>),
            Frame::Oversized => parsed(bytes@) is None,
            Frame::Complete { payload, consumed } => parsed(bytes@) == Some(
                Some((payload@, consumed as int)),
            ),
        },
{
    if bytes.len() < 4 {
        return Frame::Incomplete;
    }
    let n = u32_from_le_bytes(slice_subrange(bytes.as_slice(), 0, 4));
    if n > 0x100_0000 {
        return Frame::Oversized;
    }
    let len = n as usize;
    if bytes.len() - 4 < len {
        return Frame::Incomplete;
    }
    let mut payload: Vec<u8> = Vec::new();
    let mut i: usize = 0;
    while i < len
        invariant
            i <= len,
            4 + len <= bytes.len(),
            payload@ == bytes@.subrange(4, 4 + i as int),
        decreases len - i,
    {
        payload.push(bytes[4 + i]);
        assert(payload@ =~= bytes@.subrange(4, 4 + i as int + 1));
        i += 1;
    }
    Frame::Complete { payload, consumed: 4 + len }
}

/// What was framed is read back, with nothing left over.
pub proof fn lemma_frame_round_trip(payload: Seq<u8>)
    requires
        payload.len() <= MAX_FRAME,
    ensures
        parsed(framed(payload)) == Some(Some((payload, 4 + payload.len() as int))),
{
    lemma_auto_spec_u32_to_from_le_bytes();
    let head = spec_u32_to_le_bytes(payload.len() as u32);
    let bytes = framed(payload);
    assert(bytes.subrange(0, 4) =~= head);
    assert(bytes.subrange(4, 4 + payload.len() as int) =~= payload);
}

/// A frame followed by more bytes is read back as itself.
pub proof fn lemma_frame_prefix(payload: Seq<u8>, rest: Seq<u8>)
    requires
        payload.len() <= MAX_FRAME,
    ensures
        parsed(framed(payload) + rest) == Some(Some((payload, 4 + payload.len() as int))),
{
    lemma_auto_spec_u32_to_from_le_bytes();
    let head = spec_u32_to_le_bytes(payload.len() as u32);
    let bytes = framed(payload) + rest;
    assert(bytes.subrange(0, 4) =~= head);
    assert(bytes.subrange(4, 4 + payload.len() as int) =~= payload);
}

} // verus!
