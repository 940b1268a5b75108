//! The command vocabulary of the local control channel and its binary wire
//! encoding.
//!
//! A local client connection carries exactly one encoded command and then
//! closes. The encoding is a fixed, self-describing discriminated form: one
//! tag byte naming the variant, followed, for the variants that carry an
//! amount, by that amount as eight little-endian bytes.

use crate::ServerError;
use vstd::bytes::lemma_auto_spec_u64_to_from_le_bytes;
use vstd::bytes::spec_u64_from_le_bytes;
use vstd::bytes::spec_u64_to_le_bytes;
use vstd::bytes::u64_from_le_bytes;
use vstd::bytes::u64_to_le_bytes;
use vstd::prelude::*;
use vstd::slice::slice_subrange;

verus! {

/// One user command for the light. Amounts are non-negative; relative
/// commands are resolved against the cached device state.
#[derive(Clone, Copy, Debug, PartialEq, Eq, Structural)]
pub enum Message {
    On,
    Off,
    Dim(usize),
    Brighten(usize),
    SetBrightness(usize),
}

pub const TAG_ON: u8 = 0;

pub const TAG_OFF: u8 = 1;

pub const TAG_DIM: u8 = 2;

pub const TAG_BRIGHTEN: u8 = 3;

pub const TAG_SET_BRIGHTNESS: u8 = 4;

/// The wire form of a command: the variant's tag byte, then the amount (if
/// any) as eight little-endian bytes.
pub open spec fn spec_encode_message(m: Message) -> Seq<u8> {
    match m {
        Message::On => seq![TAG_ON],
        Message::Off => seq![TAG_OFF],
        Message::Dim(n) => seq![TAG_DIM] + spec_u64_to_le_bytes(n as u64),
        Message::Brighten(n) => seq![TAG_BRIGHTEN] + spec_u64_to_le_bytes(n as u64),
        Message::SetBrightness(n) => seq![TAG_SET_BRIGHTNESS] + spec_u64_to_le_bytes(n as u64),
    }
}

/// The unique command a byte string encodes, or `None` where the bytes are
/// not exactly one command encoding (truncated, trailing garbage, an unknown
/// tag, or an amount too large for this machine).
pub open spec fn spec_decode_message(b: Seq<u8>) -> Option<Message> {
    if b.len() == 1 {
        if b[0] == TAG_ON {
            Some(Message::On)
        } else if b[0] == TAG_OFF {
            Some(Message::Off)
        } else {
            None
        }
    } else if b.len() == 9 {
        let v = spec_u64_from_le_bytes(b.subrange(1, 9));
        if v <= usize::MAX {
            if b[0] == TAG_DIM {
                Some(Message::Dim(v as usize))
            } else if b[0] == TAG_BRIGHTEN {
                Some(Message::Brighten(v as usize))
            } else if b[0] == TAG_SET_BRIGHTNESS {
                Some(Message::SetBrightness(v as usize))
            } else {
                None
            }
        } else {
            None
        }
    } else {
        None
    }
}

/// Every command decodes back to itself: the encoding loses nothing.
pub proof fn lemma_message_round_trip(m: Message)
    ensures
        spec_decode_message(spec_encode_message(m)) == Some(m),
{
    lemma_auto_spec_u64_to_from_le_bytes();
    match m {
        Message::On => {},
        Message::Off => {},
        Message::Dim(n) => {
            assert(spec_encode_message(m).subrange(1, 9) =~= spec_u64_to_le_bytes(n as u64));
        },
        Message::Brighten(n) => {
            assert(spec_encode_message(m).subrange(1, 9) =~= spec_u64_to_le_bytes(n as u64));
        },
        Message::SetBrightness(n) => {
            assert(spec_encode_message(m).subrange(1, 9) =~= spec_u64_to_le_bytes(n as u64));
        },
    }
}

/// The encoding is canonical: any bytes the decoder accepts are exactly what
/// the encoder writes for the decoded command.
pub proof fn lemma_message_canonical(b: Seq<u8>, m: Message)
    requires
        spec_decode_message(b) == Some(m),
    ensures
        spec_encode_message(m) == b,
{
    lemma_auto_spec_u64_to_from_le_bytes();
    if b.len() == 1 {
        assert(spec_encode_message(m) =~= b);
    } else {
        let v = spec_u64_from_le_bytes(b.subrange(1, 9));
        assert(spec_u64_to_le_bytes(spec_u64_from_le_bytes(b.subrange(1, 9))) == b.subrange(
            1,
            9,
        ));
        assert((v as usize) as u64 == v);
        assert(spec_encode_message(m) =~= b);
    }
}

/// Writes the wire form of `m`.
pub fn encode_message(m: &Message) -> (r: Vec<u8>)
    ensures
        r@ == spec_encode_message(*m),
{
    match *m {
        Message::On => {
            let mut v: Vec<u8> = Vec::new();
            v.push(TAG_ON);
            proof {
                assert(v@ =~= spec_encode_message(*m));
            }
            v
        },
        Message::Off => {
            let mut v: Vec<u8> = Vec::new();
            v.push(TAG_OFF);
            proof {
                assert(v@ =~= spec_encode_message(*m));
            }
            v
        },
        Message::Dim(n) => {
            let v = encode_tagged_amount(TAG_DIM, n);
            proof {
                assert(v@ =~= spec_encode_message(*m));
            }
            v
        },
        Message::Brighten(n) => {
            let v = encode_tagged_amount(TAG_BRIGHTEN, n);
            proof {
                assert(v@ =~= spec_encode_message(*m));
            }
            v
        },
        Message::SetBrightness(n) => {
            let v = encode_tagged_amount(TAG_SET_BRIGHTNESS, n);
            proof {
                assert(v@ =~= spec_encode_message(*m));
            }
            v
        },
    }
}

fn encode_tagged_amount(tag: u8, n: usize) -> (r: Vec<u8>)
    ensures
        r@ == seq![tag] + spec_u64_to_le_bytes(n as u64),
{
    let mut v: Vec<u8> = Vec::new();
    v.push(tag);
    let mut tail = u64_to_le_bytes(n as u64);
    v.append(&mut tail);
    proof {
        assert(v@ =~= seq![tag] + spec_u64_to_le_bytes(n as u64));
    }
    v
}

/// Reads back exactly the commands `encode_message` writes; anything else is
/// `MalformedCommand`.
pub fn decode_message(b: &[u8]) -> (r: Result<Message, ServerError>)
    ensures
        match r {
            Ok(m) => spec_decode_message(b@) == Some(m),
            Err(e) => spec_decode_message(b@) is None && e == ServerError::MalformedCommand,
        },
{
    if b.len() == 1 {
        let tag = b[0];
        if tag == TAG_ON {
            Ok(Message::On)
        } else if tag == TAG_OFF {
            Ok(Message::Off)
        } else {
            Err(ServerError::MalformedCommand)
        }
    } else if b.len() == 9 {
        let tag = b[0];
        let amount = u64_from_le_bytes(slice_subrange(b, 1, 9));
        if amount <= usize::MAX as u64 {
            let n = amount as usize;
            if tag == TAG_DIM {
                Ok(Message::Dim(n))
            } else if tag == TAG_BRIGHTEN {
                Ok(Message::Brighten(n))
            } else if tag == TAG_SET_BRIGHTNESS {
                Ok(Message::SetBrightness(n))
            } else {
                Err(ServerError::MalformedCommand)
            }
        } else {
            Err(ServerError::MalformedCommand)
        }
    } else {
        Err(ServerError::MalformedCommand)
    }
}

} // verus!
