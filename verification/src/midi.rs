//! MIDI channel messages and their decoding from raw bytes.

use crate::note::Note;
use vstd::prelude::*;

verus! {

/// A channel message, or `Invalid` for bytes that are none.
#[allow(inconsistent_fields)]
#[derive(Copy, Clone, PartialEq, Eq, Structural, Debug)]
pub enum MidiEvent {
    NoteOn { channel: u8, note: Note, velocity: u8 },
    NoteOff { channel: u8, note: Note, velocity: u8 },
    ControlChange { channel: u8, control: u8, value: u8 },
    PitchBend { channel: u8, value: u16 },
    Invalid,
}

/// An event together with its offset, in samples, from the start of the
/// block in which it arrives.
#[derive(Copy, Clone, PartialEq, Eq, Structural, Debug)]
pub struct TimedMidiEvent {
    pub time: u32,
    pub event: MidiEvent,
}

/// The channel that a status byte addresses: its low four bits.
pub open spec fn status_channel(status: u8) -> u8 {
    status & 0x0f
}

/// The fourteen-bit bend value that two data bytes carry, low byte first.
pub open spec fn bend_value(lsb: u8, msb: u8) -> u16 {
    (lsb as u16) | ((msb as u16) << 7)
}

/// The event that a raw message stands for. A message is three bytes, the
/// first of which gives the kind in its high four bits; anything else is
/// `Invalid`.
pub open spec fn decode(data: Seq<u8>) -> MidiEvent {
    if data.len() != 3 {
        MidiEvent::Invalid
    } else if 0x80 <= data[0] <= 0x8f {
        MidiEvent::NoteOff {
            channel: status_channel(data[0]),
            note: Note(data[1]),
            velocity: data[2],
        }
    } else if 0x90 <= data[0] <= 0x9f {
        MidiEvent::NoteOn {
            channel: status_channel(data[0]),
            note: Note(data[1]),
            velocity: data[2],
        }
    } else if 0xb0 <= data[0] <= 0xbf {
        MidiEvent::ControlChange {
            channel: status_channel(data[0]),
            control: data[1],
            value: data[2],
        }
    } else if 0xe0 <= data[0] <= 0xef {
        MidiEvent::PitchBend {
            channel: status_channel(data[0]),
            value: bend_value(data[1], data[2]),
        }
    } else {
        MidiEvent::Invalid
    }
}

impl MidiEvent {
    /// Decodes one raw message.
    pub fn from_raw(data: &[u8]) -> (event: MidiEvent)
        ensures
            event == decode(data@),
    {
        if data.len() != 3 {
            return MidiEvent::Invalid;
        }
        let status: u8 = data[0];
        let first: u8 = data[1];
        let second: u8 = data[2];
        let channel: u8 = status & 0x0f;
        if 0x80 <= status && status <= 0x8f {
            MidiEvent::NoteOff { channel, note: Note(first), velocity: second }
        } else if 0x90 <= status && status <= 0x9f {
            MidiEvent::NoteOn { channel, note: Note(first), velocity: second }
        } else if 0xb0 <= status && status <= 0xbf {
            MidiEvent::ControlChange { channel, control: first, value: second }
        } else if 0xe0 <= status && status <= 0xef {
            MidiEvent::PitchBend { channel, value: (first as u16) | ((second as u16) << 7) }
        } else {
            MidiEvent::Invalid
        }
    }

    /// Whether this is the `Invalid` event.
    pub fn is_invalid(&self) -> (invalid: bool)
        ensures
            invalid == (*self == MidiEvent::Invalid),
    {
        match self {
            MidiEvent::Invalid => true,
            _ => false,
        }
    }
}

} // verus!
