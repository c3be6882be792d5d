//! MIDI note numbers and their names.

use vstd::prelude::*;
use vstd::std_specs::convert::FromSpecImpl;
use vstd::string::StringExecFns;

verus! {

/// A MIDI note number. Middle C is 60.
#[derive(Copy, Clone, PartialEq, Eq, Structural, Debug)]
pub struct Note(pub u8);

impl From<u8> for Note {
    fn from(value: u8) -> (note: Note) {
        Note(value)
    }
}

impl FromSpecImpl<u8> for Note {
    open spec fn obeys_from_spec() -> bool {
        true
    }

    open spec fn from_spec(value: u8) -> Note {
        Note(value)
    }
}

/// The name of a pitch class, `0` being C and `11` being B.
pub open spec fn pitch_class_name(class: int) -> Seq<char> {
    if class == 0 {
        "C"@
    } else if class == 1 {
        "C#"@
    } else if class == 2 {
        "D"@
    } else if class == 3 {
        "D#"@
    } else if class == 4 {
        "E"@
    } else if class == 5 {
        "F"@
    } else if class == 6 {
        "F#"@
    } else if class == 7 {
        "G"@
    } else if class == 8 {
        "G#"@
    } else if class == 9 {
        "A"@
    } else if class == 10 {
        "A#"@
    } else {
        "B"@
    }
}

/// The label of an octave, counted from the lowest one, which is `-1`.
pub open spec fn octave_label(octave: int) -> Seq<char> {
    if octave == 0 {
        "-1"@
    } else if octave == 1 {
        "0"@
    } else if octave == 2 {
        "1"@
    } else if octave == 3 {
        "2"@
    } else if octave == 4 {
        "3"@
    } else if octave == 5 {
        "4"@
    } else if octave == 6 {
        "5"@
    } else if octave == 7 {
        "6"@
    } else if octave == 8 {
        "7"@
    } else if octave == 9 {
        "8"@
    } else {
        "9"@
    }
}

/// The name of a note number: its pitch class followed by its octave, so
/// that 60 is `C4` and 0 is `C-1`.
pub open spec fn note_name_spec(note: u8) -> Seq<char> {
    pitch_class_name(note as int % 12) + octave_label(note as int / 12)
}

/// The note number `offset` semitones away from `note`, held within `0..=255`.
pub open spec fn transpose_spec(note: u8, offset: i8) -> u8 {
    if note + offset < 0 {
        0u8
    } else if note + offset > 255 {
        255u8
    } else {
        (note + offset) as u8
    }
}

fn pitch_class_str(class: u8) -> (name: &'static str)
    requires
        class < 12,
    ensures
        name@ == pitch_class_name(class as int),
{
    match class {
        0 => "C",
        1 => "C#",
        2 => "D",
        3 => "D#",
        4 => "E",
        5 => "F",
        6 => "F#",
        7 => "G",
        8 => "G#",
        9 => "A",
        10 => "A#",
        _ => "B",
    }
}

fn octave_str(octave: u8) -> (label: &'static str)
    ensures
        label@ == octave_label(octave as int),
{
    match octave {
        0 => "-1",
        1 => "0",
        2 => "1",
        3 => "2",
        4 => "3",
        5 => "4",
        6 => "5",
        7 => "6",
        8 => "7",
        9 => "8",
        _ => "9",
    }
}

/// Names a note number. Notes are numbered from 0 to 127.
pub fn note_name(note: u8) -> (name: String)
    requires
        note < 128,
    ensures
        name@ == note_name_spec(note),
{
    let pitch = String::from_str(pitch_class_str(note % 12));
    pitch.concat(octave_str(note / 12))
}

impl Note {
    /// Middle C.
    pub fn middle_c() -> (note: Note)
        ensures
            note == Note(60),
    {
        Note(60)
    }

    /// The name of this note, such as `C4` or `F#2`.
    pub fn name(&self) -> (name: String)
        requires
            self.0 < 128,
        ensures
            name@ == note_name_spec(self.0),
    {
        note_name(self.0)
    }

    /// Moves the note by `offset` semitones, stopping at the ends of the
    /// note range rather than wrapping around.
    pub fn transpose(&self, offset: i8) -> (note: Note)
        ensures
            note == Note(transpose_spec(self.0, offset)),
    {
        let moved: i16 = self.0 as i16 + offset as i16;
        if moved < 0 {
            Note(0)
        } else if moved > 255 {
            Note(255)
        } else {
            Note(moved as u8)
        }
    }
}

} // verus!
