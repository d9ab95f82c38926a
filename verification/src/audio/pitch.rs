//! Notes of the chromatic scale and pitches (a note in an octave).

use vstd::prelude::*;
use vstd::arithmetic::div_mod::lemma_mod_multiples_vanish;

verus! {

/// An octave-independent note representation.
///
/// Use [`Pitch`] to include octave information.
#[derive(Copy, Clone, Debug, PartialEq, Eq, Structural)]
pub enum Note {
    C,
    CSharp,
    D,
    EFlat,
    E,
    F,
    FSharp,
    G,
    GSharp,
    A,
    BFlat,
    B,
}

/// The number of semitones from C up to `note`, in `0..12`.
pub open spec fn note_index(note: Note) -> int {
    match note {
        Note::C => 0,
        Note::CSharp => 1,
        Note::D => 2,
        Note::EFlat => 3,
        Note::E => 4,
        Note::F => 5,
        Note::FSharp => 6,
        Note::G => 7,
        Note::GSharp => 8,
        Note::A => 9,
        Note::BFlat => 10,
        Note::B => 11,
    }
}

/// The note that lies `index` semitones above C, for `index` in `0..12`.
pub open spec fn note_at(index: int) -> Note {
    if index == 0 {
        Note::C
    } else if index == 1 {
        Note::CSharp
    } else if index == 2 {
        Note::D
    } else if index == 3 {
        Note::EFlat
    } else if index == 4 {
        Note::E
    } else if index == 5 {
        Note::F
    } else if index == 6 {
        Note::FSharp
    } else if index == 7 {
        Note::G
    } else if index == 8 {
        Note::GSharp
    } else if index == 9 {
        Note::A
    } else if index == 10 {
        Note::BFlat
    } else {
        Note::B
    }
}

/// The note `semitones` away from C, in either direction, ignoring the octave.
pub open spec fn note_from_semitones(semitones: int) -> Note {
    note_at(semitones % 12)
}

/// The name under which a note is shown.
pub open spec fn note_name(note: Note) -> Seq<char> {
    match note {
        Note::C => seq!['C'],
        Note::CSharp => seq!['C', '\u{266F}'],
        Note::D => seq!['D'],
        Note::EFlat => seq!['E', '\u{266D}'],
        Note::E => seq!['E'],
        Note::F => seq!['F'],
        Note::FSharp => seq!['F', '\u{266F}'],
        Note::G => seq!['G'],
        Note::GSharp => seq!['G', '\u{266F}'],
        Note::A => seq!['A'],
        Note::BFlat => seq!['B', '\u{266D}'],
        Note::B => seq!['B'],
    }
}

impl Note {
    /// Returns the number of semitones from C.
    pub fn to_semitones_from_c(&self) -> (semitones: u8)
        ensures
            semitones == note_index(*self),
            semitones < 12,
    {
        match self {
            Note::C => 0,
            Note::CSharp => 1,
            Note::D => 2,
            Note::EFlat => 3,
            Note::E => 4,
            Note::F => 5,
            Note::FSharp => 6,
            Note::G => 7,
            Note::GSharp => 8,
            Note::A => 9,
            Note::BFlat => 10,
            Note::B => 11,
        }
    }

    /// Returns the Note `semitones` away from C, ignoring the octave.
    pub fn from_semitones_from_c(semitones: isize) -> (note: Note)
        ensures
            note == note_from_semitones(semitones as int),
    {
        let mut semitones: isize = semitones % 12;
        if semitones < 0 {
            semitones += 12;
        }
        match semitones {
            0 => Note::C,
            1 => Note::CSharp,
            2 => Note::D,
            3 => Note::EFlat,
            4 => Note::E,
            5 => Note::F,
            6 => Note::FSharp,
            7 => Note::G,
            8 => Note::GSharp,
            9 => Note::A,
            10 => Note::BFlat,
            _ => Note::B,
        }
    }

    /// The name under which the note is shown, e.g. `"C\u{266F}"`.
    pub fn to_string(&self) -> (name: String)
        ensures
            name@ == note_name(*self),
    {
        let name = match self {
            Note::C => "C",
            Note::CSharp => "C\u{266F}",
            Note::D => "D",
            Note::EFlat => "E\u{266D}",
            Note::E => "E",
            Note::F => "F",
            Note::FSharp => "F\u{266F}",
            Note::G => "G",
            Note::GSharp => "G\u{266F}",
            Note::A => "A",
            Note::BFlat => "B\u{266D}",
            Note::B => "B",
        };
        proof {
            reveal_strlit("C");
            reveal_strlit("C\u{266F}");
            reveal_strlit("D");
            reveal_strlit("E\u{266D}");
            reveal_strlit("E");
            reveal_strlit("F");
            reveal_strlit("F\u{266F}");
            reveal_strlit("G");
            reveal_strlit("G\u{266F}");
            reveal_strlit("A");
            reveal_strlit("B\u{266D}");
            reveal_strlit("B");
        }
        String::from_str(name)
    }
}

/// The letter that follows `letter` in the cycle `C D E F G A B C`.
pub open spec fn letter_after(letter: char) -> char {
    if letter == 'G' {
        'A'
    } else if letter == 'B' {
        'C'
    } else {
        ((letter as u32) + 1) as char
    }
}

/// The names of the notes: every name is a letter, alone or followed by a sharp
/// or a flat, and no two notes share a name. C is named `C`; from a note named
/// by a letter alone, the note named by the following letter lies one semitone
/// up after E and B and two semitones up otherwise (so the naturals are C, D, E,
/// F, G, A, B at 0, 2, 4, 5, 7, 9, 11 semitones); a sharp is the note one
/// semitone above the letter it carries, and a flat the note one semitone below.
pub proof fn lemma_note_names(a: Note, b: Note)
    ensures
        note_name(a) == note_name(b) ==> a == b,
        note_name(Note::C) == seq!['C'],
        note_name(a).len() == 1 || (note_name(a).len() == 2 && (note_name(a)[1] == '\u{266F}'
            || note_name(a)[1] == '\u{266D}')),
        note_name(a).len() == 1 ==> note_name(
            note_from_semitones(
                note_index(a) + if note_name(a)[0] == 'E' || note_name(a)[0] == 'B' {
                    1int
                } else {
                    2int
                },
            ),
        ) == seq![letter_after(note_name(a)[0])],
        note_name(a).len() == 2 && note_name(a)[1] == '\u{266F}' ==> note_name(
            note_from_semitones(note_index(a) - 1),
        ) == seq![note_name(a)[0]],
        note_name(a).len() == 2 && note_name(a)[1] == '\u{266D}' ==> note_name(
            note_from_semitones(note_index(a) + 1),
        ) == seq![note_name(a)[0]],
{
    assert(note_name(a).len() == 1 || note_name(a).len() == 2);
    if note_name(a) == note_name(b) && a != b {
        assert(note_name(a).len() == note_name(b).len());
        assert(note_name(a)[0] == note_name(b)[0]);
        if note_name(a).len() == 2 {
            assert(note_name(a)[1] == note_name(b)[1]);
        }
    }
}

/// Every note is found again from its distance to C.
pub proof fn lemma_note_semitones_roundtrip(note: Note)
    ensures
        note_index(Note::C) == 0,
        0 <= note_index(note) < 12,
        note_from_semitones(note_index(note)) == note,
{
}

/// The note found from any count of semitones lies that count, taken modulo
/// 12, above C.
pub proof fn lemma_note_index_of_semitones(semitones: int)
    ensures
        note_index(note_from_semitones(semitones)) == semitones % 12,
{
}

/// Moving a whole number of octaves, up or down, keeps the note.
pub proof fn lemma_note_octave_periodic(semitones: int, octaves: int)
    ensures
        note_from_semitones(semitones + 12 * octaves) == note_from_semitones(semitones),
{
    lemma_mod_multiples_vanish(octaves, semitones, 12);
}


/// A note in a given octave, e.g. A in octave 4 (A440).
///
/// The closest pitch to a frequency is found by counting the semitones from
/// [`Pitch::c0`], rounding, and converting back (see [`Pitch::from_semitones_from_c0`]).
#[derive(Copy, Clone, Debug, PartialEq, Eq, Structural)]
pub struct Pitch {
    note: Note,
    octave: u8,
}

/// The number of semitones from C0 to A4, the reference pitch of equal temperament.
pub const SEMITONES_C0_TO_A4: i32 = 57;

impl Pitch {
    /// C in octave 0, the lowest pitch.
    pub fn c0() -> (pitch: Pitch)
        ensures
            pitch.spec_note() == Note::C,
            pitch.spec_octave() == 0,
    {
        Pitch { note: Note::C, octave: 0 }
    }

    /// A in octave 4, tuned to 440 Hz (also known as A4).
    pub fn a440() -> (pitch: Pitch)
        ensures
            pitch.spec_note() == Note::A,
            pitch.spec_octave() == 4,
            pitch.spec_semitones_to_c0() == SEMITONES_C0_TO_A4,
    {
        Pitch { note: Note::A, octave: 4 }
    }

    /// Alias of [`Pitch::a440`].
    pub fn a4() -> (pitch: Pitch)
        ensures
            pitch.spec_note() == Note::A,
            pitch.spec_octave() == 4,
            pitch.spec_semitones_to_c0() == SEMITONES_C0_TO_A4,
    {
        Pitch::a440()
    }

    /// The note of this pitch.
    pub closed spec fn spec_note(self) -> Note {
        self.note
    }

    /// The octave of this pitch.
    pub closed spec fn spec_octave(self) -> u8 {
        self.octave
    }

    /// The number of semitones from C0 up to this pitch.
    pub open spec fn spec_semitones_to_c0(self) -> int {
        note_index(self.spec_note()) + 12 * self.spec_octave()
    }

    /// The pitch `semitones` above C0, with the octave kept to its low 8 bits.
    pub closed spec fn spec_from_semitones_from_c0(semitones: nat) -> Pitch {
        Pitch { note: note_at((semitones % 12) as int), octave: ((semitones / 12) % 256) as u8 }
    }

    /// Counting a pitch's semitones from C0 and converting back gives the same pitch.
    pub proof fn lemma_semitones_roundtrip(pitch: Pitch)
        ensures
            pitch.spec_semitones_to_c0() >= 0,
            Pitch::spec_from_semitones_from_c0(pitch.spec_semitones_to_c0() as nat) == pitch,
    {
        let s = pitch.spec_semitones_to_c0();
        let i = note_index(pitch.note);
        let o = pitch.octave as int;
        lemma_mod_multiples_vanish(o, i, 12);
        assert(s / 12 == o) by {
            vstd::arithmetic::div_mod::lemma_fundamental_div_mod_converse(s, 12, o, i);
        }
    }

    /// Every count of semitones below 256 octaves names a pitch lying exactly that
    /// many semitones above C0.
    pub proof fn lemma_from_semitones_exact(semitones: nat)
        requires
            semitones < 12 * 256,
        ensures
            Pitch::spec_from_semitones_from_c0(semitones).spec_semitones_to_c0() == semitones,
    {
    }

    /// Two pitches with the same note and octave are the same pitch.
    pub proof fn lemma_ext_equal(a: Pitch, b: Pitch)
        requires
            a.spec_note() == b.spec_note(),
            a.spec_octave() == b.spec_octave(),
        ensures
            a == b,
    {
    }

    /// The pitch of `note` in `octave`.
    pub fn new(note: Note, octave: u8) -> (pitch: Pitch)
        ensures
            pitch.spec_note() == note,
            pitch.spec_octave() == octave,
    {
        Pitch { note, octave }
    }

    /// The note of this pitch.
    pub fn note(&self) -> (note: &Note)
        ensures
            *note == self.spec_note(),
    {
        &self.note
    }

    /// The octave of this pitch.
    pub fn octave(&self) -> (octave: &u8)
        ensures
            *octave == self.spec_octave(),
    {
        &self.octave
    }

    /// The number of semitones from C0 up to this pitch.
    pub fn semitones_to_c0(&self) -> (semitones: u32)
        ensures
            semitones == self.spec_semitones_to_c0(),
    {
        self.note.to_semitones_from_c() as u32 + 12 * (self.octave as u32)
    }

    /// The signed number of semitones from A4 (440 Hz) to this pitch; the
    /// equal-temperament frequency is `440 * 2^(semitones / 12)`.
    pub fn semitones_to_a4(&self) -> (semitones: i32)
        ensures
            semitones == self.spec_semitones_to_c0() - SEMITONES_C0_TO_A4,
    {
        self.semitones_to_c0() as i32 - SEMITONES_C0_TO_A4
    }

    /// The pitch `semitones` above C0: the note is `semitones` modulo 12, and the
    /// octave is `semitones / 12` kept to its low 8 bits.
    pub fn from_semitones_from_c0(semitones: usize) -> (pitch: Pitch)
        ensures
            pitch == Pitch::spec_from_semitones_from_c0(semitones as nat),
            pitch.spec_note() == note_at(semitones as int % 12),
            pitch.spec_octave() == (semitones as int / 12) % 256,
    {
        let (within, octave) = (semitones % 12, semitones / 12);
        let note = Note::from_semitones_from_c(within as isize);
        let octave: u8 = (octave % 256) as u8;
        Pitch::new(note, octave)
    }
}

} // verus!
