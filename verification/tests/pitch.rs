use autotune_rs::audio::Note;
use autotune_rs::audio::Pitch;

#[test]
fn semitones_to_note() {
    let semitones = -3;
    let note = Note::from_semitones_from_c(semitones);
    assert_eq!(note, Note::A);
}

#[test]
fn semitones_from_c0() {
    let pitch = Pitch::new(Note::CSharp, 2);
    let semitones_away = pitch.semitones_to_c0();
    assert_eq!(semitones_away, 25);
}

#[test]
fn note_semitones_roundtrip_for_every_note() {
    let notes = [
        Note::C,
        Note::CSharp,
        Note::D,
        Note::EFlat,
        Note::E,
        Note::F,
        Note::FSharp,
        Note::G,
        Note::GSharp,
        Note::A,
        Note::BFlat,
        Note::B,
    ];
    for (i, note) in notes.iter().enumerate() {
        assert_eq!(note.to_semitones_from_c() as usize, i);
        assert_eq!(Note::from_semitones_from_c(i as isize), *note);
        // a whole number of octaves away, up or down, gives the same note
        assert_eq!(Note::from_semitones_from_c(i as isize + 36), *note);
        assert_eq!(Note::from_semitones_from_c(i as isize - 24), *note);
    }
}

#[test]
fn semitones_to_note_edges() {
    assert_eq!(Note::from_semitones_from_c(0), Note::C);
    assert_eq!(Note::from_semitones_from_c(11), Note::B);
    assert_eq!(Note::from_semitones_from_c(12), Note::C);
    assert_eq!(Note::from_semitones_from_c(-1), Note::B);
    assert_eq!(Note::from_semitones_from_c(-12), Note::C);
    assert_eq!(Note::from_semitones_from_c(-13), Note::B);
    // 2^63 and 2^31 are both 8 modulo 12
    assert_eq!(Note::from_semitones_from_c(isize::MIN), Note::E);
    assert_eq!(Note::from_semitones_from_c(isize::MAX), Note::G);
}

#[test]
fn pitch_accessors() {
    let pitch = Pitch::new(Note::FSharp, 3);
    assert_eq!(*pitch.note(), Note::FSharp);
    assert_eq!(*pitch.octave(), 3);
}

#[test]
fn reference_pitches() {
    let c0 = Pitch::c0();
    assert_eq!(c0, Pitch::new(Note::C, 0));
    assert_eq!(c0.semitones_to_c0(), 0);
    assert_eq!(c0.semitones_to_a4(), -57);
    let a4 = Pitch::a440();
    assert_eq!(a4, Pitch::new(Note::A, 4));
    assert_eq!(a4.semitones_to_c0(), 57);
    assert_eq!(a4.semitones_to_a4(), 0);
    assert_eq!(Pitch::a4(), a4);
    assert_eq!(Pitch::new(Note::B, 255).semitones_to_c0(), 11 + 12 * 255);
}

#[test]
fn pitch_from_semitones_from_c0() {
    // D1, the closest pitch to 36.708 Hz
    assert_eq!(Pitch::from_semitones_from_c0(14), Pitch::new(Note::D, 1));
    // A4, the closest pitch to 438 Hz
    assert_eq!(Pitch::from_semitones_from_c0(57), Pitch::new(Note::A, 4));
    assert_eq!(Pitch::from_semitones_from_c0(0), Pitch::new(Note::C, 0));
    // the octave keeps its low 8 bits
    assert_eq!(Pitch::from_semitones_from_c0(12 * 256 + 1), Pitch::new(Note::CSharp, 0));
}

#[test]
fn pitch_semitones_roundtrip() {
    for octave in [0u8, 1, 4, 9, 255] {
        for s in 0..12isize {
            let pitch = Pitch::new(Note::from_semitones_from_c(s), octave);
            let back = Pitch::from_semitones_from_c0(pitch.semitones_to_c0() as usize);
            assert_eq!(back, pitch);
        }
    }
}

#[test]
fn note_names() {
    assert_eq!(Note::C.to_string(), "C");
    assert_eq!(Note::CSharp.to_string(), "C\u{266F}");
    assert_eq!(Note::EFlat.to_string(), "E\u{266D}");
    assert_eq!(Note::BFlat.to_string(), "B\u{266D}");
    assert_eq!(Note::G.to_string(), "G");
}
