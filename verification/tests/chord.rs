use gliss::midi::chord::{Chord, ChordAppendError};
use gliss::midi::Note;

fn note_at(midi_number: u8, daw_time: u64) -> Note {
    Note::new([144, midi_number, 100], daw_time, None, 0).unwrap()
}

fn numbers(chord: &Chord) -> Vec<u8> {
    chord.notes.iter().map(|n| n.midi_number).collect()
}

const WINDOW: u64 = 50_000_000;

#[test]
fn new_chord_holds_its_first_note() {
    let chord = Chord::new(note_at(60, 1_000), WINDOW);
    assert_eq!(numbers(&chord), vec![60]);
    assert_eq!(chord.start_time, 1_000);
    assert_eq!(chord.capture_duration, WINDOW);
    assert!(!chord.sent_to_bender);
}

#[test]
fn append_keeps_the_notes_in_ascending_order() {
    let mut chord = Chord::new(note_at(64, 1_000_000_000), WINDOW);
    assert_eq!(chord.append(note_at(67, 1_000_000_001)), Ok(()));
    assert_eq!(chord.append(note_at(60, 1_000_000_002)), Ok(()));
    assert_eq!(chord.append(note_at(65, 1_000_000_003)), Ok(()));
    assert_eq!(chord.append(note_at(0, 1_000_000_004)), Ok(()));
    assert_eq!(chord.append(note_at(127, 1_000_000_005)), Ok(()));
    assert_eq!(numbers(&chord), vec![0, 60, 64, 65, 67, 127]);
    assert_eq!(chord.notes[3].daw_time, 1_000_000_003);
    assert_eq!(chord.start_time, 1_000_000_000);
}

#[test]
fn append_rejects_a_number_that_is_there() {
    let mut chord = Chord::new(note_at(64, 1_000), WINDOW);
    chord.append(note_at(60, 1_001)).unwrap();
    assert_eq!(chord.append(note_at(64, 1_002)), Err(ChordAppendError::Exists));
    assert_eq!(chord.append(note_at(60, 1_002)), Err(ChordAppendError::Exists));
    assert_eq!(numbers(&chord), vec![60, 64]);
}

#[test]
fn append_after_the_window_is_late() {
    let start = 1_000_000_000;
    let mut chord = Chord::new(note_at(64, start), WINDOW);
    assert_eq!(chord.append(note_at(60, start + WINDOW)), Ok(()));
    assert_eq!(chord.append(note_at(61, start + WINDOW + 1)), Err(ChordAppendError::Late));
    assert_eq!(chord.append(note_at(62, u64::MAX)), Err(ChordAppendError::Late));
    assert_eq!(numbers(&chord), vec![60, 64]);
}

#[test]
fn append_long_before_the_chord_is_early() {
    let start = 1_000_000_000;
    let mut chord = Chord::new(note_at(64, start), WINDOW);
    assert_eq!(chord.append(note_at(60, start - WINDOW)), Ok(()));
    assert_eq!(chord.append(note_at(61, start - WINDOW - 1)), Err(ChordAppendError::Early));
    assert_eq!(chord.append(note_at(62, 0)), Err(ChordAppendError::Early));
    assert_eq!(numbers(&chord), vec![60, 64]);
    // a window longer than the time since zero reaches back to zero
    let mut wide = Chord::new(note_at(64, 10), WINDOW);
    assert_eq!(wide.append(note_at(60, 0)), Ok(()));
}

#[test]
fn early_is_told_before_exists() {
    let start = 1_000_000_000;
    let mut chord = Chord::new(note_at(64, start), WINDOW);
    assert_eq!(chord.append(note_at(64, 0)), Err(ChordAppendError::Early));
    assert_eq!(chord.append(note_at(64, start + WINDOW + 1)), Err(ChordAppendError::Late));
}

#[test]
fn done_capturing_after_the_window() {
    let chord = Chord::new(note_at(64, 1_000), WINDOW);
    assert!(!chord.done_capturing(0));
    assert!(!chord.done_capturing(1_000));
    assert!(!chord.done_capturing(1_000 + WINDOW));
    assert!(chord.done_capturing(1_000 + WINDOW + 1));
    let endless = Chord::new(note_at(64, u64::MAX - 5), 10);
    assert!(!endless.done_capturing(u64::MAX));
}

#[test]
fn from_notes_sorts_by_number_and_starts_with_the_earliest() {
    let chord = Chord::from_notes(
        vec![note_at(67, 30), note_at(60, 20), note_at(64, 10), note_at(62, 40)],
        WINDOW,
    )
    .unwrap();
    assert_eq!(numbers(&chord), vec![60, 62, 64, 67]);
    assert_eq!(chord.start_time, 10);
    assert_eq!(chord.capture_duration, WINDOW);
    assert!(!chord.sent_to_bender);
}

#[test]
fn from_notes_keeps_the_first_note_of_a_number() {
    let mut chord = Chord::from_notes(
        vec![note_at(67, 30), note_at(60, 20), note_at(64, 10), note_at(60, 5), note_at(67, 1)],
        WINDOW,
    )
    .unwrap();
    // each number once: the chord is one that further notes can join
    assert_eq!(numbers(&chord), vec![60, 64, 67]);
    assert_eq!(chord.notes[0].daw_time, 20);
    assert_eq!(chord.notes[2].daw_time, 30);
    // the earliest of the notes that are kept
    assert_eq!(chord.start_time, 10);
    assert_eq!(chord.append(note_at(62, 12)), Ok(()));
    assert_eq!(chord.append(note_at(60, 12)), Err(ChordAppendError::Exists));
    assert_eq!(numbers(&chord), vec![60, 62, 64, 67]);
    let single = Chord::from_notes(vec![note_at(60, 9), note_at(60, 3)], WINDOW).unwrap();
    assert_eq!(numbers(&single), vec![60]);
    assert_eq!(single.start_time, 9);
}

#[test]
fn from_notes_hands_back_an_empty_list() {
    let back = Chord::from_notes(vec![], WINDOW).unwrap_err();
    assert!(back.is_empty());
}

#[test]
fn release_marks_the_key() {
    let mut chord = Chord::new(note_at(64, 1_000), WINDOW);
    chord.append(note_at(60, 1_001)).unwrap();
    chord.release(64);
    assert!(!chord.notes[0].key_released);
    assert!(chord.notes[1].key_released);
    chord.release(61);
    assert!(!chord.notes[0].key_released);
}

#[test]
fn hand_over_stamps_the_display_time() {
    let mut chord = Chord::new(note_at(64, 1_000), 500);
    chord.append(note_at(60, 1_100)).unwrap();
    chord.hand_over(300);
    assert!(chord.sent_to_bender);
    assert_eq!(chord.notes[0].ui_time, 1_200);
    assert_eq!(chord.notes[1].ui_time, 1_200);
    let mut before = Chord::new(note_at(64, 1_000), 500);
    before.hand_over(2_000);
    assert_eq!(before.notes[0].ui_time, 0);
    let mut far = Chord::new(note_at(64, u64::MAX), u64::MAX);
    far.hand_over(1);
    assert_eq!(far.notes[0].ui_time, u64::MAX);
}
