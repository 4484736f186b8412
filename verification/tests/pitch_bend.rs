use gliss::midi::{Bend, BendRangeError, Note, NoteError};

#[test]
fn from_lsb_120_msb_95() {
    let msb = 95;
    let lsb = 120;
    let bend = Bend::new(msb, lsb);
    assert_eq!(Bend(12_280u16), bend);
}

#[test]
fn to_midi_lsb_120_msb_95() {
    let midi_event = Bend(12_280u16).as_midi_event(1);
    assert_eq!(midi_event.data, [224, 120, 95]);
}

#[test]
fn decode_of_encode_is_identity_for_every_bend_in_range() {
    for value in 0..=16_383u16 {
        let event = Bend(value).as_midi_event(2);
        assert_eq!(event.data[0], 225);
        assert_eq!(Bend::new(event.data[2], event.data[1]), Bend(value));
    }
}

#[test]
fn encode_clamps_a_bend_out_of_range_to_the_maximum() {
    for value in [16_384u16, 20_000, 65_535] {
        let event = Bend(value).as_midi_event(16);
        assert_eq!(event.data, [239, 127, 127]);
    }
}

#[test]
fn encoded_message_has_neutral_delivery_fields() {
    let event = Bend(8192).as_midi_event(3);
    assert_eq!(event.data, [226, 0, 64]);
    assert_eq!(event.delta_frames, 0);
    assert!(!event.live);
    assert_eq!(event.note_length, None);
    assert_eq!(event.note_offset, None);
    assert_eq!(event.detune, 0);
    assert_eq!(event.note_off_velocity, 0);
}

#[test]
fn continuous_semitones_counts_in_8192ths() {
    assert_eq!(Bend(8192).continuous_semitones(24), 0);
    assert_eq!(Bend(16_384).continuous_semitones(24), 24 * 8192);
    assert_eq!(Bend(0).continuous_semitones(24), -24 * 8192);
    assert_eq!(Bend(8192 + 1024).continuous_semitones(24), 3 * 8192);
    assert_eq!(Bend(8193).continuous_semitones(48), 48);
}

#[test]
fn semitones_splits_whole_and_remainder() {
    // 400 bend units above the centre at range 24: 9600/8192 semitones.
    assert_eq!(Bend(8192 + 400).semitones(24), (1, 58));
    assert_eq!(Bend(8192 - 400).semitones(24), (-1, -58));
    assert_eq!(Bend(8192 + 100).semitones(24), (0, 100));
    assert_eq!(Bend(8192).semitones(24), (0, 0));
    // the remainder is held to an i8
    assert_eq!(Bend(8192 + 300).semitones(2), (0, 127));
    assert_eq!(Bend(8192 - 300).semitones(2), (0, -128));
    // an empty range bends nothing
    assert_eq!(Bend(12_000).semitones(0), (0, 0));
}

fn note(midi_number: u8) -> Note {
    Note::new([144, midi_number, 100], 1_000, None, 0).unwrap()
}

#[test]
fn note_new_reads_channel_and_number() {
    let n = Note::new([146, 61, 90], 5_000, Some(7), 1_000).unwrap();
    assert_eq!(n.channel, 3);
    assert_eq!(n.midi_number, 61);
    assert_eq!(n.daw_time, 5_000);
    assert_eq!(n.bend_duration, Some(7));
    assert_eq!(n.ui_time, 4_000);
    assert!(!n.new_note_on);
    assert!(!n.key_released);
}

#[test]
fn note_new_rejects_what_is_not_a_note_on() {
    for status in [0u8, 127, 128, 143, 160, 255] {
        assert_eq!(
            Note::new([status, 60, 100], 10, None, 0).unwrap_err(),
            NoteError::NotNoteOn
        );
    }
    assert!(Note::new([144, 60, 100], 10, None, 0).is_ok());
    assert!(Note::new([159, 60, 100], 10, None, 0).is_ok());
}

#[test]
fn note_new_rejects_a_time_before_the_epoch() {
    assert_eq!(
        Note::new([144, 60, 100], 9, None, 10).unwrap_err(),
        NoteError::BeforeEpoch
    );
    assert_eq!(Note::new([144, 60, 100], 10, None, 10).unwrap().ui_time, 0);
}

#[test]
fn note_on_message_has_velocity_64() {
    let mut n = note(60);
    n.channel = 2;
    assert_eq!(n.as_midi_event().data, [145, 60, 64]);
}

#[test]
fn bend_to_scales_the_interval_by_the_range() {
    assert_eq!(note(60).bend_to(&note(60), 24), Ok(Bend(8192)));
    assert_eq!(note(60).bend_to(&note(63), 24), Ok(Bend(9216)));
    assert_eq!(note(60).bend_to(&note(57), 24), Ok(Bend(7168)));
    // the whole range upwards is held to the largest bend of the wire
    assert_eq!(note(60).bend_to(&note(84), 24), Ok(Bend(16_383)));
    assert_eq!(note(60).bend_to(&note(83), 24), Ok(Bend(16_042)));
    for range in 1..=127u8 {
        assert_eq!(note(0).bend_to(&note(range), range), Ok(Bend(16_383)));
        assert_eq!(note(range).bend_to(&note(0), range), Ok(Bend(0)));
    }
    assert_eq!(note(60).bend_to(&note(36), 24), Ok(Bend(0)));
    // 8192 * 55 / 48 = 9386.67, rounded down
    assert_eq!(note(60).bend_to(&note(67), 48), Ok(Bend(9386)));
}

#[test]
fn bend_to_fails_beyond_the_range() {
    assert_eq!(
        note(60).bend_to(&note(85), 24),
        Err(BendRangeError { semitones: 25, pitch_bend_range: 24 })
    );
    assert_eq!(
        note(60).bend_to(&note(35), 24),
        Err(BendRangeError { semitones: -25, pitch_bend_range: 24 })
    );
    assert_eq!(
        note(60).bend_to(&note(60), 0),
        Err(BendRangeError { semitones: 0, pitch_bend_range: 0 })
    );
}
