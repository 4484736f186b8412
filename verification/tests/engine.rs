use gliss::midi::bender::Bender;
use gliss::midi::chord::ChordBender;
use gliss::midi::voices::find_free_channel;
use gliss::midi::mapper::ChordMap;
use gliss::midi::paths::{BendPath, BendPathBuilder, Path};
use gliss::midi::voices::Refusal;
use gliss::midi::{Bend, BendRangeError, MidiEvent, Note};

const SECOND: u64 = 1_000_000_000;
const MILLI: u64 = 1_000_000;

fn engine() -> ChordBender {
    ChordBender::new(0, 2 * SECOND, SECOND, 50 * MILLI)
}

fn note_on(midi_number: u8) -> MidiEvent {
    MidiEvent::from_data([144, midi_number, 100])
}

fn note_off(midi_number: u8) -> MidiEvent {
    MidiEvent::from_data([128, midi_number, 0])
}

fn data(events: &[MidiEvent]) -> Vec<[u8; 3]> {
    events.iter().map(|e| e.data).collect()
}

fn channel_numbers(engine: &ChordBender) -> Vec<u8> {
    engine.channels.iter().map(|b| b.note.channel).collect()
}

fn play(engine: &mut ChordBender, numbers: &[u8], start: u64) {
    for (i, number) in numbers.iter().enumerate() {
        engine.push_event(note_on(*number), start + 3 * MILLI * i as u64);
    }
}

#[test]
fn new_engine_is_empty() {
    let e = engine();
    assert_eq!(e.epoch, 0);
    assert_eq!(e.bend_duration, 2 * SECOND);
    assert_eq!(e.hold_duration, SECOND);
    assert_eq!(e.chord_capture_duration, 50 * MILLI);
    assert_eq!(e.pitch_bend_range, 24);
    assert!(e.chords.is_empty());
    assert!(e.channels.is_empty());
    assert_eq!(e.bend_path, BendPathBuilder::default());
    assert_eq!(e.chord_mapper.chord_map, ChordMap::Closest);
    assert!(e.refused.is_empty());
}

#[test]
fn push_event_gathers_notes_into_chords() {
    let mut e = engine();
    let start = 10 * SECOND;
    e.push_event(note_on(64), start);
    e.push_event(note_on(60), start + 10 * MILLI);
    e.push_event(note_on(64), start + 20 * MILLI);
    e.push_event(MidiEvent::from_data([176, 1, 2]), start + 20 * MILLI);
    e.push_event(note_on(67), start + 50 * MILLI);
    assert_eq!(e.chords.len(), 1);
    assert_eq!(e.chords[0].notes.iter().map(|n| n.midi_number).collect::<Vec<u8>>(), vec![60, 64, 67]);
    assert_eq!(e.chords[0].start_time, start);
    // a note after the window opens the next chord
    e.push_event(note_on(72), start + 50 * MILLI + 1);
    assert_eq!(e.chords.len(), 2);
    assert_eq!(e.chords[1].notes.len(), 1);
    assert_eq!(e.chords[1].start_time, start + 50 * MILLI + 1);
    // a note long before the last chord is dropped
    e.push_event(note_on(40), start - 1);
    assert_eq!(e.chords.len(), 2);
    assert_eq!(e.chords[1].notes.len(), 1);
}

#[test]
fn push_event_reads_the_channel_of_the_status_byte() {
    let mut e = engine();
    e.push_event(MidiEvent::from_data([149, 64, 100]), SECOND);
    assert_eq!(e.chords[0].notes[0].channel, 6);
    assert_eq!(e.chords[0].notes[0].daw_time, SECOND);
    assert_eq!(e.chords[0].notes[0].ui_time, SECOND);
    assert_eq!(e.chords[0].notes[0].bend_duration, Some(2 * SECOND));
}

#[test]
fn push_event_drops_a_note_before_the_epoch() {
    let mut e = ChordBender::new(5 * SECOND, 2 * SECOND, SECOND, 50 * MILLI);
    e.push_event(note_on(64), 4 * SECOND);
    assert!(e.chords.is_empty());
    e.push_event(note_on(64), 5 * SECOND);
    assert_eq!(e.chords.len(), 1);
    assert_eq!(e.chords[0].notes[0].ui_time, 0);
}

#[test]
fn note_off_marks_the_key_in_the_last_chord() {
    let mut e = engine();
    e.push_event(note_off(64), SECOND);
    assert!(e.chords.is_empty());
    play(&mut e, &[60, 64], SECOND);
    e.push_event(note_off(64), SECOND + 20 * MILLI);
    assert!(!e.chords[0].notes[0].key_released);
    assert!(e.chords[0].notes[1].key_released);
    assert_eq!(e.chords[0].notes.len(), 2);
}

#[test]
fn three_notes_become_three_voices_that_sound_and_end() {
    let mut e = engine();
    let start = 10 * SECOND;
    play(&mut e, &[60, 64, 67], start);
    assert_eq!(e.chords.len(), 1);

    // the window is still open: nothing happens
    let (events, renders) = e.bend(start + 50 * MILLI);
    assert!(events.is_empty());
    assert!(renders.is_empty());
    assert!(e.channels.is_empty());

    // the window has closed: three voices on the channels 2, 3 and 4
    let dispatch = start + 60 * MILLI;
    let (events, renders) = e.bend(dispatch);
    assert_eq!(channel_numbers(&e), vec![2, 3, 4]);
    assert_eq!(
        data(&events),
        vec![
            [145, 60, 64],
            [146, 64, 64],
            [147, 67, 64],
            [225, 0, 64],
            [226, 0, 64],
            [227, 0, 64],
        ]
    );
    assert_eq!(renders.len(), 3);
    assert!(e.chords[0].sent_to_bender);
    for (i, note) in e.chords[0].notes.iter().enumerate() {
        assert_eq!(note.channel, 2 + i as u8);
        assert!(note.new_note_on);
        assert_eq!(note.ui_time, start + 50 * MILLI);
    }
    // a chord that nothing glides to sounds for the length of a hold
    for b in &e.channels {
        assert!(b.active);
        assert_eq!(b.start_time, dispatch);
        assert_eq!(b.bend_duration, SECOND);
        assert_eq!(b.hold_duration, 0);
        assert_eq!(b.pitch_bend_range, 24);
        assert_eq!(b.bend_path, BendPath::default());
    }

    // one second after the start every voice sends its bend
    let (events, renders) = e.bend(start + SECOND);
    assert_eq!(data(&events), vec![[225, 0, 64], [226, 0, 64], [227, 0, 64]]);
    assert!(renders.is_empty());
    for b in &e.channels {
        assert!(b.start_bend.0 <= b.current_bend.0 && b.current_bend.0 <= b.target_bend.0);
    }

    // three and a half seconds after the start every voice has ended
    let (events, _) = e.bend(start + 3 * SECOND + 500 * MILLI);
    assert_eq!(data(&events), vec![[129, 60, 0], [130, 64, 0], [131, 67, 0]]);
    assert!(e.channels.is_empty());

    // and each note-off was sent once
    let (events, _) = e.bend(start + 4 * SECOND);
    assert!(events.is_empty());
}

#[test]
fn channels_glide_to_the_next_chord() {
    let mut e = engine();
    e.bend_path = BendPathBuilder { path: Some(Path::Linear), ..BendPathBuilder::default() };
    e.hold_duration = 10 * SECOND;
    play(&mut e, &[60, 64, 67], SECOND);
    e.bend(SECOND + 60 * MILLI);
    assert_eq!(channel_numbers(&e), vec![2, 3, 4]);

    // the next chord, while the first is held
    let second = 3 * SECOND;
    play(&mut e, &[62, 65, 69], second);
    assert_eq!(e.chords.len(), 2);
    let dispatch = second + 60 * MILLI;
    let (events, renders) = e.bend(dispatch);
    // no new voice: the three channels glide, each from where it stands
    assert_eq!(data(&events), vec![[225, 0, 64], [226, 0, 64], [227, 0, 64]]);
    assert_eq!(renders.len(), 3);
    assert_eq!(channel_numbers(&e), vec![2, 3, 4]);
    assert!(e.refused.is_empty());
    let targets: Vec<u16> = e.channels.iter().map(|b| b.target_bend.0).collect();
    // two semitones, one and two up at a range of 24: 8192 * 26 / 24 and so on
    assert_eq!(targets, vec![8874, 8533, 8874]);
    for b in &e.channels {
        assert_eq!(b.start_bend, Bend(8192));
        assert_eq!(b.start_time, dispatch);
        assert_eq!(b.bend_duration, 2 * SECOND);
        assert_eq!(b.hold_duration, 10 * SECOND);
        assert_eq!(b.bend_path.path, Path::Linear);
    }
    // the struck notes stay: the bend is relative to them
    assert_eq!(e.channels.iter().map(|b| b.note.midi_number).collect::<Vec<u8>>(), vec![60, 64, 67]);

    // half way every bend lies strictly between its start and its target
    let (events, _) = e.bend(dispatch + SECOND);
    assert_eq!(events.len(), 3);
    let half_way: Vec<u16> = e.channels.iter().map(|b| b.current_bend.0).collect();
    assert_eq!(half_way, vec![8533, 8362, 8533]);
    for (i, event) in events.iter().enumerate() {
        assert_eq!(Bend::new(event.data[2], event.data[1]), Bend(half_way[i]));
        assert!(8192 < half_way[i] && half_way[i] < targets[i]);
    }

    // at the end of the bend they arrive
    e.bend(dispatch + 2 * SECOND);
    assert_eq!(e.channels.iter().map(|b| b.current_bend.0).collect::<Vec<u16>>(), targets);
    // while the target is held nothing is sent
    let (events, _) = e.bend(dispatch + 3 * SECOND);
    assert!(events.is_empty());
    assert_eq!(e.channels.len(), 3);
    // and then the notes are let go
    let (events, _) = e.bend(dispatch + 12 * SECOND);
    assert_eq!(data(&events), vec![[129, 60, 0], [130, 64, 0], [131, 67, 0]]);
    assert!(e.channels.is_empty());
}

#[test]
fn more_notes_than_channels_start_new_voices_beside_the_glides() {
    let mut e = engine();
    e.hold_duration = 10 * SECOND;
    play(&mut e, &[60], SECOND);
    e.bend(SECOND + 60 * MILLI);
    assert_eq!(channel_numbers(&e), vec![2]);
    play(&mut e, &[55, 61, 70], 3 * SECOND);
    let (events, renders) = e.bend(3 * SECOND + 60 * MILLI);
    // the channel glides to the closest note, the other two get voices
    assert_eq!(channel_numbers(&e), vec![2, 3, 4]);
    assert_eq!(e.channels.iter().map(|b| b.note.midi_number).collect::<Vec<u8>>(), vec![60, 55, 70]);
    assert_eq!(e.channels[0].target_bend, Bend(8533));
    assert_eq!(&data(&events)[..2], &[[146, 55, 64], [147, 70, 64]]);
    assert_eq!(events.len(), 5);
    assert_eq!(renders.len(), 3);
    // new voices beside glides bend and hold as long as the glides do
    assert_eq!(e.channels[1].bend_duration, 2 * SECOND);
    assert_eq!(e.channels[1].hold_duration, 10 * SECOND);
}

#[test]
fn a_target_beyond_the_range_leaves_the_channel_on_its_course() {
    let mut e = engine();
    e.pitch_bend_range = 2;
    e.hold_duration = 10 * SECOND;
    play(&mut e, &[60, 64], SECOND);
    e.bend(SECOND + 60 * MILLI);
    let before: Vec<Bender> = e.channels.clone();
    play(&mut e, &[61, 90], 3 * SECOND);
    let (events, renders) = e.bend(3 * SECOND + 60 * MILLI);
    // the first channel glides one semitone up, the second cannot reach 90
    assert_eq!(e.channels[0].target_bend, Bend(12288));
    assert_eq!(e.channels[0].start_time, 3 * SECOND + 60 * MILLI);
    assert_eq!(e.channels[1].target_bend, before[1].target_bend);
    assert_eq!(e.channels[1].start_time, before[1].start_time);
    assert_eq!(renders.len(), 1);
    // and the engine tells which interval it could not express
    assert_eq!(
        e.refused,
        vec![Refusal { channel: 3, interval: BendRangeError { semitones: 26, pitch_bend_range: 2 } }]
    );
    // both still travel: the one on its new course, the other on its old one
    assert_eq!(data(&events), vec![[225, 0, 64], [226, 0, 64]]);
    assert!(e.chords[1].sent_to_bender);
}

#[test]
fn the_sixteenth_voice_is_dropped() {
    let mut e = engine();
    e.hold_duration = 100 * SECOND;
    let numbers: Vec<u8> = (40..56).collect();
    play(&mut e, &numbers, SECOND);
    assert_eq!(e.chords[0].notes.len(), 16);
    let (events, renders) = e.bend(SECOND + 60 * MILLI);
    assert_eq!(channel_numbers(&e), (2..=16).collect::<Vec<u8>>());
    assert_eq!(renders.len(), 15);
    assert_eq!(events.len(), 30);
    assert!(!e.chords[0].notes[15].new_note_on);
    assert_eq!(find_free_channel(&e.channels), None);
}

#[test]
fn a_freed_channel_is_given_out_again() {
    let mut e = engine();
    play(&mut e, &[60, 64, 67], SECOND);
    e.bend(SECOND + 60 * MILLI);
    e.channels.remove(1);
    assert_eq!(find_free_channel(&e.channels), Some(3));
    assert_eq!(find_free_channel(&Vec::new()), Some(2));
}

#[test]
fn sort_channels_orders_by_pitch_and_keeps_ties() {
    let mut e = engine();
    play(&mut e, &[67, 60, 64, 70], SECOND);
    e.bend(SECOND + 60 * MILLI);
    e.channels.reverse();
    // bend the channel of 64 up to the pitch of 67
    e.channels[2].current_bend = Bend(8192 + 1024);
    e.sort_channels();
    let order: Vec<u8> = e.channels.iter().map(|b| b.note.midi_number).collect();
    assert_eq!(order, vec![60, 67, 64, 70]);
}

#[test]
fn bender_walks_through_bend_hold_and_release() {
    let mut struck = Note::new([144, 60, 100], 0, None, 0).unwrap();
    struck.channel = 5;
    let path = BendPath { path: Path::Linear, ..BendPath::default() };
    let (mut b, on) = Bender::new(&struck, 1_000, 100, 50, 24, path);
    assert_eq!(on.data, [148, 60, 64]);
    assert_eq!(b.current_midi(), 60 * 8192);
    let target = Note::new([144, 72, 100], 0, None, 0).unwrap();
    let drawing = b.update_target(&target, 2_000, 100, 50, path).unwrap();
    assert_eq!(b.target_bend, Bend(12288));
    assert_eq!(drawing.bend.len(), 2);
    assert_eq!((drawing.bend[0].offset, drawing.bend[0].pitch), (0, 60 * 8192));
    assert_eq!((drawing.bend[1].offset, drawing.bend[1].pitch), (100, 72 * 8192));
    assert_eq!(drawing.hold_pitch, 72 * 8192);
    assert_eq!((drawing.start_time, drawing.bend_duration, drawing.hold_duration), (2_000, 100, 50));
    assert_eq!(drawing.channel, 5);

    assert_eq!(b.get_bend(1_999), None);
    assert_eq!(b.get_bend(2_000), Some(Bend(8192)));
    assert_eq!(b.get_bend(2_025), Some(Bend(9216)));
    assert_eq!(b.get_bend(2_100), Some(Bend(12288)));
    assert_eq!(b.get_bend(2_101), None);

    assert!(b.bend(1_999).is_none());
    assert_eq!(b.bend(2_050).unwrap().data, [228, 0, 80]);
    assert_eq!(b.current_bend, Bend(10240));
    assert_eq!(b.current_midi(), 66 * 8192);
    assert!(b.bend(2_120).is_none());
    assert!(b.active);
    assert_eq!(b.bend(2_150).unwrap().data, [132, 60, 0]);
    assert!(!b.active);
}

#[test]
fn update_target_fails_beyond_the_range() {
    let mut struck = Note::new([144, 60, 100], 0, None, 0).unwrap();
    struck.channel = 2;
    let (mut b, _) = Bender::new(&struck, 1_000, 100, 50, 12, BendPath::default());
    let target = Note::new([144, 73, 100], 0, None, 0).unwrap();
    let refused = b.update_target(&target, 2_000, 7, 8, BendPath::default()).unwrap_err();
    assert_eq!(refused, BendRangeError { semitones: 13, pitch_bend_range: 12 });
    assert_eq!((b.start_time, b.bend_duration, b.hold_duration), (1_000, 100, 50));
    assert_eq!(b.target_bend, Bend(8192));
}

#[test]
fn a_curved_glide_is_drawn_in_five_hundred_steps() {
    let mut struck = Note::new([144, 60, 100], 0, None, 0).unwrap();
    struck.channel = 2;
    let (mut b, _) = Bender::new(&struck, 0, 1_000, 50, 24, BendPath::default());
    let target = Note::new([144, 72, 100], 0, None, 0).unwrap();
    let drawing = b.update_target(&target, 0, 1_000, 50, BendPath::default()).unwrap();
    assert_eq!(drawing.bend.len(), 501);
    for (i, point) in drawing.bend.iter().enumerate() {
        assert_eq!(point.offset, 2 * i as u64);
    }
    assert_eq!(drawing.bend[0].pitch, 60 * 8192);
    assert_eq!(drawing.bend[250].pitch, 66 * 8192);
    assert_eq!(drawing.bend[500].pitch, 72 * 8192);
    // slow at the ends: a quarter of the time covers a tenth of the way
    assert_eq!(drawing.bend[125].pitch, 60 * 8192 + 24 * 409);
}

#[test]
fn a_bend_of_no_length_has_arrived_at_once() {
    let mut struck = Note::new([144, 60, 100], 0, None, 0).unwrap();
    struck.channel = 2;
    let (mut b, _) = Bender::new(&struck, 0, 0, 50, 24, BendPath::default());
    let target = Note::new([144, 62, 100], 0, None, 0).unwrap();
    b.update_target(&target, 10, 0, 50, BendPath::default()).unwrap();
    assert_eq!(b.get_bend(10), Some(b.target_bend));
    assert_eq!(b.get_bend(11), None);
}

#[test]
fn channels_rank_by_semitone_and_remainder() {
    let mut low = Note::new([144, 60, 100], 0, None, 0).unwrap();
    low.channel = 2;
    let (a, _) = Bender::new(&low, 0, 1, 1, 24, BendPath::default());
    let mut b = a;
    b.current_bend = Bend(8192 + 100);
    let mut c = a;
    c.note.midi_number = 61;
    c.current_bend = Bend(8192 - 100);
    assert_eq!(a.rank(), (60, 0));
    assert_eq!(b.rank(), (60, 100));
    assert_eq!(c.rank(), (61, -100));
    assert_eq!(a.cmp(&b), std::cmp::Ordering::Less);
    assert_eq!(b.cmp(&a), std::cmp::Ordering::Greater);
    assert_eq!(b.cmp(&c), std::cmp::Ordering::Less);
    assert_eq!(a.cmp(&a), std::cmp::Ordering::Equal);
    assert!(a < b && b < c && a <= a);
    assert_eq!(a.partial_cmp(&c), Some(std::cmp::Ordering::Less));
    let mut same = a;
    same.start_time = 99;
    assert!(a == same);
    assert!(a != b);
}

#[test]
fn every_voice_keeps_an_output_channel_of_its_own() {
    for rule in [ChordMap::Closest, ChordMap::Flipped, ChordMap::Random] {
        let mut e = engine();
        e.chord_mapper.chord_map = rule;
        e.hold_duration = 400 * MILLI;
        e.bend_duration = 300 * MILLI;
        let chords: [&[u8]; 6] = [
            &[60, 64, 67],
            &[48, 55, 62, 65, 69, 72, 76],
            &[61],
            &[40, 41, 42, 43, 44, 45, 46, 47, 48, 49, 50, 51, 52, 53, 54, 55, 56, 57],
            &[70, 75],
            &[59, 60, 61, 62],
        ];
        let mut now = SECOND;
        for chord in chords {
            play(&mut e, chord, now);
            for _ in 0..12 {
                now += 60 * MILLI;
                let (events, _) = e.bend(now);
                let mut used: Vec<u8> = channel_numbers(&e);
                assert!(used.iter().all(|c| (2..=16).contains(c)));
                used.sort();
                used.dedup();
                assert_eq!(used.len(), e.channels.len());
                assert!(e.channels.len() <= 15);
                for event in events {
                    let channel = (event.data[0] & 0x0f) + 1;
                    assert!((2..=16).contains(&channel));
                }
            }
        }
    }
}

#[test]
fn every_voice_is_let_go_once_however_the_ticks_fall() {
    for step in [1 * MILLI, 7 * MILLI, 60 * MILLI, 333 * MILLI, 2 * SECOND] {
        let mut e = engine();
        e.hold_duration = 700 * MILLI;
        play(&mut e, &[60, 64, 67], SECOND);
        let mut now = SECOND;
        let mut note_offs = [0usize; 17];
        let mut note_ons = [0usize; 17];
        while now <= 5 * SECOND {
            let (events, _) = e.bend(now);
            for event in events {
                let channel = ((event.data[0] & 0x0f) + 1) as usize;
                match event.data[0] & 0xf0 {
                    0x80 => {
                        note_offs[channel] += 1;
                        // a voice that was let go is gone
                        assert!(e.channels.iter().all(|b| b.note.channel as usize != channel));
                    }
                    0x90 => note_ons[channel] += 1,
                    _ => assert_eq!(note_offs[channel], 0),
                }
            }
            now += step;
        }
        assert!(e.channels.is_empty());
        for channel in 0..17 {
            let expected = if (2..=4).contains(&channel) { 1 } else { 0 };
            assert_eq!(note_ons[channel], expected);
            assert_eq!(note_offs[channel], expected);
        }
    }
}

#[test]
fn the_first_tick_sends_note_ons_and_then_no_bend_at_all() {
    for n in [1usize, 2, 5, 15] {
        let mut e = engine();
        let numbers: Vec<u8> = (0..n as u8).map(|i| 40 + 2 * i).collect();
        for number in &numbers {
            e.push_event(note_on(*number), SECOND);
        }
        let (events, renders) = e.bend(SECOND + 50 * MILLI + 1);
        assert_eq!(events.len(), 2 * n);
        assert_eq!(renders.len(), n);
        for k in 0..n {
            assert_eq!(events[k].data, [145 + k as u8, numbers[k], 64]);
            assert_eq!(events[n + k].data, [225 + k as u8, 0, 64]);
            assert_eq!(e.channels[k].note.channel, 2 + k as u8);
            assert_eq!(e.channels[k].note.midi_number, numbers[k]);
            assert_eq!(e.channels[k].current_bend, Bend(8192));
            assert_eq!(e.channels[k].start_time, SECOND + 50 * MILLI + 1);
            assert_eq!(e.channels[k].bend_duration, SECOND);
            assert_eq!(e.channels[k].hold_duration, 0);
        }
    }
}

#[test]
fn refusals_last_until_the_next_chord_is_handed_over() {
    let mut e = engine();
    e.pitch_bend_range = 2;
    e.hold_duration = 100 * SECOND;
    play(&mut e, &[60, 64, 70], SECOND);
    e.bend(SECOND + 60 * MILLI);
    play(&mut e, &[50, 66, 90], 3 * SECOND);
    e.bend(3 * SECOND + 60 * MILLI);
    // each channel in turn takes the closest free note: 60 takes 66,
    // 64 takes 50 and 70 is left with 90, and none of them is within reach
    assert_eq!(
        e.refused,
        vec![
            Refusal { channel: 2, interval: BendRangeError { semitones: 6, pitch_bend_range: 2 } },
            Refusal { channel: 3, interval: BendRangeError { semitones: -14, pitch_bend_range: 2 } },
            Refusal { channel: 4, interval: BendRangeError { semitones: 20, pitch_bend_range: 2 } },
        ]
    );
    e.bend(4 * SECOND);
    e.push_event(note_on(62), 5 * SECOND);
    assert_eq!(e.refused.len(), 3);
    // to the next chord, of one note, only the highest channel cannot glide
    e.bend(5 * SECOND + 60 * MILLI);
    assert_eq!(
        e.refused,
        vec![Refusal { channel: 4, interval: BendRangeError { semitones: -8, pitch_bend_range: 2 } }]
    );
}
