use gliss::midi::bender::Bender;
use gliss::midi::mapper::{
    assign_in_order, get_closest_mapping, get_flipped_mapping, get_random_mapping, ChordMap,
    ChordMapper, MappingPreference,
};
use gliss::midi::paths::BendPath;
use gliss::midi::{Bend, Note};

fn note(midi_number: u8) -> Note {
    Note::new([144, midi_number, 100], 1_000, None, 0).unwrap()
}

fn notes(numbers: &[u8]) -> Vec<Note> {
    numbers.iter().map(|n| note(*n)).collect()
}

/// A channel that sounds `midi_number`, bent upwards by `sixteenths` of a semitone.
fn channel(midi_number: u8, sixteenths: u16) -> Bender {
    let mut struck = note(midi_number);
    struck.channel = 2;
    let (mut bender, _) = Bender::new(&struck, 0, 1_000, 1_000, 16, BendPath::default());
    bender.current_bend = Bend(8192 + 32 * sixteenths);
    bender
}

fn channels(numbers: &[u8]) -> Vec<Bender> {
    numbers.iter().map(|n| channel(*n, 0)).collect()
}

fn mapper(chord_map: ChordMap) -> ChordMapper {
    ChordMapper { chord_map, preference: MappingPreference::Closest }
}

#[test]
fn there_and_back_again() {
    for og_val in [0.0, 0.1, 1.0 / 3.0, 2.0 / 3.0, 1.0].iter() {
        let og_val: f32 = *og_val;
        let cat = ChordMap::from_index((og_val * 3.0) as u32);
        println!("cat: {cat:?}");
        let as_val = cat.index() as f64 / 3.0;
        println!("as_val: {as_val}");
        let as_cat_again = ChordMap::from_index((as_val as f32 * 3.0) as u32);
        println!("as_cat_again: {as_cat_again:?}");
        assert_eq!(cat, as_cat_again);
    }
}

#[test]
fn chord_map_index_names_the_rules() {
    assert_eq!(ChordMap::from_index(0), ChordMap::Closest);
    assert_eq!(ChordMap::from_index(1), ChordMap::Flipped);
    assert_eq!(ChordMap::from_index(2), ChordMap::Random);
    assert_eq!(ChordMap::from_index(3), ChordMap::Random);
    assert_eq!(ChordMap::Closest.index(), 0);
    assert_eq!(ChordMap::Flipped.index(), 1);
    assert_eq!(ChordMap::Random.index(), 2);
}

#[test]
fn without_channels_every_note_is_a_new_voice() {
    for rule in [ChordMap::Closest, ChordMap::Flipped, ChordMap::Random] {
        let (targets, new_notes) = mapper(rule).get_mapping(&[], &notes(&[60, 64, 67]));
        assert_eq!(targets, Vec::<usize>::new());
        assert_eq!(new_notes, vec![0, 1, 2]);
    }
}

#[test]
fn a_chord_of_one_note_collects_every_channel() {
    for rule in [ChordMap::Closest, ChordMap::Flipped, ChordMap::Random] {
        let (targets, new_notes) =
            mapper(rule).get_mapping(&channels(&[50, 60, 70, 80]), &notes(&[64]));
        assert_eq!(targets, vec![0, 0, 0, 0]);
        assert_eq!(new_notes, Vec::<usize>::new());
    }
}

#[test]
fn without_notes_nothing_is_mapped() {
    for rule in [ChordMap::Closest, ChordMap::Flipped, ChordMap::Random] {
        let (targets, new_notes) = mapper(rule).get_mapping(&channels(&[50, 60]), &[]);
        assert_eq!(targets, Vec::<usize>::new());
        assert_eq!(new_notes, Vec::<usize>::new());
    }
    assert_eq!(get_flipped_mapping(&channels(&[50, 60]), &[]), (vec![], vec![]));
    assert_eq!(get_closest_mapping(&channels(&[50, 60]), &[]), (vec![], vec![]));
    assert_eq!(get_random_mapping(&channels(&[50, 60]), &[]), (vec![], vec![]));
}

#[test]
fn flipped_with_fewer_channels_takes_the_ends() {
    let cases: [(usize, usize, &[usize], &[usize]); 6] = [
        (1, 2, &[1], &[0]),
        (2, 3, &[2, 0], &[1]),
        (3, 5, &[4, 3, 0], &[1, 2]),
        (4, 5, &[4, 3, 1, 0], &[2]),
        (2, 7, &[6, 0], &[1, 2, 3, 4, 5]),
        (6, 7, &[6, 5, 4, 2, 1, 0], &[3]),
    ];
    for (c, n, targets, new_notes) in cases {
        let chans = channels(&vec![60; c]);
        let chord = notes(&(0..n as u8).map(|i| 60 + i).collect::<Vec<u8>>());
        assert_eq!(get_flipped_mapping(&chans, &chord), (targets.to_vec(), new_notes.to_vec()));
    }
}

#[test]
fn flipped_with_equal_counts_reverses_the_order() {
    for n in 1..=15usize {
        let chans = channels(&vec![60; n]);
        let chord = notes(&(0..n as u8).map(|i| 40 + i).collect::<Vec<u8>>());
        let (targets, new_notes) = mapper(ChordMap::Flipped).get_mapping(&chans, &chord);
        assert_eq!(targets.len(), n);
        for i in 0..n {
            assert_eq!(targets[i], n - 1 - i);
        }
        assert!(new_notes.is_empty());
    }
}

#[test]
fn flipped_with_more_channels_fans_them_across_the_bands() {
    let cases: [(usize, usize, &[usize]); 9] = [
        (3, 2, &[1, 0, 0]),
        (5, 2, &[1, 1, 0, 0, 0]),
        (4, 3, &[2, 2, 0, 0]),
        (5, 3, &[2, 2, 1, 0, 0]),
        (6, 3, &[2, 2, 1, 1, 0, 0]),
        (7, 3, &[2, 2, 2, 1, 0, 0, 0]),
        (9, 4, &[2, 2, 3, 3, 1, 0, 0, 1, 1]),
        (11, 5, &[3, 3, 4, 4, 2, 2, 2, 0, 0, 1, 1]),
        (15, 6, &[3, 3, 4, 4, 5, 5, 2, 3, 2, 0, 0, 1, 1, 2, 2]),
    ];
    for (c, n, targets) in cases {
        let chans = channels(&vec![60; c]);
        let chord = notes(&(0..n as u8).map(|i| 60 + i).collect::<Vec<u8>>());
        assert_eq!(get_flipped_mapping(&chans, &chord), (targets.to_vec(), vec![]));
    }
}

#[test]
fn closest_with_fewer_channels_is_greedy() {
    assert_eq!(
        get_closest_mapping(&channels(&[60, 64]), &notes(&[59, 61, 63, 65, 67])),
        (vec![0, 2], vec![1, 3, 4])
    );
    // half a semitone above 60: 60 and 61 are equally close, the first wins
    assert_eq!(
        get_closest_mapping(&[channel(60, 8), channel(60, 8)], &notes(&[60, 61, 62])),
        (vec![0, 1], vec![2])
    );
    // the channels choose in their own order, not in the order of the notes
    assert_eq!(
        get_closest_mapping(&channels(&[72, 50, 61]), &notes(&[48, 60, 62, 70])),
        (vec![3, 0, 1], vec![2])
    );
}

#[test]
fn closest_never_passes_over_a_closer_free_note() {
    let pitches: [&[u8]; 5] =
        [&[60, 64], &[30, 90, 60], &[61, 61, 61, 61], &[100, 20], &[64, 65, 10, 127, 70]];
    let chords: [&[u8]; 3] = [&[10, 50, 59, 61, 63, 65, 67, 120], &[60, 61, 62, 63, 64], &[0, 40, 80, 100, 127]];
    for chans in pitches {
        for chord in chords {
            let (targets, new_notes) = get_closest_mapping(&channels(chans), &notes(chord));
            assert_eq!(targets.len(), chans.len());
            assert_eq!(new_notes.len(), chord.len() - chans.len());
            for (k, target) in targets.iter().enumerate() {
                let chosen = (chans[k] as i32 - chord[*target] as i32).abs();
                for (j, number) in chord.iter().enumerate() {
                    if !targets[..k].contains(&j) {
                        assert!(chosen <= (chans[k] as i32 - *number as i32).abs());
                    }
                }
            }
        }
    }
}

#[test]
fn closest_with_equal_counts_is_greedy_too() {
    // the channel at 64 takes the note 64, and 60 is left for the other
    assert_eq!(
        get_closest_mapping(&channels(&[64, 65]), &notes(&[60, 64])),
        (vec![1, 0], vec![])
    );
    // the lowest channel is closest to the middle note
    assert_eq!(
        get_closest_mapping(&channels(&[70, 80, 90]), &notes(&[50, 69, 71])),
        (vec![1, 2, 0], vec![])
    );
    // where every channel finds its own rank closest, rank goes with rank
    assert_eq!(
        get_closest_mapping(&channels(&[60, 64, 67]), &notes(&[62, 65, 69])),
        (vec![0, 1, 2], vec![])
    );
    assert_eq!(
        mapper(ChordMap::Closest).get_mapping(&channels(&[64, 65]), &notes(&[60, 64])),
        (vec![1, 0], vec![])
    );
}

#[test]
fn closest_with_more_channels_deals_them_out_evenly() {
    let cases: [(usize, usize, &[usize]); 5] = [
        (3, 2, &[0, 0, 1]),
        (5, 2, &[0, 0, 0, 1, 1]),
        (6, 3, &[0, 0, 1, 1, 2, 2]),
        (7, 3, &[0, 0, 0, 1, 1, 2, 2]),
        (11, 4, &[0, 0, 0, 1, 1, 1, 2, 2, 2, 3, 3]),
    ];
    for (c, n, targets) in cases {
        let chans = channels(&vec![60; c]);
        let chord = notes(&(0..n as u8).map(|i| 60 + i).collect::<Vec<u8>>());
        assert_eq!(get_closest_mapping(&chans, &chord), (targets.to_vec(), vec![]));
    }
}

#[test]
fn assign_in_order_hands_the_notes_out_in_turn() {
    let order = vec![2, 0, 3, 1];
    assert_eq!(assign_in_order(&order, 0), (vec![], vec![2, 0, 3, 1]));
    assert_eq!(assign_in_order(&order, 2), (vec![2, 0], vec![3, 1]));
    assert_eq!(assign_in_order(&order, 4), (vec![2, 0, 3, 1], vec![]));
    assert_eq!(assign_in_order(&order, 6), (vec![2, 0, 3, 1, 2, 0], vec![]));
    assert_eq!(assign_in_order(&vec![], 3), (vec![], vec![]));
}

#[test]
fn random_mapping_uses_every_note_once_before_it_repeats() {
    let chord = notes(&[60, 62, 64, 65, 67]);
    let mut orders_seen = std::collections::HashSet::new();
    for _ in 0..100 {
        let (targets, new_notes) = get_random_mapping(&channels(&[60, 61, 62]), &chord);
        assert_eq!(targets.len(), 3);
        assert_eq!(new_notes.len(), 2);
        let mut all: Vec<usize> = targets.iter().chain(new_notes.iter()).copied().collect();
        orders_seen.insert(all.clone());
        all.sort();
        assert_eq!(all, vec![0, 1, 2, 3, 4]);
    }
    // a hundred shuffles of five notes that all came out alike would be no shuffle
    assert!(orders_seen.len() > 1);

    let (targets, new_notes) = get_random_mapping(&channels(&[60; 12]), &chord);
    assert!(new_notes.is_empty());
    assert_eq!(targets.len(), 12);
    let mut first: Vec<usize> = targets[..5].to_vec();
    first.sort();
    assert_eq!(first, vec![0, 1, 2, 3, 4]);
    for k in 5..12 {
        assert_eq!(targets[k], targets[k - 5]);
    }
}
