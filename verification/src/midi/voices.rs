//! The channels of an engine as a set of voices: how output channels are
//! given out, how voices start, glide on and end, and what they send.
use vstd::prelude::*;
use crate::midi::bender::{Bender, RenderedBender};
use crate::midi::chord::ChordBender;
use crate::midi::paths::{BendPath, BendPathBuilder};
use crate::midi::sorting::{arranged, is_stable_order};
use crate::midi::{message, within_range, Bend, BendRangeError, MidiEvent, Note};

verus! {

/// The first output channel that the engine gives to a voice.
pub const FIRST_CHANNEL: u8 = 2;

/// The last output channel that the engine gives to a voice.
pub const LAST_CHANNEL: u8 = 16;

/// The pitches of the channels, as keys to order them by.
pub open spec fn pitch_keys(channels: Seq<Bender>) -> Seq<i64> {
    channels.map_values(|b: Bender| b.pitch() as i64)
}

/// Whether every channel is well formed.
pub open spec fn channels_wf(channels: Seq<Bender>) -> bool {
    forall|i: int| 0 <= i < channels.len() ==> (#[trigger] channels[i]).wf()
}

/// Whether `after` holds the channels of `before` in the order that
/// `order` lists: by ascending pitch, channels of one pitch as they stood.
pub open spec fn sorted_by_pitch(before: Seq<Bender>, order: Seq<usize>, after: Seq<Bender>) -> bool {
    &&& is_stable_order(pitch_keys(before), order)
    &&& after == arranged(before, order)
}

/// Whether no channel uses the output channel `channel`.
pub open spec fn channel_free(channels: Seq<Bender>, channel: int) -> bool {
    forall|i: int| 0 <= i < channels.len() ==> (#[trigger] channels[i]).note.channel != channel
}

/// The lowest output channel from `from` up to the last that no channel
/// uses, and one beyond the last where all are in use.
pub open spec fn lowest_free(channels: Seq<Bender>, from: int) -> int
    decreases 17 - from,
{
    if from > LAST_CHANNEL {
        LAST_CHANNEL + 1
    } else if channel_free(channels, from) {
        from
    } else {
        lowest_free(channels, from + 1)
    }
}

/// The lowest free output channel is never below where the search began.
pub proof fn lemma_lowest_free_bounds(channels: Seq<Bender>, from: int)
    requires
        from <= LAST_CHANNEL + 1,
    ensures
        from <= lowest_free(channels, from) <= LAST_CHANNEL + 1,
    decreases 17 - from,
{
    if from <= LAST_CHANNEL && !channel_free(channels, from) {
        lemma_lowest_free_bounds(channels, from + 1);
    }
}

/// The lowest output channel that no channel uses, if there is one.
pub fn find_free_channel(channels: &Vec<Bender>) -> (r: Option<u8>)
    ensures
        match r {
            Some(channel) => channel == lowest_free(channels@, FIRST_CHANNEL as int)
                && FIRST_CHANNEL <= channel <= LAST_CHANNEL,
            None => lowest_free(channels@, FIRST_CHANNEL as int) == LAST_CHANNEL + 1,
        },
{
    let mut candidate: u8 = FIRST_CHANNEL;
    while candidate <= LAST_CHANNEL
        invariant
            FIRST_CHANNEL <= candidate <= LAST_CHANNEL + 1,
            lowest_free(channels@, FIRST_CHANNEL as int) == lowest_free(
                channels@,
                candidate as int,
            ),
        decreases LAST_CHANNEL + 1 - candidate,
    {
        let mut free: bool = true;
        let mut i: usize = 0;
        while i < channels.len()
            invariant
                i <= channels.len(),
                free == channel_free(channels@.subrange(0, i as int), candidate as int),
            decreases channels.len() - i,
        {
            let ghost seen = channels@.subrange(0, i as int);
            let ghost more = channels@.subrange(0, i + 1);
            assert(forall|k: int| 0 <= k < seen.len() ==> seen[k] == more[k]);
            assert(more[i as int] == channels@[i as int]);
            if channels[i].note.channel == candidate {
                free = false;
            }
            i += 1;
        }
        assert(channels@.subrange(0, channels.len() as int) =~= channels@);
        if free {
            return Some(candidate);
        }
        candidate += 1;
    }
    None
}

/// The note as the voice on `channel` carries it.
pub open spec fn voiced(note: Note, channel: u8) -> Note {
    Note { channel, new_note_on: true, ..note }
}

/// The channel that starts to sound `note` at `now`.
pub open spec fn new_voice(
    note: Note,
    now: u64,
    bend_duration: u64,
    hold_duration: u64,
    pitch_bend_range: u8,
    bend_path: BendPath,
) -> Bender {
    Bender {
        active: true,
        note,
        start_time: now,
        bend_duration,
        hold_duration,
        start_bend: Bend(8192),
        target_bend: Bend(8192),
        current_bend: Bend(8192),
        bend_path,
        pitch_bend_range,
    }
}

/// Whether each message carries the bytes listed for it.
pub open spec fn carries(events: Seq<MidiEvent>, bytes: Seq<Seq<u8>>) -> bool {
    &&& events.len() == bytes.len()
    &&& forall|i: int| 0 <= i < events.len() ==> message(bytes[i], #[trigger] events[i])
}

/// Whether each drawing is the drawing of the channel listed for it.
pub open spec fn drawn(renders: Seq<RenderedBender>, channels: Seq<Bender>) -> bool {
    &&& renders.len() == channels.len()
    &&& forall|i: int| 0 <= i < renders.len() ==> channels[i].draws(#[trigger] renders[i])
}

/// The bytes of the note-on of each channel.
pub open spec fn note_ons(channels: Seq<Bender>) -> Seq<Seq<u8>> {
    channels.map_values(
        |b: Bender| seq![(143 + b.note.channel) as u8, b.note.midi_number, 64u8],
    )
}

/// The channels and the notes when voices have been started for the first
/// `k` of the notes listed in `new_notes`, each on the lowest output channel
/// that was free in its turn. A note for which no output channel is free
/// gets no voice.
pub open spec fn spawned(
    channels: Seq<Bender>,
    notes: Seq<Note>,
    new_notes: Seq<usize>,
    k: int,
    now: u64,
    bend_duration: u64,
    hold_duration: u64,
    pitch_bend_range: u8,
) -> (Seq<Bender>, Seq<Note>)
    decreases k,
{
    if k <= 0 {
        (channels, notes)
    } else {
        let (cs, ns) = spawned(
            channels,
            notes,
            new_notes,
            k - 1,
            now,
            bend_duration,
            hold_duration,
            pitch_bend_range,
        );
        let at = new_notes[k - 1] as int;
        let channel = lowest_free(cs, FIRST_CHANNEL as int);
        if channel <= LAST_CHANNEL {
            (
                cs.push(
                    new_voice(
                        voiced(ns[at], channel as u8),
                        now,
                        bend_duration,
                        hold_duration,
                        pitch_bend_range,
                        BendPath::plain(),
                    ),
                ),
                ns.update(at, voiced(ns[at], channel as u8)),
            )
        } else {
            (cs, ns)
        }
    }
}

/// Whether channel `i` glides to the note that `targets` lists for it: it
/// has a target, and the range can express the interval from the note that
/// was struck on it.
pub open spec fn glides(channels: Seq<Bender>, notes: Seq<Note>, targets: Seq<usize>, i: int) -> bool {
    &&& 0 <= i < channels.len()
    &&& i < targets.len()
    &&& within_range(
        channels[i].note.midi_number,
        notes[targets[i] as int].midi_number,
        channels[i].pitch_bend_range,
    )
}

/// The channels when each has been sent towards its target along the curve
/// drawn for it. A channel that does not glide stays as it is.
pub open spec fn retargeted_all(
    channels: Seq<Bender>,
    notes: Seq<Note>,
    targets: Seq<usize>,
    curves: Seq<BendPath>,
    now: u64,
    bend_duration: u64,
    hold_duration: u64,
) -> Seq<Bender> {
    Seq::new(
        channels.len(),
        |i: int|
            if glides(channels, notes, targets, i) {
                channels[i].retargeted(
                    notes[targets[i] as int],
                    now,
                    bend_duration,
                    hold_duration,
                    curves[i],
                )
            } else {
                channels[i]
            },
    )
}

/// The channels among the first `k` that glide, in their order and as they
/// are once they have been sent on their way.
pub open spec fn gliding(
    before: Seq<Bender>,
    after: Seq<Bender>,
    notes: Seq<Note>,
    targets: Seq<usize>,
    k: int,
) -> Seq<Bender>
    decreases k,
{
    if k <= 0 {
        Seq::empty()
    } else {
        let earlier = gliding(before, after, notes, targets, k - 1);
        if glides(before, notes, targets, k - 1) {
            earlier.push(after[k - 1])
        } else {
            earlier
        }
    }
}

/// A channel that kept its course when a chord was handed over, and the
/// interval to its target that the bend range could not express.
#[derive(Debug, PartialEq, Eq, Structural, Copy, Clone)]
pub struct Refusal {
    /// The MIDI channel of the voice.
    pub channel: u8,
    /// The interval from the note that was struck on it to its target.
    pub interval: BendRangeError,
}

/// The channels among the first `k` that keep their course: for each
/// channel that has a target and does not glide to it, in the order of the
/// channels, its MIDI channel and the interval from the note that was struck
/// on it to its target.
pub open spec fn refusals(
    channels: Seq<Bender>,
    notes: Seq<Note>,
    targets: Seq<usize>,
    k: int,
) -> Seq<Refusal>
    decreases k,
{
    if k <= 0 {
        Seq::empty()
    } else {
        let earlier = refusals(channels, notes, targets, k - 1);
        if k - 1 < channels.len() && k - 1 < targets.len() && !glides(
            channels,
            notes,
            targets,
            k - 1,
        ) {
            earlier.push(
                Refusal {
                    channel: channels[k - 1].note.channel,
                    interval: BendRangeError {
                        semitones: (notes[targets[k - 1] as int].midi_number - channels[k
                            - 1].note.midi_number) as i16,
                        pitch_bend_range: channels[k - 1].pitch_bend_range,
                    },
                },
            )
        } else {
            earlier
        }
    }
}

/// The messages of the channels at `time`, in the order of the channels.
pub open spec fn tick_messages(channels: Seq<Bender>, time: u64) -> Seq<Seq<u8>>
    decreases channels.len(),
{
    if channels.len() == 0 {
        Seq::empty()
    } else {
        let earlier = tick_messages(channels.drop_last(), time);
        match channels.last().tick_bytes(time) {
            Some(bytes) => earlier.push(bytes),
            None => earlier,
        }
    }
}

/// The channels that still sound after they were asked for their message
/// at `time`, each moved on.
pub open spec fn survivors(channels: Seq<Bender>, time: u64) -> Seq<Bender>
    decreases channels.len(),
{
    if channels.len() == 0 {
        Seq::empty()
    } else {
        let earlier = survivors(channels.drop_last(), time);
        if channels.last().after_tick(time).active {
            earlier.push(channels.last().after_tick(time))
        } else {
            earlier
        }
    }
}

/// Starts a voice for each of the notes listed in `new_notes`.
pub(crate) fn spawn_voices(
    channels: &mut Vec<Bender>,
    notes: &mut Vec<Note>,
    new_notes: &Vec<usize>,
    now: u64,
    bend_duration: u64,
    hold_duration: u64,
    pitch_bend_range: u8,
) -> (r: (Vec<MidiEvent>, Vec<RenderedBender>))
    requires
        channels_wf(old(channels)@),
        forall|k: int| 0 <= k < new_notes@.len() ==> #[trigger] new_notes@[k] < old(notes)@.len(),
    ensures
        channels_wf(final(channels)@),
        (final(channels)@, final(notes)@) == spawned(
            old(channels)@,
            old(notes)@,
            new_notes@,
            new_notes@.len() as int,
            now,
            bend_duration,
            hold_duration,
            pitch_bend_range,
        ),
        final(channels)@.len() >= old(channels)@.len(),
        final(channels)@.subrange(0, old(channels)@.len() as int) == old(channels)@,
        final(notes)@.len() == old(notes)@.len(),
        forall|i: int|
            0 <= i < final(notes)@.len() ==> (#[trigger] final(notes)@[i]).midi_number == old(
                notes,
            )@[i].midi_number,
        carries(
            r.0@,
            note_ons(
                final(channels)@.subrange(
                    old(channels)@.len() as int,
                    final(channels)@.len() as int,
                ),
            ),
        ),
        drawn(
            r.1@,
            final(channels)@.subrange(old(channels)@.len() as int, final(channels)@.len() as int),
        ),
{
    let mut events: Vec<MidiEvent> = Vec::new();
    let mut renders: Vec<RenderedBender> = Vec::new();
    let ghost first = channels@.len() as int;
    let mut k: usize = 0;
    while k < new_notes.len()
        invariant
            k <= new_notes.len(),
            first == old(channels)@.len(),
            channels_wf(channels@),
            forall|j: int|
                0 <= j < new_notes@.len() ==> #[trigger] new_notes@[j] < old(notes)@.len(),
            (channels@, notes@) == spawned(
                old(channels)@,
                old(notes)@,
                new_notes@,
                k as int,
                now,
                bend_duration,
                hold_duration,
                pitch_bend_range,
            ),
            channels@.len() >= first,
            channels@.subrange(0, first) == old(channels)@,
            notes@.len() == old(notes)@.len(),
            forall|i: int|
                0 <= i < notes@.len() ==> (#[trigger] notes@[i]).midi_number == old(
                    notes,
                )@[i].midi_number,
            carries(events@, note_ons(channels@.subrange(first, channels@.len() as int))),
            drawn(renders@, channels@.subrange(first, channels@.len() as int)),
        decreases new_notes.len() - k,
    {
        let at = new_notes[k];
        {
            let ghost cs = channels@;
            let ghost ns = notes@;
            let ghost es = events@;
            let ghost rs = renders@;
            let mut note = notes[at];
            match ChordBender::new_channel(
                channels,
                &mut note,
                now,
                bend_duration,
                hold_duration,
                pitch_bend_range,
                BendPath::default(),
            ) {
                Some((event, render)) => {
                    notes.set(at, note);
                    events.push(event);
                    renders.push(render);
                    proof {
                        let voices = channels@.subrange(first, channels@.len() as int);
                        let earlier = cs.subrange(first, cs.len() as int);
                        assert(voices.drop_last() =~= earlier);
                        assert(voices.last() == channels@.last());
                        assert(note_ons(voices) =~= note_ons(earlier).push(
                            seq![
                                (143 + channels@.last().note.channel) as u8,
                                channels@.last().note.midi_number,
                                64u8,
                            ],
                        ));
                        assert(events@ == es.push(event));
                        assert(renders@ == rs.push(render));
                        assert(channels@.subrange(0, first) =~= cs.subrange(0, first));
                        assert forall|i: int| 0 <= i < events@.len() implies message(
                            note_ons(voices)[i],
                            #[trigger] events@[i],
                        ) by {
                            if i < es.len() {
                                assert(events@[i] == es[i]);
                                assert(note_ons(voices)[i] == note_ons(earlier)[i]);
                            } else {
                                let channel = lowest_free(cs, FIRST_CHANNEL as int);
                                assert(channel <= LAST_CHANNEL);
                                assert(channels@ == cs.push(channels@.last()));
                                assert(channels@.last().note == voiced(ns[at as int], channel as u8));
                                assert(events@[i] == event);
                                assert(note_ons(voices)[i] =~= seq![
                                    (143 + channel) as u8,
                                    ns[at as int].midi_number,
                                    64u8,
                                ]);
                            }
                        }
                        assert forall|i: int| 0 <= i < renders@.len() implies voices[i].draws(
                            #[trigger] renders@[i],
                        ) by {
                            if i < rs.len() {
                                assert(renders@[i] == rs[i]);
                                assert(voices[i] == earlier[i]);
                            }
                        }
                    }
                },
                None => {},
            }
        }
        k += 1;
    }
    (events, renders)
}

/// What glides depends on the channels only up to the last one counted.
proof fn lemma_gliding_agrees(
    before: Seq<Bender>,
    after: Seq<Bender>,
    other: Seq<Bender>,
    notes: Seq<Note>,
    targets: Seq<usize>,
    k: int,
)
    requires
        0 <= k <= after.len(),
        k <= other.len(),
        forall|i: int| 0 <= i < k ==> after[i] == other[i],
    ensures
        gliding(before, after, notes, targets, k) == gliding(before, other, notes, targets, k),
    decreases k,
{
    if k > 0 {
        lemma_gliding_agrees(before, after, other, notes, targets, k - 1);
    }
}

/// Sends each channel towards the note that `targets` lists for it, along
/// a curve drawn for it from `builder`.
pub(crate) fn retarget_channels(
    channels: &mut Vec<Bender>,
    notes: &Vec<Note>,
    targets: &Vec<usize>,
    builder: &BendPathBuilder,
    now: u64,
    bend_duration: u64,
    hold_duration: u64,
) -> (r: (Vec<RenderedBender>, Vec<Refusal>, Ghost<Seq<BendPath>>))
    requires
        channels_wf(old(channels)@),
        builder.valid(),
        targets@.len() <= old(channels)@.len(),
        forall|i: int| 0 <= i < targets@.len() ==> #[trigger] targets@[i] < notes@.len(),
    ensures
        channels_wf(final(channels)@),
        r.2@.len() == targets@.len(),
        forall|i: int| 0 <= i < r.2@.len() ==> builder.may_build(#[trigger] r.2@[i]),
        final(channels)@ == retargeted_all(
            old(channels)@,
            notes@,
            targets@,
            r.2@,
            now,
            bend_duration,
            hold_duration,
        ),
        drawn(
            r.0@,
            gliding(old(channels)@, final(channels)@, notes@, targets@, targets@.len() as int),
        ),
        r.1@ == refusals(old(channels)@, notes@, targets@, targets@.len() as int),
{
    let mut renders: Vec<RenderedBender> = Vec::new();
    let mut refused: Vec<Refusal> = Vec::new();
    let ghost mut curves: Seq<BendPath> = Seq::empty();
    let ghost mut sent: Seq<Bender> = Seq::empty();
    let count: usize = targets.len();
    let mut i: usize = 0;
    while i < count
        invariant
            i <= count,
            count == targets@.len(),
            count <= channels@.len(),
            channels@.len() == old(channels)@.len(),
            forall|j: int| 0 <= j < targets@.len() ==> #[trigger] targets@[j] < notes@.len(),
            builder.valid(),
            channels_wf(channels@),
            curves.len() == i,
            forall|j: int| 0 <= j < curves.len() ==> builder.may_build(#[trigger] curves[j]),
            forall|j: int|
                0 <= j < i ==> channels@[j] == #[trigger] retargeted_all(
                    old(channels)@,
                    notes@,
                    targets@,
                    curves,
                    now,
                    bend_duration,
                    hold_duration,
                )[j],
            forall|j: int| i <= j < channels@.len() ==> channels@[j] == old(channels)@[j],
            drawn(renders@, gliding(old(channels)@, channels@, notes@, targets@, i as int)),
            refused@ == refusals(old(channels)@, notes@, targets@, i as int),
        decreases count - i,
    {
        let curve = builder.build();
        let ghost earlier_curves = curves;
        let ghost earlier = channels@;
        let ghost rs = renders@;
        proof {
            curves = curves.push(curve);
        }
        let at = targets[i];
        let mut channel = channels[i];
        match channel.update_target(&notes[at], now, bend_duration, hold_duration, curve) {
            Ok(render) => {
                channels.set(i, channel);
                renders.push(render);
                assert(renders@ == rs.push(render));
            },
            Err(interval) => {
                refused.push(Refusal { channel: channel.note.channel, interval });
            },
        }
        proof {
            let all = retargeted_all(
                old(channels)@,
                notes@,
                targets@,
                curves,
                now,
                bend_duration,
                hold_duration,
            );
            let all_earlier = retargeted_all(
                old(channels)@,
                notes@,
                targets@,
                earlier_curves,
                now,
                bend_duration,
                hold_duration,
            );
            assert forall|j: int| 0 <= j < i + 1 implies channels@[j] == #[trigger] all[j] by {
                if j < i {
                    assert(channels@[j] == earlier[j]);
                    assert(earlier[j] == all_earlier[j]);
                    assert(curves[j] == earlier_curves[j]);
                }
            }
            lemma_gliding_agrees(old(channels)@, earlier, channels@, notes@, targets@, i as int);
            let glided = gliding(old(channels)@, channels@, notes@, targets@, i + 1);
            let before = gliding(old(channels)@, channels@, notes@, targets@, i as int);
            assert forall|j: int| 0 <= j < renders@.len() implies glided[j].draws(
                #[trigger] renders@[j],
            ) by {
                if j < rs.len() {
                    assert(renders@[j] == rs[j]);
                    assert(glided[j] == before[j]);
                }
            }
        }
        i += 1;
    }
    assert(channels@ =~= retargeted_all(
        old(channels)@,
        notes@,
        targets@,
        curves,
        now,
        bend_duration,
        hold_duration,
    ));
    (renders, refused, Ghost(curves))
}

/// Asks every channel for its message at `time`, moves each on and drops
/// those that have let their note go.
pub(crate) fn tick_channels(channels: &mut Vec<Bender>, time: u64) -> (events: Vec<MidiEvent>)
    requires
        channels_wf(old(channels)@),
    ensures
        channels_wf(final(channels)@),
        final(channels)@ == survivors(old(channels)@, time),
        carries(events@, tick_messages(old(channels)@, time)),
{
    let mut events: Vec<MidiEvent> = Vec::new();
    let mut kept: Vec<Bender> = Vec::new();
    let n = channels.len();
    let mut i: usize = 0;
    while i < n
        invariant
            i <= n,
            n == channels@.len(),
            channels@ == old(channels)@,
            channels_wf(channels@),
            channels_wf(kept@),
            kept@ == survivors(channels@.subrange(0, i as int), time),
            carries(events@, tick_messages(channels@.subrange(0, i as int), time)),
        decreases n - i,
    {
        let ghost seen = channels@.subrange(0, i as int);
        let ghost more = channels@.subrange(0, i + 1);
        let ghost es = events@;
        assert(more.drop_last() =~= seen);
        assert(more.last() == channels@[i as int]);
        let mut channel = channels[i];
        match channel.bend(time) {
            Some(event) => {
                events.push(event);
                assert(events@ == es.push(event));
                assert forall|k: int| 0 <= k < events@.len() implies message(
                    tick_messages(more, time)[k],
                    #[trigger] events@[k],
                ) by {
                    if k < es.len() {
                        assert(events@[k] == es[k]);
                    }
                }
            },
            None => {},
        }
        if channel.active {
            kept.push(channel);
        }
        i += 1;
    }
    assert(channels@.subrange(0, n as int) =~= channels@);
    *channels = kept;
    events
}

/// Messages in a row carry the bytes of both rows.
pub proof fn lemma_carries_both(
    first: Seq<MidiEvent>,
    first_bytes: Seq<Seq<u8>>,
    second: Seq<MidiEvent>,
    second_bytes: Seq<Seq<u8>>,
)
    requires
        carries(first, first_bytes),
        carries(second, second_bytes),
    ensures
        carries(first + second, first_bytes + second_bytes),
{
    let events = first + second;
    let bytes = first_bytes + second_bytes;
    assert forall|i: int| 0 <= i < events.len() implies message(bytes[i], #[trigger] events[i]) by {
        if i < first.len() {
            assert(events[i] == first[i]);
        } else {
            assert(events[i] == second[i - first.len()]);
        }
    }
}

} // verus!
