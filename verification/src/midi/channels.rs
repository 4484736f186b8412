//! Every voice has an output channel of its own: what the engine does to its
//! channels never puts two voices on one output channel, nor a voice on an
//! output channel outside those that the engine gives out.
use vstd::prelude::*;
use crate::midi::bender::Bender;
use crate::midi::chord::{ChordBender, Dispatch};
use crate::midi::curves::progress;
use crate::midi::paths::{lemma_starts_at_start, BendPath};
use crate::midi::sorting::{arranged, is_stable_order};
use crate::midi::mapper::{ascending, indices};
use crate::midi::voices::{
    channel_free, lemma_lowest_free_bounds, lowest_free, new_voice, retargeted_all, spawned,
    survivors, tick_messages, voiced, FIRST_CHANNEL, LAST_CHANNEL,
};
use crate::midi::{Bend, Note};

verus! {

/// Whether the channels sound on output channels that the engine gives out,
/// no two of them on the same one.
pub open spec fn apart(channels: Seq<Bender>) -> bool {
    &&& forall|i: int|
        0 <= i < channels.len() ==> FIRST_CHANNEL <= (#[trigger] channels[i]).note.channel
            <= LAST_CHANNEL
    &&& forall|i: int, j: int|
        0 <= i < j < channels.len() ==> (#[trigger] channels[i]).note.channel != (
        #[trigger] channels[j]).note.channel
}

/// Whether every output channel in use among `after` is in use among `before`.
pub open spec fn within(after: Seq<Bender>, before: Seq<Bender>) -> bool {
    forall|k: int|
        0 <= k < after.len() ==> exists|i: int|
            0 <= i < before.len() && (#[trigger] before[i]).note.channel == (
            #[trigger] after[k]).note.channel
}

/// Where the search finds an output channel, none of the channels uses it.
pub proof fn lemma_lowest_free_is_free(channels: Seq<Bender>, from: int)
    requires
        from <= LAST_CHANNEL + 1,
        lowest_free(channels, from) <= LAST_CHANNEL,
    ensures
        channel_free(channels, lowest_free(channels, from)),
    decreases 17 - from,
{
    if from <= LAST_CHANNEL && !channel_free(channels, from) {
        lemma_lowest_free_is_free(channels, from + 1);
    }
}

/// Sorting the channels keeps them apart.
pub proof fn lemma_sorted_apart(channels: Seq<Bender>, keys: Seq<i64>, order: Seq<usize>)
    requires
        apart(channels),
        keys.len() == channels.len(),
        is_stable_order(keys, order),
    ensures
        apart(arranged(channels, order)),
{
    let sorted = arranged(channels, order);
    assert forall|i: int, j: int| 0 <= i < j < sorted.len() implies (
    #[trigger] sorted[i]).note.channel != (#[trigger] sorted[j]).note.channel by {
        let a = order[i] as int;
        let b = order[j] as int;
        assert(keys[a] <= keys[b]);
        if keys[a] == keys[b] {
            assert(a < b);
        }
        assert(a != b);
        if a < b {
            assert(channels[a].note.channel != channels[b].note.channel);
        } else {
            assert(channels[b].note.channel != channels[a].note.channel);
        }
    }
    assert forall|i: int| 0 <= i < sorted.len() implies FIRST_CHANNEL <= (
    #[trigger] sorted[i]).note.channel <= LAST_CHANNEL by {
        assert(sorted[i] == channels[order[i] as int]);
    }
}

/// Starting voices keeps the channels apart: each new voice takes an output
/// channel that no channel used.
pub proof fn lemma_spawned_apart(
    channels: Seq<Bender>,
    notes: Seq<Note>,
    new_notes: Seq<usize>,
    k: int,
    now: u64,
    bend_duration: u64,
    hold_duration: u64,
    pitch_bend_range: u8,
)
    requires
        apart(channels),
    ensures
        apart(
            spawned(
                channels,
                notes,
                new_notes,
                k,
                now,
                bend_duration,
                hold_duration,
                pitch_bend_range,
            ).0,
        ),
    decreases k,
{
    if k > 0 {
        lemma_spawned_apart(
            channels,
            notes,
            new_notes,
            k - 1,
            now,
            bend_duration,
            hold_duration,
            pitch_bend_range,
        );
        let (cs, ns) = spawned(
            channels,
            notes,
            new_notes,
            k - 1,
            now,
            bend_duration,
            hold_duration,
            pitch_bend_range,
        );
        let channel = lowest_free(cs, FIRST_CHANNEL as int);
        lemma_lowest_free_bounds(cs, FIRST_CHANNEL as int);
        if channel <= LAST_CHANNEL {
            lemma_lowest_free_is_free(cs, FIRST_CHANNEL as int);
            let after = spawned(
                channels,
                notes,
                new_notes,
                k,
                now,
                bend_duration,
                hold_duration,
                pitch_bend_range,
            ).0;
            assert(after.len() == cs.len() + 1);
            assert(after[cs.len() as int].note.channel == channel);
            assert forall|i: int, j: int| 0 <= i < j < after.len() implies (
            #[trigger] after[i]).note.channel != (#[trigger] after[j]).note.channel by {
                assert(after[i] == cs[i]);
                if j < cs.len() {
                    assert(after[j] == cs[j]);
                }
            }
            assert forall|i: int| 0 <= i < after.len() implies FIRST_CHANNEL <= (
            #[trigger] after[i]).note.channel <= LAST_CHANNEL by {
                if i < cs.len() {
                    assert(after[i] == cs[i]);
                }
            }
        }
    }
}

/// Sending the channels towards their targets keeps them apart: a glide
/// changes the bend of a channel, not its output channel.
pub proof fn lemma_retargeted_apart(
    channels: Seq<Bender>,
    notes: Seq<Note>,
    targets: Seq<usize>,
    curves: Seq<BendPath>,
    now: u64,
    bend_duration: u64,
    hold_duration: u64,
)
    requires
        apart(channels),
    ensures
        apart(
            retargeted_all(channels, notes, targets, curves, now, bend_duration, hold_duration),
        ),
{
    let after = retargeted_all(
        channels,
        notes,
        targets,
        curves,
        now,
        bend_duration,
        hold_duration,
    );
    assert forall|i: int| 0 <= i < after.len() implies (#[trigger] after[i]).note
        == channels[i].note by {}
    assert forall|i: int, j: int| 0 <= i < j < after.len() implies (
    #[trigger] after[i]).note.channel != (#[trigger] after[j]).note.channel by {
        assert(channels[i].note.channel != channels[j].note.channel);
    }
    assert forall|i: int| 0 <= i < after.len() implies FIRST_CHANNEL <= (
    #[trigger] after[i]).note.channel <= LAST_CHANNEL by {
        assert(FIRST_CHANNEL <= channels[i].note.channel <= LAST_CHANNEL);
    }
}

/// The channels that still sound after a tick are apart, and each keeps
/// the output channel that it had.
pub proof fn lemma_survivors_apart(channels: Seq<Bender>, time: u64)
    requires
        apart(channels),
    ensures
        apart(survivors(channels, time)),
        within(survivors(channels, time), channels),
    decreases channels.len(),
{
    if channels.len() > 0 {
        let earlier = channels.drop_last();
        assert forall|i: int| 0 <= i < earlier.len() implies #[trigger] earlier[i]
            == channels[i] by {}
        assert(apart(earlier)) by {
            assert forall|i: int, j: int| 0 <= i < j < earlier.len() implies (
            #[trigger] earlier[i]).note.channel != (#[trigger] earlier[j]).note.channel by {
                assert(channels[i].note.channel != channels[j].note.channel);
            }
            assert forall|i: int| 0 <= i < earlier.len() implies FIRST_CHANNEL <= (
            #[trigger] earlier[i]).note.channel <= LAST_CHANNEL by {
                assert(FIRST_CHANNEL <= channels[i].note.channel <= LAST_CHANNEL);
            }
        }
        lemma_survivors_apart(earlier, time);
        let kept = survivors(earlier, time);
        let after = survivors(channels, time);
        let last = channels.last();
        assert(last.after_tick(time).note == last.note);
        assert forall|k: int| 0 <= k < after.len() implies exists|i: int|
            0 <= i < channels.len() && (#[trigger] channels[i]).note.channel == (
            #[trigger] after[k]).note.channel by {
            if k < kept.len() {
                assert(after[k] == kept[k]);
                let i = choose|i: int|
                    0 <= i < earlier.len() && (#[trigger] earlier[i]).note.channel
                        == kept[k].note.channel;
                assert(channels[i].note.channel == after[k].note.channel);
            } else {
                assert(channels[channels.len() - 1].note.channel == after[k].note.channel);
            }
        }
        assert forall|i: int, j: int| 0 <= i < j < after.len() implies (
        #[trigger] after[i]).note.channel != (#[trigger] after[j]).note.channel by {
            assert(after[i] == kept[i]);
            if j < kept.len() {
                assert(after[j] == kept[j]);
            } else {
                let at = choose|at: int|
                    0 <= at < earlier.len() && (#[trigger] earlier[at]).note.channel
                        == kept[i].note.channel;
                assert(channels[at].note.channel != channels[channels.len() - 1].note.channel);
            }
        }
        assert forall|i: int| 0 <= i < after.len() implies FIRST_CHANNEL <= (
        #[trigger] after[i]).note.channel <= LAST_CHANNEL by {
            if i < kept.len() {
                assert(after[i] == kept[i]);
            } else {
                assert(FIRST_CHANNEL <= channels[channels.len() - 1].note.channel
                    <= LAST_CHANNEL);
            }
        }
    }
}

/// Handing a chord over keeps the channels apart, whatever the order, the
/// plan and the curves.
pub proof fn lemma_dispatch_keeps_apart(engine: ChordBender, now: u64, d: Dispatch)
    requires
        apart(engine.channels@),
        engine.may_dispatch(d),
    ensures
        apart(engine.dispatched_channels(now, d)),
{
    lemma_sorted_apart(
        engine.channels@,
        crate::midi::voices::pitch_keys(engine.channels@),
        d.order,
    );
    lemma_spawned_apart(
        engine.sorted_channels(d),
        engine.shown_notes(),
        d.new_notes,
        d.new_notes.len() as int,
        now,
        if d.targets.len() == 0 {
            engine.hold_duration
        } else {
            engine.bend_duration
        },
        if d.targets.len() == 0 {
            0
        } else {
            engine.hold_duration
        },
        engine.pitch_bend_range,
    );
    lemma_retargeted_apart(
        engine.voices_started(now, d).0,
        engine.voices_started(now, d).1,
        d.targets,
        d.curves,
        now,
        engine.bend_duration,
        engine.hold_duration,
    );
}

/// A tick of the engine keeps the channels apart, whether or not a chord
/// is handed over in it: where the channels before the tick sound on
/// output channels of their own, so do the channels after it.
pub proof fn lemma_tick_keeps_apart(engine: ChordBender, time: u64, d: Dispatch)
    requires
        apart(engine.channels@),
        engine.pending(time) ==> engine.may_dispatch(d),
    ensures
        engine.pending(time) ==> apart(survivors(engine.dispatched_channels(time, d), time)),
        !engine.pending(time) ==> apart(survivors(engine.channels@, time)),
{
    if engine.pending(time) {
        lemma_dispatch_keeps_apart(engine, time, d);
        lemma_survivors_apart(engine.dispatched_channels(time, d), time);
    } else {
        lemma_survivors_apart(engine.channels@, time);
    }
}

/// Whether the channels use the output channels from the first one on, one
/// after the other.
pub open spec fn in_a_row(channels: Seq<Bender>) -> bool {
    forall|i: int|
        0 <= i < channels.len() ==> (#[trigger] channels[i]).note.channel == FIRST_CHANNEL + i
}

/// Where the channels use the output channels from the first one on, one
/// after the other, the next one is the lowest that is free.
pub proof fn lemma_lowest_free_after_a_row(channels: Seq<Bender>, from: int)
    requires
        in_a_row(channels),
        FIRST_CHANNEL <= from <= FIRST_CHANNEL + channels.len() <= LAST_CHANNEL,
    ensures
        lowest_free(channels, from) == FIRST_CHANNEL + channels.len(),
    decreases FIRST_CHANNEL + channels.len() - from,
{
    if from < FIRST_CHANNEL + channels.len() {
        assert(channels[from - FIRST_CHANNEL].note.channel == from);
        lemma_lowest_free_after_a_row(channels, from + 1);
    } else {
        assert forall|i: int| 0 <= i < channels.len() implies (
        #[trigger] channels[i]).note.channel != from by {}
    }
}

/// The voices that start for the first `k` notes of a chord where no channel
/// sounds yet: as long as the output channels last, each note gets a voice
/// on the next output channel, and the notes beyond are as they were.
pub proof fn lemma_voices_in_a_row(
    notes: Seq<Note>,
    new_notes: Seq<usize>,
    k: int,
    now: u64,
    bend_duration: u64,
    hold_duration: u64,
    pitch_bend_range: u8,
)
    requires
        indices(new_notes) == ascending(0, notes.len() as int),
        0 <= k <= notes.len(),
        k <= LAST_CHANNEL - FIRST_CHANNEL + 1,
    ensures
        ({
            let (cs, ns) = spawned(
                Seq::<Bender>::empty(),
                notes,
                new_notes,
                k,
                now,
                bend_duration,
                hold_duration,
                pitch_bend_range,
            );
            &&& cs.len() == k
            &&& ns.len() == notes.len()
            &&& forall|i: int|
                0 <= i < k ==> #[trigger] cs[i] == new_voice(
                    voiced(notes[i], (FIRST_CHANNEL + i) as u8),
                    now,
                    bend_duration,
                    hold_duration,
                    pitch_bend_range,
                    BendPath::plain(),
                )
            &&& forall|i: int| k <= i < notes.len() ==> #[trigger] ns[i] == notes[i]
        }),
    decreases k,
{
    if k > 0 {
        lemma_voices_in_a_row(
            notes,
            new_notes,
            k - 1,
            now,
            bend_duration,
            hold_duration,
            pitch_bend_range,
        );
        let (cs, ns) = spawned(
            Seq::<Bender>::empty(),
            notes,
            new_notes,
            k - 1,
            now,
            bend_duration,
            hold_duration,
            pitch_bend_range,
        );
        assert(indices(new_notes)[k - 1] == k - 1);
        assert(new_notes[k - 1] == k - 1);
        assert(in_a_row(cs));
        lemma_lowest_free_after_a_row(cs, FIRST_CHANNEL as int);
    }
}

/// Into an engine on which nothing sounds, a chord is handed over as one
/// new voice for each of its notes, lowest note first, on the output
/// channels from the first one on; the notes beyond the last output
/// channel get none. Each voice sounds its note unbent for the length of
/// a hold and is then let go at once.
pub proof fn lemma_first_chord(engine: ChordBender, now: u64, d: Dispatch, k: int)
    requires
        engine.channels@.len() == 0,
        engine.chords@.len() > 0,
        engine.may_dispatch(d),
        0 <= k < engine.chords@.last().notes@.len(),
        k <= LAST_CHANNEL - FIRST_CHANNEL,
    ensures
        engine.dispatched_channels(now, d).len() == if engine.chords@.last().notes@.len()
            <= LAST_CHANNEL - FIRST_CHANNEL + 1 {
            engine.chords@.last().notes@.len() as int
        } else {
            LAST_CHANNEL - FIRST_CHANNEL + 1
        },
        engine.dispatched_channels(now, d)[k] == new_voice(
            voiced(engine.shown_notes()[k], (FIRST_CHANNEL + k) as u8),
            now,
            engine.hold_duration,
            0,
            engine.pitch_bend_range,
            BendPath::plain(),
        ),
{
    let notes = engine.shown_notes();
    let n = notes.len() as int;
    let most = LAST_CHANNEL - FIRST_CHANNEL + 1;
    assert(d.order.len() == 0);
    assert(engine.sorted_channels(d) =~= Seq::<Bender>::empty());
    assert(d.targets.len() == 0);
    let first = if n <= most {
        n
    } else {
        most
    };
    lemma_voices_in_a_row(
        notes,
        d.new_notes,
        first,
        now,
        engine.hold_duration,
        0,
        engine.pitch_bend_range,
    );
    lemma_no_voice_beyond(
        notes,
        d.new_notes,
        first,
        n,
        now,
        engine.hold_duration,
        0,
        engine.pitch_bend_range,
    );
    assert(d.new_notes.len() == n) by {
        assert(indices(d.new_notes).len() == d.new_notes.len());
    }
    let started = engine.voices_started(now, d).0;
    assert(engine.dispatched_channels(now, d) =~= started);
}

/// Once every output channel is in use, the notes that follow get no voice.
proof fn lemma_no_voice_beyond(
    notes: Seq<Note>,
    new_notes: Seq<usize>,
    first: int,
    k: int,
    now: u64,
    bend_duration: u64,
    hold_duration: u64,
    pitch_bend_range: u8,
)
    requires
        indices(new_notes) == ascending(0, notes.len() as int),
        0 <= first <= k <= notes.len(),
        first <= LAST_CHANNEL - FIRST_CHANNEL + 1,
        first < k ==> first == LAST_CHANNEL - FIRST_CHANNEL + 1,
    ensures
        spawned(
            Seq::<Bender>::empty(),
            notes,
            new_notes,
            k,
            now,
            bend_duration,
            hold_duration,
            pitch_bend_range,
        ) == spawned(
            Seq::<Bender>::empty(),
            notes,
            new_notes,
            first,
            now,
            bend_duration,
            hold_duration,
            pitch_bend_range,
        ),
    decreases k,
{
    if first < k {
        lemma_no_voice_beyond(
            notes,
            new_notes,
            first,
            k - 1,
            now,
            bend_duration,
            hold_duration,
            pitch_bend_range,
        );
        lemma_voices_in_a_row(
            notes,
            new_notes,
            first,
            now,
            bend_duration,
            hold_duration,
            pitch_bend_range,
        );
        let cs = spawned(
            Seq::<Bender>::empty(),
            notes,
            new_notes,
            first,
            now,
            bend_duration,
            hold_duration,
            pitch_bend_range,
        ).0;
        assert(in_a_row(cs));
        lemma_all_in_use(cs, FIRST_CHANNEL as int);
    }
}

/// Where the channels use every output channel in a row, none is free.
proof fn lemma_all_in_use(channels: Seq<Bender>, from: int)
    requires
        in_a_row(channels),
        channels.len() == LAST_CHANNEL - FIRST_CHANNEL + 1,
        FIRST_CHANNEL <= from <= LAST_CHANNEL + 1,
    ensures
        lowest_free(channels, from) == LAST_CHANNEL + 1,
    decreases LAST_CHANNEL + 1 - from,
{
    if from <= LAST_CHANNEL {
        assert(channels[from - FIRST_CHANNEL].note.channel == from);
        lemma_all_in_use(channels, from + 1);
    }
}

/// Whether the channel has just started to sound at `time`: it sounds its
/// note unbent along the plain curve, and its glide begins now.
pub open spec fn fresh(channel: Bender, time: u64) -> bool {
    &&& channel.active
    &&& channel.start_time == time
    &&& channel.start_bend == Bend(8192)
    &&& channel.target_bend == Bend(8192)
    &&& channel.current_bend == Bend(8192)
    &&& channel.bend_path == BendPath::plain()
}

/// The tick in which voices start leaves them as they started, and each
/// sends its bend, which is no bend at all.
pub proof fn lemma_fresh_tick(channels: Seq<Bender>, time: u64)
    requires
        forall|i: int| 0 <= i < channels.len() ==> fresh(#[trigger] channels[i], time),
    ensures
        survivors(channels, time) == channels,
        tick_messages(channels, time) == Seq::new(
            channels.len(),
            |k: int| Bend(8192).wire_bytes(channels[k].note.channel),
        ),
    decreases channels.len(),
{
    if channels.len() > 0 {
        let earlier = channels.drop_last();
        let last = channels.last();
        assert forall|i: int| 0 <= i < earlier.len() implies fresh(#[trigger] earlier[i], time) by {
            assert(earlier[i] == channels[i]);
        }
        lemma_fresh_tick(earlier, time);
        assert(fresh(channels[channels.len() - 1], time));
        assert(last.bending(time));
        assert(last.bend_after(0) == Bend(8192)) by {
            if last.bend_duration != 0 {
                assert(progress(0, 0, last.bend_duration) == 0) by {
                    assert((0 - 0) * 4294967296 == 0);
                    vstd::arithmetic::div_mod::lemma_div_basics(last.bend_duration as int);
                }
                lemma_starts_at_start(BendPath::plain(), 8192, 8192);
            }
        }
        assert(last.after_tick(time) == last);
        assert(survivors(channels, time) =~= channels);
        assert(tick_messages(channels, time) =~= Seq::new(
            channels.len(),
            |k: int| Bend(8192).wire_bytes(channels[k].note.channel),
        ));
    } else {
        assert(tick_messages(channels, time) =~= Seq::new(
            channels.len(),
            |k: int| Bend(8192).wire_bytes(channels[k].note.channel),
        ));
    }
}

/// The first tick after the capture window of the first chord: where
/// nothing sounds yet and the output channels suffice, the tick leaves one
/// voice for each note of the chord, lowest note first, on the output
/// channels from the first one on, and after the note-ons each voice sends
/// its bend, which is no bend at all.
pub proof fn lemma_first_tick(engine: ChordBender, time: u64, d: Dispatch)
    requires
        engine.channels@.len() == 0,
        engine.chords@.len() > 0,
        engine.may_dispatch(d),
        engine.chords@.last().notes@.len() <= LAST_CHANNEL - FIRST_CHANNEL + 1,
    ensures
        survivors(engine.dispatched_channels(time, d), time) == engine.dispatched_channels(
            time,
            d,
        ),
        engine.dispatched_channels(time, d) == Seq::new(
            engine.chords@.last().notes@.len(),
            |k: int|
                new_voice(
                    voiced(engine.shown_notes()[k], (FIRST_CHANNEL + k) as u8),
                    time,
                    engine.hold_duration,
                    0,
                    engine.pitch_bend_range,
                    BendPath::plain(),
                ),
        ),
        tick_messages(engine.dispatched_channels(time, d), time) == Seq::new(
            engine.chords@.last().notes@.len(),
            |k: int| seq![(223 + FIRST_CHANNEL + k) as u8, 0u8, 64u8],
        ),
{
    let cs = engine.dispatched_channels(time, d);
    let n = engine.chords@.last().notes@.len();
    assert(engine.shown_notes().len() == n);
    if n > 0 {
        lemma_first_chord(engine, time, d, 0);
    } else {
        assert(d.order.len() == 0);
        assert(engine.sorted_channels(d) =~= Seq::<Bender>::empty());
        assert(indices(d.new_notes).len() == d.new_notes.len());
        assert(cs =~= Seq::<Bender>::empty());
    }
    assert forall|k: int| 0 <= k < cs.len() implies #[trigger] cs[k] == new_voice(
        voiced(engine.shown_notes()[k], (FIRST_CHANNEL + k) as u8),
        time,
        engine.hold_duration,
        0,
        engine.pitch_bend_range,
        BendPath::plain(),
    ) by {
        lemma_first_chord(engine, time, d, k);
    }
    assert(cs =~= Seq::new(
        n,
        |k: int|
            new_voice(
                voiced(engine.shown_notes()[k], (FIRST_CHANNEL + k) as u8),
                time,
                engine.hold_duration,
                0,
                engine.pitch_bend_range,
                BendPath::plain(),
            ),
    ));
    lemma_fresh_tick(cs, time);
    assert(tick_messages(cs, time) =~= Seq::new(
        n,
        |k: int| seq![(223 + FIRST_CHANNEL + k) as u8, 0u8, 64u8],
    )) by {
        assert forall|k: int| 0 <= k < n implies Bend(8192).wire_bytes(cs[k].note.channel)
            =~= seq![(223 + FIRST_CHANNEL + k) as u8, 0u8, 64u8] by {
            assert(cs[k].note.channel == FIRST_CHANNEL + k);
        }
    }
}

} // verus!
