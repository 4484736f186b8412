//! What a run of ticks sends: every voice is let go once, in the tick that
//! takes it out of the engine, and never heard of again.
use vstd::prelude::*;
use crate::midi::bender::Bender;
use crate::midi::voices::{survivors, tick_messages, FIRST_CHANNEL, LAST_CHANNEL};

verus! {

/// Whether every channel sounds, on an output channel that the engine gives out.
pub open spec fn all_sound(channels: Seq<Bender>) -> bool {
    forall|i: int|
        0 <= i < channels.len() ==> (#[trigger] channels[i]).active && FIRST_CHANNEL
            <= channels[i].note.channel <= LAST_CHANNEL
}

/// How many of the channels use the output channel `channel`.
pub open spec fn uses(channels: Seq<Bender>, channel: u8) -> int
    decreases channels.len(),
{
    if channels.len() == 0 {
        0
    } else {
        uses(channels.drop_last(), channel) + if channels.last().note.channel == channel {
            1int
        } else {
            0int
        }
    }
}

/// Whether the bytes are those of a note-off on the output channel `channel`.
pub open spec fn is_note_off(bytes: Seq<u8>, channel: u8) -> bool {
    bytes.len() == 3 && bytes[0] == 127 + channel
}

/// How many of the messages are note-offs on the output channel `channel`.
pub open spec fn note_offs(messages: Seq<Seq<u8>>, channel: u8) -> int
    decreases messages.len(),
{
    if messages.len() == 0 {
        0
    } else {
        note_offs(messages.drop_last(), channel) + if is_note_off(messages.last(), channel) {
            1int
        } else {
            0int
        }
    }
}

/// The channels after the ticks at `times`, one after the other.
pub open spec fn after_ticks(channels: Seq<Bender>, times: Seq<u64>) -> Seq<Bender>
    decreases times.len(),
{
    if times.len() == 0 {
        channels
    } else {
        survivors(after_ticks(channels, times.drop_last()), times.last())
    }
}

/// The messages of the ticks at `times`, in the order in which they are sent.
pub open spec fn run_messages(channels: Seq<Bender>, times: Seq<u64>) -> Seq<Seq<u8>>
    decreases times.len(),
{
    if times.len() == 0 {
        Seq::empty()
    } else {
        run_messages(channels, times.drop_last()) + tick_messages(
            after_ticks(channels, times.drop_last()),
            times.last(),
        )
    }
}

/// Whether the glide of `after` is that of `before`: the same note on the
/// same output channel, with the same times.
pub open spec fn same_glide(after: Bender, before: Bender) -> bool {
    &&& after.note == before.note
    &&& after.start_time == before.start_time
    &&& after.bend_duration == before.bend_duration
    &&& after.hold_duration == before.hold_duration
}

/// Whether the channels on the output channel `channel` are let go at
/// `time`: the time of their release has come and their bend has arrived.
pub open spec fn let_go_at(channels: Seq<Bender>, channel: u8, time: u64) -> bool {
    forall|i: int|
        0 <= i < channels.len() && (#[trigger] channels[i]).note.channel == channel
            ==> channels[i].released(time) && !channels[i].bending(time)
}

/// The note-offs of two rows of messages are those of the one and of the other.
pub proof fn lemma_note_offs_add(first: Seq<Seq<u8>>, second: Seq<Seq<u8>>, channel: u8)
    ensures
        note_offs(first + second, channel) == note_offs(first, channel) + note_offs(
            second,
            channel,
        ),
    decreases second.len(),
{
    if second.len() == 0 {
        assert(first + second =~= first);
    } else {
        assert((first + second).drop_last() =~= first + second.drop_last());
        assert((first + second).last() == second.last());
        lemma_note_offs_add(first, second.drop_last(), channel);
    }
}

/// No output channel is used fewer than no times.
pub proof fn lemma_uses_bounds(channels: Seq<Bender>, channel: u8)
    ensures
        0 <= uses(channels, channel),
        channels.len() == 0 ==> uses(channels, channel) == 0,
    decreases channels.len(),
{
    if channels.len() > 0 {
        lemma_uses_bounds(channels.drop_last(), channel);
    }
}

/// One tick: a voice on the output channel `channel` either goes on
/// sounding or is let go with one note-off, and nothing else sends a
/// note-off on that output channel. The channels that go on all sound, each
/// on the glide that it was on.
pub proof fn lemma_tick_conserves(channels: Seq<Bender>, time: u64, channel: u8)
    requires
        all_sound(channels),
        FIRST_CHANNEL <= channel <= LAST_CHANNEL,
    ensures
        note_offs(tick_messages(channels, time), channel) + uses(
            survivors(channels, time),
            channel,
        ) == uses(channels, channel),
        all_sound(survivors(channels, time)),
        forall|k: int|
            0 <= k < survivors(channels, time).len() ==> exists|i: int|
                0 <= i < channels.len() && same_glide(
                    #[trigger] survivors(channels, time)[k],
                    #[trigger] channels[i],
                ),
        let_go_at(channels, channel, time) ==> uses(survivors(channels, time), channel) == 0,
    decreases channels.len(),
{
    if channels.len() > 0 {
        let earlier = channels.drop_last();
        let last = channels.last();
        assert forall|i: int| 0 <= i < earlier.len() implies #[trigger] earlier[i]
            == channels[i] by {}
        assert(all_sound(earlier));
        assert(last == channels[channels.len() - 1]);
        if let_go_at(channels, channel, time) {
            assert(let_go_at(earlier, channel, time));
        }
        lemma_tick_conserves(earlier, time, channel);
        let kept = survivors(earlier, time);
        let after = survivors(channels, time);
        let sent = tick_messages(earlier, time);
        let moved = last.after_tick(time);
        assert(same_glide(moved, last));
        if last.bending(time) {
            let bytes = last.bend_after((time - last.start_time) as u64).wire_bytes(
                last.note.channel,
            );
            assert(!is_note_off(bytes, channel));
            assert(tick_messages(channels, time) == sent.push(bytes));
            assert(sent.push(bytes).drop_last() =~= sent);
            assert(after == kept.push(moved));
            assert(kept.push(moved).drop_last() =~= kept);
        } else if last.released(time) {
            let bytes = seq![(127 + last.note.channel) as u8, last.note.midi_number, 0u8];
            assert(is_note_off(bytes, channel) <==> last.note.channel == channel);
            assert(tick_messages(channels, time) == sent.push(bytes));
            assert(sent.push(bytes).drop_last() =~= sent);
            assert(after == kept);
        } else {
            assert(tick_messages(channels, time) == sent);
            assert(after == kept.push(moved));
            assert(kept.push(moved).drop_last() =~= kept);
        }
        assert forall|k: int| 0 <= k < after.len() implies exists|i: int|
            0 <= i < channels.len() && same_glide(#[trigger] after[k], #[trigger] channels[i]) by {
            if k < kept.len() {
                assert(after[k] == kept[k]);
                let i = choose|i: int|
                    0 <= i < earlier.len() && same_glide(kept[k], #[trigger] earlier[i]);
                assert(same_glide(after[k], channels[i]));
            } else {
                assert(same_glide(after[k], channels[channels.len() - 1]));
            }
        }
        assert forall|k: int| 0 <= k < after.len() implies (#[trigger] after[k]).active
            && FIRST_CHANNEL <= after[k].note.channel <= LAST_CHANNEL by {
            if k < kept.len() {
                assert(after[k] == kept[k]);
            }
        }
    }
}

/// A run of ticks: what holds of one tick holds of the run. Of the voices
/// on the output channel `channel`, each either sounds on after the run or
/// was let go in it with one note-off.
pub proof fn lemma_run_conserves(channels: Seq<Bender>, times: Seq<u64>, channel: u8)
    requires
        all_sound(channels),
        FIRST_CHANNEL <= channel <= LAST_CHANNEL,
    ensures
        note_offs(run_messages(channels, times), channel) + uses(
            after_ticks(channels, times),
            channel,
        ) == uses(channels, channel),
        all_sound(after_ticks(channels, times)),
        forall|k: int|
            0 <= k < after_ticks(channels, times).len() ==> exists|i: int|
                0 <= i < channels.len() && same_glide(
                    #[trigger] after_ticks(channels, times)[k],
                    #[trigger] channels[i],
                ),
    decreases times.len(),
{
    if times.len() == 0 {
        assert forall|k: int| 0 <= k < channels.len() implies exists|i: int|
            0 <= i < channels.len() && same_glide(#[trigger] channels[k], #[trigger] channels[i]) by {
            assert(same_glide(channels[k], channels[k]));
        }
    } else {
        let before = times.drop_last();
        lemma_run_conserves(channels, before, channel);
        let middle = after_ticks(channels, before);
        lemma_tick_conserves(middle, times.last(), channel);
        lemma_note_offs_add(
            run_messages(channels, before),
            tick_messages(middle, times.last()),
            channel,
        );
        let after = after_ticks(channels, times);
        assert forall|k: int| 0 <= k < after.len() implies exists|i: int|
            0 <= i < channels.len() && same_glide(#[trigger] after[k], #[trigger] channels[i]) by {
            let m = choose|m: int| 0 <= m < middle.len() && same_glide(after[k], #[trigger] middle[m]);
            let i = choose|i: int|
                0 <= i < channels.len() && same_glide(middle[m], #[trigger] channels[i]);
            assert(same_glide(after[k], channels[i]));
        }
    }
}

/// Over a run of ticks no more note-offs are sent on an output channel than
/// voices sounded on it. And where the one voice of an output channel is let
/// go by the last tick of the run, the run sends exactly one note-off on
/// that output channel and leaves no voice on it, however many ticks the run
/// has and whenever they come.
pub proof fn lemma_one_note_off(channels: Seq<Bender>, times: Seq<u64>, channel: u8)
    requires
        all_sound(channels),
        FIRST_CHANNEL <= channel <= LAST_CHANNEL,
    ensures
        0 <= note_offs(run_messages(channels, times), channel) <= uses(channels, channel),
        times.len() > 0 && let_go_at(channels, channel, times.last()) ==> note_offs(
            run_messages(channels, times),
            channel,
        ) == uses(channels, channel) && uses(after_ticks(channels, times), channel) == 0,
{
    lemma_run_conserves(channels, times, channel);
    lemma_uses_bounds(after_ticks(channels, times), channel);
    lemma_note_offs_bounds(run_messages(channels, times), channel);
    if times.len() > 0 && let_go_at(channels, channel, times.last()) {
        let before = times.drop_last();
        let middle = after_ticks(channels, before);
        lemma_run_conserves(channels, before, channel);
        assert forall|m: int|
            0 <= m < middle.len() && (#[trigger] middle[m]).note.channel == channel
            implies middle[m].released(times.last()) && !middle[m].bending(times.last()) by {
            let i = choose|i: int|
                0 <= i < channels.len() && same_glide(middle[m], #[trigger] channels[i]);
            assert(channels[i].note.channel == channel);
        }
        lemma_tick_conserves(middle, times.last(), channel);
    }
}

/// The tick that lets every voice go: where the time of release of every
/// channel has come and its bend has arrived, the tick sends the note-off
/// of each channel, in the order of the channels, and leaves no channel.
pub proof fn lemma_last_tick(channels: Seq<Bender>, time: u64)
    requires
        forall|i: int|
            0 <= i < channels.len() ==> (#[trigger] channels[i]).released(time)
                && !channels[i].bending(time),
    ensures
        survivors(channels, time).len() == 0,
        tick_messages(channels, time) == Seq::new(
            channels.len(),
            |k: int|
                seq![(127 + channels[k].note.channel) as u8, channels[k].note.midi_number, 0u8],
        ),
    decreases channels.len(),
{
    let offs = Seq::new(
        channels.len(),
        |k: int| seq![(127 + channels[k].note.channel) as u8, channels[k].note.midi_number, 0u8],
    );
    if channels.len() == 0 {
        assert(tick_messages(channels, time) =~= offs);
    } else {
        let earlier = channels.drop_last();
        let last = channels.last();
        assert forall|i: int| 0 <= i < earlier.len() implies (#[trigger] earlier[i]).released(time)
            && !earlier[i].bending(time) by {
            assert(earlier[i] == channels[i]);
        }
        lemma_last_tick(earlier, time);
        assert(last == channels[channels.len() - 1]);
        assert(last.released(time) && !last.bending(time));
        assert(!last.after_tick(time).active);
        let bytes = seq![(127 + last.note.channel) as u8, last.note.midi_number, 0u8];
        assert(last.tick_bytes(time) == Some(bytes));
        assert(tick_messages(channels, time) == tick_messages(earlier, time).push(bytes));
        assert(tick_messages(channels, time) =~= offs);
    }
}

/// No fewer than no messages are note-offs.
pub proof fn lemma_note_offs_bounds(messages: Seq<Seq<u8>>, channel: u8)
    ensures
        0 <= note_offs(messages, channel),
    decreases messages.len(),
{
    if messages.len() > 0 {
        lemma_note_offs_bounds(messages.drop_last(), channel);
    }
}

} // verus!
