//! Chords as they are captured, and the engine that turns them into glides.
use vstd::prelude::*;
use crate::midi::bender::{Bender, RenderedBender};
use crate::midi::mapper::{ChordMap, ChordMapper, MappingPreference};
use crate::midi::paths::{BendPath, BendPathBuilder};
use crate::midi::sorting::{arrange, arranged, is_stable_order, stable_order};
use crate::midi::voices::{
    carries, channels_wf, drawn, find_free_channel, gliding, lemma_carries_both,
    lemma_lowest_free_bounds, lowest_free, new_voice, note_ons, pitch_keys, refusals,
    retarget_channels,
    retargeted_all, sorted_by_pitch, spawn_voices, spawned, survivors, tick_channels,
    tick_messages, voiced, Refusal, FIRST_CHANNEL, LAST_CHANNEL,
};
use crate::midi::{is_note_off, is_note_on, message, MidiEvent, Note};

verus! {

/// Why a note was not taken into a chord.
#[derive(Debug, PartialEq, Eq, Structural, Copy, Clone)]
pub enum ChordAppendError {
    /// The note is older than the chord by more than the capture window.
    Early,
    /// The note came after the capture window had closed.
    Late,
    /// The chord has a note of this number already.
    Exists,
}

/// The notes that were struck together: never empty while it is captured,
/// in ascending order of their numbers, each number once.
#[derive(Debug, Clone)]
pub struct Chord {
    pub notes: Vec<Note>,
    /// The time of the note that opened the chord.
    pub start_time: u64,
    /// How long after its start the chord takes further notes.
    pub capture_duration: u64,
    /// Whether the chord has been handed to the channels.
    pub sent_to_bender: bool,
}

/// Whether the numbers of the notes strictly ascend.
pub open spec fn ascending_notes(notes: Seq<Note>) -> bool {
    forall|i: int, j: int|
        0 <= i < j < notes.len() ==> (#[trigger] notes[i]).midi_number < (
        #[trigger] notes[j]).midi_number
}

/// Whether one of the notes has the number `midi_number`.
pub open spec fn holds_number(notes: Seq<Note>, midi_number: u8) -> bool {
    exists|i: int| 0 <= i < notes.len() && (#[trigger] notes[i]).midi_number == midi_number
}

/// How many of the notes have a number below `midi_number`.
pub open spec fn notes_below(notes: Seq<Note>, midi_number: u8) -> int
    decreases notes.len(),
{
    if notes.len() == 0 {
        0
    } else {
        notes_below(notes.drop_last(), midi_number) + if notes.last().midi_number < midi_number {
            1int
        } else {
            0int
        }
    }
}

/// The earliest arrival among the notes.
pub open spec fn earliest(notes: Seq<Note>) -> int
    recommends
        notes.len() > 0,
    decreases notes.len(),
{
    if notes.len() <= 1 {
        notes[0].daw_time as int
    } else {
        let before = earliest(notes.drop_last());
        if notes.last().daw_time < before {
            notes.last().daw_time as int
        } else {
            before
        }
    }
}

/// Whether `note` is one of `notes` and the first of its number among them.
pub open spec fn first_arrival(notes: Seq<Note>, note: Note) -> bool {
    exists|i: int|
        0 <= i < notes.len() && notes[i] == note && forall|j: int|
            0 <= j < i ==> (#[trigger] notes[j]).midi_number != note.midi_number
}

/// The notes with every note of the number `midi_number` marked as let go.
pub open spec fn let_go(notes: Seq<Note>, midi_number: u8) -> Seq<Note> {
    notes.map_values(
        |n: Note|
            if n.midi_number == midi_number {
                Note { key_released: true, ..n }
            } else {
                n
            },
    )
}

/// The notes as the display shows them at `ui_time`.
pub open spec fn shown_at(notes: Seq<Note>, ui_time: u64) -> Seq<Note> {
    notes.map_values(|n: Note| Note { ui_time, ..n })
}

/// The time at which the display shows the notes of a chord that is handed
/// over: the end of its capture window, counted from `epoch` and held to
/// what sixty-four bits hold.
pub open spec fn display_time(chord: Chord, epoch: u64) -> u64 {
    let shown = chord.closes_at() - epoch;
    if shown < 0 {
        0
    } else if shown > u64::MAX {
        u64::MAX
    } else {
        shown as u64
    }
}

impl Chord {
    /// A chord is well formed when it has a note and the numbers of its
    /// notes strictly ascend.
    pub open spec fn wf(self) -> bool {
        &&& self.notes@.len() > 0
        &&& ascending_notes(self.notes@)
    }

    /// When the chord stops taking notes.
    pub open spec fn closes_at(self) -> int {
        self.start_time + self.capture_duration
    }

    /// Whether `note` is older than the chord by more than the capture window.
    pub open spec fn too_early(self, note: Note) -> bool {
        note.daw_time < self.start_time - self.capture_duration
    }

    /// Whether `note` came after the capture window had closed.
    pub open spec fn too_late(self, note: Note) -> bool {
        self.closes_at() < note.daw_time
    }

    /// The verdict on `note`: the reason for which it is not taken, if there is one.
    pub open spec fn refusal(self, note: Note) -> Option<ChordAppendError> {
        if self.too_early(note) {
            Some(ChordAppendError::Early)
        } else if self.too_late(note) {
            Some(ChordAppendError::Late)
        } else if holds_number(self.notes@, note.midi_number) {
            Some(ChordAppendError::Exists)
        } else {
            None
        }
    }

    /// Whether the chord is the one that `note` opens.
    pub open spec fn opened_by(self, note: Note, capture_duration: u64) -> bool {
        &&& self.notes@ == seq![note]
        &&& self.start_time == note.daw_time
        &&& self.capture_duration == capture_duration
        &&& !self.sent_to_bender
    }

    /// Whether the chord is `before` with `note` put in at its place.
    pub open spec fn extends(self, before: Chord, note: Note) -> bool {
        &&& self.notes@ == before.notes@.insert(
            notes_below(before.notes@, note.midi_number),
            note,
        )
        &&& self.start_time == before.start_time
        &&& self.capture_duration == before.capture_duration
        &&& self.sent_to_bender == before.sent_to_bender
    }

    /// The chord that `note` opens.
    pub fn new(note: Note, capture_duration: u64) -> (r: Chord)
        ensures
            r.opened_by(note, capture_duration),
            r.wf(),
    {
        let mut notes: Vec<Note> = Vec::new();
        notes.push(note);
        Chord { notes, start_time: note.daw_time, capture_duration, sent_to_bender: false }
    }

    /// Whether the chord gathers `notes`: it is well formed, it has a note
    /// of every number among them, each of its notes is the first of its
    /// number that came in, and it starts with the earliest of its notes.
    pub open spec fn gathers(self, notes: Seq<Note>, capture_duration: u64) -> bool {
        &&& self.wf()
        &&& forall|i: int|
            0 <= i < notes.len() ==> holds_number(self.notes@, (#[trigger] notes[i]).midi_number)
        &&& forall|k: int|
            0 <= k < self.notes@.len() ==> first_arrival(notes, #[trigger] self.notes@[k])
        &&& self.start_time == earliest(self.notes@)
        &&& self.capture_duration == capture_duration
        &&& !self.sent_to_bender
    }

    /// Takes `note` into the chord at the place that its number gives it,
    /// unless the chord has a note of that number already.
    fn take(&mut self, note: Note) -> (taken: bool)
        requires
            ascending_notes(old(self).notes@),
        ensures
            ascending_notes(final(self).notes@),
            final(self).start_time == old(self).start_time,
            final(self).capture_duration == old(self).capture_duration,
            final(self).sent_to_bender == old(self).sent_to_bender,
            taken == !holds_number(old(self).notes@, note.midi_number),
            final(self).notes@.len() >= old(self).notes@.len(),
            !taken ==> *final(self) == *old(self),
            taken ==> final(self).notes@ == old(self).notes@.insert(
                notes_below(old(self).notes@, note.midi_number),
                note,
            ),
    {
        let at = self.search(note.midi_number);
        if at < self.notes.len() && self.notes[at].midi_number == note.midi_number {
            return false;
        }
        let ghost before = self.notes@;
        self.notes.insert(at, note);
        proof {
            let after = self.notes@;
            assert forall|i: int, j: int| 0 <= i < j < after.len() implies (
            #[trigger] after[i]).midi_number < (#[trigger] after[j]).midi_number by {
                let x = if i < at { i } else { i - 1 };
                let y = if j < at { j } else { j - 1 };
                if i != at && j != at {
                    assert(after[i] == before[x] && after[j] == before[y]);
                } else if i == at {
                    assert(after[j] == before[y]);
                    assert(before[at as int].midi_number <= before[y].midi_number) by {
                        if y > at {
                            assert(before[at as int].midi_number < before[y].midi_number);
                        }
                    }
                    assert(before[at as int].midi_number >= note.midi_number) by {
                        lemma_notes_below_bounds(before, note.midi_number);
                    }
                } else {
                    assert(after[i] == before[x]);
                    lemma_notes_below_bounds(before, note.midi_number);
                }
            }
        }
        true
    }

    /// The chord of the given notes, in the order of their numbers. Of
    /// several notes of one number the chord keeps the one that came first
    /// in the list, as a chord that is captured refuses a number that it
    /// has. Of no notes there is no chord: they are handed back.
    pub fn from_notes(notes: Vec<Note>, capture_duration: u64) -> (r: Result<Chord, Vec<Note>>)
        ensures
            notes@.len() == 0 ==> (r matches Err(back) && back@.len() == 0),
            notes@.len() > 0 ==> (r matches Ok(chord) && chord.gathers(notes@, capture_duration)),
    {
        let n = notes.len();
        if n == 0 {
            return Err(notes);
        }
        let mut chord = Chord {
            notes: Vec::new(),
            start_time: 0,
            capture_duration,
            sent_to_bender: false,
        };
        let mut i: usize = 0;
        while i < n
            invariant
                i <= n,
                n == notes@.len(),
                chord.capture_duration == capture_duration,
                !chord.sent_to_bender,
                ascending_notes(chord.notes@),
                i > 0 ==> chord.notes@.len() > 0,
                forall|j: int|
                    0 <= j < i ==> holds_number(chord.notes@, (#[trigger] notes@[j]).midi_number),
                forall|k: int|
                    0 <= k < chord.notes@.len() ==> first_arrival(
                        notes@.subrange(0, i as int),
                        #[trigger] chord.notes@[k],
                    ),
            decreases n - i,
        {
            let ghost before = chord.notes@;
            let ghost seen = notes@.subrange(0, i as int);
            let ghost more = notes@.subrange(0, i + 1);
            let note = notes[i];
            let taken = chord.take(note);
            proof {
                let after = chord.notes@;
                let at = notes_below(before, note.midi_number);
                if taken {
                    lemma_notes_below_bounds(before, note.midi_number);
                    assert(after[at] == note);
                }
                assert forall|j: int| 0 <= j < i + 1 implies holds_number(
                    after,
                    (#[trigger] notes@[j]).midi_number,
                ) by {
                    if j < i {
                        let k = choose|k: int|
                            0 <= k < before.len() && (#[trigger] before[k]).midi_number
                                == notes@[j].midi_number;
                        if taken {
                            let moved = if k < at { k } else { k + 1 };
                            assert(after[moved] == before[k]);
                        }
                    } else {
                        if taken {
                            assert(after[at].midi_number == note.midi_number);
                        }
                    }
                }
                assert forall|k: int| 0 <= k < after.len() implies first_arrival(
                    more,
                    #[trigger] after[k],
                ) by {
                    if taken && k == at {
                        assert(more[i as int] == note);
                        assert forall|j: int| 0 <= j < i implies more[j].midi_number
                            != note.midi_number by {
                            assert(more[j] == notes@[j]);
                            assert(holds_number(before, notes@[j].midi_number));
                        }
                    } else {
                        let was = if !taken || k < at { k } else { k - 1 };
                        assert(after[k] == before[was]);
                        let from = choose|from: int|
                            0 <= from < seen.len() && seen[from] == before[was] && forall|j: int|
                                0 <= j < from ==> (#[trigger] seen[j]).midi_number
                                    != before[was].midi_number;
                        assert(more[from] == seen[from]);
                        assert forall|j: int| 0 <= j < from implies (
                        #[trigger] more[j]).midi_number != after[k].midi_number by {
                            assert(more[j] == seen[j]);
                        }
                    }
                }
            }
            i += 1;
        }
        assert(notes@.subrange(0, n as int) =~= notes@);
        let kept = chord.notes.len();
        let mut start_time: u64 = chord.notes[0].daw_time;
        let mut k: usize = 1;
        assert(chord.notes@.subrange(0, 1).len() == 1);
        while k < kept
            invariant
                1 <= k <= kept,
                kept == chord.notes@.len(),
                start_time == earliest(chord.notes@.subrange(0, k as int)),
            decreases kept - k,
        {
            let ghost longer = chord.notes@.subrange(0, k + 1);
            assert(longer.drop_last() =~= chord.notes@.subrange(0, k as int));
            assert(longer.last() == chord.notes@[k as int]);
            if chord.notes[k].daw_time < start_time {
                start_time = chord.notes[k].daw_time;
            }
            k += 1;
        }
        assert(chord.notes@.subrange(0, kept as int) =~= chord.notes@);
        chord.start_time = start_time;
        Ok(chord)
    }

    /// Whether the capture window has closed at `now`.
    pub fn done_capturing(&self, now: u64) -> (r: bool)
        ensures
            r == (now > self.closes_at()),
    {
        now > self.start_time && now - self.start_time > self.capture_duration
    }

    /// The first place whose note has a number of at least `midi_number`.
    fn search(&self, midi_number: u8) -> (at: usize)
        requires
            ascending_notes(self.notes@),
        ensures
            at <= self.notes@.len(),
            at == notes_below(self.notes@, midi_number),
            holds_number(self.notes@, midi_number) <==> (at < self.notes@.len()
                && self.notes@[at as int].midi_number == midi_number),
    {
        let mut low: usize = 0;
        let mut high: usize = self.notes.len();
        while low < high
            invariant
                low <= high <= self.notes@.len(),
                ascending_notes(self.notes@),
                forall|i: int| 0 <= i < low ==> (#[trigger] self.notes@[i]).midi_number < midi_number,
                forall|i: int|
                    high <= i < self.notes@.len() ==> (#[trigger] self.notes@[i]).midi_number
                        >= midi_number,
            decreases high - low,
        {
            let mid: usize = low + (high - low) / 2;
            if self.notes[mid].midi_number < midi_number {
                assert forall|i: int| 0 <= i < mid + 1 implies (
                #[trigger] self.notes@[i]).midi_number < midi_number by {
                    if i < mid {
                        assert(self.notes@[i].midi_number < self.notes@[mid as int].midi_number);
                    }
                }
                low = mid + 1;
            } else {
                assert forall|i: int| mid <= i < self.notes@.len() implies (
                #[trigger] self.notes@[i]).midi_number >= midi_number by {
                    if i > mid {
                        assert(self.notes@[mid as int].midi_number < self.notes@[i].midi_number);
                    }
                }
                high = mid;
            }
        }
        proof {
            lemma_notes_below(self.notes@, midi_number, low as int);
            if holds_number(self.notes@, midi_number) {
                let i = choose|i: int|
                    0 <= i < self.notes@.len() && (#[trigger] self.notes@[i]).midi_number
                        == midi_number;
                assert(i >= low);
                if i > low {
                    assert(self.notes@[low as int].midi_number < self.notes@[i].midi_number);
                }
            }
        }
        low
    }

    /// Takes `note` into the chord, at the place that its number gives it,
    /// unless it is too early, too late or there already.
    pub fn append(&mut self, note: Note) -> (r: Result<(), ChordAppendError>)
        requires
            ascending_notes(old(self).notes@),
        ensures
            match old(self).refusal(note) {
                Some(reason) => r == Err::<(), ChordAppendError>(reason) && *final(self) == *old(
                    self,
                ),
                None => r.is_ok() && final(self).extends(*old(self), note),
            },
            ascending_notes(final(self).notes@),
            final(self).notes@.len() >= old(self).notes@.len(),
    {
        if self.start_time > self.capture_duration && note.daw_time < self.start_time
            - self.capture_duration {
            return Err(ChordAppendError::Early);
        }
        if note.daw_time > self.start_time && note.daw_time - self.start_time
            > self.capture_duration {
            return Err(ChordAppendError::Late);
        }
        if self.take(note) {
            Ok(())
        } else {
            Err(ChordAppendError::Exists)
        }
    }

    /// Whether the chord is `before` with the key of `midi_number` let go.
    pub open spec fn lets_go(self, before: Chord, midi_number: u8) -> bool {
        &&& self.notes@ == let_go(before.notes@, midi_number)
        &&& self.start_time == before.start_time
        &&& self.capture_duration == before.capture_duration
        &&& self.sent_to_bender == before.sent_to_bender
    }

    /// Marks every note of the number `midi_number` as let go.
    pub fn release(&mut self, midi_number: u8)
        ensures
            final(self).lets_go(*old(self), midi_number),
            ascending_notes(old(self).notes@) ==> ascending_notes(final(self).notes@),
    {
        let n = self.notes.len();
        let mut i: usize = 0;
        while i < n
            invariant
                i <= n,
                n == self.notes@.len(),
                n == old(self).notes@.len(),
                self.start_time == old(self).start_time,
                self.capture_duration == old(self).capture_duration,
                self.sent_to_bender == old(self).sent_to_bender,
                forall|k: int|
                    0 <= k < i ==> self.notes@[k] == let_go(old(self).notes@, midi_number)[k],
                forall|k: int| i <= k < n ==> self.notes@[k] == old(self).notes@[k],
            decreases n - i,
        {
            let mut note = self.notes[i];
            if note.midi_number == midi_number {
                note.key_released = true;
                self.notes.set(i, note);
            }
            i += 1;
        }
        assert(self.notes@ =~= let_go(old(self).notes@, midi_number));
    }

    /// Whether the chord is `before` shown at `ui_time` and handed over.
    pub open spec fn hands_over(self, before: Chord, ui_time: u64) -> bool {
        &&& self.notes@ == shown_at(before.notes@, ui_time)
        &&& self.start_time == before.start_time
        &&& self.capture_duration == before.capture_duration
        &&& self.sent_to_bender
    }

    /// Marks the chord as handed over and stamps its notes with the time at
    /// which the display shows them.
    pub fn hand_over(&mut self, epoch: u64)
        ensures
            final(self).hands_over(*old(self), display_time(*old(self), epoch)),
            ascending_notes(old(self).notes@) ==> ascending_notes(final(self).notes@),
    {
        let closes: u128 = self.start_time as u128 + self.capture_duration as u128;
        let ui_time: u64 = if closes <= epoch as u128 {
            0
        } else if closes - epoch as u128 > u64::MAX as u128 {
            u64::MAX
        } else {
            (closes - epoch as u128) as u64
        };
        self.sent_to_bender = true;
        let n = self.notes.len();
        let mut i: usize = 0;
        while i < n
            invariant
                i <= n,
                n == self.notes@.len(),
                n == old(self).notes@.len(),
                self.start_time == old(self).start_time,
                self.capture_duration == old(self).capture_duration,
                self.sent_to_bender,
                forall|k: int|
                    0 <= k < i ==> self.notes@[k] == shown_at(old(self).notes@, ui_time)[k],
                forall|k: int| i <= k < n ==> self.notes@[k] == old(self).notes@[k],
            decreases n - i,
        {
            let mut note = self.notes[i];
            note.ui_time = ui_time;
            self.notes.set(i, note);
            i += 1;
        }
        assert(self.notes@ =~= shown_at(old(self).notes@, ui_time));
    }
}

/// Where the numbers below `midi_number` are exactly the first `at` notes,
/// `at` notes lie below it.
pub proof fn lemma_notes_below(notes: Seq<Note>, midi_number: u8, at: int)
    requires
        0 <= at <= notes.len(),
        forall|i: int| 0 <= i < at ==> (#[trigger] notes[i]).midi_number < midi_number,
        forall|i: int| at <= i < notes.len() ==> (#[trigger] notes[i]).midi_number >= midi_number,
    ensures
        notes_below(notes, midi_number) == at,
    decreases notes.len(),
{
    if notes.len() > 0 {
        let shorter = notes.drop_last();
        assert(forall|i: int| 0 <= i < shorter.len() ==> shorter[i] == notes[i]);
        if at == notes.len() {
            lemma_notes_below(shorter, midi_number, at - 1);
        } else {
            lemma_notes_below(shorter, midi_number, at);
        }
    }
}

/// Among ascending notes, those below a number are exactly the first ones.
pub proof fn lemma_notes_below_bounds(notes: Seq<Note>, midi_number: u8)
    requires
        ascending_notes(notes),
    ensures
        0 <= notes_below(notes, midi_number) <= notes.len(),
        forall|i: int|
            0 <= i < notes_below(notes, midi_number) ==> (#[trigger] notes[i]).midi_number
                < midi_number,
        forall|i: int|
            notes_below(notes, midi_number) <= i < notes.len() ==> (
            #[trigger] notes[i]).midi_number >= midi_number,
    decreases notes.len(),
{
    if notes.len() > 0 {
        let shorter = notes.drop_last();
        assert(forall|i: int| 0 <= i < shorter.len() ==> shorter[i] == notes[i]);
        assert(ascending_notes(shorter));
        lemma_notes_below_bounds(shorter, midi_number);
        let below = notes_below(shorter, midi_number);
        if notes.last().midi_number < midi_number {
            assert forall|i: int| 0 <= i < shorter.len() implies (
            #[trigger] notes[i]).midi_number < midi_number by {
                assert(notes[i].midi_number < notes[notes.len() - 1].midi_number);
            }
            if below < shorter.len() {
                assert(shorter[below].midi_number >= midi_number);
                assert(notes[below].midi_number < midi_number);
            }
        }
    }
}

/// A note that arrives after the capture window has closed is late, however
/// little: the chord refuses it and stays as it was.
pub proof fn lemma_late_after_window(chord: Chord, note: Note)
    requires
        note.daw_time > chord.start_time + chord.capture_duration,
    ensures
        chord.refusal(note) == Some(ChordAppendError::Late),
{
}

/// The semitones that the full bend span covers either way, unless an
/// engine is told otherwise.
pub const PITCH_BEND_RANGE: u8 = 24;

/// The glide engine: the chords as they are captured and the channels that
/// glide between them.
#[derive(Debug)]
pub struct ChordBender {
    /// The time that the display counts from.
    pub epoch: u64,
    /// How long a bend travels to the next chord.
    pub bend_duration: u64,
    /// How long a chord is held before its notes are let go.
    pub hold_duration: u64,
    /// How long after its first note a chord takes further notes.
    pub chord_capture_duration: u64,
    /// The semitones that the full bend span covers either way.
    pub pitch_bend_range: u8,
    /// The chords, oldest first.
    pub chords: Vec<Chord>,
    /// The channels that sound.
    pub channels: Vec<Bender>,
    /// What the curves of the glides are drawn from.
    pub bend_path: BendPathBuilder,
    /// How the notes of a chord are handed to the channels.
    pub chord_mapper: ChordMapper,
    /// The channels that kept their course when the last chord was handed
    /// over, each with the interval that the bend range could not express.
    pub refused: Vec<Refusal>,
}

/// The note that a note-on message stands for when it arrives at
/// `host_time`, while bends travel for `bend_duration`.
pub open spec fn captured(event: MidiEvent, host_time: u64, bend_duration: u64, epoch: u64) -> Note {
    Note {
        channel: (event.data[0] - 143) as u8,
        midi_number: event.data[1],
        daw_time: host_time,
        bend_duration: Some(bend_duration),
        ui_time: (host_time - epoch) as u64,
        new_note_on: false,
        key_released: false,
    }
}

/// What is open when a chord is handed to the channels: the order that
/// the sort gives the channels, the plan of the mapping, and the curves
/// that are drawn for the channels that glide.
pub struct Dispatch {
    pub order: Seq<usize>,
    pub targets: Seq<usize>,
    pub new_notes: Seq<usize>,
    pub curves: Seq<BendPath>,
}

impl ChordBender {
    /// An engine is well formed when its curves are ones that the sampler
    /// accepts, every chord has its notes in ascending order and every
    /// channel is well formed.
    pub open spec fn wf(self) -> bool {
        &&& self.bend_path.valid()
        &&& forall|i: int| 0 <= i < self.chords@.len() ==> (#[trigger] self.chords@[i]).wf()
        &&& channels_wf(self.channels@)
    }

    /// Whether the settings of the engine are those of `other`.
    pub open spec fn same_settings(self, other: ChordBender) -> bool {
        &&& self.epoch == other.epoch
        &&& self.bend_duration == other.bend_duration
        &&& self.hold_duration == other.hold_duration
        &&& self.chord_capture_duration == other.chord_capture_duration
        &&& self.pitch_bend_range == other.pitch_bend_range
        &&& self.bend_path == other.bend_path
        &&& self.chord_mapper == other.chord_mapper
    }

    /// Whether `after` is what the chords become when `event` arrives at
    /// `host_time`.
    ///
    /// A note-on opens a chord where there is none or the last one calls it
    /// late, joins the last chord where that takes it, and is dropped where
    /// the last chord calls it early or has its number already, or where it
    /// is stamped before the reference time. A note-off marks its key as let
    /// go in the last chord. Every other message changes nothing.
    pub open spec fn takes(self, event: MidiEvent, host_time: u64, after: Seq<Chord>) -> bool {
        let before = self.chords@;
        let note = captured(event, host_time, self.bend_duration, self.epoch);
        if is_note_on(event.data[0]) && host_time >= self.epoch {
            if before.len() == 0 || before.last().refusal(note) == Some(ChordAppendError::Late) {
                &&& after.len() == before.len() + 1
                &&& after.drop_last() == before
                &&& after.last().opened_by(note, self.chord_capture_duration)
            } else if before.last().refusal(note) is None {
                &&& after.len() == before.len()
                &&& after.drop_last() == before.drop_last()
                &&& after.last().extends(before.last(), note)
            } else {
                after == before
            }
        } else if is_note_off(event.data[0]) && before.len() > 0 {
            &&& after.len() == before.len()
            &&& after.drop_last() == before.drop_last()
            &&& after.last().lets_go(before.last(), event.data[1])
        } else {
            after == before
        }
    }

    /// An engine with no chord and no channel, which counts display time
    /// from `epoch`, draws the default curve and maps to the closest note.
    pub fn new(
        epoch: u64,
        bend_duration: u64,
        hold_duration: u64,
        chord_capture_duration: u64,
    ) -> (r: ChordBender)
        ensures
            r.epoch == epoch,
            r.bend_duration == bend_duration,
            r.hold_duration == hold_duration,
            r.chord_capture_duration == chord_capture_duration,
            r.pitch_bend_range == PITCH_BEND_RANGE,
            r.chords@.len() == 0,
            r.channels@.len() == 0,
            r.bend_path == BendPathBuilder::plain(),
            r.chord_mapper.chord_map == ChordMap::Closest,
            r.chord_mapper.preference == MappingPreference::Closest,
            r.refused@.len() == 0,
            r.wf(),
    {
        ChordBender {
            epoch,
            bend_duration,
            hold_duration,
            chord_capture_duration,
            pitch_bend_range: PITCH_BEND_RANGE,
            chords: Vec::new(),
            channels: Vec::new(),
            bend_path: BendPathBuilder::default(),
            chord_mapper: ChordMapper::default(),
            refused: Vec::new(),
        }
    }

    /// Takes a message that arrived at `host_time` into the chords.
    pub fn push_event(&mut self, event: MidiEvent, host_time: u64)
        requires
            old(self).wf(),
        ensures
            final(self).wf(),
            final(self).same_settings(*old(self)),
            final(self).channels@ == old(self).channels@,
            final(self).refused@ == old(self).refused@,
            old(self).takes(event, host_time, final(self).chords@),
    {
        let status: u8 = event.data[0];
        if 144 <= status && status <= 159 {
            match Note::new(event.data, host_time, Some(self.bend_duration), self.epoch) {
                Ok(note) => {
                    match self.chords.pop() {
                        None => {
                            let chord = Chord::new(note, self.chord_capture_duration);
                            self.chords.push(chord);
                            assert(self.chords@.drop_last() =~= old(self).chords@);
                        },
                        Some(mut previous_chord) => {
                            let ghost last = previous_chord;
                            assert(last == old(self).chords@.last());
                            assert(self.chords@ =~= old(self).chords@.drop_last());
                            match previous_chord.append(note) {
                                Ok(_) => {
                                    self.chords.push(previous_chord);
                                    assert(self.chords@.drop_last() =~= old(
                                        self,
                                    ).chords@.drop_last());
                                },
                                Err(ChordAppendError::Late) => {
                                    self.chords.push(previous_chord);
                                    assert(self.chords@ =~= old(self).chords@);
                                    let chord = Chord::new(note, self.chord_capture_duration);
                                    self.chords.push(chord);
                                    assert(self.chords@.drop_last() =~= old(self).chords@);
                                },
                                Err(_) => {
                                    self.chords.push(previous_chord);
                                    assert(self.chords@ =~= old(self).chords@);
                                },
                            }
                        },
                    }
                },
                Err(_) => {},
            }
        } else if 128 <= status && status <= 143 {
            match self.chords.pop() {
                None => {},
                Some(mut previous_chord) => {
                    assert(self.chords@ =~= old(self).chords@.drop_last());
                    previous_chord.release(event.data[1]);
                    self.chords.push(previous_chord);
                    assert(self.chords@.drop_last() =~= old(self).chords@.drop_last());
                },
            }
        }
    }

    /// Whether the last chord waits to be handed to the channels at `now`:
    /// its capture window has closed and it has not been handed over yet.
    pub open spec fn pending(self, now: u64) -> bool {
        &&& self.chords@.len() > 0
        &&& !self.chords@.last().sent_to_bender
        &&& now > self.chords@.last().closes_at()
    }

    /// Puts the channels in the order of their pitch, lowest first.
    pub fn sort_channels(&mut self)
        requires
            old(self).wf(),
        ensures
            final(self).wf(),
            final(self).same_settings(*old(self)),
            final(self).chords@ == old(self).chords@,
            final(self).refused@ == old(self).refused@,
            exists|order: Seq<usize>| #[trigger]
                sorted_by_pitch(old(self).channels@, order, final(self).channels@),
    {
        let n = self.channels.len();
        let mut keys: Vec<i64> = Vec::new();
        let mut i: usize = 0;
        while i < n
            invariant
                i <= n,
                n == self.channels@.len(),
                keys@ == pitch_keys(self.channels@.subrange(0, i as int)),
            decreases n - i,
        {
            let ghost more = self.channels@.subrange(0, i + 1);
            assert(more.drop_last() =~= self.channels@.subrange(0, i as int));
            keys.push(self.channels[i].current_midi() as i64);
            assert(keys@ =~= pitch_keys(more));
            i += 1;
        }
        assert(self.channels@.subrange(0, n as int) =~= self.channels@);
        let order = stable_order(&keys);
        let sorted = arrange(&self.channels, &order);
        self.channels = sorted;
        assert(sorted_by_pitch(old(self).channels@, order@, self.channels@));
    }

    /// Starts a voice for `note` on the lowest output channel that no
    /// channel uses: the note is marked as a new voice on that channel, the
    /// channel joins the others, and its note-on and its drawing are handed
    /// back. Where every output channel is in use, nothing happens.
    pub fn new_channel(
        channels: &mut Vec<Bender>,
        note: &mut Note,
        now: u64,
        bend_duration: u64,
        hold_duration: u64,
        pitch_bend_range: u8,
        bend_path: BendPath,
    ) -> (r: Option<(MidiEvent, RenderedBender)>)
        requires
            bend_path.valid(),
        ensures
            FIRST_CHANNEL <= lowest_free(old(channels)@, FIRST_CHANNEL as int) <= LAST_CHANNEL + 1,
            ({
                let channel = lowest_free(old(channels)@, FIRST_CHANNEL as int);
                let voice = new_voice(
                    voiced(*old(note), channel as u8),
                    now,
                    bend_duration,
                    hold_duration,
                    pitch_bend_range,
                    bend_path,
                );
                if channel <= LAST_CHANNEL {
                    &&& final(channels)@ == old(channels)@.push(voice)
                    &&& *final(note) == voiced(*old(note), channel as u8)
                    &&& voice.wf()
                    &&& r matches Some(started) && message(
                        seq![(143 + channel) as u8, old(note).midi_number, 64u8],
                        started.0,
                    ) && voice.draws(started.1)
                } else {
                    &&& final(channels)@ == old(channels)@
                    &&& *final(note) == *old(note)
                    &&& r is None
                }
            }),
    {
        proof {
            lemma_lowest_free_bounds(channels@, FIRST_CHANNEL as int);
        }
        match find_free_channel(channels) {
            Some(channel) => {
                note.channel = channel;
                note.new_note_on = true;
                let (bender, new_note_event) = Bender::new(
                    note,
                    now,
                    bend_duration,
                    hold_duration,
                    pitch_bend_range,
                    bend_path,
                );
                let renderable = bender.get_render();
                channels.push(bender);
                Some((new_note_event, renderable))
            },
            None => None,
        }
    }

    /// The channels in the order that the sort gives them.
    pub open spec fn sorted_channels(self, d: Dispatch) -> Seq<Bender> {
        arranged(self.channels@, d.order)
    }

    /// The notes of the last chord as the display shows them once handed over.
    pub open spec fn shown_notes(self) -> Seq<Note> {
        shown_at(self.chords@.last().notes@, display_time(self.chords@.last(), self.epoch))
    }

    /// The channels and the notes when the new voices of the chord have
    /// started. A chord that no channel glides to is sounded for the length
    /// of a hold and let go at once; every other new voice bends and holds
    /// as long as the glides do.
    pub open spec fn voices_started(self, now: u64, d: Dispatch) -> (Seq<Bender>, Seq<Note>) {
        spawned(
            self.sorted_channels(d),
            self.shown_notes(),
            d.new_notes,
            d.new_notes.len() as int,
            now,
            if d.targets.len() == 0 {
                self.hold_duration
            } else {
                self.bend_duration
            },
            if d.targets.len() == 0 {
                0
            } else {
                self.hold_duration
            },
            self.pitch_bend_range,
        )
    }

    /// The channels when the last chord has been handed to them: sorted by
    /// pitch, joined by the new voices, and each sent towards its note.
    pub open spec fn dispatched_channels(self, now: u64, d: Dispatch) -> Seq<Bender> {
        retargeted_all(
            self.voices_started(now, d).0,
            self.voices_started(now, d).1,
            d.targets,
            d.curves,
            now,
            self.bend_duration,
            self.hold_duration,
        )
    }

    /// The new voices of the chord.
    pub open spec fn new_voices(self, now: u64, d: Dispatch) -> Seq<Bender> {
        self.voices_started(now, d).0.subrange(
            self.sorted_channels(d).len() as int,
            self.voices_started(now, d).0.len() as int,
        )
    }

    /// The channels of which a drawing is made when the chord is handed
    /// over: the new voices, then the channels that glide.
    pub open spec fn redrawn(self, now: u64, d: Dispatch) -> Seq<Bender> {
        self.new_voices(now, d) + gliding(
            self.voices_started(now, d).0,
            self.dispatched_channels(now, d),
            self.voices_started(now, d).1,
            d.targets,
            d.targets.len() as int,
        )
    }

    /// The channels that keep their course when the last chord is handed
    /// over, each with the interval that the bend range cannot express.
    pub open spec fn refused_by(self, now: u64, d: Dispatch) -> Seq<Refusal> {
        refusals(
            self.voices_started(now, d).0,
            self.voices_started(now, d).1,
            d.targets,
            d.targets.len() as int,
        )
    }

    /// Whether `d` is a way in which the last chord can be handed over: the
    /// order sorts the channels by pitch, the plan is a mapping under the
    /// rule of the engine, and there is a curve of the builder for every
    /// channel that has a target.
    pub open spec fn may_dispatch(self, d: Dispatch) -> bool {
        &&& is_stable_order(pitch_keys(self.channels@), d.order)
        &&& self.chord_mapper.maps(
            self.sorted_channels(d),
            self.shown_notes(),
            d.targets,
            d.new_notes,
        )
        &&& d.curves.len() == d.targets.len()
        &&& forall|i: int| 0 <= i < d.curves.len() ==> self.bend_path.may_build(#[trigger] d.curves[i])
    }

    /// Whether `after` are the chords when the last one has been handed over.
    pub open spec fn chords_handed(self, now: u64, d: Dispatch, after: Seq<Chord>) -> bool {
        &&& after.len() == self.chords@.len()
        &&& after.drop_last() == self.chords@.drop_last()
        &&& after.last().notes@ == self.voices_started(now, d).1
        &&& after.last().start_time == self.chords@.last().start_time
        &&& after.last().capture_duration == self.chords@.last().capture_duration
        &&& after.last().sent_to_bender
    }

    /// Hands the last chord to the channels: the channels are sorted by
    /// pitch and mapped to the notes, a voice is started for every note
    /// that needs one, and every channel with a target is sent towards it
    /// along a freshly drawn curve. A channel whose target the bend range
    /// cannot reach keeps its course, and is named in `refused`, with the
    /// interval that it could not express, until the next chord is handed
    /// over.
    /// Returns the note-ons of the new voices and the drawings of the new
    /// and the changed glides.
    pub fn update_target_chord(&mut self, now: u64) -> (r: (Vec<MidiEvent>, Vec<RenderedBender>))
        requires
            old(self).wf(),
            old(self).chords@.len() > 0,
        ensures
            final(self).wf(),
            final(self).same_settings(*old(self)),
            exists|d: Dispatch| #[trigger]
                old(self).may_dispatch(d) && final(self).channels@ == old(
                    self,
                ).dispatched_channels(now, d) && old(self).chords_handed(
                    now,
                    d,
                    final(self).chords@,
                ) && carries(r.0@, note_ons(old(self).new_voices(now, d))) && drawn(
                    r.1@,
                    old(self).redrawn(now, d),
                ) && final(self).refused@ == old(self).refused_by(now, d),
    {
        self.sort_channels();
        let ghost order = choose|order: Seq<usize>| #[trigger]
            sorted_by_pitch(old(self).channels@, order, self.channels@);
        let ghost sorted = self.channels@;
        match self.chords.pop() {
            None => (Vec::new(), Vec::new()),
            Some(mut chord) => {
                let ghost last = chord;
                chord.hand_over(self.epoch);
                let ghost shown = chord.notes@;
                let (targets, new_notes) = self.chord_mapper.get_mapping(
                    self.channels.as_slice(),
                    chord.notes.as_slice(),
                );

                let (bend_duration, hold_duration) = if targets.len() == 0 {
                    (self.hold_duration, 0)
                } else {
                    (self.bend_duration, self.hold_duration)
                };
                let (events, mut renders) = spawn_voices(
                    &mut self.channels,
                    &mut chord.notes,
                    &new_notes,
                    now,
                    bend_duration,
                    hold_duration,
                    self.pitch_bend_range,
                );
                let ghost started = self.channels@;
                let ghost voice_renders = renders@;
                let (mut more, refused, curves) = retarget_channels(
                    &mut self.channels,
                    &chord.notes,
                    &targets,
                    &self.bend_path,
                    now,
                    self.bend_duration,
                    self.hold_duration,
                );
                let ghost glide_renders = more@;
                renders.append(&mut more);
                self.refused = refused;
                self.chords.push(chord);
                proof {
                    let d = Dispatch {
                        order,
                        targets: targets@,
                        new_notes: new_notes@,
                        curves: curves@,
                    };
                    assert(last == old(self).chords@.last());
                    assert(old(self).sorted_channels(d) == sorted);
                    assert(old(self).shown_notes() == shown);
                    assert(old(self).voices_started(now, d) == (started, chord.notes@));
                    assert(self.chords@.drop_last() =~= old(self).chords@.drop_last());
                    assert(renders@ == voice_renders + glide_renders);
                    let all = old(self).redrawn(now, d);
                    assert forall|i: int| 0 <= i < renders@.len() implies all[i].draws(
                        #[trigger] renders@[i],
                    ) by {
                        if i < voice_renders.len() {
                            assert(renders@[i] == voice_renders[i]);
                        } else {
                            assert(renders@[i] == glide_renders[i - voice_renders.len()]);
                        }
                    }
                    assert forall|i: int| 0 <= i < self.chords@.len() implies (
                    #[trigger] self.chords@[i]).wf() by {
                        if i < self.chords@.len() - 1 {
                            assert(self.chords@[i] == old(self).chords@[i]);
                        } else {
                            assert(old(self).chords@[i].wf());
                        }
                    }
                    assert(old(self).may_dispatch(d));
                }
                (events, renders)
            },
        }
    }

    /// Moves the engine on to `time` and returns what is to be sent: the
    /// messages, in their order, and the drawings of the glides that began.
    ///
    /// A chord whose capture window has closed is handed to the channels
    /// first, as [`ChordBender::update_target_chord`] does it. Then every
    /// channel is asked for its message, and the channels that have let
    /// their note go leave the engine. After a tick that handed a chord
    /// over, `refused` tells which channels kept their course and which
    /// intervals the bend range could not express; every other tick leaves
    /// it as it was.
    pub fn bend(&mut self, time: u64) -> (r: (Vec<MidiEvent>, Vec<RenderedBender>))
        requires
            old(self).wf(),
        ensures
            final(self).wf(),
            final(self).same_settings(*old(self)),
            old(self).pending(time) ==> exists|d: Dispatch| #[trigger]
                old(self).may_dispatch(d) && final(self).channels@ == survivors(
                    old(self).dispatched_channels(time, d),
                    time,
                ) && old(self).chords_handed(time, d, final(self).chords@) && carries(
                    r.0@,
                    note_ons(old(self).new_voices(time, d)) + tick_messages(
                        old(self).dispatched_channels(time, d),
                        time,
                    ),
                ) && drawn(r.1@, old(self).redrawn(time, d)) && final(self).refused@ == old(
                    self,
                ).refused_by(time, d),
            !old(self).pending(time) ==> final(self).channels@ == survivors(
                old(self).channels@,
                time,
            ) && final(self).chords@ == old(self).chords@ && carries(
                r.0@,
                tick_messages(old(self).channels@, time),
            ) && r.1@.len() == 0 && final(self).refused@ == old(self).refused@,
    {
        let mut events: Vec<MidiEvent> = Vec::new();
        let mut renderables: Vec<RenderedBender> = Vec::new();
        let n_chords = self.chords.len();
        let due: bool = n_chords > 0 && !self.chords[n_chords - 1].sent_to_bender
            && self.chords[n_chords - 1].done_capturing(time);
        if due {
            let (new_events, new_renderables) = self.update_target_chord(time);
            events = new_events;
            renderables = new_renderables;
        }
        let ghost handed = self.channels@;
        let ghost note_on_events = events@;
        let mut ticks = tick_channels(&mut self.channels, time);
        let ghost tick_events = ticks@;
        events.append(&mut ticks);
        proof {
            assert(events@ == note_on_events + tick_events);
            if due {
                let d = choose|d: Dispatch| #[trigger]
                    old(self).may_dispatch(d) && handed == old(self).dispatched_channels(
                        time,
                        d,
                    ) && old(self).chords_handed(time, d, self.chords@) && carries(
                        note_on_events,
                        note_ons(old(self).new_voices(time, d)),
                    ) && drawn(renderables@, old(self).redrawn(time, d)) && self.refused@ == old(
                        self,
                    ).refused_by(time, d);
                lemma_carries_both(
                    note_on_events,
                    note_ons(old(self).new_voices(time, d)),
                    tick_events,
                    tick_messages(handed, time),
                );
            } else {
                assert(note_on_events + tick_events =~= tick_events);
            }
        }
        (events, renderables)
    }
}

} // verus!
