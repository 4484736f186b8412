//! One output channel and the glide that it is playing.
use vstd::prelude::*;
use crate::midi::{bend_towards, message, within_range, Bend, BendRangeError, MidiEvent, Note};
use crate::midi::curves::progress;
use crate::midi::paths::{BendPath, Path};

verus! {

/// The number of steps that the drawing of a curved glide is made of.
pub const RENDER_STEPS: u64 = 500;

/// One point of the drawing of a glide.
#[derive(Debug, PartialEq, Eq, Structural, Copy, Clone)]
pub struct RenderPoint {
    /// The time since the glide started.
    pub offset: u64,
    /// The pitch in 1/8192 of a semitone.
    pub pitch: i32,
}

/// The drawing of one glide: the curve of the bend, then the level at
/// which the target is held until the note is let go.
#[derive(Debug, Clone)]
pub struct RenderedBender {
    /// The points of the curve, from the start of the bend to its end.
    pub bend: Vec<RenderPoint>,
    /// The pitch that is held after the bend.
    pub hold_pitch: i32,
    /// When the glide started.
    pub start_time: u64,
    /// How long the bend travels.
    pub bend_duration: u64,
    /// How long the target is held.
    pub hold_duration: u64,
    /// The output channel, by which the display tells the glides apart.
    pub channel: u8,
}

/// The glide of one output channel: the note that sounds on it, the bend it
/// started from, the bend it is heading for and when each phase ends.
#[derive(Debug, Clone, Copy)]
pub struct Bender {
    /// Whether the channel still sounds.
    pub active: bool,
    /// The note that was struck on the channel; bends are relative to it.
    pub note: Note,
    /// When the glide started.
    pub start_time: u64,
    /// How long the bend travels.
    pub bend_duration: u64,
    /// How long the target is held before the note is let go.
    pub hold_duration: u64,
    pub start_bend: Bend,
    pub target_bend: Bend,
    pub current_bend: Bend,
    pub bend_path: BendPath,
    /// The semitones that the full bend span covers either way.
    pub pitch_bend_range: u8,
}

impl Bender {
    /// A channel is well formed when it is one of the sixteen of the wire
    /// format and its curve is one that the sampler accepts.
    pub open spec fn wf(self) -> bool {
        &&& 1 <= self.note.channel <= 16
        &&& self.bend_path.valid()
    }

    /// When the bend arrives.
    pub open spec fn stop_time(self) -> int {
        self.start_time + self.bend_duration
    }

    /// When the note is let go.
    pub open spec fn note_off_time(self) -> int {
        self.start_time + self.bend_duration + self.hold_duration
    }

    /// Whether the bend is travelling at `time`.
    pub open spec fn bending(self, time: u64) -> bool {
        self.start_time <= time <= self.stop_time()
    }

    /// Whether the note is to be let go at `time`.
    pub open spec fn released(self, time: u64) -> bool {
        self.note_off_time() <= time
    }

    /// The sounding pitch in 1/8192 of a semitone: the struck note moved by
    /// the current bend.
    pub open spec fn pitch(self) -> int {
        self.note.midi_number as int * 8192 + self.current_bend.offset(self.pitch_bend_range)
    }

    /// The bend at the time `offset` after the start of the glide, for an
    /// offset within the bend. A bend of no length has arrived at once.
    pub open spec fn bend_after(self, offset: u64) -> Bend {
        if self.bend_duration == 0 {
            self.target_bend
        } else {
            self.bend_path.sample(
                progress(offset, 0, self.bend_duration),
                self.start_bend.0,
                self.target_bend.0,
            )
        }
    }

    /// The bend at `time` while the bend is travelling, and none before and after.
    pub open spec fn bend_when(self, time: u64) -> Option<Bend> {
        if self.bending(time) {
            Some(self.bend_after((time - self.start_time) as u64))
        } else {
            None
        }
    }

    /// The channel after it was asked for its message at `time`: while the
    /// bend travels the current bend follows it, and from the time of
    /// release on the channel is no longer active.
    pub open spec fn after_tick(self, time: u64) -> Bender {
        if self.bending(time) {
            Bender { current_bend: self.bend_after((time - self.start_time) as u64), ..self }
        } else if self.released(time) {
            Bender { active: false, ..self }
        } else {
            self
        }
    }

    /// The bytes of the message that the channel sends at `time`: the bend
    /// while it travels, nothing while the target is held, the note-off from
    /// the time of release on.
    pub open spec fn tick_bytes(self, time: u64) -> Option<Seq<u8>> {
        if self.bending(time) {
            Some(self.bend_after((time - self.start_time) as u64).wire_bytes(self.note.channel))
        } else if self.released(time) {
            Some(seq![(127 + self.note.channel) as u8, self.note.midi_number, 0u8])
        } else {
            None
        }
    }

    /// A channel that starts to sound `note` at `now`, with the bend at the
    /// centre, and the note-on message that starts it.
    pub fn new(
        note: &Note,
        now: u64,
        bend_duration: u64,
        hold_duration: u64,
        pitch_bend_range: u8,
        bend_path: BendPath,
    ) -> (r: (Bender, MidiEvent))
        requires
            1 <= note.channel <= 16,
        ensures
            r.0 == (Bender {
                active: true,
                note: *note,
                start_time: now,
                bend_duration,
                hold_duration,
                start_bend: Bend(8192),
                target_bend: Bend(8192),
                current_bend: Bend(8192),
                bend_path,
                pitch_bend_range,
            }),
            message(seq![(143 + note.channel) as u8, note.midi_number, 64u8], r.1),
    {
        let bender = Bender {
            active: true,
            note: *note,
            start_time: now,
            bend_duration,
            hold_duration,
            start_bend: Bend(8192),
            target_bend: Bend(8192),
            current_bend: Bend(8192),
            bend_path,
            pitch_bend_range,
        };
        (bender, note.as_midi_event())
    }

    /// Whether the bend is travelling at `time`.
    pub fn is_bending(&self, time: u64) -> (r: bool)
        ensures
            r == self.bending(time),
    {
        self.start_time <= time && time - self.start_time <= self.bend_duration
    }

    /// Whether the note is to be let go at `time`.
    pub fn is_released(&self, time: u64) -> (r: bool)
        ensures
            r == self.released(time),
    {
        self.start_time <= time && time - self.start_time >= self.bend_duration && time
            - self.start_time - self.bend_duration >= self.hold_duration
    }

    /// The bend at the time `offset` after the start of the glide.
    fn get_bend_after(&self, offset: u64) -> (r: Bend)
        requires
            self.bend_path.valid(),
            offset <= self.bend_duration,
        ensures
            r == self.bend_after(offset),
    {
        if self.bend_duration == 0 {
            self.target_bend
        } else {
            self.bend_path.bend(
                offset,
                0,
                self.bend_duration,
                self.start_bend.0,
                self.target_bend.0,
            )
        }
    }

    /// The bend at `time` while the bend is travelling, and none before and after.
    pub fn get_bend(&self, time: u64) -> (r: Option<Bend>)
        requires
            self.bend_path.valid(),
        ensures
            r == self.bend_when(time),
    {
        if self.is_bending(time) {
            Some(self.get_bend_after(time - self.start_time))
        } else {
            None
        }
    }

    /// Asks the channel for its message at `time` and moves it on.
    pub fn bend(&mut self, time: u64) -> (r: Option<MidiEvent>)
        requires
            old(self).wf(),
        ensures
            *final(self) == old(self).after_tick(time),
            final(self).wf(),
            match old(self).tick_bytes(time) {
                Some(bytes) => r matches Some(m) && message(bytes, m),
                None => r is None,
            },
    {
        if self.is_bending(time) {
            let bend = self.get_bend_after(time - self.start_time);
            self.current_bend = bend;
            Some(bend.as_midi_event(self.note.channel))
        } else if self.is_released(time) {
            self.active = false;
            Some(MidiEvent::from_data([127 + self.note.channel, self.note.midi_number, 0]))
        } else {
            None
        }
    }

    /// The sounding pitch in 1/8192 of a semitone.
    pub fn current_midi(&self) -> (r: i32)
        ensures
            r == self.pitch(),
            -2088960 <= r <= 16711425,
    {
        self.note.midi_number as i32 * 8192 + self.current_bend.continuous_semitones(
            self.pitch_bend_range,
        )
    }

    /// The channel when it has been sent towards the note `target` at `now`:
    /// the glide sets out from the current bend and heads for the bend that
    /// carries the struck note to the target.
    pub open spec fn retargeted(
        self,
        target: Note,
        now: u64,
        bend_duration: u64,
        hold_duration: u64,
        bend_path: BendPath,
    ) -> Bender {
        Bender {
            target_bend: Bend(
                bend_towards(self.note.midi_number, target.midi_number, self.pitch_bend_range) as u16,
            ),
            start_bend: self.current_bend,
            start_time: now,
            bend_duration,
            hold_duration,
            bend_path,
            ..self
        }
    }

    /// Sends the channel towards the note `target`. Where the range cannot
    /// express the interval from the struck note, the channel is left as it
    /// was and the interval is returned.
    pub fn update_target(
        &mut self,
        target: &Note,
        now: u64,
        bend_duration: u64,
        hold_duration: u64,
        bend_path: BendPath,
    ) -> (r: Result<RenderedBender, BendRangeError>)
        requires
            old(self).wf(),
            bend_path.valid(),
        ensures
            final(self).wf(),
            within_range(
                old(self).note.midi_number,
                target.midi_number,
                old(self).pitch_bend_range,
            ) ==> *final(self) == old(self).retargeted(
                *target,
                now,
                bend_duration,
                hold_duration,
                bend_path,
            ) && (r matches Ok(drawing) && final(self).draws(drawing)),
            !within_range(
                old(self).note.midi_number,
                target.midi_number,
                old(self).pitch_bend_range,
            ) ==> *final(self) == *old(self) && r == Err::<RenderedBender, BendRangeError>(
                BendRangeError {
                    semitones: (target.midi_number - old(self).note.midi_number) as i16,
                    pitch_bend_range: old(self).pitch_bend_range,
                },
            ),
    {
        match self.note.bend_to(target, self.pitch_bend_range) {
            Ok(bend) => {
                self.target_bend = bend;
                self.start_bend = self.current_bend;
                self.start_time = now;
                self.bend_duration = bend_duration;
                self.hold_duration = hold_duration;
                self.bend_path = bend_path;
                Ok(self.get_render())
            },
            Err(e) => Err(e),
        }
    }

    /// The pitch that sounds with the bend of the time `offset` after the start.
    pub open spec fn pitch_after(self, offset: u64) -> int {
        self.note.midi_number as int * 8192 + self.bend_after(offset).offset(
            self.pitch_bend_range,
        )
    }

    /// The number of points that the drawing of the bend takes: the two ends
    /// of a straight line, and of every other shape one point more than
    /// there are steps.
    pub open spec fn render_len(self) -> nat {
        if self.bend_path.path == Path::Linear {
            2
        } else {
            (RENDER_STEPS + 1) as nat
        }
    }

    /// The time after the start at which point `i` of the drawing stands:
    /// the points are spread evenly, the first at the start of the bend and
    /// the last at its end.
    pub open spec fn render_offset(self, i: int) -> int {
        (i * self.bend_duration) / (self.render_len() - 1)
    }

    /// Whether `drawing` is the drawing of the glide.
    pub open spec fn draws(self, drawing: RenderedBender) -> bool {
        &&& drawing.bend@.len() == self.render_len()
        &&& forall|i: int|
            0 <= i < self.render_len() ==> (#[trigger] drawing.bend@[i]).offset
                == self.render_offset(i) && drawing.bend@[i].pitch == self.pitch_after(
                self.render_offset(i) as u64,
            )
        &&& drawing.hold_pitch == self.pitch_after(self.bend_duration)
        &&& drawing.start_time == self.start_time
        &&& drawing.bend_duration == self.bend_duration
        &&& drawing.hold_duration == self.hold_duration
        &&& drawing.channel == self.note.channel
    }

    /// The pitch that sounds with the bend of the time `offset` after the start.
    fn get_pitch_after(&self, offset: u64) -> (r: i32)
        requires
            self.bend_path.valid(),
            offset <= self.bend_duration,
        ensures
            r == self.pitch_after(offset),
    {
        self.note.midi_number as i32 * 8192 + self.get_bend_after(offset).continuous_semitones(
            self.pitch_bend_range,
        )
    }

    /// Draws the glide: the curve of the bend, point by point, and the
    /// level at which the target is held.
    pub fn get_render(&self) -> (r: RenderedBender)
        requires
            self.bend_path.valid(),
        ensures
            self.draws(r),
    {
        let steps: u64 = match self.bend_path.path {
            Path::Linear => 1,
            _ => RENDER_STEPS,
        };
        let mut points: Vec<RenderPoint> = Vec::new();
        let mut i: u64 = 0;
        while i <= steps
            invariant
                i <= steps + 1,
                steps == self.render_len() - 1,
                1 <= steps <= RENDER_STEPS,
                self.bend_path.valid(),
                points@.len() == i,
                forall|k: int|
                    0 <= k < i ==> (#[trigger] points@[k]).offset == self.render_offset(k)
                        && points@[k].pitch == self.pitch_after(self.render_offset(k) as u64),
            decreases steps + 1 - i,
        {
            proof {
                crate::midi::fixed::lemma_mul_bound(
                    i as int,
                    self.bend_duration as int,
                    500,
                    0xffff_ffff_ffff_ffff,
                );
                assert(0 <= i * self.bend_duration <= steps * self.bend_duration)
                    by (nonlinear_arith)
                    requires
                        0 <= i <= steps,
                        0 <= self.bend_duration,
                ;
                assert(self.bend_duration * steps == steps * self.bend_duration)
                    by (nonlinear_arith);
                crate::midi::fixed::lemma_floor_bound(
                    i * self.bend_duration,
                    steps as int,
                    self.bend_duration as int,
                );
                vstd::arithmetic::div_mod::lemma_div_is_ordered(
                    0,
                    i * self.bend_duration,
                    steps as int,
                );
            }
            let offset: u64 = ((i as u128 * self.bend_duration as u128) / (steps as u128)) as u64;
            let pitch = self.get_pitch_after(offset);
            points.push(RenderPoint { offset, pitch });
            i += 1;
        }
        RenderedBender {
            bend: points,
            hold_pitch: self.get_pitch_after(self.bend_duration),
            start_time: self.start_time,
            bend_duration: self.bend_duration,
            hold_duration: self.hold_duration,
            channel: self.note.channel,
        }
    }
}

} // verus!
