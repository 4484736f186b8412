//! Wire-level values: pitch bends, channel messages and captured notes.
use vstd::prelude::*;

pub mod bender;
pub mod channels;
pub mod chord;
pub mod curves;
pub mod drawing;
pub mod fixed;
pub mod mapper;
pub mod paths;
mod random;
pub mod rank;
pub mod sorting;
pub mod ticks;
pub mod voices;

verus! {

/// The bend value that leaves the pitch unchanged.
pub const BEND_CENTRE: u16 = 8192;

/// The largest bend value that fits the 14 bits of the wire format.
pub const BEND_MAX: u16 = 16383;

/// A pitch-bend quantity. The wire format carries 14 bits, so a value is
/// in range when it is at most [`BEND_MAX`]; [`BEND_CENTRE`] means no bend.
#[derive(Debug, PartialEq, Eq, Structural, Copy, Clone)]
pub struct Bend(pub u16);

/// A three-byte channel message together with the delivery fields that a
/// host attaches to it.
#[derive(Debug, Copy, Clone)]
pub struct MidiEvent {
    pub data: [u8; 3],
    pub delta_frames: i32,
    pub live: bool,
    pub note_length: Option<i32>,
    pub note_offset: Option<i32>,
    pub detune: i8,
    pub note_off_velocity: u8,
}

/// The value that two wire bytes decode to: the first byte supplies the bits
/// above the seventh, the second is or-ed into the low bits.
pub open spec fn wire_value(msb: u8, lsb: u8) -> u16 {
    (((msb as u16) << 7u16) | (lsb as u16))
}

/// A message that carries `data` and neutral delivery fields.
pub open spec fn message(data: Seq<u8>, m: MidiEvent) -> bool {
    &&& m.data@ == data
    &&& m.delta_frames == 0
    &&& !m.live
    &&& m.note_length is None
    &&& m.note_offset is None
    &&& m.detune == 0
    &&& m.note_off_velocity == 0
}

impl MidiEvent {
    /// A message with the given bytes and neutral delivery fields.
    pub fn from_data(data: [u8; 3]) -> (m: MidiEvent)
        ensures
            message(data@, m),
            m.data == data,
    {
        MidiEvent {
            data,
            delta_frames: 0,
            live: false,
            note_length: None,
            note_offset: None,
            detune: 0,
            note_off_velocity: 0,
        }
    }
}

impl Bend {
    /// Whether the value fits the 14 bits of the wire format.
    pub open spec fn in_range(self) -> bool {
        self.0 <= BEND_MAX
    }

    /// The three bytes that carry this bend to `channel`: the status byte,
    /// then the low and the high seven bits. A value out of range is sent as
    /// the largest bend.
    pub open spec fn wire_bytes(self, channel: u8) -> Seq<u8> {
        if self.in_range() {
            seq![(223 + channel) as u8, (self.0 % 128) as u8, (self.0 / 128) as u8]
        } else {
            seq![(223 + channel) as u8, 127u8, 127u8]
        }
    }

    /// The offset from the unbent pitch, in 1/8192 of a semitone, when the
    /// full bend span covers `pitch_bend_range` semitones either way.
    pub open spec fn offset(self, pitch_bend_range: u8) -> int {
        pitch_bend_range as int * (self.0 as int - 8192)
    }

    /// Decodes the two data bytes of a pitch-bend message, high bits first.
    pub fn new(msb: u8, lsb: u8) -> (r: Bend)
        ensures
            r.0 == wire_value(msb, lsb),
            lsb <= 127 ==> r.0 == msb as int * 128 + lsb as int,
            msb <= 127 && lsb <= 127 ==> r.in_range(),
    {
        let high: u16 = (msb as u16) << 7u16;
        let value: u16 = high | (lsb as u16);
        assert(lsb <= 127 ==> (((msb as u16) << 7u16) | (lsb as u16)) == (msb as u16) * 128 + (
        lsb as u16)) by (bit_vector);
        Bend(value)
    }

    /// Encodes the bend as a pitch-bend message for `channel`.
    pub fn as_midi_event(&self, channel: u8) -> (m: MidiEvent)
        requires
            channel <= 32,
        ensures
            message(self.wire_bytes(channel), m),
    {
        if self.0 <= BEND_MAX {
            let lsb: u8 = (self.0 % 128) as u8;
            let msb: u8 = (self.0 / 128) as u8;
            MidiEvent::from_data([223 + channel, lsb, msb])
        } else {
            MidiEvent::from_data([223 + channel, 127, 127])
        }
    }

    /// The offset from the unbent pitch in 1/8192 of a semitone.
    pub fn continuous_semitones(self, pitch_bend_range: u8) -> (r: i32)
        ensures
            r == self.offset(pitch_bend_range),
            -2088960 <= r <= 14622465,
    {
        let centred: i32 = self.0 as i32 - 8192;
        assert(-8192 * 255 <= (pitch_bend_range as int) * (centred as int) <= 57343 * 255)
            by (nonlinear_arith)
            requires
                -8192 <= centred <= 57343,
                0 <= pitch_bend_range <= 255,
        ;
        pitch_bend_range as i32 * centred
    }
}

impl Default for Bend {
    /// No bend.
    fn default() -> (r: Bend)
        ensures
            r.0 == BEND_CENTRE,
    {
        Bend(BEND_CENTRE)
    }
}

/// Division that rounds toward zero, for a positive divisor.
pub open spec fn trunc_div(a: int, b: int) -> int
    recommends
        b > 0,
{
    if a >= 0 {
        a / b
    } else {
        -((-a) / b)
    }
}

/// The nearest value to `x` that an `i8` holds.
pub open spec fn clamp_i8(x: int) -> int {
    if x < -128 {
        -128
    } else if x > 127 {
        127
    } else {
        x
    }
}

impl Bend {
    /// The whole semitones of the offset, rounded toward zero.
    pub open spec fn whole_semitones(self, pitch_bend_range: u8) -> int {
        trunc_div(self.offset(pitch_bend_range), 8192)
    }

    /// What is left of the offset beyond the whole semitones, in bend units
    /// and rounded toward zero; zero for an empty range.
    pub open spec fn bend_remainder(self, pitch_bend_range: u8) -> int {
        if pitch_bend_range == 0 {
            0
        } else {
            trunc_div(
                self.offset(pitch_bend_range) - 8192 * self.whole_semitones(pitch_bend_range),
                pitch_bend_range as int,
            )
        }
    }

    /// The offset split into whole semitones and the remaining bend units,
    /// each held to the range of an `i8`.
    pub fn semitones(self, pitch_bend_range: u8) -> (r: (i8, i8))
        ensures
            r.0 == clamp_i8(self.whole_semitones(pitch_bend_range)),
            r.1 == clamp_i8(self.bend_remainder(pitch_bend_range)),
    {
        let offset: i32 = self.continuous_semitones(pitch_bend_range);
        let whole: i32 = offset / 8192;
        let rest: i32 = offset - 8192 * whole;
        let remainder: i32 = if pitch_bend_range == 0 {
            0
        } else {
            rest / (pitch_bend_range as i32)
        };
        (clamp_to_i8(whole), clamp_to_i8(remainder))
    }
}

fn clamp_to_i8(x: i32) -> (r: i8)
    ensures
        r == clamp_i8(x as int),
{
    if x < -128 {
        -128
    } else if x > 127 {
        127
    } else {
        x as i8
    }
}

/// Why a message could not be taken as a note.
#[derive(Debug, PartialEq, Eq, Structural, Copy, Clone)]
pub enum NoteError {
    /// The status byte is not a note-on.
    NotNoteOn,
    /// The note is stamped before the reference time of the display.
    BeforeEpoch,
}

/// A bend that the range cannot express.
#[derive(Debug, PartialEq, Eq, Structural, Copy, Clone)]
pub struct BendRangeError {
    /// The interval that was asked for.
    pub semitones: i16,
    /// The largest interval that the range allows.
    pub pitch_bend_range: u8,
}

/// A note-on as it was captured.
#[derive(Debug, Copy, Clone)]
pub struct Note {
    /// The channel: where the note came from, then the output channel that voices it.
    pub channel: u8,
    pub midi_number: u8,
    /// When the note arrived.
    pub daw_time: u64,
    /// A glide length of the note's own, if it has one.
    pub bend_duration: Option<u64>,
    /// The time at which the display shows the note, counted from the reference time.
    pub ui_time: u64,
    /// Whether the note started a voice of its own.
    pub new_note_on: bool,
    /// Whether the key has been let go.
    pub key_released: bool,
}

/// Whether a status byte announces a note-on.
pub open spec fn is_note_on(status: u8) -> bool {
    144 <= status <= 159
}

/// Whether a status byte announces a note-off.
pub open spec fn is_note_off(status: u8) -> bool {
    128 <= status <= 143
}

/// The bend that would carry a voice sounding `from` to the pitch of `to`
/// exactly, where the span of the bend went one step beyond its largest value.
pub open spec fn bend_between(from: u8, to: u8, pitch_bend_range: u8) -> int {
    (8192 * (pitch_bend_range as int + (to as int - from as int))) / (pitch_bend_range as int)
}

/// The bend that carries a voice sounding `from` to the pitch of `to`: the
/// exact one, held to the largest bend. Only the interval of the whole
/// range upwards is held back, by one step.
pub open spec fn bend_towards(from: u8, to: u8, pitch_bend_range: u8) -> int {
    if bend_between(from, to, pitch_bend_range) > BEND_MAX {
        BEND_MAX as int
    } else {
        bend_between(from, to, pitch_bend_range)
    }
}

/// Whether the interval from `from` to `to` lies within the range.
pub open spec fn within_range(from: u8, to: u8, pitch_bend_range: u8) -> bool {
    &&& pitch_bend_range > 0
    &&& -(pitch_bend_range as int) <= to as int - from as int <= pitch_bend_range as int
}

impl Note {
    /// Takes a note-on message that arrived at `daw_time`. The channel is the
    /// low part of the status byte, counted from one.
    pub fn new(midi_data: [u8; 3], daw_time: u64, bend_duration: Option<u64>, epoch: u64) -> (r:
        Result<Note, NoteError>)
        ensures
            !is_note_on(midi_data[0]) ==> r == Err::<Note, NoteError>(NoteError::NotNoteOn),
            is_note_on(midi_data[0]) && daw_time < epoch ==> r == Err::<Note, NoteError>(
                NoteError::BeforeEpoch,
            ),
            is_note_on(midi_data[0]) && daw_time >= epoch ==> r == Ok::<Note, NoteError>(
                Note {
                    channel: (midi_data[0] - 143) as u8,
                    midi_number: midi_data[1],
                    daw_time,
                    bend_duration,
                    ui_time: (daw_time - epoch) as u64,
                    new_note_on: false,
                    key_released: false,
                },
            ),
    {
        let status: u8 = midi_data[0];
        if status < 144 || status > 159 {
            return Err(NoteError::NotNoteOn);
        }
        if daw_time < epoch {
            return Err(NoteError::BeforeEpoch);
        }
        Ok(
            Note {
                channel: status - 143,
                midi_number: midi_data[1],
                daw_time,
                bend_duration,
                ui_time: daw_time - epoch,
                new_note_on: false,
                key_released: false,
            },
        )
    }

    /// The note-on message of the note, at a fixed velocity of 64.
    pub fn as_midi_event(&self) -> (m: MidiEvent)
        requires
            self.channel <= 112,
        ensures
            message(seq![(143 + self.channel) as u8, self.midi_number, 64u8], m),
    {
        MidiEvent::from_data([143 + self.channel, self.midi_number, 64])
    }

    /// The bend that moves a voice sounding this note to the pitch of
    /// `target`, or the interval that the range cannot express. The bend is
    /// always one that the wire format carries.
    pub fn bend_to(&self, target: &Note, pitch_bend_range: u8) -> (r: Result<Bend, BendRangeError>)
        ensures
            within_range(self.midi_number, target.midi_number, pitch_bend_range) ==> r == Ok::<
                Bend,
                BendRangeError,
            >(Bend(bend_towards(self.midi_number, target.midi_number, pitch_bend_range) as u16)),
            !within_range(self.midi_number, target.midi_number, pitch_bend_range) ==> r == Err::<
                Bend,
                BendRangeError,
            >(
                BendRangeError {
                    semitones: (target.midi_number - self.midi_number) as i16,
                    pitch_bend_range,
                },
            ),
            r matches Ok(b) ==> b.in_range(),
    {
        let n_semitones: i32 = target.midi_number as i32 - self.midi_number as i32;
        let range: i32 = pitch_bend_range as i32;
        if range > 0 && -range <= n_semitones && n_semitones <= range {
            let exact: i32 = (8192 * (range + n_semitones)) / range;
            assert(0 <= (8192 * (range + n_semitones)) / (range as int) <= 16384) by (nonlinear_arith)
                requires
                    range > 0,
                    0 <= range + n_semitones <= 2 * range,
            ;
            if exact > BEND_MAX as i32 {
                Ok(Bend(BEND_MAX))
            } else {
                Ok(Bend(exact as u16))
            }
        } else {
            Err(BendRangeError { semitones: n_semitones as i16, pitch_bend_range })
        }
    }
}

/// Decoding what was encoded gives the bend back, for every bend in range.
pub proof fn lemma_decode_encode(b: Bend, channel: u8)
    requires
        b.in_range(),
    ensures
        wire_value(b.wire_bytes(channel)[2], b.wire_bytes(channel)[1]) == b.0,
{
    let v = b.0;
    assert(v <= 16383 ==> ((((v / 128) as u8) as u16) << 7u16) | (((v % 128) as u8) as u16) == v)
        by (bit_vector);
}

/// A bend out of range is encoded as the largest bend: its bytes are those
/// of [`BEND_MAX`], and they decode to [`BEND_MAX`].
pub proof fn lemma_encode_clamps(b: Bend, channel: u8)
    requires
        !b.in_range(),
    ensures
        b.wire_bytes(channel) == Bend(BEND_MAX).wire_bytes(channel),
        wire_value(b.wire_bytes(channel)[2], b.wire_bytes(channel)[1]) == BEND_MAX,
{
    assert(((127u8 as u16) << 7u16) | (127u8 as u16) == 16383u16) by (bit_vector);
    assert(Bend(BEND_MAX).wire_bytes(channel) =~= seq![(223 + channel) as u8, 127u8, 127u8]);
}

} // verus!
