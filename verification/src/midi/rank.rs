//! The order of the channels by the pitch that they sound at.
use vstd::prelude::*;
use std::cmp::Ordering;
use crate::midi::bender::Bender;
use crate::midi::clamp_i8;

verus! {

impl Bender {
    /// The semitone that the channel sounds at: the struck note moved by
    /// the whole semitones of the current bend.
    pub open spec fn semitone(self) -> int {
        self.note.midi_number + clamp_i8(self.current_bend.whole_semitones(self.pitch_bend_range))
    }

    /// What the current bend adds beyond the whole semitones, in bend units.
    pub open spec fn remainder(self) -> int {
        clamp_i8(self.current_bend.bend_remainder(self.pitch_bend_range))
    }

    /// Whether the channel sounds lower than `other`: at a lower semitone,
    /// or at the same one with less of a bend on top.
    pub open spec fn lower_than(self, other: Bender) -> bool {
        self.semitone() < other.semitone() || (self.semitone() == other.semitone()
            && self.remainder() < other.remainder())
    }

    /// Whether the two channels sound the same note with the same bend.
    pub open spec fn same_sound(self, other: Bender) -> bool {
        self.note.midi_number == other.note.midi_number && self.current_bend == other.current_bend
    }

    /// The order of the channel and `other` by semitone and remainder.
    pub open spec fn order_to(self, other: Bender) -> Ordering {
        if self.lower_than(other) {
            Ordering::Less
        } else if other.lower_than(self) {
            Ordering::Greater
        } else {
            Ordering::Equal
        }
    }

    /// The semitone and the remainder of the channel.
    pub fn rank(&self) -> (r: (i16, i8))
        ensures
            r.0 == self.semitone(),
            r.1 == self.remainder(),
    {
        let (whole, remainder) = self.current_bend.semitones(self.pitch_bend_range);
        (self.note.midi_number as i16 + whole as i16, remainder)
    }

    /// The order of the channel and `other` by semitone and remainder.
    pub fn cmp(&self, other: &Self) -> (r: Ordering)
        ensures
            r == self.order_to(*other),
    {
        let left = self.rank();
        let right = other.rank();
        if left.0 < right.0 {
            Ordering::Less
        } else if left.0 > right.0 {
            Ordering::Greater
        } else if left.1 < right.1 {
            Ordering::Less
        } else if left.1 > right.1 {
            Ordering::Greater
        } else {
            Ordering::Equal
        }
    }
}

impl PartialEq for Bender {
    fn eq(&self, other: &Self) -> (r: bool) {
        self.note.midi_number == other.note.midi_number && self.current_bend.0
            == other.current_bend.0
    }
}

impl vstd::std_specs::cmp::PartialEqSpecImpl for Bender {
    open spec fn obeys_eq_spec() -> bool {
        true
    }

    open spec fn eq_spec(&self, other: &Bender) -> bool {
        self.same_sound(*other)
    }
}

impl PartialOrd for Bender {
    fn partial_cmp(&self, other: &Self) -> (r: Option<Ordering>) {
        Some(self.cmp(other))
    }
}

impl vstd::std_specs::cmp::PartialOrdSpecImpl for Bender {
    open spec fn obeys_partial_cmp_spec() -> bool {
        true
    }

    open spec fn partial_cmp_spec(&self, other: &Bender) -> Option<Ordering> {
        Some(self.order_to(*other))
    }
}

/// The order of the channels is total: of two channels one is lower, or
/// they rank the same, and what is lower than a lower one is lower too.
pub proof fn lemma_order_is_total(a: Bender, b: Bender, c: Bender)
    ensures
        a.lower_than(b) || b.lower_than(a) || (a.semitone() == b.semitone() && a.remainder()
            == b.remainder()),
        !(a.lower_than(b) && b.lower_than(a)),
        a.lower_than(b) && b.lower_than(c) ==> a.lower_than(c),
{
}

} // verus!
