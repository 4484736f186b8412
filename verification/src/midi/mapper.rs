//! Which channel glides to which note of a new chord.
use vstd::prelude::*;
use crate::midi::bender::Bender;
use crate::midi::Note;
use crate::midi::random::shuffle;

verus! {

/// How the notes of a chord are handed to the channels.
#[derive(Debug, PartialEq, Eq, Structural, Copy, Clone)]
pub enum ChordMap {
    Closest,
    Flipped,
    Random,
}

impl ChordMap {
    /// The rule with the given place in the list of rules; every place
    /// beyond the last stands for the last rule.
    pub open spec fn at(index: int) -> ChordMap {
        if index == 0 {
            ChordMap::Closest
        } else if index == 1 {
            ChordMap::Flipped
        } else {
            ChordMap::Random
        }
    }

    /// The place of the rule in the list of rules.
    pub open spec fn place(self) -> int {
        match self {
            ChordMap::Closest => 0,
            ChordMap::Flipped => 1,
            ChordMap::Random => 2,
        }
    }

    /// The rule with the given place in the list of rules.
    pub fn from_index(index: u32) -> (r: ChordMap)
        ensures
            r == ChordMap::at(index as int),
    {
        match index {
            0 => ChordMap::Closest,
            1 => ChordMap::Flipped,
            _ => ChordMap::Random,
        }
    }

    /// The place of the rule in the list of rules.
    pub fn index(&self) -> (r: u32)
        ensures
            r == self.place(),
            ChordMap::at(r as int) == *self,
    {
        match self {
            ChordMap::Closest => 0,
            ChordMap::Flipped => 1,
            ChordMap::Random => 2,
        }
    }
}

impl Default for ChordMap {
    /// The closest note.
    fn default() -> (r: ChordMap)
        ensures
            r == ChordMap::Closest,
    {
        ChordMap::Closest
    }
}

/// Which note a channel prefers where several would do.
#[derive(Debug, PartialEq, Eq, Structural, Copy, Clone)]
pub enum MappingPreference {
    Closest,
    Furthest,
    Top,
    Center,
    Bottom,
    Random,
}

impl Default for MappingPreference {
    /// The closest note.
    fn default() -> (r: MappingPreference)
        ensures
            r == MappingPreference::Closest,
    {
        MappingPreference::Closest
    }
}

/// The mapping rule of an engine.
#[derive(Debug, Clone, Copy)]
pub struct ChordMapper {
    pub chord_map: ChordMap,
    pub preference: MappingPreference,
}

impl Default for ChordMapper {
    /// The closest note, under both names.
    fn default() -> (r: ChordMapper)
        ensures
            r.chord_map == ChordMap::Closest,
            r.preference == MappingPreference::Closest,
    {
        ChordMapper { chord_map: ChordMap::Closest, preference: MappingPreference::Closest }
    }
}

/// The indices of a plan as mathematical integers.
pub open spec fn indices(v: Seq<usize>) -> Seq<int> {
    v.map_values(|i: usize| i as int)
}

/// The notes `first`, `first + 1`, ... (`count` of them), each one `times` times over.
pub open spec fn repeat_each(first: int, count: int, times: int) -> Seq<int> {
    Seq::new((count * times) as nat, |k: int| first + k / times)
}

/// The numbers from `first` up to, not including, `first + count`.
pub open spec fn ascending(first: int, count: int) -> Seq<int> {
    Seq::new(count as nat, |k: int| first + k)
}

/// The numbers from `from` downwards, `count` of them.
pub open spec fn descending(from: int, count: int) -> Seq<int> {
    Seq::new(count as nat, |k: int| from - k)
}

/// The notes `low` and `low + 1` in turn, `count` entries starting with `low`.
pub open spec fn alternating(low: int, count: int) -> Seq<int> {
    Seq::new(count as nat, |k: int| low + k % 2)
}

/// One more note of a repetition is one more run of `times` equal entries.
proof fn lemma_repeat_each_step(first: int, i: int, times: int)
    requires
        0 <= i,
        0 <= times,
    ensures
        repeat_each(first, i + 1, times) =~= repeat_each(first, i, times) + Seq::new(
            times as nat,
            |k: int| first + i,
        ),
{
    let a = repeat_each(first, i + 1, times);
    let b = repeat_each(first, i, times) + Seq::new(times as nat, |k: int| first + i);
    assert((i + 1) * times == i * times + times) by (nonlinear_arith);
    assert(i * times >= 0) by (nonlinear_arith)
        requires
            0 <= i,
            0 <= times,
    ;
    assert(a.len() == b.len());
    assert forall|k: int| 0 <= k < a.len() implies a[k] == b[k] by {
        if k < i * times {
        } else {
            let j = k - i * times;
            assert((i * times + j) / times == i) by (nonlinear_arith)
                requires
                    0 <= j < times,
                    0 <= i,
            ;
        }
    }
}

/// Every entry of a repetition is one of the notes repeated.
proof fn lemma_repeat_each_range(first: int, count: int, times: int, k: int)
    requires
        0 <= count,
        0 <= times,
        0 <= k < repeat_each(first, count, times).len(),
    ensures
        first <= repeat_each(first, count, times)[k] < first + count,
{
    assert(count * times >= 0) by (nonlinear_arith)
        requires
            0 <= count,
            0 <= times,
    ;
    assert(times > 0) by (nonlinear_arith)
        requires
            0 <= k < count * times,
            0 <= times,
    ;
    assert(times * count == count * times) by (nonlinear_arith);
    vstd::arithmetic::div_mod::lemma_multiply_divide_lt(k, times, count);
    vstd::arithmetic::div_mod::lemma_div_pos_is_pos(k, times);
}

/// Pushes the notes `first .. first + count`, each `times` times, onto `plan`.
fn push_repeated(plan: &mut Vec<usize>, first: usize, count: usize, times: usize)
    requires
        first + count <= usize::MAX,
        count * times <= usize::MAX,
    ensures
        indices(final(plan)@) == indices(old(plan)@) + repeat_each(
            first as int,
            count as int,
            times as int,
        ),
{
    let ghost before = indices(plan@);
    let mut i: usize = 0;
    while i < count
        invariant
            i <= count,
            first + count <= usize::MAX,
            count * times <= usize::MAX,
            indices(plan@) == before + repeat_each(first as int, i as int, times as int),
        decreases count - i,
    {
        let mut j: usize = 0;
        while j < times
            invariant
                i < count,
                j <= times,
                first + count <= usize::MAX,
                indices(plan@) == before + repeat_each(first as int, i as int, times as int)
                    + Seq::new(j as nat, |k: int| first + i),
            decreases times - j,
        {
            let ghost prev = indices(plan@);
            plan.push(first + i);
            j += 1;
            assert(indices(plan@) =~= prev.push(first + i));
            assert(indices(plan@) =~= before + repeat_each(first as int, i as int, times as int)
                + Seq::new(j as nat, |k: int| first + i));
        }
        proof {
            lemma_repeat_each_step(first as int, i as int, times as int);
        }
        i += 1;
        assert(indices(plan@) =~= before + repeat_each(first as int, i as int, times as int));
    }
}

/// Pushes `first`, `first + 1`, ... onto `plan`, `count` entries in all.
fn push_ascending(plan: &mut Vec<usize>, first: usize, count: usize)
    requires
        first + count <= usize::MAX,
    ensures
        indices(final(plan)@) == indices(old(plan)@) + ascending(first as int, count as int),
{
    let ghost before = indices(plan@);
    let mut k: usize = 0;
    while k < count
        invariant
            k <= count,
            first + count <= usize::MAX,
            indices(plan@) == before + ascending(first as int, k as int),
        decreases count - k,
    {
        let ghost prev = indices(plan@);
        plan.push(first + k);
        assert(indices(plan@) =~= prev.push(first + k));
        k += 1;
        assert(indices(plan@) =~= before + ascending(first as int, k as int));
    }
}

/// Pushes `from`, `from - 1`, ... onto `plan`, `count` entries in all.
fn push_descending(plan: &mut Vec<usize>, from: usize, count: usize)
    requires
        count <= from + 1,
    ensures
        indices(final(plan)@) == indices(old(plan)@) + descending(from as int, count as int),
{
    let ghost before = indices(plan@);
    let mut k: usize = 0;
    while k < count
        invariant
            k <= count,
            count <= from + 1,
            indices(plan@) == before + descending(from as int, k as int),
        decreases count - k,
    {
        let ghost prev = indices(plan@);
        plan.push(from - k);
        assert(indices(plan@) =~= prev.push(from - k));
        k += 1;
        assert(indices(plan@) =~= before + descending(from as int, k as int));
    }
}

/// Pushes `low`, `low + 1`, `low`, ... onto `plan`, `count` entries in all.
fn push_alternating(plan: &mut Vec<usize>, low: usize, count: usize)
    requires
        low < usize::MAX,
    ensures
        indices(final(plan)@) == indices(old(plan)@) + alternating(low as int, count as int),
{
    let ghost before = indices(plan@);
    let mut k: usize = 0;
    while k < count
        invariant
            k <= count,
            low < usize::MAX,
            indices(plan@) == before + alternating(low as int, k as int),
        decreases count - k,
    {
        let ghost prev = indices(plan@);
        plan.push(low + k % 2);
        assert(indices(plan@) =~= prev.push(low + k % 2));
        k += 1;
        assert(indices(plan@) =~= before + alternating(low as int, k as int));
    }
}

/// How many channels each outer note of a chord takes when the channels
/// outnumber the notes and the ends are mirrored.
pub open spec fn flipped_group_size(n_channels: int, n_notes: int) -> int {
    if n_notes % 2 != 0 && n_channels % n_notes != 0 {
        n_channels / (n_notes - 1)
    } else {
        n_channels / n_notes
    }
}

/// The note of each channel, lowest channel first, when the ends are mirrored
/// against each other.
///
/// With fewer channels than notes, the first half of the channels (the larger
/// half) takes the highest notes downwards and the rest takes the lowest
/// notes, downwards too. With as many channels as notes the order is reversed.
/// With more channels, the notes above the middle come first, each for a
/// group of channels, then the middle for what is left, then the notes below
/// the middle.
pub open spec fn flipped_targets(n_channels: int, n_notes: int) -> Seq<int> {
    if n_notes <= 0 || n_channels < 0 {
        Seq::empty()
    } else if n_channels < n_notes {
        let top = (n_channels + 1) / 2;
        descending(n_notes - 1, top) + descending(n_channels - 1 - top, n_channels - top)
    } else if n_channels == n_notes {
        descending(n_notes - 1, n_notes)
    } else {
        let half = n_notes / 2;
        let group = flipped_group_size(n_channels, n_notes);
        let above = if n_notes % 2 == 0 {
            half
        } else {
            half + 1
        };
        let n_mid = n_channels - group * (n_notes - above) - group * half;
        let mid = if n_notes % 2 == 0 {
            alternating(half - 1, n_mid)
        } else {
            repeat_each(half, 1, n_mid)
        };
        repeat_each(above, n_notes - above, group) + mid + repeat_each(0, half, group)
    }
}

/// The notes that no channel takes when the ends are mirrored: the middle
/// ones, in ascending order, where the notes outnumber the channels.
pub open spec fn flipped_new_notes(n_channels: int, n_notes: int) -> Seq<int> {
    if 0 <= n_channels < n_notes {
        ascending(n_channels / 2, n_notes - n_channels)
    } else {
        Seq::empty()
    }
}

/// The two outer bands of a mirrored mapping never take more channels than there are.
proof fn lemma_flipped_groups_fit(c: int, n: int)
    requires
        1 <= n < c,
    ensures
        ({
            let half = n / 2;
            let group = flipped_group_size(c, n);
            let above = if n % 2 == 0 {
                half
            } else {
                half + 1
            };
            &&& 0 <= group <= c
            &&& 0 <= group * (n - above)
            &&& 0 <= group * half
            &&& group * (n - above) + group * half <= c
            &&& n % 2 == 0 ==> half >= 1
        }),
{
    let half = n / 2;
    let group = flipped_group_size(c, n);
    let above = if n % 2 == 0 {
        half
    } else {
        half + 1
    };
    if n % 2 != 0 && c % n != 0 {
        assert(n >= 3);
        assert(n - above == half);
        assert(2 * half == n - 1);
        assert(0 <= c / (n - 1) <= c && (c / (n - 1)) * (n - 1) <= c) by (nonlinear_arith)
            requires
                n - 1 >= 1,
                c >= 0,
        ;
        assert(group * half + group * half == group * (n - 1)) by (nonlinear_arith)
            requires
                2 * half == n - 1,
        ;
        assert(0 <= group * half) by (nonlinear_arith)
            requires
                0 <= group,
                0 <= half,
        ;
    } else {
        assert(0 <= c / n <= c && (c / n) * n <= c) by (nonlinear_arith)
            requires
                n >= 1,
                c >= 0,
        ;
        assert(n - above == half);
        assert(group * half + group * half <= group * n) by (nonlinear_arith)
            requires
                2 * half <= n,
                0 <= group,
        ;
        assert(0 <= group * half) by (nonlinear_arith)
            requires
                0 <= group,
                0 <= half,
        ;
    }
}

/// Maps the channels to the notes with the ends mirrored against each other:
/// the plan for the channels, lowest first, and the notes that need a new
/// voice.
pub fn get_flipped_mapping(channels: &[Bender], target_notes: &[Note]) -> (r: (
    Vec<usize>,
    Vec<usize>,
))
    ensures
        indices(r.0@) == flipped_targets(channels.len() as int, target_notes.len() as int),
        indices(r.1@) == flipped_new_notes(channels.len() as int, target_notes.len() as int),
{
    let n_channels = channels.len();
    let n_target_notes = target_notes.len();
    let mut targets: Vec<usize> = Vec::new();
    let mut new_notes: Vec<usize> = Vec::new();
    assert(indices(targets@) =~= Seq::<int>::empty());
    assert(indices(new_notes@) =~= Seq::<int>::empty());
    if n_target_notes == 0 {
        return (targets, new_notes);
    }
    if n_channels < n_target_notes {
        let top: usize = (n_channels + 1) / 2;
        push_descending(&mut targets, n_target_notes - 1, top);
        if n_channels > top {
            push_descending(&mut targets, n_channels - 1 - top, n_channels - top);
        }
        push_ascending(&mut new_notes, n_channels / 2, n_target_notes - n_channels);
        assert(indices(targets@) =~= flipped_targets(n_channels as int, n_target_notes as int));
        assert(indices(new_notes@) =~= flipped_new_notes(
            n_channels as int,
            n_target_notes as int,
        ));
    } else if n_channels == n_target_notes {
        push_descending(&mut targets, n_target_notes - 1, n_target_notes);
        assert(indices(targets@) =~= flipped_targets(n_channels as int, n_target_notes as int));
    } else {
        let half: usize = n_target_notes / 2;
        let even: bool = n_target_notes % 2 == 0;
        let group_size: usize = if !even && n_channels % n_target_notes != 0 {
            n_channels / (n_target_notes - 1)
        } else {
            n_channels / n_target_notes
        };
        let above: usize = if even {
            half
        } else {
            half + 1
        };
        proof {
            lemma_flipped_groups_fit(n_channels as int, n_target_notes as int);
        }
        let n_outer: usize = group_size * (n_target_notes - above);
        let n_inner: usize = group_size * half;
        let n_mid: usize = n_channels - n_outer - n_inner;
        assert((n_target_notes - above) * group_size == group_size * (n_target_notes - above))
            by (nonlinear_arith);
        assert(half * group_size == group_size * half) by (nonlinear_arith);
        push_repeated(&mut targets, above, n_target_notes - above, group_size);
        if even {
            push_alternating(&mut targets, half - 1, n_mid);
        } else {
            assert(1 * n_mid == n_mid) by (nonlinear_arith);
            push_repeated(&mut targets, half, 1, n_mid);
        }
        push_repeated(&mut targets, 0, half, group_size);
        assert(indices(targets@) =~= flipped_targets(n_channels as int, n_target_notes as int));
    }
    (targets, new_notes)
}

/// How far two pitches are apart.
pub open spec fn distance(a: int, b: int) -> int {
    if a >= b {
        a - b
    } else {
        b - a
    }
}

/// The pitch of a note in 1/8192 of a semitone.
pub open spec fn note_pitch(note: Note) -> int {
    note.midi_number as int * 8192
}

/// The sounding pitch of each channel.
pub open spec fn channel_pitches(channels: Seq<Bender>) -> Seq<int> {
    channels.map_values(|b: Bender| b.pitch())
}

/// The place in `pool` of the note closest to `pitch`; of several equally
/// close ones, the first.
pub open spec fn closest_position(pitch: int, notes: Seq<Note>, pool: Seq<int>) -> int
    decreases pool.len(),
{
    if pool.len() <= 1 {
        0
    } else {
        let before = closest_position(pitch, notes, pool.drop_last());
        if distance(pitch, note_pitch(notes[pool[before]])) <= distance(
            pitch,
            note_pitch(notes[pool.last()]),
        ) {
            before
        } else {
            pool.len() - 1
        }
    }
}

/// The closest position is a place in the pool, no note of the pool is
/// closer, and every note before it is strictly further away.
pub proof fn lemma_closest_position(pitch: int, notes: Seq<Note>, pool: Seq<int>)
    requires
        pool.len() > 0,
    ensures
        0 <= closest_position(pitch, notes, pool) < pool.len(),
        forall|q: int|
            0 <= q < pool.len() ==> distance(
                pitch,
                note_pitch(notes[pool[closest_position(pitch, notes, pool)]]),
            ) <= distance(pitch, note_pitch(notes[#[trigger] pool[q]])),
        forall|q: int|
            0 <= q < closest_position(pitch, notes, pool) ==> distance(
                pitch,
                note_pitch(notes[pool[closest_position(pitch, notes, pool)]]),
            ) < distance(pitch, note_pitch(notes[#[trigger] pool[q]])),
    decreases pool.len(),
{
    if pool.len() > 1 {
        let shorter = pool.drop_last();
        lemma_closest_position(pitch, notes, shorter);
        let before = closest_position(pitch, notes, shorter);
        assert(forall|q: int| 0 <= q < shorter.len() ==> shorter[q] == pool[q]);
    }
}

/// The notes that the channels from `k` on take, each in turn the closest
/// note still in `pool`.
pub open spec fn greedy_targets(pitches: Seq<int>, notes: Seq<Note>, pool: Seq<int>, k: int) -> Seq<
    int,
>
    decreases pitches.len() - k,
{
    if k < 0 || k >= pitches.len() || pool.len() == 0 {
        Seq::empty()
    } else {
        let p = closest_position(pitches[k], notes, pool);
        seq![pool[p]] + greedy_targets(pitches, notes, pool.remove(p), k + 1)
    }
}

/// The notes still in the pool when the channels from `k` on have each taken one.
pub open spec fn greedy_leftover(pitches: Seq<int>, notes: Seq<Note>, pool: Seq<int>, k: int) -> Seq<
    int,
>
    decreases pitches.len() - k,
{
    if k < 0 || k >= pitches.len() || pool.len() == 0 {
        pool
    } else {
        let p = closest_position(pitches[k], notes, pool);
        greedy_leftover(pitches, notes, pool.remove(p), k + 1)
    }
}

/// The note of each channel, lowest channel first, when each channel goes to
/// a close note.
///
/// With no more channels than notes, the channels choose in turn, each the
/// closest note that is still free. With more channels, the channels are
/// dealt out evenly in ascending runs, and the first notes take the one
/// channel more where the division leaves a remainder.
pub open spec fn closest_targets(channels: Seq<Bender>, notes: Seq<Note>) -> Seq<int> {
    let c = channels.len() as int;
    let n = notes.len() as int;
    if n == 0 {
        Seq::empty()
    } else if c <= n {
        greedy_targets(channel_pitches(channels), notes, ascending(0, n), 0)
    } else {
        repeat_each(0, c % n, c / n + 1) + repeat_each(c % n, n - c % n, c / n)
    }
}

/// The notes that no channel takes when each channel goes to a close note,
/// in ascending order.
pub open spec fn closest_new_notes(channels: Seq<Bender>, notes: Seq<Note>) -> Seq<int> {
    if channels.len() <= notes.len() {
        greedy_leftover(channel_pitches(channels), notes, ascending(0, notes.len() as int), 0)
    } else {
        Seq::empty()
    }
}

/// How far `pitch` is from the pitch of `note`.
fn gap(pitch: i32, note: &Note) -> (d: i32)
    requires
        -0x4000_0000 <= pitch <= 0x4000_0000,
    ensures
        d == distance(pitch as int, note_pitch(*note)),
{
    let other: i32 = note.midi_number as i32 * 8192;
    if pitch >= other {
        pitch - other
    } else {
        other - pitch
    }
}

/// The place in `pool` of the note closest to `pitch`.
fn find_closest(pitch: i32, target_notes: &[Note], pool: &Vec<usize>) -> (best: usize)
    requires
        pool.len() > 0,
        forall|q: int| 0 <= q < pool.len() ==> pool[q] < target_notes.len(),
        -0x4000_0000 <= pitch <= 0x4000_0000,
    ensures
        best == closest_position(pitch as int, target_notes@, indices(pool@)),
        best < pool.len(),
{
    let ghost p = indices(pool@);
    let mut best: usize = 0;
    let mut best_distance: i32 = gap(pitch, &target_notes[pool[0]]);
    let mut q: usize = 1;
    assert(p.subrange(0, 1).len() == 1);
    while q < pool.len()
        invariant
            1 <= q <= pool.len(),
            p == indices(pool@),
            forall|i: int| 0 <= i < pool.len() ==> pool[i] < target_notes.len(),
            -0x4000_0000 <= pitch <= 0x4000_0000,
            best < q,
            best == closest_position(pitch as int, target_notes@, p.subrange(0, q as int)),
            best_distance == distance(pitch as int, note_pitch(target_notes@[p[best as int]])),
        decreases pool.len() - q,
    {
        let d: i32 = gap(pitch, &target_notes[pool[q]]);
        let ghost longer = p.subrange(0, q + 1);
        assert(longer.drop_last() =~= p.subrange(0, q as int));
        assert(longer.last() == p[q as int]);
        assert(longer[best as int] == p[best as int]);
        if !(best_distance <= d) {
            best = q;
            best_distance = d;
        }
        q += 1;
    }
    assert(p.subrange(0, pool.len() as int) =~= p);
    best
}

/// Dealing `c` channels out to `n` notes takes exactly `c` channels.
proof fn lemma_even_groups_fit(c: int, n: int)
    requires
        1 <= n <= c,
    ensures
        0 <= (c % n) * (c / n + 1) <= c,
        0 <= (n - c % n) * (c / n) <= c,
        (c % n) * (c / n + 1) + (n - c % n) * (c / n) == c,
        c % n > 0 ==> c / n + 1 <= c,
{
    let q = c / n;
    let r = c % n;
    assert(c == n * q + r && 0 <= r < n && 0 <= q) by (nonlinear_arith)
        requires
            q == c / n,
            r == c % n,
            1 <= n <= c,
    ;
    assert(r * (q + 1) + (n - r) * q == n * q + r) by (nonlinear_arith);
    assert(0 <= r * (q + 1)) by (nonlinear_arith)
        requires
            0 <= r,
            0 <= q,
    ;
    assert(0 <= (n - r) * q) by (nonlinear_arith)
        requires
            r < n,
            0 <= q,
    ;
    assert(r > 0 ==> q + 1 <= r * (q + 1)) by (nonlinear_arith)
        requires
            0 <= q,
    ;
}

/// Maps the channels to close notes: the plan for the channels, lowest first,
/// and the notes that need a new voice.
pub fn get_closest_mapping(channels: &[Bender], target_notes: &[Note]) -> (r: (
    Vec<usize>,
    Vec<usize>,
))
    ensures
        indices(r.0@) == closest_targets(channels@, target_notes@),
        indices(r.1@) == closest_new_notes(channels@, target_notes@),
{
    let n_channels = channels.len();
    let n_target_notes = target_notes.len();
    let mut targets: Vec<usize> = Vec::new();
    let mut pool: Vec<usize> = Vec::new();
    assert(indices(targets@) =~= Seq::<int>::empty());
    assert(indices(pool@) =~= Seq::<int>::empty());
    if n_target_notes == 0 {
        return (targets, pool);
    }
    if n_channels <= n_target_notes {
        push_ascending(&mut pool, 0, n_target_notes);
        let ghost pitches = channel_pitches(channels@);
        let ghost all = indices(pool@);
        assert(all =~= ascending(0, n_target_notes as int));
        assert(pool@.len() == all.len());
        assert forall|q: int| 0 <= q < pool.len() implies pool[q] < n_target_notes by {
            assert(all[q] == pool[q] as int);
        }
        let mut k: usize = 0;
        while k < n_channels
            invariant
                k <= n_channels,
                n_channels == channels.len(),
                n_channels <= n_target_notes,
                n_target_notes == target_notes.len(),
                pitches == channel_pitches(channels@),
                pool.len() == n_target_notes - k,
                forall|q: int| 0 <= q < pool.len() ==> pool[q] < n_target_notes,
                greedy_targets(pitches, target_notes@, all, 0) == indices(targets@)
                    + greedy_targets(pitches, target_notes@, indices(pool@), k as int),
                greedy_leftover(pitches, target_notes@, all, 0) == greedy_leftover(
                    pitches,
                    target_notes@,
                    indices(pool@),
                    k as int,
                ),
            decreases n_channels - k,
        {
            let pitch: i32 = channels[k].current_midi();
            let best: usize = find_closest(pitch, target_notes, &pool);
            let ghost old_pool = indices(pool@);
            let ghost old_targets = indices(targets@);
            let taken: usize = pool.remove(best);
            targets.push(taken);
            assert(indices(pool@) =~= old_pool.remove(best as int));
            assert(indices(targets@) =~= old_targets + seq![old_pool[best as int]]);
            assert(pitches[k as int] == pitch);
            k += 1;
        }
        (targets, pool)
    } else {
        let each: usize = n_channels / n_target_notes;
        let more: usize = n_channels % n_target_notes;
        proof {
            lemma_even_groups_fit(n_channels as int, n_target_notes as int);
        }
        if more > 0 {
            push_repeated(&mut targets, 0, more, each + 1);
        } else {
            assert(repeat_each(0, 0, each + 1) =~= Seq::<int>::empty());
        }
        push_repeated(&mut targets, more, n_target_notes - more, each);
        assert(indices(targets@) =~= closest_targets(channels@, target_notes@));
        (targets, pool)
    }
}

/// From a pool that is large enough, every channel from `k` on takes a note.
proof fn lemma_greedy_length(pitches: Seq<int>, notes: Seq<Note>, pool: Seq<int>, k: int)
    requires
        0 <= k <= pitches.len(),
        pool.len() >= pitches.len() - k,
    ensures
        greedy_targets(pitches, notes, pool, k).len() == pitches.len() - k,
    decreases pitches.len() - k,
{
    if k < pitches.len() {
        let p = closest_position(pitches[k], notes, pool);
        lemma_closest_position(pitches[k], notes, pool);
        lemma_greedy_length(pitches, notes, pool.remove(p), k + 1);
    }
}

/// Every note that the greedy choice takes is a note of the pool.
proof fn lemma_greedy_in_pool(
    pitches: Seq<int>,
    notes: Seq<Note>,
    pool: Seq<int>,
    k: int,
    i: int,
    bound: int,
)
    requires
        0 <= k,
        0 <= i < greedy_targets(pitches, notes, pool, k).len(),
        forall|q: int| 0 <= q < pool.len() ==> 0 <= #[trigger] pool[q] < bound,
    ensures
        0 <= greedy_targets(pitches, notes, pool, k)[i] < bound,
    decreases i,
{
    let p = closest_position(pitches[k], notes, pool);
    lemma_closest_position(pitches[k], notes, pool);
    let shorter = pool.remove(p);
    let rest = greedy_targets(pitches, notes, shorter, k + 1);
    assert(greedy_targets(pitches, notes, pool, k) == seq![pool[p]] + rest);
    if i > 0 {
        assert forall|q: int| 0 <= q < shorter.len() implies 0 <= #[trigger] shorter[q] < bound by {
            if q < p {
                assert(shorter[q] == pool[q]);
            } else {
                assert(shorter[q] == pool[q + 1]);
            }
        }
        assert(greedy_targets(pitches, notes, pool, k)[i] == rest[i - 1]);
        lemma_greedy_in_pool(pitches, notes, shorter, k + 1, i - 1, bound);
    }
}

/// The notes that the greedy choice leaves are notes of the pool.
proof fn lemma_greedy_leftover_range(
    pitches: Seq<int>,
    notes: Seq<Note>,
    pool: Seq<int>,
    k: int,
    bound: int,
)
    requires
        0 <= k,
        forall|q: int| 0 <= q < pool.len() ==> 0 <= #[trigger] pool[q] < bound,
    ensures
        ({
            let left = greedy_leftover(pitches, notes, pool, k);
            forall|q: int| 0 <= q < left.len() ==> 0 <= #[trigger] left[q] < bound
        }),
    decreases pitches.len() - k,
{
    if k < pitches.len() && pool.len() > 0 {
        let p = closest_position(pitches[k], notes, pool);
        lemma_closest_position(pitches[k], notes, pool);
        let shorter = pool.remove(p);
        assert forall|q: int| 0 <= q < shorter.len() implies 0 <= #[trigger] shorter[q] < bound by {
            if q < p {
                assert(shorter[q] == pool[q]);
            } else {
                assert(shorter[q] == pool[q + 1]);
            }
        }
        lemma_greedy_leftover_range(pitches, notes, shorter, k + 1, bound);
        assert(greedy_leftover(pitches, notes, pool, k) == greedy_leftover(
            pitches,
            notes,
            shorter,
            k + 1,
        ));
    } else {
        assert(greedy_leftover(pitches, notes, pool, k) == pool);
    }
}

/// The greedy choice, from any pool: the `i`-th channel after `k` takes a
/// note of the pool, and no note of the pool that the channels since `k`
/// left free is strictly closer to it.
proof fn lemma_greedy_takes_closest(
    pitches: Seq<int>,
    notes: Seq<Note>,
    pool: Seq<int>,
    k: int,
    i: int,
    j: int,
)
    requires
        0 <= k,
        0 <= i,
        k + i < pitches.len(),
        pool.len() >= pitches.len() - k,
        pool.contains(j),
        forall|q: int| 0 <= q < pool.len() ==> 0 <= #[trigger] pool[q] < notes.len(),
        forall|h: int| 0 <= h < i ==> greedy_targets(pitches, notes, pool, k)[h] != j,
    ensures
        greedy_targets(pitches, notes, pool, k).len() == pitches.len() - k,
        0 <= greedy_targets(pitches, notes, pool, k)[i] < notes.len(),
        distance(pitches[k + i], note_pitch(notes[greedy_targets(pitches, notes, pool, k)[i]]))
            <= distance(pitches[k + i], note_pitch(notes[j])),
    decreases i,
{
    lemma_greedy_length(pitches, notes, pool, k);
    let p = closest_position(pitches[k], notes, pool);
    lemma_closest_position(pitches[k], notes, pool);
    let plan = greedy_targets(pitches, notes, pool, k);
    let rest = greedy_targets(pitches, notes, pool.remove(p), k + 1);
    assert(plan == seq![pool[p]] + rest);
    let at = choose|q: int| 0 <= q < pool.len() && pool[q] == j;
    if i == 0 {
        assert(plan[0] == pool[p]);
        assert(pool[at] == j);
    } else {
        assert(plan[0] != j);
        assert(at != p);
        let shorter = pool.remove(p);
        if at < p {
            assert(shorter[at] == j);
        } else {
            assert(shorter[at - 1] == j);
        }
        assert(shorter.contains(j));
        assert forall|q: int| 0 <= q < shorter.len() implies 0 <= #[trigger] shorter[q]
            < notes.len() by {
            if q < p {
                assert(shorter[q] == pool[q]);
            } else {
                assert(shorter[q] == pool[q + 1]);
            }
        }
        assert forall|h: int| 0 <= h < i - 1 implies rest[h] != j by {
            assert(plan[h + 1] == rest[h]);
        }
        lemma_greedy_takes_closest(pitches, notes, shorter, k + 1, i - 1, j);
        assert(plan[i] == rest[i - 1]);
    }
}

/// The note indices `0 .. n` in ascending order.
pub open spec fn identity_order(n: nat) -> Seq<usize> {
    Seq::new(n, |k: int| k as usize)
}

/// Whether `order` holds each of the note indices `0 .. n` exactly once.
pub open spec fn is_order(order: Seq<usize>, n: nat) -> bool {
    &&& order.len() == n
    &&& order.to_multiset() == identity_order(n).to_multiset()
}

/// The note of each channel when the notes are handed out in the given
/// order: one after the other, and round again from the first where the
/// channels outnumber the notes.
pub open spec fn ordered_targets(order: Seq<usize>, n_channels: nat) -> Seq<usize> {
    if order.len() == 0 {
        Seq::empty()
    } else {
        Seq::new(n_channels, |k: int| order[k % (order.len() as int)])
    }
}

/// The notes of the order that no channel takes: those after the first `n_channels`.
pub open spec fn ordered_new_notes(order: Seq<usize>, n_channels: nat) -> Seq<usize> {
    if n_channels < order.len() {
        order.subrange(n_channels as int, order.len() as int)
    } else {
        Seq::empty()
    }
}

/// Every note of an order of `n` notes is one of the `n`.
proof fn lemma_order_in_range(order: Seq<usize>, n: nat, i: int)
    requires
        is_order(order, n),
        0 <= i < order.len(),
    ensures
        order[i] < n,
{
    let all = identity_order(n);
    assert(order.contains(order[i]));
    vstd::seq_lib::to_multiset_contains(order, order[i]);
    vstd::seq_lib::to_multiset_contains(all, order[i]);
    assert(all.contains(order[i]));
    let k = choose|k: int| 0 <= k < all.len() && all[k] == order[i];
    assert(all[k] == k as usize);
}

/// Hands the notes out to `n_channels` channels in the given order: the plan
/// for the channels and the notes that need a new voice.
pub fn assign_in_order(order: &Vec<usize>, n_channels: usize) -> (r: (Vec<usize>, Vec<usize>))
    ensures
        r.0@ == ordered_targets(order@, n_channels as nat),
        r.1@ == ordered_new_notes(order@, n_channels as nat),
{
    let n = order.len();
    let mut targets: Vec<usize> = Vec::new();
    let mut new_notes: Vec<usize> = Vec::new();
    if n == 0 {
        return (targets, new_notes);
    }
    let mut k: usize = 0;
    while k < n_channels
        invariant
            k <= n_channels,
            n == order.len(),
            n > 0,
            targets@ == ordered_targets(order@, k as nat),
        decreases n_channels - k,
    {
        targets.push(order[k % n]);
        k += 1;
        assert(targets@ =~= ordered_targets(order@, k as nat));
    }
    if n_channels < n {
        let mut j: usize = n_channels;
        while j < n
            invariant
                n_channels <= j <= n,
                n == order.len(),
                new_notes@ == order@.subrange(n_channels as int, j as int),
            decreases n - j,
        {
            new_notes.push(order[j]);
            j += 1;
            assert(new_notes@ =~= order@.subrange(n_channels as int, j as int));
        }
    }
    assert(new_notes@ =~= ordered_new_notes(order@, n_channels as nat));
    (targets, new_notes)
}

/// Maps the channels to the notes in a random order: the plan for the
/// channels and the notes that need a new voice. Whatever the order drawn,
/// the result is what [`assign_in_order`] makes of it.
pub fn get_random_mapping(channels: &[Bender], target_notes: &[Note]) -> (r: (
    Vec<usize>,
    Vec<usize>,
))
    ensures
        exists|order: Seq<usize>| #[trigger]
            is_order(order, target_notes.len() as nat) && r.0@ == ordered_targets(
                order,
                channels.len() as nat,
            ) && r.1@ == ordered_new_notes(order, channels.len() as nat),
{
    let n_channels = channels.len();
    let n_target_notes = target_notes.len();
    let mut target_indices: Vec<usize> = Vec::new();
    let mut k: usize = 0;
    while k < n_target_notes
        invariant
            k <= n_target_notes,
            target_indices@ == identity_order(k as nat),
        decreases n_target_notes - k,
    {
        target_indices.push(k);
        k += 1;
        assert(target_indices@ =~= identity_order(k as nat));
    }
    shuffle(&mut target_indices);
    let r = assign_in_order(&target_indices, n_channels);
    assert(is_order(target_indices@, target_notes.len() as nat) && r.0@ == ordered_targets(
        target_indices@,
        channels.len() as nat,
    ) && r.1@ == ordered_new_notes(target_indices@, channels.len() as nat));
    r
}

impl ChordMapper {
    /// Whether `targets` and `new_notes` are a mapping of the channels to
    /// the notes under this rule.
    ///
    /// Without notes nothing is mapped. Without channels every note is a new
    /// voice. To a chord of one note every channel glides. Otherwise the
    /// rule decides; the random rule allows what any order of the notes gives.
    pub open spec fn maps(
        self,
        channels: Seq<Bender>,
        notes: Seq<Note>,
        targets: Seq<usize>,
        new_notes: Seq<usize>,
    ) -> bool {
        let c = channels.len();
        let n = notes.len();
        if n == 0 {
            targets.len() == 0 && new_notes.len() == 0
        } else if c == 0 {
            targets.len() == 0 && indices(new_notes) == ascending(0, n as int)
        } else if n == 1 {
            indices(targets) == repeat_each(0, 1, c as int) && new_notes.len() == 0
        } else {
            match self.chord_map {
                ChordMap::Closest => {
                    &&& indices(targets) == closest_targets(channels, notes)
                    &&& indices(new_notes) == closest_new_notes(channels, notes)
                },
                ChordMap::Flipped => {
                    &&& indices(targets) == flipped_targets(c as int, n as int)
                    &&& indices(new_notes) == flipped_new_notes(c as int, n as int)
                },
                ChordMap::Random => exists|order: Seq<usize>| #[trigger]
                    is_order(order, n) && targets == ordered_targets(order, c) && new_notes
                        == ordered_new_notes(order, c),
            }
        }
    }

    /// Maps the channels, lowest first, to the notes of a chord: for each
    /// channel the note that it glides to, and the notes that need a voice
    /// of their own.
    pub fn get_mapping(self, channels: &[Bender], target_notes: &[Note]) -> (r: (
        Vec<usize>,
        Vec<usize>,
    ))
        ensures
            self.maps(channels@, target_notes@, r.0@, r.1@),
            target_notes@.len() > 0 ==> r.0@.len() == channels@.len(),
            forall|i: int| 0 <= i < r.0@.len() ==> #[trigger] r.0@[i] < target_notes@.len(),
            forall|i: int| 0 <= i < r.1@.len() ==> #[trigger] r.1@[i] < target_notes@.len(),
    {
        let r = if target_notes.len() == 0 {
            (Vec::new(), Vec::new())
        } else if channels.len() == 0 {
            let mut new_notes: Vec<usize> = Vec::new();
            assert(indices(new_notes@) =~= Seq::<int>::empty());
            push_ascending(&mut new_notes, 0, target_notes.len());
            (Vec::new(), new_notes)
        } else if target_notes.len() == 1 {
            let mut targets: Vec<usize> = Vec::new();
            assert(indices(targets@) =~= Seq::<int>::empty());
            assert(1 * channels.len() == channels.len()) by (nonlinear_arith);
            push_repeated(&mut targets, 0, 1, channels.len());
            (targets, Vec::new())
        } else {
            match self.chord_map {
                ChordMap::Random => get_random_mapping(channels, target_notes),
                ChordMap::Flipped => get_flipped_mapping(channels, target_notes),
                ChordMap::Closest => get_closest_mapping(channels, target_notes),
            }
        };
        proof {
            lemma_mapping_in_range(self, channels@, target_notes@, r.0@, r.1@);
        }
        r
    }
}

/// A mapping names notes of the chord only, and where the chord has notes
/// and there are channels, it names one for every channel.
pub proof fn lemma_mapping_in_range(
    mapper: ChordMapper,
    channels: Seq<Bender>,
    notes: Seq<Note>,
    targets: Seq<usize>,
    new_notes: Seq<usize>,
)
    requires
        mapper.maps(channels, notes, targets, new_notes),
    ensures
        notes.len() > 0 ==> targets.len() == channels.len(),
        notes.len() == 0 ==> targets.len() == 0,
        forall|i: int| 0 <= i < targets.len() ==> #[trigger] targets[i] < notes.len(),
        forall|i: int| 0 <= i < new_notes.len() ==> #[trigger] new_notes[i] < notes.len(),
{
    let c = channels.len() as int;
    let n = notes.len() as int;
    let t = indices(targets);
    let m = indices(new_notes);
    assert(t.len() == targets.len() && m.len() == new_notes.len());
    assert(forall|i: int| 0 <= i < targets.len() ==> t[i] == #[trigger] targets[i]);
    assert(forall|i: int| 0 <= i < new_notes.len() ==> m[i] == #[trigger] new_notes[i]);
    if n == 0 {
    } else if c == 0 {
    } else if n == 1 {
        assert(1 * c == c) by (nonlinear_arith);
        assert forall|i: int| 0 <= i < targets.len() implies #[trigger] targets[i] < notes.len() by {
            lemma_repeat_each_range(0, 1, c, i);
            assert(t[i] == targets[i]);
        }
    } else {
        match mapper.chord_map {
            ChordMap::Closest => {
                if c <= n {
                    let pitches = channel_pitches(channels);
                    let pool = ascending(0, n);
                    lemma_greedy_length(pitches, notes, pool, 0);
                    lemma_greedy_leftover_range(pitches, notes, pool, 0, n);
                    assert forall|i: int| 0 <= i < targets.len() implies #[trigger] targets[i]
                        < notes.len() by {
                        lemma_greedy_in_pool(pitches, notes, pool, 0, i, n);
                        assert(t[i] == targets[i]);
                    }
                    assert forall|i: int| 0 <= i < new_notes.len() implies #[trigger] new_notes[i]
                        < notes.len() by {
                        assert(m[i] == new_notes[i]);
                    }
                } else {
                    lemma_even_groups_fit(c, n);
                    let more = c % n;
                    let each = c / n;
                    let first = repeat_each(0, more, each + 1);
                    let second = repeat_each(more, n - more, each);
                    assert(first.len() == more * (each + 1));
                    assert(second.len() == (n - more) * each);
                    assert forall|i: int| 0 <= i < targets.len() implies #[trigger] targets[i]
                        < notes.len() by {
                        if i < first.len() {
                            lemma_repeat_each_range(0, more, each + 1, i);
                            assert(t[i] == first[i]);
                        } else {
                            lemma_repeat_each_range(more, n - more, each, i - first.len());
                            assert(t[i] == second[i - first.len()]);
                        }
                        assert(t[i] == targets[i]);
                    }
                }
            },
            ChordMap::Flipped => {
                if c < n {
                    assert forall|i: int| 0 <= i < targets.len() implies #[trigger] targets[i]
                        < notes.len() by {
                        assert(t[i] == targets[i]);
                    }
                    assert forall|i: int| 0 <= i < new_notes.len() implies #[trigger] new_notes[i]
                        < notes.len() by {
                        assert(m[i] == new_notes[i]);
                    }
                } else if c == n {
                    assert forall|i: int| 0 <= i < targets.len() implies #[trigger] targets[i]
                        < notes.len() by {
                        assert(t[i] == targets[i]);
                    }
                } else {
                    lemma_flipped_groups_fit(c, n);
                    let half = n / 2;
                    let group = flipped_group_size(c, n);
                    let above = if n % 2 == 0 {
                        half
                    } else {
                        half + 1
                    };
                    let n_mid = c - group * (n - above) - group * half;
                    let upper = repeat_each(above, n - above, group);
                    let lower = repeat_each(0, half, group);
                    let mid = if n % 2 == 0 {
                        alternating(half - 1, n_mid)
                    } else {
                        repeat_each(half, 1, n_mid)
                    };
                    assert((n - above) * group == group * (n - above)) by (nonlinear_arith);
                    assert(half * group == group * half) by (nonlinear_arith);
                    assert(1 * n_mid == n_mid) by (nonlinear_arith);
                    assert(upper.len() == group * (n - above));
                    assert(lower.len() == group * half);
                    assert(mid.len() == n_mid);
                    assert(t == upper + mid + lower);
                    assert forall|i: int| 0 <= i < targets.len() implies #[trigger] targets[i]
                        < notes.len() by {
                        if i < upper.len() {
                            lemma_repeat_each_range(above, n - above, group, i);
                            assert(t[i] == upper[i]);
                        } else if i < upper.len() + mid.len() {
                            let k = i - upper.len();
                            assert(t[i] == mid[k]);
                            if n % 2 != 0 {
                                lemma_repeat_each_range(half, 1, n_mid, k);
                            }
                        } else {
                            let k = i - upper.len() - mid.len();
                            lemma_repeat_each_range(0, half, group, k);
                            assert(t[i] == lower[k]);
                        }
                        assert(t[i] == targets[i]);
                    }
                }
            },
            ChordMap::Random => {
                let order = choose|order: Seq<usize>| #[trigger]
                    is_order(order, notes.len()) && targets == ordered_targets(
                        order,
                        channels.len(),
                    ) && new_notes == ordered_new_notes(order, channels.len());
                assert forall|i: int| 0 <= i < targets.len() implies #[trigger] targets[i]
                    < notes.len() by {
                    lemma_order_in_range(order, notes.len(), i % n);
                }
                assert forall|i: int| 0 <= i < new_notes.len() implies #[trigger] new_notes[i]
                    < notes.len() by {
                    lemma_order_in_range(order, notes.len(), c + i);
                }
            },
        }
    }
}

/// With as many channels as notes, the mirrored rule reverses the order:
/// channel `i` glides to note `n - 1 - i`.
pub proof fn lemma_flipped_reverses(
    mapper: ChordMapper,
    channels: Seq<Bender>,
    notes: Seq<Note>,
    targets: Seq<usize>,
    new_notes: Seq<usize>,
    i: int,
)
    requires
        mapper.chord_map == ChordMap::Flipped,
        channels.len() == notes.len(),
        mapper.maps(channels, notes, targets, new_notes),
        0 <= i < channels.len(),
    ensures
        targets.len() == notes.len(),
        targets[i] == notes.len() - 1 - i,
        new_notes.len() == 0,
{
    let n = notes.len() as int;
    assert(indices(targets).len() == targets.len());
    assert(indices(new_notes).len() == new_notes.len());
    if n == 1 {
        assert(1 * n == n) by (nonlinear_arith);
        assert(indices(targets)[i] == targets[i]);
    } else {
        assert(indices(targets)[i] == targets[i]);
    }
}

/// Among no more channels than notes, each channel in its turn takes a
/// closest free note: no note that the channels before it left free is
/// strictly closer to channel `k` than the note that it takes.
pub proof fn lemma_closest_is_greedy(channels: Seq<Bender>, notes: Seq<Note>, k: int, j: int)
    requires
        channels.len() <= notes.len(),
        0 <= k < channels.len(),
        0 <= j < notes.len(),
        forall|i: int| 0 <= i < k ==> closest_targets(channels, notes)[i] != j,
    ensures
        closest_targets(channels, notes).len() == channels.len(),
        0 <= closest_targets(channels, notes)[k] < notes.len(),
        distance(channels[k].pitch(), note_pitch(notes[closest_targets(channels, notes)[k]]))
            <= distance(channels[k].pitch(), note_pitch(notes[j])),
{
    let pitches = channel_pitches(channels);
    let pool = ascending(0, notes.len() as int);
    assert(pool[j] == j);
    assert(forall|q: int| 0 <= q < pool.len() ==> 0 <= #[trigger] pool[q] < notes.len());
    assert(closest_targets(channels, notes) == greedy_targets(pitches, notes, pool, 0));
    lemma_greedy_takes_closest(pitches, notes, pool, 0, k, j);
}

} // verus!
