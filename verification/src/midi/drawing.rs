//! The drawings of the glides, kept by the time at which each glide began.
use vstd::prelude::*;
use std::collections::BTreeMap;
use vstd::std_specs::iter::IteratorSpec;
use crate::midi::bender::RenderedBender;

verus! {

/// How long after a given time a glide may begin and still be kept.
pub const RENDER_WINDOW: u64 = 5000000000;

/// The drawings of the glides, by the time at which the glides began.
#[derive(Debug, Clone)]
pub struct RenderedBenders {
    pub map: BTreeMap<u64, Vec<RenderedBender>>,
}

/// The drawings that are kept for the glides that began at `start_time`,
/// in the order in which they came; none where there is no such glide.
pub open spec fn drawings_at(
    map: Map<u64, Vec<RenderedBender>>,
    start_time: u64,
) -> Seq<RenderedBender> {
    if map.contains_key(start_time) {
        map[start_time]@
    } else {
        Seq::empty()
    }
}

/// Those of the drawings whose glide began at `start_time`, in their order.
pub open spec fn begun_at(drawings: Seq<RenderedBender>, start_time: u64) -> Seq<RenderedBender>
    decreases drawings.len(),
{
    if drawings.len() == 0 {
        Seq::empty()
    } else if drawings.last().start_time == start_time {
        begun_at(drawings.drop_last(), start_time).push(drawings.last())
    } else {
        begun_at(drawings.drop_last(), start_time)
    }
}

impl RenderedBenders {
    /// No drawings.
    pub fn new() -> (r: RenderedBenders)
        ensures
            r.map@ == Map::<u64, Vec<RenderedBender>>::empty(),
    {
        RenderedBenders { map: BTreeMap::new() }
    }

    /// Keeps one more drawing, after the others of its start time.
    pub fn insert(&mut self, new_rb: RenderedBender)
        ensures
            forall|start_time: u64| #[trigger]
                drawings_at(final(self).map@, start_time) == if start_time == new_rb.start_time {
                    drawings_at(old(self).map@, start_time).push(new_rb)
                } else {
                    drawings_at(old(self).map@, start_time)
                },
    {
        broadcast use vstd::std_specs::btree::group_btree_axioms;

        let start_time = new_rb.start_time;
        let ghost before = self.map@;
        let mut benders: Vec<RenderedBender> = match self.map.remove(&start_time) {
            Some(kept) => kept,
            None => Vec::new(),
        };
        benders.push(new_rb);
        self.map.insert(start_time, benders);
        assert forall|time: u64| #[trigger]
            drawings_at(self.map@, time) == if time == start_time {
                drawings_at(before, time).push(new_rb)
            } else {
                drawings_at(before, time)
            } by {
            if time != start_time {
                assert(self.map@.contains_key(time) == before.contains_key(time));
            }
        }
    }

    /// Keeps the given drawings, each after the others of its start time,
    /// in the order in which they are given.
    pub fn append(&mut self, rbs: Vec<RenderedBender>)
        ensures
            forall|start_time: u64| #[trigger]
                drawings_at(final(self).map@, start_time) == drawings_at(
                    old(self).map@,
                    start_time,
                ) + begun_at(rbs@, start_time),
    {
        let mut rest = rbs;
        let ghost mut done: Seq<RenderedBender> = Seq::empty();
        assert forall|start_time: u64| #[trigger]
            drawings_at(self.map@, start_time) == drawings_at(self.map@, start_time) + begun_at(
                done,
                start_time,
            ) by {
            assert(drawings_at(self.map@, start_time) + begun_at(done, start_time)
                =~= drawings_at(self.map@, start_time));
        }
        while rest.len() > 0
            invariant
                done + rest@ == rbs@,
                forall|start_time: u64| #[trigger]
                    drawings_at(self.map@, start_time) == drawings_at(
                        old(self).map@,
                        start_time,
                    ) + begun_at(done, start_time),
            decreases rest.len(),
        {
            let ghost before = self.map@;
            let ghost earlier = done;
            let rb = rest.remove(0);
            self.insert(rb);
            proof {
                done = earlier.push(rb);
                assert(done + rest@ =~= rbs@);
                assert(done.drop_last() =~= earlier);
                assert forall|start_time: u64| #[trigger]
                    drawings_at(self.map@, start_time) == drawings_at(
                        old(self).map@,
                        start_time,
                    ) + begun_at(done, start_time) by {
                    let held = drawings_at(before, start_time);
                    assert(held == drawings_at(old(self).map@, start_time) + begun_at(
                        earlier,
                        start_time,
                    ));
                    if start_time == rb.start_time {
                        assert(held.push(rb) =~= drawings_at(old(self).map@, start_time)
                            + begun_at(done, start_time));
                    }
                }
            }
        }
        assert(done =~= rbs@);
    }

    /// Forgets the drawings of the glides that began later than
    /// [`RENDER_WINDOW`] after `start_time`.
    pub fn retain(&mut self, start_time: u64)
        ensures
            forall|time: u64| #[trigger]
                drawings_at(final(self).map@, time) == if time <= start_time + RENDER_WINDOW {
                    drawings_at(old(self).map@, time)
                } else {
                    Seq::empty()
                },
    {
        broadcast use vstd::std_specs::btree::group_btree_axioms;

        if start_time > u64::MAX - RENDER_WINDOW {
            return ;
        }
        let limit: u64 = start_time + RENDER_WINDOW;
        let ghost before = self.map@;
        let ghost keys = self.map.keys().remaining();
        let mut late: Vec<u64> = Vec::new();
        for key in it: self.map.keys()
            invariant
                it.seq() == keys,
                self.map@ == before,
                forall|i: int| 0 <= i < late@.len() ==> #[trigger] late@[i] > limit,
                forall|j: int|
                    0 <= j < it.index() && *(#[trigger] keys[j]) > limit ==> late@.contains(
                        *keys[j],
                    ),
        {
            if *key > limit {
                let ghost so_far = late@;
                late.push(*key);
                assert(late@[so_far.len() as int] == *key);
                assert forall|j: int|
                    0 <= j < it.index() + 1 && *(#[trigger] keys[j]) > limit implies late@.contains(
                    *keys[j],
                ) by {
                    if j < it.index() {
                        let at = choose|at: int| 0 <= at < so_far.len() && so_far[at] == *keys[j];
                        assert(late@[at] == *keys[j]);
                    }
                }
            }
        }
        assert forall|time: u64| before.contains_key(time) && time > limit implies late@.contains(
            time,
        ) by {
            assert(keys.unref().to_set().contains(time));
            let j = choose|j: int| 0 <= j < keys.unref().len() && keys.unref()[j] == time;
            assert(*keys[j] == time);
        }
        let mut i: usize = 0;
        while i < late.len()
            invariant
                i <= late.len(),
                forall|time: u64| #[trigger]
                    self.map@.contains_key(time) <==> before.contains_key(time)
                        && !late@.subrange(0, i as int).contains(time),
                forall|time: u64|
                    #[trigger] self.map@.contains_key(time) ==> self.map@[time] == before[time],
            decreases late.len() - i,
        {
            let key = late[i];
            let ghost removed = late@.subrange(0, i as int);
            let ghost more = late@.subrange(0, i + 1);
            self.map.remove(&key);
            proof {
                assert(more.drop_last() =~= removed);
                assert(more.last() == key);
                assert forall|time: u64| #[trigger]
                    self.map@.contains_key(time) <==> before.contains_key(time) && !more.contains(
                        time,
                    ) by {
                    if more.contains(time) {
                        let at = choose|at: int| 0 <= at < more.len() && more[at] == time;
                        if at < removed.len() {
                            assert(removed[at] == time);
                        }
                    }
                    if removed.contains(time) {
                        let at = choose|at: int| 0 <= at < removed.len() && removed[at] == time;
                        assert(more[at] == time);
                    }
                    if time == key {
                        assert(more[more.len() - 1] == time);
                    }
                }
            }
            i += 1;
        }
        assert(late@.subrange(0, late@.len() as int) =~= late@);
        assert forall|time: u64| #[trigger]
            drawings_at(self.map@, time) == if time <= limit {
                drawings_at(before, time)
            } else {
                Seq::<RenderedBender>::empty()
            } by {
            if time <= limit {
                if late@.contains(time) {
                    let at = choose|at: int| 0 <= at < late@.len() && late@[at] == time;
                    assert(late@[at] > limit);
                }
                assert(self.map@.contains_key(time) == before.contains_key(time));
            } else {
                assert(!self.map@.contains_key(time));
            }
        }
    }
}

impl Default for RenderedBenders {
    /// No drawings.
    fn default() -> (r: RenderedBenders)
        ensures
            r.map@ == Map::<u64, Vec<RenderedBender>>::empty(),
    {
        RenderedBenders::new()
    }
}

} // verus!
