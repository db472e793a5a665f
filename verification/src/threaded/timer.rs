//! A concrete schedule of delayed events over a millisecond clock that
//! the caller reads and passes in, so the scheduling logic itself is
//! deterministic.

use vstd::prelude::*;

use crate::engine::timer::ScheduledEvent;

verus! {

/// One armed event and the instant (in caller-clock milliseconds) at
/// which it becomes due.
#[derive(Clone, Debug, PartialEq)]
pub struct ScheduledItem {
    pub event: ScheduledEvent,
    pub fire_at_ms: u64,
}

/// The events of the items that are due at `now`, in arming order.
pub open spec fn due_of(items: Seq<ScheduledItem>, now: int) -> Seq<ScheduledEvent>
    decreases items.len(),
{
    if items.len() == 0 {
        Seq::empty()
    } else {
        due_of(items.drop_last(), now) + (if items.last().fire_at_ms <= now {
            seq![items.last().event]
        } else {
            Seq::empty()
        })
    }
}

/// The items not yet due at `now`, in arming order.
pub open spec fn pending_of(items: Seq<ScheduledItem>, now: int) -> Seq<ScheduledItem>
    decreases items.len(),
{
    if items.len() == 0 {
        Seq::empty()
    } else {
        pending_of(items.drop_last(), now) + (if items.last().fire_at_ms > now {
            seq![items.last()]
        } else {
            Seq::empty()
        })
    }
}

/// The least remaining delay among armed items, a due item counting as
/// zero.
pub open spec fn min_delay_of(items: Seq<ScheduledItem>, now: int) -> int
    decreases items.len(),
{
    if items.len() == 0 {
        0
    } else {
        let d: int = if items.last().fire_at_ms > now {
            items.last().fire_at_ms - now
        } else {
            0
        };
        if items.len() == 1 {
            d
        } else {
            let rest = min_delay_of(items.drop_last(), now);
            if d < rest {
                d
            } else {
                rest
            }
        }
    }
}

/// Every due event was one of the armed items.
pub proof fn lemma_due_of_are_events(items: Seq<ScheduledItem>, now: int)
    ensures
        forall|k: int|
            0 <= k < due_of(items, now).len() ==> exists|j: int|
                0 <= j < items.len() && (#[trigger] due_of(items, now)[k]) == items[j].event,
    decreases items.len(),
{
    if items.len() > 0 {
        lemma_due_of_are_events(items.drop_last(), now);
        assert forall|k: int|
            0 <= k < due_of(items, now).len() implies exists|j: int|
            0 <= j < items.len() && (#[trigger] due_of(items, now)[k]) == items[j].event by {
            let pre = due_of(items.drop_last(), now);
            if k < pre.len() {
                assert(due_of(items, now)[k] == pre[k]);
                let j = choose|j: int|
                    0 <= j < items.drop_last().len() && pre[k] == items.drop_last()[j].event;
                assert(items[j] == items.drop_last()[j]);
            } else {
                assert(due_of(items, now)[k] == items.last().event);
                assert(items[items.len() - 1] == items.last());
            }
        }
    }
}

/// Every still-armed item was one of the armed items.
pub proof fn lemma_pending_of_are_items(items: Seq<ScheduledItem>, now: int)
    ensures
        forall|k: int|
            0 <= k < pending_of(items, now).len() ==> exists|j: int|
                0 <= j < items.len() && (#[trigger] pending_of(items, now)[k]) == items[j],
    decreases items.len(),
{
    if items.len() > 0 {
        lemma_pending_of_are_items(items.drop_last(), now);
        assert forall|k: int|
            0 <= k < pending_of(items, now).len() implies exists|j: int|
            0 <= j < items.len() && (#[trigger] pending_of(items, now)[k]) == items[j] by {
            let pre = pending_of(items.drop_last(), now);
            if k < pre.len() {
                assert(pending_of(items, now)[k] == pre[k]);
                let j = choose|j: int|
                    0 <= j < items.drop_last().len() && pre[k] == items.drop_last()[j];
                assert(items[j] == items.drop_last()[j]);
            } else {
                assert(pending_of(items, now)[k] == items.last());
                assert(items[items.len() - 1] == items.last());
            }
        }
    }
}

/// A schedule of delayed events. The caller supplies the current instant
/// on every operation; this type never reads a clock.
#[derive(Clone, Debug, PartialEq)]
pub struct ThreadedTimer {
    pub scheduled_items: Vec<ScheduledItem>,
}

impl ThreadedTimer {
    pub fn new() -> (r: ThreadedTimer)
        ensures
            r.scheduled_items@ == Seq::<ScheduledItem>::empty(),
    {
        ThreadedTimer { scheduled_items: Vec::new() }
    }

    /// Arm `event` to fire no earlier than `now_ms + delay_ms`.
    pub fn schedule(&mut self, now_ms: u64, delay_ms: u64, event: ScheduledEvent)
        requires
            now_ms + delay_ms <= u64::MAX,
        ensures
            final(self).scheduled_items@ == old(self).scheduled_items@.push(
                ScheduledItem { event, fire_at_ms: (now_ms + delay_ms) as u64 },
            ),
    {
        self.scheduled_items.push(ScheduledItem { event, fire_at_ms: now_ms + delay_ms });
    }

    /// Remove and return every event due at `now_ms`, leaving the rest
    /// armed in order.
    pub fn pop_due_events(&mut self, now_ms: u64) -> (r: Vec<ScheduledEvent>)
        ensures
            r@ == due_of(old(self).scheduled_items@, now_ms as int),
            final(self).scheduled_items@ == pending_of(old(self).scheduled_items@, now_ms as int),
    {
        let ghost items = self.scheduled_items@;
        let total = self.scheduled_items.len();
        proof {
            assert(items.len() == total);
        }
        let mut due: Vec<ScheduledEvent> = Vec::new();
        let mut pending: Vec<ScheduledItem> = Vec::new();
        let mut processed: usize = 0;
        while self.scheduled_items.len() > 0
            invariant
                items.len() <= usize::MAX,
                processed + self.scheduled_items@.len() == items.len(),
                self.scheduled_items@ == items.skip(processed as int),
                due@ == due_of(items.take(processed as int), now_ms as int),
                pending@ == pending_of(items.take(processed as int), now_ms as int),
            decreases self.scheduled_items@.len(),
        {
            let item = self.scheduled_items.remove(0);
            proof {
                assert(item == items[processed as int]);
                assert(items.take(processed + 1).drop_last() =~= items.take(processed as int));
                assert(items.take(processed + 1).last() == items[processed as int]);
            }
            if item.fire_at_ms <= now_ms {
                due.push(item.event);
            } else {
                pending.push(item);
            }
            proof {
                assert(due@ =~= due_of(items.take(processed + 1), now_ms as int));
                assert(pending@ =~= pending_of(items.take(processed + 1), now_ms as int));
                assert(items.skip(processed as int).remove(0) =~= items.skip(processed + 1));
            }
            processed = processed + 1;
        }
        proof {
            assert(items.take(items.len() as int) =~= items);
        }
        self.scheduled_items = pending;
        due
    }

    /// The least remaining delay across armed events, or none if the
    /// schedule is empty; used to size a receive timeout.
    pub fn time_until_next_event(&self, now_ms: u64) -> (r: Option<u64>)
        ensures
            ({
                let items = self.scheduled_items@;
                if items.len() == 0 {
                    r == None::<u64>
                } else {
                    r == Some(min_delay_of(items, now_ms as int) as u64)
                }
            }),
    {
        let ghost items = self.scheduled_items@;
        if self.scheduled_items.len() == 0 {
            return None;
        }
        let first_fire = self.scheduled_items[0].fire_at_ms;
        let mut best: u64 = if first_fire > now_ms {
            first_fire - now_ms
        } else {
            0
        };
        proof {
            assert(items.take(1).last() == items[0]);
            assert(items.take(1).len() == 1);
        }
        let mut i: usize = 1;
        while i < self.scheduled_items.len()
            invariant
                1 <= i <= items.len(),
                self.scheduled_items@ == items,
                items.len() > 0,
                best as int == min_delay_of(items.take(i as int), now_ms as int),
            decreases items.len() - i,
        {
            let fire = self.scheduled_items[i].fire_at_ms;
            let d: u64 = if fire > now_ms {
                fire - now_ms
            } else {
                0
            };
            proof {
                assert(items.take(i + 1).drop_last() =~= items.take(i as int));
                assert(items.take(i + 1).last() == items[i as int]);
            }
            if d < best {
                best = d;
            }
            i = i + 1;
        }
        proof {
            assert(items.take(items.len() as int) =~= items);
        }
        Some(best)
    }
}

} // verus!
