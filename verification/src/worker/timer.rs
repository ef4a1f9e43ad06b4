//! The timer: a queue of values, each with the time at which it is due.
//! The queue is kept in the order of the deadlines; values with the same
//! deadline come in the order in which they were scheduled.

use vstd::prelude::*;

verus! {

/// The handle of a scheduled value: its deadline in milliseconds and the
/// number that tells it from others with the same deadline.
///
/// Its view is the pair of the two.
#[derive(Copy, Clone, Debug, PartialEq, Eq, PartialOrd, Ord, Hash, Structural)]
pub struct Timeout {
    deadline: u64,
    id: u64,
}

impl View for Timeout {
    type V = (u64, u64);

    closed spec fn view(&self) -> (u64, u64) {
        (self.deadline, self.id)
    }
}

impl Timeout {
    /// A handle is its deadline and number.
    pub proof fn lemma_view_determines(a: Timeout, b: Timeout)
        requires
            a@ == b@,
        ensures
            a == b,
    {
    }

    /// The deadline in milliseconds.
    pub fn deadline(&self) -> (deadline: u64)
        ensures
            deadline == self@.0,
    {
        self.deadline
    }
}

/// Whether the key `a` comes before the key `b` or is the same: by
/// deadline first, by number second.
pub open spec fn key_le(a: (u64, u64), b: (u64, u64)) -> bool {
    a.0 < b.0 || (a.0 == b.0 && a.1 <= b.1)
}

/// Whether a queue is in the order of its keys.
pub open spec fn sorted<T>(queue: Seq<((u64, u64), T)>) -> bool {
    forall|i: int, j: int|
        0 <= i <= j < queue.len() ==> key_le((#[trigger] queue[i]).0, (#[trigger] queue[j]).0)
}

/// Index of the first entry of `queue` from `from` on whose key comes
/// after `key`: where a new entry with `key` goes. The length of the queue
/// if there is none.
pub open spec fn insert_position<T>(queue: Seq<((u64, u64), T)>, key: (u64, u64), from: int) -> int
    decreases queue.len() - from,
{
    if from < 0 || from >= queue.len() {
        queue.len() as int
    } else if !key_le(queue[from].0, key) {
        from
    } else {
        insert_position(queue, key, from + 1)
    }
}

/// Index of the first entry of `queue` from `from` on that has `key`, or
/// the length of the queue if none has.
pub open spec fn position_of<T>(queue: Seq<((u64, u64), T)>, key: (u64, u64), from: int) -> int
    decreases queue.len() - from,
{
    if from < 0 || from >= queue.len() {
        queue.len() as int
    } else if queue[from].0 == key {
        from
    } else {
        position_of(queue, key, from + 1)
    }
}

/// What a timer is, as a value: the queue of keys and values, and the
/// number that the next scheduled value gets.
pub struct TimerView<T> {
    pub queue: Seq<((u64, u64), T)>,
    pub next_id: u64,
}

/// The number after `id`, which is 0 after the largest.
pub open spec fn following(id: u64) -> u64 {
    if id == u64::MAX {
        0
    } else {
        (id + 1) as u64
    }
}

/// The timer with `value` scheduled at `deadline`: the value gets the next
/// number and goes behind all values that are due no later.
pub open spec fn scheduled<T>(v: TimerView<T>, deadline: u64, value: T) -> TimerView<T> {
    let key = (deadline, v.next_id);
    TimerView {
        queue: v.queue.insert(insert_position(v.queue, key, 0), (key, value)),
        next_id: following(v.next_id),
    }
}

/// The timer without the first entry that has `key`.
pub open spec fn cancelled<T>(v: TimerView<T>, key: (u64, u64)) -> TimerView<T> {
    let at = position_of(v.queue, key, 0);
    if at < v.queue.len() {
        TimerView { queue: v.queue.remove(at), ..v }
    } else {
        v
    }
}

/// The timer without the entry that is due first.
pub open spec fn popped<T>(v: TimerView<T>) -> TimerView<T> {
    TimerView { queue: v.queue.skip(1), ..v }
}

/// Where a new entry goes lies within the queue or at its end; all before
/// it are due no later, and the entry there is due later.
pub proof fn lemma_insert_position<T>(queue: Seq<((u64, u64), T)>, key: (u64, u64), from: int)
    requires
        0 <= from <= queue.len(),
    ensures
        from <= insert_position(queue, key, from) <= queue.len(),
        forall|i: int|
            from <= i < insert_position(queue, key, from) ==> key_le((#[trigger] queue[i]).0, key),
        insert_position(queue, key, from) < queue.len() ==> !key_le(
            queue[insert_position(queue, key, from)].0,
            key,
        ),
    decreases queue.len() - from,
{
    if from < queue.len() && key_le(queue[from].0, key) {
        lemma_insert_position(queue, key, from + 1);
    }
}

/// Scheduling keeps a queue in order.
pub proof fn lemma_scheduled_sorted<T>(v: TimerView<T>, deadline: u64, value: T)
    requires
        sorted(v.queue),
    ensures
        sorted(scheduled(v, deadline, value).queue),
        scheduled(v, deadline, value).queue.len() == v.queue.len() + 1,
{
    let key = (deadline, v.next_id);
    let at = insert_position(v.queue, key, 0);
    let after = scheduled(v, deadline, value).queue;
    lemma_insert_position(v.queue, key, 0);
    assert forall|i: int, j: int| 0 <= i <= j < after.len() implies key_le(
        (#[trigger] after[i]).0,
        (#[trigger] after[j]).0,
    ) by {
        let a = if i < at {
            v.queue[i]
        } else if i == at {
            (key, value)
        } else {
            v.queue[i - 1]
        };
        let b = if j < at {
            v.queue[j]
        } else if j == at {
            (key, value)
        } else {
            v.queue[j - 1]
        };
        assert(after[i] == a);
        assert(after[j] == b);
        if i < at && j > at {
            assert(key_le(v.queue[i].0, v.queue[j - 1].0));
        }
        if i == at && j > at {
            if at < j - 1 {
                assert(key_le(v.queue[at].0, v.queue[j - 1].0));
            }
        }
        if i > at && j > at {
            assert(key_le(v.queue[i - 1].0, v.queue[j - 1].0));
        }
    }
}

/// Where an entry with a key is found lies within the queue or at its end;
/// the entry there has the key and none before it has.
pub proof fn lemma_position_of<T>(queue: Seq<((u64, u64), T)>, key: (u64, u64), from: int)
    requires
        0 <= from <= queue.len(),
    ensures
        from <= position_of(queue, key, from) <= queue.len(),
        forall|i: int| from <= i < position_of(queue, key, from) ==> (#[trigger] queue[i]).0 != key,
        position_of(queue, key, from) < queue.len() ==> queue[position_of(queue, key, from)].0
            == key,
    decreases queue.len() - from,
{
    if from < queue.len() && queue[from].0 != key {
        lemma_position_of(queue, key, from + 1);
    }
}

/// A queue of values, each with the time at which it is due.
#[derive(Debug)]
pub struct Timer<T> {
    next_id: u64,
    queue: Vec<(Timeout, T)>,
}

impl<T> View for Timer<T> {
    type V = TimerView<T>;

    closed spec fn view(&self) -> TimerView<T> {
        TimerView {
            queue: Seq::new(self.queue@.len(), |i: int| (self.queue@[i].0@, self.queue@[i].1)),
            next_id: self.next_id,
        }
    }
}

impl<T> Timer<T> {
    /// Whether the timer meets its invariant: the queue is in order.
    pub open spec fn wf(&self) -> bool {
        sorted(self@.queue)
    }

    /// A timer with nothing scheduled.
    pub fn new() -> (timer: Timer<T>)
        ensures
            timer.wf(),
            timer@.queue.len() == 0,
            timer@.next_id == 0,
    {
        Timer { next_id: 0, queue: Vec::new() }
    }

    /// Whether nothing is scheduled.
    pub fn is_empty(&self) -> (r: bool)
        ensures
            r == (self@.queue.len() == 0),
    {
        self.queue.len() == 0
    }

    /// Schedules `value` to be due `delay` milliseconds after `now`, or at
    /// the end of time if that is sooner.
    pub fn schedule_in(&mut self, delay: u64, value: T, now: u64) -> (timeout: Timeout)
        requires
            old(self).wf(),
        ensures
            final(self).wf(),
            final(self)@ == scheduled(
                old(self)@,
                if now + delay > u64::MAX {
                    u64::MAX
                } else {
                    (now + delay) as u64
                },
                value,
            ),
            timeout@ == (
                if now + delay > u64::MAX {
                    u64::MAX
                } else {
                    (now + delay) as u64
                },
                old(self)@.next_id,
            ),
    {
        let deadline: u64 = if delay > u64::MAX - now {
            u64::MAX
        } else {
            now + delay
        };
        self.schedule_at(deadline, value)
    }

    /// Schedules `value` to be due at `deadline`.
    pub fn schedule_at(&mut self, deadline: u64, value: T) -> (timeout: Timeout)
        requires
            old(self).wf(),
        ensures
            final(self).wf(),
            final(self)@ == scheduled(old(self)@, deadline, value),
            timeout@ == (deadline, old(self)@.next_id),
    {
        let id = self.next_id();
        let key = Timeout { deadline, id };
        let ghost before = self@.queue;
        let mut at: usize = 0;
        while at < self.queue.len() && (self.queue[at].0.deadline < deadline || (
        self.queue[at].0.deadline == deadline && self.queue[at].0.id <= id))
            invariant
                at <= self.queue@.len(),
                self@.queue == before,
                key@ == (deadline, id),
                insert_position(before, key@, 0) == insert_position(before, key@, at as int),
            decreases self.queue@.len() - at,
        {
            assert(key_le(before[at as int].0, key@));
            at += 1;
        }
        proof {
            if at < self.queue@.len() {
                assert(!key_le(before[at as int].0, key@));
            }
            lemma_scheduled_sorted(
                TimerView { queue: before, next_id: id },
                deadline,
                value,
            );
        }
        self.queue.insert(at, (key, value));
        assert(self@.queue =~= before.insert(at as int, (key@, value)));
        key
    }

    /// Takes the value with the given handle out of the queue. Returns
    /// whether there was one.
    pub fn cancel(&mut self, timeout: Timeout) -> (found: bool)
        requires
            old(self).wf(),
        ensures
            final(self).wf(),
            final(self)@ == cancelled(old(self)@, timeout@),
            found == (position_of(old(self)@.queue, timeout@, 0) < old(self)@.queue.len()),
    {
        let ghost before = self@.queue;
        let mut at: usize = 0;
        while at < self.queue.len() && !(self.queue[at].0.deadline == timeout.deadline
            && self.queue[at].0.id == timeout.id)
            invariant
                at <= self.queue@.len(),
                self@.queue == before,
                position_of(before, timeout@, 0) == position_of(before, timeout@, at as int),
            decreases self.queue@.len() - at,
        {
            assert(before[at as int].0 != timeout@);
            at += 1;
        }
        if at < self.queue.len() {
            assert(before[at as int].0 == timeout@);
            self.queue.remove(at);
            proof {
                let after = self@.queue;
                assert(after =~= before.remove(at as int));
                assert forall|i: int, j: int| 0 <= i <= j < after.len() implies key_le(
                    (#[trigger] after[i]).0,
                    (#[trigger] after[j]).0,
                ) by {
                    let a = if i < at {
                        i
                    } else {
                        i + 1
                    };
                    let b = if j < at {
                        j
                    } else {
                        j + 1
                    };
                    assert(after[i] == before[a]);
                    assert(after[j] == before[b]);
                    assert(key_le(before[a].0, before[b].0));
                }
            }
            true
        } else {
            false
        }
    }

    /// The deadline of the value that is due first, if any is scheduled.
    pub fn next_deadline(&self) -> (deadline: Option<u64>)
        ensures
            deadline == if self@.queue.len() > 0 {
                Some(self@.queue[0].0.0)
            } else {
                None
            },
    {
        if self.queue.len() > 0 {
            Some(self.queue[0].0.deadline)
        } else {
            None
        }
    }

    /// Takes the value that is due first out of the queue if it is due at
    /// `now`. None if nothing is due.
    pub fn pop_expired(&mut self, now: u64) -> (value: Option<T>)
        requires
            old(self).wf(),
        ensures
            final(self).wf(),
            match value {
                Some(v) => {
                    &&& old(self)@.queue.len() > 0
                    &&& old(self)@.queue[0].0.0 <= now
                    &&& v == old(self)@.queue[0].1
                    &&& final(self)@ == popped(old(self)@)
                },
                None => {
                    &&& final(self)@ == old(self)@
                    &&& (old(self)@.queue.len() == 0 || old(self)@.queue[0].0.0 > now)
                },
            },
    {
        if self.queue.len() > 0 && self.queue[0].0.deadline <= now {
            let ghost before = self@.queue;
            let (_, value) = self.queue.remove(0);
            proof {
                let after = self@.queue;
                assert(after =~= before.skip(1));
                assert forall|i: int, j: int| 0 <= i <= j < after.len() implies key_le(
                    (#[trigger] after[i]).0,
                    (#[trigger] after[j]).0,
                ) by {
                    assert(after[i] == before[i + 1]);
                    assert(after[j] == before[j + 1]);
                    assert(key_le(before[i + 1].0, before[j + 1].0));
                }
            }
            Some(value)
        } else {
            None
        }
    }

    /// Hands out the next number and moves on to the one after it.
    fn next_id(&mut self) -> (id: u64)
        ensures
            id == old(self).next_id,
            final(self).next_id == following(old(self).next_id),
            final(self).queue == old(self).queue,
    {
        let id = self.next_id;
        self.next_id = if id == u64::MAX {
            0
        } else {
            id + 1
        };
        id
    }
}

} // verus!
