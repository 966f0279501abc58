//! Waiting for a burst of changes to calm down.
use vstd::prelude::*;

verus! {

/// The longest wait for a burst to calm down, in milliseconds.
pub const MAX_COALESCE: u64 = 10_000;

/// The wait before a failed sync is tried again, in milliseconds.
pub const SYNC_ERROR_BACKOFF: u64 = 5_000;

/// Why a wait ended.
#[derive(Debug, Clone, Copy, PartialEq, Eq, Structural)]
pub enum BurstWait {
    /// It has been quiet, or the longest wait is over: sync.
    Ready,
    /// No more changes will be reported.
    ChannelClosed,
    /// The wait was called off.
    Aborted,
}

/// What a filesystem event is about.
#[derive(Debug, Clone, Copy, PartialEq, Eq, Structural)]
pub enum EventClass {
    /// Something was read.
    Access,
    /// Something was created.
    Create,
    /// Something was changed.
    Modify,
    /// Something was removed.
    Remove,
    /// Anything else.
    Other,
}

/// Whether an event calls for a sync.
pub open spec fn syncworthy(class: EventClass) -> bool {
    class != EventClass::Access
}

/// Whether an event calls for a sync: everything but pure reads does.
pub fn event_is_syncworthy(class: EventClass) -> (r: bool)
    ensures
        r == syncworthy(class),
        r == (class != EventClass::Access),
{
    match class {
        EventClass::Access => false,
        _ => true,
    }
}

/// What happens during a wait.
#[derive(Debug, Clone, Copy, PartialEq, Eq, Structural)]
pub enum WaitEvent {
    /// A change was reported.
    Change,
    /// No more changes will be reported.
    Closed,
    /// The wait is called off.
    Abort,
    /// Time has passed.
    Tick,
}

/// The state of a wait.
pub struct DebounceV {
    /// When the first change came and when the last one did; `None` before any.
    pub burst: Option<(int, int)>,
    /// The quiet time that ends the wait.
    pub delay: int,
}

impl DebounceV {
    /// When the wait ends if nothing more happens: once it has been quiet since
    /// the last change, but no later than the longest wait from the first one.
    /// Without a change it does not end.
    pub open spec fn deadline(self) -> Option<int> {
        match self.burst {
            None => None,
            Some((first, last)) => Some(
                if last + self.delay < first + MAX_COALESCE {
                    last + self.delay
                } else {
                    first + MAX_COALESCE
                },
            ),
        }
    }

    /// How long nothing may happen before the wait ends, as far as a number of
    /// 64 bits can tell.
    pub open spec fn left(self, now: int) -> Option<int> {
        match self.deadline() {
            None => None,
            Some(end) => Some(
                if now >= end {
                    0
                } else if end - now > u64::MAX {
                    u64::MAX as int
                } else {
                    end - now
                },
            ),
        }
    }

    /// Whether the wait is over at a time.
    pub open spec fn over(self, now: int) -> bool {
        self.deadline() matches Some(end) && now >= end
    }

    /// What an event at a time does: how the wait ends, or how it goes on.
    pub open spec fn on(self, event: WaitEvent, now: int) -> Result<BurstWait, DebounceV> {
        match event {
            WaitEvent::Closed => Ok(BurstWait::ChannelClosed),
            WaitEvent::Abort => Ok(BurstWait::Aborted),
            _ => if self.over(now) {
                Ok(BurstWait::Ready)
            } else if event == WaitEvent::Change {
                Err(
                    DebounceV {
                        burst: match self.burst {
                            None => Some((now, now)),
                            Some((first, _)) => Some((first, now)),
                        },
                        ..self
                    },
                )
            } else {
                Err(self)
            },
        }
    }

    /// What a sequence of events does, up to the one that ends the wait.
    pub open spec fn after(self, events: Seq<(WaitEvent, int)>) -> Result<BurstWait, DebounceV>
        decreases events.len(),
    {
        if events.len() == 0 {
            Err(self)
        } else {
            match self.after(events.drop_last()) {
                Ok(end) => Ok(end),
                Err(next) => next.on(events.last().0, events.last().1),
            }
        }
    }
}

/// A wait for a burst of changes to calm down. Times are in milliseconds on
/// any clock that does not run backwards.
#[derive(Debug, Clone, Copy)]
pub struct Debounce {
    burst: Option<(u64, u64)>,
    delay: u64,
}

impl View for Debounce {
    type V = DebounceV;

    closed spec fn view(&self) -> DebounceV {
        DebounceV {
            burst: match self.burst {
                Some((first, last)) => Some((first as int, last as int)),
                None => None,
            },
            delay: self.delay as int,
        }
    }
}

impl Debounce {
    /// A wait for the first change, and for the burst that it opens.
    pub fn new(delay: u64) -> (r: Debounce)
        ensures
            r@ == (DebounceV { burst: None, delay: delay as int }),
    {
        Debounce { burst: None, delay }
    }

    /// When the wait ends if nothing more happens.
    fn end(&self) -> (r: Option<u128>)
        ensures
            match r {
                Some(end) => self@.deadline() == Some(end as int),
                None => self@.deadline() is None,
            },
    {
        match self.burst {
            None => None,
            Some((first, last)) => {
                let quiet_end: u128 = last as u128 + self.delay as u128;
                let cap: u128 = first as u128 + MAX_COALESCE as u128;
                if quiet_end < cap {
                    Some(quiet_end)
                } else {
                    Some(cap)
                }
            },
        }
    }

    /// How long nothing may happen before the wait ends; `None` while it waits
    /// for the first change.
    pub fn remaining(&self, now: u64) -> (ms: Option<u64>)
        ensures
            match ms {
                Some(n) => self@.left(now as int) == Some(n as int),
                None => self@.left(now as int) is None,
            },
            match self@.deadline() {
                None => ms is None,
                Some(end) => ms == Some(
                    if now >= end {
                        0u64
                    } else if end - now > u64::MAX {
                        u64::MAX
                    } else {
                        (end - now) as u64
                    },
                ),
            },
    {
        match self.end() {
            None => None,
            Some(end) => if now as u128 >= end {
                Some(0)
            } else {
                let left: u128 = end - now as u128;
                if left > u64::MAX as u128 {
                    Some(u64::MAX)
                } else {
                    Some(left as u64)
                }
            },
        }
    }

    /// Decide what an event does: `Some` ends the wait. The first change opens
    /// the quiet time, further ones restart it, but never the longest wait.
    pub fn wait_debounce(&mut self, event: WaitEvent, now: u64) -> (r: Option<BurstWait>)
        ensures
            match old(self)@.on(event, now as int) {
                Ok(end) => r == Some(end) && final(self)@ == old(self)@,
                Err(next) => r is None && final(self)@ == next,
            },
    {
        match event {
            WaitEvent::Closed => {
                return Some(BurstWait::ChannelClosed);
            },
            WaitEvent::Abort => {
                return Some(BurstWait::Aborted);
            },
            _ => {},
        }
        match self.end() {
            Some(end) => {
                if now as u128 >= end {
                    return Some(BurstWait::Ready);
                }
            },
            None => {},
        }
        match event {
            WaitEvent::Change => {
                self.burst = match self.burst {
                    None => Some((now, now)),
                    Some((first, _)) => Some((first, now)),
                };
            },
            _ => {},
        }
        None
    }
}

/// What a serving side does after a wait.
#[derive(Debug, Clone, Copy, PartialEq, Eq, Structural)]
pub enum WatchWait {
    /// Something changed: run the next cycle.
    Changed,
    /// The session is over.
    Disconnected,
}

/// What a serving side does after a wait.
pub open spec fn woken(dirty: bool, waited: BurstWait) -> WatchWait {
    if dirty || waited == BurstWait::Ready {
        WatchWait::Changed
    } else {
        WatchWait::Disconnected
    }
}

/// Decide what a serving side does: changes that came in meanwhile need no
/// wait.
pub fn wait_for_changes(dirty: bool, waited: BurstWait) -> (r: WatchWait)
    ensures
        r == woken(dirty, waited),
        r == if dirty || waited == BurstWait::Ready {
            WatchWait::Changed
        } else {
            WatchWait::Disconnected
        },
{
    if dirty {
        return WatchWait::Changed;
    }
    match waited {
        BurstWait::Ready => WatchWait::Changed,
        BurstWait::ChannelClosed | BurstWait::Aborted => WatchWait::Disconnected,
    }
}

/// However many changes come in, the wait ends when the longest wait is over.
pub proof fn law_waits_are_capped(w: DebounceV, event: WaitEvent, now: int)
    requires
        w.burst matches Some((first, _)) && now >= first + MAX_COALESCE,
    ensures
        w.on(event, now) is Ok,
        w.on(event, now) matches Ok(end) ==> event == WaitEvent::Tick || event == WaitEvent::Change
            ==> end == BurstWait::Ready,
{
}

/// A change before the wait is over restarts the quiet time; the cap counts
/// from the first change.
pub proof fn law_changes_restart_the_quiet_time(w: DebounceV, now: int)
    requires
        !w.over(now),
    ensures
        w.on(WaitEvent::Change, now) matches Err(next) && next.delay == w.delay && next.burst
            == Some(
            (
                match w.burst {
                    Some((first, _)) => first,
                    None => now,
                },
                now,
            ),
        ),
{
}

/// A sync follows a change: a wait during which none came in never ends with
/// one, however long it takes.
pub proof fn law_no_sync_without_a_change(delay: u64, events: Seq<(WaitEvent, int)>)
    requires
        forall|i: int| 0 <= i < events.len() ==> (#[trigger] events[i]).0 != WaitEvent::Change,
    ensures
        (DebounceV { burst: None, delay: delay as int }).after(events) != Ok::<
            BurstWait,
            DebounceV,
        >(BurstWait::Ready),
        (DebounceV { burst: None, delay: delay as int }).after(events) matches Err(next)
            ==> next.burst is None,
    decreases events.len(),
{
    if events.len() > 0 {
        let front = events.drop_last();
        assert forall|i: int| 0 <= i < front.len() implies (#[trigger] front[i]).0
            != WaitEvent::Change by {
            assert(front[i] == events[i]);
        }
        law_no_sync_without_a_change(delay, front);
        assert(events[events.len() - 1].0 != WaitEvent::Change);
    }
}

/// Only a pure read calls for no sync.
pub proof fn law_every_change_calls_for_a_sync(class: EventClass)
    ensures
        syncworthy(class) || class == EventClass::Access,
        !syncworthy(EventClass::Access),
        syncworthy(EventClass::Create) && syncworthy(EventClass::Modify) && syncworthy(
            EventClass::Remove,
        ) && syncworthy(EventClass::Other),
{
}

/// A wait is over as soon as it has been quiet for the delay since the last
/// change, or for ten seconds since the first one, and not before; without a
/// change it is never over.
pub proof fn law_waits_end_when_it_is_quiet(w: DebounceV, now: int)
    ensures
        w.burst matches Some((first, last)) ==> (w.over(now) <==> now - last >= w.delay || now
            - first >= 10_000),
        w.burst is None ==> !w.over(now) && w.left(now) is None,
        w.over(now) ==> w.on(WaitEvent::Tick, now) == Ok::<BurstWait, DebounceV>(BurstWait::Ready)
            && w.left(now) == Some(0int),
        !w.over(now) ==> w.on(WaitEvent::Tick, now) == Err::<BurstWait, DebounceV>(w),
        w.on(WaitEvent::Closed, now) == Ok::<BurstWait, DebounceV>(BurstWait::ChannelClosed),
        w.on(WaitEvent::Abort, now) == Ok::<BurstWait, DebounceV>(BurstWait::Aborted),
{
}

/// What is left of a wait is exactly the time that makes it over: waiting that
/// long ends it, and waiting less does not.
pub proof fn law_the_time_left_ends_the_wait(w: DebounceV, now: int, less: int)
    requires
        w.burst is Some,
        w.left(now)->0 < u64::MAX,
        0 <= less < w.left(now)->0,
    ensures
        w.over(now + w.left(now)->0),
        !w.over(now + less),
{
}

/// A serving side goes on when something changed, before or during the wait,
/// and otherwise ends.
pub proof fn law_changes_wake_a_serving_side(dirty: bool, waited: BurstWait)
    ensures
        woken(true, waited) == WatchWait::Changed,
        woken(false, BurstWait::Ready) == WatchWait::Changed,
        woken(false, BurstWait::ChannelClosed) == WatchWait::Disconnected,
        woken(false, BurstWait::Aborted) == WatchWait::Disconnected,
{
}

} // verus!
