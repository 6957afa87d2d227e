//! What a listener does next, each time it has looked at its two channels.
use vstd::prelude::*;

verus! {

/// How long a listener waits before it looks again.
pub const POLL_INTERVAL_MILLIS: u64 = 100;

/// The next thing for a listener to do.
#[derive(PartialEq, Eq, Debug)]
pub enum ListenerStep<E> {
    /// Stop listening.
    Stop,
    /// Handle the event, then look again.
    Handle(E),
    /// Wait, then look again.
    Wait { millis: u64 },
}

impl<E> ListenerStep<E> {
    /// A listener that is told to shut down stops at once, whatever event there is. Otherwise it
    /// handles the event, or waits when there is none.
    pub fn next(shut_down: bool, event: Option<E>) -> (step: Self)
        ensures
            step == if shut_down {
                ListenerStep::Stop
            } else {
                match event {
                    Some(e) => ListenerStep::Handle(e),
                    None => ListenerStep::Wait { millis: POLL_INTERVAL_MILLIS },
                }
            },
    {
        if shut_down {
            return ListenerStep::Stop;
        }
        match event {
            Some(e) => ListenerStep::Handle(e),
            None => ListenerStep::Wait { millis: POLL_INTERVAL_MILLIS },
        }
    }
}

} // verus!
