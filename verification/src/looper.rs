use vstd::prelude::*;

verus! {

/// What the worker thread of a looper gets from its channel.
pub enum LooperEvent<M> {
    /// A message sent to the looper.
    Message(M),
    /// Every sender is gone: no message will come any more.
    Disconnected,
}

/// What the worker thread of a looper does with an event.
pub enum LooperAction<M> {
    /// Hand the message to the processing function and wait for the next one.
    Process(M),
    /// Run the cleanup function once and stop.
    CleanUpAndStop,
}

/// The worker's decision on one event.
pub open spec fn looper_decision<M>(event: LooperEvent<M>) -> LooperAction<M> {
    match event {
        LooperEvent::Message(m) => LooperAction::Process(m),
        LooperEvent::Disconnected => LooperAction::CleanUpAndStop,
    }
}

/// The actions of the worker over the events its channel delivers, in
/// order; the worker stops at its first cleanup and sees nothing after it.
pub open spec fn looper_run<M>(events: Seq<LooperEvent<M>>) -> Seq<LooperAction<M>>
    decreases events.len(),
{
    if events.len() == 0 {
        Seq::empty()
    } else {
        let action = looper_decision(events[0]);
        if action is CleanUpAndStop {
            seq![action]
        } else {
            seq![action] + looper_run(events.drop_first())
        }
    }
}

/// The worker's decision: each message is processed; disconnection ends the
/// loop with the cleanup.
pub fn looper_step<M>(event: LooperEvent<M>) -> (action: LooperAction<M>)
    ensures
        action == looper_decision(event),
{
    match event {
        LooperEvent::Message(m) => LooperAction::Process(m),
        LooperEvent::Disconnected => LooperAction::CleanUpAndStop,
    }
}

/// When the channel delivers the messages `msgs` in order and then reports
/// that every sender is gone, the worker processes each message exactly
/// once, in that order, then cleans up exactly once, after the last one,
/// and does nothing more.
pub proof fn lemma_looper_run<M>(msgs: Seq<M>, tail: Seq<LooperEvent<M>>)
    ensures
        looper_run(msgs.map_values(|m: M| LooperEvent::Message(m)) + seq![LooperEvent::Disconnected] + tail)
            == msgs.map_values(|m: M| LooperAction::Process(m)) + seq![LooperAction::<M>::CleanUpAndStop],
    decreases msgs.len(),
{
    let events = msgs.map_values(|m: M| LooperEvent::Message(m)) + seq![LooperEvent::Disconnected] + tail;
    if msgs.len() == 0 {
        assert(events[0] == LooperEvent::<M>::Disconnected);
        assert(msgs.map_values(|m: M| LooperAction::Process(m)) + seq![LooperAction::<M>::CleanUpAndStop]
            =~= seq![LooperAction::<M>::CleanUpAndStop]);
    } else {
        let rest = msgs.drop_first();
        lemma_looper_run(rest, tail);
        let rest_events = rest.map_values(|m: M| LooperEvent::Message(m)) + seq![LooperEvent::Disconnected] + tail;
        assert(events[0] == LooperEvent::Message(msgs[0]));
        assert(events.drop_first() =~= rest_events);
        assert(seq![LooperAction::Process(msgs[0])] + (rest.map_values(|m: M| LooperAction::Process(m))
            + seq![LooperAction::<M>::CleanUpAndStop]) =~= msgs.map_values(|m: M| LooperAction::Process(m))
            + seq![LooperAction::<M>::CleanUpAndStop]);
    }
}

} // verus!
