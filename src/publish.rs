use vstd::prelude::*;

verus! {

/// Where the publishing of a finished temporary archive stands.
#[derive(Clone, Copy, Debug, PartialEq, Eq, Structural)]
pub enum PublishState {
    /// The temporary archive is complete; the original is still in place.
    Finalized,
    /// The original is being removed.
    RemovingOriginal,
    /// The temporary archive is being renamed over the original path.
    Moving,
    /// The temporary archive is being copied to the original path.
    Copying,
    /// The temporary archive is being removed after a copy.
    RemovingTemp,
    /// The rebuilt archive stands at the original path and no temporary remains.
    Published,
    /// The rebuilt archive stands at the original path, but the temporary
    /// archive could not be removed.
    PublishedTempLeft,
    /// Publishing stopped; the temporary archive is left for recovery.
    Stranded,
}

/// The outcome of the last action.
#[derive(Clone, Copy, Debug, PartialEq, Eq, Structural)]
pub enum PublishEvent {
    Succeeded,
    /// A rename failed because source and destination are on different devices.
    CrossDevice,
    Failed,
}

/// What the caller does next on the file system.
#[derive(Clone, Copy, Debug, PartialEq, Eq, Structural)]
pub enum PublishAction {
    RemoveOriginal,
    MoveTemp,
    CopyTemp,
    RemoveTemp,
    /// Nothing more to do; report the state reached.
    Stop,
}

pub open spec fn is_done(s: PublishState) -> bool {
    s == PublishState::Published || s == PublishState::PublishedTempLeft || s == PublishState::Stranded
}

/// The first action of a publish, from a finalized temporary archive.
pub fn publish_start() -> (r: (PublishState, PublishAction))
    ensures
        r == (PublishState::RemovingOriginal, PublishAction::RemoveOriginal),
{
    (PublishState::RemovingOriginal, PublishAction::RemoveOriginal)
}

/// The next state and action once the action of `state` ended with `event`.
pub fn publish_next(state: PublishState, event: PublishEvent) -> (r: (PublishState, PublishAction))
    ensures
        is_done(state) ==> r == (state, PublishAction::Stop),
        state == PublishState::Finalized ==> r == (PublishState::RemovingOriginal, PublishAction::RemoveOriginal),
        state == PublishState::RemovingOriginal ==> r == (if event == PublishEvent::Succeeded {
            (PublishState::Moving, PublishAction::MoveTemp)
        } else {
            (PublishState::Stranded, PublishAction::Stop)
        }),
        state == PublishState::Moving ==> r == (match event {
            PublishEvent::Succeeded => (PublishState::Published, PublishAction::Stop),
            PublishEvent::CrossDevice => (PublishState::Copying, PublishAction::CopyTemp),
            PublishEvent::Failed => (PublishState::Stranded, PublishAction::Stop),
        }),
        state == PublishState::Copying ==> r == (if event == PublishEvent::Succeeded {
            (PublishState::RemovingTemp, PublishAction::RemoveTemp)
        } else {
            (PublishState::Stranded, PublishAction::Stop)
        }),
        state == PublishState::RemovingTemp ==> r == (if event == PublishEvent::Succeeded {
            (PublishState::Published, PublishAction::Stop)
        } else {
            (PublishState::PublishedTempLeft, PublishAction::Stop)
        }),
        (r.1 == PublishAction::Stop) == is_done(r.0),
        r.0 == step_state(state, event),
        state != PublishState::Finalized ==> r.1 != PublishAction::RemoveOriginal,
{
    match state {
        PublishState::Finalized => (PublishState::RemovingOriginal, PublishAction::RemoveOriginal),
        PublishState::RemovingOriginal => match event {
            PublishEvent::Succeeded => (PublishState::Moving, PublishAction::MoveTemp),
            _ => (PublishState::Stranded, PublishAction::Stop),
        },
        PublishState::Moving => match event {
            PublishEvent::Succeeded => (PublishState::Published, PublishAction::Stop),
            PublishEvent::CrossDevice => (PublishState::Copying, PublishAction::CopyTemp),
            PublishEvent::Failed => (PublishState::Stranded, PublishAction::Stop),
        },
        PublishState::Copying => match event {
            PublishEvent::Succeeded => (PublishState::RemovingTemp, PublishAction::RemoveTemp),
            _ => (PublishState::Stranded, PublishAction::Stop),
        },
        PublishState::RemovingTemp => match event {
            PublishEvent::Succeeded => (PublishState::Published, PublishAction::Stop),
            _ => (PublishState::PublishedTempLeft, PublishAction::Stop),
        },
        _ => (state, PublishAction::Stop),
    }
}

/// The state reached from `s` by the outcomes `events`, one per action.
pub open spec fn run(s: PublishState, events: Seq<PublishEvent>) -> PublishState
    decreases events.len(),
{
    if events.len() == 0 {
        s
    } else {
        run(step_state(s, events[0]), events.drop_first())
    }
}

/// The state that follows `s` on `e`, as `publish_next` gives it.
pub open spec fn step_state(s: PublishState, e: PublishEvent) -> PublishState {
    match s {
        PublishState::Finalized => PublishState::RemovingOriginal,
        PublishState::RemovingOriginal => if e == PublishEvent::Succeeded { PublishState::Moving } else { PublishState::Stranded },
        PublishState::Moving => match e {
            PublishEvent::Succeeded => PublishState::Published,
            PublishEvent::CrossDevice => PublishState::Copying,
            PublishEvent::Failed => PublishState::Stranded,
        },
        PublishState::Copying => if e == PublishEvent::Succeeded { PublishState::RemovingTemp } else { PublishState::Stranded },
        PublishState::RemovingTemp => if e == PublishEvent::Succeeded { PublishState::Published } else { PublishState::PublishedTempLeft },
        _ => s,
    }
}

/// When the rename fails only because the devices differ, and the copy and
/// the removals succeed, publishing ends with the rebuilt archive at the
/// original path and no temporary archive left.
pub proof fn lemma_cross_device_fallback()
    ensures
        run(PublishState::RemovingOriginal, seq![
            PublishEvent::Succeeded,
            PublishEvent::CrossDevice,
            PublishEvent::Succeeded,
            PublishEvent::Succeeded,
        ]) == PublishState::Published,
{
    let e4 = seq![PublishEvent::Succeeded, PublishEvent::CrossDevice, PublishEvent::Succeeded, PublishEvent::Succeeded];
    let e3 = seq![PublishEvent::CrossDevice, PublishEvent::Succeeded, PublishEvent::Succeeded];
    let e2 = seq![PublishEvent::Succeeded, PublishEvent::Succeeded];
    let e1 = seq![PublishEvent::Succeeded];
    let e0 = Seq::<PublishEvent>::empty();
    assert(e4.drop_first() =~= e3);
    assert(e3.drop_first() =~= e2);
    assert(e2.drop_first() =~= e1);
    assert(e1.drop_first() =~= e0);
    assert(run(PublishState::Published, e0) == PublishState::Published);
    assert(run(PublishState::RemovingTemp, e1) == PublishState::Published);
    assert(run(PublishState::Copying, e2) == PublishState::Published);
    assert(run(PublishState::Moving, e3) == PublishState::Published);
}

} // verus!
