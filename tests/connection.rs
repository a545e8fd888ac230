use monster_arena::connection::{step, ConnAction, ConnEvent, ConnState};

#[test]
fn connection_lifecycle() {
    let (s, a) = step(ConnState::Connecting, ConnEvent::AttachAccepted);
    assert_eq!((s, a), (ConnState::Attached, ConnAction::Announce));
    assert_eq!(
        step(s, ConnEvent::FrameDecoded),
        (ConnState::Attached, ConnAction::Relay)
    );
    assert_eq!(
        step(s, ConnEvent::FrameMalformed),
        (ConnState::Attached, ConnAction::ReplyInvalid)
    );
    let (s, a) = step(s, ConnEvent::ReadEnded);
    assert_eq!((s, a), (ConnState::Closing, ConnAction::Cleanup));
    assert_eq!(
        step(s, ConnEvent::DrainEnded),
        (ConnState::Closing, ConnAction::Nothing)
    );
    let (s, a) = step(s, ConnEvent::CleanupDone);
    assert_eq!((s, a), (ConnState::Closed, ConnAction::Nothing));
    assert_eq!(
        step(s, ConnEvent::FrameDecoded),
        (ConnState::Closed, ConnAction::Nothing)
    );
}

#[test]
fn refused_attach_closes() {
    assert_eq!(
        step(ConnState::Connecting, ConnEvent::AttachRefused),
        (ConnState::Closing, ConnAction::RejectAndCleanup)
    );
    assert_eq!(
        step(ConnState::Connecting, ConnEvent::ReadEnded),
        (ConnState::Closing, ConnAction::Cleanup)
    );
    assert_eq!(
        step(ConnState::Attached, ConnEvent::FramingCorrupted),
        (ConnState::Closing, ConnAction::Cleanup)
    );
}
