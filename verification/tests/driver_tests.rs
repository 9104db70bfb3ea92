use nockchain::driver::{try_next_effect_result, BatchEvent, EffectBatch, NockAppError, TryRecvOutcome};
use nockchain::noun::Noun;

#[test]
fn try_next_effect_outcomes() {
    assert_eq!(try_next_effect_result(TryRecvOutcome::Effect(Noun::direct(3))), Ok(Some(Noun::direct(3))));
    assert_eq!(try_next_effect_result(TryRecvOutcome::Empty), Ok(None));
    assert_eq!(try_next_effect_result(TryRecvOutcome::Lagged(4)), Ok(None));
    assert_eq!(try_next_effect_result(TryRecvOutcome::Closed), Err(NockAppError::ChannelClosedError));
}

#[test]
fn batch_collects_until_full() {
    let mut b = EffectBatch::new(Noun::direct(1), 3);
    assert!(b.wants_more());
    assert!(b.on_event(BatchEvent::Received(Noun::direct(2))));
    assert!(!b.on_event(BatchEvent::Received(Noun::direct(3))));
    assert!(!b.wants_more());
    assert_eq!(b.len(), 3);
    assert_eq!(b.into_effects(), vec![Noun::direct(1), Noun::direct(2), Noun::direct(3)]);
}

#[test]
fn batch_stops_on_timeout_or_error() {
    let mut b = EffectBatch::new(Noun::direct(1), 10);
    assert!(!b.on_event(BatchEvent::Timeout));
    assert_eq!(b.len(), 1);
    let mut b = EffectBatch::new(Noun::direct(1), 10);
    assert!(b.on_event(BatchEvent::Received(Noun::direct(2))));
    assert!(!b.on_event(BatchEvent::RecvError));
    assert_eq!(b.into_effects(), vec![Noun::direct(1), Noun::direct(2)]);
}

#[test]
fn batch_of_one_wants_nothing_more() {
    let b = EffectBatch::new(Noun::direct(1), 1);
    assert!(!b.wants_more());
    let b = EffectBatch::new(Noun::direct(1), 0);
    assert!(!b.wants_more());
    assert_eq!(b.len(), 1);
}
