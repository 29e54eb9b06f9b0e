use dwat::decoder::{decode_log, DecodedEvent, RawLog};
use dwat::multiplexer::{
    Action, LoopId, LoopState, MuxStatus, Multiplexer, StreamEvent, TerminationCause,
};
use dwat::schema::EventSchema;
use dwat::word::{Address, Word};

fn v2_log(schema: &EventSchema, amount: u128) -> RawLog {
    let mut sender = [0u8; 32];
    sender[31] = 7;
    let mut data = Vec::new();
    for v in [amount, 0, 0, amount + 1] {
        data.extend_from_slice(&Word::from_u128(v).bytes);
    }
    RawLog {
        address: Address { bytes: [1; 20] },
        topics: vec![schema.signature, Word { bytes: sender }, Word { bytes: sender }],
        data,
    }
}

#[test]
fn end_of_one_loop_fails_the_pair_and_spares_the_other() {
    let a = EventSchema::swap_v3();
    let b = EventSchema::swap_v2();
    let mut m = Multiplexer::new(EventSchema::swap_v3(), EventSchema::swap_v2());
    assert_eq!(m.status, MuxStatus::Active);

    let first = v2_log(&b, 10);
    let before = m.step(LoopId::B, StreamEvent::Log(first.clone()));
    assert_eq!(before, Action::Emit(decode_log(first, &b)));

    assert_eq!(
        m.step(LoopId::A, StreamEvent::End),
        Action::Stop(TerminationCause::EndOfSequence)
    );
    assert_eq!(m.status, MuxStatus::Failed(LoopId::A, TerminationCause::EndOfSequence));
    assert_eq!(m.loop_b, LoopState::Running);

    for i in 0..5u128 {
        let log = v2_log(&b, 100 + i);
        let act = m.step(LoopId::B, StreamEvent::Log(log.clone()));
        assert_eq!(act, Action::Emit(decode_log(log, &b)));
        assert!(matches!(act, Action::Emit(DecodedEvent::V2(_))));
    }
    assert_eq!(m.status, MuxStatus::Failed(LoopId::A, TerminationCause::EndOfSequence));

    // a stopped loop ignores what comes after
    let late = v2_log(&a, 1);
    assert_eq!(m.step(LoopId::A, StreamEvent::Log(late)), Action::Ignore);
}

#[test]
fn decode_failure_does_not_stop_a_loop() {
    let b = EventSchema::swap_v2();
    let mut m = Multiplexer::new(EventSchema::swap_v3(), EventSchema::swap_v2());
    let mut bad = v2_log(&b, 3);
    bad.data.pop();
    let act = m.step(LoopId::B, StreamEvent::Log(bad));
    assert!(matches!(act, Action::Emit(DecodedEvent::Failure(_))));
    assert_eq!(m.status, MuxStatus::Active);
    assert_eq!(m.loop_b, LoopState::Running);
}

#[test]
fn first_termination_is_the_one_reported() {
    let mut m = Multiplexer::new(EventSchema::swap_v3(), EventSchema::swap_v2());
    let cause = TerminationCause::Transport("connection reset".to_string());
    assert_eq!(
        m.step(LoopId::B, StreamEvent::TransportError("connection reset".to_string())),
        Action::Stop(cause.clone())
    );
    assert_eq!(m.status, MuxStatus::Failed(LoopId::B, cause.clone()));
    assert_eq!(
        m.step(LoopId::A, StreamEvent::End),
        Action::Stop(TerminationCause::EndOfSequence)
    );
    assert_eq!(m.status, MuxStatus::Failed(LoopId::B, cause));
    assert_eq!(m.loop_a, LoopState::Terminated(TerminationCause::EndOfSequence));
}
