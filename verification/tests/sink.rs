use rs_ipc_stream2df::sink::{SinkAction, SinkEvent, SinkMachine};

#[test]
fn sink_encodes_each_batch_then_finalizes_once() {
    let mut sink = SinkMachine::new();
    assert!(sink.is_streaming());
    assert_eq!(sink.step(SinkEvent::Batch), SinkAction::Encode);
    assert!(sink.is_streaming());
    assert_eq!(sink.step(SinkEvent::Batch), SinkAction::Encode);
    assert!(sink.is_streaming());
    assert_eq!(sink.step(SinkEvent::End), SinkAction::Finalize);
    assert!(!sink.is_streaming());
}

#[test]
fn sink_aborts_on_failure_without_finalizing() {
    let mut sink = SinkMachine::new();
    assert_eq!(sink.step(SinkEvent::Batch), SinkAction::Encode);
    assert_eq!(sink.step(SinkEvent::Failure), SinkAction::Abort);
    assert!(!sink.is_streaming());
}
