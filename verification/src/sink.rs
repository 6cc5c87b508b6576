use vstd::prelude::*;

verus! {

/// What one pull of the result stream produced: a batch, the end of the
/// stream, or a failure.
#[derive(Clone, Copy, Debug, PartialEq, Eq)]
pub enum SinkEvent {
    Batch,
    End,
    Failure,
}

/// What the runner of the sink must do next: encode the batch just pulled,
/// finalize the stream (flush, then write the end-of-stream framing), or
/// abort without finalizing.
#[derive(Clone, Copy, Debug, PartialEq, Eq)]
pub enum SinkAction {
    Encode,
    Finalize,
    Abort,
}

/// The phase of the sink.
#[derive(Clone, Copy, Debug, PartialEq, Eq)]
pub enum SinkPhase {
    Streaming,
    Finished,
    Failed,
}

/// The write-side discipline of the pipeline: every batch of the result
/// stream is encoded in arrival order and none is held back; the end of the
/// stream is answered by exactly one finalization; a failure aborts at once;
/// a finished or failed sink accepts nothing more.
pub struct SinkMachine {
    phase: SinkPhase,
}

impl SinkMachine {
    /// The phase this sink is in.
    pub closed spec fn phase_spec(&self) -> SinkPhase {
        self.phase
    }

    /// A fresh sink, ready to stream.
    pub fn new() -> (m: SinkMachine)
        ensures
            m.phase_spec() == SinkPhase::Streaming,
    {
        SinkMachine { phase: SinkPhase::Streaming }
    }

    /// Whether this sink still accepts events.
    pub fn is_streaming(&self) -> (r: bool)
        ensures
            r == (self.phase_spec() == SinkPhase::Streaming),
    {
        match self.phase {
            SinkPhase::Streaming => true,
            SinkPhase::Finished => false,
            SinkPhase::Failed => false,
        }
    }

    /// Decide what one stream event demands. Only a streaming sink may be
    /// driven: once finished or failed it takes no further event.
    pub fn step(&mut self, event: SinkEvent) -> (a: SinkAction)
        requires
            old(self).phase_spec() == SinkPhase::Streaming,
        ensures
            event == SinkEvent::Batch ==> a == SinkAction::Encode && final(self).phase_spec()
                == SinkPhase::Streaming,
            event == SinkEvent::End ==> a == SinkAction::Finalize && final(self).phase_spec()
                == SinkPhase::Finished,
            event == SinkEvent::Failure ==> a == SinkAction::Abort && final(self).phase_spec()
                == SinkPhase::Failed,
    {
        match event {
            SinkEvent::Batch => SinkAction::Encode,
            SinkEvent::End => {
                self.phase = SinkPhase::Finished;
                SinkAction::Finalize
            },
            SinkEvent::Failure => {
                self.phase = SinkPhase::Failed;
                SinkAction::Abort
            },
        }
    }
}

} // verus!
