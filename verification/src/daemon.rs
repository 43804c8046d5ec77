//! Decisions of the daemon's lifecycle: what to do on each signal event.
//! The program waits for the events and carries out the actions.
use vstd::prelude::*;

verus! {

/// Something the daemon observed while listening for signals.
#[derive(Debug, Clone, Copy, PartialEq, Eq, Structural)]
pub enum SignalEvent {
    /// An interrupt (Ctrl-C / SIGINT) arrived.
    Interrupt,
    /// Listening for the interrupt signal failed.
    InterruptListenerFailed,
    /// A termination request (SIGTERM) arrived.
    Terminate,
}

/// What the daemon does in answer to a signal event.
#[derive(Debug, Clone, Copy, PartialEq, Eq, Structural)]
pub enum SignalAction {
    /// Wake the task waiting for shutdown.
    RequestShutdown,
    /// Report that the interrupt listener failed, and keep running.
    ReportListenerFailure,
}

/// The action for a signal event: both an interrupt and a termination
/// request shut the daemon down; a failed interrupt listener is reported
/// and the daemon keeps running.
pub fn signal_action(event: SignalEvent) -> (a: SignalAction)
    ensures
        a == (match event {
            SignalEvent::Interrupt => SignalAction::RequestShutdown,
            SignalEvent::Terminate => SignalAction::RequestShutdown,
            SignalEvent::InterruptListenerFailed => SignalAction::ReportListenerFailure,
        }),
{
    match event {
        SignalEvent::Interrupt => SignalAction::RequestShutdown,
        SignalEvent::Terminate => SignalAction::RequestShutdown,
        SignalEvent::InterruptListenerFailed => SignalAction::ReportListenerFailure,
    }
}

} // verus!
