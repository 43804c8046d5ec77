use mad::daemon::{signal_action, SignalAction, SignalEvent};
use mad::model::{MetricType, Unit, UnitType};

#[test]
fn unit_holds_its_parts() {
    let u = Unit { unit_type: UnitType::Time, name: "second".to_string() };
    assert_eq!(u.unit_type, UnitType::Time);
    assert_eq!(u.name, "second");
    assert_eq!(u.clone(), u);
    assert_ne!(MetricType::Counter, MetricType::Gauge);
    assert_ne!(UnitType::Data, UnitType::Count);
}

#[test]
fn signal_actions() {
    assert_eq!(signal_action(SignalEvent::Interrupt), SignalAction::RequestShutdown);
    assert_eq!(signal_action(SignalEvent::Terminate), SignalAction::RequestShutdown);
    assert_eq!(signal_action(SignalEvent::InterruptListenerFailed), SignalAction::ReportListenerFailure);
}
