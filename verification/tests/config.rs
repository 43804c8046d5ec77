use mad::config::duration_serde::{deserialize, serialize};
use mad::config::{
    default_http_host, default_http_port, default_jvm_metrics_interval, default_log_directory,
    default_monitoring_cluster, default_monitoring_service, HostAddress, Interval,
    MonitoringConfig,
};

#[test]
fn defaults() {
    assert_eq!(default_http_host(), HostAddress::V4(0, 0, 0, 0));
    assert_eq!(default_http_port(), 7090);
    assert_eq!(default_log_directory(), "logs");
    assert_eq!(default_jvm_metrics_interval(), Interval { secs: 1, nanos: 0 });
    assert_eq!(default_monitoring_cluster(), "mad");
    assert_eq!(default_monitoring_service(), "mad");
}

#[test]
fn monitoring_default() {
    let m = MonitoringConfig::default();
    assert_eq!(m.cluster, "mad");
    assert_eq!(m.service, "mad");
    assert!(m.host.is_none());
    assert!(m.sinks.is_empty());
}

#[test]
fn duration_text_is_framed() {
    assert_eq!(serialize("1"), "PT1S");
    assert_eq!(serialize("5.5"), "PT5.5S");
    assert_eq!(serialize(""), "PTS");
}

#[test]
fn duration_text_is_unframed() {
    assert_eq!(deserialize("PT1.0S").unwrap(), "1.0");
    assert_eq!(deserialize("PT5.5S").unwrap(), "5.5");
    assert_eq!(deserialize("PTS").unwrap(), "");
    assert_eq!(deserialize(&serialize("0.25")).unwrap(), "0.25");
}

#[test]
fn duration_text_errors() {
    for bad in ["", "P", "PT", "PS", "5.5S", "PT5.5", "pt1s", "XPT1S"] {
        let err = deserialize(bad).unwrap_err();
        assert_eq!(err.input, bad);
        assert_eq!(err.message(), format!("Invalid duration format: {}", bad));
    }
}
