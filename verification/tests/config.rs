//! Tests of the configuration version gate and the logging defaults.

use evredis::utils::configuration::{decide_version_gate, version_gate, MetaConfiguration,
    VersionGate};
use evredis::utils::logging::{Format, LoggingConfiguration};

#[test]
fn version_gate_decision_table() {
    assert_eq!(version_gate(true, true, false), VersionGate::Proceed);
    assert_eq!(version_gate(true, false, false), VersionGate::Reject);
    assert_eq!(version_gate(false, false, true), VersionGate::Proceed);
    assert_eq!(version_gate(false, false, false), VersionGate::ProceedWithWarning);
}

#[test]
fn version_gate_against_real_requirements() {
    let requirement = semver::VersionReq::parse("^0.1").expect("a valid requirement");

    let meta = MetaConfiguration { version: Some(semver::Version::parse("0.1.5").expect("valid")) };
    assert_eq!(decide_version_gate(&meta, &requirement, false), VersionGate::Proceed);

    let meta = MetaConfiguration { version: Some(semver::Version::parse("1.0.0").expect("valid")) };
    assert_eq!(decide_version_gate(&meta, &requirement, false), VersionGate::Reject);

    let meta = MetaConfiguration { version: None };
    assert_eq!(decide_version_gate(&meta, &requirement, false), VersionGate::ProceedWithWarning);

    let wildcard = semver::VersionReq::parse("*").expect("a valid requirement");
    let meta = MetaConfiguration { version: None };
    assert_eq!(decide_version_gate(&meta, &wildcard, true), VersionGate::Proceed);

    assert!(semver::Version::parse("not a version").is_err());
    assert!(semver::VersionReq::parse("not a requirement").is_err());
}

#[test]
fn logging_defaults() {
    let config = LoggingConfiguration::default();
    assert_eq!(config.format, Format::Full);
    assert_eq!(config.level.as_deref(), Some("warn"));
    assert_eq!(config.filter, None);
    assert!(config.forward_stdlog);
    assert_eq!(config.stdlog_level.as_deref(), Some("info"));
    assert!(config.with_module);
    assert!(!config.with_filename);
}
