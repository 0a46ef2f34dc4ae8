use bus_exporter::config::{Logging, LogLevel, SyslogFacility};
use bus_exporter::logging::{map_logging_config, to_stderr, LogOutput, LoggingConfig};

#[test]
fn test_log_output_from_str() {
    assert_eq!(LogOutput::from_str("stdout").unwrap(), LogOutput::Stdout);
    assert_eq!(LogOutput::from_str("stderr").unwrap(), LogOutput::Stderr);
    assert_eq!(LogOutput::from_str("json").unwrap(), LogOutput::Json);
    assert_eq!(LogOutput::from_str("syslog").unwrap(), LogOutput::Syslog);
    assert_eq!(LogOutput::from_str("STDOUT").unwrap(), LogOutput::Stdout);
    assert_eq!(LogOutput::from_str("Stderr").unwrap(), LogOutput::Stderr);
    assert_eq!(LogOutput::from_str("SYSLOG").unwrap(), LogOutput::Syslog);
    assert!(LogOutput::from_str("invalid").is_err());
}

#[test]
fn test_parse_level_via_std() {
    assert_eq!(
        "trace".parse::<tracing::Level>().unwrap(),
        tracing::Level::TRACE
    );
    assert_eq!(
        "debug".parse::<tracing::Level>().unwrap(),
        tracing::Level::DEBUG
    );
    assert_eq!(
        "info".parse::<tracing::Level>().unwrap(),
        tracing::Level::INFO
    );
    assert_eq!(
        "warn".parse::<tracing::Level>().unwrap(),
        tracing::Level::WARN
    );
    assert_eq!(
        "error".parse::<tracing::Level>().unwrap(),
        tracing::Level::ERROR
    );
    assert_eq!(
        "INFO".parse::<tracing::Level>().unwrap(),
        tracing::Level::INFO
    );
}

#[test]
fn test_parse_level_invalid() {
    assert!("verbose".parse::<tracing::Level>().is_err());
    assert!("".parse::<tracing::Level>().is_err());
}

#[test]
fn test_default_logging_config() {
    let config = LoggingConfig::default();
    assert_eq!(config.level, "info");
    assert_eq!(config.output, LogOutput::Syslog);
    assert_eq!(config.syslog_facility, SyslogFacility::Daemon);
}

#[test]
fn invalid_output_message_is_lowercased() {
    assert_eq!(LogOutput::from_str("Journal").unwrap_err(), "invalid log output: journal");
}

#[test]
fn map_logging_config_levels() {
    let cfg = Logging {
        level: LogLevel::Warn,
        output: bus_exporter::config::LogOutput::Json,
        syslog_facility: SyslogFacility::Local3,
    };
    let m = map_logging_config(&cfg);
    assert_eq!(m.level, "warn");
    assert_eq!(m.output, LogOutput::Json);
    assert_eq!(m.syslog_facility, SyslogFacility::Local3);
    let e = to_stderr(m);
    assert_eq!(e.output, LogOutput::Stderr);
    assert_eq!(e.level, "warn");
}
