//! Logging settings as the subscriber takes them.

use vstd::prelude::*;

use crate::config;
use crate::text::{to_lowercase, unicode_lowercase};

verus! {

/// Where log lines go.
#[derive(Debug, Clone, Copy, PartialEq, Eq, Structural)]
pub enum LogOutput {
    Stdout,
    Stderr,
    /// Structured JSON lines on stderr.
    Json,
    /// The system log.
    Syslog,
}

/// The output a (lower-cased) name selects.
pub open spec fn output_named(lower: Seq<char>) -> Option<LogOutput> {
    if lower == "stdout"@ {
        Some(LogOutput::Stdout)
    } else if lower == "stderr"@ {
        Some(LogOutput::Stderr)
    } else if lower == "json"@ {
        Some(LogOutput::Json)
    } else if lower == "syslog"@ {
        Some(LogOutput::Syslog)
    } else {
        None
    }
}

impl LogOutput {
    /// Parses an output name, ignoring case; anything else is
    /// "invalid log output: {name in lower case}".
    pub fn from_str(s: &str) -> (r: Result<LogOutput, String>)
        ensures
            output_named(unicode_lowercase(s@)) matches Some(o) ==> r == Ok::<LogOutput, String>(o),
            output_named(unicode_lowercase(s@)) is None ==> (r matches Err(m) && m@
                == "invalid log output: "@ + unicode_lowercase(s@)),
    {
        let lower = to_lowercase(s);
        if lower == String::from_str("stdout") {
            Ok(LogOutput::Stdout)
        } else if lower == String::from_str("stderr") {
            Ok(LogOutput::Stderr)
        } else if lower == String::from_str("json") {
            Ok(LogOutput::Json)
        } else if lower == String::from_str("syslog") {
            Ok(LogOutput::Syslog)
        } else {
            let mut m = String::new();
            m.append("invalid log output: ");
            m.append(lower.as_str());
            Err(m)
        }
    }
}

/// The settings the subscriber is built from.
#[derive(Debug, Clone)]
pub struct LoggingConfig {
    /// A level name the subscriber's filter understands.
    pub level: String,
    pub output: LogOutput,
    pub syslog_facility: config::SyslogFacility,
}

impl Default for LoggingConfig {
    /// Level `info`, to the system log, facility daemon.
    fn default() -> (r: Self)
        ensures
            r.level@ == "info"@,
            r.output == LogOutput::Syslog,
            r.syslog_facility == config::SyslogFacility::Daemon,
    {
        LoggingConfig {
            level: String::from_str("info"),
            output: LogOutput::Syslog,
            syslog_facility: config::SyslogFacility::Daemon,
        }
    }
}

/// The name of a configured level.
pub open spec fn level_name(l: config::LogLevel) -> Seq<char> {
    match l {
        config::LogLevel::Trace => "trace"@,
        config::LogLevel::Debug => "debug"@,
        config::LogLevel::Info => "info"@,
        config::LogLevel::Warn => "warn"@,
        config::LogLevel::Error => "error"@,
    }
}

/// The output a configured output selects.
pub open spec fn spec_map_output(o: config::LogOutput) -> LogOutput {
    match o {
        config::LogOutput::Stdout => LogOutput::Stdout,
        config::LogOutput::Stderr => LogOutput::Stderr,
        config::LogOutput::Json => LogOutput::Json,
        config::LogOutput::Syslog => LogOutput::Syslog,
    }
}

/// The subscriber settings for the `logging` section of the configuration.
pub fn map_logging_config(cfg: &config::Logging) -> (r: LoggingConfig)
    ensures
        r.level@ == level_name(cfg.level),
        r.output == spec_map_output(cfg.output),
        r.syslog_facility == cfg.syslog_facility,
{
    let level = match cfg.level {
        config::LogLevel::Trace => String::from_str("trace"),
        config::LogLevel::Debug => String::from_str("debug"),
        config::LogLevel::Info => String::from_str("info"),
        config::LogLevel::Warn => String::from_str("warn"),
        config::LogLevel::Error => String::from_str("error"),
    };
    let output = match cfg.output {
        config::LogOutput::Stdout => LogOutput::Stdout,
        config::LogOutput::Stderr => LogOutput::Stderr,
        config::LogOutput::Json => LogOutput::Json,
        config::LogOutput::Syslog => LogOutput::Syslog,
    };
    LoggingConfig { level, output, syslog_facility: cfg.syslog_facility }
}

/// The same settings with output forced to stderr (the `pull` command keeps
/// stdout for its report).
pub fn to_stderr(cfg: LoggingConfig) -> (r: LoggingConfig)
    ensures
        r.level@ == cfg.level@,
        r.output == LogOutput::Stderr,
        r.syslog_facility == cfg.syslog_facility,
{
    LoggingConfig { level: cfg.level, output: LogOutput::Stderr, syslog_facility: cfg.syslog_facility }
}


/// The configured output and level carry over under their own names: each
/// configured output selects the output of the same name, and each level
/// is passed on by its name (which the subscriber's filter understands).
pub proof fn law_logging_settings_keep_names(o: config::LogOutput, l: config::LogLevel)
    ensures
        (o is Stdout) <==> (spec_map_output(o) is Stdout),
        (o is Stderr) <==> (spec_map_output(o) is Stderr),
        (o is Json) <==> (spec_map_output(o) is Json),
        (o is Syslog) <==> (spec_map_output(o) is Syslog),
        (l is Trace) <==> level_name(l) == "trace"@,
        (l is Debug) <==> level_name(l) == "debug"@,
        (l is Info) <==> level_name(l) == "info"@,
        (l is Warn) <==> level_name(l) == "warn"@,
        (l is Error) <==> level_name(l) == "error"@,
{
    reveal_strlit("trace");
    reveal_strlit("debug");
    reveal_strlit("info");
    reveal_strlit("warn");
    reveal_strlit("error");
    assert("trace"@[0] == 't' && "debug"@[0] == 'd' && "info"@[0] == 'i' && "warn"@[0] == 'w'
        && "error"@[0] == 'e');
}

} // verus!
