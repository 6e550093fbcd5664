//! The logging configuration: which format and levels a logger should be
//! built with. Building the logger itself is I/O plumbing and lives with
//! the program embedding this library.

use vstd::prelude::*;

verus! {

/// A logging output format.
#[derive(Debug, Clone, Copy, PartialEq, Eq, Structural)]
pub enum Format {
    /// Full (line-by-line) text.
    Full,
    /// Compact (grouped by context) text.
    Compact,
    /// JSON records.
    Json,
}

/// A configuration to construct loggers from.
#[derive(Debug, Clone)]
pub struct LoggingConfiguration {
    /// Output format.
    pub format: Format,
    /// Minimum level (application-wide).
    pub level: Option<String>,
    /// Filter expression, in the environment-logger style.
    pub filter: Option<String>,
    /// Whether to forward messages of the standard logging interface.
    pub forward_stdlog: bool,
    /// Minimum level for forwarded standard-interface messages.
    pub stdlog_level: Option<String>,
    /// Whether to include the module name in the logging context.
    pub with_module: bool,
    /// Whether to include the file name and line number in the context.
    pub with_filename: bool,
}

impl Default for LoggingConfiguration {
    /// The stock configuration: full text at warning level, forwarding
    /// standard-interface messages at information level, with module names.
    fn default() -> (r: LoggingConfiguration)
        ensures
            r.format == Format::Full,
            r.level matches Some(level) && level@ == "warn"@,
            r.filter is None,
            r.forward_stdlog,
            r.stdlog_level matches Some(level) && level@ == "info"@,
            r.with_module,
            !r.with_filename,
    {
        LoggingConfiguration {
            format: Format::Full,
            level: Some("warn".to_string()),
            filter: None,
            forward_stdlog: true,
            stdlog_level: Some("info".to_string()),
            with_module: true,
            with_filename: false,
        }
    }
}

} // verus!
