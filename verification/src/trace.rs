//! Log levels: which messages are shown by default, and what the levels are called.

use vstd::prelude::*;

verus! {

/// Where the library runs.
#[derive(Debug, Clone, Copy, PartialEq, Eq, Structural)]
pub enum Env {
    /// Detailed messages are shown.
    Development,
    /// Only important messages are shown.
    Production,
}

/// How severe a message is.
#[derive(Debug, Clone, Copy, PartialEq, Eq, Structural)]
pub enum LogLevel {
    Trace,
    Debug,
    Info,
    Warn,
    Error,
}

impl Env {
    /// A build with debug assertions is one for development.
    pub fn infer(debug_assertions: bool) -> (r: Self)
        ensures
            r == (if debug_assertions {
                Env::Development
            } else {
                Env::Production
            }),
    {
        if debug_assertions {
            Env::Development
        } else {
            Env::Production
        }
    }

    /// The filter that holds where none is configured.
    pub fn default_filter(&self) -> (r: &'static str)
        ensures
            r@ == (match *self {
                Env::Development => "info,simple_downloader=debug"@,
                Env::Production => "warn,simple_downloader=info"@,
            }),
    {
        match self {
            Env::Development => "info,simple_downloader=debug",
            Env::Production => "warn,simple_downloader=info",
        }
    }
}

/// The label of a level, as shown to users.
pub fn level_label(level: LogLevel) -> (r: &'static str)
    ensures
        r@ == (match level {
            LogLevel::Trace => "跟踪"@,
            LogLevel::Debug => "调试"@,
            LogLevel::Info => "信息"@,
            LogLevel::Warn => "警告"@,
            LogLevel::Error => "错误"@,
        }),
{
    match level {
        LogLevel::Trace => "跟踪",
        LogLevel::Debug => "调试",
        LogLevel::Info => "信息",
        LogLevel::Warn => "警告",
        LogLevel::Error => "错误",
    }
}

} // verus!
