//! A logger that keeps what it is told and says what to print.

use crate::text::{push_str, string_of, string_of_str};
use vstd::prelude::*;

verus! {

/// How a logger is used: to print, or to keep the entries for a test.
#[derive(Debug, PartialEq, Eq, Clone, Copy, Structural)]
pub enum LoggerType {
    StdOut,
    TestLogger,
}

/// The weight of a message.
#[derive(Debug, PartialEq, Eq, Clone, Copy, Structural)]
pub enum LogLevel {
    Info,
    Warn,
    Debug,
    Error,
}

/// The tag that a line of the log begins with.
pub open spec fn level_tag(lvl: LogLevel) -> Seq<char> {
    match lvl {
        LogLevel::Info => "[INFO]"@,
        LogLevel::Debug => "[DEBUG]"@,
        LogLevel::Warn => "[WARN]"@,
        LogLevel::Error => "[ERROR]"@,
    }
}

/// The line of the log for a message: the tag, a colon, the message.
pub open spec fn log_line(lvl: LogLevel, msg: Seq<char>) -> Seq<char> {
    level_tag(lvl) + ": "@ + msg
}

/// A logger. One that is made for tests keeps every entry.
pub struct Logger {
    pub logger_ty: LoggerType,
    pub log_entries: Vec<(LogLevel, String)>,
    pub silent: bool,
}

impl LogLevel {
    /// The tag of the level.
    pub fn tag(&self) -> (s: &'static str)
        ensures
            s@ == level_tag(*self),
    {
        match self {
            LogLevel::Info => "[INFO]",
            LogLevel::Debug => "[DEBUG]",
            LogLevel::Warn => "[WARN]",
            LogLevel::Error => "[ERROR]",
        }
    }
}

impl Logger {
    /// The entries that the logger keeps, each with its level and its text.
    pub open spec fn entries(&self) -> Seq<(LogLevel, Seq<char>)> {
        self.log_entries@.map_values(|e: (LogLevel, String)| (e.0, e.1@))
    }

    /// A logger that prints.
    pub fn new_stdout_logger(silent: bool) -> (l: Logger)
        ensures
            l.logger_ty == LoggerType::StdOut,
            l.entries() == Seq::<(LogLevel, Seq<char>)>::empty(),
            l.silent == silent,
    {
        let l = Logger { logger_ty: LoggerType::StdOut, log_entries: Vec::new(), silent };
        assert(l.entries() =~= Seq::<(LogLevel, Seq<char>)>::empty());
        l
    }

    /// A logger that keeps its entries.
    pub fn new_test_logger(silent: bool) -> (l: Logger)
        ensures
            l.logger_ty == LoggerType::TestLogger,
            l.entries() == Seq::<(LogLevel, Seq<char>)>::empty(),
            l.silent == silent,
    {
        let l = Logger { logger_ty: LoggerType::TestLogger, log_entries: Vec::new(), silent };
        assert(l.entries() =~= Seq::<(LogLevel, Seq<char>)>::empty());
        l
    }

    fn push(&mut self, lvl: LogLevel, msg: &str)
        ensures
            final(self).entries() == old(self).entries().push((lvl, msg@)),
            final(self).logger_ty == old(self).logger_ty,
            final(self).silent == old(self).silent,
    {
        let text = string_of_str(msg);
        self.log_entries.push((lvl, text));
        assert(self.entries() =~= old(self).entries().push((lvl, msg@)));
    }

    /// Takes a message and hands back the line to print for it. A logger
    /// for tests keeps the message.
    pub fn do_log(&mut self, lvl: LogLevel, msg: &str) -> (line: String)
        ensures
            line@ == log_line(lvl, msg@),
            final(self).logger_ty == old(self).logger_ty,
            final(self).silent == old(self).silent,
            final(self).entries() == if old(self).logger_ty == LoggerType::TestLogger {
                old(self).entries().push((lvl, msg@))
            } else {
                old(self).entries()
            },
    {
        let mut out: Vec<char> = Vec::new();
        push_str(&mut out, lvl.tag());
        push_str(&mut out, ": ");
        push_str(&mut out, msg);
        assert(out@ =~= log_line(lvl, msg@));
        if self.logger_ty == LoggerType::TestLogger {
            self.push(lvl, msg);
        }
        assert(out@.subrange(0, out@.len() as int) =~= out@);
        string_of(out.as_slice(), 0, out.len())
    }

    /// Takes a message for debugging.
    pub fn debug(&mut self, msg: &str) -> (line: String)
        ensures
            line@ == log_line(LogLevel::Debug, msg@),
            final(self).logger_ty == old(self).logger_ty,
            final(self).silent == old(self).silent,
            final(self).entries() == if old(self).logger_ty == LoggerType::TestLogger {
                old(self).entries().push((LogLevel::Debug, msg@))
            } else {
                old(self).entries()
            },
    {
        self.do_log(LogLevel::Debug, msg)
    }

    /// Takes a message for information.
    pub fn info(&mut self, msg: &str) -> (line: String)
        ensures
            line@ == log_line(LogLevel::Info, msg@),
            final(self).logger_ty == old(self).logger_ty,
            final(self).silent == old(self).silent,
            final(self).entries() == if old(self).logger_ty == LoggerType::TestLogger {
                old(self).entries().push((LogLevel::Info, msg@))
            } else {
                old(self).entries()
            },
    {
        self.do_log(LogLevel::Info, msg)
    }
}

} // verus!
