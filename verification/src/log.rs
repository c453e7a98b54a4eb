//! Events of the service and where they are written.
use vstd::prelude::*;
use std::io::Write;

use crate::env::EnvArgs;
use crate::numbers::{decimal, u128_to_string};
use crate::text::{append_str, string_of};

verus! {

/// Something that happened, as it is logged.
pub struct EventLog {
    pub register_id: Option<i128>,
    pub session_id: String,
    pub category: String,
    pub family: String,
    pub message: String,
    /// Milliseconds since the Unix epoch.
    pub timestamp: u128,
}

/// The line a console logger writes for an event: `timestamp - [category]
/// -> [family]: message`.
pub open spec fn console_text(timestamp: u128, category: Seq<char>, family: Seq<char>, message: Seq<char>) -> Seq<char> {
    decimal(timestamp as nat) + " - ["@ + category + "] -> ["@ + family + "]: "@ + message
}

impl EventLog {
    /// An event of the session `session_id` at `timestamp`, not registered
    /// yet.
    pub fn new(category: String, family: String, message: String, session_id: String, timestamp: u128) -> (e: EventLog)
        ensures
            e.register_id is None,
            e.session_id@ == session_id@,
            e.category@ == category@,
            e.family@ == family@,
            e.message@ == message@,
            e.timestamp == timestamp,
    {
        EventLog { register_id: None, session_id, category, family, message, timestamp }
    }

    /// The line a console logger writes for the event.
    pub fn console_line(&self) -> (s: String)
        ensures
            s@ == console_text(self.timestamp, self.category@, self.family@, self.message@),
    {
        let mut out: Vec<char> = Vec::new();
        let ts = u128_to_string(self.timestamp);
        append_str(&mut out, ts.as_str());
        append_str(&mut out, " - [");
        append_str(&mut out, self.category.as_str());
        append_str(&mut out, "] -> [");
        append_str(&mut out, self.family.as_str());
        append_str(&mut out, "]: ");
        append_str(&mut out, self.message.as_str());
        assert(out@ =~= console_text(self.timestamp, self.category@, self.family@, self.message@));
        string_of(out.as_slice())
    }
}

/// Where events are written.
pub trait Logger {
    fn log(&self, event: &EventLog);
}

/// Writes a line to the standard output (`writeln!` on `std::io::stdout()`);
/// nothing is claimed of it, and a failed write is ignored.
#[verifier::external_body]
fn print_line(line: &String) {
    let _ = writeln!(std::io::stdout(), "{}", line);
}

/// A logger that writes each event as a line on the console.
pub struct LoggerConsole {}

impl LoggerConsole {
    /// A console logger; it takes no settings, so every console logger is
    /// the same.
    pub fn new(args: EnvArgs) -> (l: LoggerConsole)
        ensures
            l == (LoggerConsole {}),
    {
        LoggerConsole {}
    }
}

impl Logger for LoggerConsole {
    /// Writes `event.console_line()` to the standard output.
    fn log(&self, event: &EventLog) {
        let line = event.console_line();
        print_line(&line);
    }
}

/// Milliseconds since the Unix epoch, from the system clock
/// (`SystemTime::now().duration_since(UNIX_EPOCH)`), or `None` where that
/// call reports the clock as set before the epoch. Nothing is claimed of the
/// value: it is the time.
#[verifier::external_body]
fn now_millis() -> (t: Option<u128>) {
    match std::time::SystemTime::now().duration_since(std::time::SystemTime::UNIX_EPOCH) {
        Ok(d) => Some(d.as_millis()),
        Err(_) => None,
    }
}

/// Logs the events of a session through a logger.
pub struct LogService<L: Logger> {
    logger: L,
    session_id: String,
}

impl<L: Logger> LogService<L> {
    pub closed spec fn session(&self) -> Seq<char> {
        self.session_id@
    }

    /// A service for the session `session_id` writing to `logger`.
    pub fn new(logger: L, session_id: String) -> (s: LogService<L>)
        ensures
            s.session() == session_id@,
    {
        LogService { logger, session_id }
    }

    /// The event logged for a message at `timestamp`.
    pub fn event(&self, category: &str, family: &str, message: &str, timestamp: u128) -> (e: EventLog)
        ensures
            e.register_id is None,
            e.session_id@ == self.session(),
            e.category@ == category@,
            e.family@ == family@,
            e.message@ == message@,
            e.timestamp == timestamp,
    {
        EventLog::new(
            string_of(crate::text::chars_of(category).as_slice()),
            string_of(crate::text::chars_of(family).as_slice()),
            string_of(crate::text::chars_of(message).as_slice()),
            self.session_id.clone(),
            timestamp,
        )
    }

    /// Logs a message now: the event of `event` at the current time goes to
    /// the logger. A clock set before the epoch stamps the event with the
    /// epoch itself.
    pub fn log(&self, category: &str, family: &str, message: &str) {
        let timestamp = match now_millis() {
            Some(t) => t,
            None => 0,
        };
        let event = self.event(category, family, message, timestamp);
        self.logger.log(&event);
    }
}

} // verus!
