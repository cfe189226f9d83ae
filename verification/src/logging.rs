//! The record of one resolution, for whoever keeps a log.

use std::time::SystemTime;
use vstd::prelude::*;

verus! {

/// A point in time as the system clock reports it; its content is not
/// modelled.
#[verifier::external_type_specification]
#[verifier::external_body]
pub struct ExSystemTime(SystemTime);

/// Which persona was applied to which host, and when.
#[derive(Debug)]
pub struct LogEntry {
    pub timestamp: SystemTime,
    pub host: String,
    pub persona_id: String,
    pub headers_rewritten: bool,
}

/// Reads the system clock with `SystemTime::now`.
///
/// Trusted: the call returns; nothing is claimed of the time it reports.
#[verifier::external_body]
fn current_time() -> SystemTime {
    SystemTime::now()
}

impl LogEntry {
    /// The entry for `host` and `persona_id` at the time `timestamp`, with
    /// no headers rewritten yet.
    pub fn at(timestamp: SystemTime, host: &str, persona_id: &str) -> (entry: LogEntry)
        ensures
            entry.timestamp == timestamp,
            entry.host@ == host@,
            entry.persona_id@ == persona_id@,
            !entry.headers_rewritten,
    {
        LogEntry {
            timestamp,
            host: host.to_owned(),
            persona_id: persona_id.to_owned(),
            headers_rewritten: false,
        }
    }

    /// The entry for `host` and `persona_id` at the present time, with no
    /// headers rewritten yet.
    pub fn new(host: &str, persona_id: &str) -> (entry: LogEntry)
        ensures
            entry.host@ == host@,
            entry.persona_id@ == persona_id@,
            !entry.headers_rewritten,
    {
        LogEntry::at(current_time(), host, persona_id)
    }

    /// The same entry with `headers_rewritten` set to `rewritten`.
    pub fn with_headers_rewritten(self, rewritten: bool) -> (entry: LogEntry)
        ensures
            entry.timestamp == self.timestamp,
            entry.host == self.host,
            entry.persona_id == self.persona_id,
            entry.headers_rewritten == rewritten,
    {
        let mut entry = self;
        entry.headers_rewritten = rewritten;
        entry
    }
}

/// Why a sink could not record an entry.
#[derive(Debug)]
pub struct LogError {
    pub message: String,
}

impl LogError {
    /// The error that carries `message`.
    pub fn new(message: &str) -> (error: LogError)
        ensures
            error.message@ == message@,
    {
        LogError { message: message.to_owned() }
    }
}

/// A sink that records log entries. What a sink does with an entry, and
/// whether it succeeds, is its own affair: `may_answer` only names the
/// outcomes that a sink can give for an entry.
pub trait Logger: Send + Sync {
    /// Whether the sink can answer `entry` with `outcome`. Unless a sink
    /// says otherwise, it can answer with anything.
    open spec fn may_answer(&self, entry: &LogEntry, outcome: Result<(), LogError>) -> bool {
        true
    }

    fn log(&self, entry: &LogEntry) -> (outcome: Result<(), LogError>)
        ensures
            self.may_answer(entry, outcome),
    ;
}

/// Hands each entry to several sinks in turn.
pub struct MultiLogger {
    loggers: Vec<Box<dyn Logger>>,
}

/// Whether `outcome` is what serving `sinks` in order with `entry` can
/// give: success when every sink can succeed, and otherwise the failure of
/// a sink before which every sink can succeed.
pub open spec fn is_fan_out(
    sinks: Seq<Box<dyn Logger>>,
    entry: &LogEntry,
    outcome: Result<(), LogError>,
) -> bool {
    match outcome {
        Ok(()) => forall|i: int|
            0 <= i < sinks.len() ==> (#[trigger] sinks[i]).may_answer(entry, Ok(())),
        Err(error) => exists|stop: int|
            {
                &&& 0 <= stop < sinks.len()
                &&& (#[trigger] sinks[stop]).may_answer(entry, Err(error))
                &&& forall|i: int|
                    0 <= i < stop ==> (#[trigger] sinks[i]).may_answer(entry, Ok(()))
            },
    }
}

impl MultiLogger {
    /// The sinks, in the order in which they are served.
    pub closed spec fn sinks(&self) -> Seq<Box<dyn Logger>> {
        self.loggers@
    }

    /// The number of sinks.
    pub open spec fn spec_len(&self) -> nat {
        self.sinks().len()
    }

    /// A logger over `loggers`, which it serves in the order given.
    pub fn new(loggers: Vec<Box<dyn Logger>>) -> (multi: MultiLogger)
        ensures
            multi.sinks() == loggers@,
    {
        MultiLogger { loggers }
    }

    /// The number of sinks.
    pub fn len(&self) -> (count: usize)
        ensures
            count == self.spec_len(),
    {
        self.loggers.len()
    }
}

impl Logger for MultiLogger {
    open spec fn may_answer(&self, entry: &LogEntry, outcome: Result<(), LogError>) -> bool {
        is_fan_out(self.sinks(), entry, outcome)
    }

    /// Hands `entry` to the sinks in order and stops at the first that
    /// fails, with its error. Without sinks there is nothing to fail.
    fn log(&self, entry: &LogEntry) -> (outcome: Result<(), LogError>)
        ensures
            is_fan_out(self.sinks(), entry, outcome),
            self.spec_len() == 0 ==> outcome is Ok,
    {
        let mut next: usize = 0;
        while next < self.loggers.len()
            invariant
                next <= self.loggers@.len(),
                forall|i: int|
                    0 <= i < next ==> (#[trigger] self.loggers@[i]).may_answer(entry, Ok(())),
            decreases self.loggers@.len() - next,
        {
            let answer = self.loggers[next].log(entry);
            match answer {
                Ok(()) => {
                    assert(answer->Ok_0 == ());
                },
                Err(error) => {
                    return Err(error);
                },
            }
            next += 1;
        }
        Ok(())
    }
}

} // verus!
