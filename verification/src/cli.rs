//! The three commands, and the dispatcher that turns one command into store
//! changes and the lines to print.

use vstd::prelude::*;
use vstd::string::*;
use crate::dates::{date_value, dotted_rep, parse_date, Date, DateError};
use crate::digits::dec_rep;
use crate::duration::{parse_time, time_result, TimeError};
use crate::report::report_lines;
use crate::store::{index_of_date, OvertimeData, OvertimeEntry, StoreError};
use crate::text::{chars_to_string, num_string};

verus! {

/// One invocation's worth of work.
#[derive(Debug)]
pub enum Command {
    /// Credit a duration to a date.
    Add { time: String, date: String },
    /// Debit a duration from a date.
    Remove { time: String, date: String },
    /// Print the report.
    List,
}

/// The parsed command line.
#[derive(Debug)]
pub struct Cli {
    pub command: Command,
}

/// Why a command failed.
#[derive(Clone, Copy, Debug, PartialEq, Eq, Structural)]
pub enum CommandError {
    /// The duration token was rejected.
    Time(TimeError),
    /// The date token was rejected.
    Date(DateError),
    /// The store refused the mutation.
    Store(StoreError),
}

/// What a successful command asks of the caller: print these lines, and
/// persist the store if it changed.
#[derive(Debug)]
pub struct CommandOutput {
    pub lines: Vec<String>,
    pub save_needed: bool,
}

/// The confirmation printed after a credit.
pub open spec fn added_line(v: int, d: Date) -> Seq<char> {
    "Added "@ + dec_rep(v as nat) + " minutes of overtime for "@ + dotted_rep(d)
}

/// The confirmation printed after a debit.
pub open spec fn removed_line(v: int, d: Date) -> Seq<char> {
    "Removed "@ + dec_rep(v as nat) + " minutes of overtime for "@ + dotted_rep(d)
}

fn added_string(v: i32, d: Date) -> (r: String)
    requires
        v >= 0,
    ensures
        r@ == added_line(v as int, d),
{
    let mut s = String::new();
    s.append("Added ");
    s.append(num_string(v as u128).as_str());
    s.append(" minutes of overtime for ");
    let mut chars: Vec<char> = Vec::new();
    crate::dates::push_dotted(&mut chars, d);
    s.append(chars_to_string(&chars).as_str());
    proof {
        assert(Seq::<char>::empty() + "Added "@ =~= "Added "@);
        assert(s@ =~= added_line(v as int, d));
    }
    s
}

fn removed_string(v: i32, d: Date) -> (r: String)
    requires
        v >= 0,
    ensures
        r@ == removed_line(v as int, d),
{
    let mut s = String::new();
    s.append("Removed ");
    s.append(num_string(v as u128).as_str());
    s.append(" minutes of overtime for ");
    let mut chars: Vec<char> = Vec::new();
    crate::dates::push_dotted(&mut chars, d);
    s.append(chars_to_string(&chars).as_str());
    proof {
        assert(Seq::<char>::empty() + "Removed "@ =~= "Removed "@);
        assert(s@ =~= removed_line(v as int, d));
    }
    s
}

/// Runs one command against the store.
///
/// Parsing happens before any mutation, so a failed command leaves the store
/// as it was; a successful `Add` or `Remove` changes exactly the one entry
/// and asks the caller to persist.
pub fn dispatch(data: &mut OvertimeData, cmd: &Command) -> (r: Result<CommandOutput, CommandError>)
    requires
        old(data).wf(),
    ensures
        final(data).wf(),
        match *cmd {
            Command::List => {
                &&& final(data).entries@ == old(data).entries@
                &&& match r {
                    Ok(out) => !out.save_needed && out.lines.deep_view() == report_lines(
                        old(data).entries@,
                    ),
                    Err(_) => false,
                }
            },
            Command::Add { time: ref tok, date: ref dtok } => match r {
                Ok(out) => {
                    &&& time_result(tok@) is Ok
                    &&& date_value(dtok@) is Ok
                    &&& ({
                        let v = time_result(tok@)->Ok_0;
                        let d = date_value(dtok@)->Ok_0;
                        let s = old(data).entries@;
                        let ix = index_of_date(s, d);
                        &&& out.save_needed
                        &&& out.lines.deep_view() == seq![added_line(v, d)]
                        &&& if ix >= 0 {
                            &&& i32::MIN <= s[ix].minutes + v <= i32::MAX
                            &&& final(data).entries@ == s.update(
                                ix,
                                OvertimeEntry { date: d, minutes: (s[ix].minutes + v) as i32 },
                            )
                        } else {
                            final(data).entries@ == s.push(
                                OvertimeEntry { date: d, minutes: v as i32 },
                            )
                        }
                    })
                },
                Err(CommandError::Time(e)) => final(data).entries@ == old(data).entries@
                    && time_result(tok@) == Err::<int, TimeError>(e),
                Err(CommandError::Date(e)) => final(data).entries@ == old(data).entries@
                    && time_result(tok@) is Ok && date_value(dtok@) == Err::<Date, DateError>(e),
                Err(CommandError::Store(e)) => {
                    &&& final(data).entries@ == old(data).entries@
                    &&& time_result(tok@) is Ok
                    &&& date_value(dtok@) is Ok
                    &&& e == StoreError::Overflow
                    &&& ({
                        let v = time_result(tok@)->Ok_0;
                        let d = date_value(dtok@)->Ok_0;
                        let s = old(data).entries@;
                        let ix = index_of_date(s, d);
                        ix >= 0 && !(i32::MIN <= s[ix].minutes + v <= i32::MAX)
                    })
                },
            },
            Command::Remove { time: ref tok, date: ref dtok } => match r {
                Ok(out) => {
                    &&& time_result(tok@) is Ok
                    &&& date_value(dtok@) is Ok
                    &&& ({
                        let v = time_result(tok@)->Ok_0;
                        let d = date_value(dtok@)->Ok_0;
                        let s = old(data).entries@;
                        let ix = index_of_date(s, d);
                        &&& out.save_needed
                        &&& out.lines.deep_view() == seq![removed_line(v, d)]
                        &&& ix >= 0
                        &&& i32::MIN <= s[ix].minutes - v <= i32::MAX
                        &&& final(data).entries@ == s.update(
                            ix,
                            OvertimeEntry { date: d, minutes: (s[ix].minutes - v) as i32 },
                        )
                    })
                },
                Err(CommandError::Time(e)) => final(data).entries@ == old(data).entries@
                    && time_result(tok@) == Err::<int, TimeError>(e),
                Err(CommandError::Date(e)) => final(data).entries@ == old(data).entries@
                    && time_result(tok@) is Ok && date_value(dtok@) == Err::<Date, DateError>(e),
                Err(CommandError::Store(e)) => {
                    &&& final(data).entries@ == old(data).entries@
                    &&& time_result(tok@) is Ok
                    &&& date_value(dtok@) is Ok
                    &&& ({
                        let v = time_result(tok@)->Ok_0;
                        let d = date_value(dtok@)->Ok_0;
                        let s = old(data).entries@;
                        let ix = index_of_date(s, d);
                        match e {
                            StoreError::NotFound => ix < 0,
                            StoreError::Overflow => ix >= 0 && !(i32::MIN <= s[ix].minutes - v
                                <= i32::MAX),
                        }
                    })
                },
            },
        },
{
    match cmd {
        Command::List => {
            let lines = data.list_overtime();
            Ok(CommandOutput { lines, save_needed: false })
        },
        Command::Add { time, date } => {
            let minutes = match parse_time(time.as_str()) {
                Ok(v) => v,
                Err(e) => {
                    return Err(CommandError::Time(e));
                },
            };
            let d = match parse_date(date.as_str()) {
                Ok(d) => d,
                Err(e) => {
                    return Err(CommandError::Date(e));
                },
            };
            match data.add_overtime(d, minutes) {
                Ok(()) => (),
                Err(e) => {
                    return Err(CommandError::Store(e));
                },
            }
            let mut lines: Vec<String> = Vec::new();
            lines.push(added_string(minutes, d));
            let out = CommandOutput { lines, save_needed: true };
            proof {
                assert(out.lines.deep_view() =~= seq![
                    added_line(time_result(time@)->Ok_0, date_value(date@)->Ok_0),
                ]);
            }
            Ok(out)
        },
        Command::Remove { time, date } => {
            let minutes = match parse_time(time.as_str()) {
                Ok(v) => v,
                Err(e) => {
                    return Err(CommandError::Time(e));
                },
            };
            let d = match parse_date(date.as_str()) {
                Ok(d) => d,
                Err(e) => {
                    return Err(CommandError::Date(e));
                },
            };
            match data.remove_overtime(d, minutes) {
                Ok(()) => (),
                Err(e) => {
                    return Err(CommandError::Store(e));
                },
            }
            let mut lines: Vec<String> = Vec::new();
            lines.push(removed_string(minutes, d));
            let out = CommandOutput { lines, save_needed: true };
            proof {
                assert(out.lines.deep_view() =~= seq![
                    removed_line(time_result(time@)->Ok_0, date_value(date@)->Ok_0),
                ]);
            }
            Ok(out)
        },
    }
}

} // verus!
