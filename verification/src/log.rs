//! The append-only command log and its replay iterator.
//!
//! The `Log` holds the character content of the active log file. The
//! surrounding application reads that content from disk before the engine
//! opens and writes it back after the engine mutates it; the engine itself
//! only appends records and reads them back at known offsets.

use vstd::prelude::*;
use crate::chars::string_of;
use crate::codec::decode_one;
use crate::codec::encode;
use crate::codec::encode_command;
use crate::codec::is_ws;
use crate::codec::is_ws_char;
use crate::codec::parse_all_from;
use crate::codec::parse_cmd;
use crate::codec::ws_len;
use crate::command::Command;
use crate::command::CommandModel;
use crate::errors::Error;

verus! {

/// An offset into the log: where a record begins. Sometimes we will just
/// call this a "file offset"; here it counts characters of the log content.
#[derive(Debug, Clone, Copy)]
pub struct LogPointer(pub u64);

impl LogPointer {
    /// The offset this pointer stands for.
    pub open spec fn offset(self) -> int {
        self.0 as int
    }
}

/// An on-disk sequence of commands, in the order originally received and
/// executed. Our database's on-disk format is almost entirely made up of
/// logs. It will be simple, but also surprisingly efficient.
pub struct Log {
    data: Vec<char>,
}

impl View for Log {
    type V = Seq<char>;

    closed spec fn view(&self) -> Seq<char> {
        self.data@
    }
}

impl Log {
    /// A log over the given content.
    pub fn open(data: Vec<char>) -> (l: Log)
        ensures
            l@ == data@,
    {
        Log { data }
    }

    /// The length of the log content.
    pub fn len(&self) -> (n: usize)
        ensures
            n == self@.len(),
    {
        self.data.len()
    }

    /// The log content, for replay and for persisting.
    pub fn data(&self) -> (d: &Vec<char>)
        ensures
            d@ == self@,
    {
        &self.data
    }

    /// The log content as a string, as it stands in the log file.
    pub fn contents(&self) -> (s: String)
        ensures
            s@ == self@,
    {
        string_of(&self.data)
    }

    /// Decode the single record that begins at `ptr`.
    pub fn read(&self, ptr: &LogPointer) -> (r: Result<Command, Error>)
        requires
            0 <= ptr.offset() <= self@.len(),
        ensures
            match r {
                Ok(cmd) => {
                    &&& parse_cmd(self@.skip(ptr.offset())) is Some
                    &&& parse_cmd(self@.skip(ptr.offset())).unwrap().0 == cmd@
                },
                Err(e) => {
                    &&& parse_cmd(self@.skip(ptr.offset())) is None
                    &&& e == Error::LogFileCorrupted
                },
            },
    {
        let pos = ptr.0 as usize;
        match decode_one(&self.data, pos) {
            Some((cmd, _n)) => Ok(cmd),
            None => Err(Error::LogFileCorrupted),
        }
    }

    /// Append one serialized command, returning the offset it begins at.
    pub fn append_command(&mut self, cmd: Command) -> (r: Result<LogPointer, Error>)
        ensures
            final(self)@ == old(self)@ + encode(cmd@),
            r is Ok,
            r.unwrap().offset() == old(self)@.len(),
    {
        let pos = self.data.len();
        let mut enc = encode_command(&cmd);
        self.data.append(&mut enc);
        Ok(LogPointer(pos as u64))
    }
}

/// A replay of a log: yields each command in file order together with the
/// offset at which its record begins.
pub struct LogReplay<'a> {
    log: &'a Vec<char>,
    pos: usize,
}

impl<'a> LogReplay<'a> {
    /// The log content being replayed.
    pub closed spec fn log_view(self) -> Seq<char> {
        self.log@
    }

    /// How far the replay has read.
    pub closed spec fn position(self) -> int {
        self.pos as int
    }

    pub closed spec fn wf(self) -> bool {
        self.pos <= self.log@.len()
    }

    /// A replay positioned at the front of the log.
    pub fn new(log: &'a Vec<char>) -> (r: LogReplay<'a>)
        ensures
            r.log_view() == log@,
            r.position() == 0,
            r.wf(),
    {
        LogReplay { log, pos: 0 }
    }

    /// The next record, if any.
    ///
    /// `None` means the rest of the log is whitespace: a clean end. An
    /// `Err` item means the log does not decode from here on; the replay
    /// yields that one error item and then terminates: the position moves
    /// to the end of the log, so every following call yields `None`.
    pub fn next(&mut self) -> (r: Option<Result<(Command, LogPointer), Error>>)
        requires
            old(self).wf(),
        ensures
            final(self).wf(),
            final(self).log_view() == old(self).log_view(),
            old(self).position() <= final(self).position(),
            match r {
                None => {
                    &&& parse_all_from(old(self).log_view(), old(self).position()) == Some(
                        Seq::<(CommandModel, int)>::empty(),
                    )
                    &&& old(self).position() + ws_len(
                        old(self).log_view().skip(old(self).position()),
                    ) >= old(self).log_view().len()
                    &&& final(self).position() == old(self).log_view().len()
                },
                Some(item) => match item {
                    Ok((cmd, lp)) => {
                        &&& old(self).position() <= lp.offset()
                        &&& lp.offset() == old(self).position() + ws_len(
                            old(self).log_view().skip(old(self).position()),
                        )
                        &&& lp.offset() < final(self).position() <= old(self).log_view().len()
                        &&& parse_cmd(old(self).log_view().skip(lp.offset())) == Some(
                            (cmd@, final(self).position() - lp.offset()),
                        )
                        &&& parse_all_from(old(self).log_view(), old(self).position()) == (
                        match parse_all_from(old(self).log_view(), final(self).position()) {
                            Some(rest) => Some(seq![(cmd@, lp.offset())] + rest),
                            None => None::<Seq<(CommandModel, int)>>,
                        })
                    },
                    Err(e) => {
                        &&& e == Error::LogFileCorrupted
                        &&& parse_all_from(old(self).log_view(), old(self).position()) is None
                        &&& ({
                            let p = old(self).position() + ws_len(
                                old(self).log_view().skip(old(self).position()),
                            );
                            p < old(self).log_view().len() && parse_cmd(
                                old(self).log_view().skip(p),
                            ) is None
                        })
                        &&& final(self).position() == old(self).log_view().len()
                    },
                },
            },
    {
        let start = self.pos;
        let mut p = start;
        while p < self.log.len() && is_ws_char(self.log[p])
            invariant
                start <= p <= self.log@.len(),
                ws_len(self.log@.skip(start as int)) == (p - start) + ws_len(
                    self.log@.skip(p as int),
                ),
            decreases self.log@.len() - p,
        {
            proof {
                assert(self.log@.skip(p as int)[0] == self.log@[p as int]);
                assert(self.log@.skip(p as int).drop_first() =~= self.log@.skip(p + 1));
            }
            p = p + 1;
        }
        if p == self.log.len() {
            proof {
                assert(self.log@.skip(p as int).len() == 0);
                assert(ws_len(self.log@.skip(p as int)) == 0);
            }
            self.pos = p;
            return None;
        }
        proof {
            assert(self.log@.skip(p as int)[0] == self.log@[p as int]);
            assert(!is_ws(self.log@.skip(p as int)[0]));
            assert(ws_len(self.log@.skip(p as int)) == 0);
        }
        match decode_one(self.log, p) {
            None => {
                self.pos = self.log.len();
                Some(Err(Error::LogFileCorrupted))
            },
            Some((cmd, n)) => {
                self.pos = p + n;
                Some(Ok((cmd, LogPointer(p as u64))))
            },
        }
    }
}

} // verus!
