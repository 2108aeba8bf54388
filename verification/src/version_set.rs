//! The version set: the numbers that a database carries from one run to
//! the next, and their recovery from the manifest.

use vstd::prelude::*;
use vstd::string::StringExecFns;
use crate::env::SequentialFile;
use crate::error::Error;
use crate::log_format::{FIRST, LAST, MIDDLE};
use crate::log_reader::{lemma_physical_bounds, physical_at, read_at, Outcome, Physical, Reader};
use crate::version_edit::{edit_parse, Edit, VersionEdit};

verus! {

/// What the edits of a manifest say of the database's numbers.
pub struct Recovered {
    pub log_number: Option<u64>,
    pub prev_log_number: Option<u64>,
    pub next_file_number: Option<u64>,
    pub last_sequence: Option<u64>,
}

impl Recovered {
    /// Nothing said yet.
    pub open spec fn empty() -> Recovered {
        Recovered {
            log_number: None,
            prev_log_number: None,
            next_file_number: None,
            last_sequence: None,
        }
    }

    /// What is said once `edit` is taken in: what the edit sets replaces
    /// what was said before.
    pub open spec fn merge(self, edit: Edit) -> Recovered {
        Recovered {
            log_number: if edit.log_number is Some {
                edit.log_number
            } else {
                self.log_number
            },
            prev_log_number: if edit.prev_log_number is Some {
                edit.prev_log_number
            } else {
                self.prev_log_number
            },
            next_file_number: if edit.next_file_number is Some {
                edit.next_file_number
            } else {
                self.next_file_number
            },
            last_sequence: if edit.last_sequence is Some {
                edit.last_sequence
            } else {
                self.last_sequence
            },
        }
    }

    /// Whether a database can start from what is said: the next file
    /// number, the log number and the last sequence number are there, and
    /// no log number is the largest number there is.
    pub open spec fn complete(self) -> bool {
        &&& self.next_file_number is Some
        &&& self.log_number is Some
        &&& self.last_sequence is Some
        &&& self.log_number.unwrap() < u64::MAX
        &&& self.prev_log_number is Some ==> self.prev_log_number.unwrap() < u64::MAX
    }

    /// The previous log number; zero where none is said.
    pub open spec fn prev_or_zero(self) -> u64 {
        match self.prev_log_number {
            Some(n) => n,
            None => 0,
        }
    }

    /// The next file number to start from: the one that is said, but
    /// behind both logs.
    pub open spec fn next_file(self) -> u64 {
        let said = self.next_file_number.unwrap();
        let after_prev = if said < self.prev_or_zero() + 1 {
            (self.prev_or_zero() + 1) as u64
        } else {
            said
        };
        if after_prev < self.log_number.unwrap() + 1 {
            (self.log_number.unwrap() + 1) as u64
        } else {
            after_prev
        }
    }
}

/// What the records of the manifest `log` say from `pos` on, given what
/// was said before; `None` where a record is corrupt or is no edit.
pub open spec fn scan(log: Seq<u8>, pos: nat, said: Recovered) -> Option<Recovered>
    decreases log.len() - pos,
{
    let step = read_at(log, pos, false, true, 0, None);
    match step.outcome {
        Outcome::End => Some(said),
        Outcome::Corrupt => None,
        Outcome::Record(payload) => match edit_parse(payload) {
            Some(edit) => if pos < step.pos <= log.len() {
                scan(log, step.pos, said.merge(edit))
            } else {
                None
            },
            None => None,
        },
    }
}

/// A read that yields a record moves on, stays within the log, and
/// leaves the reader in step with the records.
pub proof fn lemma_read_record_moves(
    log: Seq<u8>,
    pos: nat,
    resyncing: bool,
    checksum: bool,
    initial_offset: nat,
    partial: Option<Seq<u8>>,
)
    ensures
        ({
            let step = read_at(log, pos, resyncing, checksum, initial_offset, partial);
            step.outcome is Record ==> pos < step.pos <= log.len() && !step.resyncing
        }),
    decreases log.len() - pos,
{
    lemma_physical_bounds(log, pos, checksum);
    match physical_at(log, pos, checksum) {
        Physical::Record { tag, payload, start, next } => {
            if !(pos <= start < next <= log.len()) {
            } else if start < initial_offset {
                lemma_read_record_moves(log, next, resyncing, checksum, initial_offset, partial);
            } else if resyncing && (tag == MIDDLE || tag == LAST) {
                lemma_read_record_moves(log, next, true, checksum, initial_offset, partial);
            } else if tag == FIRST && partial is None {
                lemma_read_record_moves(log, next, false, checksum, initial_offset, Some(payload));
            } else if tag == MIDDLE && partial is Some {
                lemma_read_record_moves(
                    log,
                    next,
                    false,
                    checksum,
                    initial_offset,
                    Some(partial.unwrap() + payload),
                );
            }
        },
        _ => {},
    }
}

/// The numbers that a database carries from one run to the next.
pub struct VersionSet {
    dbname: String,
    last_sequence: u64,
    next_file_number: u64,
    log_number: u64,
    prev_log_number: u64,
}

impl VersionSet {
    /// The name of the database.
    pub closed spec fn spec_dbname(&self) -> Seq<char> {
        self.dbname@
    }

    /// The sequence number of the last write.
    pub closed spec fn spec_last_sequence(&self) -> u64 {
        self.last_sequence
    }

    /// The number that the next file gets.
    pub closed spec fn spec_next_file_number(&self) -> u64 {
        self.next_file_number
    }

    /// The number of the current log.
    pub closed spec fn spec_log_number(&self) -> u64 {
        self.log_number
    }

    /// The number of the log before the current one; zero for none.
    pub closed spec fn spec_prev_log_number(&self) -> u64 {
        self.prev_log_number
    }

    /// The version set of a database that has not written anything.
    pub fn new(db_name: &str) -> (v: Self)
        ensures
            v.spec_dbname() == db_name@,
            v.spec_last_sequence() == 0,
            v.spec_next_file_number() == 0,
            v.spec_log_number() == 0,
            v.spec_prev_log_number() == 0,
    {
        VersionSet {
            dbname: String::from_str(db_name),
            last_sequence: 0,
            next_file_number: 0,
            log_number: 0,
            prev_log_number: 0,
        }
    }

    /// Nothing is to be set up beyond what `new` does.
    pub fn init(&mut self)
        ensures
            *final(self) == *old(self),
    {
    }

    /// The name of the database.
    pub fn dbname(&self) -> (name: &str)
        ensures
            name@ == self.spec_dbname(),
    {
        self.dbname.as_str()
    }

    /// The sequence number of the last write.
    pub fn last_sequence(&self) -> (s: u64)
        ensures
            s == self.spec_last_sequence(),
    {
        self.last_sequence
    }

    /// The number that the next file gets.
    pub fn next_file_number(&self) -> (n: u64)
        ensures
            n == self.spec_next_file_number(),
    {
        self.next_file_number
    }

    /// The number of the current log.
    pub fn log_number(&self) -> (n: u64)
        ensures
            n == self.spec_log_number(),
    {
        self.log_number
    }

    /// The number of the log before the current one; zero for none.
    pub fn prev_log_number(&self) -> (n: u64)
        ensures
            n == self.spec_prev_log_number(),
    {
        self.prev_log_number
    }

    /// Sets the sequence number of the last write, which never falls.
    pub fn set_last_sequence(&mut self, s: u64)
        requires
            s >= old(self).spec_last_sequence(),
        ensures
            final(self).spec_last_sequence() == s,
            final(self).spec_dbname() == old(self).spec_dbname(),
            final(self).spec_next_file_number() == old(self).spec_next_file_number(),
            final(self).spec_log_number() == old(self).spec_log_number(),
            final(self).spec_prev_log_number() == old(self).spec_prev_log_number(),
    {
        self.last_sequence = s;
    }

    /// Makes sure that the file number `number` is not given out again:
    /// the next file number becomes `number + 1` where it is not larger
    /// already.
    pub fn mark_file_number_used(&mut self, number: u64)
        requires
            number < u64::MAX,
        ensures
            final(self).spec_next_file_number() == if old(self).spec_next_file_number() < number
                + 1 {
                (number + 1) as u64
            } else {
                old(self).spec_next_file_number()
            },
            final(self).spec_last_sequence() == old(self).spec_last_sequence(),
            final(self).spec_dbname() == old(self).spec_dbname(),
            final(self).spec_log_number() == old(self).spec_log_number(),
            final(self).spec_prev_log_number() == old(self).spec_prev_log_number(),
    {
        if self.next_file_number <= number {
            self.next_file_number = number + 1;
        }
    }

    /// Takes the state from what a manifest said.
    fn adopt(
        &mut self,
        log_number: Option<u64>,
        prev_log_number: Option<u64>,
        next_file_number: Option<u64>,
        last_sequence: Option<u64>,
    ) -> (r: Result<(), Error>)
        ensures
            ({
                let said = Recovered { log_number, prev_log_number, next_file_number, last_sequence };
                if said.complete() {
                    &&& r is Ok
                    &&& final(self).spec_dbname() == old(self).spec_dbname()
                    &&& final(self).spec_last_sequence() == said.last_sequence.unwrap()
                    &&& final(self).spec_log_number() == said.log_number.unwrap()
                    &&& final(self).spec_prev_log_number() == said.prev_or_zero()
                    &&& final(self).spec_next_file_number() == said.next_file()
                } else {
                    r == Err::<(), Error>(Error::Corruption) && *final(self) == *old(self)
                }
            }),
    {
        let (log, next, last) = match (log_number, next_file_number, last_sequence) {
            (Some(log), Some(next), Some(last)) => (log, next, last),
            _ => {
                return Err(Error::Corruption);
            },
        };
        let prev = match prev_log_number {
            Some(n) => n,
            None => 0,
        };
        if log == u64::MAX || prev == u64::MAX {
            return Err(Error::Corruption);
        }
        self.next_file_number = next;
        self.mark_file_number_used(prev);
        self.mark_file_number_used(log);
        self.last_sequence = last;
        self.log_number = log;
        self.prev_log_number = prev;
        Ok(())
    }

    /// Recovers the state from the manifest: reads its records, each of
    /// them an edit, and takes over what the last edits say of the log
    /// number, the previous log number, the next file number and the last
    /// sequence number. Fails with `Corruption`, and changes nothing, where
    /// a record is corrupt or is no edit, where the next file number, the
    /// log number or the last sequence number is said nowhere, or where a
    /// log number is the largest number there is; an error of the file is
    /// handed on.
    pub fn prepare<F: SequentialFile>(&mut self, manifest: F) -> (r: Result<(), Error>)
        requires
            manifest.remaining().len() <= u64::MAX,
        ensures
            r is Err ==> *final(self) == *old(self),
            manifest.infallible() ==> (r is Err ==> r == Err::<(), Error>(Error::Corruption)),
            manifest.infallible() ==> (r is Ok <==> (scan(
                manifest.remaining(),
                0,
                Recovered::empty(),
            ) matches Some(said) && said.complete())),
            r is Ok ==> (scan(manifest.remaining(), 0, Recovered::empty()) matches Some(said) && {
                &&& said.complete()
                &&& final(self).spec_dbname() == old(self).spec_dbname()
                &&& final(self).spec_last_sequence() == said.last_sequence.unwrap()
                &&& final(self).spec_log_number() == said.log_number.unwrap()
                &&& final(self).spec_prev_log_number() == said.prev_or_zero()
                &&& final(self).spec_next_file_number() == said.next_file()
            }),
    {
        let ghost log = manifest.remaining();
        let mut reader = Reader::new(manifest, true, 0);
        let mut scratch: Vec<u8> = Vec::new();
        let mut log_number: Option<u64> = None;
        let mut prev_log_number: Option<u64> = None;
        let mut next_file_number: Option<u64> = None;
        let mut last_sequence: Option<u64> = None;
        loop
            invariant
                *self == *old(self),
                reader.wf(),
                reader.intact(),
                reader.log() == log,
                reader.checksum(),
                reader.initial_offset() == 0,
                !reader.resyncing(),
                reader.infallible() == manifest.infallible(),
                log == manifest.remaining(),
                scan(log, 0, Recovered::empty()) == scan(
                    log,
                    reader.position(),
                    Recovered { log_number, prev_log_number, next_file_number, last_sequence },
                ),
            decreases reader.budget(),
        {
            proof {
                lemma_read_record_moves(log, reader.position(), false, true, 0, None);
            }
            match reader.read_record(&mut scratch) {
                Ok(true) => {
                    let edit = match VersionEdit::decode_from(scratch.as_slice()) {
                        Ok(edit) => edit,
                        Err(_) => {
                            return Err(Error::Corruption);
                        },
                    };
                    if edit.log_number().is_some() {
                        log_number = edit.log_number();
                    }
                    if edit.prev_log_number().is_some() {
                        prev_log_number = edit.prev_log_number();
                    }
                    if edit.next_file_number().is_some() {
                        next_file_number = edit.next_file_number();
                    }
                    if edit.last_sequence().is_some() {
                        last_sequence = edit.last_sequence();
                    }
                },
                Ok(false) => {
                    return self.adopt(log_number, prev_log_number, next_file_number, last_sequence);
                },
                Err(e) => {
                    return Err(e);
                },
            }
        }
    }
}

/// The name of the manifest that the contents of the file `CURRENT` give:
/// the contents without the newline at their end. Fails with `Corruption`
/// where the contents are empty or do not end in a newline.
pub fn manifest_name(current: &[u8]) -> (r: Result<&[u8], Error>)
    ensures
        match r {
            Ok(name) => current@ == name@.push(10u8),
            Err(e) => e == Error::Corruption && (current@.len() == 0 || current@.last() != 10u8),
        },
{
    let len = current.len();
    if len == 0 || current[len - 1] != 10u8 {
        return Err(Error::Corruption);
    }
    let name = vstd::slice::slice_subrange(current, 0, len - 1);
    assert(current@ =~= name@.push(10u8));
    Ok(name)
}

} // verus!
