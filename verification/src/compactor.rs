//! Sans-I/O state machine controlling the compaction loop.
//!
//! The compactor walks one immutable file at a time. For each decoded
//! record it asks the index whether the record is still the live one
//! for its key; live records are copied to the compaction output and
//! get a hint entry, superseded records and tombstones are ignored.
//! Between passes the machine lies dormant for an hour. The machine
//! performs no file or clock access of its own: the driver feeds it
//! inputs and carries out the operations it emits, so every transition
//! here is a pure, fully specified step.

use std::collections::VecDeque;

use vstd::prelude::*;

use crate::repr::Entry;

verus! {

/// How long the compactor lies dormant between passes, in seconds.
pub const DORMANCY_SECS: u64 = 3600;

/// The state of one compaction worker.
pub enum State {
    /// Dormant; holds the time at which the last pass finished.
    Wait(u64),
    /// Actively walking an immutable file.
    Compact,
}

/// A unit of work the state machine asks the driver to perform.
#[derive(Debug)]
pub enum Operation {
    /// Ignore the current record: it is superseded, deleted, or a
    /// tombstone.
    Ignore,
    /// Find the next immutable file to process.
    CheckFile,
    /// Ask the index whether this key's current locator matches the
    /// record being examined.
    CheckKeydir(Vec<u8>),
    /// Copy the current record to the compaction output.
    AddImmutable,
    /// Append a hint entry for the record just copied.
    AddHint,
}

/// The view of an [`Operation`]: its kind, plus the key for an index
/// check.
pub enum OperationModel {
    Ignore,
    CheckFile,
    CheckKeydir(Seq<u8>),
    AddImmutable,
    AddHint,
}

impl Operation {
    /// The mathematical shape of this operation.
    pub open spec fn view(&self) -> OperationModel {
        match self {
            Operation::Ignore => OperationModel::Ignore,
            Operation::CheckFile => OperationModel::CheckFile,
            Operation::CheckKeydir(k) => OperationModel::CheckKeydir(k@),
            Operation::AddImmutable => OperationModel::AddImmutable,
            Operation::AddHint => OperationModel::AddHint,
        }
    }
}

/// An input the driver hands the state machine.
pub enum Input {
    /// The next decoded record of the file being walked.
    Entry(Entry),
    /// The file walk is exhausted; carries the current time.
    End(u64),
    /// The index's locator equals the one of the record just asked
    /// about.
    MatchKeydir,
    /// The index holds no matching locator for the record just asked
    /// about.
    NotMatchkeydir,
}

/// The sans-I/O compaction state machine.
pub struct Compactor {
    operations: VecDeque<Operation>,
    state: State,
}

impl Compactor {
    /// Model: the queue of pending operations, oldest first.
    pub closed spec fn ops(&self) -> Seq<OperationModel> {
        self.operations@.map_values(|op: Operation| op@)
    }

    /// Model: whether the machine is dormant, and since when.
    pub closed spec fn dormant_since(&self) -> Option<u64> {
        match self.state {
            State::Wait(at) => Some(at),
            State::Compact => None,
        }
    }

    /// A fresh compactor: compacting, ready to ask for a file to walk
    /// as soon as it is polled.
    pub fn new() -> (r: Compactor)
        ensures
            r.ops() == seq![OperationModel::CheckFile],
            r.dormant_since() is None,
    {
        let mut queue: VecDeque<Operation> = VecDeque::new();
        queue.push_back(Operation::CheckFile);
        let r = Compactor { operations: queue, state: State::Compact };
        proof {
            assert(r.ops() =~= seq![OperationModel::CheckFile]);
        }
        r
    }

    /// Feeds the machine one input.
    ///
    /// While dormant every input is ignored. While compacting: a
    /// tombstone record is dropped, a live record provokes an index
    /// check on its key, a matching answer queues the copy and its hint
    /// entry, a non-matching answer queues a drop, and the end of the
    /// file puts the machine to sleep at the given time.
    pub fn handle_input(&mut self, input: Input)
        ensures
            match old(self).dormant_since() {
                Some(at) => final(self).ops() == old(self).ops() && final(self).dormant_since()
                    == Some(at),
                None => match input {
                    Input::Entry(e) => {
                        &&& final(self).ops() == old(self).ops().push(
                            if e.header.tombstone == crate::repr::IS_DELETED {
                                OperationModel::Ignore
                            } else {
                                OperationModel::CheckKeydir(e.spec_key())
                            },
                        )
                        &&& final(self).dormant_since() is None
                    },
                    Input::MatchKeydir => {
                        &&& final(self).ops() == old(self).ops().push(
                            OperationModel::AddImmutable,
                        ).push(OperationModel::AddHint)
                        &&& final(self).dormant_since() is None
                    },
                    Input::NotMatchkeydir => {
                        &&& final(self).ops() == old(self).ops().push(OperationModel::Ignore)
                        &&& final(self).dormant_since() is None
                    },
                    Input::End(now) => {
                        &&& final(self).ops() == old(self).ops()
                        &&& final(self).dormant_since() == Some(now)
                    },
                },
            },
    {
        match self.state {
            State::Wait(_at) => {
            },
            State::Compact => {
                match input {
                    Input::Entry(entry) => {
                        if entry.is_tombstone() {
                            self.operations.push_back(Operation::Ignore);
                        } else {
                            let key = vstd::slice::slice_to_vec(entry.key());
                            self.operations.push_back(Operation::CheckKeydir(key));
                        }
                        proof {
                            assert(self.ops() =~= old(self).ops().push(
                                if entry.header.tombstone == crate::repr::IS_DELETED {
                                    OperationModel::Ignore
                                } else {
                                    OperationModel::CheckKeydir(entry.spec_key())
                                },
                            ));
                        }
                    },
                    Input::MatchKeydir => {
                        self.operations.push_back(Operation::AddImmutable);
                        self.operations.push_back(Operation::AddHint);
                        proof {
                            assert(self.ops() =~= old(self).ops().push(
                                OperationModel::AddImmutable,
                            ).push(OperationModel::AddHint));
                        }
                    },
                    Input::NotMatchkeydir => {
                        self.operations.push_back(Operation::Ignore);
                        proof {
                            assert(self.ops() =~= old(self).ops().push(OperationModel::Ignore));
                        }
                    },
                    Input::End(now) => {
                        self.state = State::Wait(now);
                    },
                }
            },
        }
    }

    /// Wakes the machine if its dormancy has elapsed: at or after
    /// `since + DORMANCY_SECS` it queues a request for the next file and
    /// resumes compacting; earlier calls, and calls while compacting,
    /// change nothing.
    pub fn handle_timeout(&mut self, now: u64)
        ensures
            match old(self).dormant_since() {
                None => final(self).ops() == old(self).ops() && final(self).dormant_since()
                    is None,
                Some(at) => {
                    if at + DORMANCY_SECS <= now {
                        &&& final(self).ops() == old(self).ops().push(OperationModel::CheckFile)
                        &&& final(self).dormant_since() is None
                    } else {
                        &&& final(self).ops() == old(self).ops()
                        &&& final(self).dormant_since() == Some(at)
                    }
                },
            },
    {
        let last_sleep = match self.state {
            State::Wait(at) => at,
            State::Compact => {
                return ;
            },
        };
        if now < DORMANCY_SECS || last_sleep > now - DORMANCY_SECS {
            return ;
        }
        self.operations.push_back(Operation::CheckFile);
        self.state = State::Compact;
        proof {
            assert(self.ops() =~= old(self).ops().push(OperationModel::CheckFile));
        }
    }

    /// Hands the driver the next pending operation, oldest first.
    pub fn poll_transmit(&mut self) -> (r: Option<Operation>)
        ensures
            final(self).dormant_since() == old(self).dormant_since(),
            match r {
                Some(op) => old(self).ops().len() > 0 && op@ == old(self).ops()[0]
                    && final(self).ops() == old(self).ops().drop_first(),
                None => old(self).ops().len() == 0 && final(self).ops() == old(self).ops(),
            },
    {
        let r = self.operations.pop_front();
        proof {
            if old(self).operations@.len() > 0 {
                assert(self.ops() =~= old(self).ops().drop_first());
            }
        }
        r
    }

    /// The earliest time at which the machine will want to be driven
    /// again: the end of its dormancy, or nothing while compacting.
    pub fn poll_timeout(&self) -> (r: Option<u64>)
        ensures
            match self.dormant_since() {
                Some(at) => r == Some(if at + DORMANCY_SECS <= u64::MAX {
                    (at + DORMANCY_SECS) as u64
                } else {
                    u64::MAX
                }),
                None => r is None,
            },
    {
        match self.state {
            State::Wait(at) => {
                if at <= u64::MAX - DORMANCY_SECS {
                    Some(at + DORMANCY_SECS)
                } else {
                    Some(u64::MAX)
                }
            },
            State::Compact => None,
        }
    }
}

} // verus!
