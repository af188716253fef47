//! How a log file takes a record: when it rotates, what it asks of the disk and
//! in which order, and what that leaves on the disk.
//!
//! The disk is not touched here. [`Rotating::record`] names the first thing to
//! do, [`Rotating::after`] names the next one once its caller has done it and
//! says whether it succeeded.

use vstd::prelude::*;

verus! {

/// One thing to be done to the disk. Generation `n` is the file that was rotated
/// away `n` rotations ago; the active file is the one being written.
#[derive(Clone, Copy, PartialEq, Eq, Structural, Debug)]
pub enum Op {
    /// Force what the active file holds down to the disk.
    SyncRotated,
    /// Start the active file anew, with nothing in it.
    Truncate,
    /// Remove this generation. Whether there was one to remove does not matter.
    Discard(usize),
    /// Look whether there is such a generation; there is none if it fails.
    Look(usize),
    /// Rename this generation to the one after it.
    Rename(usize),
    /// Rename the active file to generation 1.
    Shelve,
    /// Open the active file for appending, and create it.
    Reopen,
    /// Append the whole record to the active file.
    Write,
    /// Hand what was written to the operating system.
    Flush,
    /// Force the record down to the disk.
    SyncRecord,
}

/// What follows an [`Op`].
#[derive(Clone, Copy, PartialEq, Eq, Structural, Debug)]
pub enum Next {
    /// This is to be done next.
    Do(Op),
    /// The record has been taken.
    Finished,
    /// The operation failed, and the record with it.
    Failed,
}

/// A record on its way into the file: its length, and whether it is to be forced
/// down to the disk.
#[derive(Clone, Copy, PartialEq, Eq, Structural, Debug)]
pub struct Entry {
    pub len: u64,
    pub sync: bool,
}

/// What is known of the active file, and the policy that it is kept to.
#[derive(Clone, Copy, PartialEq, Eq, Structural, Debug)]
pub struct Rotating {
    /// How many bytes the active file holds.
    pub written: u64,
    /// Rotate rather than let the active file pass this size.
    pub max_bytes: u64,
    /// How many generations to keep beside the active file.
    pub keep: usize,
    /// How many times the file has been forced down to the disk.
    pub syncs: u64,
}

impl Rotating {
    /// Whether a record of `len` bytes does not go into the active file as it is.
    /// An empty file takes a record of any size, so none is ever split.
    pub open spec fn rotates(self, len: nat) -> bool {
        self.written > 0 && self.written + len > self.max_bytes
    }

    /// What is to be done first for a record of `len` bytes.
    pub open spec fn first_op(self, len: nat) -> Op {
        if self.rotates(len) {
            Op::SyncRotated
        } else {
            Op::Write
        }
    }

    /// The state in which the active file is a new one.
    pub open spec fn emptied(self) -> Self {
        Rotating { written: 0, ..self }
    }

    /// The state in which the active file has been forced down once more.
    pub open spec fn synced(self) -> Self {
        Rotating { syncs: (self.syncs + 1) as u64, ..self }
    }

    /// How many times a record of `len` bytes forces the active file down: once for
    /// what is rotated away, and once for itself where it is to be.
    pub open spec fn syncs_for(self, len: nat, sync: bool) -> nat {
        (if self.rotates(len) {
            1nat
        } else {
            0
        }) + (if sync {
            1nat
        } else {
            0
        })
    }

    /// Generation `n` has been dealt with: the one before it is next, and the
    /// active file when there is none.
    pub open spec fn before(n: int) -> Op {
        if n > 1 {
            Op::Look((n - 1) as usize)
        } else {
            Op::Shelve
        }
    }

    /// What follows `op` in a rotation, and the state it leaves.
    pub open spec fn following_in_rotation(self, op: Op, ok: bool) -> (Self, Next) {
        match (op, ok) {
            (Op::Discard(_), _) => (self, Next::Do(Self::before(self.keep as int))),
            (Op::Look(n), true) => (self, Next::Do(Op::Rename(n))),
            (Op::Look(n), false) => (self, Next::Do(Self::before(n as int))),
            (_, false) => (self, Next::Failed),
            (Op::SyncRotated, true) => (
                self.synced(),
                Next::Do(
                    if self.keep == 0 {
                        Op::Truncate
                    } else {
                        Op::Discard(self.keep)
                    },
                ),
            ),
            (Op::Rename(n), true) => (self, Next::Do(Self::before(n as int))),
            (Op::Shelve, true) => (self, Next::Do(Op::Reopen)),
            (_, true) => (self.emptied(), Next::Do(Op::Write)),
        }
    }

    /// What follows `op`, which has succeeded or not, and the state it leaves.
    pub open spec fn following(self, entry: Entry, op: Op, ok: bool) -> (Self, Next) {
        match (op, ok) {
            (Op::Write, true) => (
                Rotating { written: (self.written + entry.len) as u64, ..self },
                Next::Do(Op::Flush),
            ),
            (Op::Flush, true) => (
                self,
                if entry.sync {
                    Next::Do(Op::SyncRecord)
                } else {
                    Next::Finished
                },
            ),
            (Op::SyncRecord, true) => (self.synced(), Next::Finished),
            (Op::Write, false) | (Op::Flush, false) | (Op::SyncRecord, false) => (
                self,
                Next::Failed,
            ),
            _ => self.following_in_rotation(op, ok),
        }
    }

    /// Whether `op` can be what is being done for `entry`: a generation that is
    /// moved is one of those kept, and what is counted can be counted.
    pub open spec fn fits(self, entry: Entry, op: Op) -> bool {
        &&& match op {
            Op::Look(n) | Op::Rename(n) => 1 <= n < self.keep,
            Op::SyncRecord => entry.sync,
            _ => true,
        }
        &&& op is Flush || op is SyncRecord || self.written + entry.len <= u64::MAX
        &&& self.syncs + (if op is SyncRotated {
            1int
        } else {
            0
        }) + (if entry.sync {
            1int
        } else {
            0
        }) <= u64::MAX
    }

    /// The first thing to do for a record.
    pub fn record(&self, entry: Entry) -> (r: Op)
        requires
            self.written + entry.len <= u64::MAX,
            self.syncs + self.syncs_for(entry.len as nat, entry.sync) <= u64::MAX,
        ensures
            r == self.first_op(entry.len as nat),
            self.fits(entry, r),
    {
        if self.written > 0 && self.written + entry.len > self.max_bytes {
            Op::SyncRotated
        } else {
            Op::Write
        }
    }

    /// What follows `op` in a rotation, after it has succeeded or not.
    fn rotate(&mut self, op: Op, ok: bool) -> (r: Next)
        requires
            op is SyncRotated || op is Truncate || op is Discard || op is Look || op is Rename
                || op is Shelve || op is Reopen,
            op is SyncRotated ==> old(self).syncs < u64::MAX,
            op matches Op::Look(n) ==> 1 <= n < old(self).keep,
            op matches Op::Rename(n) ==> 1 <= n < old(self).keep,
        ensures
            (*final(self), r) == old(self).following_in_rotation(op, ok),
    {
        match op {
            Op::Discard(_) => {
                if self.keep > 1 {
                    return Next::Do(Op::Look(self.keep - 1));
                }
                Next::Do(Op::Shelve)
            },
            Op::Look(n) if ok => Next::Do(Op::Rename(n)),
            Op::Look(n) => if n > 1 {
                Next::Do(Op::Look(n - 1))
            } else {
                Next::Do(Op::Shelve)
            },
            _ if !ok => Next::Failed,
            Op::SyncRotated => {
                self.syncs = self.syncs + 1;
                if self.keep == 0 {
                    // There is nowhere to roll to: discard rather than grow.
                    return Next::Do(Op::Truncate);
                }
                Next::Do(Op::Discard(self.keep))
            },
            Op::Rename(n) => if n > 1 {
                Next::Do(Op::Look(n - 1))
            } else {
                Next::Do(Op::Shelve)
            },
            Op::Shelve => Next::Do(Op::Reopen),
            _ => {
                self.written = 0;
                Next::Do(Op::Write)
            },
        }
    }

    /// What follows `op`, after it has succeeded or not.
    pub fn after(&mut self, entry: Entry, op: Op, ok: bool) -> (r: Next)
        requires
            old(self).fits(entry, op),
        ensures
            (*final(self), r) == old(self).following(entry, op, ok),
            r matches Next::Do(next) ==> final(self).fits(entry, next),
    {
        match op {
            Op::Write => {
                if !ok {
                    return Next::Failed;
                }
                self.written = self.written + entry.len;
                Next::Do(Op::Flush)
            },
            Op::Flush => {
                if !ok {
                    return Next::Failed;
                }
                if entry.sync {
                    Next::Do(Op::SyncRecord)
                } else {
                    Next::Finished
                }
            },
            Op::SyncRecord => {
                if !ok {
                    return Next::Failed;
                }
                self.syncs = self.syncs + 1;
                Next::Finished
            },
            _ => self.rotate(op, ok),
        }
    }
}

/// Whether `op` forces the active file down to the disk.
pub open spec fn is_sync(op: Op) -> bool {
    op is SyncRotated || op is SyncRecord
}

/// Every time the file is forced down is counted, whatever the disk does: an
/// operation adds one exactly where it is such a sync and succeeds.
pub proof fn every_sync_is_counted(rotating: Rotating, entry: Entry, op: Op, ok: bool)
    requires
        rotating.fits(entry, op),
    ensures
        rotating.following(entry, op, ok).0.syncs == rotating.syncs + if ok && is_sync(op) {
            1int
        } else {
            0
        },
{
}

/// A rotation happens where it is needed and only there: a record that fits beside
/// what the active file holds is written at once, and so is any record to an empty
/// file, however large. Every other one has the file rotated away first.
pub proof fn file_rotates_only_where_it_must(rotating: Rotating, len: nat)
    ensures
        rotating.written + len <= rotating.max_bytes ==> rotating.first_op(len) == Op::Write,
        rotating.written == 0 ==> rotating.first_op(len) == Op::Write,
        rotating.written > 0 && rotating.written + len > rotating.max_bytes ==> rotating.first_op(
            len,
        ) == Op::SyncRotated,
        rotating.syncs_for(len, false) == if rotating.first_op(len) == Op::SyncRotated {
            1nat
        } else {
            0
        },
        rotating.syncs_for(len, true) == rotating.syncs_for(len, false) + 1,
{
}

/// What the active file holds is counted as it comes about: a record that is written
/// adds its length, a new file holds nothing, and nothing else changes the count. The
/// policy never changes.
pub proof fn bytes_are_counted_as_they_are_written(
    rotating: Rotating,
    entry: Entry,
    op: Op,
    ok: bool,
)
    requires
        rotating.fits(entry, op),
    ensures
        ({
            let after = rotating.following(entry, op, ok).0;
            &&& after.max_bytes == rotating.max_bytes
            &&& after.keep == rotating.keep
            &&& ok && op == Op::Write ==> after.written == rotating.written + entry.len
            &&& ok && (op == Op::Truncate || op == Op::Reopen) ==> after.written == 0
            &&& !ok || !(op == Op::Write || op == Op::Truncate || op == Op::Reopen)
                ==> after.written == rotating.written
        }),
{
}

/// A record has been taken exactly when it has been handed to the operating system,
/// and forced down to the disk where it is to be. It fails exactly when something
/// fails that had to succeed, and then nothing of what is known has changed: removing
/// a generation may fail, and that a generation is not there is no failure.
pub proof fn record_is_taken_only_once_it_is_down(
    rotating: Rotating,
    entry: Entry,
    op: Op,
    ok: bool,
)
    ensures
        rotating.following(entry, op, ok).1 == Next::Finished <==> ok && (op == Op::SyncRecord || op
            == Op::Flush && !entry.sync),
        rotating.following(entry, op, ok).1 == Next::Failed <==> !ok && !(op is Discard) && !(op
            is Look),
        !ok ==> rotating.following(entry, op, ok).0 == rotating,
{
}

/// A record is written, then flushed, then forced down if it is to be; room is made
/// for it by forcing down what is rotated away, removing the last generation kept,
/// moving each generation that is there one back from the oldest on, then the active
/// file, and starting a new one. With no generation to keep, the file is emptied
/// instead.
pub proof fn everything_is_done_in_order(rotating: Rotating, entry: Entry, n: usize)
    requires
        1 <= n < rotating.keep,
    ensures
        rotating.following(entry, Op::SyncRotated, true).1 == Next::Do(Op::Discard(rotating.keep)),
        forall|ok: bool|
            (#[trigger] rotating.following(entry, Op::Discard(rotating.keep), ok)).1 == Next::Do(
                Op::Look((rotating.keep - 1) as usize),
            ),
        rotating.following(entry, Op::Look(n), true).1 == Next::Do(Op::Rename(n)),
        n > 1 ==> rotating.following(entry, Op::Look(n), false).1 == Next::Do(
            Op::Look((n - 1) as usize),
        ) && rotating.following(entry, Op::Rename(n), true).1 == Next::Do(
            Op::Look((n - 1) as usize),
        ),
        n == 1 ==> rotating.following(entry, Op::Look(n), false).1 == Next::Do(Op::Shelve)
            && rotating.following(entry, Op::Rename(n), true).1 == Next::Do(Op::Shelve),
{
}

/// The rest of that order, which does not depend on a generation that is looked at.
pub proof fn everything_else_is_done_in_order(rotating: Rotating, entry: Entry)
    ensures
        rotating.keep == 0 ==> rotating.following(entry, Op::SyncRotated, true).1 == Next::Do(
            Op::Truncate,
        ),
        rotating.keep > 0 ==> rotating.following(entry, Op::SyncRotated, true).1 == Next::Do(
            Op::Discard(rotating.keep),
        ),
        rotating.keep == 1 ==> forall|ok: bool|
            (#[trigger] rotating.following(entry, Op::Discard(1), ok)).1 == Next::Do(Op::Shelve),
        rotating.following(entry, Op::Shelve, true).1 == Next::Do(Op::Reopen),
        rotating.following(entry, Op::Reopen, true).1 == Next::Do(Op::Write),
        rotating.following(entry, Op::Truncate, true).1 == Next::Do(Op::Write),
        rotating.following(entry, Op::Write, true).1 == Next::Do(Op::Flush),
        entry.sync ==> rotating.following(entry, Op::Flush, true).1 == Next::Do(Op::SyncRecord),
{
}

} // verus!
