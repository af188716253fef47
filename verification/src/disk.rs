//! What taking records leaves on the disk: the files as bytes, what each
//! [`Op`] does to them, and what holds of a log file after any records.

use crate::rotation::{Entry, Next, Op, Rotating};
use vstd::prelude::*;

verus! {

/// Whether `op` succeeds on a disk in order that holds `files`. File 0 is the
/// active one, file `n` is generation `n`.
pub open spec fn succeeds(op: Op, files: Map<nat, Seq<u8>>) -> bool {
    op matches Op::Look(n) ==> files.contains_key(n as nat)
}

/// What `op` makes of `files`, where the record being taken is `record`.
pub open spec fn performed(op: Op, files: Map<nat, Seq<u8>>, record: Seq<u8>) -> Map<
    nat,
    Seq<u8>,
> {
    match op {
        Op::Truncate => files.insert(0, Seq::empty()),
        Op::Discard(n) => files.remove(n as nat),
        Op::Rename(n) => files.insert(n as nat + 1, files[n as nat]).remove(n as nat),
        Op::Shelve => files.insert(1, files[0]).remove(0),
        Op::Reopen => if files.contains_key(0) {
            files
        } else {
            files.insert(0, Seq::empty())
        },
        Op::Write => files.insert(0, files[0] + record),
        _ => files,
    }
}

/// What a record has come to: the state, the files, and what was done for it.
#[verifier::ext_equal]
pub struct Run {
    pub rotating: Rotating,
    pub files: Map<nat, Seq<u8>>,
    pub ops: Seq<Op>,
}

/// How many things at most are still to be done after `op`.
pub open spec fn steps_after(keep: nat, op: Op) -> nat {
    match op {
        Op::SyncRotated => 2 * keep + 10,
        Op::Discard(_) => 2 * keep + 9,
        Op::Look(n) => 2 * n as nat + 8,
        Op::Rename(n) => 2 * n as nat + 7,
        Op::Shelve => 6,
        Op::Reopen => 5,
        Op::Truncate => 5,
        Op::Write => 3,
        Op::Flush => 2,
        Op::SyncRecord => 1,
    }
}

/// Takes `record` from `op` on, on a disk in order that holds `files`.
pub open spec fn run(
    rotating: Rotating,
    entry: Entry,
    record: Seq<u8>,
    op: Op,
    files: Map<nat, Seq<u8>>,
) -> Run
    decreases steps_after(rotating.keep as nat, op),
{
    let (after, next) = rotating.following(entry, op, succeeds(op, files));
    let left = performed(op, files, record);
    match next {
        Next::Do(then_do) => {
            let rest = run(after, entry, record, then_do, left);
            Run { ops: seq![op] + rest.ops, ..rest }
        },
        _ => Run { rotating: after, files: left, ops: seq![op] },
    }
}

/// Takes `record` whole, on a disk in order that holds `files`.
pub open spec fn recording(
    rotating: Rotating,
    record: Seq<u8>,
    sync: bool,
    files: Map<nat, Seq<u8>>,
) -> Run {
    run(
        rotating,
        Entry { len: record.len() as u64, sync },
        record,
        rotating.first_op(record.len()),
        files,
    )
}

/// `files` with generations 1 to `n` each moved one back, and no generation 1.
pub open spec fn shifted(files: Map<nat, Seq<u8>>, n: nat) -> Map<nat, Seq<u8>> {
    Map::new(
        |m: nat|
            if 1 <= m <= n + 1 {
                m > 1 && files.contains_key((m - 1) as nat)
            } else {
                files.contains_key(m)
            },
        |m: nat|
            if 1 <= m <= n + 1 {
                files[(m - 1) as nat]
            } else {
                files[m]
            },
    )
}

/// `files` after a rotation that keeps `keep` generations, with a new active
/// file: every file has become the generation after it, and the last one kept
/// has given way.
pub open spec fn rotated(files: Map<nat, Seq<u8>>, keep: nat) -> Map<nat, Seq<u8>> {
    Map::new(
        |m: nat|
            if 1 <= m <= keep {
                files.contains_key((m - 1) as nat)
            } else {
                m == 0 || files.contains_key(m)
            },
        |m: nat|
            if m == 0 {
                Seq::empty()
            } else if m <= keep {
                files[(m - 1) as nat]
            } else {
                files[m]
            },
    )
}

/// `files` after a record has been taken.
pub open spec fn recorded(rotating: Rotating, record: Seq<u8>, files: Map<nat, Seq<u8>>) -> Map<
    nat,
    Seq<u8>,
> {
    if !rotating.rotates(record.len()) {
        files.insert(0, files[0] + record)
    } else {
        rotated(files, rotating.keep as nat).insert(0, record)
    }
}

/// Whether what is known of the active file is so.
pub open spec fn in_step(rotating: Rotating, files: Map<nat, Seq<u8>>) -> bool {
    files.contains_key(0) && files[0].len() == rotating.written
}

/// Whether a record of `len` bytes can be counted, and its syncs too.
pub open spec fn countable(rotating: Rotating, len: nat, sync: bool) -> bool {
    &&& rotating.written + len <= u64::MAX
    &&& rotating.syncs + rotating.syncs_for(len, sync) <= u64::MAX
}

/// What is known of the active file after a record of `len` bytes.
pub open spec fn counted(rotating: Rotating, len: nat, sync: bool) -> Rotating {
    Rotating {
        written: (if rotating.rotates(len) {
            len as int
        } else {
            rotating.written + len
        }) as u64,
        syncs: (rotating.syncs + rotating.syncs_for(len, sync)) as u64,
        ..rotating
    }
}

/// What is done for a record itself, once there is room for it.
pub open spec fn taking(sync: bool) -> Seq<Op> {
    if sync {
        seq![Op::Write, Op::Flush, Op::SyncRecord]
    } else {
        seq![Op::Write, Op::Flush]
    }
}

/// Whether `op` makes room for a record: everything but the record's own part.
pub open spec fn makes_room(op: Op) -> bool {
    !(op is Write || op is Flush || op is SyncRecord)
}

proof fn lemma_take(
    rotating: Rotating,
    entry: Entry,
    record: Seq<u8>,
    files: Map<nat, Seq<u8>>,
)
    ensures
        ({
            let r = run(rotating, entry, record, Op::Write, files);
            &&& r.rotating == Rotating {
                written: (rotating.written + entry.len) as u64,
                syncs: (rotating.syncs + if entry.sync {
                    1int
                } else {
                    0
                }) as u64,
                ..rotating
            }
            &&& r.files == files.insert(0, files[0] + record)
            &&& r.ops == taking(entry.sync)
        }),
{
    reveal_with_fuel(run, 4);
    assert(run(rotating, entry, record, Op::Write, files).ops =~= taking(entry.sync));
}

proof fn lemma_shift(
    rotating: Rotating,
    entry: Entry,
    record: Seq<u8>,
    n: usize,
    files: Map<nat, Seq<u8>>,
) -> (ops: Seq<Op>)
    requires
        1 <= n < rotating.keep,
        !files.contains_key(n as nat + 1),
    ensures
        ({
            let moved = run(rotating, entry, record, Op::Look(n), files);
            let shelved = run(rotating, entry, record, Op::Shelve, shifted(files, n as nat));
            &&& moved.rotating == shelved.rotating
            &&& moved.files == shelved.files
            &&& moved.ops == ops + shelved.ops
            &&& forall|i: int| 0 <= i < ops.len() ==> makes_room(#[trigger] ops[i])
            &&& forall|i: int| 0 <= i < ops.len() ==> !crate::rotation::is_sync(#[trigger] ops[i])
        }),
    decreases n,
{
    let shelved = run(rotating, entry, record, Op::Shelve, shifted(files, n as nat));
    let moved = run(rotating, entry, record, Op::Look(n), files);
    let (left, first) = if files.contains_key(n as nat) {
        (performed(Op::Rename(n), files, record), seq![Op::Look(n), Op::Rename(n)])
    } else {
        (files, seq![Op::Look(n)])
    };
    let rest = run(rotating, entry, record, Rotating::before(n as int), left);
    reveal_with_fuel(run, 3);
    assert(moved.rotating == rest.rotating && moved.files == rest.files);
    assert(moved.ops =~= first + rest.ops);
    if n > 1 {
        let ops = lemma_shift(rotating, entry, record, (n - 1) as usize, left);
        assert(shifted(left, (n - 1) as nat) =~= shifted(files, n as nat));
        assert(moved.ops =~= (first + ops) + shelved.ops);
        first + ops
    } else {
        assert(left =~= shifted(files, n as nat));
        first
    }
}

/// A rotation on a disk in order, and the record after it.
proof fn lemma_rotate(
    rotating: Rotating,
    entry: Entry,
    record: Seq<u8>,
    files: Map<nat, Seq<u8>>,
) -> (ops: Seq<Op>)
    requires
        files.contains_key(0),
        rotating.syncs < u64::MAX,
    ensures
        ({
            let r = run(rotating, entry, record, Op::SyncRotated, files);
            let room = rotated(files, rotating.keep as nat);
            let taken = run(rotating.synced().emptied(), entry, record, Op::Write, room);
            &&& r.rotating == taken.rotating
            &&& r.files == taken.files
            &&& r.ops == ops + taken.ops
            &&& ops.len() > 0
            &&& ops[0] == Op::SyncRotated
            &&& forall|i: int| 0 <= i < ops.len() ==> makes_room(#[trigger] ops[i])
            &&& forall|i: int| 1 <= i < ops.len() ==> !crate::rotation::is_sync(#[trigger] ops[i])
        }),
{
    let keep = rotating.keep;
    let r = run(rotating, entry, record, Op::SyncRotated, files);
    let room = rotated(files, keep as nat);
    let taken = run(rotating.synced().emptied(), entry, record, Op::Write, room);
    if keep == 0 {
        reveal_with_fuel(run, 3);
        assert(performed(Op::Truncate, files, record) =~= room);
        let ops = seq![Op::SyncRotated, Op::Truncate];
        assert(r.ops =~= ops + taken.ops);
        ops
    } else {
        let left = files.remove(keep as nat);
        let all = if keep > 1 {
            shifted(left, (keep - 1) as nat)
        } else {
            left
        };
        let shelved = run(rotating.synced(), entry, record, Op::Shelve, all);
        let moves = if keep > 1 {
            lemma_shift(rotating.synced(), entry, record, (keep - 1) as usize, left)
        } else {
            Seq::empty()
        };
        let first = seq![Op::SyncRotated, Op::Discard(keep)];
        assert(r.rotating == shelved.rotating && r.files == shelved.files && r.ops =~= first + moves
            + shelved.ops) by {
            reveal_with_fuel(run, 3);
        }
        let last = seq![Op::Shelve, Op::Reopen];
        assert(shelved.rotating == taken.rotating && shelved.files == taken.files && shelved.ops
            =~= last + taken.ops) by {
            reveal_with_fuel(run, 3);
            let new = performed(Op::Reopen, performed(Op::Shelve, all, record), record);
            assert(new =~= room);
        }
        let ops = first + moves + last;
        assert(r.ops =~= ops + taken.ops);
        ops
    }
}

/// A record lands whole in the active file. Where it would take the file past
/// its size, every file first becomes the generation after it, the last one kept
/// gives way, and the record stands alone in a new active file.
pub proof fn record_lands_whole(
    rotating: Rotating,
    record: Seq<u8>,
    sync: bool,
    files: Map<nat, Seq<u8>>,
)
    requires
        in_step(rotating, files),
        countable(rotating, record.len(), sync),
    ensures
        recording(rotating, record, sync, files).files == recorded(rotating, record, files),
        recording(rotating, record, sync, files).rotating == counted(
            rotating,
            record.len(),
            sync,
        ),
        in_step(counted(rotating, record.len(), sync), recorded(rotating, record, files)),
{
    let entry = Entry { len: record.len() as u64, sync };
    if rotating.rotates(record.len()) {
        lemma_rotate(rotating, entry, record, files);
        let room = rotated(files, rotating.keep as nat);
        lemma_take(rotating.synced().emptied(), entry, record, room);
        assert(room[0] + record =~= record);
    } else {
        lemma_take(rotating, entry, record, files);
    }
}

/// Every record is written once, whole, and handed to the operating system at
/// once; it is forced down to the disk exactly when it is to be. What is rotated
/// away for it is forced down before anything else is done.
pub proof fn record_is_flushed_and_synced(
    rotating: Rotating,
    record: Seq<u8>,
    sync: bool,
    files: Map<nat, Seq<u8>>,
) -> (room: Seq<Op>)
    requires
        in_step(rotating, files),
        countable(rotating, record.len(), sync),
    ensures
        recording(rotating, record, sync, files).ops == room + taking(sync),
        forall|i: int| 0 <= i < room.len() ==> makes_room(#[trigger] room[i]),
        rotating.rotates(record.len()) ==> room.len() > 0 && room[0] == Op::SyncRotated,
        forall|i: int| 1 <= i < room.len() ==> !crate::rotation::is_sync(#[trigger] room[i]),
        !rotating.rotates(record.len()) ==> room.len() == 0,
{
    let entry = Entry { len: record.len() as u64, sync };
    if rotating.rotates(record.len()) {
        lemma_take(rotating.synced().emptied(), entry, record, rotated(files, rotating.keep as nat));
        lemma_rotate(rotating, entry, record, files)
    } else {
        lemma_take(rotating, entry, record, files);
        assert(taking(sync) =~= Seq::<Op>::empty() + taking(sync));
        Seq::empty()
    }
}

/// What file `n` holds, and nothing where there is no such file.
pub open spec fn content(files: Map<nat, Seq<u8>>, n: nat) -> Seq<u8> {
    if files.contains_key(n) {
        files[n]
    } else {
        Seq::empty()
    }
}

/// The log from generation `n` on, oldest first.
pub open spec fn history(files: Map<nat, Seq<u8>>, n: nat) -> Seq<u8>
    decreases n,
{
    if n == 0 {
        content(files, 0)
    } else {
        content(files, n) + history(files, (n - 1) as nat)
    }
}

/// What a record of `len` bytes drops from the log: the last generation kept,
/// when there is a rotation, and nothing otherwise.
pub open spec fn dropped(rotating: Rotating, len: nat, files: Map<nat, Seq<u8>>) -> Seq<u8> {
    if rotating.rotates(len) {
        content(files, rotating.keep as nat)
    } else {
        Seq::empty()
    }
}

proof fn lemma_history_shifted(rotating: Rotating, record: Seq<u8>, files: Map<nat, Seq<u8>>, n: nat)
    requires
        in_step(rotating, files),
        rotating.rotates(record.len()),
        1 <= n <= rotating.keep,
    ensures
        history(recorded(rotating, record, files), n) == history(files, (n - 1) as nat) + record,
    decreases n,
{
    let after = recorded(rotating, record, files);
    assert(content(after, n) =~= content(files, (n - 1) as nat));
    if n == 1 {
        assert(content(after, 0) == record);
        assert(history(after, 0) == record);
        assert(history(after, 1) == content(after, 1) + history(after, 0));
    } else {
        lemma_history_shifted(rotating, record, files, (n - 1) as nat);
        assert(history(after, n) =~= history(files, (n - 1) as nat) + record);
    }
}

proof fn lemma_history_written(files: Map<nat, Seq<u8>>, record: Seq<u8>, n: nat)
    requires
        files.contains_key(0),
    ensures
        history(files.insert(0, files[0] + record), n) == history(files, n) + record,
    decreases n,
{
    let after = files.insert(0, files[0] + record);
    if n > 0 {
        lemma_history_written(files, record, (n - 1) as nat);
        assert(content(after, n) == content(files, n));
        assert(history(after, n) =~= history(files, n) + record);
    }
}

/// The log reads on: what it held, and the record after it, is what it now
/// holds, but for the last generation kept, which a rotation drops.
pub proof fn record_continues_the_log(
    rotating: Rotating,
    record: Seq<u8>,
    files: Map<nat, Seq<u8>>,
)
    requires
        in_step(rotating, files),
    ensures
        history(files, rotating.keep as nat) + record == dropped(rotating, record.len(), files)
            + history(recorded(rotating, record, files), rotating.keep as nat),
{
    let keep = rotating.keep as nat;
    let after = recorded(rotating, record, files);
    if !rotating.rotates(record.len()) {
        lemma_history_written(files, record, keep);
        assert(Seq::<u8>::empty() + history(after, keep) =~= history(after, keep));
    } else if keep == 0 {
        assert(content(after, 0) =~= record);
    } else {
        lemma_history_shifted(rotating, record, files, keep);
        assert(history(files, keep) + record =~= content(files, keep) + (history(
            files,
            (keep - 1) as nat,
        ) + record));
    }
}

/// Whether nothing done from `op` on renames a file over another one, however
/// far it gets on a disk in order.
pub open spec fn overwrites_nothing(
    rotating: Rotating,
    entry: Entry,
    record: Seq<u8>,
    op: Op,
    files: Map<nat, Seq<u8>>,
) -> bool
    decreases steps_after(rotating.keep as nat, op),
{
    &&& op matches Op::Rename(n) ==> !files.contains_key(n as nat + 1)
    &&& op is Shelve ==> !files.contains_key(1)
    &&& match rotating.following(entry, op, succeeds(op, files)) {
        (after, Next::Do(then_do)) => overwrites_nothing(
            after,
            entry,
            record,
            then_do,
            performed(op, files, record),
        ),
        _ => true,
    }
}

proof fn lemma_take_overwrites_nothing(
    rotating: Rotating,
    entry: Entry,
    record: Seq<u8>,
    files: Map<nat, Seq<u8>>,
)
    ensures
        overwrites_nothing(rotating, entry, record, Op::Write, files),
{
    reveal_with_fuel(overwrites_nothing, 4);
}

proof fn lemma_shift_overwrites_nothing(
    rotating: Rotating,
    entry: Entry,
    record: Seq<u8>,
    op: Op,
    files: Map<nat, Seq<u8>>,
)
    requires
        op matches Op::Look(n) && 1 <= n < rotating.keep && !files.contains_key(n as nat + 1) || op
            is Shelve && !files.contains_key(1),
    ensures
        overwrites_nothing(rotating, entry, record, op, files),
    decreases steps_after(rotating.keep as nat, op),
{
    reveal_with_fuel(overwrites_nothing, 3);
    if op is Shelve {
        let left = performed(Op::Reopen, performed(op, files, record), record);
        lemma_take_overwrites_nothing(rotating.emptied(), entry, record, left);
    } else if let Op::Look(n) = op {
        let left = if files.contains_key(n as nat) {
            performed(Op::Rename(n), files, record)
        } else {
            files
        };
        lemma_shift_overwrites_nothing(
            rotating,
            entry,
            record,
            Rotating::before(n as int),
            left,
        );
    }
}

/// On a disk in order a rotation never renames one file over another, however far
/// it gets. Where the last generation kept could not be removed, it is the one that
/// may be renamed over; see [`the_log_is_whole_at_every_moment`] for that.
pub proof fn rotation_overwrites_nothing(
    rotating: Rotating,
    record: Seq<u8>,
    sync: bool,
    files: Map<nat, Seq<u8>>,
)
    requires
        in_step(rotating, files),
        countable(rotating, record.len(), sync),
    ensures
        overwrites_nothing(
            rotating,
            Entry { len: record.len() as u64, sync },
            record,
            rotating.first_op(record.len()),
            files,
        ),
{
    let entry = Entry { len: record.len() as u64, sync };
    if !rotating.rotates(record.len()) {
        lemma_take_overwrites_nothing(rotating, entry, record, files);
    } else if rotating.keep == 0 {
        lemma_take_overwrites_nothing(
            rotating.synced().emptied(),
            entry,
            record,
            performed(Op::Truncate, files, record),
        );
        reveal_with_fuel(overwrites_nothing, 3);
    } else {
        lemma_shift_overwrites_nothing(
            rotating.synced(),
            entry,
            record,
            Rotating::before(rotating.keep as int),
            files.remove(rotating.keep as nat),
        );
        reveal_with_fuel(overwrites_nothing, 3);
    }
}

/// What a record of `len` bytes leaves of the log: all of it but what it drops.
pub open spec fn kept(rotating: Rotating, len: nat, files: Map<nat, Seq<u8>>) -> Seq<u8> {
    let keep = rotating.keep as nat;
    if rotating.rotates(len) {
        history(files.remove(keep), keep)
    } else {
        history(files, keep)
    }
}

/// Whether the log ends in `end` after everything done from `op` on, up to where the
/// record is written, and from there on in `end` with the record behind it. A
/// generation that is to be removed may turn out not to be.
pub open spec fn ends_in_throughout(
    rotating: Rotating,
    entry: Entry,
    record: Seq<u8>,
    op: Op,
    files: Map<nat, Seq<u8>>,
    end: Seq<u8>,
) -> bool
    decreases steps_after(rotating.keep as nat, op),
{
    let keep = rotating.keep as nat;
    let (after, next) = rotating.following(entry, op, succeeds(op, files));
    let left = performed(op, files, record);
    let expected = if makes_room(op) {
        end
    } else {
        end + record
    };
    &&& expected.is_suffix_of(history(left, keep))
    &&& next matches Next::Do(then_do) ==> ends_in_throughout(
        after,
        entry,
        record,
        then_do,
        left,
        end,
    )
    &&& op is Discard ==> {
        &&& expected.is_suffix_of(history(files, keep))
        &&& next matches Next::Do(then_do) ==> ends_in_throughout(
            after,
            entry,
            record,
            then_do,
            files,
            end,
        )
    }
}

proof fn lemma_history_same(a: Map<nat, Seq<u8>>, b: Map<nat, Seq<u8>>, n: nat)
    requires
        forall|m: nat| m <= n ==> #[trigger] content(a, m) == content(b, m),
    ensures
        history(a, n) == history(b, n),
    decreases n,
{
    assert(content(a, n) == content(b, n));
    if n > 0 {
        lemma_history_same(a, b, (n - 1) as nat);
    }
}

/// Moving a file to a generation that is not there leaves the log as it was.
proof fn lemma_history_moved(files: Map<nat, Seq<u8>>, n: nat, m: nat)
    requires
        files.contains_key(n),
        !files.contains_key(n + 1),
        n < m,
    ensures
        history(files.insert(n + 1, files[n]).remove(n), m) == history(files, m),
    decreases m,
{
    let moved = files.insert(n + 1, files[n]).remove(n);
    if m > n + 1 {
        lemma_history_moved(files, n, (m - 1) as nat);
        assert(content(moved, m) == content(files, m));
    } else {
        reveal_with_fuel(history, 3);
        if n > 0 {
            lemma_history_same(moved, files, (n - 1) as nat);
        }
        assert(history(moved, m) =~= history(files, m));
    }
}

proof fn lemma_suffix_behind(end: Seq<u8>, all: Seq<u8>, record: Seq<u8>)
    requires
        end.is_suffix_of(all),
    ensures
        (end + record).is_suffix_of(all + record),
{
    assert((all + record).subrange(
        all.len() - end.len(),
        (all + record).len() as int,
    ) =~= all.subrange(all.len() - end.len(), all.len() as int) + record);
}

proof fn lemma_take_ends_in(
    rotating: Rotating,
    entry: Entry,
    record: Seq<u8>,
    files: Map<nat, Seq<u8>>,
    end: Seq<u8>,
)
    requires
        files.contains_key(0),
        end.is_suffix_of(history(files, rotating.keep as nat)),
    ensures
        ends_in_throughout(rotating, entry, record, Op::Write, files, end),
{
    reveal_with_fuel(ends_in_throughout, 4);
    let keep = rotating.keep as nat;
    lemma_history_written(files, record, keep);
    lemma_suffix_behind(end, history(files, keep), record);
}

/// What is left after a file has been moved to the generation after it still ends in
/// `end`, where only the last generation kept is there already.
proof fn lemma_moved_ends_in(files: Map<nat, Seq<u8>>, n: nat, keep: nat, end: Seq<u8>)
    requires
        n < keep,
        files.contains_key(n),
        end.is_suffix_of(history(files, keep)),
        files.contains_key(n + 1) ==> n + 1 == keep && end.is_suffix_of(
            history(files.remove(keep), keep),
        ),
    ensures
        end.is_suffix_of(history(files.insert(n + 1, files[n]).remove(n), keep)),
{
    let moved = files.insert(n + 1, files[n]).remove(n);
    if files.contains_key(n + 1) {
        let without = files.remove(n + 1);
        assert(without.insert(n + 1, without[n]).remove(n) =~= moved);
        lemma_history_moved(without, n, keep);
    } else {
        lemma_history_moved(files, n, keep);
    }
}

proof fn lemma_shift_ends_in(
    rotating: Rotating,
    entry: Entry,
    record: Seq<u8>,
    op: Op,
    files: Map<nat, Seq<u8>>,
    end: Seq<u8>,
)
    requires
        files.contains_key(0),
        rotating.keep > 0,
        op matches Op::Look(n) && 1 <= n < rotating.keep || op is Shelve,
        end.is_suffix_of(history(files, rotating.keep as nat)),
        ({
            let n = if let Op::Look(n) = op {
                n as nat
            } else {
                0
            };
            files.contains_key(n + 1) ==> n + 1 == rotating.keep && end.is_suffix_of(
                history(files.remove(rotating.keep as nat), rotating.keep as nat),
            )
        }),
    ensures
        ends_in_throughout(rotating, entry, record, op, files, end),
    decreases steps_after(rotating.keep as nat, op),
{
    let keep = rotating.keep as nat;
    reveal_with_fuel(ends_in_throughout, 3);
    if let Op::Look(n) = op {
        let left = if files.contains_key(n as nat) {
            lemma_moved_ends_in(files, n as nat, keep, end);
            performed(Op::Rename(n), files, record)
        } else {
            files
        };
        lemma_shift_ends_in(rotating, entry, record, Rotating::before(n as int), left, end);
    } else {
        lemma_moved_ends_in(files, 0, keep, end);
        let shelved = performed(Op::Shelve, files, record);
        let left = performed(Op::Reopen, shelved, record);
        lemma_history_same(left, shelved, keep);
        lemma_take_ends_in(rotating.emptied(), entry, record, left, end);
    }
}

/// A process that is killed between any two things that are done for a record
/// leaves the log whole. After each of them the log ends in all that it held, but
/// for the last generation kept where there is a rotation, and once the record is
/// written, in that and the record. So it does, too, where that generation could
/// not be removed.
pub proof fn the_log_is_whole_at_every_moment(
    rotating: Rotating,
    record: Seq<u8>,
    sync: bool,
    files: Map<nat, Seq<u8>>,
)
    requires
        in_step(rotating, files),
        countable(rotating, record.len(), sync),
    ensures
        history(files, rotating.keep as nat) == dropped(rotating, record.len(), files) + kept(
            rotating,
            record.len(),
            files,
        ),
        ends_in_throughout(
            rotating,
            Entry { len: record.len() as u64, sync },
            record,
            rotating.first_op(record.len()),
            files,
            kept(rotating, record.len(), files),
        ),
{
    let keep = rotating.keep as nat;
    let entry = Entry { len: record.len() as u64, sync };
    let end = kept(rotating, record.len(), files);
    let all = history(files, keep);
    let without = files.remove(keep);
    assert(all =~= dropped(rotating, record.len(), files) + end) by {
        if rotating.rotates(record.len()) && keep > 0 {
            lemma_history_same(files, without, (keep - 1) as nat);
        }
    }
    assert(end =~= all.subrange(all.len() - end.len(), all.len() as int));
    if !rotating.rotates(record.len()) {
        lemma_take_ends_in(rotating, entry, record, files, end);
    } else if keep == 0 {
        let left = performed(Op::Truncate, files, record);
        assert(end =~= Seq::empty());
        lemma_take_ends_in(rotating.synced().emptied(), entry, record, left, end);
        reveal_with_fuel(ends_in_throughout, 3);
    } else {
        let next = Rotating::before(keep as int);
        assert(without.remove(keep) =~= without);
        assert(end =~= end.subrange(0, end.len() as int));
        lemma_shift_ends_in(rotating.synced(), entry, record, next, without, end);
        lemma_shift_ends_in(rotating.synced(), entry, record, next, files, end);
        reveal_with_fuel(ends_in_throughout, 3);
    }
}

/// Records taken one after the other, each with whether it is to be forced down
/// to the disk.
pub open spec fn recordings(
    rotating: Rotating,
    records: Seq<(Seq<u8>, bool)>,
    files: Map<nat, Seq<u8>>,
) -> (Rotating, Map<nat, Seq<u8>>)
    decreases records.len(),
{
    if records.len() == 0 {
        (rotating, files)
    } else {
        let first = recording(rotating, records[0].0, records[0].1, files);
        recordings(first.rotating, records.drop_first(), first.files)
    }
}

/// Whether each of some records can be counted when its turn comes.
pub open spec fn all_countable(rotating: Rotating, records: Seq<(Seq<u8>, bool)>) -> bool
    decreases records.len(),
{
    records.len() == 0 || {
        &&& countable(rotating, records[0].0.len(), records[0].1)
        &&& all_countable(
            counted(rotating, records[0].0.len(), records[0].1),
            records.drop_first(),
        )
    }
}

/// The bytes of some records, one after the other.
pub open spec fn all_bytes(records: Seq<(Seq<u8>, bool)>) -> Seq<u8>
    decreases records.len(),
{
    if records.len() == 0 {
        Seq::empty()
    } else {
        records[0].0 + all_bytes(records.drop_first())
    }
}

/// How many times some records force the active file down: for each rotation, and
/// for each record that is to be forced down itself.
pub open spec fn sync_total(rotating: Rotating, records: Seq<(Seq<u8>, bool)>) -> nat
    decreases records.len(),
{
    if records.len() == 0 {
        0
    } else {
        let (record, sync) = records[0];
        rotating.syncs_for(record.len(), sync) + sync_total(
            counted(rotating, record.len(), sync),
            records.drop_first(),
        )
    }
}

/// After any records the log is the end of everything that was ever written to
/// it: nothing in it is out of order, doubled or cut out. What is known of the
/// active file is so, and the syncs counted are those that were made.
pub proof fn log_is_the_end_of_what_was_written(
    rotating: Rotating,
    records: Seq<(Seq<u8>, bool)>,
    files: Map<nat, Seq<u8>>,
) -> (gone: Seq<u8>)
    requires
        in_step(rotating, files),
        all_countable(rotating, records),
    ensures
        history(files, rotating.keep as nat) + all_bytes(records) == gone + history(
            recordings(rotating, records, files).1,
            rotating.keep as nat,
        ),
        in_step(
            recordings(rotating, records, files).0,
            recordings(rotating, records, files).1,
        ),
        recordings(rotating, records, files).0.syncs == rotating.syncs + sync_total(
            rotating,
            records,
        ),
        recordings(rotating, records, files).0.keep == rotating.keep,
        recordings(rotating, records, files).0.max_bytes == rotating.max_bytes,
    decreases records.len(),
{
    let keep = rotating.keep as nat;
    if records.len() == 0 {
        assert(history(files, keep) + all_bytes(records) =~= Seq::<u8>::empty() + history(
            files,
            keep,
        ));
        Seq::empty()
    } else {
        let (record, sync) = records[0];
        let rest = records.drop_first();
        record_lands_whole(rotating, record, sync, files);
        record_continues_the_log(rotating, record, files);
        let after = recorded(rotating, record, files);
        let first = dropped(rotating, record.len(), files);
        let last = log_is_the_end_of_what_was_written(
            counted(rotating, record.len(), sync),
            rest,
            after,
        );
        let end = history(recordings(rotating, records, files).1, keep);
        assert(history(files, keep) + all_bytes(records) =~= (history(files, keep) + record)
            + all_bytes(rest));
        assert(first + history(after, keep) + all_bytes(rest) =~= first + (history(after, keep)
            + all_bytes(rest)));
        assert(first + (last + end) =~= (first + last) + end);
        first + last
    }
}

/// Whether no file that is kept is larger than `limit`.
pub open spec fn bounded(keep: nat, files: Map<nat, Seq<u8>>, limit: nat) -> bool {
    forall|m: nat| m <= keep && #[trigger] files.contains_key(m) ==> files[m].len() <= limit
}

proof fn lemma_record_stays_bounded(
    rotating: Rotating,
    record: Seq<u8>,
    files: Map<nat, Seq<u8>>,
    limit: nat,
)
    requires
        in_step(rotating, files),
        rotating.max_bytes <= limit,
        record.len() <= limit,
        bounded(rotating.keep as nat, files, limit),
    ensures
        bounded(rotating.keep as nat, recorded(rotating, record, files), limit),
        forall|m: nat|
            m > rotating.keep ==> recorded(rotating, record, files).contains_key(m)
                == #[trigger] files.contains_key(m),
{
    let after = recorded(rotating, record, files);
    assert forall|m: nat| m <= rotating.keep && #[trigger] after.contains_key(m) implies after[m].len()
        <= limit by {
        if rotating.rotates(record.len()) && 1 <= m {
            assert(files.contains_key((m - 1) as nat));
        } else if m != 0 {
            assert(files.contains_key(m));
        } else {
            assert(files.contains_key(0));
        }
    }
}

proof fn lemma_history_bounded(keep: nat, files: Map<nat, Seq<u8>>, limit: nat, n: nat)
    requires
        bounded(keep, files, limit),
        n <= keep,
    ensures
        history(files, n).len() <= limit * (n + 1),
    decreases n,
{
    assert(content(files, n).len() <= limit) by {
        if files.contains_key(n) {
        }
    }
    assert(limit * (n + 1) == limit * n + limit && limit * n >= 0) by (nonlinear_arith);
    if n > 0 {
        lemma_history_bounded(keep, files, limit, (n - 1) as nat);
    }
}

/// However many records are taken, the log cannot fill the disk: no file that
/// is kept grows past `limit`, as long as neither the size to rotate at nor any
/// one record does, and there is never a generation beyond those kept that was
/// not there before.
pub proof fn log_stays_bounded(
    rotating: Rotating,
    records: Seq<(Seq<u8>, bool)>,
    files: Map<nat, Seq<u8>>,
    limit: nat,
)
    requires
        in_step(rotating, files),
        all_countable(rotating, records),
        rotating.max_bytes <= limit,
        forall|i: int| 0 <= i < records.len() ==> (#[trigger] records[i]).0.len() <= limit,
        bounded(rotating.keep as nat, files, limit),
    ensures
        bounded(rotating.keep as nat, recordings(rotating, records, files).1, limit),
        history(recordings(rotating, records, files).1, rotating.keep as nat).len() <= limit * (
        rotating.keep + 1),
        forall|m: nat|
            m > rotating.keep ==> recordings(rotating, records, files).1.contains_key(m)
                == #[trigger] files.contains_key(m),
    decreases records.len(),
{
    let keep = rotating.keep as nat;
    if records.len() != 0 {
        let (record, sync) = records[0];
        let rest = records.drop_first();
        let after = recorded(rotating, record, files);
        record_lands_whole(rotating, record, sync, files);
        lemma_record_stays_bounded(rotating, record, files, limit);
        assert forall|i: int| 0 <= i < rest.len() implies (#[trigger] rest[i]).0.len() <= limit by {
            assert(rest[i] == records[i + 1]);
        }
        log_stays_bounded(counted(rotating, record.len(), sync), rest, after, limit);
        let end = recordings(rotating, records, files).1;
        assert forall|m: nat| m > keep implies end.contains_key(m) == #[trigger] files.contains_key(
            m,
        ) by {
            assert(after.contains_key(m) == files.contains_key(m));
        }
    }
    lemma_history_bounded(keep, recordings(rotating, records, files).1, limit, keep);
}

/// What each operation does to file `m`: it touches the files that it names and no
/// others, and moves what they hold whole.
pub proof fn operations_touch_only_what_they_name(
    op: Op,
    files: Map<nat, Seq<u8>>,
    record: Seq<u8>,
    m: nat,
)
    requires
        files.contains_key(0),
        op matches Op::Rename(n) ==> n > 0 && files.contains_key(n as nat),
    ensures
        ({
            let left = performed(op, files, record);
            let same = left.contains_key(m) == files.contains_key(m) && left[m] == files[m];
            match op {
                Op::Truncate => if m == 0 {
                    left.contains_key(0) && left[0].len() == 0
                } else {
                    same
                },
                Op::Discard(n) => if m == n {
                    !left.contains_key(m)
                } else {
                    same
                },
                Op::Rename(n) => if m == n {
                    !left.contains_key(m)
                } else if m == n + 1 {
                    left.contains_key(m) && left[m] == files[n as nat]
                } else {
                    same
                },
                Op::Shelve => if m == 0 {
                    !left.contains_key(m)
                } else if m == 1 {
                    left.contains_key(m) && left[m] == files[0]
                } else {
                    same
                },
                Op::Write => if m == 0 {
                    left.contains_key(m) && left[m] == files[0] + record
                } else {
                    same
                },
                _ => same,
            }
        }),
        performed(Op::Reopen, files.remove(0), record).contains_key(0),
        performed(Op::Reopen, files.remove(0), record)[0].len() == 0,
        m > 0 ==> performed(Op::Reopen, files.remove(0), record).contains_key(m)
            == files.contains_key(m) && (files.contains_key(m) ==> performed(
            Op::Reopen,
            files.remove(0),
            record,
        )[m] == files[m]),
        !(op is Look) ==> succeeds(op, files),
        op matches Op::Look(n) ==> succeeds(op, files) == files.contains_key(n as nat),
{
}

/// What taking a record leaves in file `m`. Where the record fits, or the active file
/// is empty, it is appended, and no other file is touched. Where it does not, it
/// stands alone in a new active file, every file up to the last one kept holds what
/// the one before it held, and none behind is touched. What is known of the active
/// file is so again, and each sync has been counted.
pub proof fn record_is_appended_or_everything_moves_back(
    rotating: Rotating,
    record: Seq<u8>,
    sync: bool,
    files: Map<nat, Seq<u8>>,
    m: nat,
)
    requires
        files.contains_key(0),
        files[0].len() == rotating.written,
        rotating.written + record.len() <= u64::MAX,
        rotating.syncs + 2 <= u64::MAX,
    ensures
        ({
            let r = recording(rotating, record, sync, files);
            let fits = rotating.written == 0 || rotating.written + record.len()
                <= rotating.max_bytes;
            &&& r.files.contains_key(0) && r.files[0].len() == r.rotating.written
            &&& r.rotating.max_bytes == rotating.max_bytes && r.rotating.keep == rotating.keep
            &&& r.rotating.syncs == rotating.syncs + (if fits {
                0int
            } else {
                1
            }) + (if sync {
                1int
            } else {
                0
            })
            &&& if fits {
                &&& m == 0 ==> r.files[m] == files[0] + record
                &&& m > 0 ==> r.files.contains_key(m) == files.contains_key(m) && r.files[m]
                    == files[m]
            } else {
                &&& m == 0 ==> r.files[m] == record
                &&& 1 <= m <= rotating.keep ==> r.files.contains_key(m) == files.contains_key(
                    (m - 1) as nat,
                ) && (r.files.contains_key(m) ==> r.files[m] == files[(m - 1) as nat])
                &&& m > rotating.keep && m > 0 ==> r.files.contains_key(m) == files.contains_key(m)
                    && (r.files.contains_key(m) ==> r.files[m] == files[m])
            }
        }),
{
    record_lands_whole(rotating, record, sync, files);
}

} // verus!
