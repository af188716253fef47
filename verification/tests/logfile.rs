use std::collections::BTreeMap;
use std::path::{Path, PathBuf};
use synology_filestation_mount::logfile::{
    durable, generation, inside_mount_message, io_message, is_inside, is_inside_absolute, resolve,
    resolve_absolute, severity_of, LogFile, LogFileError, LogFileWriter, Resolved, Severity,
    DEFAULT_KEEP, DEFAULT_MAX_BYTES,
};
use synology_filestation_mount::rotation::{Next, Op, Rotating};
use tracing::Level;

const DIR: &str = "/var/lib/mounts";

fn dir() -> &'static Path {
    Path::new(DIR)
}

fn missing() -> std::io::Error {
    std::io::Error::new(std::io::ErrorKind::NotFound, "not there")
}

/// A log file on a disk that is held in memory: every file by its path.
struct OnDisk {
    log: LogFile,
    files: BTreeMap<PathBuf, Vec<u8>>,
    ops: Vec<Op>,
    /// The operation that the disk is out of order for, if any.
    broken: Option<Op>,
}

impl OnDisk {
    fn with_rotation(path: &Path, max_bytes: u64, keep: usize) -> OnDisk {
        let log = LogFile::with_rotation(path.to_path_buf(), max_bytes, keep, Ok(0))
            .expect("the file was opened");
        OnDisk::holding(log, Vec::new())
    }

    fn open(path: &Path) -> OnDisk {
        let log = LogFile::open(path.to_path_buf(), Ok(0)).expect("the file was opened");
        OnDisk::holding(log, Vec::new())
    }

    fn holding(log: LogFile, existing: Vec<u8>) -> OnDisk {
        let mut files = BTreeMap::new();
        files.insert(log.path().to_path_buf(), existing);
        OnDisk {
            log,
            files,
            ops: Vec::new(),
            broken: None,
        }
    }

    fn perform(&mut self, op: Op, record: &[u8]) -> bool {
        self.ops.push(op);
        if self.broken == Some(op) {
            return false;
        }
        let active = self.log.path().to_path_buf();
        match op {
            Op::SyncRotated | Op::Flush | Op::SyncRecord => true,
            Op::Truncate => {
                self.files.insert(active, Vec::new());
                true
            }
            Op::Discard(n) => self.files.remove(&generation(&active, n)).is_some(),
            Op::Look(n) => self.files.contains_key(&generation(&active, n)),
            Op::Rename(n) => match self.files.remove(&generation(&active, n)) {
                Some(held) => {
                    self.files.insert(generation(&active, n + 1), held);
                    true
                }
                None => false,
            },
            Op::Shelve => match self.files.remove(&active) {
                Some(held) => {
                    self.files.insert(generation(&active, 1), held);
                    true
                }
                None => false,
            },
            Op::Reopen => {
                self.files.entry(active).or_default();
                true
            }
            Op::Write => match self.files.get_mut(&active) {
                Some(held) => {
                    held.extend_from_slice(record);
                    true
                }
                None => false,
            },
        }
    }

    fn write_all(&mut self, writer: LogFileWriter, record: &[u8]) -> bool {
        let entry = writer.entry(record.len() as u64);
        let mut op = self.log.rotating.record(entry);
        loop {
            let ok = self.perform(op, record);
            match self.log.rotating.after(entry, op, ok) {
                Next::Do(next) => op = next,
                Next::Finished => return true,
                Next::Failed => return false,
            }
        }
    }

    fn text(&self, path: &Path) -> Option<String> {
        self.files
            .get(path)
            .map(|held| String::from_utf8(held.clone()).unwrap())
    }
}

fn rotated(path: &Path, generation: usize) -> PathBuf {
    PathBuf::from(format!("{}.{generation}", path.display()))
}

#[test]
fn a_log_path_inside_the_mountpoint_is_refused() {
    let mountpoint = dir().join("mnt");

    let err = resolve(&mountpoint.join("synofs.log"), Some(&mountpoint))
        .expect_err("a log inside the mount must not be accepted");

    assert!(
        matches!(err, LogFileError::InsideMount { .. }),
        "expected InsideMount, got {err:?}"
    );
}

#[test]
fn a_path_that_merely_shares_a_prefix_with_the_mountpoint_is_allowed() {
    let mountpoint = dir().join("mnt");

    let chosen = resolve(&dir().join("mnt.log"), Some(&mountpoint))
        .expect("a sibling of the mountpoint is not inside it")
        .prepared(Ok(()))
        .unwrap();

    assert_eq!(chosen, dir().join("mnt.log"));
}

#[test]
fn a_relative_path_is_made_absolute() {
    let chosen = resolve(Path::new("synofs.log"), None)
        .expect("a relative path is usable")
        .prepared(Ok(()))
        .unwrap();

    assert!(chosen.is_absolute(), "{} is not absolute", chosen.display());
    assert!(chosen.ends_with("synofs.log"));
}

#[test]
fn the_parent_directory_is_created() {
    let nested = dir().join("state/synology-filestation");

    let resolved = resolve(&nested.join("mount.log"), None).expect("parents are created");
    assert_eq!(
        resolved.parent.as_deref(),
        Some(nested.as_path()),
        "{} was not created",
        nested.display()
    );

    let chosen = resolved.prepared(Ok(())).unwrap();
    assert_eq!(chosen, nested.join("mount.log"));
}

#[test]
fn a_parent_that_cannot_be_created_is_reported() {
    let resolved = resolve(&dir().join("mount.log"), None).unwrap();
    match resolved.prepared(Err(missing())) {
        Err(LogFileError::Io { path, source }) => {
            assert_eq!(path, dir());
            assert_eq!(source.kind(), std::io::ErrorKind::NotFound);
        }
        other => panic!("got {other:?}"),
    }
}

#[test]
fn a_record_reaches_the_file_without_the_caller_flushing() {
    let path = dir().join("mount.log");
    let mut disk = OnDisk::open(&path);

    let writer = disk.log.make_writer_for(&Level::INFO);
    assert!(disk.write_all(writer, b"the mount is still answering"));

    let written = disk.text(&path).unwrap();
    assert!(
        written.contains("the mount is still answering"),
        "log file held {written:?}"
    );
    assert_eq!(disk.ops, vec![Op::Write, Op::Flush]);
}

#[test]
fn warnings_are_forced_to_disk_and_ordinary_records_are_not() {
    let mut disk = OnDisk::open(&dir().join("mount.log"));

    let info = disk.log.make_writer_for(&Level::INFO);
    assert!(disk.write_all(info, b"routine"));
    assert_eq!(
        disk.log.sync_count(),
        0,
        "an info record does not deserve a barrier"
    );

    let warn = disk.log.make_writer_for(&Level::WARN);
    assert!(disk.write_all(warn, b"the SMB stream died"));
    assert_eq!(
        disk.log.sync_count(),
        1,
        "a warning must survive the power cut"
    );

    let error = disk.log.make_writer_for(&Level::ERROR);
    assert!(disk.write_all(error, b"the mount is wedged"));
    assert_eq!(disk.log.sync_count(), 2, "so must an error");
    assert_eq!(
        disk.ops,
        vec![
            Op::Write,
            Op::Flush,
            Op::Write,
            Op::Flush,
            Op::SyncRecord,
            Op::Write,
            Op::Flush,
            Op::SyncRecord,
        ]
    );
}

#[test]
fn durable_covers_exactly_warn_and_error() {
    assert!(durable(&Level::ERROR));
    assert!(durable(&Level::WARN));
    assert!(!durable(&Level::INFO));
    assert!(!durable(&Level::DEBUG));
    assert!(!durable(&Level::TRACE));
}

#[test]
fn every_level_has_the_severity_of_its_name() {
    assert_eq!(severity_of(&Level::ERROR), Severity::Error);
    assert_eq!(severity_of(&Level::WARN), Severity::Warn);
    assert_eq!(severity_of(&Level::INFO), Severity::Info);
    assert_eq!(severity_of(&Level::DEBUG), Severity::Debug);
    assert_eq!(severity_of(&Level::TRACE), Severity::Trace);
    assert!(Severity::Warn.is_durable());
    assert!(!Severity::Info.is_durable());
}

#[test]
fn the_file_rotates_at_the_cap_and_keeps_a_bounded_number_of_generations() {
    let path = dir().join("mount.log");
    let mut disk = OnDisk::with_rotation(&path, 64, 2);

    for _ in 0..5 {
        let writer = disk.log.make_writer();
        assert!(disk.write_all(writer, &[b'x'; 30]));
    }

    assert!(
        disk.files.contains_key(&path),
        "the active file is always present"
    );
    assert!(
        disk.files.contains_key(&rotated(&path, 1)),
        "one generation back"
    );
    assert!(
        disk.files.contains_key(&rotated(&path, 2)),
        "two generations back"
    );
    assert!(
        !disk.files.contains_key(&rotated(&path, 3)),
        "keep = 2 means the third generation is dropped, not kept"
    );
}

#[test]
fn rotation_keeps_what_was_already_written() {
    let path = dir().join("mount.log");
    let mut disk = OnDisk::with_rotation(&path, 32, 2);

    let writer = disk.log.make_writer();
    assert!(disk.write_all(writer, b"the first thing that happened\n"));
    assert!(disk.write_all(writer, b"the thing that came after it\n"));

    assert_eq!(
        disk.text(&rotated(&path, 1)).unwrap(),
        "the first thing that happened\n"
    );
    assert_eq!(
        disk.text(&path).unwrap(),
        "the thing that came after it\n"
    );
}

#[test]
fn a_record_larger_than_the_cap_is_still_written_whole() {
    let path = dir().join("mount.log");
    let mut disk = OnDisk::with_rotation(&path, 16, 2);

    let long = "a".repeat(100);
    let writer = disk.log.make_writer();
    assert!(disk.write_all(writer, long.as_bytes()));

    assert_eq!(disk.text(&path).unwrap(), long);
}

#[test]
fn keeping_no_generations_discards_rather_than_growing() {
    let path = dir().join("mount.log");
    let mut disk = OnDisk::with_rotation(&path, 16, 0);

    let writer = disk.log.make_writer();
    assert!(disk.write_all(writer, b"older\n"));
    assert!(disk.write_all(writer, b"and the newest\n"));

    assert_eq!(disk.text(&path).unwrap(), "and the newest\n");
    assert!(
        !disk.files.contains_key(&rotated(&path, 0)),
        "no generation 0 is left behind"
    );
    assert!(
        !disk.files.contains_key(&rotated(&path, 1)),
        "and none is kept"
    );
}

#[test]
fn a_rotation_syncs_first_and_moves_the_oldest_first() {
    let path = dir().join("mount.log");
    let mut disk = OnDisk::with_rotation(&path, 4, 3);
    let writer = disk.log.writer(false);
    for record in [b"one ", b"two ", b"thre", b"four", b"five"] {
        assert!(disk.write_all(writer, record));
    }
    disk.ops.clear();
    assert!(disk.write_all(writer, b"six "));

    assert_eq!(
        disk.ops,
        vec![
            Op::SyncRotated,
            Op::Discard(3),
            Op::Look(2),
            Op::Rename(2),
            Op::Look(1),
            Op::Rename(1),
            Op::Shelve,
            Op::Reopen,
            Op::Write,
            Op::Flush,
        ]
    );
    assert_eq!(disk.text(&path).unwrap(), "six ");
    assert_eq!(disk.text(&rotated(&path, 1)).unwrap(), "five");
    assert_eq!(disk.text(&rotated(&path, 2)).unwrap(), "four");
    assert_eq!(disk.text(&rotated(&path, 3)).unwrap(), "thre");
    assert_eq!(disk.log.sync_count(), 5, "one for each rotation");
}

#[test]
fn a_rotation_counts_as_a_sync() {
    let mut disk = OnDisk::with_rotation(&dir().join("mount.log"), 16, 2);
    let writer = disk.log.writer(false);
    assert!(disk.write_all(writer, b"0123456789"));
    assert_eq!(disk.log.sync_count(), 0);
    assert!(disk.write_all(writer, b"0123456789"));
    assert_eq!(disk.log.sync_count(), 1);

    disk.broken = Some(Op::SyncRotated);
    assert!(!disk.write_all(writer, b"0123456789"));
    assert_eq!(disk.log.sync_count(), 1, "one that failed is none");
}

#[test]
fn a_missing_generation_is_passed_over() {
    let path = dir().join("mount.log");
    let mut disk = OnDisk::with_rotation(&path, 4, 3);
    let writer = disk.log.writer(false);
    assert!(disk.write_all(writer, b"one "));
    disk.ops.clear();
    assert!(disk.write_all(writer, b"two "));

    assert_eq!(
        disk.ops,
        vec![
            Op::SyncRotated,
            Op::Discard(3),
            Op::Look(2),
            Op::Look(1),
            Op::Shelve,
            Op::Reopen,
            Op::Write,
            Op::Flush,
        ]
    );
}

#[test]
fn what_the_file_already_held_is_part_of_the_budget() {
    let path = dir().join("mount.log");
    let log = LogFile::with_rotation(path.clone(), 10, 1, Ok(8)).unwrap();
    let mut disk = OnDisk::holding(log, b"eight by".to_vec());

    let writer = disk.log.writer(false);
    assert!(disk.write_all(writer, b"yes"));
    assert_eq!(disk.text(&path).unwrap(), "yes");
    assert_eq!(disk.text(&rotated(&path, 1)).unwrap(), "eight by");
    assert_eq!(disk.log.rotating.written, 3);
}

#[test]
fn a_record_that_just_fits_does_not_rotate() {
    let path = dir().join("mount.log");
    let mut disk = OnDisk::with_rotation(&path, 8, 1);
    let writer = disk.log.writer(false);
    assert!(disk.write_all(writer, b"four"));
    assert!(disk.write_all(writer, b"more"));
    assert_eq!(disk.text(&path).unwrap(), "fourmore");
    assert!(!disk.files.contains_key(&rotated(&path, 1)));
}

#[test]
fn a_failure_ends_the_record_and_counts_nothing() {
    let path = dir().join("mount.log");
    for broken in [Op::Write, Op::Flush, Op::SyncRecord] {
        let mut disk = OnDisk::with_rotation(&path, 64, 1);
        disk.broken = Some(broken);
        let writer = disk.log.make_writer();
        assert!(!disk.write_all(writer, b"four"));
        let written: u64 = if broken == Op::Write { 0 } else { 4 };
        assert_eq!(
            disk.log.rotating,
            Rotating {
                written,
                max_bytes: 64,
                keep: 1,
                syncs: 0
            }
        );
    }
    for broken in [Op::SyncRotated, Op::Rename(1), Op::Shelve, Op::Reopen] {
        let mut disk = OnDisk::with_rotation(&path, 4, 2);
        let writer = disk.log.writer(false);
        assert!(disk.write_all(writer, b"one "));
        assert!(disk.write_all(writer, b"two "));
        disk.broken = Some(broken);
        assert!(!disk.write_all(writer, b"thre"));
        assert_eq!(disk.log.rotating.written, 4);
    }
}

#[test]
fn the_log_is_the_end_of_what_was_written_and_stays_bounded() {
    let path = dir().join("mount.log");
    let mut disk = OnDisk::with_rotation(&path, 20, 2);
    let mut all = String::new();
    let writer = disk.log.make_writer();
    for i in 0..40 {
        let record = format!("record {i}\n");
        all.push_str(&record);
        assert!(disk.write_all(writer, record.as_bytes()));

        let mut held = String::new();
        for n in (0..=2).rev() {
            let file = if n == 0 {
                path.clone()
            } else {
                generation(&path, n)
            };
            let text = disk.text(&file).unwrap_or_default();
            assert!(text.len() <= 20);
            held.push_str(&text);
        }
        assert!(all.ends_with(&held));
        assert!(disk.files.len() <= 3);
    }
    let syncs = disk
        .ops
        .iter()
        .filter(|op| matches!(op, Op::SyncRotated | Op::SyncRecord))
        .count();
    assert!(syncs > 40);
    assert_eq!(disk.log.sync_count(), syncs as u64);
}

#[test]
fn the_log_is_whole_after_every_single_thing_that_is_done() {
    let path = dir().join("mount.log");
    let file = |n: usize| if n == 0 { path.clone() } else { generation(&path, n) };
    for keep in 1..4 {
        for broken in [None, Some(Op::Discard(keep))] {
            let mut disk = OnDisk::with_rotation(&path, 4, keep);
            let writer = disk.log.writer(true);
            for i in 0..5 {
                assert!(disk.write_all(writer, format!("{i}...").as_bytes()));
            }
            let log = |disk: &OnDisk, from: usize| -> String {
                (0..=from)
                    .rev()
                    .map(|n| disk.text(&file(n)).unwrap_or_default())
                    .collect()
            };
            let kept = log(&disk, keep - 1);
            disk.broken = broken;

            let entry = writer.entry(4);
            let mut op = disk.log.rotating.record(entry);
            assert_eq!(op, Op::SyncRotated);
            let mut written = false;
            loop {
                let ok = disk.perform(op, b"last");
                written = written || op == Op::Write;
                let expected = if written {
                    format!("{kept}last")
                } else {
                    kept.clone()
                };
                assert!(log(&disk, keep).ends_with(&expected), "{op:?}");
                match disk.log.rotating.after(entry, op, ok) {
                    Next::Do(next) => op = next,
                    next => {
                        assert_eq!(next, Next::Finished);
                        break;
                    }
                }
            }
            assert!(written);
        }
    }
}

#[test]
fn a_sibling_is_outside_and_everything_below_is_inside() {
    let mountpoint = Path::new("/x/mnt");
    assert!(!is_inside(Path::new("/x/mnt.log"), mountpoint));
    assert!(!is_inside(Path::new("/x"), mountpoint));
    assert!(is_inside(Path::new("/x/mnt"), mountpoint));
    assert!(is_inside(Path::new("/x/mnt/a/b.log"), mountpoint));
    assert!(is_inside(Path::new("relative.log"), Path::new(".")));
}

#[test]
fn a_path_that_cannot_be_made_absolute_counts_as_inside() {
    assert!(is_inside(Path::new(""), Path::new("/x/mnt")));
    assert!(is_inside(Path::new("/x/mnt.log"), Path::new("")));
    assert!(is_inside_absolute(
        &Err(missing()),
        &Ok(PathBuf::from("/x"))
    ));
    assert!(!is_inside_absolute(
        &Ok(PathBuf::from("/y")),
        &Ok(PathBuf::from("/x"))
    ));
}

#[test]
fn an_empty_path_is_an_io_error_on_whichever_side_it_stands() {
    match resolve(Path::new(""), None) {
        Err(LogFileError::Io { path, .. }) => assert_eq!(path, PathBuf::new()),
        other => panic!("got {other:?}"),
    }
    match resolve(Path::new("/x/a.log"), Some(Path::new(""))) {
        Err(LogFileError::Io { path, .. }) => assert_eq!(path, PathBuf::new()),
        other => panic!("got {other:?}"),
    }
}

#[test]
fn each_outcome_of_making_absolute_is_told_as_its_own() {
    let requested = Path::new("a.log");
    let mountpoint = Path::new("mnt");
    let at = |p: &str| Ok::<PathBuf, std::io::Error>(PathBuf::from(p));

    match resolve_absolute(requested, Err(missing()), Some((mountpoint, at("/x/mnt")))) {
        Err(LogFileError::Io { path, .. }) => assert_eq!(path, requested),
        other => panic!("got {other:?}"),
    }
    match resolve_absolute(
        requested,
        at("/x/a.log"),
        Some((mountpoint, Err(missing()))),
    ) {
        Err(LogFileError::Io { path, .. }) => assert_eq!(path, mountpoint),
        other => panic!("got {other:?}"),
    }
    match resolve_absolute(
        requested,
        at("/x/mnt/a.log"),
        Some((mountpoint, at("/x/mnt"))),
    ) {
        Err(LogFileError::InsideMount { path, mountpoint }) => {
            assert_eq!(path, Path::new("/x/mnt/a.log"));
            assert_eq!(mountpoint, Path::new("/x/mnt"));
        }
        other => panic!("got {other:?}"),
    }
    match resolve_absolute(requested, at("/x/a.log"), Some((mountpoint, at("/x/mnt")))) {
        Ok(Resolved { path, parent }) => {
            assert_eq!(path, Path::new("/x/a.log"));
            assert_eq!(parent.as_deref(), Some(Path::new("/x")));
        }
        other => panic!("got {other:?}"),
    }
    match resolve_absolute(requested, at("/"), None) {
        Ok(Resolved { path, parent }) => {
            assert_eq!(path, Path::new("/"));
            assert_eq!(parent, None);
        }
        other => panic!("got {other:?}"),
    }
}

#[test]
fn generations_are_numbered_behind_the_name() {
    let path = Path::new("/var/log/mount.log");
    assert_eq!(generation(path, 1), Path::new("/var/log/mount.log.1"));
    assert_eq!(generation(path, 10), Path::new("/var/log/mount.log.10"));
    assert_eq!(generation(path, 0), Path::new("/var/log/mount.log.0"));
    assert_eq!(
        generation(path, usize::MAX),
        PathBuf::from(format!("/var/log/mount.log.{}", usize::MAX))
    );
}

#[test]
fn a_file_that_could_not_be_opened_is_an_io_error() {
    let path = dir().join("mount.log");
    match LogFile::open(path.clone(), Err(missing())) {
        Err(LogFileError::Io {
            path: tried,
            source,
        }) => {
            assert_eq!(tried, path);
            assert_eq!(source.kind(), std::io::ErrorKind::NotFound);
        }
        other => panic!("got {other:?}"),
    }
}

#[test]
fn an_opened_log_has_the_default_policy() {
    let log = LogFile::open(dir().join("mount.log"), Ok(7)).unwrap();
    assert_eq!(
        log.rotating,
        Rotating {
            written: 7,
            max_bytes: 8 * 1024 * 1024,
            keep: 3,
            syncs: 0
        }
    );
    assert_eq!(DEFAULT_MAX_BYTES, 8 * 1024 * 1024);
    assert_eq!(DEFAULT_KEEP, 3);
    assert_eq!(log.path(), dir().join("mount.log"));
    assert!(log.make_writer().sync);
    assert!(log.writer(true).sync);
    assert!(!log.writer(false).sync);
}

#[test]
fn an_error_on_a_strange_path_reads_as_the_path_does() {
    let path = PathBuf::from("/x/caf\u{e9}/a b.log");
    let io = LogFileError::Io {
        path: path.clone(),
        source: missing(),
    };
    assert_eq!(
        io.message(),
        format!("cannot open log file {}: not there", path.display())
    );
}

#[test]
fn errors_say_what_is_wrong() {
    let inside = LogFileError::InsideMount {
        path: PathBuf::from("/x/mnt/a.log"),
        mountpoint: PathBuf::from("/x/mnt"),
    };
    let text = "--log-file /x/mnt/a.log is inside the mountpoint /x/mnt. The log would be \
                written through the mount it is describing, which deadlocks it. Choose a \
                path on local disk.";
    assert_eq!(inside.message(), text);
    assert_eq!(inside_mount_message("/x/mnt/a.log", "/x/mnt"), text);

    let io = LogFileError::Io {
        path: PathBuf::from("/x/a.log"),
        source: missing(),
    };
    assert_eq!(io.message(), "cannot open log file /x/a.log: not there");
    assert_eq!(io_message("a", "b"), "cannot open log file a: b");
}
