//! A log file that is still there after the machine goes down: where it may be,
//! what its generations are called, and which records are forced down to the
//! disk.
//!
//! Every record is handed to the operating system as soon as it is written, and
//! the warnings and errors are forced down to the disk. The file rotates at
//! [`DEFAULT_MAX_BYTES`] and keeps [`DEFAULT_KEEP`] older generations; see
//! [`crate::rotation`].

use crate::paths::{absolute, parent, shown, starts_with, with_suffix};
use crate::rotation::{Entry, Rotating};
use crate::text::{decimal_of, same_text};
use std::path::{Path, PathBuf};
use vstd::prelude::*;

verus! {

/// Rotate rather than let the active file pass this size.
pub const DEFAULT_MAX_BYTES: u64 = 8388608;

/// How many rotated generations to keep beside the active file.
pub const DEFAULT_KEEP: usize = 3;

/// Why a log file could not be used.
#[derive(Debug)]
pub enum LogFileError {
    /// The log is inside the directory that is about to be mounted. Each record
    /// would be a write that the mount has to serve, and the first one written
    /// while it is serving something deadlocks it.
    InsideMount { path: PathBuf, mountpoint: PathBuf },
    /// The path could not be opened, or its parent could not be created.
    Io { path: PathBuf, source: std::io::Error },
}

/// What is said of a log at `path` that is inside the mount at `mountpoint`.
pub open spec fn inside_mount_text(path: Seq<char>, mountpoint: Seq<char>) -> Seq<char> {
    "--log-file "@ + path + " is inside the mountpoint "@ + mountpoint
        + ". The log would be written through the mount it is describing, which deadlocks it. Choose a path on local disk."@
}

/// What is said of a log at `path` that cannot be opened because of `source`.
pub open spec fn io_text(path: Seq<char>, source: Seq<char>) -> Seq<char> {
    "cannot open log file "@ + path + ": "@ + source
}

/// What is said of a log at `path` that is inside the mount at `mountpoint`.
pub fn inside_mount_message(path: &str, mountpoint: &str) -> (r: String)
    ensures
        r@ == inside_mount_text(path@, mountpoint@),
{
    let mut r = String::new();
    r.append("--log-file ");
    r.append(path);
    r.append(" is inside the mountpoint ");
    r.append(mountpoint);
    r.append(
        ". The log would be written through the mount it is describing, which deadlocks it. Choose a path on local disk.",
    );
    assert(r@ =~= inside_mount_text(path@, mountpoint@));
    r
}

/// What is said of a log at `path` that cannot be opened because of `source`.
pub fn io_message(path: &str, source: &str) -> (r: String)
    ensures
        r@ == io_text(path@, source@),
{
    let mut r = String::new();
    r.append("cannot open log file ");
    r.append(path);
    r.append(": ");
    r.append(source);
    assert(r@ =~= io_text(path@, source@));
    r
}

impl LogFileError {
    /// Whether `text` is what is said of this error.
    pub open spec fn says(self, text: Seq<char>) -> bool {
        match self {
            LogFileError::InsideMount { path, mountpoint } => exists|p: Seq<char>, m: Seq<char>|
                {
                    &&& crate::paths::reads_as(crate::paths::path_of(&path), p)
                    &&& crate::paths::reads_as(crate::paths::path_of(&mountpoint), m)
                    &&& text == #[trigger] inside_mount_text(p, m)
                },
            LogFileError::Io { path, source } => exists|p: Seq<char>, e: String|
                {
                    &&& crate::paths::reads_as(crate::paths::path_of(&path), p)
                    &&& vstd::string::to_string_from_display_ensures::<std::io::Error>(
                        &source,
                        e,
                    )
                    &&& text == #[trigger] io_text(p, e@)
                },
        }
    }

    /// What to say of the error.
    pub fn message(&self) -> (r: String)
        ensures
            self.says(r@),
    {
        match self {
            LogFileError::InsideMount { path, mountpoint } => {
                let p = shown(path.as_path());
                let m = shown(mountpoint.as_path());
                inside_mount_message(p.as_str(), m.as_str())
            },
            LogFileError::Io { path, source } => {
                let p = shown(path.as_path());
                let e = source.to_string();
                io_message(p.as_str(), e.as_str())
            },
        }
    }
}

/// How severe a record is, the most severe first.
#[derive(Clone, Copy, PartialEq, Eq, Structural, Debug)]
pub enum Severity {
    Error,
    Warn,
    Info,
    Debug,
    Trace,
}

impl Severity {
    /// Whether a record this severe is worth being forced down to the disk: a
    /// warning or an error.
    pub open spec fn worth_a_sync(self) -> bool {
        self is Error || self is Warn
    }

    /// Whether a record this severe is worth being forced down to the disk.
    pub fn is_durable(&self) -> (r: bool)
        ensures
            r == self.worth_a_sync(),
    {
        matches!(*self, Severity::Error | Severity::Warn)
    }
}

/// How severe a record is whose level has this name.
pub open spec fn severity_named(name: Seq<char>) -> Severity {
    if name == "ERROR"@ {
        Severity::Error
    } else if name == "WARN"@ {
        Severity::Warn
    } else if name == "INFO"@ {
        Severity::Info
    } else if name == "DEBUG"@ {
        Severity::Debug
    } else {
        Severity::Trace
    }
}

/// `tracing::Level`.
#[verifier::external_type_specification]
#[verifier::external_body]
pub struct ExLevel(tracing::Level);

/// The name of a level of `tracing`.
pub uninterp spec fn level_name(level: tracing::Level) -> Seq<char>;

/// `tracing::Level::as_str`: the name of the level, which is one of five.
pub assume_specification[ tracing::Level::as_str ](level: &tracing::Level) -> (r: &'static str)
    ensures
        r@ == level_name(*level),
        r@ == "ERROR"@ || r@ == "WARN"@ || r@ == "INFO"@ || r@ == "DEBUG"@ || r@ == "TRACE"@,
;

/// How severe a record at a level of `tracing` is.
pub open spec fn severity_at(level: tracing::Level) -> Severity {
    severity_named(level_name(level))
}

/// How severe a record at this level is.
pub fn severity_of(level: &tracing::Level) -> (r: Severity)
    ensures
        r == severity_at(*level),
{
    let name = level.as_str();
    if same_text(name, "ERROR") {
        Severity::Error
    } else if same_text(name, "WARN") {
        Severity::Warn
    } else if same_text(name, "INFO") {
        Severity::Info
    } else if same_text(name, "DEBUG") {
        Severity::Debug
    } else {
        Severity::Trace
    }
}

/// Whether a record at this level is worth being forced down to the disk.
pub fn durable(level: &tracing::Level) -> (r: bool)
    ensures
        r == severity_at(*level).worth_a_sync(),
{
    severity_of(level).is_durable()
}

/// Whether a mount at `mountpoint` serves `path`, where both are as they came
/// out of being made absolute. A path that could not be made absolute is not one
/// that can be cleared, so it counts as served.
pub open spec fn served(
    path: Result<PathBuf, std::io::Error>,
    mountpoint: Result<PathBuf, std::io::Error>,
) -> bool {
    match (path, mountpoint) {
        (Ok(path), Ok(mountpoint)) => crate::paths::at_or_below(
            crate::paths::path_of(&path),
            crate::paths::path_of(&mountpoint),
        ),
        _ => true,
    }
}

/// Whether `outcome` can come of making `path` absolute.
pub open spec fn absolute_outcome(path: &Path, outcome: Result<PathBuf, std::io::Error>) -> bool {
    match outcome {
        Ok(absolute) => crate::paths::made_absolute(path, crate::paths::path_of(&absolute)),
        Err(_) => crate::paths::can_fail(path),
    }
}

/// Whether `path` would be served by a mount at `mountpoint`, where both are as
/// they came out of being made absolute.
pub fn is_inside_absolute(
    path: &Result<PathBuf, std::io::Error>,
    mountpoint: &Result<PathBuf, std::io::Error>,
) -> (r: bool)
    ensures
        r == served(*path, *mountpoint),
{
    match (path, mountpoint) {
        (Ok(path), Ok(mountpoint)) => starts_with(path.as_path(), mountpoint.as_path()),
        _ => true,
    }
}

/// Whether `path` would be served by a mount at `mountpoint`.
///
/// Both are made absolute first, and compared part by part, so a mount at
/// `/x/mnt` does not serve a log at `/x/mnt.log`. Neither need exist.
pub fn is_inside(path: &Path, mountpoint: &Path) -> (r: bool)
    ensures
        exists|p: Result<PathBuf, std::io::Error>, m: Result<PathBuf, std::io::Error>|
            #![trigger served(p, m)]
            {
                &&& absolute_outcome(path, p)
                &&& absolute_outcome(mountpoint, m)
                &&& r == served(p, m)
            },
        crate::paths::path_bytes(path).len() == 0 ==> r,
        crate::paths::path_bytes(mountpoint).len() == 0 ==> r,
{
    let p = absolute(path);
    let m = absolute(mountpoint);
    is_inside_absolute(&p, &m)
}

/// Where a log is to be written, and the directory that has to be there first.
#[derive(Debug)]
pub struct Resolved {
    pub path: PathBuf,
    pub parent: Option<PathBuf>,
}

impl Resolved {
    /// Whether this is the log at `path`, with the directory that `path` is in.
    pub open spec fn is_for(self, path: &Path) -> bool {
        let parts = crate::paths::path_parts(path);
        &&& crate::paths::path_of(&self.path) == path
        &&& self.parent is Some == crate::paths::has_parent(parts)
        &&& self.parent matches Some(parent) ==> crate::paths::path_parts(
            crate::paths::path_of(&parent),
        ) == parts.drop_last()
    }

    /// Where the log is to be written, once it has been tried to make the
    /// directory.
    pub fn prepared(self, made: Result<(), std::io::Error>) -> (r: Result<PathBuf, LogFileError>)
        ensures
            match (self.parent, made) {
                (Some(parent), Err(e)) => r matches Err(LogFileError::Io { path, source }) && path
                    == parent && source == e,
                _ => r == Ok::<PathBuf, LogFileError>(self.path),
            },
    {
        match (self.parent, made) {
            (Some(parent), Err(source)) => Err(LogFileError::Io { path: parent, source }),
            _ => Ok(self.path),
        }
    }
}

/// Whether `r` is what is owed for a log at `requested`, where `absolute_path` came
/// of making it absolute, and where there is a mountpoint, this came of that.
pub open spec fn resolution(
    requested: &Path,
    absolute_path: Result<PathBuf, std::io::Error>,
    mount: Option<(&Path, Result<PathBuf, std::io::Error>)>,
    r: Result<Resolved, LogFileError>,
) -> bool {
    match (absolute_path, mount) {
        (Err(e), _) => r matches Err(LogFileError::Io { path, source }) && crate::paths::path_of(
            &path,
        ) == requested && source == e,
        (Ok(_), Some((mountpoint, Err(e)))) => r matches Err(LogFileError::Io { path, source })
            && crate::paths::path_of(&path) == mountpoint && source == e,
        (Ok(p), Some((_, Ok(m)))) => if crate::paths::at_or_below(
            crate::paths::path_of(&p),
            crate::paths::path_of(&m),
        ) {
            r matches Err(LogFileError::InsideMount { path, mountpoint }) && path == p && mountpoint
                == m
        } else {
            r matches Ok(resolved) && resolved.is_for(crate::paths::path_of(&p))
        },
        (Ok(p), None) => r matches Ok(resolved) && resolved.is_for(crate::paths::path_of(&p)),
    }
}

/// Turns a requested log file into one that can be written for the life of the
/// mount. `absolute_path` is what came of making `requested` absolute; with a
/// mountpoint comes what became of it.
pub fn resolve_absolute(
    requested: &Path,
    absolute_path: Result<PathBuf, std::io::Error>,
    mount: Option<(&Path, Result<PathBuf, std::io::Error>)>,
) -> (r: Result<Resolved, LogFileError>)
    ensures
        resolution(requested, absolute_path, mount, r),
{
    let path = match absolute_path {
        Ok(path) => path,
        Err(source) => {
            return Err(LogFileError::Io { path: requested.to_path_buf(), source });
        },
    };
    if let Some((mountpoint, outcome)) = mount {
        match outcome {
            Ok(mountpoint) => {
                if starts_with(path.as_path(), mountpoint.as_path()) {
                    return Err(LogFileError::InsideMount { path, mountpoint });
                }
            },
            Err(source) => {
                return Err(LogFileError::Io { path: mountpoint.to_path_buf(), source });
            },
        }
    }
    let parent = parent(path.as_path());
    Ok(Resolved { path, parent })
}

/// Turns a requested log file into one that can be written for the life of the
/// mount: absolute, because a mount outlives the directory it was started in;
/// with the directory that has to be made for it; and never inside `mountpoint`,
/// for the reason on [`LogFileError::InsideMount`].
pub fn resolve(requested: &Path, mountpoint: Option<&Path>) -> (r: Result<Resolved, LogFileError>)
    ensures
        exists|p: Result<PathBuf, std::io::Error>, m: Option<
            (&Path, Result<PathBuf, std::io::Error>),
        >|
            #![trigger resolution(requested, p, m, r)]
            {
                &&& absolute_outcome(requested, p)
                &&& match (mountpoint, m) {
                    (Some(mountpoint), Some((of, outcome))) => of == mountpoint && absolute_outcome(
                        mountpoint,
                        outcome,
                    ),
                    (None, None) => true,
                    _ => false,
                }
                &&& resolution(requested, p, m, r)
            },
        mountpoint is None ==> !(r matches Err(LogFileError::InsideMount { .. })),
        crate::paths::path_bytes(requested).len() == 0 ==> (r matches Err(
            LogFileError::Io { path, .. },
        ) && crate::paths::path_of(&path) == requested),
{
    let path = absolute(requested);
    let mount = match mountpoint {
        Some(mountpoint) => Some((mountpoint, absolute(mountpoint))),
        None => None,
    };
    resolve_absolute(requested, path, mount)
}

/// What the name of generation `n` has behind the name of the active file.
pub open spec fn generation_suffix(n: nat) -> Seq<char> {
    "."@ + crate::text::decimal(n)
}

/// `mount.log` rotated `n` generations back: `mount.log.1`, `mount.log.2`, and
/// so on.
pub fn generation(path: &Path, n: usize) -> (r: PathBuf)
    ensures
        crate::paths::path_bytes(crate::paths::path_of(&r)) == crate::paths::path_bytes(path)
            + vstd::utf8::encode_utf8(generation_suffix(n as nat)),
{
    let mut suffix = String::new();
    suffix.append(".");
    suffix.append(decimal_of(n).as_str());
    assert(suffix@ =~= generation_suffix(n as nat));
    with_suffix(path, suffix.as_str())
}

/// A log file: where it is, and how far it has come.
#[derive(Debug)]
pub struct LogFile {
    pub path: PathBuf,
    pub rotating: Rotating,
}

/// One record's worth of access to the file, with whether the record is to be
/// forced down to the disk.
#[derive(Clone, Copy, PartialEq, Eq, Structural, Debug)]
pub struct LogFileWriter {
    pub sync: bool,
}

impl LogFile {
    /// The log at `path`, after it has been tried to open it for appending;
    /// `existing` is how many bytes it then held.
    pub fn open(path: PathBuf, existing: Result<u64, std::io::Error>) -> (r: Result<
        Self,
        LogFileError,
    >)
        ensures
            match existing {
                Ok(n) => r matches Ok(file) && file.path == path && file.rotating == (Rotating {
                    written: n,
                    max_bytes: DEFAULT_MAX_BYTES,
                    keep: DEFAULT_KEEP,
                    syncs: 0,
                }),
                Err(e) => r matches Err(LogFileError::Io { path: tried, source }) && tried == path
                    && source == e,
            },
    {
        Self::with_rotation(path, DEFAULT_MAX_BYTES, DEFAULT_KEEP, existing)
    }

    /// As [`LogFile::open`], with the rotation policy spelled out. What the file
    /// already held is part of the budget: a mount restarted in a loop does not
    /// start each run's accounting from zero.
    pub fn with_rotation(
        path: PathBuf,
        max_bytes: u64,
        keep: usize,
        existing: Result<u64, std::io::Error>,
    ) -> (r: Result<Self, LogFileError>)
        ensures
            match existing {
                Ok(n) => r matches Ok(file) && file.path == path && file.rotating == (Rotating {
                    written: n,
                    max_bytes,
                    keep,
                    syncs: 0,
                }),
                Err(e) => r matches Err(LogFileError::Io { path: tried, source }) && tried == path
                    && source == e,
            },
    {
        match existing {
            Ok(written) => Ok(
                LogFile { path, rotating: Rotating { written, max_bytes, keep, syncs: 0 } },
            ),
            Err(source) => Err(LogFileError::Io { path, source }),
        }
    }

    /// Where records are being written.
    pub fn path(&self) -> (r: &Path)
        ensures
            r == crate::paths::path_of(&self.path),
    {
        self.path.as_path()
    }

    /// A writer for one record, which is to be forced down to the disk or not.
    pub fn writer(&self, durable: bool) -> (r: LogFileWriter)
        ensures
            r.sync == durable,
    {
        LogFileWriter { sync: durable }
    }

    /// A writer for a record of which nothing is known: it is taken to be worth
    /// keeping.
    pub fn make_writer(&self) -> (r: LogFileWriter)
        ensures
            r.sync,
    {
        self.writer(true)
    }

    /// A writer for a record at this level.
    pub fn make_writer_for(&self, level: &tracing::Level) -> (r: LogFileWriter)
        ensures
            r.sync == severity_at(*level).worth_a_sync(),
    {
        self.writer(durable(level))
    }

    /// How many times this file has been forced down to the disk, for a record or
    /// for a rotation.
    pub fn sync_count(&self) -> (r: u64)
        ensures
            r == self.rotating.syncs,
    {
        self.rotating.syncs
    }
}

impl LogFileWriter {
    /// The record of `len` bytes that this writer is for.
    pub fn entry(&self, len: u64) -> (r: Entry)
        ensures
            r == (Entry { len, sync: self.sync }),
    {
        Entry { len, sync: self.sync }
    }
}

/// A log that has the same name as the mountpoint but for its last part, however
/// alike the two read, is not served by the mount.
pub proof fn sibling_is_not_served(path: &Path, mountpoint: &Path)
    requires
        crate::paths::path_parts(path).len() == crate::paths::path_parts(mountpoint).len(),
        crate::paths::path_parts(path).len() > 0,
        crate::paths::path_parts(path).last() != crate::paths::path_parts(mountpoint).last(),
    ensures
        !crate::paths::at_or_below(path, mountpoint),
{
}

/// A mount serves its own mountpoint, and everything below what it serves.
pub proof fn served_all_the_way_down(path: &Path, directory: &Path, mountpoint: &Path)
    requires
        crate::paths::at_or_below(path, directory),
        crate::paths::at_or_below(directory, mountpoint),
    ensures
        crate::paths::at_or_below(path, mountpoint),
        crate::paths::at_or_below(mountpoint, mountpoint),
{
    let p = crate::paths::path_parts(path);
    let d = crate::paths::path_parts(directory);
    let m = crate::paths::path_parts(mountpoint);
    assert(m =~= p.subrange(0, m.len() as int)) by {
        assert forall|i: int| 0 <= i < m.len() implies m[i] == p[i] by {
            assert(m[i] == d.subrange(0, m.len() as int)[i]);
            assert(d[i] == p.subrange(0, d.len() as int)[i]);
        }
    }
}

/// No two generations of a log share a name, and none has the name of the active
/// file.
pub proof fn generations_have_names_of_their_own(path: Seq<u8>, n: nat, m: nat)
    ensures
        path + vstd::utf8::encode_utf8(generation_suffix(n)) == path + vstd::utf8::encode_utf8(
            generation_suffix(m),
        ) ==> n == m,
        path + vstd::utf8::encode_utf8(generation_suffix(n)) != path,
{
    let a = vstd::utf8::encode_utf8(generation_suffix(n));
    let b = vstd::utf8::encode_utf8(generation_suffix(m));
    vstd::utf8::encode_utf8_decode_utf8(generation_suffix(n));
    vstd::utf8::encode_utf8_decode_utf8(generation_suffix(m));
    reveal_strlit(".");
    if path + a == path + b {
        assert((path + a).skip(path.len() as int) =~= a);
        assert((path + b).skip(path.len() as int) =~= b);
        assert(generation_suffix(n) == generation_suffix(m));
        assert(generation_suffix(n).skip(1) =~= crate::text::decimal(n));
        assert(generation_suffix(m).skip(1) =~= crate::text::decimal(m));
        crate::text::decimal_tells_numbers_apart(n, m);
    }
    assert(a.len() > 0) by {
        assert(generation_suffix(n).len() > 0);
    }
    assert((path + a).len() != path.len());
}

/// Whether the parts of `base` are the first parts of `path`, one by one.
pub open spec fn leads_to(base: &Path, path: &Path) -> bool {
    let b = crate::paths::path_parts(base);
    let p = crate::paths::path_parts(path);
    b.len() <= p.len() && forall|i: int| 0 <= i < b.len() ==> #[trigger] p[i] == b[i]
}

proof fn lemma_leads_to(base: &Path, path: &Path)
    ensures
        crate::paths::at_or_below(path, base) == leads_to(base, path),
{
    let b = crate::paths::path_parts(base);
    let p = crate::paths::path_parts(path);
    if leads_to(base, path) {
        assert(b =~= p.subrange(0, b.len() as int));
    }
    if crate::paths::at_or_below(path, base) {
        assert forall|i: int| 0 <= i < b.len() implies #[trigger] p[i] == b[i] by {
            assert(p.subrange(0, b.len() as int)[i] == p[i]);
        }
    }
}

/// A mount serves a log exactly where the parts of the mountpoint are the first parts
/// of the log's path, once both are absolute. Where one of them cannot be made so,
/// the log counts as served.
pub proof fn mount_serves_what_its_parts_lead_to(
    path: Result<PathBuf, std::io::Error>,
    mountpoint: Result<PathBuf, std::io::Error>,
)
    ensures
        path is Err || mountpoint is Err ==> served(path, mountpoint),
        path matches Ok(p) ==> mountpoint matches Ok(m) ==> served(path, mountpoint) == leads_to(
            crate::paths::path_of(&m),
            crate::paths::path_of(&p),
        ),
{
    if let (Ok(p), Ok(m)) = (path, mountpoint) {
        lemma_leads_to(crate::paths::path_of(&m), crate::paths::path_of(&p));
    }
}

/// A log that parts ways with the mountpoint anywhere, or stops short of it, is no
/// obstacle to the mount, however much else the two share.
pub proof fn log_elsewhere_is_no_obstacle(path: PathBuf, mountpoint: PathBuf, i: int)
    requires
        ({
            let p = crate::paths::path_parts(crate::paths::path_of(&path));
            let m = crate::paths::path_parts(crate::paths::path_of(&mountpoint));
            0 <= i < m.len() && (i >= p.len() || p[i] != m[i])
        }),
    ensures
        !served(Ok(path), Ok(mountpoint)),
{
    mount_serves_what_its_parts_lead_to(Ok(path), Ok(mountpoint));
}

/// Everything below the mountpoint is an obstacle, and the mountpoint itself.
pub proof fn log_below_the_mountpoint_is_served(
    path: PathBuf,
    mountpoint: PathBuf,
    below: Seq<crate::paths::PathPart>,
)
    requires
        crate::paths::path_parts(crate::paths::path_of(&path)) == crate::paths::path_parts(
            crate::paths::path_of(&mountpoint),
        ) + below,
    ensures
        served(Ok(path), Ok(mountpoint)),
{
    mount_serves_what_its_parts_lead_to(Ok(path), Ok(mountpoint));
}

/// What comes of making a path absolute starts at the top, and is what the
/// surroundings make of that path and no other; an empty path only ever fails, and
/// where a path fails there are surroundings that make nothing of it.
pub proof fn absolute_outcome_is_of_that_path(path: &Path, outcome: Result<PathBuf, std::io::Error>)
    requires
        absolute_outcome(path, outcome),
    ensures
        outcome matches Ok(absolute) ==> {
            let parts = crate::paths::path_parts(crate::paths::path_of(&absolute));
            &&& crate::paths::path_bytes(path).len() > 0
            &&& parts.len() > 0 && (parts[0] == crate::paths::PathPart::Root || parts[0] is Prefix)
            &&& exists|surroundings: Seq<u8>|
                #[trigger] crate::paths::absolute_form(
                    surroundings,
                    crate::paths::path_bytes(path),
                ) == Some(crate::paths::path_bytes(crate::paths::path_of(&absolute)))
        },
        outcome is Err ==> exists|surroundings: Seq<u8>|
            #[trigger] crate::paths::absolute_form(surroundings, crate::paths::path_bytes(path))
                is None,
{
}

/// A log is written where its path came out absolute, and nowhere that a mount would
/// serve; it is refused as inside the mount exactly where the mountpoint leads to it;
/// and each failure to make a path absolute is told as what it is, of the path that
/// it is of, the log's before the mountpoint's.
pub proof fn resolution_keeps_the_log_out_of_the_mount(
    requested: &Path,
    absolute_path: Result<PathBuf, std::io::Error>,
    mount: Option<(&Path, Result<PathBuf, std::io::Error>)>,
    r: Result<Resolved, LogFileError>,
)
    requires
        resolution(requested, absolute_path, mount, r),
    ensures
        r matches Ok(resolved) ==> {
            &&& absolute_path matches Ok(p) && crate::paths::path_of(&resolved.path)
                == crate::paths::path_of(&p)
            &&& mount matches Some((_, outcome)) ==> outcome matches Ok(m) && !leads_to(
                crate::paths::path_of(&m),
                crate::paths::path_of(&resolved.path),
            )
        },
        r matches Err(LogFileError::InsideMount { path, mountpoint }) ==> {
            &&& absolute_path matches Ok(p) && p == path
            &&& mount matches Some((_, Ok(m))) && m == mountpoint
            &&& leads_to(crate::paths::path_of(&mountpoint), crate::paths::path_of(&path))
        },
        r matches Err(LogFileError::Io { path, source }) ==> {
            ||| absolute_path matches Err(e) && e == source && crate::paths::path_of(&path)
                == requested
            ||| mount matches Some((mountpoint, Err(e))) && e == source && crate::paths::path_of(
                &path,
            ) == mountpoint && absolute_path is Ok
        },
{
    if let (Ok(p), Some((_, Ok(m)))) = (absolute_path, mount) {
        lemma_leads_to(crate::paths::path_of(&m), crate::paths::path_of(&p));
    }
}

/// The directory that has to be there for a log is the one that the log is in: with
/// the last part of the log's path behind it, it is that path. There is none only
/// where that path is the top of everything or nothing at all.
pub proof fn directory_is_the_one_the_log_is_in(resolved: Resolved, path: &Path)
    requires
        resolved.is_for(path),
    ensures
        crate::paths::path_of(&resolved.path) == path,
        resolved.parent matches Some(parent) ==> {
            let parts = crate::paths::path_parts(path);
            &&& parts.len() > 0
            &&& crate::paths::path_parts(crate::paths::path_of(&parent)).push(parts.last()) == parts
        },
        resolved.parent is None ==> {
            let parts = crate::paths::path_parts(path);
            parts.len() == 0 || parts.last() is Root || parts.last() is Prefix
        },
{
    let parts = crate::paths::path_parts(path);
    if parts.len() > 0 {
        assert(parts.drop_last().push(parts.last()) =~= parts);
    }
}

/// Exactly the records at the two levels named `ERROR` and `WARN` are forced down to
/// the disk, and each level has the severity of its name.
pub proof fn warnings_and_errors_are_forced_down(level: tracing::Level)
    ensures
        severity_at(level).worth_a_sync() == (level_name(level) == "ERROR"@ || level_name(level)
            == "WARN"@),
        level_name(level) == "ERROR"@ ==> severity_at(level) == Severity::Error,
        level_name(level) == "WARN"@ ==> severity_at(level) == Severity::Warn,
        level_name(level) == "INFO"@ ==> severity_at(level) == Severity::Info,
        level_name(level) == "DEBUG"@ ==> severity_at(level) == Severity::Debug,
        level_name(level) == "TRACE"@ ==> severity_at(level) == Severity::Trace,
{
    reveal_strlit("ERROR");
    reveal_strlit("WARN");
    reveal_strlit("INFO");
    reveal_strlit("DEBUG");
    reveal_strlit("TRACE");
    assert("ERROR"@[0] == 'E' && "WARN"@[0] == 'W' && "INFO"@[0] == 'I' && "DEBUG"@[0] == 'D'
        && "TRACE"@[0] == 'T');
}

/// A generation has the name of the log, a dot, and its own number.
pub proof fn generation_is_numbered(n: nat)
    ensures
        generation_suffix(n).len() > 1,
        generation_suffix(n)[0] == '.',
        crate::text::value(generation_suffix(n).skip(1)) == n,
        n > 0 ==> generation_suffix(n)[1] != '0',
        forall|i: int|
            1 <= i < generation_suffix(n).len() ==> '0' <= #[trigger] generation_suffix(n)[i] <= '9',
{
    reveal_strlit(".");
    crate::text::decimal_stands_for_the_number(n);
    let digits = crate::text::decimal(n);
    assert(generation_suffix(n).skip(1) =~= digits);
    assert forall|i: int| 1 <= i < generation_suffix(n).len() implies '0'
        <= #[trigger] generation_suffix(n)[i] <= '9' by {
        assert(generation_suffix(n)[i] == digits[i - 1]);
    }
}

/// An error says which log it is about and what is wrong with it: the mountpoint that
/// it is inside, or why it cannot be opened. A path that is Unicode reads as it is.
pub proof fn error_says_which_log_and_why(error: LogFileError, text: Seq<char>)
    requires
        error.says(text),
    ensures
        error matches LogFileError::InsideMount { path, mountpoint } ==> {
            let p = crate::paths::path_of(&path);
            let m = crate::paths::path_of(&mountpoint);
            &&& text == "--log-file "@ + crate::paths::path_text(p) + " is inside the mountpoint "@
                + crate::paths::path_text(m)
                + ". The log would be written through the mount it is describing, which deadlocks it. Choose a path on local disk."@
            &&& vstd::utf8::valid_utf8(crate::paths::path_bytes(p)) ==> crate::paths::path_text(p)
                == vstd::utf8::decode_utf8(crate::paths::path_bytes(p))
            &&& vstd::utf8::valid_utf8(crate::paths::path_bytes(m)) ==> crate::paths::path_text(m)
                == vstd::utf8::decode_utf8(crate::paths::path_bytes(m))
        },
        error matches LogFileError::Io { path, source } ==> {
            let p = crate::paths::path_of(&path);
            &&& exists|e: String|
                #[trigger] vstd::string::to_string_from_display_ensures::<std::io::Error>(&source, e)
                    && text == "cannot open log file "@ + crate::paths::path_text(p) + ": "@ + e@
            &&& vstd::utf8::valid_utf8(crate::paths::path_bytes(p)) ==> crate::paths::path_text(p)
                == vstd::utf8::decode_utf8(crate::paths::path_bytes(p))
        },
{
}

/// Both messages name the path first, and what is wrong with it last.
pub proof fn messages_hold_what_they_are_about(path: Seq<char>, other: Seq<char>)
    ensures
        ("--log-file "@ + path).is_prefix_of(inside_mount_text(path, other)),
        (other
            + ". The log would be written through the mount it is describing, which deadlocks it. Choose a path on local disk."@).is_suffix_of(
            inside_mount_text(path, other),
        ),
        ("cannot open log file "@ + path + ": "@).is_prefix_of(io_text(path, other)),
        other.is_suffix_of(io_text(path, other)),
        io_text(path, other).len() == "cannot open log file "@.len() + path.len() + ": "@.len()
            + other.len(),
{
    let end = ". The log would be written through the mount it is describing, which deadlocks it. Choose a path on local disk."@;
    let inside = inside_mount_text(path, other);
    assert((other + end) =~= inside.subrange(
        inside.len() - (other + end).len(),
        inside.len() as int,
    ));
    assert(other =~= io_text(path, other).subrange(
        io_text(path, other).len() - other.len(),
        io_text(path, other).len() as int,
    ));
}

} // verus!
