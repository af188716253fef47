use std::path::{Path, PathBuf};
use synology_filestation_mount::filter::is_readable;
use synology_filestation_mount::logfile::{LogFile, LogFileError};
use synology_filestation_mount::logging::{
    directives, level_of, Delivery, FanoutWriter, Logging,
};
use synology_filestation_mount::rotation::Next;
use tracing::Level;

const DIR: &str = "/home/somebody/logs";

fn dir() -> &'static Path {
    Path::new(DIR)
}

/// What the platform says of a directory that was to be opened as a file.
fn is_a_directory() -> std::io::Error {
    std::io::Error::new(std::io::ErrorKind::Other, "is a directory")
}

/// Sets the file, as it is when everything on the disk succeeds.
fn set_file(logging: &mut Logging, path: &Path) -> Result<PathBuf, LogFileError> {
    let resolved = logging.choose_file(path)?.prepared(Ok(()))?;
    let opened = LogFile::open(resolved, Ok(0));
    logging.set_file(opened).map(|(path, _)| path)
}

/// Sends a record at this level through the fanout, to a file that is held in
/// memory.
fn emit(logging: &mut Logging, held: &mut Vec<u8>, level: &Level, record: &str) {
    for delivery in FanoutWriter::make_writer_for(level).write(record.as_bytes()) {
        if let Delivery::File { durable } = delivery {
            let Some(writer) = logging.to_file(durable) else {
                continue;
            };
            let file = logging.file.as_mut().unwrap();
            let entry = writer.entry(record.len() as u64);
            let mut op = file.rotating.record(entry);
            held.extend_from_slice(record.as_bytes());
            while let Next::Do(next) = file.rotating.after(entry, op, true) {
                op = next;
            }
        }
    }
}

#[test]
fn debug_does_not_turn_on_the_whole_dependency_tree() {
    let filter = directives("debug");

    assert!(
        filter.starts_with("info"),
        "everything else stays where it was, got {filter}"
    );
    assert!(
        filter.contains("synology_filestation_connect=debug"),
        "and ours go verbose, got {filter}"
    );
    assert!(
        filter.contains("synology_filestation_openvpn=debug"),
        "the tunnel is the thing being diagnosed, got {filter}"
    );
}

#[test]
fn trace_scopes_the_same_way() {
    let filter = directives("trace");

    assert!(filter.starts_with("info"), "got {filter}");
    assert!(
        filter.contains("synology_filestation_openvpn=trace"),
        "got {filter}"
    );
}

#[test]
fn a_quiet_level_stays_global() {
    assert_eq!(directives("info"), "info");
    assert_eq!(directives("warn"), "warn");
    assert_eq!(directives("error"), "error");
}

#[test]
fn an_unknown_level_is_info_rather_than_silence() {
    assert_eq!(directives("shout"), "info");
    assert_eq!(directives(""), "info");
}

#[test]
fn an_explicit_filter_expression_is_left_alone() {
    let asked = "warn,synology_filestation_openvpn=trace,rustls=debug";

    assert_eq!(directives(asked), asked);
    assert_eq!(directives("hyper=debug"), "hyper=debug");
}

#[test]
fn every_level_produces_something_that_parses() {
    for level in ["error", "warn", "info", "debug", "trace", "nonsense"] {
        assert!(
            tracing_subscriber::EnvFilter::try_new(directives(level)).is_ok(),
            "{level} produced an unparseable filter"
        );
    }
}

#[test]
fn the_verbose_levels_name_every_crate_of_the_workspace() {
    assert_eq!(
        directives("debug"),
        "info,synology_filestation_core=debug,synology_filestation_fuse=debug,\
         synology_filestation_ffi=debug,synology_filestation_connect=debug,\
         synology_filestation_openvpn=debug,synology_filestation_smb=debug"
    );
    assert_eq!(directives("trace"), directives("debug").replace("debug", "trace"));
}

#[test]
fn a_level_is_read_whatever_its_case_and_the_space_around_it() {
    assert_eq!(directives("  ERROR\n"), "error");
    assert_eq!(directives("\tWarn "), "warn");
    assert_eq!(directives("DEBUG"), directives("debug"));
    assert_eq!(directives("\u{3000}Trace\u{a0}"), directives("trace"));
    assert_eq!(directives(" hyper=DEBUG "), " hyper=DEBUG ");
    assert_eq!(directives(" hyper=debug "), " hyper=debug ");
    assert_eq!(directives("debugs"), "info");
}

#[test]
fn what_a_level_means_means_itself() {
    for level in ["error", " WARN ", "shout", "debug", "Trace", " a=b , c "] {
        let meaning = directives(level);
        assert_eq!(directives(&meaning), meaning);
    }
}

#[test]
fn a_level_has_a_filter_once_records_are_collected() {
    let mut logging = Logging::new();
    assert!(logging.set_level("debug").is_none());
    assert!(logging.install());
    assert!(!logging.install());

    let filter = logging.set_level("debug").unwrap();
    let made = filter.to_string();
    assert_eq!(
        made,
        tracing_subscriber::EnvFilter::new(directives("debug")).to_string()
    );
    assert!(made.contains("synology_filestation_smb=debug"), "{made}");
    assert!(made.contains("info"), "{made}");

    let other = logging.set_level("error").unwrap();
    assert_eq!(other.to_string(), "error");
    assert!(logging.set_level("hyper=notalevel").is_none());
    assert!(logging.set_level("hyper=warn").is_some());
    let padded = logging.set_level(" hyper=debug ").unwrap();
    assert_eq!(padded.to_string(), "hyper=debug");
    assert!(logging.set_level("a, \u{e9}]").is_some());
    assert!(logging.set_level("warn, \u{e9}=debug").is_none());
    assert!(logging.set_level("warn, \u{e9}a=debug").is_none());
    assert!(logging.set_level("warn, hyper=d\u{e9}bug").is_none());
    assert!(logging.set_level("warn, \u{e9}").is_some());
}

#[test]
fn an_expression_that_would_be_cut_inside_a_character_is_told() {
    assert!(is_readable("warn,hyper=debug"));
    assert!(is_readable("warn, hyper=debug"));
    assert!(is_readable("\u{e9}=debug"));
    assert!(is_readable("warn, \u{e9}"));
    assert!(is_readable(""));
    assert!(is_readable("warn, \u{e9}a=debug"));
    assert!(is_readable("warn, hyper=d\u{e9}bug"));
    assert!(is_readable("a, \u{e9}]"));
    assert!(is_readable("a, [x]=\u{e9}="));
    assert!(is_readable("a, b=\u{e9}[c]"));
    assert!(is_readable("a, [\u{e9}b{c=\u{e9}d}]=warn"));
    assert!(!is_readable("a, [\u{e9}]"));
    assert!(!is_readable("a, [b{\u{e9}}]"));
    assert!(!is_readable("warn, \u{e9}=debug"));
    assert!(!is_readable("warn, \u{e9}[span]"));
    assert!(!is_readable(" \u{e9}=debug,warn"));
}

#[test]
fn records_reach_the_log_file_once_one_is_set() {
    let path = dir().join("gui.log");
    let mut logging = Logging::new();
    let mut held = Vec::new();

    set_file(&mut logging, &path).expect("the file is writable");
    emit(&mut logging, &mut held, &Level::INFO, "mounting the share\n");
    logging.clear_file();

    let written = String::from_utf8(held).unwrap();
    assert!(written.contains("mounting the share"), "held {written:?}");
}

#[test]
fn clearing_the_log_file_stops_writing_to_it() {
    let path = dir().join("gui.log");
    let mut logging = Logging::new();
    let mut held = Vec::new();

    set_file(&mut logging, &path).unwrap();
    emit(&mut logging, &mut held, &Level::INFO, "while it was on\n");
    let after_on = held.clone();

    logging.clear_file();
    emit(&mut logging, &mut held, &Level::INFO, "after it was turned off\n");

    assert_eq!(
        held, after_on,
        "nothing may be appended once the file is cleared"
    );
    assert_eq!(logging.file_path(), None);
}

#[test]
fn the_level_still_decides_durability_through_the_fanout() {
    let path = dir().join("gui.log");
    let mut logging = Logging::new();
    let mut held = Vec::new();

    set_file(&mut logging, &path).unwrap();
    let before = logging.file.as_ref().expect("a file is set").sync_count();
    emit(&mut logging, &mut held, &Level::INFO, "routine\n");
    let after_info = logging.file.as_ref().unwrap().sync_count();
    emit(&mut logging, &mut held, &Level::WARN, "the SMB stream died\n");
    let after_warn = logging.file.as_ref().unwrap().sync_count();
    logging.clear_file();

    assert_eq!(after_info, before, "an info record is not worth a barrier");
    assert_eq!(after_warn, before + 1, "a warning is");
}

#[test]
fn an_unusable_path_is_reported() {
    let mut logging = Logging::new();
    let resolved = logging.choose_file(dir()).unwrap().prepared(Ok(())).unwrap();
    // A directory is not a file, and never becomes one.
    let opened = LogFile::open(resolved, Err(is_a_directory()));
    match logging.set_file(opened) {
        Err(LogFileError::Io { path, .. }) => assert_eq!(path, dir()),
        other => panic!("got {other:?}"),
    }
    assert_eq!(logging.file_path(), None);
    assert!(!logging.installed);
    logging.clear_file();
}

#[test]
fn a_log_file_inside_the_requested_mountpoint_is_refused() {
    let mountpoint = dir().join("nas");
    let mut logging = Logging::new();

    set_file(&mut logging, &mountpoint.join("mount.log")).unwrap();
    let conflict = logging.conflicts_with_mount(&mountpoint);
    logging.clear_file();

    assert!(
        conflict.is_some(),
        "a log under the mountpoint has to be caught"
    );
    assert_eq!(conflict, Some(mountpoint.join("mount.log")));
}

#[test]
fn a_log_file_elsewhere_is_no_obstacle() {
    let mountpoint = dir().join("nas");
    let mut logging = Logging::new();

    set_file(&mut logging, &dir().join("mount.log")).unwrap();
    let conflict = logging.conflicts_with_mount(&mountpoint);
    logging.clear_file();

    assert_eq!(conflict, None);
}

#[test]
fn a_conflict_is_the_active_file_exactly_where_it_is_inside() {
    let mut logging = Logging::new();
    assert_eq!(logging.conflict(true), None);
    set_file(&mut logging, &dir().join("mount.log")).unwrap();
    assert_eq!(logging.conflict(true), Some(dir().join("mount.log")));
    assert_eq!(logging.conflict(false), None);
    assert_eq!(logging.file_path(), Some(dir().join("mount.log")));
}

#[test]
fn no_log_file_never_blocks_a_mount() {
    let mut logging = Logging::new();
    logging.clear_file();

    assert_eq!(logging.conflicts_with_mount(Path::new("/mnt/nas")), None);
}

#[test]
fn setting_a_file_says_where_it_is_and_installs_once() {
    let mut logging = Logging::new();
    let first = LogFile::open(dir().join("one.log"), Ok(0));
    let (path, install) = logging.set_file(first).unwrap();
    assert_eq!(path, dir().join("one.log"));
    assert!(install);

    let second = LogFile::open(dir().join("two.log"), Ok(0));
    let (path, install) = logging.set_file(second).unwrap();
    assert_eq!(path, dir().join("two.log"));
    assert!(!install);
    assert_eq!(logging.file_path(), Some(dir().join("two.log")));
}

#[test]
fn a_file_that_cannot_be_written_is_complained_of_once() {
    let mut logging = Logging::new();
    assert!(logging.write_failed());
    assert!(!logging.write_failed());
    assert!(!logging.write_failed());
}

#[test]
fn the_level_of_a_line_is_its_first_word_that_names_one() {
    assert_eq!(level_of("2026-01-01T00:00:00Z ERROR fuse: it broke"), 1);
    assert_eq!(level_of("2026-01-01T00:00:00Z  WARN fuse: an ERROR to come"), 2);
    assert_eq!(level_of("2026-01-01T00:00:00Z  INFO fuse: DEBUG it"), 3);
    assert_eq!(level_of("x\u{2003}DEBUG\u{2003}y"), 4);
    assert_eq!(level_of("TRACE"), 5);
    assert_eq!(level_of("ERRORS and WARNings, error"), 3);
    assert_eq!(level_of(""), 3);
}

/// Whatever `is_readable` lets through can be given to the parser, over every
/// indented directive of a few of the characters that matter.
#[test]
fn what_is_readable_can_be_given_to_the_parser() {
    let letters = ['a', '\u{e9}', '\u{20ac}', '=', '[', ']', '{', '}', ' '];
    let mut words = vec![String::new()];
    for _ in 0..5 {
        let mut longer = Vec::new();
        for word in &words {
            for c in letters {
                let mut next = word.clone();
                next.push(c);
                longer.push(next);
            }
        }
        for word in &longer {
            let expression = format!("warn, {word}");
            if is_readable(&expression) {
                let _ = tracing_subscriber::EnvFilter::try_new(&expression).is_ok();
            }
        }
        words = longer;
    }
}

/// The callback's lines, after checking that the file comes first.
fn lines(deliveries: Vec<Delivery>, expected: bool) -> Vec<(i32, String)> {
    let mut all = deliveries.into_iter();
    assert!(matches!(all.next(), Some(Delivery::File { durable }) if durable == expected));
    all.map(|delivery| match delivery {
        Delivery::Callback { level, line } => (level, line),
        other => panic!("got {other:?}"),
    })
    .collect()
}

#[test]
fn a_record_goes_to_the_file_and_line_by_line_to_the_callback() {
    let mut writer = FanoutWriter::make_writer();
    assert_eq!(
        lines(writer.write(b"t WARN one\r\n\n\r\n  \ntwo\r\r\nthree"), true),
        vec![
            (2, "t WARN one".to_string()),
            (3, "  ".to_string()),
            (3, "two".to_string()),
        ]
    );
    assert_eq!(writer.rest, b"three");
    let mut quiet = FanoutWriter::make_writer_for(&Level::DEBUG);
    assert_eq!(lines(quiet.write(b""), false), vec![]);
    assert_eq!(
        lines(quiet.write(b"a\rb\n"), false),
        vec![(3, "a\rb".to_string())]
    );
}

#[test]
fn a_line_is_buffered_until_it_is_complete() {
    let mut writer = FanoutWriter::make_writer_for(&Level::INFO);
    assert_eq!(lines(writer.write(b"abc"), false), vec![]);
    assert_eq!(
        lines(writer.write(b"def\n"), false),
        vec![(3, "abcdef".to_string())]
    );
    assert!(writer.rest.is_empty());
}

#[test]
fn it_does_not_matter_in_how_many_pieces_a_record_is_written() {
    let record = "t WARN caf\u{e9}\r\n\nt ERROR two\nrest".as_bytes();
    let mut whole = FanoutWriter::make_writer();
    let at_once = lines(whole.write(record), true);
    for size in 1..record.len() {
        let mut writer = FanoutWriter::make_writer();
        let mut told = Vec::new();
        for piece in record.chunks(size) {
            told.extend(lines(writer.write(piece), true));
        }
        assert_eq!(told, at_once);
        assert_eq!(writer.rest, whole.rest);
    }
}

#[test]
fn a_line_with_a_nul_is_not_told_to_the_callback() {
    let mut writer = FanoutWriter::make_writer();
    assert_eq!(
        lines(writer.write(b"a\0b\nERROR c\n"), true),
        vec![(1, "ERROR c".to_string())]
    );
    assert_eq!(
        lines(writer.write_text("x\0\ny"), true),
        vec![(3, "y".to_string())]
    );
}

#[test]
fn bytes_that_are_no_text_are_replaced() {
    let mut writer = FanoutWriter::make_writer();
    assert_eq!(
        lines(writer.write(b"caf\xc3\xa9 \xff\n"), true),
        vec![(3, "caf\u{e9} \u{fffd}".to_string())]
    );
}
