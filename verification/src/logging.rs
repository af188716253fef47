//! Where records go: to a callback, to a file, or to both, and which ones.
//!
//! The callback renders into a log pane, and that pane dies with its window. So
//! each record goes to the file first, which outlives the process; see
//! [`crate::logfile`].

use crate::filter::{is_readable, parse_filter};
use crate::logfile::{is_inside, resolve, LogFile, LogFileError, LogFileWriter, Resolved};
use crate::text::{chars_of, lines_of, same_text, trim, words_of};
use std::path::{Path, PathBuf};
use tracing_subscriber::EnvFilter;
use vstd::prelude::*;

verus! {

/// The crates whose `debug!` a person asking for debug wants. Everything else in
/// the process is somebody else's diagnostic, and arrives faster than a log pane
/// can render.
pub open spec fn workspace() -> Seq<Seq<char>> {
    seq![
        "synology_filestation_core"@,
        "synology_filestation_fuse"@,
        "synology_filestation_ffi"@,
        "synology_filestation_connect"@,
        "synology_filestation_openvpn"@,
        "synology_filestation_smb"@,
    ]
}

/// `c`, and its small letter where it is one of the capital letters of ASCII.
pub open spec fn lowered(c: char) -> char {
    if 'A' <= c <= 'Z' {
        (c as u32 + 32) as char
    } else {
        c
    }
}

/// Whether what was asked for is a filter expression rather than a level.
pub open spec fn is_expression(asked: Seq<char>) -> bool {
    asked.contains('=') || asked.contains(',')
}

/// The directives that scope a level to the crates of the workspace, and leave
/// everything else at `info`.
pub open spec fn scoped(level: Seq<char>) -> Seq<Seq<char>> {
    seq!["info"@] + workspace().map_values(|name: Seq<char>| name + "="@ + level)
}

/// The filter expression that a requested level means. A filter expression means
/// itself, untouched. The quiet levels are for everything, the verbose ones only for
/// the crates of the workspace, and a level that there is not is `info`: a typo
/// should not silence the log.
pub open spec fn meaning(level: Seq<char>) -> Seq<char> {
    let word = crate::text::trimmed(level).map_values(|c: char| lowered(c));
    if is_expression(level) {
        level
    } else if word == "error"@ || word == "warn"@ {
        word
    } else if word == "debug"@ || word == "trace"@ {
        crate::filter::joined(scoped(word))
    } else {
        "info"@
    }
}

/// The filter expression that is parsed for a requested level: what the level means,
/// without the white space at its two ends.
pub open spec fn parsed(level: Seq<char>) -> Seq<char> {
    crate::text::trimmed(meaning(level))
}

/// Whether `asked`, with its capital letters made small, is `word`.
fn is_word(asked: &Vec<char>, word: &str) -> (r: bool)
    ensures
        r == (asked@.map_values(|c: char| lowered(c)) == word@),
{
    let w = chars_of(word);
    if asked.len() != w.len() {
        return false;
    }
    for i in 0..w.len()
        invariant
            w@ == word@,
            asked@.len() == w@.len(),
            forall|j: int| 0 <= j < i ==> lowered(asked@[j]) == w@[j],
    {
        let c = asked[i];
        let low = if 'A' <= c && c <= 'Z' {
            (c as u8 + 32) as char
        } else {
            c
        };
        if low != w[i] {
            assert(asked@.map_values(|c: char| lowered(c))[i as int] != word@[i as int]);
            return false;
        }
    }
    assert(asked@.map_values(|c: char| lowered(c)) =~= word@);
    true
}

/// The crates of the workspace.
fn workspace_names() -> (r: Vec<&'static str>)
    ensures
        crate::text::texts(r@) == workspace(),
{
    let r = vec![
        "synology_filestation_core",
        "synology_filestation_fuse",
        "synology_filestation_ffi",
        "synology_filestation_connect",
        "synology_filestation_openvpn",
        "synology_filestation_smb",
    ];
    assert(crate::text::texts(r@) =~= workspace());
    r
}

/// The filter expression that scopes a verbose level to the workspace.
fn scope(level: &str) -> (r: String)
    ensures
        r@ == crate::filter::joined(scoped(level@)),
{
    let names = workspace_names();
    let ghost all = scoped(level@);
    let mut r = String::new();
    r.append("info");
    assert(r@ =~= "info"@);
    for i in 0..names.len()
        invariant
            crate::text::texts(names@) == workspace(),
            all == scoped(level@),
            r@ == crate::filter::joined(all.take(i + 1)),
    {
        r.append(",");
        r.append(names[i]);
        r.append("=");
        r.append(level);
        proof {
            assert(crate::text::texts(names@)[i as int] == names@[i as int]@);
            assert(all.take(i + 2).drop_last() =~= all.take(i + 1));
            assert(all[i + 1] == names@[i as int]@ + "="@ + level@);
            assert(r@ =~= crate::filter::joined(all.take(i + 1)) + ","@ + all[i + 1]);
        }
    }
    assert(all.take(names.len() + 1) =~= all);
    r
}

/// The filter expression that a requested level means.
///
/// A bare level would be for every crate linked into the process, so the verbose
/// ones are scoped to the workspace. Anything that looks like a filter expression
/// is one, and is passed through untouched.
pub fn directives(level: &str) -> (r: String)
    ensures
        r@ == meaning(level@),
{
    let chars = chars_of(level);
    for i in 0..chars.len()
        invariant
            chars@ == level@,
            forall|j: int| 0 <= j < i ==> level@[j] != '=' && level@[j] != ',',
    {
        if chars[i] == '=' || chars[i] == ',' {
            return level.to_owned();
        }
    }
    let asked = chars_of(trim(level));
    if is_word(&asked, "error") {
        "error".to_owned()
    } else if is_word(&asked, "warn") {
        "warn".to_owned()
    } else if is_word(&asked, "debug") {
        scope("debug")
    } else if is_word(&asked, "trace") {
        scope("trace")
    } else {
        "info".to_owned()
    }
}

/// The names of the workspace are names of crates.
proof fn lemma_workspace_names()
    ensures
        forall|i: int|
            0 <= i < workspace().len() ==> crate::filter::crate_word(#[trigger] workspace()[i]),
{
    reveal_strlit("synology_filestation_core");
    reveal_strlit("synology_filestation_fuse");
    reveal_strlit("synology_filestation_ffi");
    reveal_strlit("synology_filestation_connect");
    reveal_strlit("synology_filestation_openvpn");
    reveal_strlit("synology_filestation_smb");
    assert(crate::filter::crate_word("synology_filestation_core"@));
    assert(crate::filter::crate_word("synology_filestation_fuse"@));
    assert(crate::filter::crate_word("synology_filestation_ffi"@));
    assert(crate::filter::crate_word("synology_filestation_connect"@));
    assert(crate::filter::crate_word("synology_filestation_openvpn"@));
    assert(crate::filter::crate_word("synology_filestation_smb"@));
}

/// Whether a directive is for a crate of the workspace, at some level.
pub open spec fn for_the_workspace(directive: Seq<char>) -> bool {
    exists|i: int, level: Seq<char>|
        0 <= i < workspace().len() && directive == #[trigger] (workspace()[i] + "="@ + level)
}

/// A level, however it is written, means directives that each name a level. The
/// first is for everything, and never a verbose one; the others are for crates of
/// the workspace.
pub proof fn level_means_plain_directives(level: Seq<char>) -> (list: Seq<Seq<char>>)
    requires
        !is_expression(level),
    ensures
        crate::filter::all_plain(list),
        meaning(level) == crate::filter::joined(list),
        list[0] == "error"@ || list[0] == "warn"@ || list[0] == "info"@,
        forall|i: int| 1 <= i < list.len() ==> for_the_workspace(#[trigger] list[i]),
{
    let word = crate::text::trimmed(level).map_values(|c: char| lowered(c));
    reveal_strlit("error");
    reveal_strlit("warn");
    reveal_strlit("debug");
    reveal_strlit("trace");
    assert("error"@[0] == 'e' && "warn"@[0] == 'w' && "debug"@[0] == 'd' && "trace"@[0] == 't');
    if word == "debug"@ || word == "trace"@ {
        lemma_workspace_names();
        let list = scoped(word);
        assert forall|i: int| 0 <= i < list.len() implies crate::filter::plain_directive(
            #[trigger] list[i],
        ) by {
            if i > 0 {
                let name = workspace()[i - 1];
                assert(list[i] == name + "="@ + word);
                assert(crate::filter::crate_word(name));
            }
        }
        assert forall|i: int| 1 <= i < list.len() implies for_the_workspace(#[trigger] list[i]) by {
            assert(list[i] == workspace()[i - 1] + "="@ + word);
        }
        list
    } else {
        let list = seq![meaning(level)];
        assert(crate::filter::joined(list) == meaning(level));
        list
    }
}

proof fn lemma_quiet_word(word: Seq<char>)
    requires
        word == "error"@ || word == "warn"@ || word == "info"@,
    ensures
        meaning(word) == word,
        crate::text::trimmed(word) == word,
{
    reveal_strlit("error");
    reveal_strlit("warn");
    reveal_strlit("info");
    reveal_strlit("debug");
    reveal_strlit("trace");
    assert(crate::text::trimmed(word) == word);
    assert(word.map_values(|c: char| lowered(c)) =~= word);
    assert("error"@[0] == 'e' && "warn"@[0] == 'w' && "info"@[0] == 'i' && "debug"@[0] == 'd'
        && "trace"@[0] == 't');
    assert(!is_expression(word));
}

/// The expression that a verbose level means has no white space at its ends.
proof fn lemma_scoped(word: Seq<char>)
    requires
        word == "debug"@ || word == "trace"@,
    ensures
        is_expression(crate::filter::joined(scoped(word))),
        crate::text::trimmed(crate::filter::joined(scoped(word))) == crate::filter::joined(
            scoped(word),
        ),
{
    let list = scoped(word);
    let all = crate::filter::joined(list);
    let but_last = crate::filter::joined(list.drop_last());
    reveal_strlit("debug");
    reveal_strlit("trace");
    reveal_strlit("info");
    reveal_strlit(",");
    lemma_joined_first(list);
    assert(all == but_last + ","@ + list.last());
    assert(all[but_last.len() as int] == ',');
    assert(list.last() == workspace()[5] + "="@ + word);
    assert(all.last() == word.last());
    assert(all[0] == list[0][0]);
}

/// What a level means is settled: asking for the expression that a level means is
/// the same as asking for the level. An expression means itself, and a level is
/// parsed as what it means.
pub proof fn meaning_means_itself(level: Seq<char>)
    ensures
        meaning(meaning(level)) == meaning(level),
        is_expression(level) ==> meaning(level) == level,
        !is_expression(level) ==> parsed(level) == meaning(level),
{
    let word = crate::text::trimmed(level).map_values(|c: char| lowered(c));
    if is_expression(level) {
    } else if word == "error"@ || word == "warn"@ {
        lemma_quiet_word(word);
    } else if word == "debug"@ || word == "trace"@ {
        lemma_scoped(word);
    } else {
        lemma_quiet_word("info"@);
    }
}

proof fn lemma_joined_first(list: Seq<Seq<char>>)
    requires
        list.len() > 0,
    ensures
        list[0].is_prefix_of(crate::filter::joined(list)),
    decreases list.len(),
{
    if list.len() > 1 {
        lemma_joined_first(list.drop_last());
    }
}

/// The level numbers that a callback is told, the most severe first.
pub open spec fn level_number(word: Seq<char>) -> Option<i32> {
    if word == "ERROR"@ {
        Some(1)
    } else if word == "WARN"@ {
        Some(2)
    } else if word == "INFO"@ {
        Some(3)
    } else if word == "DEBUG"@ {
        Some(4)
    } else if word == "TRACE"@ {
        Some(5)
    } else {
        None
    }
}

/// The number of the first of some words that is the name of a level, and that of
/// `INFO` when none is.
pub open spec fn first_level(words: Seq<Seq<char>>) -> i32
    decreases words.len(),
{
    if words.len() == 0 {
        3
    } else {
        match level_number(words[0]) {
            Some(n) => n,
            None => first_level(words.drop_first()),
        }
    }
}

/// The level of a formatted record, as the number that a callback is told.
///
/// A record reads as the time, the level, where it is from, and what it says. The
/// level is the first word that is the name of one, so a message that has such a
/// word in it cannot misclassify the line.
pub fn level_of(line: &str) -> (r: i32)
    ensures
        r == first_level(crate::text::words(line@)),
{
    let words = words_of(line);
    let ghost all = crate::text::words(line@);
    assert(all.skip(0) =~= all);
    for i in 0..words.len()
        invariant
            all == crate::text::words(line@),
            crate::text::texts(words@) == all,
            first_level(all) == first_level(all.skip(i as int)),
    {
        let word = words[i];
        proof {
            assert(crate::text::texts(words@)[i as int] == word@);
            assert(all.skip(i as int)[0] == word@);
            assert(all.skip(i as int).drop_first() =~= all.skip(i + 1));
            reveal_strlit("ERROR");
            reveal_strlit("WARN");
            reveal_strlit("INFO");
            reveal_strlit("DEBUG");
            reveal_strlit("TRACE");
        }
        if same_text(word, "ERROR") {
            return 1;
        }
        if same_text(word, "WARN") {
            return 2;
        }
        if same_text(word, "INFO") {
            return 3;
        }
        if same_text(word, "DEBUG") {
            return 4;
        }
        if same_text(word, "TRACE") {
            return 5;
        }
    }
    3
}

proof fn lemma_first_level(words: Seq<Seq<char>>, more: Seq<Seq<char>>, i: int)
    requires
        0 <= i < words.len(),
        level_number(words[i]) is Some,
    ensures
        first_level(words + more) == first_level(words),
    decreases words.len(),
{
    let all = words + more;
    assert(all[0] == words[0]);
    if level_number(words[0]) is None {
        assert(words.drop_first()[i - 1] == words[i]);
        lemma_first_level(words.drop_first(), more, i - 1);
        assert(all.drop_first() =~= words.drop_first() + more);
    }
}

/// What a record says does not change its level: once the level has been named,
/// nothing that follows behind white space counts.
pub proof fn message_does_not_change_the_level(
    start: Seq<char>,
    space: char,
    message: Seq<char>,
    i: int,
)
    requires
        crate::text::white_space(space),
        0 <= i < crate::text::words(start).len(),
        level_number(crate::text::words(start)[i]) is Some,
    ensures
        first_level(crate::text::words(start + seq![space] + message)) == first_level(
            crate::text::words(start),
        ),
{
    crate::text::white_space_parts_words(start, space, message);
    lemma_first_level(crate::text::words(start), crate::text::words(message), i);
}

/// How many bytes there are up to the last line feed, and with it.
pub open spec fn finished_len(bytes: Seq<u8>) -> nat
    decreases bytes.len(),
{
    if bytes.len() == 0 || bytes.last() == 10 {
        bytes.len()
    } else {
        finished_len(bytes.drop_last())
    }
}

/// The lines that a line feed ends.
pub open spec fn finished(bytes: Seq<u8>) -> Seq<u8> {
    bytes.take(finished_len(bytes) as int)
}

/// The line that no line feed ends yet.
pub open spec fn unfinished(bytes: Seq<u8>) -> Seq<u8> {
    bytes.skip(finished_len(bytes) as int)
}

/// How many bytes there are up to the last line feed, and with it.
fn count_finished(bytes: &Vec<u8>) -> (r: usize)
    ensures
        r == finished_len(bytes@),
        r <= bytes@.len(),
{
    let mut n: usize = bytes.len();
    assert(bytes@.take(n as int) =~= bytes@);
    while n > 0 && bytes[n - 1] != 10
        invariant
            n <= bytes@.len(),
            finished_len(bytes@) == finished_len(bytes@.take(n as int)),
        decreases n,
    {
        assert(bytes@.take(n as int).drop_last() =~= bytes@.take(n - 1));
        n = n - 1;
    }
    n
}

/// The text of some bytes, with what is not UTF-8 replaced.
pub uninterp spec fn lossy(bytes: Seq<u8>) -> Seq<char>;

/// `String::from_utf8_lossy`: a function of the bytes, and the text that they
/// encode where they are UTF-8.
#[verifier::external_body]
fn lossy_text(bytes: &[u8]) -> (r: String)
    ensures
        r@ == lossy(bytes@),
        vstd::utf8::valid_utf8(bytes@) ==> r@ == vstd::utf8::decode_utf8(bytes@),
{
    String::from_utf8_lossy(bytes).into_owned()
}

/// Somewhere that a record goes.
#[derive(Debug)]
pub enum Delivery {
    /// The record itself, to the log file if there is one, where it is to be
    /// forced down to the disk or not.
    File { durable: bool },
    /// A line of it with its level, to the callback if there is one.
    Callback { level: i32, line: String },
}

/// The lines of a record that a callback is told: those that can be handed over
/// as they are, with no NUL among their characters.
pub open spec fn told(text: Seq<char>) -> Seq<Seq<char>> {
    crate::text::lines(text).filter(|line: Seq<char>| !line.contains('\0'))
}

/// Whether a delivery is this line, to a callback.
pub open spec fn tells(delivery: Delivery, expected: Seq<char>) -> bool {
    delivery matches Delivery::Callback { level, line } && line@ == expected && level
        == first_level(crate::text::words(expected))
}

/// One record's worth of access to everywhere that records go. It buffers a line,
/// and tells the callback only complete ones.
#[derive(Debug)]
pub struct FanoutWriter {
    /// Whether the record is to be forced down to the disk.
    pub durable: bool,
    /// The line that has been started and not ended.
    pub rest: Vec<u8>,
}

/// Whether a line has a NUL among its characters.
fn has_nul(line: &str) -> (r: bool)
    ensures
        r == line@.contains('\0'),
{
    let chars = chars_of(line);
    for i in 0..chars.len()
        invariant
            chars@ == line@,
            forall|j: int| 0 <= j < i ==> chars@[j] != '\0',
    {
        if chars[i] == '\0' {
            return true;
        }
    }
    false
}

impl FanoutWriter {
    /// A writer for a record of which nothing is known: it is taken to be worth
    /// keeping.
    pub fn make_writer() -> (r: Self)
        ensures
            r.durable,
            r.rest@ == Seq::<u8>::empty(),
    {
        FanoutWriter { durable: true, rest: Vec::new() }
    }

    /// A writer for a record at this level. The level decides whether the record
    /// is forced down to the disk, so it is not read back out of the text.
    pub fn make_writer_for(level: &tracing::Level) -> (r: Self)
        ensures
            r.durable == crate::logfile::severity_at(*level).worth_a_sync(),
            r.rest@ == Seq::<u8>::empty(),
    {
        FanoutWriter { durable: crate::logfile::durable(level), rest: Vec::new() }
    }

    /// Whether these are the deliveries of a record that completes this text: the file
    /// first, since a callback that hangs must not take the record on disk with
    /// it, and then the lines that a callback is told, in order.
    pub open spec fn delivers(self, text: Seq<char>, deliveries: Seq<Delivery>) -> bool {
        &&& deliveries.len() == told(text).len() + 1
        &&& deliveries[0] == Delivery::File { durable: self.durable }
        &&& forall|i: int|
            0 <= i < told(text).len() ==> tells(#[trigger] deliveries[i + 1], told(text)[i])
    }

    /// Where a record that completes this text goes, in order.
    pub fn write_text(&self, text: &str) -> (r: Vec<Delivery>)
        ensures
            self.delivers(text@, r@),
    {
        let lines = lines_of(text);
        let ghost all = crate::text::lines(text@);
        let ghost can = |line: Seq<char>| !line.contains('\0');
        let mut r: Vec<Delivery> = Vec::new();
        r.push(Delivery::File { durable: self.durable });
        assert(all.take(0).filter(can) =~= Seq::empty()) by {
            reveal(Seq::filter);
        }
        for i in 0..lines.len()
            invariant
                crate::text::texts(lines@) == all,
                can == (|line: Seq<char>| !line.contains('\0')),
                r@.len() == all.take(i as int).filter(can).len() + 1,
                r@[0] == (Delivery::File { durable: self.durable }),
                forall|j: int|
                    0 <= j < r@.len() - 1 ==> tells(
                        #[trigger] r@[j + 1],
                        all.take(i as int).filter(can)[j],
                    ),
        {
            let line = lines[i];
            let ghost before = r@;
            proof {
                assert(crate::text::texts(lines@)[i as int] == line@);
                assert(all.take(i + 1).drop_last() =~= all.take(i as int));
                reveal(Seq::filter);
            }
            if !has_nul(line) {
                r.push(Delivery::Callback { level: level_of(line), line: line.to_owned() });
                assert forall|j: int| 0 <= j < r@.len() - 1 implies tells(
                    #[trigger] r@[j + 1],
                    all.take(i + 1).filter(can)[j],
                ) by {
                    if j < before.len() - 1 {
                        assert(r@[j + 1] == before[j + 1]);
                    }
                }
            }
        }
        assert(all.take(lines.len() as int) =~= all);
        r
    }

    /// Where a record goes, in order. The callback is told the lines that the record
    /// ends, from where an earlier one may have started them; a line that it only
    /// starts is kept for the next.
    pub fn write(&mut self, record: &[u8]) -> (r: Vec<Delivery>)
        ensures
            final(self).durable == old(self).durable,
            final(self).rest@ == unfinished(old(self).rest@ + record@),
            old(self).delivers(lossy(finished(old(self).rest@ + record@)), r@),
            vstd::utf8::valid_utf8(finished(old(self).rest@ + record@)) ==> old(self).delivers(
                vstd::utf8::decode_utf8(finished(old(self).rest@ + record@)),
                r@,
            ),
    {
        let ghost all = self.rest@ + record@;
        self.rest.extend_from_slice(record);
        assert(self.rest@ =~= all);
        let n: usize = count_finished(&self.rest);
        let rest = self.rest.split_off(n);
        assert(self.rest@ =~= finished(all));
        assert(rest@ =~= unfinished(all));
        let text = lossy_text(self.rest.as_slice());
        self.rest = rest;
        self.write_text(text.as_str())
    }
}

proof fn lemma_finished(bytes: Seq<u8>)
    ensures
        finished_len(bytes) <= bytes.len(),
        finished_len(bytes) > 0 ==> bytes[finished_len(bytes) - 1] == 10,
        forall|i: int| finished_len(bytes) <= i < bytes.len() ==> bytes[i] != 10,
    decreases bytes.len(),
{
    if bytes.len() > 0 && bytes.last() != 10 {
        let before = bytes.drop_last();
        lemma_finished(before);
        assert forall|i: int| finished_len(bytes) <= i < bytes.len() implies bytes[i] != 10 by {
            if i < before.len() {
                assert(before[i] == bytes[i]);
            }
        }
    }
}

proof fn lemma_finished_is(bytes: Seq<u8>, n: int)
    requires
        0 <= n <= bytes.len(),
        n > 0 ==> bytes[n - 1] == 10,
        forall|i: int| n <= i < bytes.len() ==> bytes[i] != 10,
    ensures
        finished_len(bytes) == n,
{
    lemma_finished(bytes);
}

proof fn lemma_feed_is_boundary(bytes: Seq<u8>, n: int)
    requires
        vstd::utf8::valid_utf8(bytes),
        0 < n <= bytes.len(),
        bytes[n - 1] == 10,
    ensures
        vstd::utf8::is_char_boundary(bytes, n),
    decreases bytes.len(),
{
    let first = vstd::utf8::length_of_first_scalar(bytes);
    let rest = vstd::utf8::pop_first_scalar(bytes);
    reveal_with_fuel(vstd::utf8::is_char_boundary, 2);
    if n > first {
        assert(rest[n - first - 1] == bytes[n - 1]);
        lemma_feed_is_boundary(rest, n - first);
    } else {
        assert(n == first) by {
            if n > 1 {
                assert(vstd::utf8::is_continuation_byte(bytes[n - 1]));
            }
        }
    }
}

proof fn lemma_decoded_feed(bytes: Seq<u8>)
    requires
        vstd::utf8::valid_utf8(bytes),
        bytes.len() > 0,
        bytes.last() == 10,
    ensures
        vstd::utf8::decode_utf8(bytes).len() > 0,
        vstd::utf8::decode_utf8(bytes).last() == '\n',
{
    let n = bytes.len() as int;
    vstd::utf8::is_char_boundary_iff_not_is_continuation_byte(bytes, n - 1);
    vstd::utf8::valid_utf8_split(bytes, n - 1);
    vstd::utf8::decode_utf8_split(bytes, n - 1);
    let feed = bytes.subrange(n - 1, n);
    assert(feed =~= seq![10u8]);
    reveal_with_fuel(vstd::utf8::valid_utf8, 2);
    reveal_with_fuel(vstd::utf8::decode_utf8, 2);
    assert(vstd::utf8::decode_first_scalar(feed) == 10) by {
        assert(10u8 & 0x7f == 10) by (bit_vector);
    }
    assert(vstd::utf8::decode_utf8(feed) =~= seq!['\n']);
}

proof fn lemma_pieces(first: Seq<u8>, b: Seq<u8>)
    ensures
        finished(first) + finished(unfinished(first) + b) == finished(first + b),
        unfinished(unfinished(first) + b) == unfinished(first + b),
        finished(first).len() > 0 ==> finished(first).last() == 10,
{
    let second = unfinished(first) + b;
    let whole = first + b;
    let n = finished_len(first) as int;
    let m = finished_len(second) as int;
    lemma_finished(first);
    lemma_finished(second);
    assert forall|i: int| n + m <= i < whole.len() implies whole[i] != 10 by {
        assert(second[i - n] == whole[i]);
    }
    if m > 0 {
        assert(second[m - 1] == whole[n + m - 1]);
    } else if n > 0 {
        assert(whole[n - 1] == first[n - 1]);
    }
    lemma_finished_is(whole, n + m);
    assert(finished(first) + finished(second) =~= finished(whole));
    assert(unfinished(second) =~= unfinished(whole));
}

proof fn lemma_told_in_pieces(first: Seq<u8>, second: Seq<u8>)
    requires
        vstd::utf8::valid_utf8(first + second),
        first.len() > 0 ==> first.last() == 10,
    ensures
        vstd::utf8::valid_utf8(first),
        vstd::utf8::valid_utf8(second),
        told(vstd::utf8::decode_utf8(first)) + told(vstd::utf8::decode_utf8(second)) == told(
            vstd::utf8::decode_utf8(first + second),
        ),
{
    let all = first + second;
    let n = first.len() as int;
    assert(all.subrange(0, n) =~= first);
    assert(all.subrange(n, all.len() as int) =~= second);
    if n > 0 {
        lemma_feed_is_boundary(all, n);
    }
    vstd::utf8::valid_utf8_split(all, n);
    vstd::utf8::decode_utf8_split(all, n);
    let x = vstd::utf8::decode_utf8(first);
    let y = vstd::utf8::decode_utf8(second);
    if n > 0 {
        lemma_decoded_feed(first);
    } else {
        assert(x =~= Seq::empty());
    }
    crate::text::line_feed_parts_lines(x, y);
    Seq::filter_distributes_over_add(
        crate::text::lines(x),
        crate::text::lines(y),
        |line: Seq<char>| !line.contains('\0'),
    );
}

/// It does not matter in how many pieces a record is written: what is completed by
/// `a` and then by `b`, after `rest` was kept, is what is completed by the two at
/// once, the same is kept, and the callback is told the same lines where they are
/// UTF-8.
pub proof fn pieces_tell_what_the_whole_tells(rest: Seq<u8>, a: Seq<u8>, b: Seq<u8>)
    ensures
        finished(rest + a) + finished(unfinished(rest + a) + b) == finished(rest + (a + b)),
        unfinished(unfinished(rest + a) + b) == unfinished(rest + (a + b)),
        vstd::utf8::valid_utf8(finished(rest + (a + b))) ==> {
            &&& vstd::utf8::valid_utf8(finished(rest + a))
            &&& vstd::utf8::valid_utf8(finished(unfinished(rest + a) + b))
            &&& told(vstd::utf8::decode_utf8(finished(rest + a))) + told(
                vstd::utf8::decode_utf8(finished(unfinished(rest + a) + b)),
            ) == told(vstd::utf8::decode_utf8(finished(rest + (a + b))))
        },
{
    lemma_pieces(rest + a, b);
    assert(rest + (a + b) =~= (rest + a) + b);
    if vstd::utf8::valid_utf8(finished(rest + (a + b))) {
        lemma_told_in_pieces(finished(rest + a), finished(unfinished(rest + a) + b));
    }
}

/// Where records are sent besides the callback, and what has been said and done
/// about it so far.
#[derive(Debug)]
pub struct Logging {
    /// The file that records are also written to.
    pub file: Option<LogFile>,
    /// Whether records are being collected at all.
    pub installed: bool,
    /// Whether it has been said that the file cannot be written.
    pub complained: bool,
}

impl Logging {
    /// No file, and nothing collected yet.
    pub fn new() -> (r: Self)
        ensures
            r == (Logging { file: None, installed: false, complained: false }),
    {
        Logging { file: None, installed: false, complained: false }
    }

    /// Whether the collecting of records is to be set up now: the first time that
    /// there is a reason to, and never again.
    pub fn install(&mut self) -> (r: bool)
        ensures
            r == !old(self).installed,
            *final(self) == (Logging { installed: true, ..*old(self) }),
    {
        let first = !self.installed;
        self.installed = true;
        first
    }

    /// The filter to change to for a requested level. There is none to change
    /// until records are being collected, and none for an expression that cannot
    /// be read. A level that is no expression always has one.
    pub fn set_level(&self, level: &str) -> (r: Option<EnvFilter>)
        ensures
            r is Some == (self.installed && crate::filter::readable(parsed(level@))
                && crate::filter::filter_parses(parsed(level@))),
            r matches Some(filter) ==> crate::filter::made_of(filter, parsed(level@)),
            self.installed && !is_expression(level@) ==> r is Some,
    {
        if !self.installed {
            return None;
        }
        let expression = directives(level);
        let asked = trim(expression.as_str());
        proof {
            if !is_expression(level@) {
                let list = level_means_plain_directives(level@);
                meaning_means_itself(level@);
                crate::filter::plain_filters_are_readable(list);
            }
        }
        if !is_readable(asked) {
            return None;
        }
        parse_filter(asked)
    }

    /// Where a file that was asked for is to be, and the directory that has to be
    /// there first.
    pub fn choose_file(&self, path: &Path) -> (r: Result<Resolved, LogFileError>)
        ensures
            match r {
                Ok(resolved) => {
                    let chosen = crate::paths::path_of(&resolved.path);
                    crate::paths::made_absolute(path, chosen) && resolved.is_for(chosen)
                },
                Err(LogFileError::Io { path: tried, .. }) => crate::paths::path_of(&tried) == path
                    && crate::paths::can_fail(path),
                Err(LogFileError::InsideMount { .. }) => false,
            },
    {
        resolve(path, None)
    }

    /// Starts to write every record to a file as well, once it has been opened,
    /// and says where it is and whether the collecting of records is to be set up
    /// now. A file that could not be opened changes nothing.
    pub fn set_file(&mut self, opened: Result<LogFile, LogFileError>) -> (r: Result<
        (PathBuf, bool),
        LogFileError,
    >)
        ensures
            match opened {
                Ok(file) => {
                    &&& *final(self) == (Logging {
                        file: Some(file),
                        installed: true,
                        complained: old(self).complained,
                    })
                    &&& r matches Ok((path, first)) && crate::paths::path_of(&path)
                        == crate::paths::path_of(&file.path) && first == !old(self).installed
                },
                Err(e) => *final(self) == *old(self) && r == Err::<(PathBuf, bool), _>(e),
            },
    {
        let file = match opened {
            Ok(file) => file,
            Err(e) => {
                return Err(e);
            },
        };
        let path = file.path().to_path_buf();
        self.file = Some(file);
        let first = self.install();
        Ok((path, first))
    }

    /// Stops writing to the file.
    pub fn clear_file(&mut self)
        ensures
            *final(self) == (Logging { file: None, ..*old(self) }),
    {
        self.file = None;
    }

    /// Where records are being written, if anywhere.
    pub fn file_path(&self) -> (r: Option<PathBuf>)
        ensures
            match self.file {
                Some(file) => r matches Some(path) && crate::paths::path_of(&path)
                    == crate::paths::path_of(&file.path),
                None => r is None,
            },
    {
        match &self.file {
            Some(file) => Some(file.path().to_path_buf()),
            None => None,
        }
    }

    /// Where records are being written, if a mount at `mountpoint` would end up
    /// serving that.
    pub fn conflicts_with_mount(&self, mountpoint: &Path) -> (r: Option<PathBuf>)
        ensures
            match self.file {
                Some(file) => {
                    let active = crate::paths::path_of(&file.path);
                    &&& r matches Some(path) ==> crate::paths::path_of(&path) == active
                    &&& exists|p: Result<PathBuf, std::io::Error>, m: Result<PathBuf, std::io::Error>|
                        #![trigger crate::logfile::served(p, m)]
                        {
                            &&& crate::logfile::absolute_outcome(active, p)
                            &&& crate::logfile::absolute_outcome(mountpoint, m)
                            &&& r is Some == crate::logfile::served(p, m)
                        }
                },
                None => r is None,
            },
    {
        match &self.file {
            Some(file) => self.conflict(is_inside(file.path(), mountpoint)),
            None => None,
        }
    }

    /// Where records are being written, if that is inside a mount.
    pub fn conflict(&self, inside: bool) -> (r: Option<PathBuf>)
        ensures
            match self.file {
                Some(file) => if inside {
                    r matches Some(path) && crate::paths::path_of(&path) == crate::paths::path_of(
                        &file.path,
                    )
                } else {
                    r is None
                },
                None => r is None,
            },
    {
        if inside {
            self.file_path()
        } else {
            None
        }
    }

    /// How a record is to be written to the file, if there is one.
    pub fn to_file(&self, durable: bool) -> (r: Option<LogFileWriter>)
        ensures
            r == match self.file {
                Some(_) => Some(LogFileWriter { sync: durable }),
                None => None,
            },
    {
        match &self.file {
            Some(file) => Some(file.writer(durable)),
            None => None,
        }
    }

    /// Whether it is to be said that the file cannot be written: the first time,
    /// and never again. A log file that has stopped working is no reason to stop.
    pub fn write_failed(&mut self) -> (r: bool)
        ensures
            r == !old(self).complained,
            *final(self) == (Logging { complained: true, ..*old(self) }),
    {
        let first = !self.complained;
        self.complained = true;
        first
    }
}

/// Whether `c` is this small letter of ASCII, or its capital.
pub open spec fn either_case(c: char, small: char) -> bool {
    ||| small == 'a' && (c == 'a' || c == 'A')
    ||| small == 'b' && (c == 'b' || c == 'B')
    ||| small == 'c' && (c == 'c' || c == 'C')
    ||| small == 'd' && (c == 'd' || c == 'D')
    ||| small == 'e' && (c == 'e' || c == 'E')
    ||| small == 'f' && (c == 'f' || c == 'F')
    ||| small == 'g' && (c == 'g' || c == 'G')
    ||| small == 'h' && (c == 'h' || c == 'H')
    ||| small == 'i' && (c == 'i' || c == 'I')
    ||| small == 'j' && (c == 'j' || c == 'J')
    ||| small == 'k' && (c == 'k' || c == 'K')
    ||| small == 'l' && (c == 'l' || c == 'L')
    ||| small == 'm' && (c == 'm' || c == 'M')
    ||| small == 'n' && (c == 'n' || c == 'N')
    ||| small == 'o' && (c == 'o' || c == 'O')
    ||| small == 'p' && (c == 'p' || c == 'P')
    ||| small == 'q' && (c == 'q' || c == 'Q')
    ||| small == 'r' && (c == 'r' || c == 'R')
    ||| small == 's' && (c == 's' || c == 'S')
    ||| small == 't' && (c == 't' || c == 'T')
    ||| small == 'u' && (c == 'u' || c == 'U')
    ||| small == 'v' && (c == 'v' || c == 'V')
    ||| small == 'w' && (c == 'w' || c == 'W')
    ||| small == 'x' && (c == 'x' || c == 'X')
    ||| small == 'y' && (c == 'y' || c == 'Y')
    ||| small == 'z' && (c == 'z' || c == 'Z')
}

/// Whether `s` is this word, each letter of it small or a capital.
pub open spec fn spells(s: Seq<char>, word: Seq<char>) -> bool {
    s.len() == word.len() && forall|i: int| 0 <= i < s.len() ==> either_case(#[trigger] s[i], word[i])
}

proof fn lemma_lowered(c: char, small: char)
    requires
        'a' <= small <= 'z',
    ensures
        (lowered(c) == small) == either_case(c, small),
        either_case(c, small) ==> c != '=' && c != ',' && !crate::text::white_space(c),
{
}

proof fn lemma_spells(s: Seq<char>, word: Seq<char>)
    requires
        forall|i: int| 0 <= i < word.len() ==> 'a' <= #[trigger] word[i] <= 'z',
    ensures
        spells(s, word) == (s.map_values(|c: char| lowered(c)) == word),
        spells(s, word) ==> !is_expression(s) && forall|i: int|
            0 <= i < s.len() ==> !crate::text::white_space(#[trigger] s[i]),
{
    let low = s.map_values(|c: char| lowered(c));
    assert forall|i: int| 0 <= i < s.len() && i < word.len() implies {
        &&& (low[i] == word[i]) == either_case(#[trigger] s[i], word[i])
        &&& either_case(s[i], word[i]) ==> s[i] != '=' && s[i] != ','
            && !crate::text::white_space(s[i])
    } by {
        assert('a' <= word[i] <= 'z');
        lemma_lowered(s[i], word[i]);
    }
    if spells(s, word) {
        assert(low =~= word);
    }
    if low == word {
        assert forall|i: int| 0 <= i < s.len() implies either_case(#[trigger] s[i], word[i]) by {
            assert(low[i] == word[i]);
        }
    }
}

proof fn lemma_level_letters()
    ensures
        forall|i: int| 0 <= i < "error"@.len() ==> 'a' <= #[trigger] "error"@[i] <= 'z',
        forall|i: int| 0 <= i < "warn"@.len() ==> 'a' <= #[trigger] "warn"@[i] <= 'z',
        forall|i: int| 0 <= i < "debug"@.len() ==> 'a' <= #[trigger] "debug"@[i] <= 'z',
        forall|i: int| 0 <= i < "trace"@.len() ==> 'a' <= #[trigger] "trace"@[i] <= 'z',
        "error"@.len() == 5 && "warn"@.len() == 4 && "debug"@.len() == 5 && "trace"@.len() == 5,
        "error"@ != "debug"@ && "error"@ != "trace"@ && "debug"@ != "trace"@,
{
    reveal_strlit("error");
    reveal_strlit("warn");
    reveal_strlit("debug");
    reveal_strlit("trace");
    assert("error"@[0] == 'e' && "debug"@[0] == 'd' && "trace"@[0] == 't');
}

proof fn lemma_scoped_text(level: Seq<char>)
    ensures
        crate::filter::joined(scoped(level)) == "info"@
            + ","@ + ("synology_filestation_core"@ + "="@ + level)
            + ","@ + ("synology_filestation_fuse"@ + "="@ + level)
            + ","@ + ("synology_filestation_ffi"@ + "="@ + level)
            + ","@ + ("synology_filestation_connect"@ + "="@ + level)
            + ","@ + ("synology_filestation_openvpn"@ + "="@ + level)
            + ","@ + ("synology_filestation_smb"@ + "="@ + level),
{
    let list = scoped(level);
    assert(list[1] == "synology_filestation_core"@ + "="@ + level);
    assert(list.take(2).drop_last() =~= list.take(1));
    assert(list.take(2).last() == list[1]);
    assert(list[2] == "synology_filestation_fuse"@ + "="@ + level);
    assert(list.take(3).drop_last() =~= list.take(2));
    assert(list.take(3).last() == list[2]);
    assert(list[3] == "synology_filestation_ffi"@ + "="@ + level);
    assert(list.take(4).drop_last() =~= list.take(3));
    assert(list.take(4).last() == list[3]);
    assert(list[4] == "synology_filestation_connect"@ + "="@ + level);
    assert(list.take(5).drop_last() =~= list.take(4));
    assert(list.take(5).last() == list[4]);
    assert(list[5] == "synology_filestation_openvpn"@ + "="@ + level);
    assert(list.take(6).drop_last() =~= list.take(5));
    assert(list.take(6).last() == list[5]);
    assert(list[6] == "synology_filestation_smb"@ + "="@ + level);
    assert(list.take(7).drop_last() =~= list.take(6));
    assert(list.take(7).last() == list[6]);
    assert(list.take(7) =~= list);
    assert(crate::filter::joined(list.take(1)) == "info"@);
    assert(crate::filter::joined(list.take(2)) == crate::filter::joined(list.take(1)) + ","@
        + list[1]);
    assert(crate::filter::joined(list.take(3)) == crate::filter::joined(list.take(2)) + ","@
        + list[2]);
    assert(crate::filter::joined(list.take(4)) == crate::filter::joined(list.take(3)) + ","@
        + list[3]);
    assert(crate::filter::joined(list.take(5)) == crate::filter::joined(list.take(4)) + ","@
        + list[4]);
    assert(crate::filter::joined(list.take(6)) == crate::filter::joined(list.take(5)) + ","@
        + list[5]);
    assert(crate::filter::joined(list.take(7)) == crate::filter::joined(list.take(6)) + ","@
        + list[6]);
}

proof fn lemma_padded(before: Seq<char>, s: Seq<char>, after: Seq<char>)
    requires
        crate::text::blank(before),
        crate::text::blank(after),
    ensures
        is_expression(before + s + after) == is_expression(s),
{
    let all = before + s + after;
    assert forall|c: char| c == '=' || c == ',' implies #[trigger] all.contains(c) == s.contains(c) by {
        if s.contains(c) {
            let k = choose|k: int| 0 <= k < s.len() && s[k] == c;
            assert(all[before.len() + k] == c);
        }
        if all.contains(c) {
            let k = choose|k: int| 0 <= k < all.len() && all[k] == c;
            if k < before.len() {
                assert(crate::text::white_space(before[k]));
            } else if k < before.len() + s.len() {
                assert(s[k - before.len()] == c);
            } else {
                assert(crate::text::white_space(after[k - before.len() - s.len()]));
            }
        }
    }
    assert(all.contains('=') == s.contains('=') && all.contains(',') == s.contains(','));
}

/// A level is read whatever the case of its letters and the white space around it.
/// The quiet levels mean themselves, for everything; the verbose ones leave
/// everything at `info` but the six crates of the workspace; and what is none of the
/// four, nor an expression, is `info`.
pub proof fn level_is_read_whatever_its_case(before: Seq<char>, s: Seq<char>, after: Seq<char>)
    requires
        crate::text::blank(before),
        crate::text::blank(after),
        s.len() > 0 ==> !crate::text::white_space(s[0]) && !crate::text::white_space(s.last()),
    ensures
        spells(s, "error"@) ==> meaning(before + s + after) == "error"@,
        spells(s, "warn"@) ==> meaning(before + s + after) == "warn"@,
        spells(s, "debug"@) ==> meaning(before + s + after) == (
                "info"@
                + ","@ + ("synology_filestation_core"@ + "="@ + "debug"@)
                + ","@ + ("synology_filestation_fuse"@ + "="@ + "debug"@)
                + ","@ + ("synology_filestation_ffi"@ + "="@ + "debug"@)
                + ","@ + ("synology_filestation_connect"@ + "="@ + "debug"@)
                + ","@ + ("synology_filestation_openvpn"@ + "="@ + "debug"@)
                + ","@ + ("synology_filestation_smb"@ + "="@ + "debug"@)),
        spells(s, "trace"@) ==> meaning(before + s + after) == (
                "info"@
                + ","@ + ("synology_filestation_core"@ + "="@ + "trace"@)
                + ","@ + ("synology_filestation_fuse"@ + "="@ + "trace"@)
                + ","@ + ("synology_filestation_ffi"@ + "="@ + "trace"@)
                + ","@ + ("synology_filestation_connect"@ + "="@ + "trace"@)
                + ","@ + ("synology_filestation_openvpn"@ + "="@ + "trace"@)
                + ","@ + ("synology_filestation_smb"@ + "="@ + "trace"@)),
        !s.contains('=') && !s.contains(',') && !spells(s, "error"@) && !spells(s, "warn"@)
            && !spells(s, "debug"@) && !spells(s, "trace"@) ==> meaning(before + s + after)
            == "info"@,
{
    lemma_level_letters();
    lemma_spells(s, "error"@);
    lemma_spells(s, "warn"@);
    lemma_spells(s, "debug"@);
    lemma_spells(s, "trace"@);
    lemma_padded(before, s, after);
    crate::text::trimming_takes_the_white_space_at_the_ends(before, s, after);
    lemma_scoped_text("debug"@);
    lemma_scoped_text("trace"@);
}

/// Anything with an equals sign or a comma in it is a filter expression. It means
/// itself, to the last character, and is parsed without the white space at its ends.
pub proof fn expression_is_passed_through(before: Seq<char>, s: Seq<char>, after: Seq<char>)
    requires
        crate::text::blank(before),
        crate::text::blank(after),
        s.contains('=') || s.contains(','),
        !crate::text::white_space(s[0]) && !crate::text::white_space(s.last()),
    ensures
        meaning(before + s + after) == before + s + after,
        parsed(before + s + after) == s,
{
    lemma_padded(before, s, after);
    crate::text::trimming_takes_the_white_space_at_the_ends(before, s, after);
}

/// Whether a word is the name of one of the five levels.
pub open spec fn names_level(word: Seq<char>) -> bool {
    word == "ERROR"@ || word == "WARN"@ || word == "INFO"@ || word == "DEBUG"@ || word == "TRACE"@
}

/// The level of a line is that of its first word that names one, counted from 1 for
/// an error to 5 for a trace, and 3 where none does.
pub proof fn first_name_decides_the_level(words: Seq<Seq<char>>, i: int)
    requires
        0 <= i <= words.len(),
        forall|j: int| 0 <= j < i ==> !names_level(#[trigger] words[j]),
    ensures
        i < words.len() && words[i] == "ERROR"@ ==> first_level(words) == 1,
        i < words.len() && words[i] == "WARN"@ ==> first_level(words) == 2,
        i < words.len() && words[i] == "INFO"@ ==> first_level(words) == 3,
        i < words.len() && words[i] == "DEBUG"@ ==> first_level(words) == 4,
        i < words.len() && words[i] == "TRACE"@ ==> first_level(words) == 5,
        i == words.len() ==> first_level(words) == 3,
    decreases i,
{
    reveal_strlit("ERROR");
    reveal_strlit("WARN");
    reveal_strlit("INFO");
    reveal_strlit("DEBUG");
    reveal_strlit("TRACE");
    assert("ERROR"@[0] == 'E' && "WARN"@[0] == 'W' && "INFO"@[0] == 'I' && "DEBUG"@[0] == 'D'
        && "TRACE"@[0] == 'T');
    if i > 0 {
        assert(!names_level(words[0]));
        let rest = words.drop_first();
        assert forall|j: int| 0 <= j < i - 1 implies !names_level(#[trigger] rest[j]) by {
            assert(rest[j] == words[j + 1]);
        }
        first_name_decides_the_level(rest, i - 1);
        if i < words.len() {
            assert(rest[i - 1] == words[i]);
        }
    }
}

/// What has been written is parted behind its last line feed: nothing is lost, the
/// lines before are complete, and what is kept has no line feed in it.
pub proof fn last_line_feed_parts_what_is_written(bytes: Seq<u8>)
    ensures
        finished(bytes) + unfinished(bytes) == bytes,
        !unfinished(bytes).contains(10),
        finished(bytes).len() > 0 ==> finished(bytes).last() == 10,
{
    lemma_finished(bytes);
    assert(finished(bytes) + unfinished(bytes) =~= bytes);
    assert forall|i: int| 0 <= i < unfinished(bytes).len() implies unfinished(bytes)[i] != 10 by {
        assert(unfinished(bytes)[i] == bytes[finished_len(bytes) + i]);
    }
}

proof fn lemma_filter_places(s: Seq<Seq<char>>, keeps: spec_fn(Seq<char>) -> bool) -> (places: Seq<
    int,
>)
    ensures
        places.len() == s.filter(keeps).len(),
        forall|j: int| 0 <= j < places.len() ==> 0 <= #[trigger] places[j] < s.len(),
        forall|j: int|
            0 <= j < places.len() ==> s.filter(keeps)[j] == s[#[trigger] places[j]] && keeps(
                s[places[j]],
            ),
        forall|j: int, k: int| 0 <= j < k < places.len() ==> places[j] < places[k],
        forall|i: int| 0 <= i < s.len() && keeps(#[trigger] s[i]) ==> places.contains(i),
    decreases s.len(),
{
    reveal(Seq::filter);
    if s.len() == 0 {
        Seq::empty()
    } else {
        let before = s.drop_last();
        let n = s.len() - 1;
        let some = lemma_filter_places(before, keeps);
        let places = if keeps(s.last()) {
            some.push(n)
        } else {
            some
        };
        assert forall|j: int| 0 <= j < places.len() implies s.filter(keeps)[j]
            == s[#[trigger] places[j]] && keeps(s[places[j]]) by {
            if j < some.len() {
                assert(places[j] == some[j]);
                assert(before[some[j]] == s[some[j]]);
            }
        }
        assert forall|i: int| 0 <= i < s.len() && keeps(#[trigger] s[i]) implies places.contains(
            i,
        ) by {
            if i < n {
                assert(before[i] == s[i]);
                let j = choose|j: int| 0 <= j < some.len() && some[j] == i;
                assert(places[j] == i);
            } else {
                assert(places[some.len() as int] == i);
            }
        }
        places
    }
}

/// A record goes to the file first, and then each of its lines to the callback, in
/// order and once: every line with no NUL in it, and no other, with the level that
/// the line names. `places` says which line each delivery behind the first is.
pub proof fn every_line_is_told_once(
    writer: FanoutWriter,
    text: Seq<char>,
    deliveries: Seq<Delivery>,
) -> (places: Seq<int>)
    requires
        writer.delivers(text, deliveries),
    ensures
        deliveries.len() == places.len() + 1,
        deliveries[0] matches Delivery::File { durable } && durable == writer.durable,
        forall|j: int|
            0 <= j < places.len() ==> 0 <= #[trigger] places[j] < crate::text::lines(text).len(),
        forall|j: int|
            0 <= j < places.len() ==> {
                let expected = crate::text::lines(text)[#[trigger] places[j]];
                &&& !expected.contains('\0')
                &&& deliveries[j + 1] matches Delivery::Callback { level, line } && line@ == expected
                    && level == first_level(crate::text::words(line@))
            },
        forall|j: int, k: int| 0 <= j < k < places.len() ==> places[j] < places[k],
        forall|i: int|
            0 <= i < crate::text::lines(text).len() && !(#[trigger] crate::text::lines(
                text,
            )[i]).contains('\0') ==> places.contains(i),
{
    let all = crate::text::lines(text);
    let can = |line: Seq<char>| !line.contains('\0');
    let places = lemma_filter_places(all, can);
    assert(told(text) == all.filter(can));
    assert forall|j: int| 0 <= j < places.len() implies {
        let expected = all[#[trigger] places[j]];
        &&& !expected.contains('\0')
        &&& deliveries[j + 1] matches Delivery::Callback { level, line } && line@ == expected
            && level == first_level(crate::text::words(line@))
    } by {
        assert(can(all[places[j]]));
        assert(tells(deliveries[j + 1], told(text)[j]));
    }
    assert forall|i: int| 0 <= i < all.len() && !(#[trigger] all[i]).contains('\0') implies places.contains(
        i,
    ) by {
        assert(can(all[i]));
    }
    places
}

} // verus!
