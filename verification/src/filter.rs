//! Filter expressions: which records a log is to hold, as `tracing_subscriber`
//! reads it.

use crate::text::{chars_of, is_white_space};
use tracing_subscriber::EnvFilter;
use vstd::prelude::*;

verus! {

/// `tracing_subscriber::EnvFilter`.
#[verifier::external_type_specification]
#[verifier::external_body]
pub struct ExEnvFilter(tracing_subscriber::EnvFilter);

/// Whether a filter is what `tracing_subscriber` makes of an expression.
pub uninterp spec fn made_of(filter: EnvFilter, expression: Seq<char>) -> bool;

/// Whether `tracing_subscriber` makes a filter of an expression at all.
pub open spec fn filter_parses(expression: Seq<char>) -> bool {
    exists|filter: EnvFilter| #[trigger] made_of(filter, expression)
}

/// How many characters `s` has before its first comma.
pub open spec fn directive_len(s: Seq<char>) -> nat
    decreases s.len(),
{
    if s.len() == 0 || s[0] == ',' {
        0
    } else {
        1 + directive_len(s.drop_first())
    }
}

/// How many bytes a character takes in UTF-8.
pub open spec fn width(c: char) -> nat {
    if c <= '\u{7f}' {
        1
    } else if c <= '\u{7ff}' {
        2
    } else if c <= '\u{ffff}' {
        3
    } else {
        4
    }
}

/// How many bytes the first `k` characters of `s` take.
pub open spec fn bytes_before(s: Seq<char>, k: int) -> nat
    decreases k,
{
    if k <= 0 {
        0
    } else {
        bytes_before(s, k - 1) + width(s[k - 1])
    }
}

/// Whether `s` can be cut behind its first `n` bytes: that is between two
/// characters, or at an end.
pub open spec fn can_be_cut(s: Seq<char>, n: int) -> bool {
    exists|k: int| 0 <= k <= s.len() && #[trigger] bytes_before(s, k) == n
}

/// How many characters of white space `s` starts with.
pub open spec fn indent(s: Seq<char>) -> nat
    decreases s.len(),
{
    if s.len() == 0 || !crate::text::white_space(s[0]) {
        0
    } else {
        1 + indent(s.drop_first())
    }
}

/// The part of a directive that is being read.
#[derive(Clone, Copy, PartialEq, Eq, Structural, Debug)]
pub enum Part {
    /// Nothing has been read yet.
    Start,
    /// The target, or the level of a directive that has none.
    Name,
    /// The name of a span, in square brackets.
    Span,
    /// The fields of a span, in braces.
    Fields,
    /// The end of the fields.
    FieldsEnd,
    /// The end of the span.
    SpanEnd,
    /// The level, behind an equals sign.
    Level,
}

/// The part that `c` leads to, and none where a directive cannot go on with it.
pub open spec fn part_after(part: Part, c: char) -> Option<Part> {
    match part {
        Part::Start => Some(
            if c == '[' {
                Part::Span
            } else {
                Part::Name
            },
        ),
        Part::Name => Some(
            if c == '=' {
                Part::Level
            } else if c == '[' {
                Part::Span
            } else {
                Part::Name
            },
        ),
        Part::Span => Some(
            if c == ']' {
                Part::SpanEnd
            } else if c == '{' {
                Part::Fields
            } else {
                Part::Span
            },
        ),
        Part::Fields => Some(
            if c == '}' {
                Part::FieldsEnd
            } else {
                Part::Fields
            },
        ),
        Part::FieldsEnd => if c == ']' {
            Some(Part::SpanEnd)
        } else {
            None
        },
        Part::SpanEnd => if c == '=' {
            Some(Part::Level)
        } else {
            None
        },
        Part::Level => Some(Part::Level),
    }
}

/// Whether what has been read is cut off before `c`.
pub open spec fn cut_before(part: Part, c: char) -> bool {
    match part {
        Part::Name => c == '=' || c == '[',
        Part::Span => c == ']' || c == '{',
        Part::Fields => c == '}',
        _ => false,
    }
}

/// Whether what is read next is cut off behind `c`.
pub open spec fn cut_behind(part: Part, c: char) -> bool {
    match part {
        Part::Start => c == '[',
        Part::Name => c == '=' || c == '[',
        Part::Span => c == '{',
        Part::SpanEnd => c == '=',
        _ => false,
    }
}

/// How many bytes come before character `p` of a directive, not counting the white
/// space that it starts with.
pub open spec fn counted_before(directive: Seq<char>, p: int) -> int {
    bytes_before(directive, p) - bytes_before(directive, indent(directive) as int)
}

/// Whether a directive can be taken apart at character `p`, where `part` is being
/// read and the white space at the start is not counted.
pub open spec fn comes_apart(directive: Seq<char>, part: Part, p: int) -> bool {
    &&& cut_before(part, directive[p]) ==> can_be_cut(directive, counted_before(directive, p))
    &&& cut_behind(part, directive[p]) ==> can_be_cut(directive, counted_before(directive, p) + 1)
}

/// Whether a directive can be taken apart from character `p` on, where `part` is
/// being read.
pub open spec fn aligned_from(directive: Seq<char>, part: Part, p: int) -> bool
    decreases directive.len() - p,
{
    p < directive.len() ==> {
        &&& comes_apart(directive, part, p)
        &&& part_after(part, directive[p]) matches Some(next) ==> aligned_from(
            directive,
            next,
            p + 1,
        )
    }
}

/// Whether a directive can be taken apart wherever it has to be.
pub open spec fn aligned(directive: Seq<char>) -> bool {
    aligned_from(directive, Part::Start, indent(directive) as int)
}

/// Whether every directive of a comma-separated list is [`aligned`].
pub open spec fn all_aligned(s: Seq<char>) -> bool
    decreases s.len(),
{
    let n = directive_len(s) as int;
    &&& aligned(s.take(n))
    &&& 0 <= n < s.len() ==> all_aligned(s.skip(n + 1))
}

/// Whether an expression can be given to `tracing_subscriber`. It counts where the
/// parts of a directive are without the white space before it, and cuts them out
/// with the white space there; where that falls inside a character, it panics. So
/// an expression that is not readable is never one that it makes a filter of.
pub open spec fn readable(expression: Seq<char>) -> bool {
    all_aligned(expression)
}

/// The name of a level, as it stands in a filter expression.
pub open spec fn level_word(s: Seq<char>) -> bool {
    s == "error"@ || s == "warn"@ || s == "info"@ || s == "debug"@ || s == "trace"@
}

/// The name of a crate, as it stands in a filter expression.
pub open spec fn crate_word(s: Seq<char>) -> bool {
    s.len() > 0 && forall|i: int| 0 <= i < s.len() ==> ('a' <= #[trigger] s[i] <= 'z' || s[i] == '_')
}

/// A directive that names a level, for everything or for one crate.
pub open spec fn plain_directive(s: Seq<char>) -> bool {
    level_word(s) || exists|name: Seq<char>, level: Seq<char>|
        crate_word(name) && level_word(level) && s == #[trigger] (name + "="@ + level)
}

/// Directives as a filter expression has them, with a comma between each two.
pub open spec fn joined(directives: Seq<Seq<char>>) -> Seq<char>
    decreases directives.len(),
{
    if directives.len() <= 1 {
        directives.first()
    } else {
        joined(directives.drop_last()) + ","@ + directives.last()
    }
}

/// Whether these are directives that each name a level.
pub open spec fn all_plain(directives: Seq<Seq<char>>) -> bool {
    directives.len() > 0 && forall|i: int|
        0 <= i < directives.len() ==> plain_directive(#[trigger] directives[i])
}

/// `EnvFilter::try_new`: the filter that an expression stands for, if it can be
/// read, which depends on the expression alone. A list of directives that each
/// name a level, for everything or for one crate, can be read. Which records the
/// filter lets through is not said: nothing here sees inside it.
#[verifier::external_body]
pub(crate) fn parse_filter(expression: &str) -> (r: Option<EnvFilter>)
    requires
        readable(expression@),
    ensures
        r matches Some(filter) ==> made_of(filter, expression@),
        r is None ==> forall|filter: EnvFilter| !#[trigger] made_of(filter, expression@),
        forall|directives: Seq<Seq<char>>|
            all_plain(directives) && expression@ == #[trigger] joined(directives) ==> r is Some,
{
    EnvFilter::try_new(expression).ok()
}

proof fn lemma_bytes_grow(s: Seq<char>, k: int, m: int)
    requires
        0 <= k <= m,
    ensures
        bytes_before(s, k) + (m - k) <= bytes_before(s, m) <= bytes_before(s, k) + 4 * (m - k),
    decreases m - k,
{
    if k < m {
        lemma_bytes_grow(s, k, m - 1);
    }
}

proof fn lemma_indent(s: Seq<char>)
    ensures
        indent(s) <= s.len(),
        forall|i: int| 0 <= i < indent(s) ==> crate::text::white_space(#[trigger] s[i]),
        indent(s) < s.len() ==> !crate::text::white_space(s[indent(s) as int]),
    decreases s.len(),
{
    if s.len() > 0 && crate::text::white_space(s[0]) {
        let rest = s.drop_first();
        lemma_indent(rest);
        assert forall|i: int| 0 <= i < indent(s) implies crate::text::white_space(
            #[trigger] s[i],
        ) by {
            if i > 0 {
                assert(s[i] == rest[i - 1]);
            }
        }
    }
}

/// How many bytes `c` takes in UTF-8.
fn width_of(c: char) -> (r: u128)
    ensures
        r == width(c),
{
    if c <= '\u{7f}' {
        1
    } else if c <= '\u{7ff}' {
        2
    } else if c <= '\u{ffff}' {
        3
    } else {
        4
    }
}

/// Whether `s` can be cut behind its first `n` bytes.
fn is_cut(s: &Vec<char>, n: u128) -> (r: bool)
    ensures
        r == can_be_cut(s@, n as int),
{
    let mut bytes: u128 = 0;
    let mut i: usize = 0;
    while i < s.len() && bytes < n
        invariant
            i <= s@.len(),
            bytes == bytes_before(s@, i as int),
            bytes <= 4 * i,
            forall|k: int| 0 <= k < i ==> #[trigger] bytes_before(s@, k) < n,
        decreases s@.len() - i,
    {
        bytes = bytes + width_of(s[i]);
        i = i + 1;
    }
    assert forall|k: int| i < k <= s@.len() implies #[trigger] bytes_before(s@, k) != n by {
        lemma_bytes_grow(s@, i as int, k);
    }
    bytes == n
}

/// The part that `c` leads to.
fn next_part(part: Part, c: char) -> (r: Option<Part>)
    ensures
        r == part_after(part, c),
{
    match part {
        Part::Start if c == '[' => Some(Part::Span),
        Part::Start => Some(Part::Name),
        Part::Name if c == '=' => Some(Part::Level),
        Part::Name if c == '[' => Some(Part::Span),
        Part::Name => Some(Part::Name),
        Part::Span if c == ']' => Some(Part::SpanEnd),
        Part::Span if c == '{' => Some(Part::Fields),
        Part::Span => Some(Part::Span),
        Part::Fields if c == '}' => Some(Part::FieldsEnd),
        Part::Fields => Some(Part::Fields),
        Part::FieldsEnd if c == ']' => Some(Part::SpanEnd),
        Part::SpanEnd if c == '=' => Some(Part::Level),
        Part::FieldsEnd | Part::SpanEnd => None,
        Part::Level => Some(Part::Level),
    }
}

/// Whether what has been read is cut off before `c`.
fn is_cut_before(part: Part, c: char) -> (r: bool)
    ensures
        r == cut_before(part, c),
{
    match part {
        Part::Name => c == '=' || c == '[',
        Part::Span => c == ']' || c == '{',
        Part::Fields => c == '}',
        _ => false,
    }
}

/// Whether what is read next is cut off behind `c`.
fn is_cut_behind(part: Part, c: char) -> (r: bool)
    ensures
        r == cut_behind(part, c),
{
    match part {
        Part::Start => c == '[',
        Part::Name => c == '=' || c == '[',
        Part::Span => c == '{',
        Part::SpanEnd => c == '=',
        _ => false,
    }
}

/// Whether a directive can be taken apart wherever it has to be.
fn is_aligned(directive: &Vec<char>) -> (r: bool)
    ensures
        r == aligned(directive@),
{
    proof {
        lemma_indent(directive@);
    }
    let mut p: usize = 0;
    while p < directive.len() && is_white_space(directive[p])
        invariant
            p <= indent(directive@) <= directive@.len(),
            indent(directive@) < directive@.len() ==> !crate::text::white_space(
                directive@[indent(directive@) as int],
            ),
        decreases directive@.len() - p,
    {
        p = p + 1;
    }
    let ghost start = p as int;
    // What has been read, in bytes, without the white space at the start.
    let mut bytes: u128 = 0;
    let mut part = Part::Start;
    while p < directive.len()
        invariant
            start == indent(directive@),
            start <= p <= directive@.len(),
            bytes == counted_before(directive@, p as int),
            bytes <= 4 * p,
            aligned(directive@) == aligned_from(directive@, part, p as int),
        decreases directive@.len() - p,
    {
        let c = directive[p];
        if is_cut_before(part, c) && !is_cut(directive, bytes) {
            return false;
        }
        if is_cut_behind(part, c) && !is_cut(directive, bytes + 1) {
            return false;
        }
        match next_part(part, c) {
            Some(next) => {
                part = next;
            },
            None => {
                return true;
            },
        }
        bytes = bytes + width_of(c);
        p = p + 1;
    }
    true
}

/// Whether `expression` can be given to `tracing_subscriber`.
pub fn is_readable(expression: &str) -> (r: bool)
    ensures
        r == readable(expression@),
{
    let s = chars_of(expression);
    let mut from: usize = 0;
    assert(s@.skip(0) =~= s@);
    loop
        invariant
            s@ == expression@,
            from <= s@.len(),
            all_aligned(expression@) == all_aligned(expression@.skip(from as int)),
        decreases s@.len() - from,
    {
        let ghost rest = s@.skip(from as int);
        let mut to: usize = from;
        let mut directive: Vec<char> = Vec::new();
        while to < s.len() && s[to] != ','
            invariant
                s@ == expression@,
                from <= to <= s@.len(),
                directive_len(s@.skip(from as int)) == to - from + directive_len(
                    s@.skip(to as int),
                ),
                directive@ == s@.subrange(from as int, to as int),
            decreases s@.len() - to,
        {
            assert(s@.skip(to as int).drop_first() =~= s@.skip(to + 1));
            directive.push(s[to]);
            to = to + 1;
        }
        assert(rest.take(to - from) =~= directive@);
        if !is_aligned(&directive) {
            return false;
        }
        if to == s.len() {
            return true;
        }
        assert(rest.skip(to - from + 1) =~= s@.skip(to + 1));
        from = to + 1;
    }
}

proof fn lemma_ascii_bytes(s: Seq<char>, k: int)
    requires
        vstd::utf8::is_ascii_chars(s),
        0 <= k <= s.len(),
    ensures
        bytes_before(s, k) == k,
    decreases k,
{
    if k > 0 {
        lemma_ascii_bytes(s, k - 1);
        assert(0 <= s[k - 1] as nat);
    }
}

proof fn lemma_ascii_is_aligned(directive: Seq<char>, part: Part, p: int)
    requires
        vstd::utf8::is_ascii_chars(directive),
        indent(directive) <= p,
    ensures
        aligned_from(directive, part, p),
    decreases directive.len() - p,
{
    if p < directive.len() {
        lemma_indent(directive);
        let indented = indent(directive) as int;
        lemma_ascii_bytes(directive, indented);
        lemma_ascii_bytes(directive, p);
        lemma_ascii_bytes(directive, p - indented);
        lemma_ascii_bytes(directive, p - indented + 1);
        if let Some(next) = part_after(part, directive[p]) {
            lemma_ascii_is_aligned(directive, next, p + 1);
        }
    }
}

/// ASCII can always be taken apart.
pub proof fn ascii_is_readable(s: Seq<char>)
    requires
        vstd::utf8::is_ascii_chars(s),
    ensures
        readable(s),
    decreases s.len(),
{
    let n = directive_len(s) as int;
    lemma_directive_len(s);
    lemma_ascii_is_aligned(s.take(n), Part::Start, indent(s.take(n)) as int);
    if n < s.len() {
        ascii_is_readable(s.skip(n + 1));
    }
}

proof fn lemma_unindented_is_aligned(directive: Seq<char>, part: Part, p: int)
    requires
        indent(directive) == 0,
        0 <= p,
    ensures
        aligned_from(directive, part, p),
    decreases directive.len() - p,
{
    if p < directive.len() {
        assert(bytes_before(directive, p + 1) == bytes_before(directive, p) + width(directive[p]));
        if let Some(next) = part_after(part, directive[p]) {
            lemma_unindented_is_aligned(directive, next, p + 1);
        }
    }
}

/// A directive that no white space stands before can always be taken apart.
pub proof fn unindented_is_aligned(directive: Seq<char>)
    requires
        directive.len() > 0 ==> !crate::text::white_space(directive[0]),
    ensures
        aligned(directive),
{
    lemma_unindented_is_aligned(directive, Part::Start, 0);
}

proof fn lemma_directive_len(s: Seq<char>)
    ensures
        directive_len(s) <= s.len(),
    decreases s.len(),
{
    if s.len() > 0 && s[0] != ',' {
        lemma_directive_len(s.drop_first());
    }
}

proof fn lemma_plain_directive_is_ascii(s: Seq<char>)
    requires
        plain_directive(s),
    ensures
        vstd::utf8::is_ascii_chars(s),
{
    reveal_strlit("error");
    reveal_strlit("warn");
    reveal_strlit("info");
    reveal_strlit("debug");
    reveal_strlit("trace");
    reveal_strlit("=");
    assert(vstd::utf8::is_ascii_chars("error"@) && vstd::utf8::is_ascii_chars("warn"@) && vstd::utf8::is_ascii_chars("info"@)
        && vstd::utf8::is_ascii_chars("debug"@) && vstd::utf8::is_ascii_chars("trace"@) && vstd::utf8::is_ascii_chars("="@));
    if !level_word(s) {
        let (name, level) = choose|name: Seq<char>, level: Seq<char>|
            crate_word(name) && level_word(level) && s == #[trigger] (name + "="@ + level);
        vstd::utf8::is_ascii_chars_concat(name + "="@, name, "="@);
        vstd::utf8::is_ascii_chars_concat(s, name + "="@, level);
    }
}

/// A list of directives that each name a level is all ASCII, so it can be read.
pub proof fn plain_filters_are_readable(directives: Seq<Seq<char>>)
    requires
        all_plain(directives),
    ensures
        vstd::utf8::is_ascii_chars(joined(directives)),
        readable(joined(directives)),
    decreases directives.len(),
{
    let last = directives.last();
    assert(last == directives[directives.len() - 1]);
    lemma_plain_directive_is_ascii(last);
    if directives.len() > 1 {
        let before = directives.drop_last();
        assert forall|i: int| 0 <= i < before.len() implies plain_directive(#[trigger] before[i]) by {
            assert(before[i] == directives[i]);
        }
        plain_filters_are_readable(before);
        reveal_strlit(",");
        assert(vstd::utf8::is_ascii_chars(","@));
        vstd::utf8::is_ascii_chars_concat(joined(before) + ","@, joined(before), ","@);
        vstd::utf8::is_ascii_chars_concat(joined(directives), joined(before) + ","@, last);
    }
    ascii_is_readable(joined(directives));
}

proof fn lemma_width(c: char)
    ensures
        width(c) == vstd::utf8::encode_scalar(c as u32).len(),
{
    vstd::utf8::char_is_scalar(c);
}

proof fn lemma_bytes_first(s: Seq<char>, k: int)
    requires
        0 < k <= s.len(),
    ensures
        bytes_before(s, k) == width(s[0]) + bytes_before(s.drop_first(), k - 1),
    decreases k,
{
    if k > 1 {
        lemma_bytes_first(s, k - 1);
        assert(s.drop_first()[k - 2] == s[k - 1]);
    } else {
        reveal_with_fuel(bytes_before, 2);
    }
}

/// The bytes before a character are those of the UTF-8 of what stands before it.
proof fn lemma_bytes_encoded(s: Seq<char>, k: int)
    requires
        0 <= k <= s.len(),
    ensures
        bytes_before(s, k) == vstd::utf8::encode_utf8(s.take(k)).len(),
    decreases k,
{
    if k > 0 {
        lemma_bytes_first(s, k);
        lemma_bytes_encoded(s.drop_first(), k - 1);
        lemma_width(s[0]);
        assert(s.take(k).drop_first() =~= s.drop_first().take(k - 1));
        assert(s.take(k)[0] == s[0]);
    }
}

/// A text can be cut exactly where the UTF-8 of it has the boundary of a character.
pub proof fn cuts_are_at_character_boundaries(s: Seq<char>, n: int)
    ensures
        can_be_cut(s, n) == vstd::utf8::is_char_boundary(vstd::utf8::encode_utf8(s), n),
    decreases s.len(),
{
    let bytes = vstd::utf8::encode_utf8(s);
    vstd::utf8::encode_utf8_valid_utf8(s);
    if n <= 0 {
        assert(bytes_before(s, 0) == 0);
    } else if s.len() == 0 {
        assert(forall|k: int| 0 <= k <= s.len() ==> #[trigger] bytes_before(s, k) == 0);
    } else {
        let rest = s.drop_first();
        let w = width(s[0]) as int;
        lemma_width(s[0]);
        vstd::utf8::encode_utf8_first_scalar(s);
        vstd::utf8::encode_utf8_valid_utf8(rest);
        assert(vstd::utf8::pop_first_scalar(bytes) =~= vstd::utf8::encode_utf8(rest));
        cuts_are_at_character_boundaries(rest, n - w);
        if can_be_cut(s, n) {
            let k = choose|k: int| 0 <= k <= s.len() && #[trigger] bytes_before(s, k) == n;
            lemma_bytes_first(s, k);
            assert(bytes_before(rest, k - 1) == n - w);
            lemma_bytes_encoded(s, k);
            lemma_bytes_grow(s, k, s.len() as int);
            lemma_bytes_encoded(s, s.len() as int);
            assert(s.take(s.len() as int) =~= s);
        }
        if can_be_cut(rest, n - w) {
            let k = choose|k: int|
                0 <= k <= rest.len() && #[trigger] bytes_before(rest, k) == n - w;
            lemma_bytes_first(s, k + 1);
            assert(bytes_before(s, k + 1) == n);
        }
    }
}

/// Whether as many bytes as `part` has in UTF-8 can be cut off `directive` without
/// cutting into a character.
pub open spec fn fits_before(directive: Seq<char>, part: Seq<char>) -> bool {
    vstd::utf8::is_char_boundary(
        vstd::utf8::encode_utf8(directive),
        vstd::utf8::encode_utf8(part).len() as int,
    )
}

/// Whether `s` has neither of two characters in it.
pub open spec fn free_of(s: Seq<char>, a: char, b: char) -> bool {
    !s.contains(a) && !s.contains(b)
}

proof fn lemma_indent_of(pad: Seq<char>, body: Seq<char>)
    requires
        crate::text::blank(pad),
        body.len() > 0,
        !crate::text::white_space(body[0]),
    ensures
        indent(pad + body) == pad.len(),
    decreases pad.len(),
{
    let all = pad + body;
    if pad.len() > 0 {
        assert(all[0] == pad[0]);
        let rest = pad.drop_first();
        assert forall|i: int| 0 <= i < rest.len() implies crate::text::white_space(
            #[trigger] rest[i],
        ) by {
            assert(rest[i] == pad[i + 1]);
        }
        lemma_indent_of(rest, body);
        assert(all.drop_first() =~= rest + body);
    } else {
        assert(all[0] == body[0]);
    }
}

proof fn lemma_bytes_behind(pad: Seq<char>, body: Seq<char>, q: int)
    requires
        0 <= q <= body.len(),
    ensures
        bytes_before(pad + body, pad.len() + q) == bytes_before(pad + body, pad.len() as int)
            + bytes_before(body, q),
    decreases q,
{
    if q > 0 {
        lemma_bytes_behind(pad, body, q - 1);
        assert((pad + body)[pad.len() + q - 1] == body[q - 1]);
    }
}

/// Where a part of a directive ends, and where the next one starts behind a
/// character that takes it apart.
proof fn lemma_comes_apart(pad: Seq<char>, body: Seq<char>, part: Part, q: int)
    requires
        crate::text::blank(pad),
        body.len() > 0,
        !crate::text::white_space(body[0]),
        0 <= q < body.len(),
        body[q] <= '\u{7f}',
    ensures
        ({
            let directive = pad + body;
            comes_apart(directive, part, pad.len() + q) == {
                &&& cut_before(part, body[q]) ==> fits_before(directive, body.take(q))
                &&& cut_behind(part, body[q]) ==> fits_before(directive, body.take(q + 1))
            }
        }),
{
    let directive = pad + body;
    lemma_indent_of(pad, body);
    lemma_bytes_behind(pad, body, q);
    lemma_bytes_encoded(body, q);
    lemma_bytes_encoded(body, q + 1);
    assert(directive[pad.len() + q] == body[q]);
    cuts_are_at_character_boundaries(directive, bytes_before(body, q) as int);
    cuts_are_at_character_boundaries(directive, bytes_before(body, q) as int + 1);
    assert(bytes_before(body, q + 1) == bytes_before(body, q) + 1);
}

/// Nothing is taken apart as long as the same part is being read.
proof fn lemma_part_stays(directive: Seq<char>, part: Part, p: int, q: int)
    requires
        0 <= p <= q <= directive.len(),
        forall|i: int|
            p <= i < q ==> {
                &&& part_after(part, #[trigger] directive[i]) == Some(part)
                &&& !cut_before(part, directive[i])
                &&& !cut_behind(part, directive[i])
            },
    ensures
        aligned_from(directive, part, p) == aligned_from(directive, part, q),
    decreases q - p,
{
    if p < q {
        assert(part_after(part, directive[p]) == Some(part));
        lemma_part_stays(directive, part, p + 1, q);
    }
}

/// How the name at the start of a directive is read.
proof fn lemma_name(pad: Seq<char>, name: Seq<char>, rest: Seq<char>)
    requires
        crate::text::blank(pad),
        name.len() > 0,
        !crate::text::white_space(name[0]),
        free_of(name, '=', '['),
    ensures
        aligned(pad + (name + rest)) == aligned_from(
            pad + (name + rest),
            Part::Name,
            (pad.len() + name.len()) as int,
        ),
{
    let body = name + rest;
    let directive = pad + body;
    let p = pad.len() as int;
    assert(body[0] == name[0]);
    lemma_indent_of(pad, body);
    assert(directive[p] == name[0]);
    assert forall|i: int| p + 1 <= i < p + name.len() implies {
        &&& part_after(Part::Name, #[trigger] directive[i]) == Some(Part::Name)
        &&& !cut_before(Part::Name, directive[i])
        &&& !cut_behind(Part::Name, directive[i])
    } by {
        assert(directive[i] == name[i - p]);
    }
    lemma_part_stays(directive, Part::Name, p + 1, p + name.len());
}

/// A directive that is only a level or only a target is never taken apart, so it can
/// be read whatever stands in it.
pub proof fn name_alone_is_aligned(pad: Seq<char>, name: Seq<char>)
    requires
        crate::text::blank(pad),
        name.len() > 0,
        !crate::text::white_space(name[0]),
        free_of(name, '=', '['),
    ensures
        aligned(pad + name),
{
    lemma_name(pad, name, Seq::empty());
    assert(name + Seq::empty() =~= name);
}

/// How the level behind an equals sign is read: it is cut off once, at its start.
proof fn lemma_level(directive: Seq<char>, p: int)
    requires
        0 <= p <= directive.len(),
    ensures
        aligned_from(directive, Part::Level, p),
{
    lemma_part_stays(directive, Part::Level, p, directive.len() as int);
}

/// A target with a level is taken apart at the equals sign between them, before it
/// and behind it, and nowhere else.
pub proof fn target_is_cut_from_its_level(pad: Seq<char>, name: Seq<char>, level: Seq<char>)
    requires
        crate::text::blank(pad),
        name.len() > 0,
        !crate::text::white_space(name[0]),
        free_of(name, '=', '['),
    ensures
        ({
            let directive = pad + (name + (seq!['='] + level));
            aligned(directive) == (fits_before(directive, name) && fits_before(
                directive,
                name + seq!['='],
            ))
        }),
{
    let body = name + (seq!['='] + level);
    let directive = pad + body;
    let q = name.len() as int;
    lemma_name(pad, name, seq!['='] + level);
    assert(body[0] == name[0] && body[q] == '=');
    assert(directive[pad.len() + q] == '=');
    lemma_comes_apart(pad, body, Part::Name, q);
    assert(body.take(q) =~= name);
    assert(body.take(q + 1) =~= name + seq!['=']);
    lemma_level(directive, pad.len() + q + 1);
}

/// How a directive is read up to the name of its span.
proof fn lemma_to_span(pad: Seq<char>, name: Seq<char>, rest: Seq<char>)
    requires
        crate::text::blank(pad),
        name.len() > 0 ==> !crate::text::white_space(name[0]),
        free_of(name, '=', '['),
    ensures
        ({
            let directive = pad + (name + (seq!['['] + rest));
            aligned(directive) == {
                &&& name.len() > 0 ==> fits_before(directive, name)
                &&& fits_before(directive, name + seq!['['])
                &&& aligned_from(directive, Part::Span, (pad.len() + name.len() + 1) as int)
            }
        }),
{
    let body = name + (seq!['['] + rest);
    let directive = pad + body;
    let q = name.len() as int;
    assert(body[q] == '[');
    assert(directive[pad.len() + q] == '[');
    assert(body.take(q) =~= name);
    assert(body.take(q + 1) =~= name + seq!['[']);
    if q > 0 {
        assert(body[0] == name[0]);
        lemma_name(pad, name, seq!['['] + rest);
        lemma_comes_apart(pad, body, Part::Name, q);
    } else {
        lemma_indent_of(pad, body);
        lemma_comes_apart(pad, body, Part::Start, q);
    }
}

/// How what stands behind a span is read: nothing, or a level that is cut off once.
proof fn lemma_span_end(pad: Seq<char>, head: Seq<char>, level: Option<Seq<char>>)
    requires
        crate::text::blank(pad),
        head.len() > 0,
        !crate::text::white_space(head[0]),
    ensures
        ({
            let directive = pad + (head + tail_of(level));
            aligned_from(directive, Part::SpanEnd, (pad.len() + head.len()) as int) == (level is Some
                ==> fits_before(directive, head + seq!['=']))
        }),
{
    let body = head + tail_of(level);
    let directive = pad + body;
    let q = head.len() as int;
    assert(body[0] == head[0]);
    if level is Some {
        assert(body[q] == '=');
        assert(directive[pad.len() + q] == '=');
        assert(body.take(q + 1) =~= head + seq!['=']);
        lemma_comes_apart(pad, body, Part::SpanEnd, q);
        lemma_level(directive, pad.len() + q + 1);
    }
}

/// What stands behind a span: nothing, or an equals sign and a level.
pub open spec fn tail_of(level: Option<Seq<char>>) -> Seq<char> {
    match level {
        Some(level) => seq!['='] + level,
        None => Seq::empty(),
    }
}

proof fn lemma_first(head: Seq<char>, rest: Seq<char>)
    requires
        head.len() > 0 ==> !crate::text::white_space(head[0]),
    ensures
        !crate::text::white_space((head + (seq!['['] + rest))[0]),
{
    if head.len() > 0 {
        assert((head + (seq!['['] + rest))[0] == head[0]);
    } else {
        assert((head + (seq!['['] + rest))[0] == '[');
    }
}

/// A span is cut out between its brackets, with the target before it and the level
/// behind it where there are any, and nothing else is cut.
pub proof fn span_is_cut_out_of_its_brackets(
    pad: Seq<char>,
    name: Seq<char>,
    span: Seq<char>,
    level: Option<Seq<char>>,
)
    requires
        crate::text::blank(pad),
        name.len() > 0 ==> !crate::text::white_space(name[0]),
        free_of(name, '=', '['),
        free_of(span, ']', '{'),
    ensures
        ({
            let open = name + seq!['['];
            let closed = open + span + seq![']'];
            let directive = pad + (closed + tail_of(level));
            aligned(directive) == {
                &&& name.len() > 0 ==> fits_before(directive, name)
                &&& fits_before(directive, open)
                &&& fits_before(directive, open + span)
                &&& level is Some ==> fits_before(directive, closed + seq!['='])
            }
        }),
{
    let open = name + seq!['['];
    let closed = open + span + seq![']'];
    let body = closed + tail_of(level);
    let directive = pad + body;
    let rest = span + seq![']'] + tail_of(level);
    let q = (open.len() + span.len()) as int;
    let p = pad.len() as int;
    assert(body =~= name + (seq!['['] + rest));
    lemma_first(name, rest);
    lemma_to_span(pad, name, rest);
    assert forall|i: int| p + open.len() <= i < p + q implies {
        &&& part_after(Part::Span, #[trigger] directive[i]) == Some(Part::Span)
        &&& !cut_before(Part::Span, directive[i])
        &&& !cut_behind(Part::Span, directive[i])
    } by {
        assert(directive[i] == span[i - p - open.len()]);
    }
    lemma_part_stays(directive, Part::Span, p + open.len(), p + q);
    assert(body[q] == ']');
    assert(directive[p + q] == ']');
    assert(body.take(q) =~= open + span);
    lemma_comes_apart(pad, body, Part::Span, q);
    assert(closed[0] == body[0]);
    lemma_span_end(pad, closed, level);
}

/// The fields of a span are cut out between their braces, with everything that is
/// cut of a span without any.
pub proof fn fields_are_cut_out_of_their_braces(
    pad: Seq<char>,
    name: Seq<char>,
    span: Seq<char>,
    fields: Seq<char>,
    level: Option<Seq<char>>,
)
    requires
        crate::text::blank(pad),
        name.len() > 0 ==> !crate::text::white_space(name[0]),
        free_of(name, '=', '['),
        free_of(span, ']', '{'),
        !fields.contains('}'),
    ensures
        ({
            let open = name + seq!['['];
            let brace = open + span + seq!['{'];
            let closed = brace + fields + seq!['}', ']'];
            let directive = pad + (closed + tail_of(level));
            aligned(directive) == {
                &&& name.len() > 0 ==> fits_before(directive, name)
                &&& fits_before(directive, open)
                &&& fits_before(directive, open + span)
                &&& fits_before(directive, brace)
                &&& fits_before(directive, brace + fields)
                &&& level is Some ==> fits_before(directive, closed + seq!['='])
            }
        }),
{
    let open = name + seq!['['];
    let brace = open + span + seq!['{'];
    let closed = brace + fields + seq!['}', ']'];
    let tail = tail_of(level);
    let end = seq!['}', ']'] + tail;
    let directive = pad + (closed + tail);
    assert(closed + tail =~= name + (seq!['['] + (span + (seq!['{'] + (fields + end)))));
    assert(closed + tail =~= open + (span + (seq!['{'] + (fields + end))));
    assert(closed + tail =~= brace + (fields + end));
    assert(closed + tail =~= (brace + fields) + end);
    lemma_first(name, span + (seq!['{'] + (fields + end)));
    assert(!crate::text::white_space(open[0]) && open[0] == (closed + tail)[0]);
    lemma_to_span(pad, name, span + (seq!['{'] + (fields + end)));
    lemma_to_fields(pad, open, span, fields + end);
    lemma_stretch(pad, brace, fields, end, Part::Fields);
    assert((brace + fields)[0] == open[0]);
    lemma_fields_end(pad, brace + fields, level);
    assert((brace + fields) + seq!['}', ']'] =~= closed);
}

/// How a span is read up to its fields.
proof fn lemma_to_fields(pad: Seq<char>, open: Seq<char>, span: Seq<char>, rest: Seq<char>)
    requires
        crate::text::blank(pad),
        open.len() > 0,
        !crate::text::white_space(open[0]),
        free_of(span, ']', '{'),
    ensures
        ({
            let brace = open + span + seq!['{'];
            let directive = pad + (open + (span + (seq!['{'] + rest)));
            aligned_from(directive, Part::Span, (pad.len() + open.len()) as int) == {
                &&& fits_before(directive, open + span)
                &&& fits_before(directive, brace)
                &&& aligned_from(directive, Part::Fields, (pad.len() + brace.len()) as int)
            }
        }),
{
    let brace = open + span + seq!['{'];
    let body = open + (span + (seq!['{'] + rest));
    let directive = pad + body;
    let q = (open.len() + span.len()) as int;
    lemma_stretch(pad, open, span, seq!['{'] + rest, Part::Span);
    assert(body[0] == open[0] && body[q] == '{');
    assert(directive[pad.len() + q] == '{');
    assert(body.take(q) =~= open + span);
    assert(body.take(q + 1) =~= brace);
    lemma_comes_apart(pad, body, Part::Span, q);
}

/// How a stretch is read that does not end the part that is being read.
proof fn lemma_stretch(
    pad: Seq<char>,
    head: Seq<char>,
    stretch: Seq<char>,
    rest: Seq<char>,
    part: Part,
)
    requires
        forall|i: int|
            0 <= i < stretch.len() ==> {
                &&& part_after(part, #[trigger] stretch[i]) == Some(part)
                &&& !cut_before(part, stretch[i])
                &&& !cut_behind(part, stretch[i])
            },
    ensures
        ({
            let directive = pad + (head + (stretch + rest));
            let p = pad.len() + head.len();
            aligned_from(directive, part, p as int) == aligned_from(
                directive,
                part,
                (p + stretch.len()) as int,
            )
        }),
{
    let directive = pad + (head + (stretch + rest));
    let p = (pad.len() + head.len()) as int;
    assert forall|i: int| p <= i < p + stretch.len() implies {
        &&& part_after(part, #[trigger] directive[i]) == Some(part)
        &&& !cut_before(part, directive[i])
        &&& !cut_behind(part, directive[i])
    } by {
        assert(directive[i] == stretch[i - p]);
    }
    lemma_part_stays(directive, part, p, p + stretch.len());
}

/// How what stands behind the fields of a span is read.
proof fn lemma_fields_end(pad: Seq<char>, head: Seq<char>, level: Option<Seq<char>>)
    requires
        crate::text::blank(pad),
        head.len() > 0,
        !crate::text::white_space(head[0]),
    ensures
        ({
            let closed = head + seq!['}', ']'];
            let directive = pad + (head + (seq!['}', ']'] + tail_of(level)));
            aligned_from(directive, Part::Fields, (pad.len() + head.len()) as int) == {
                &&& fits_before(directive, head)
                &&& level is Some ==> fits_before(directive, closed + seq!['='])
            }
        }),
{
    let closed = head + seq!['}', ']'];
    let body = head + (seq!['}', ']'] + tail_of(level));
    let directive = pad + body;
    let f = head.len() as int;
    let p = pad.len() as int;
    assert(body =~= closed + tail_of(level));
    assert(body[0] == head[0] && closed[0] == head[0]);
    assert(body[f] == '}' && body[f + 1] == ']');
    assert(directive[p + f] == '}' && directive[p + f + 1] == ']');
    assert(body.take(f) =~= head);
    lemma_comes_apart(pad, body, Part::Fields, f);
    lemma_comes_apart(pad, body, Part::FieldsEnd, f + 1);
    lemma_span_end(pad, closed, level);
    reveal_with_fuel(aligned_from, 3);
}

proof fn lemma_directive_len_is(directive: Seq<char>, rest: Seq<char>)
    requires
        !directive.contains(','),
        rest.len() > 0 ==> rest[0] == ',',
    ensures
        directive_len(directive + rest) == directive.len(),
    decreases directive.len(),
{
    let all = directive + rest;
    if directive.len() > 0 {
        assert(all[0] == directive[0]);
        assert(directive.contains(directive[0]));
        let behind = directive.drop_first();
        assert(!behind.contains(',')) by {
            if behind.contains(',') {
                let k = choose|k: int| 0 <= k < behind.len() && behind[k] == ',';
                assert(directive[k + 1] == ',');
            }
        }
        lemma_directive_len_is(behind, rest);
        assert(all.drop_first() =~= behind + rest);
    }
}

/// An expression can be read exactly where each of the directives between its commas
/// can.
pub proof fn commas_part_directives(directive: Seq<char>, rest: Seq<char>)
    requires
        !directive.contains(','),
    ensures
        readable(directive) == aligned(directive),
        readable(directive + seq![','] + rest) == (aligned(directive) && readable(rest)),
{
    lemma_directive_len_is(directive, Seq::empty());
    assert(directive + Seq::empty() =~= directive);
    assert(directive.take(directive.len() as int) =~= directive);
    let all = directive + seq![','] + rest;
    lemma_directive_len_is(directive, seq![','] + rest);
    assert(directive + (seq![','] + rest) =~= all);
    assert(all.take(directive.len() as int) =~= directive);
    assert(all.skip(directive.len() as int + 1) =~= rest);
}

/// A filter expression is its directives with a comma between each two.
pub proof fn commas_join_directives(directives: Seq<Seq<char>>, last: Seq<char>)
    requires
        directives.len() > 0,
    ensures
        joined(seq![last]) == last,
        joined(directives.push(last)) == joined(directives) + seq![','] + last,
{
    reveal_strlit(",");
    assert(directives.push(last).drop_last() =~= directives);
    assert(","@ =~= seq![',']);
}

/// A directive with nothing on it is never taken apart.
pub proof fn blank_is_aligned(pad: Seq<char>)
    requires
        crate::text::blank(pad),
    ensures
        aligned(pad),
    decreases pad.len(),
{
    lemma_indent(pad);
    if indent(pad) < pad.len() {
        assert(crate::text::white_space(pad[indent(pad) as int]));
    }
}

/// An expression counts as one that a filter is made of exactly where there is a
/// filter that is made of it.
pub proof fn every_filter_counts(filter: EnvFilter, expression: Seq<char>)
    ensures
        made_of(filter, expression) ==> filter_parses(expression),
        (forall|other: EnvFilter| !#[trigger] made_of(other, expression)) ==> !filter_parses(
            expression,
        ),
{
}

} // verus!
